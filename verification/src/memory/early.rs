//! Regions set aside before the runtime allocator exists: a short list,
//! sorted by start, of intervals that the frame cursor must not hand out.

use vstd::prelude::*;
use crate::abi::{MemoryDescriptor, MemoryMap, CONVENTIONAL_MEMORY};
use crate::memory::allocator::{frame_ceil, ReservedRegion};
use crate::memory::error::MemoryInitError;
use crate::memory::map::{descriptors_of, MemoryMapIter, FRAME_SIZE};

verus! {

/// Most regions that the list holds.
pub const MAX_EARLY_RESERVATIONS: usize = 16;

/// Whether `[a_start, a_end)` and `[b_start, b_end)` share a byte.
pub open spec fn spec_ranges_overlap(a_start: u64, a_end: u64, b_start: u64, b_end: u64) -> bool {
    a_start < b_end && b_start < a_end
}

/// Whether `[a_start, a_end)` and `[b_start, b_end)` share a byte.
#[verifier::when_used_as_spec(spec_ranges_overlap)]
pub fn ranges_overlap(a_start: u64, a_end: u64, b_start: u64, b_end: u64) -> (r: bool)
    ensures
        r == spec_ranges_overlap(a_start, a_end, b_start, b_end),
{
    a_start < b_end && b_start < a_end
}

/// `value` rounded up to a multiple of `align`, where `align` is a power of
/// two and the result fits in 64 bits.
pub open spec fn aligned_up(value: u64, align: u64) -> Option<u64> {
    if align == 0 || value + (align - 1) > u64::MAX {
        None
    } else {
        Some(((value + (align - 1)) as u64) & !((align - 1) as u64))
    }
}

/// Rounds `value` up to a multiple of `align`, a power of two. `None` for
/// an `align` of zero and where the sum `value + align - 1` overflows.
pub fn align_up(value: u64, align: u64) -> (r: Option<u64>)
    ensures
        r == aligned_up(value, align),
{
    if align == 0 {
        return None;
    }
    let mask: u64 = align - 1;
    match value.checked_add(mask) {
        None => None,
        Some(sum) => Some(sum & !mask),
    }
}

/// Rounding up to the frame size is rounding up to the next frame boundary.
pub proof fn lemma_aligned_up_frame(value: u64)
    ensures
        aligned_up(value, FRAME_SIZE) == if value + 4095 <= u64::MAX {
            Some(frame_ceil(value as int) as u64)
        } else {
            None::<u64>
        },
        value + 4095 <= u64::MAX ==> value <= frame_ceil(value as int) <= u64::MAX && frame_ceil(
            value as int,
        ) % 4096 == 0,
{
    if value + 4095 <= u64::MAX {
        let sum = (value + 4095) as u64;
        assert(sum & !4095u64 == sum - sum % 4096) by (bit_vector);
    }
}

/// The first region of `s` that shares a byte with `region`.
pub open spec fn first_overlap(s: Seq<ReservedRegion>, region: ReservedRegion) -> Option<
    ReservedRegion,
>
    decreases s.len(),
{
    if s.len() == 0 {
        None
    } else if spec_ranges_overlap(s[0].start, s[0].end, region.start, region.end) {
        Some(s[0])
    } else {
        first_overlap(s.skip(1), region)
    }
}

/// The first region of `s` that holds `addr`.
pub open spec fn first_holding(s: Seq<ReservedRegion>, addr: u64) -> Option<ReservedRegion>
    decreases s.len(),
{
    if s.len() == 0 {
        None
    } else if s[0].start <= addr < s[0].end {
        Some(s[0])
    } else {
        first_holding(s.skip(1), addr)
    }
}

/// What `first_overlap` finds overlaps; where it finds nothing, nothing does.
pub proof fn lemma_first_overlap(s: Seq<ReservedRegion>, region: ReservedRegion)
    ensures
        match first_overlap(s, region) {
            Some(e) => spec_ranges_overlap(e.start, e.end, region.start, region.end) && s.contains(
                e,
            ),
            None => forall|i: int|
                0 <= i < s.len() ==> !spec_ranges_overlap(
                    (#[trigger] s[i]).start,
                    s[i].end,
                    region.start,
                    region.end,
                ),
        },
    decreases s.len(),
{
    if s.len() == 0 {
    } else if spec_ranges_overlap(s[0].start, s[0].end, region.start, region.end) {
        assert(s[0] == s[0]);
    } else {
        let rest = s.skip(1);
        lemma_first_overlap(rest, region);
        match first_overlap(rest, region) {
            Some(e) => {
                let i = choose|i: int| 0 <= i < rest.len() && rest[i] == e;
                assert(s[i + 1] == e);
            },
            None => {
                assert forall|i: int| 0 <= i < s.len() implies !spec_ranges_overlap(
                    (#[trigger] s[i]).start,
                    s[i].end,
                    region.start,
                    region.end,
                ) by {
                    if i > 0 {
                        assert(s[i] == rest[i - 1]);
                    }
                }
            },
        }
    }
}

/// What `first_holding` finds holds the address; where it finds nothing,
/// no region does.
pub proof fn lemma_first_holding(s: Seq<ReservedRegion>, addr: u64)
    ensures
        match first_holding(s, addr) {
            Some(e) => e.start <= addr < e.end && s.contains(e),
            None => forall|i: int|
                0 <= i < s.len() ==> !((#[trigger] s[i]).start <= addr < s[i].end),
        },
    decreases s.len(),
{
    if s.len() == 0 {
    } else if s[0].start <= addr < s[0].end {
        assert(s[0] == s[0]);
    } else {
        let rest = s.skip(1);
        lemma_first_holding(rest, addr);
        match first_holding(rest, addr) {
            Some(e) => {
                let i = choose|i: int| 0 <= i < rest.len() && rest[i] == e;
                assert(s[i + 1] == e);
            },
            None => {
                assert forall|i: int| 0 <= i < s.len() implies !((#[trigger] s[i]).start <= addr
                    < s[i].end) by {
                    if i > 0 {
                        assert(s[i] == rest[i - 1]);
                    }
                }
            },
        }
    }
}

/// `i` is where a region that starts at `start` goes: before the first
/// region that starts later.
pub open spec fn is_insert_point(s: Seq<ReservedRegion>, start: u64, i: int) -> bool {
    &&& 0 <= i <= s.len()
    &&& i < s.len() ==> s[i].start > start
    &&& forall|j: int| 0 <= j < i ==> (#[trigger] s[j]).start <= start
}

/// The early reservations, sorted by start.
pub struct ReservationList {
    entries: Vec<ReservedRegion>,
}

impl ReservationList {
    /// The regions, in order.
    pub closed spec fn view(&self) -> Seq<ReservedRegion> {
        self.entries@
    }

    /// At most sixteen regions, none empty, sorted by start, no two sharing
    /// a byte.
    pub open spec fn wf(&self) -> bool {
        &&& self@.len() <= MAX_EARLY_RESERVATIONS
        &&& forall|i: int| 0 <= i < self@.len() ==> (#[trigger] self@[i]).start < self@[i].end
        &&& forall|i: int, j: int|
            0 <= i < j < self@.len() ==> (#[trigger] self@[i]).end <= (#[trigger] self@[j]).start
    }

    /// A list without regions.
    pub fn new() -> (r: Self)
        ensures
            r.wf(),
            r@.len() == 0,
    {
        ReservationList { entries: Vec::new() }
    }

    /// Number of regions.
    pub fn len(&self) -> (r: usize)
        ensures
            r == self@.len(),
    {
        self.entries.len()
    }

    /// The regions, in order.
    pub fn as_slice(&self) -> (r: &[ReservedRegion])
        ensures
            r@ == self@,
    {
        self.entries.as_slice()
    }

    /// The first region that shares a byte with `region`.
    pub fn overlaps(&self, region: ReservedRegion) -> (r: Option<ReservedRegion>)
        ensures
            r == first_overlap(self@, region),
    {
        let n: usize = self.entries.len();
        let mut i: usize = 0;
        assert(self@.skip(0) =~= self@);
        while i < n
            invariant
                i <= n,
                n == self.entries@.len(),
                first_overlap(self@, region) == first_overlap(self@.skip(i as int), region),
            decreases n - i,
        {
            let existing: ReservedRegion = self.entries[i];
            proof {
                assert(self@.skip(i as int)[0] == existing);
                assert(self@.skip(i as int).skip(1) =~= self@.skip(i as int + 1));
            }
            if ranges_overlap(existing.start, existing.end, region.start, region.end) {
                return Some(existing);
            }
            i = i + 1;
        }
        None
    }

    /// The first region that holds `addr`.
    pub fn contains(&self, addr: u64) -> (r: Option<ReservedRegion>)
        ensures
            r == first_holding(self@, addr),
    {
        let n: usize = self.entries.len();
        let mut i: usize = 0;
        assert(self@.skip(0) =~= self@);
        while i < n
            invariant
                i <= n,
                n == self.entries@.len(),
                first_holding(self@, addr) == first_holding(self@.skip(i as int), addr),
            decreases n - i,
        {
            let existing: ReservedRegion = self.entries[i];
            proof {
                assert(self@.skip(i as int)[0] == existing);
                assert(self@.skip(i as int).skip(1) =~= self@.skip(i as int + 1));
            }
            if addr >= existing.start && addr < existing.end {
                return Some(existing);
            }
            i = i + 1;
        }
        None
    }

    /// Adds a region, keeping the list sorted by start. Refused, with the
    /// list left as it was: a region with `start >= end`, one that shares a
    /// byte with a region of the list, and any region once the list is full.
    pub fn push(&mut self, region: ReservedRegion) -> (r: Result<(), MemoryInitError>)
        requires
            old(self).wf(),
        ensures
            final(self).wf(),
            r is Err <==> region.start >= region.end || first_overlap(old(self)@, region) is Some
                || old(self)@.len() >= MAX_EARLY_RESERVATIONS,
            r is Err ==> r == Err::<(), _>(MemoryInitError::TooLarge) && final(self)@ == old(self)@,
            r is Ok ==> exists|k: int|
                is_insert_point(old(self)@, region.start, k) && final(self)@ == old(self)@.insert(
                    k,
                    region,
                ),
    {
        if region.start >= region.end {
            return Err(MemoryInitError::TooLarge);
        }
        if self.overlaps(region).is_some() {
            return Err(MemoryInitError::TooLarge);
        }
        if self.entries.len() >= MAX_EARLY_RESERVATIONS {
            return Err(MemoryInitError::TooLarge);
        }
        proof {
            lemma_first_overlap(self@, region);
        }
        let n: usize = self.entries.len();
        let mut index: usize = 0;
        while index < n && self.entries[index].start <= region.start
            invariant
                index <= n,
                n == self.entries@.len(),
                *self == *old(self),
                forall|j: int| 0 <= j < index
                    ==> (#[trigger] self.entries@[j]).start <= region.start,
            decreases n - index,
        {
            index = index + 1;
        }
        let ghost before = self.entries@;
        assert(is_insert_point(before, region.start, index as int));
        self.entries.insert(index, region);
        proof {
            let after = self.entries@;
            assert(after == before.insert(index as int, region));
            assert forall|i: int| 0 <= i < after.len() implies (#[trigger] after[i]).start
                < after[i].end by {
                if i < index {
                    assert(after[i] == before[i]);
                } else if i > index {
                    assert(after[i] == before[i - 1]);
                }
            }
            assert forall|i: int, j: int| 0 <= i < j < after.len() implies (#[trigger] after[i]).end
                <= (#[trigger] after[j]).start by {
                let bi = if i < index {
                    i
                } else {
                    i - 1
                };
                let bj = if j < index {
                    j
                } else {
                    j - 1
                };
                if i != index {
                    assert(after[i] == before[bi]);
                }
                if j != index {
                    assert(after[j] == before[bj]);
                }
                if i == index {
                    assert(before[bj].start > region.start) by {
                        if bj > index {
                            assert(before[index as int].end <= before[bj].start);
                        }
                    }
                } else if j == index {
                    assert(before[bi].start <= region.start);
                }
            }
        }
        Ok(())
    }
}

/// Where, in the memory of one descriptor, a region may be placed: from the
/// first frame boundary at or above the start, the zero page left out, to
/// the end. `Ok(None)` for a descriptor with no such memory; `TooLarge`
/// where its bounds do not fit in 64 bits.
pub open spec fn region_window(d: MemoryDescriptor) -> Result<Option<(u64, u64)>, MemoryInitError> {
    let base = if d.physical_start > FRAME_SIZE {
        d.physical_start
    } else {
        FRAME_SIZE
    };
    if d.typ != CONVENTIONAL_MEMORY || d.number_of_pages == 0 {
        Ok(None)
    } else if base + 4095 > u64::MAX || d.physical_start + d.number_of_pages * FRAME_SIZE
        > u64::MAX {
        Err(MemoryInitError::TooLarge)
    } else if frame_ceil(base as int) >= d.physical_start + d.number_of_pages * FRAME_SIZE {
        Ok(None)
    } else {
        Ok(
            Some(
                (
                    frame_ceil(base as int) as u64,
                    (d.physical_start + d.number_of_pages * FRAME_SIZE) as u64,
                ),
            ),
        )
    }
}

/// The lowest start at or above `candidate` at which `size` bytes end at or
/// below `limit` and share no byte with a reserved region. The search moves
/// past each region that is in the way, to the frame boundary at or above
/// its end. `Ok(None)` where nothing fits; `TooLarge` where such a boundary
/// does not fit in 64 bits.
pub open spec fn place_in(
    candidate: u64,
    limit: u64,
    reserved: Seq<ReservedRegion>,
    size: u64,
) -> Result<
    Option<u64>,
    MemoryInitError,
>
    decreases limit - candidate,
{
    if candidate + size > limit {
        Ok(None)
    } else {
        match first_overlap(
            reserved,
            ReservedRegion { start: candidate, end: (candidate + size) as u64 },
        ) {
            None => Ok(Some(candidate)),
            Some(existing) => if existing.end + 4095 > u64::MAX {
                Err(MemoryInitError::TooLarge)
            } else if candidate < frame_ceil(existing.end as int) <= limit {
                place_in(frame_ceil(existing.end as int) as u64, limit, reserved, size)
            } else {
                Ok(None)
            },
        }
    }
}

/// The start of the region that `allocate_region` picks for `size` bytes:
/// the lowest free place in the first descriptor, in firmware order, that
/// has one.
pub open spec fn region_choice(
    descs: Seq<MemoryDescriptor>,
    reserved: Seq<ReservedRegion>,
    size: u64,
) -> Result<u64, MemoryInitError>
    decreases descs.len(),
{
    if descs.len() == 0 {
        Err(MemoryInitError::OutOfFrames)
    } else {
        match region_window(descs[0]) {
            Err(e) => Err(e),
            Ok(None) => region_choice(descs.skip(1), reserved, size),
            Ok(Some((start, limit))) => match place_in(start, limit, reserved, size) {
                Err(e) => Err(e),
                Ok(Some(at)) => Ok(at),
                Ok(None) => region_choice(descs.skip(1), reserved, size),
            },
        }
    }
}

/// Finds room for `bytes` bytes, rounded up to whole frames, in the
/// conventional memory of the map, and records it as reserved. The first
/// descriptor with room wins, and in it the lowest place that no earlier
/// reservation touches.
#[verifier::loop_isolation(false)]
pub fn allocate_region(
    map: &MemoryMap,
    buffer: &[u8],
    reservations: &mut ReservationList,
    bytes: usize,
) -> (r: Result<ReservedRegion, MemoryInitError>)
    requires
        old(reservations).wf(),
    ensures
        final(reservations).wf(),
        bytes == 0 || aligned_up(bytes as u64, FRAME_SIZE) is None ==> r == Err::<
            ReservedRegion,
            _,
        >(MemoryInitError::TooLarge) && final(reservations)@ == old(reservations)@,
        bytes != 0 && aligned_up(bytes as u64, FRAME_SIZE) is Some ==> ({
            let size = aligned_up(bytes as u64, FRAME_SIZE)->Some_0;
            match region_choice(descriptors_of(*map, buffer@), old(reservations)@, size) {
                Err(e) => r == Err::<ReservedRegion, _>(e)
                    && final(reservations)@ == old(reservations)@,
                Ok(at) => if old(reservations)@.len() >= MAX_EARLY_RESERVATIONS {
                    r == Err::<ReservedRegion, _>(MemoryInitError::TooLarge)
                        && final(reservations)@ == old(reservations)@
                } else {
                    let region = ReservedRegion { start: at, end: (at + size) as u64 };
                    &&& r == Ok::<_, MemoryInitError>(region)
                    &&& at + size <= u64::MAX
                    &&& first_overlap(old(reservations)@, region) is None
                    &&& exists|k: int|
                        is_insert_point(old(reservations)@, at, k)
                            && final(reservations)@ == old(reservations)@.insert(k, region)
                },
            }
        }),
{
    if bytes == 0 {
        return Err(MemoryInitError::TooLarge);
    }
    let alloc_bytes: u64 = match align_up(bytes as u64, FRAME_SIZE) {
        None => {
            return Err(MemoryInitError::TooLarge);
        },
        Some(b) => b,
    };
    proof {
        lemma_aligned_up_frame(bytes as u64);
    }
    let ghost reserved = reservations@;
    let mut iter = MemoryMapIter::new(map, buffer);
    let ghost descs = iter@;
    loop
        invariant
            iter.wf(),
            reservations.wf(),
            reservations@ == reserved,
            reserved == old(reservations)@,
            alloc_bytes > 0,
            region_choice(iter@, reserved, alloc_bytes) == region_choice(
                descs,
                reserved,
                alloc_bytes,
            ),
        decreases iter@.len(),
    {
        let ghost rest = iter@;
        let descriptor = match iter.next() {
            None => {
                return Err(MemoryInitError::OutOfFrames);
            },
            Some(d) => d,
        };
        if descriptor.typ != CONVENTIONAL_MEMORY {
            continue ;
        }
        if descriptor.number_of_pages == 0 {
            continue ;
        }
        let base: u64 = if descriptor.physical_start > FRAME_SIZE {
            descriptor.physical_start
        } else {
            FRAME_SIZE
        };
        proof {
            lemma_aligned_up_frame(base);
        }
        let region_start: u64 = match align_up(base, FRAME_SIZE) {
            None => {
                return Err(MemoryInitError::TooLarge);
            },
            Some(s) => s,
        };
        let region_size: u64 = match descriptor.number_of_pages.checked_mul(FRAME_SIZE) {
            None => {
                return Err(MemoryInitError::TooLarge);
            },
            Some(s) => s,
        };
        let region_end: u64 = match descriptor.physical_start.checked_add(region_size) {
            None => {
                return Err(MemoryInitError::TooLarge);
            },
            Some(e) => e,
        };
        if region_start >= region_end {
            continue ;
        }
        assert(region_window(descriptor) == Ok::<_, MemoryInitError>(
            Some((region_start, region_end)),
        ));
        let mut candidate: u64 = region_start;
        let ghost target = place_in(region_start, region_end, reserved, alloc_bytes);
        let ghost mut nothing_fits = false;
        loop
            invariant
                reservations.wf(),
                reservations@ == reserved,
                reserved == old(reservations)@,
                alloc_bytes > 0,
                place_in(candidate, region_end, reserved, alloc_bytes) == target,
                nothing_fits ==> target == Ok::<Option<u64>, MemoryInitError>(None),
            decreases region_end - candidate,
        {
            let end: u64 = match candidate.checked_add(alloc_bytes) {
                None => {
                    proof {
                        nothing_fits = true;
                    }
                    break ;
                },
                Some(e) => e,
            };
            if end > region_end {
                proof {
                    nothing_fits = true;
                }
                break ;
            }
            let candidate_region = ReservedRegion { start: candidate, end };
            proof {
                lemma_first_overlap(reserved, candidate_region);
            }
            if let Some(existing) = reservations.overlaps(candidate_region) {
                proof {
                    lemma_aligned_up_frame(existing.end);
                }
                let next: u64 = match align_up(existing.end, FRAME_SIZE) {
                    None => {
                        return Err(MemoryInitError::TooLarge);
                    },
                    Some(c) => c,
                };
                if next > region_end {
                    proof {
                        nothing_fits = true;
                    }
                    break ;
                }
                candidate = next;
                continue ;
            }
            match reservations.push(candidate_region) {
                Err(e) => {
                    return Err(e);
                },
                Ok(_) => {},
            }
            return Ok(candidate_region);
        }
    }
}

} // verus!
