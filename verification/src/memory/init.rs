//! Memory bring-up: the steps from the firmware map to the runtime
//! allocator and the page tables, in the order in which the kernel takes
//! them. Everything here decides and computes; copying the map, reading
//! the stack pointer and switching the page tables are the caller's part.

use vstd::prelude::*;
use crate::abi::{Framebuffer, MemoryDescriptor, MemoryMap};
use crate::memory::allocator::{PhysFrame, ReservedRegion};
use crate::memory::early::ReservationList as EarlyReservations;
use crate::memory::error::{
    frame_error_as_init, init_error_from_frame_error, MemoryInitError, PagingError,
    PhysAllocInitError,
};
use crate::memory::free_list::{frames_free, free_bytes};
use crate::memory::frame::{first_run, gap_error, has_run_of, usable_frames, FrameAllocator};
use crate::memory::map::{
    descriptor_range, descriptor_span, descriptors_of, find_descriptor_containing,
    first_containing, FRAME_SIZE,
};
use crate::memory::paging::{
    build_identity_paging, directories_needed, maps_exactly, staged_ranges, PageTables,
};
use crate::memory::allocator::StoragePlan;
use crate::memory::paging::paging_fault;
use crate::memory::physical::{
    construction, conventional_bytes, conventional_count, planned, reserved_bytes,
    runtime_storage_plan, PhysicalAllocator,
};

verus! {

/// The low window that is always mapped onto itself: the first GiB.
pub const LOW_IDENTITY_LIMIT: u64 = 0x4000_0000;

/// Most identity ranges that bring-up stages.
pub const MAX_IDENTITY_RANGES: usize = 4;

/// Most reservations that bring-up stages.
pub const MAX_RESERVATIONS: usize = 8;

/// What adding `range` to the staged ranges `s`, with room for `cap`, comes
/// to: an empty range and one that is staged already change nothing; a
/// range that finds no room is refused.
pub open spec fn range_pushed(s: Seq<(u64, u64)>, range: (u64, u64), cap: nat) -> Result<
    Seq<(u64, u64)>,
    MemoryInitError,
> {
    if range.0 >= range.1 || s.contains(range) {
        Ok(s)
    } else if s.len() >= cap {
        Err(MemoryInitError::IdentityRangeOverflow { start: range.0, end: range.1 })
    } else {
        Ok(s.push(range))
    }
}

/// The ranges that must stay mapped onto themselves when the page tables
/// are switched.
pub struct IdentityRanges {
    entries: Vec<(u64, u64)>,
}

impl IdentityRanges {
    /// The ranges, in the order in which they were staged.
    pub closed spec fn view(&self) -> Seq<(u64, u64)> {
        self.entries@
    }

    /// At most four ranges, none empty, none twice.
    pub open spec fn wf(&self) -> bool {
        &&& self@.len() <= MAX_IDENTITY_RANGES
        &&& forall|i: int| 0 <= i < self@.len() ==> (#[trigger] self@[i]).0 < self@[i].1
        &&& forall|i: int, j: int|
            0 <= i < j < self@.len() ==> #[trigger] self@[i] != #[trigger] self@[j]
    }

    pub fn new() -> (r: Self)
        ensures
            r.wf(),
            r@.len() == 0,
    {
        IdentityRanges { entries: Vec::new() }
    }

    /// Stages a range. An empty range and one that is staged already are
    /// passed over; a fifth range is refused.
    pub fn push(&mut self, range: (u64, u64)) -> (r: Result<(), MemoryInitError>)
        requires
            old(self).wf(),
        ensures
            final(self).wf(),
            match range_pushed(old(self)@, range, MAX_IDENTITY_RANGES as nat) {
                Ok(s) => r is Ok && final(self)@ == s,
                Err(e) => r == Err::<(), _>(e) && final(self)@ == old(self)@,
            },
    {
        if range.0 >= range.1 {
            return Ok(());
        }
        let n: usize = self.entries.len();
        let mut i: usize = 0;
        while i < n
            invariant
                i <= n,
                n == self.entries@.len(),
                *self == *old(self),
                self.wf(),
                forall|j: int| 0 <= j < i ==> #[trigger] self.entries@[j] != range,
            decreases n - i,
        {
            let existing: (u64, u64) = self.entries[i];
            if existing.0 == range.0 && existing.1 == range.1 {
                assert(self@[i as int] == range);
                return Ok(());
            }
            i = i + 1;
        }
        if self.entries.len() >= MAX_IDENTITY_RANGES {
            return Err(MemoryInitError::IdentityRangeOverflow { start: range.0, end: range.1 });
        }
        self.entries.push(range);
        Ok(())
    }

    /// The staged ranges.
    pub fn as_slice(&self) -> (r: &[(u64, u64)])
        ensures
            r@ == self@,
    {
        self.entries.as_slice()
    }
}

/// What adding `range` to the staged reservations `s`, with room for `cap`,
/// comes to: as for identity ranges.
pub open spec fn region_pushed(s: Seq<ReservedRegion>, range: (u64, u64), cap: nat) -> Result<
    Seq<ReservedRegion>,
    MemoryInitError,
> {
    let region = ReservedRegion { start: range.0, end: range.1 };
    if range.0 >= range.1 || s.contains(region) {
        Ok(s)
    } else if s.len() >= cap {
        Err(MemoryInitError::IdentityRangeOverflow { start: range.0, end: range.1 })
    } else {
        Ok(s.push(region))
    }
}

/// What adding `ranges`, one after another, to the staged reservations `s`
/// comes to: the reservations as they stand at the end or at the first
/// refusal, and that refusal.
pub open spec fn regions_extended(s: Seq<ReservedRegion>, ranges: Seq<(u64, u64)>, cap: nat) -> (
    Seq<ReservedRegion>,
    Option<MemoryInitError>,
)
    decreases ranges.len(),
{
    if ranges.len() == 0 {
        (s, None)
    } else {
        match region_pushed(s, ranges[0], cap) {
            Err(e) => (s, Some(e)),
            Ok(t) => regions_extended(t, ranges.skip(1), cap),
        }
    }
}

/// The regions that the runtime allocator must keep out of its free runs.
pub struct ReservationList {
    entries: Vec<ReservedRegion>,
}

impl ReservationList {
    /// The regions, in the order in which they were staged.
    pub closed spec fn view(&self) -> Seq<ReservedRegion> {
        self.entries@
    }

    /// At most eight regions, none empty.
    pub open spec fn wf(&self) -> bool {
        &&& self@.len() <= MAX_RESERVATIONS
        &&& forall|i: int| 0 <= i < self@.len() ==> (#[trigger] self@[i]).start < self@[i].end
    }

    pub fn new() -> (r: Self)
        ensures
            r.wf(),
            r@.len() == 0,
    {
        ReservationList { entries: Vec::new() }
    }

    /// Stages a region. An empty region and one that is staged already are
    /// passed over; a ninth region is refused.
    pub fn push(&mut self, range: (u64, u64)) -> (r: Result<(), MemoryInitError>)
        requires
            old(self).wf(),
        ensures
            final(self).wf(),
            match region_pushed(old(self)@, range, MAX_RESERVATIONS as nat) {
                Ok(s) => r is Ok && final(self)@ == s,
                Err(e) => r == Err::<(), _>(e) && final(self)@ == old(self)@,
            },
    {
        let (start, end) = range;
        if start >= end {
            return Ok(());
        }
        let region = ReservedRegion { start, end };
        let n: usize = self.entries.len();
        let mut i: usize = 0;
        while i < n
            invariant
                i <= n,
                n == self.entries@.len(),
                *self == *old(self),
                self.wf(),
                range == (start, end),
                region == (ReservedRegion { start, end }),
                forall|j: int| 0 <= j < i ==> #[trigger] self.entries@[j] != region,
            decreases n - i,
        {
            let existing: ReservedRegion = self.entries[i];
            if existing.start == start && existing.end == end {
                assert(self@[i as int] == region);
                return Ok(());
            }
            i = i + 1;
        }
        if self.entries.len() >= MAX_RESERVATIONS {
            return Err(MemoryInitError::IdentityRangeOverflow { start, end });
        }
        self.entries.push(region);
        Ok(())
    }

    /// Stages each of `ranges`, in order, up to the first that is refused.
    pub fn extend(&mut self, ranges: &[(u64, u64)]) -> (r: Result<(), MemoryInitError>)
        requires
            old(self).wf(),
        ensures
            final(self).wf(),
            final(self)@ == regions_extended(old(self)@, ranges@, MAX_RESERVATIONS as nat).0,
            match regions_extended(old(self)@, ranges@, MAX_RESERVATIONS as nat).1 {
                None => r is Ok,
                Some(e) => r == Err::<(), _>(e),
            },
    {
        let n: usize = ranges.len();
        let mut i: usize = 0;
        proof {
            assert(ranges@.skip(0) =~= ranges@);
        }
        while i < n
            invariant
                i <= n,
                n == ranges@.len(),
                self.wf(),
                regions_extended(self@, ranges@.skip(i as int), MAX_RESERVATIONS as nat)
                    == regions_extended(old(self)@, ranges@, MAX_RESERVATIONS as nat),
            decreases n - i,
        {
            let range: (u64, u64) = ranges[i];
            proof {
                assert(ranges@.skip(i as int)[0] == range);
                assert(ranges@.skip(i as int).skip(1) =~= ranges@.skip(i as int + 1));
            }
            match self.push(range) {
                Err(e) => {
                    return Err(e);
                },
                Ok(_) => {},
            }
            i = i + 1;
        }
        Ok(())
    }

    /// The staged regions.
    pub fn as_slice(&self) -> (r: &[ReservedRegion])
        ensures
            r@ == self@,
    {
        self.entries.as_slice()
    }

    /// Number of staged regions.
    pub fn len(&self) -> (r: usize)
        ensures
            r == self@.len(),
    {
        self.entries.len()
    }
}

/// Number of whole frames that hold `bytes` bytes.
pub open spec fn frames_for(bytes: int) -> int {
    (bytes + FRAME_SIZE - 1) / (FRAME_SIZE as int)
}

/// What a request for `n` frames in a row, one at least, comes to on the
/// frames `f`, as memory bring-up reports it: the byte range of the run, or
/// the failure of the frame cursor, or `TooLarge` where the end of the run
/// does not fit in 64 bits.
pub open spec fn run_claimed(f: Seq<u64>, n: int) -> Result<(u64, u64), MemoryInitError> {
    if !has_run_of(f, n) {
        Err(frame_error_as_init(gap_error(f)))
    } else if f[first_run(f, n)] + n * FRAME_SIZE > u64::MAX {
        Err(MemoryInitError::TooLarge)
    } else {
        Ok((f[first_run(f, n)], (f[first_run(f, n)] + n * FRAME_SIZE) as u64))
    }
}

/// What a request for `n` frames in a row, one at least, leaves of the
/// frames `f`: the frames behind the run, or nothing where `f` has no such
/// run.
pub open spec fn frames_after(f: Seq<u64>, n: int) -> Seq<u64> {
    if has_run_of(f, n) {
        f.skip(first_run(f, n) + n)
    } else {
        Seq::empty()
    }
}

/// Takes `frames` frames in a row, one at least, from the cursor and
/// returns their byte range.
pub fn claim_frames(alloc: &mut FrameAllocator, frames: usize) -> (r: Result<
    (u64, u64),
    MemoryInitError,
>)
    requires
        old(alloc).wf(),
        frames >= 1,
    ensures
        final(alloc).wf(),
        final(alloc).reserved() == old(alloc).reserved(),
        r == run_claimed(old(alloc)@, frames as int),
        final(alloc)@ == frames_after(old(alloc)@, frames as int),
{
    let first: u64 = match alloc.alloc_contiguous(frames) {
        Err(err) => {
            assert(alloc@ =~= Seq::<u64>::empty());
            return Err(init_error_from_frame_error(err));
        },
        Ok(first) => first,
    };
    let bytes: u64 = match (frames as u64).checked_mul(FRAME_SIZE) {
        None => {
            return Err(MemoryInitError::TooLarge);
        },
        Some(bytes) => bytes,
    };
    match first.checked_add(bytes) {
        None => Err(MemoryInitError::TooLarge),
        Some(end) => Ok((first, end)),
    }
}

/// The storage that was set aside for one slot list of the allocator.
pub open spec fn storage_frames(slots: usize, element_size: usize) -> Option<int> {
    if element_size == 0 || slots * element_size > usize::MAX {
        None
    } else if slots * element_size == 0 {
        Some(1)
    } else {
        Some(frames_for(slots * element_size))
    }
}

/// What setting storage aside for `slots` slots of `element_size` bytes
/// comes to on the frames `f`: the region, or `TooLarge` where the size of
/// the storage cannot be told, or the failure to find the frames.
pub open spec fn storage_claimed(f: Seq<u64>, slots: usize, element_size: usize) -> Result<
    ReservedRegion,
    MemoryInitError,
> {
    match storage_frames(slots, element_size) {
        None => Err(MemoryInitError::TooLarge),
        Some(frames) => match run_claimed(f, frames) {
            Err(e) => Err(e),
            Ok((start, end)) => Ok(ReservedRegion { start, end }),
        },
    }
}

/// What setting that storage aside leaves of the frames `f`.
pub open spec fn storage_left(f: Seq<u64>, slots: usize, element_size: usize) -> Seq<u64> {
    match storage_frames(slots, element_size) {
        None => f,
        Some(frames) => frames_after(f, frames),
    }
}

/// Sets aside frames for `slots` slots of `element_size` bytes each: whole
/// frames, one at least, in a row. Returns their byte range, which the
/// caller must reserve.
pub fn carve_option_storage(alloc: &mut FrameAllocator, slots: usize, element_size: usize) -> (r:
    Result<ReservedRegion, MemoryInitError>)
    requires
        old(alloc).wf(),
    ensures
        final(alloc).wf(),
        final(alloc).reserved() == old(alloc).reserved(),
        r == storage_claimed(old(alloc)@, slots, element_size),
        final(alloc)@ == storage_left(old(alloc)@, slots, element_size),
{
    if element_size == 0 {
        return Err(MemoryInitError::TooLarge);
    }
    let bytes: usize = match slots.checked_mul(element_size) {
        None => {
            return Err(MemoryInitError::TooLarge);
        },
        Some(bytes) => bytes,
    };
    let frame_bytes: usize = FRAME_SIZE as usize;
    let whole: usize = bytes / frame_bytes;
    let frames: usize = if bytes % frame_bytes != 0 {
        whole + 1
    } else if whole == 0 {
        1
    } else {
        whole
    };
    match claim_frames(alloc, frames) {
        Err(e) => Err(e),
        Ok((start, end)) => Ok(ReservedRegion { start, end }),
    }
}

/// The descriptor that holds the stack, by its type and its byte range.
#[derive(Clone, Copy, Debug)]
pub struct StackInfo {
    pub descriptor_type: u32,
    pub range: (u64, u64),
}

/// Where the copy of the memory map lies, and the record that points at it.
#[derive(Clone, Copy, Debug)]
pub struct CopiedMemoryMap {
    pub map: MemoryMap,
    pub phys_range: (u64, u64),
}

/// Sets aside frames for a copy of the memory map: as many whole frames as
/// hold `map_size` bytes, in a row. The record that is returned is the
/// record given with the address of the copy in place of the address of the
/// firmware buffer; the bytes are for the caller to copy.
pub fn copy_memory_map(source: &MemoryMap, alloc: &mut FrameAllocator) -> (r: Result<
    CopiedMemoryMap,
    MemoryInitError,
>)
    requires
        old(alloc).wf(),
    ensures
        final(alloc).wf(),
        final(alloc).reserved() == old(alloc).reserved(),
        source.map_size == 0 ==> r == Err::<CopiedMemoryMap, _>(MemoryInitError::EmptyMemoryMap)
            && final(alloc)@ == old(alloc)@,
        source.map_size != 0 && frames_for(source.map_size as int) > usize::MAX ==> r == Err::<
            CopiedMemoryMap,
            _,
        >(MemoryInitError::TooLarge) && final(alloc)@ == old(alloc)@,
        source.map_size != 0 && frames_for(source.map_size as int) <= usize::MAX ==> final(alloc)@
            == frames_after(old(alloc)@, frames_for(source.map_size as int)),
        source.map_size != 0 && frames_for(source.map_size as int) <= usize::MAX
            ==> match run_claimed(old(alloc)@, frames_for(source.map_size as int)) {
            Err(e) => r == Err::<CopiedMemoryMap, _>(e),
            Ok((start, end)) => r == Ok::<_, MemoryInitError>(
                CopiedMemoryMap {
                    map: MemoryMap {
                        descriptors_phys: start,
                        map_size: source.map_size,
                        entry_size: source.entry_size,
                        entry_version: source.entry_version,
                        entry_count: source.entry_count,
                    },
                    phys_range: (start, end),
                },
            ),
        },
{
    if source.map_size == 0 {
        return Err(MemoryInitError::EmptyMemoryMap);
    }
    let map_size: u64 = source.map_size;
    let whole: u64 = map_size / FRAME_SIZE;
    let count: u64 = if map_size % FRAME_SIZE != 0 {
        whole + 1
    } else {
        whole
    };
    if count > usize::MAX as u64 {
        return Err(MemoryInitError::TooLarge);
    }
    let frame_count: usize = count as usize;
    let (first, phys_end) = match claim_frames(alloc, frame_count) {
        Err(e) => {
            return Err(e);
        },
        Ok(range) => range,
    };
    let map = MemoryMap {
        descriptors_phys: first,
        map_size: source.map_size,
        entry_size: source.entry_size,
        entry_version: source.entry_version,
        entry_count: source.entry_count,
    };
    Ok(CopiedMemoryMap { map, phys_range: (first, phys_end) })
}

/// Makes sure that the cursor has a usable frame left, which it takes.
pub fn ensure_usable_memory(alloc: &mut FrameAllocator) -> (r: Result<(), MemoryInitError>)
    requires
        old(alloc).wf(),
    ensures
        final(alloc).wf(),
        final(alloc).reserved() == old(alloc).reserved(),
        old(alloc)@.len() == 0
            ==> r == Err::<(), _>(MemoryInitError::NoUsableMemory) && final(alloc)@.len() == 0,
        old(alloc)@.len() > 0 ==> r is Ok && final(alloc)@ == old(alloc)@.skip(1),
{
    if alloc.alloc_frame().is_some() {
        Ok(())
    } else {
        Err(MemoryInitError::NoUsableMemory)
    }
}

/// What `loader_stack_info` finds for the stack pointer `rsp`.
pub open spec fn stack_found(descs: Seq<MemoryDescriptor>, rsp: u64) -> Result<
    StackInfo,
    MemoryInitError,
> {
    match first_containing(descs, rsp) {
        None => Err(MemoryInitError::StackDescriptorMissing(rsp)),
        Some(d) => match descriptor_span(d) {
            None => Err(MemoryInitError::StackRangeOverflow(d.typ)),
            Some(range) => Ok(StackInfo { descriptor_type: d.typ, range }),
        },
    }
}

/// Finds the descriptor that holds the stack pointer `rsp`.
pub fn loader_stack_info(map: &MemoryMap, buffer: &[u8], rsp: u64) -> (r: Result<
    StackInfo,
    MemoryInitError,
>)
    ensures
        r == stack_found(descriptors_of(*map, buffer@), rsp),
{
    let descriptor = match find_descriptor_containing(map, buffer, rsp) {
        None => {
            return Err(MemoryInitError::StackDescriptorMissing(rsp));
        },
        Some(d) => d,
    };
    let descriptor_type: u32 = descriptor.typ;
    match descriptor_range(&descriptor) {
        None => Err(MemoryInitError::StackRangeOverflow(descriptor_type)),
        Some(range) => Ok(StackInfo { descriptor_type, range }),
    }
}

/// What `kernel_code_identity_range` finds for the address `code_addr`.
pub open spec fn code_found(descs: Seq<MemoryDescriptor>, code_addr: u64) -> Option<
    ((u64, u64), u32),
> {
    match first_containing(descs, code_addr) {
        None => None,
        Some(d) => match descriptor_span(d) {
            None => None,
            Some(range) => Some((range, d.typ)),
        },
    }
}

/// Finds the byte range and the type of the descriptor that holds the
/// address `code_addr` of kernel code.
pub fn kernel_code_identity_range(map: &MemoryMap, buffer: &[u8], code_addr: u64) -> (r: Option<
    ((u64, u64), u32),
>)
    ensures
        r == code_found(descriptors_of(*map, buffer@), code_addr),
{
    let descriptor = match find_descriptor_containing(map, buffer, code_addr) {
        None => {
            return None;
        },
        Some(d) => d,
    };
    match descriptor_range(&descriptor) {
        None => None,
        Some(range) => Some((range, descriptor.typ)),
    }
}

/// `s` with `range` added, unless the range is empty or in `s` already.
pub open spec fn range_added(s: Seq<(u64, u64)>, range: (u64, u64)) -> Seq<(u64, u64)> {
    if range.0 >= range.1 || s.contains(range) {
        s
    } else {
        s.push(range)
    }
}

/// The ranges that bring-up keeps mapped besides the low window and the
/// framebuffer: the copy of the map, the stack, and the kernel code where
/// the map has a descriptor for it.
pub open spec fn staged_identity(
    copy: (u64, u64),
    stack: (u64, u64),
    code: Option<((u64, u64), u32)>,
) -> Seq<(u64, u64)> {
    let with_stack = range_added(range_added(Seq::empty(), copy), stack);
    match code {
        Some((range, _)) => range_added(with_stack, range),
        None => with_stack,
    }
}

/// Staging one more region keeps what was staged, and holds the region
/// unless it is empty.
proof fn lemma_pushed_keeps(s: Seq<ReservedRegion>, range: (u64, u64), x: ReservedRegion)
    ensures
        region_pushed(s, range, MAX_RESERVATIONS as nat) matches Ok(t) ==> (s.contains(x)
            ==> t.contains(x)) && (range.0 < range.1 ==> t.contains(
            ReservedRegion { start: range.0, end: range.1 },
        )) && t.len() <= s.len() + 1,
{
    let region = ReservedRegion { start: range.0, end: range.1 };
    if let Ok(t) = region_pushed(s, range, MAX_RESERVATIONS as nat) {
        if t != s {
            assert(t == s.push(region));
            assert(t[s.len() as int] == region);
            if s.contains(x) {
                let i = choose|i: int| 0 <= i < s.len() && s[i] == x;
                assert(t[i] == x);
            }
        }
    }
}

/// Staging a list of ranges that has room holds every range of the list
/// that is not empty, and keeps what was staged.
proof fn lemma_extended_holds(s: Seq<ReservedRegion>, ranges: Seq<(u64, u64)>, cap: nat)
    requires
        s.len() + ranges.len() <= cap,
        cap == MAX_RESERVATIONS,
    ensures
        regions_extended(s, ranges, cap).1 is None,
        regions_extended(s, ranges, cap).0.len() <= s.len() + ranges.len(),
        forall|x: ReservedRegion|
            s.contains(x) ==> #[trigger] regions_extended(s, ranges, cap).0.contains(x),
        forall|k: int|
            0 <= k < ranges.len() && (#[trigger] ranges[k]).0 < ranges[k].1 ==> regions_extended(
                s,
                ranges,
                cap,
            ).0.contains(ReservedRegion { start: ranges[k].0, end: ranges[k].1 }),
    decreases ranges.len(),
{
    if ranges.len() > 0 {
        let t = region_pushed(s, ranges[0], cap)->Ok_0;
        let head = ReservedRegion { start: ranges[0].0, end: ranges[0].1 };
        lemma_pushed_keeps(s, ranges[0], head);
        lemma_extended_holds(t, ranges.skip(1), cap);
        let out = regions_extended(s, ranges, cap).0;
        assert forall|x: ReservedRegion| s.contains(x) implies #[trigger] out.contains(x) by {
            lemma_pushed_keeps(s, ranges[0], x);
        }
        assert forall|k: int|
            0 <= k < ranges.len() && (#[trigger] ranges[k]).0 < ranges[k].1 implies out.contains(
            ReservedRegion { start: ranges[k].0, end: ranges[k].1 },
        ) by {
            if k > 0 {
                assert(ranges.skip(1)[k - 1] == ranges[k]);
            }
        }
    }
}

/// `s` with the region of `range` added, unless the range is empty or its
/// region is in `s` already.
pub open spec fn region_added(s: Seq<ReservedRegion>, range: (u64, u64)) -> Seq<ReservedRegion> {
    let region = ReservedRegion { start: range.0, end: range.1 };
    if range.0 >= range.1 || s.contains(region) {
        s
    } else {
        s.push(region)
    }
}

/// What bring-up has found in the map before it sets storage aside.
pub struct Located {
    /// The frames that the cursor has left once the copy of the map has
    /// its frames.
    pub frames: Seq<u64>,
    /// The frames of the copy of the map.
    pub map_copy_range: (u64, u64),
    pub stack: StackInfo,
    pub kernel_code: Option<((u64, u64), u32)>,
}

/// The first steps of bring-up on the descriptors `descs`, with the early
/// reservations `early`: one usable frame is taken; the copy of the map
/// gets its frames; the stack and the kernel code are looked up. The first
/// step that fails gives its error.
pub open spec fn located(
    descs: Seq<MemoryDescriptor>,
    early: Seq<ReservedRegion>,
    map_size: u64,
    rsp: u64,
    code_addr: u64,
) -> Result<Located, MemoryInitError> {
    let frames = usable_frames(descs, early);
    let wanted = frames_for(map_size as int);
    if frames.len() == 0 {
        Err(MemoryInitError::NoUsableMemory)
    } else if map_size == 0 {
        Err(MemoryInitError::EmptyMemoryMap)
    } else if wanted > usize::MAX {
        Err(MemoryInitError::TooLarge)
    } else {
        match run_claimed(frames.skip(1), wanted) {
            Err(e) => Err(e),
            Ok(range) => match stack_found(descs, rsp) {
                Err(e) => Err(e),
                Ok(stack) => Ok(
                    Located {
                        frames: frames_after(frames.skip(1), wanted),
                        map_copy_range: range,
                        stack,
                        kernel_code: code_found(descs, code_addr),
                    },
                ),
            },
        }
    }
}

/// What bring-up has settled when it turns to the runtime allocator.
pub struct Staging {
    /// The map record, pointing at the copy of the map.
    pub map: MemoryMap,
    pub located: Located,
    /// The ranges to map besides the low window and the framebuffer.
    pub identity_ranges: Seq<(u64, u64)>,
    /// Everything to keep out of the free runs: the identity ranges, the
    /// framebuffer, and the storage of the two slot lists.
    pub reservations: Seq<ReservedRegion>,
    pub plan: StoragePlan,
    pub free_storage: ReservedRegion,
    pub reserved_storage: ReservedRegion,
}

/// Bring-up as far as the runtime allocator: after the first steps, the
/// identity ranges are staged and reserved; the framebuffer, whose end must
/// fit in 64 bits, is reserved; the slot capacities are planned, for two
/// reservations more than are staged by then; and the storage of the free
/// slots and then of the reserved slots is set aside and reserved. The
/// first step that fails gives its error.
pub open spec fn staging(
    descs: Seq<MemoryDescriptor>,
    early: Seq<ReservedRegion>,
    map: MemoryMap,
    fb: Framebuffer,
    rsp: u64,
    code_addr: u64,
    free_slot_bytes: usize,
    reserved_slot_bytes: usize,
) -> Result<Staging, MemoryInitError> {
    match located(descs, early, map.map_size, rsp, code_addr) {
        Err(e) => Err(e),
        Ok(found) => {
            let identity = staged_identity(
                found.map_copy_range,
                found.stack.range,
                found.kernel_code,
            );
            let kept = regions_extended(Seq::empty(), identity, MAX_RESERVATIONS as nat).0;
            let fb_end = fb.base_address + fb.buffer_size;
            let with_fb = region_added(kept, (fb.base_address, fb_end as u64));
            let conventional = conventional_count(descs);
            let plan = planned(conventional, with_fb.len() + 2);
            if fb_end > u64::MAX {
                Err(
                    MemoryInitError::Paging(
                        PagingError::AddressOverflow(fb.base_address, fb.buffer_size),
                    ),
                )
            } else if map.entry_count == 0 || conventional == 0 {
                Err(MemoryInitError::Allocator(PhysAllocInitError::Empty))
            } else {
                match storage_claimed(found.frames, plan.free_slots, free_slot_bytes) {
                    Err(e) => Err(e),
                    Ok(free_storage) => match storage_claimed(
                        storage_left(found.frames, plan.free_slots, free_slot_bytes),
                        plan.reserved_slots,
                        reserved_slot_bytes,
                    ) {
                        Err(e) => Err(e),
                        Ok(reserved_storage) => Ok(
                            Staging {
                                map: MemoryMap {
                                    descriptors_phys: found.map_copy_range.0,
                                    map_size: map.map_size,
                                    entry_size: map.entry_size,
                                    entry_version: map.entry_version,
                                    entry_count: map.entry_count,
                                },
                                located: found,
                                identity_ranges: identity,
                                reservations: region_added(
                                    region_added(
                                        with_fb,
                                        (free_storage.start, free_storage.end),
                                    ),
                                    (reserved_storage.start, reserved_storage.end),
                                ),
                                plan,
                                free_storage,
                                reserved_storage,
                            },
                        ),
                    },
                }
            }
        },
    }
}

/// `n` empty slots.
fn blank_storage<T>(n: usize) -> (r: Vec<Option<T>>)
    ensures
        r@.len() == n,
{
    let mut storage: Vec<Option<T>> = Vec::new();
    let mut i: usize = 0;
    while i < n
        invariant
            i <= n,
            storage@.len() == i,
        decreases n - i,
    {
        storage.push(None);
        i = i + 1;
    }
    storage
}

/// What memory bring-up decided and built.
pub struct MemoryLayout {
    /// The map record, pointing at the copy of the map.
    pub kernel_memory_map: MemoryMap,
    /// The frames of the copy of the map.
    pub map_copy_range: (u64, u64),
    /// The descriptor that holds the stack.
    pub stack: StackInfo,
    /// The descriptor that holds the kernel code, where the map has one.
    pub kernel_code: Option<((u64, u64), u32)>,
    /// The ranges that the page tables map besides the low window and the
    /// framebuffer.
    pub identity_ranges: IdentityRanges,
    /// Everything that the allocator was told to keep out of its free runs.
    pub reservations: ReservationList,
    /// The frames behind the free slots of the allocator.
    pub free_storage: ReservedRegion,
    /// The frames behind the reserved slots of the allocator.
    pub reserved_storage: ReservedRegion,
    pub allocator: PhysicalAllocator,
    pub tables: PageTables,
}

/// Brings memory up. In this order: takes one frame from the frame cursor
/// to see that the map has usable memory; sets frames aside for a copy of
/// the map; finds the descriptors of the stack and of the kernel code;
/// stages the ranges that must stay mapped (map copy, stack, kernel code)
/// and the regions that must stay reserved (these and the framebuffer);
/// plans the allocator's storage and sets frames aside for it, which are
/// reserved too; builds the allocator; and builds the page tables with
/// frames from the allocator, two for the top tables and one for each
/// directory. The first step that fails ends bring-up with its error; the
/// page tables fail for want of frames only where the allocator has fewer
/// free frames than they take.
pub fn initialize(
    memory_map: &MemoryMap,
    buffer: &[u8],
    framebuffer: &Framebuffer,
    early: &EarlyReservations,
    rsp: u64,
    code_addr: u64,
    free_slot_bytes: usize,
    reserved_slot_bytes: usize,
) -> (r: Result<MemoryLayout, MemoryInitError>)
    ensures
        ({
            let descs = descriptors_of(*memory_map, buffer@);
            match staging(
                descs,
                early@,
                *memory_map,
                *framebuffer,
                rsp,
                code_addr,
                free_slot_bytes,
                reserved_slot_bytes,
            ) {
                Err(e) => r == Err::<MemoryLayout, _>(e),
                Ok(staged) => match construction(
                    staged.map,
                    descs,
                    staged.reservations,
                    staged.plan.free_slots as nat,
                    staged.plan.reserved_slots as nat,
                ) {
                    Err(e) => r == Err::<MemoryLayout, _>(MemoryInitError::Allocator(e)),
                    Ok(slots) => {
                        let fault = paging_fault(
                            *framebuffer,
                            LOW_IDENTITY_LIMIT,
                            staged.identity_ranges,
                        );
                        let wanted = 2 + directories_needed(
                            staged_ranges(*framebuffer, LOW_IDENTITY_LIMIT, staged.identity_ranges),
                        );
                        match r {
                            Err(e) => e matches MemoryInitError::Paging(p) && if p
                                is OutOfFrames {
                                frames_free(slots) < wanted
                            } else {
                                fault == Some(p)
                            },
                            Ok(layout) => {
                                &&& fault is None
                                &&& frames_free(slots) >= wanted
                                &&& frames_free(layout.allocator.free_slots()) == frames_free(slots)
                                    - wanted
                                &&& layout.kernel_memory_map == staged.map
                                &&& layout.map_copy_range == staged.located.map_copy_range
                                &&& layout.stack == staged.located.stack
                                &&& layout.kernel_code == staged.located.kernel_code
                                &&& layout.identity_ranges@ == staged.identity_ranges
                                &&& layout.reservations@ == staged.reservations
                                &&& layout.free_storage == staged.free_storage
                                &&& layout.reserved_storage == staged.reserved_storage
                                &&& layout.allocator.free_bytes().subset_of(free_bytes(slots))
                            },
                        }
                    },
                },
            }
        }),
        r matches Ok(layout) ==> {
            &&& layout.identity_ranges.wf()
            &&& layout.reservations.wf()
            &&& forall|k: int|
                0 <= k < layout.identity_ranges@.len() ==> layout.reservations@.contains(
                    ReservedRegion {
                        start: (#[trigger] layout.identity_ranges@[k]).0,
                        end: layout.identity_ranges@[k].1,
                    },
                )
            &&& layout.reservations@.contains(layout.free_storage)
            &&& layout.reservations@.contains(layout.reserved_storage)
            &&& layout.tables.wf()
            &&& maps_exactly(
                layout.tables,
                staged_ranges(*framebuffer, LOW_IDENTITY_LIMIT, layout.identity_ranges@),
            )
            &&& layout.allocator.wf()
            &&& layout.allocator.free_bytes().subset_of(
                conventional_bytes(descriptors_of(*memory_map, buffer@)).difference(
                    reserved_bytes(layout.reservations@),
                ),
            )
        },
{
    let mut frame_allocator = FrameAllocator::new(memory_map, buffer, early);
    match ensure_usable_memory(&mut frame_allocator) {
        Err(e) => {
            return Err(e);
        },
        Ok(_) => {},
    }
    let copied = match copy_memory_map(memory_map, &mut frame_allocator) {
        Err(e) => {
            return Err(e);
        },
        Ok(copied) => copied,
    };
    let kernel_memory_map: MemoryMap = copied.map;
    let map_copy_range: (u64, u64) = copied.phys_range;
    let stack = match loader_stack_info(memory_map, buffer, rsp) {
        Err(e) => {
            return Err(e);
        },
        Ok(stack) => stack,
    };
    let mut identity_ranges = IdentityRanges::new();
    assert(identity_ranges@ =~= Seq::<(u64, u64)>::empty());
    match identity_ranges.push(map_copy_range) {
        Err(e) => {
            return Err(e);
        },
        Ok(_) => {},
    }
    assert(identity_ranges@.len() <= 1);
    match identity_ranges.push(stack.range) {
        Err(e) => {
            return Err(e);
        },
        Ok(_) => {},
    }
    assert(identity_ranges@.len() <= 2);
    let kernel_code = kernel_code_identity_range(memory_map, buffer, code_addr);
    if let Some((code_range, _code_type)) = kernel_code {
        match identity_ranges.push(code_range) {
            Err(e) => {
                return Err(e);
            },
            Ok(_) => {},
        }
    }
    assert(identity_ranges@.len() <= 3);
    assert(identity_ranges@ == staged_identity(map_copy_range, stack.range, kernel_code));
    let mut reservations = ReservationList::new();
    proof {
        assert(reservations@ =~= Seq::<ReservedRegion>::empty());
        lemma_extended_holds(
            Seq::<ReservedRegion>::empty(),
            identity_ranges@,
            MAX_RESERVATIONS as nat,
        );
    }
    match reservations.extend(identity_ranges.as_slice()) {
        Err(e) => {
            return Err(e);
        },
        Ok(_) => {},
    }
    assert(reservations@.len() <= 3);
    let framebuffer_end: u64 = match framebuffer.base_address.checked_add(
        framebuffer.buffer_size,
    ) {
        None => {
            return Err(
                MemoryInitError::Paging(
                    PagingError::AddressOverflow(
                        framebuffer.base_address,
                        framebuffer.buffer_size,
                    ),
                ),
            );
        },
        Some(end) => end,
    };
    let ghost staged_first = reservations@;
    proof {
        lemma_pushed_keeps(
            staged_first,
            (framebuffer.base_address, framebuffer_end),
            ReservedRegion { start: 0, end: 0 },
        );
    }
    match reservations.push((framebuffer.base_address, framebuffer_end)) {
        Err(e) => {
            return Err(e);
        },
        Ok(_) => {},
    }
    assert(reservations@.len() <= 4);
    let storage_plan = match runtime_storage_plan(
        &kernel_memory_map,
        buffer,
        reservations.len() + 2,
    ) {
        Err(e) => {
            return Err(MemoryInitError::Allocator(e));
        },
        Ok(plan) => plan,
    };
    let free_region = match carve_option_storage(
        &mut frame_allocator,
        storage_plan.free_slots,
        free_slot_bytes,
    ) {
        Err(e) => {
            return Err(e);
        },
        Ok(region) => region,
    };
    let ghost staged_second = reservations@;
    proof {
        lemma_pushed_keeps(staged_second, (free_region.start, free_region.end), free_region);
    }
    match reservations.push((free_region.start, free_region.end)) {
        Err(e) => {
            return Err(e);
        },
        Ok(_) => {},
    }
    assert(reservations@.len() <= 5);
    let reserved_region = match carve_option_storage(
        &mut frame_allocator,
        storage_plan.reserved_slots,
        reserved_slot_bytes,
    ) {
        Err(e) => {
            return Err(e);
        },
        Ok(region) => region,
    };
    let ghost staged_third = reservations@;
    proof {
        lemma_pushed_keeps(
            staged_third,
            (reserved_region.start, reserved_region.end),
            reserved_region,
        );
        lemma_pushed_keeps(staged_third, (reserved_region.start, reserved_region.end), free_region);
    }
    match reservations.push((reserved_region.start, reserved_region.end)) {
        Err(e) => {
            return Err(e);
        },
        Ok(_) => {},
    }
    proof {
        assert forall|k: int| 0 <= k < identity_ranges@.len() implies reservations@.contains(
            ReservedRegion {
                start: (#[trigger] identity_ranges@[k]).0,
                end: identity_ranges@[k].1,
            },
        ) by {
            let region = ReservedRegion { start: identity_ranges@[k].0,
                end: identity_ranges@[k].1 };
            assert(staged_first.contains(region));
            lemma_pushed_keeps(staged_first, (framebuffer.base_address, framebuffer_end), region);
            lemma_pushed_keeps(staged_second, (free_region.start, free_region.end), region);
            lemma_pushed_keeps(staged_third, (reserved_region.start, reserved_region.end), region);
        }
    }
    let free_slots = blank_storage::<PhysFrame>(storage_plan.free_slots);
    let reserved_slots = blank_storage::<ReservedRegion>(storage_plan.reserved_slots);
    let mut allocator = match PhysicalAllocator::from_memory_map(
        kernel_memory_map,
        buffer,
        reservations.as_slice(),
        free_slots,
        reserved_slots,
    ) {
        Err(e) => {
            return Err(MemoryInitError::Allocator(e));
        },
        Ok(allocator) => allocator,
    };
    let tables = match build_identity_paging(
        &mut allocator,
        framebuffer,
        LOW_IDENTITY_LIMIT,
        identity_ranges.as_slice(),
    ) {
        Err(e) => {
            return Err(MemoryInitError::Paging(e));
        },
        Ok(tables) => tables,
    };
    Ok(
        MemoryLayout {
            kernel_memory_map,
            map_copy_range,
            stack,
            kernel_code,
            identity_ranges,
            reservations,
            free_storage: free_region,
            reserved_storage: reserved_region,
            allocator,
            tables,
        },
    )
}

} // verus!
