//! The frame cursor of early bring-up: a forward-only walk over the 4 KiB
//! frames of conventional memory that leaves out the zero page and every
//! early reservation.

use vstd::prelude::*;
use crate::abi::{MemoryDescriptor, MemoryMap, CONVENTIONAL_MEMORY};
use crate::memory::allocator::{align_up, capped_sum, frame_ceil, ReservedRegion};
use crate::memory::early::{first_holding, lemma_first_holding, ReservationList};
use crate::memory::error::FrameAllocError;
use crate::memory::map::{descriptors_of, MemoryMapIter, FRAME_SIZE};
use crate::memory::paging::FrameSource;

verus! {

/// Where the cursor goes on from a reservation that ends at `end`: the
/// frame boundary at or above `end`, past the zero page.
pub open spec fn jump_target(end: u64) -> int {
    if frame_ceil(end as int) > FRAME_SIZE {
        frame_ceil(end as int)
    } else {
        FRAME_SIZE as int
    }
}

/// The frames that the cursor yields from the range `[start, end)`: every
/// 4 KiB step from `start`, except that a step into a reservation yields
/// nothing and moves the cursor past the reservation.
pub open spec fn range_frames(start: u64, end: u64, reserved: Seq<ReservedRegion>) -> Seq<u64>
    decreases end - start,
{
    if start >= end {
        Seq::empty()
    } else {
        match first_holding(reserved, start) {
            Some(region) => if start < jump_target(region.end) < end {
                range_frames(jump_target(region.end) as u64, end, reserved)
            } else {
                Seq::empty()
            },
            None => if start + FRAME_SIZE < end {
                seq![start] + range_frames((start + FRAME_SIZE) as u64, end, reserved)
            } else {
                seq![start]
            },
        }
    }
}

/// The range that the cursor walks for a descriptor: conventional memory of
/// at least one page whose end fits in 64 bits, from the first frame
/// boundary at or above its start, the zero page left out.
pub open spec fn frame_window(d: MemoryDescriptor) -> Option<(u64, u64)> {
    let end = d.physical_start + d.number_of_pages * FRAME_SIZE;
    let start = jump_target(d.physical_start);
    if d.typ != CONVENTIONAL_MEMORY || d.number_of_pages == 0 || end > u64::MAX || start >= end {
        None
    } else {
        Some((start as u64, end as u64))
    }
}

/// The frames that the cursor yields for one descriptor.
pub open spec fn descriptor_frames(d: MemoryDescriptor, reserved: Seq<ReservedRegion>) -> Seq<u64> {
    match frame_window(d) {
        Some((start, end)) => range_frames(start, end, reserved),
        None => Seq::empty(),
    }
}

/// The frames that the cursor yields for a list of descriptors, in order.
pub open spec fn usable_frames(descs: Seq<MemoryDescriptor>, reserved: Seq<ReservedRegion>) -> Seq<
    u64,
>
    decreases descs.len(),
{
    if descs.len() == 0 {
        Seq::empty()
    } else {
        descriptor_frames(descs[0], reserved) + usable_frames(descs.skip(1), reserved)
    }
}

/// Walks the usable frames of a memory map.
pub struct UsableFrameIter<'a> {
    desc_iter: MemoryMapIter<'a>,
    current_range: Option<(u64, u64)>,
    reservations: &'a ReservationList,
}

impl<'a> UsableFrameIter<'a> {
    /// The frames still to come from the range that is being walked.
    pub closed spec fn pending(&self) -> Seq<u64> {
        match self.current_range {
            Some((start, end)) => range_frames(start, end, self.reservations@),
            None => Seq::empty(),
        }
    }

    /// The frames still to come, in order.
    pub closed spec fn view(&self) -> Seq<u64> {
        self.pending() + usable_frames(self.desc_iter@, self.reservations@)
    }

    /// The reservations that the walk leaves out.
    pub closed spec fn reserved(&self) -> Seq<ReservedRegion> {
        self.reservations@
    }

    pub closed spec fn wf(&self) -> bool {
        &&& self.desc_iter.wf()
        &&& match self.current_range {
            Some((start, end)) => start >= FRAME_SIZE && start % FRAME_SIZE == 0,
            None => true,
        }
    }

    /// A walk from the first descriptor of the map.
    pub fn new(map: &MemoryMap, buffer: &'a [u8], reservations: &'a ReservationList) -> (r: Self)
        ensures
            r.wf(),
            r.reserved() == reservations@,
            r@ == usable_frames(descriptors_of(*map, buffer@), reservations@),
    {
        let r = UsableFrameIter {
            desc_iter: MemoryMapIter::new(map, buffer),
            current_range: None,
            reservations,
        };
        proof {
            assert(Seq::<u64>::empty() + usable_frames(r.desc_iter@, reservations@)
                =~= usable_frames(r.desc_iter@, reservations@));
        }
        r
    }

    /// The next frame, or `None` when the map is exhausted.
    pub fn next(&mut self) -> (r: Option<u64>)
        requires
            old(self).wf(),
        ensures
            final(self).wf(),
            final(self).reserved() == old(self).reserved(),
            old(self)@.len() == 0 ==> r is None && final(self)@.len() == 0,
            old(self)@.len() > 0 ==> r == Some(old(self)@[0]) && final(self)@ == old(self)@.skip(1),
            r matches Some(frame) ==> frame >= FRAME_SIZE && frame % FRAME_SIZE == 0
                && first_holding(old(self).reserved(), frame) is None,
    {
        loop
            invariant
                self.wf(),
                self.reservations == old(self).reservations,
                self@ == old(self)@,
            decreases
                    2 * self.desc_iter@.len() + if self.current_range is Some {
                        1int
                    } else {
                        0int
                    },
        {
            if let Some(frame) = self.next_frame_from_range() {
                return Some(frame);
            }
            if self.load_next_range().is_none() {
                return None;
            }
        }
    }

    /// The frame boundary at or above the end of a reservation, if the
    /// range goes on beyond it.
    pub fn aligned_reservation_end(reservation_end: u64, range_end: u64) -> (r: Option<u64>)
        ensures
            r == if jump_target(reservation_end) < range_end {
                Some(jump_target(reservation_end) as u64)
            } else {
                None
            },
    {
        let aligned: u64 = match reservation_end.checked_add(FRAME_SIZE - 1) {
            None => {
                return None;
            },
            Some(sum) => sum - sum % FRAME_SIZE,
        };
        let next_start: u64 = if aligned > FRAME_SIZE {
            aligned
        } else {
            FRAME_SIZE
        };
        if next_start < range_end {
            Some(next_start)
        } else {
            None
        }
    }

    /// The next frame of the range that is being walked.
    fn next_frame_from_range(&mut self) -> (r: Option<u64>)
        requires
            old(self).wf(),
        ensures
            final(self).wf(),
            final(self).reservations == old(self).reservations,
            final(self).desc_iter == old(self).desc_iter,
            r matches Some(frame) ==> old(self)@.len() > 0 && frame == old(self)@[0] && final(self)@
                == old(self)@.skip(1),
            r matches Some(frame) ==> frame >= FRAME_SIZE && frame % FRAME_SIZE == 0
                && first_holding(old(self).reservations@, frame) is None,
            r is None ==> final(self).current_range is None && final(self)@ == old(self)@,
    {
        loop
            invariant
                self.wf(),
                self.reservations == old(self).reservations,
                self.desc_iter == old(self).desc_iter,
                self@ == old(self)@,
            decreases
                    match self.current_range {
                        Some((start, end)) => if end > start {
                            end - start + 1
                        } else {
                            1
                        },
                        None => 0int,
                    },
        {
            let (start, end) = match self.current_range {
                None => {
                    return None;
                },
                Some(range) => range,
            };
            if start >= end {
                self.current_range = None;
                return None;
            }
            let frame: u64 = start;
            proof {
                lemma_first_holding(self.reservations@, frame);
            }
            if let Some(reservation) = self.reservations.contains(frame) {
                match Self::aligned_reservation_end(reservation.end, end) {
                    Some(next_start) => {
                        proof {
                            assert(frame_ceil(reservation.end as int) >= reservation.end);
                        }
                        self.current_range = Some((next_start, end));
                    },
                    None => {
                        self.current_range = None;
                    },
                }
                continue ;
            }
            let ghost tail = usable_frames(self.desc_iter@, self.reservations@);
            let ghost rest = if start + FRAME_SIZE < end {
                range_frames((start + FRAME_SIZE) as u64, end, self.reservations@)
            } else {
                Seq::<u64>::empty()
            };
            self.current_range =
            match start.checked_add(FRAME_SIZE) {
                Some(next) => Some((next, end)),
                None => None,
            };
            proof {
                assert(old(self)@ =~= (seq![frame] + rest) + tail);
                assert(self@ =~= rest + tail);
                assert(((seq![frame] + rest) + tail).skip(1) =~= rest + tail);
            }
            return Some(frame);
        }
    }

    /// Moves on to the next descriptor that has frames to walk.
    fn load_next_range(&mut self) -> (r: Option<()>)
        requires
            old(self).wf(),
            old(self).current_range is None,
        ensures
            final(self).wf(),
            final(self).reservations == old(self).reservations,
            final(self)@ == old(self)@,
            r is Some
                ==> final(self).current_range is Some
                && final(self).desc_iter@.len() < old(self).desc_iter@.len(),
            r is None ==> final(self).current_range is None && final(self)@.len() == 0,
    {
        loop
            invariant
                self.wf(),
                self.reservations == old(self).reservations,
                self.current_range is None,
                self@ == old(self)@,
                self.desc_iter@.len() <= old(self).desc_iter@.len(),
            decreases self.desc_iter@.len(),
        {
            let ghost before = self.desc_iter@;
            let desc = match self.desc_iter.next() {
                None => {
                    return None;
                },
                Some(desc) => desc,
            };
            proof {
                assert(Seq::<u64>::empty() + usable_frames(before, self.reservations@)
                    =~= usable_frames(before, self.reservations@));
                assert(Seq::<u64>::empty() + usable_frames(before.skip(1), self.reservations@)
                    =~= usable_frames(before.skip(1), self.reservations@));
            }
            if desc.typ != CONVENTIONAL_MEMORY {
                continue ;
            }
            if desc.number_of_pages == 0 {
                continue ;
            }
            let region_size: u64 = match desc.number_of_pages.checked_mul(FRAME_SIZE) {
                Some(size) => size,
                None => {
                    continue ;
                },
            };
            let end: u64 = match desc.physical_start.checked_add(region_size) {
                Some(end) => end,
                None => {
                    continue ;
                },
            };
            let mut start: u64 = align_up(desc.physical_start);
            if start < FRAME_SIZE {
                start = FRAME_SIZE;
            }
            if start >= end {
                continue ;
            }
            assert(frame_window(desc) == Some((start, end)));
            self.current_range = Some((start, end));
            return Some(());
        }
    }
}

/// Whether frame `i + 1` of `f` follows frame `i` by exactly 4 KiB.
pub open spec fn consecutive(f: Seq<u64>, i: int) -> bool {
    f[i + 1] == f[i] + FRAME_SIZE
}

/// Whether the `n` frames of `f` from index `lo` ascend in steps of 4 KiB.
pub open spec fn run_at(f: Seq<u64>, lo: int, n: int) -> bool {
    &&& 0 <= lo
    &&& lo + n <= f.len()
    &&& forall|j: int| lo <= j < lo + n - 1 ==> #[trigger] consecutive(f, j)
}

/// `lo` is the first index of `f` at which a run of `n` frames starts.
pub open spec fn is_first_run(f: Seq<u64>, n: int, lo: int) -> bool {
    &&& run_at(f, lo, n)
    &&& forall|k: int| 0 <= k < lo ==> !#[trigger] run_at(f, k, n)
}

/// Whether `f` holds a run of `n` frames.
pub open spec fn has_run_of(f: Seq<u64>, n: int) -> bool {
    exists|lo: int| #[trigger] run_at(f, lo, n)
}

/// The first index of `f` at which a run of `n` frames starts.
pub open spec fn first_run(f: Seq<u64>, n: int) -> int {
    choose|lo: int| is_first_run(f, n, lo)
}

/// `g` is the first index of `f` whose frame is not followed by the next
/// frame in memory.
pub open spec fn is_first_gap(f: Seq<u64>, g: int) -> bool {
    &&& 0 <= g
    &&& g + 1 < f.len()
    &&& !consecutive(f, g)
    &&& forall|k: int| 0 <= k < g ==> #[trigger] consecutive(f, k)
}

/// Whether some frame of `f` is not followed by the next frame in memory.
pub open spec fn has_gap(f: Seq<u64>) -> bool {
    exists|g: int| 0 <= g && g + 1 < f.len() && !#[trigger] consecutive(f, g)
}

/// The first index of `f` whose frame is not followed by the next frame in
/// memory.
pub open spec fn first_gap(f: Seq<u64>) -> int {
    choose|g: int| is_first_gap(f, g)
}

/// What a request that found no run reports: the first gap among the
/// frames, with the address that was expected there and the one found; or
/// `OutOfFrames` where the frames have no gap.
pub open spec fn gap_error(f: Seq<u64>) -> FrameAllocError {
    if has_gap(f) {
        FrameAllocError::NonContiguous {
            expected: capped_sum(f[first_gap(f)], FRAME_SIZE),
            found: f[first_gap(f) + 1],
        }
    } else {
        FrameAllocError::OutOfFrames
    }
}

/// At most one index is the first run.
pub proof fn lemma_first_run(f: Seq<u64>, n: int, lo: int)
    requires
        is_first_run(f, n, lo),
    ensures
        first_run(f, n) == lo,
        has_run_of(f, n),
{
    let k = first_run(f, n);
    assert(is_first_run(f, n, k));
    if k < lo {
        assert(!run_at(f, k, n));
    }
    if lo < k {
        assert(!run_at(f, lo, n));
    }
}

/// At most one index is the first gap.
pub proof fn lemma_first_gap(f: Seq<u64>, g: int)
    requires
        is_first_gap(f, g),
    ensures
        first_gap(f) == g,
        has_gap(f),
{
    let k = first_gap(f);
    assert(is_first_gap(f, k));
    if k < g {
        assert(consecutive(f, k));
    }
    if g < k {
        assert(consecutive(f, g));
    }
}

/// Keeps the first gap that a search for a run came across.
pub struct GapTracker {
    pub first_gap: Option<(u64, u64)>,
}

impl GapTracker {
    pub fn new() -> (r: Self)
        ensures
            r.first_gap is None,
    {
        GapTracker { first_gap: None }
    }

    /// Keeps `gap` unless a gap is kept already.
    pub fn record(&mut self, gap: (u64, u64))
        ensures
            final(self).first_gap == if old(self).first_gap is None {
                Some(gap)
            } else {
                old(self).first_gap
            },
    {
        if self.first_gap.is_none() {
            self.first_gap = Some(gap);
        }
    }

    /// The gap that is kept.
    pub fn first(&self) -> (r: Option<(u64, u64)>)
        ensures
            r == self.first_gap,
    {
        self.first_gap
    }
}

/// Follows the run of frames that a search is in: where it started, its
/// last frame, and its length.
pub struct RunTracker {
    pub required: usize,
    pub start: Option<u64>,
    pub previous: u64,
    pub length: usize,
}

impl RunTracker {
    pub fn new(required: usize) -> (r: Self)
        ensures
            r == (RunTracker { required, start: None, previous: 0, length: 0 }),
    {
        RunTracker { required, start: None, previous: 0, length: 0 }
    }

    /// Takes the next frame into account: it starts the first run, or
    /// extends the run if it follows the last frame by 4 KiB, or else is
    /// recorded as a gap and starts a new run.
    pub fn update(&mut self, frame: u64, gaps: &mut GapTracker)
        requires
            old(self).length < usize::MAX,
        ensures
            final(self).required == old(self).required,
            final(self).previous == frame,
            old(self).start is None ==> final(self).start == Some(frame) && final(self).length == 1
                && *final(gaps) == *old(gaps),
            old(self).start is Some && frame == old(self).previous + FRAME_SIZE
                ==> final(self).start == old(self).start
                && final(self).length == old(self).length + 1 && *final(gaps) == *old(gaps),
            old(self).start is Some && frame != old(self).previous + FRAME_SIZE
                ==> final(self).start == Some(frame) && final(self).length == 1
                && final(gaps).first_gap == if old(gaps).first_gap is None {
                Some((capped_sum(old(self).previous, FRAME_SIZE), frame))
            } else {
                old(gaps).first_gap
            },
    {
        match self.start {
            None => self.restart(frame),
            Some(_) => {
                match self.previous.checked_add(FRAME_SIZE) {
                    Some(next) => {
                        if frame == next {
                            self.previous = frame;
                            self.length = self.length + 1;
                        } else {
                            gaps.record((next, frame));
                            self.restart(frame);
                        }
                    },
                    None => {
                        let hinted: u64 = self.previous.saturating_add(FRAME_SIZE);
                        gaps.record((hinted, frame));
                        self.restart(frame);
                    },
                }
            },
        }
    }

    /// Starts a new run at `frame`.
    pub fn restart(&mut self, frame: u64)
        ensures
            *final(self) == (RunTracker {
                required: old(self).required,
                start: Some(frame),
                previous: frame,
                length: 1,
            }),
    {
        self.start = Some(frame);
        self.previous = frame;
        self.length = 1;
    }

    /// Whether the run is as long as required.
    pub fn is_complete(&self) -> (r: bool)
        ensures
            r == (self.length >= self.required && self.start is Some),
    {
        self.length >= self.required && self.start.is_some()
    }

    /// Where the run started.
    pub fn start_address(&self) -> (r: Option<u64>)
        ensures
            r == self.start,
    {
        self.start
    }
}

/// Hands out the usable frames of a memory map one after another, before
/// the runtime allocator exists.
pub struct FrameAllocator<'a> {
    iter: UsableFrameIter<'a>,
}

impl<'a> FrameAllocator<'a> {
    /// The frames not handed out yet, in order.
    pub closed spec fn view(&self) -> Seq<u64> {
        self.iter@
    }

    pub closed spec fn wf(&self) -> bool {
        self.iter.wf()
    }

    /// The reservations that are left out.
    pub closed spec fn reserved(&self) -> Seq<ReservedRegion> {
        self.iter.reserved()
    }

    /// An allocator at the first usable frame of the map.
    pub fn new(map: &MemoryMap, buffer: &'a [u8], reservations: &'a ReservationList) -> (r: Self)
        ensures
            r.wf(),
            r.reserved() == reservations@,
            r@ == usable_frames(descriptors_of(*map, buffer@), reservations@),
    {
        FrameAllocator { iter: UsableFrameIter::new(map, buffer, reservations) }
    }

    /// Hands out the next frame.
    pub fn alloc_frame(&mut self) -> (r: Option<u64>)
        requires
            old(self).wf(),
        ensures
            final(self).wf(),
            final(self).reserved() == old(self).reserved(),
            old(self)@.len() == 0 ==> r is None && final(self)@.len() == 0,
            old(self)@.len() > 0 ==> r == Some(old(self)@[0]) && final(self)@ == old(self)@.skip(1),
            r matches Some(frame) ==> frame >= FRAME_SIZE && frame % FRAME_SIZE == 0
                && first_holding(old(self).reserved(), frame) is None,
    {
        self.iter.next()
    }

    /// Hands out `frame_count` frames that lie one after another in memory
    /// and returns the address of the first. Frames are taken in order until
    /// the last `frame_count` of them form such a run; the frames before the
    /// run are passed over for good. Where the frames run out first, the
    /// first gap that was passed is reported.
    pub fn alloc_contiguous(&mut self, frame_count: usize) -> (r: Result<u64, FrameAllocError>)
        requires
            old(self).wf(),
        ensures
            final(self).wf(),
            final(self).reserved() == old(self).reserved(),
            frame_count == 0 ==> r == Err::<u64, _>(FrameAllocError::InvalidRequest) && final(self)@
                == old(self)@,
            frame_count != 0 && has_run_of(old(self)@, frame_count as int) ==> ({
                let lo = first_run(old(self)@, frame_count as int);
                &&& is_first_run(old(self)@, frame_count as int, lo)
                &&& r == Ok::<_, FrameAllocError>(old(self)@[lo])
                &&& final(self)@ == old(self)@.skip(lo + frame_count)
            }),
            frame_count != 0 && !has_run_of(old(self)@, frame_count as int) ==> r == Err::<u64, _>(
                gap_error(old(self)@),
            ) && final(self)@.len() == 0,
    {
        if frame_count == 0 {
            return Err(FrameAllocError::InvalidRequest);
        }
        let ghost frames = self@;
        let ghost n = frame_count as int;
        let mut run = RunTracker::new(frame_count);
        let mut gaps = GapTracker::new();
        let ghost mut taken: int = 0;
        let ghost mut begin: int = 0;
        let ghost mut gap_at: int = 0;
        proof {
            assert(frames.skip(0) =~= frames);
        }
        loop
            invariant
                self.wf(),
                self.reserved() == old(self).reserved(),
                frames == old(self)@,
                n == frame_count,
                n >= 1,
                0 <= taken <= frames.len(),
                self@ == frames.skip(taken),
                run.required == frame_count,
                run.length < frame_count,
                run.start is None <==> taken == 0,
                taken == 0 ==> run.length == 0,
                taken > 0 ==> {
                    &&& 0 <= begin < taken
                    &&& run.start == Some(frames[begin])
                    &&& run.previous == frames[taken - 1]
                    &&& run.length == taken - begin
                    &&& run_at(frames, begin, taken - begin)
                    &&& begin > 0 ==> !consecutive(frames, begin - 1)
                },
                forall|lo: int| 0 <= lo && lo + n <= taken ==> !#[trigger] run_at(frames, lo, n),
                gaps.first_gap is None ==> forall|j: int|
                    0 <= j && j + 1 < taken ==> #[trigger] consecutive(frames, j),
                gaps.first_gap matches Some((expected, found)) ==> {
                    &&& is_first_gap(frames, gap_at)
                    &&& expected == capped_sum(frames[gap_at], FRAME_SIZE)
                    &&& found == frames[gap_at + 1]
                },
            ensures
                !has_run_of(frames, n),
                self@.len() == 0,
                gaps.first_gap is None ==> !has_gap(frames),
                gaps.first_gap is Some ==> has_gap(frames) && first_gap(frames) == gap_at,
            decreases frames.len() - taken,
        {
            let frame: u64 = match self.iter.next() {
                None => {
                    proof {
                        assert(taken == frames.len());
                        assert(!has_run_of(frames, n)) by {
                            if has_run_of(frames, n) {
                                let lo = choose|lo: int| #[trigger] run_at(frames, lo, n);
                                assert(!run_at(frames, lo, n));
                            }
                        }
                        if gaps.first_gap is Some {
                            lemma_first_gap(frames, gap_at);
                        } else {
                            if has_gap(frames) {
                                let g = choose|g: int|
                                    0 <= g && g + 1 < frames.len() && !#[trigger] consecutive(
                                        frames,
                                        g,
                                    );
                                assert(consecutive(frames, g));
                            }
                        }
                    }
                    break ;
                },
                Some(frame) => frame,
            };
            proof {
                assert(frames.skip(taken)[0] == frames[taken]);
                assert(frames.skip(taken).skip(1) =~= frames.skip(taken + 1));
            }
            let ghost had_gap = gaps.first_gap is Some;
            let ghost was_started = run.start is Some;
            let ghost extends = taken > 0 && consecutive(frames, taken - 1);
            run.update(frame, &mut gaps);
            proof {
                if taken > 0 && !extends {
                    if !had_gap {
                        gap_at = taken - 1;
                        assert(is_first_gap(frames, gap_at));
                    }
                    begin = taken;
                } else if taken == 0 {
                    begin = 0;
                }
                taken = taken + 1;
                assert(run_at(frames, begin, taken - begin)) by {
                    assert forall|j: int| begin <= j < taken - 1 implies #[trigger] consecutive(
                        frames,
                        j,
                    ) by {
                        if j < taken - 2 {
                        }
                    }
                }
            }
            if run.is_complete() {
                if let Some(start) = run.start_address() {
                    proof {
                        assert(run.length == n);
                        assert forall|k: int| 0 <= k < begin implies !#[trigger] run_at(
                            frames,
                            k,
                            n,
                        ) by {
                            assert(k + n <= taken - 1);
                        }
                        assert(is_first_run(frames, n, begin));
                        lemma_first_run(frames, n, begin);
                    }
                    return Ok(start);
                }
            }
            proof {
                assert forall|lo: int| 0 <= lo && lo + n <= taken implies !#[trigger] run_at(
                    frames,
                    lo,
                    n,
                ) by {
                    if lo + n == taken && run_at(frames, lo, n) {
                        if lo < begin {
                            assert(consecutive(frames, begin - 1));
                        }
                    }
                }
            }
        }
        if let Some((expected, found)) = gaps.first() {
            return Err(FrameAllocError::NonContiguous { expected, found });
        }
        Err(FrameAllocError::OutOfFrames)
    }
}

impl<'a> FrameSource for FrameAllocator<'a> {
    open spec fn ready(&self) -> bool {
        self.wf()
    }

    open spec fn remaining(&self) -> Set<int> {
        Set::new(|a: int| exists|i: int| 0 <= i < self@.len() && #[trigger] self@[i] == a)
    }

    open spec fn available(&self) -> Option<nat> {
        Some(self@.len())
    }

    /// The next usable frame.
    fn allocate_frame(&mut self) -> (r: Option<u64>)
        ensures
            final(self).reserved() == old(self).reserved(),
            old(self)@.len() == 0 ==> r is None && final(self)@.len() == 0,
            old(self)@.len() > 0 ==> r == Some(old(self)@[0]) && final(self)@ == old(self)@.skip(1),
    {
        let ghost before = self@;
        let r = self.alloc_frame();
        proof {
            assert forall|a: int| self.remaining().contains(a)
                implies old(self).remaining().contains(a) by {
                let i = choose|i: int| 0 <= i < self@.len() && #[trigger] self@[i] == a;
                if before.len() > 0 {
                    assert(before[i + 1] == a);
                }
            }
            if before.len() > 0 {
                assert(before[0] == r->Some_0);
            }
        }
        r
    }
}

} // verus!
