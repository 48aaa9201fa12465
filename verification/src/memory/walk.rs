//! What the frame cursor yields in the plain cases, and what a request for
//! contiguous frames comes to on plain sequences of frames.

use vstd::prelude::*;
use crate::abi::{MemoryDescriptor, CONVENTIONAL_MEMORY};
use crate::memory::allocator::{capped_sum, ReservedRegion};
use crate::memory::early::first_holding;
use crate::memory::error::FrameAllocError;
use crate::memory::frame::{
    consecutive, descriptor_frames, first_run, frame_window, gap_error, has_run_of, is_first_gap,
    is_first_run, jump_target, lemma_first_gap, lemma_first_run, range_frames, run_at,
    usable_frames,
};
use crate::memory::map::FRAME_SIZE;

verus! {

/// The frames of a range that no reservation touches: one every 4 KiB.
pub proof fn lemma_range_unreserved(start: u64, count: nat)
    requires
        start + count * FRAME_SIZE <= u64::MAX,
    ensures
        range_frames(
            start,
            (start + count * FRAME_SIZE) as u64,
            Seq::<ReservedRegion>::empty(),
        ) == Seq::new(count, |i: int| (start + i * FRAME_SIZE) as u64),
    decreases count,
{
    let none = Seq::<ReservedRegion>::empty();
    let end = (start + count * FRAME_SIZE) as u64;
    let expected = Seq::new(count, |i: int| (start + i * FRAME_SIZE) as u64);
    if count == 0 {
        assert(range_frames(start, end, none) =~= expected);
    } else {
        assert(first_holding(none, start) is None);
        if count == 1 {
            assert(range_frames(start, end, none) =~= expected);
        } else {
            let next = (start + FRAME_SIZE) as u64;
            lemma_range_unreserved(next, (count - 1) as nat);
            let rest = Seq::new((count - 1) as nat, |i: int| (next + i * FRAME_SIZE) as u64);
            assert(range_frames(next, end, none) == rest);
            assert(seq![start] + rest =~= expected);
        }
    }
}

/// The frames of a list of one descriptor.
pub proof fn lemma_usable_frames_single(d: MemoryDescriptor, reserved: Seq<ReservedRegion>)
    ensures
        usable_frames(seq![d], reserved) == descriptor_frames(d, reserved),
{
    let s = seq![d];
    assert(s[0] == d);
    assert(s.skip(1).len() == 0);
    assert(usable_frames(s.skip(1), reserved) =~= Seq::<u64>::empty());
    assert(usable_frames(s, reserved) =~= descriptor_frames(d, reserved));
}

/// A single conventional descriptor of `n` pages at address 4096 yields
/// exactly the frames 4096, 8192, up to `4096 * n`, in this order.
pub proof fn lemma_single_descriptor_frames(d: MemoryDescriptor, n: nat)
    requires
        d.typ == CONVENTIONAL_MEMORY,
        d.physical_start == FRAME_SIZE,
        d.number_of_pages == n,
        FRAME_SIZE + n * FRAME_SIZE <= u64::MAX,
    ensures
        usable_frames(seq![d], Seq::<ReservedRegion>::empty()) == Seq::new(
            n,
            |i: int| (FRAME_SIZE * (i + 1)) as u64,
        ),
{
    let none = Seq::<ReservedRegion>::empty();
    let expected = Seq::new(n, |i: int| (FRAME_SIZE * (i + 1)) as u64);
    lemma_usable_frames_single(d, none);
    if n == 0 {
        assert(descriptor_frames(d, none) =~= expected);
    } else {
        assert(frame_window(d) == Some((FRAME_SIZE, (FRAME_SIZE + n * FRAME_SIZE) as u64)));
        lemma_range_unreserved(FRAME_SIZE, n);
        assert(Seq::new(n, |i: int| (FRAME_SIZE + i * FRAME_SIZE) as u64) =~= expected);
    }
}

/// The frames of two lists of descriptors, one after the other.
pub proof fn lemma_usable_frames_concat(
    a: Seq<MemoryDescriptor>,
    b: Seq<MemoryDescriptor>,
    reserved: Seq<ReservedRegion>,
)
    ensures
        usable_frames(a + b, reserved) == usable_frames(a, reserved) + usable_frames(b, reserved),
    decreases a.len(),
{
    if a.len() == 0 {
        assert(a + b =~= b);
        assert(usable_frames(a, reserved) + usable_frames(b, reserved) =~= usable_frames(
            b,
            reserved,
        ));
    } else {
        assert((a + b)[0] == a[0]);
        assert((a + b).skip(1) =~= a.skip(1) + b);
        lemma_usable_frames_concat(a.skip(1), b, reserved);
        assert(usable_frames(a + b, reserved) =~= usable_frames(a, reserved) + usable_frames(
            b,
            reserved,
        ));
    }
}

/// A descriptor of another type than conventional memory yields no frame:
/// the map yields the same frames with the descriptor as without it.
pub proof fn lemma_other_types_skipped(
    before: Seq<MemoryDescriptor>,
    d: MemoryDescriptor,
    after: Seq<MemoryDescriptor>,
    reserved: Seq<ReservedRegion>,
)
    requires
        d.typ != CONVENTIONAL_MEMORY,
    ensures
        usable_frames(before + seq![d] + after, reserved) == usable_frames(
            before + after,
            reserved,
        ),
        descriptor_frames(d, reserved) == Seq::<u64>::empty(),
{
    lemma_usable_frames_concat(before + seq![d], after, reserved);
    lemma_usable_frames_concat(before, seq![d], reserved);
    lemma_usable_frames_concat(before, after, reserved);
    lemma_usable_frames_single(d, reserved);
    assert(usable_frames(before, reserved) + Seq::<u64>::empty() =~= usable_frames(
        before,
        reserved,
    ));
}

/// Every frame of a range that starts on a frame boundary above the zero
/// page lies on a frame boundary above the zero page, inside the range and
/// outside every reservation.
pub proof fn lemma_range_frames_sound(start: u64, end: u64, reserved: Seq<ReservedRegion>)
    requires
        start >= FRAME_SIZE,
        start % FRAME_SIZE == 0,
    ensures
        forall|i: int|
            0 <= i < range_frames(start, end, reserved).len() ==> {
                let frame = #[trigger] range_frames(start, end, reserved)[i];
                &&& frame >= FRAME_SIZE
                &&& frame % FRAME_SIZE == 0
                &&& start <= frame < end
                &&& first_holding(reserved, frame) is None
            },
    decreases end - start,
{
    if start < end {
        match first_holding(reserved, start) {
            Some(region) => {
                if start < jump_target(region.end) < end {
                    lemma_range_frames_sound(jump_target(region.end) as u64, end, reserved);
                }
            },
            None => {
                if start + FRAME_SIZE < end {
                    let next = (start + FRAME_SIZE) as u64;
                    lemma_range_frames_sound(next, end, reserved);
                    let rest = range_frames(next, end, reserved);
                    assert forall|i: int|
                        0 <= i < range_frames(start, end, reserved).len() implies {
                        let frame = #[trigger] range_frames(start, end, reserved)[i];
                        &&& frame >= FRAME_SIZE
                        &&& frame % FRAME_SIZE == 0
                        &&& start <= frame < end
                        &&& first_holding(reserved, frame) is None
                    } by {
                        if i > 0 {
                            assert(range_frames(start, end, reserved)[i] == rest[i - 1]);
                        }
                    }
                }
            },
        }
    }
}

/// The zero page is never yielded, whatever the map holds: every frame that
/// the cursor yields lies on a frame boundary at or above 4096, and in no
/// reservation.
pub proof fn lemma_frames_skip_zero_page(
    descs: Seq<MemoryDescriptor>,
    reserved: Seq<ReservedRegion>,
)
    ensures
        forall|i: int|
            0 <= i < usable_frames(descs, reserved).len() ==> {
                let frame = #[trigger] usable_frames(descs, reserved)[i];
                &&& frame >= FRAME_SIZE
                &&& frame % FRAME_SIZE == 0
                &&& first_holding(reserved, frame) is None
            },
    decreases descs.len(),
{
    if descs.len() > 0 {
        let head = descriptor_frames(descs[0], reserved);
        let tail = usable_frames(descs.skip(1), reserved);
        lemma_frames_skip_zero_page(descs.skip(1), reserved);
        if let Some((start, end)) = frame_window(descs[0]) {
            lemma_range_frames_sound(start, end, reserved);
        }
        assert forall|i: int| 0 <= i < usable_frames(descs, reserved).len() implies {
            let frame = #[trigger] usable_frames(descs, reserved)[i];
            &&& frame >= FRAME_SIZE
            &&& frame % FRAME_SIZE == 0
            &&& first_holding(reserved, frame) is None
        } by {
            if i < head.len() {
                assert(usable_frames(descs, reserved)[i] == head[i]);
            } else {
                assert(usable_frames(descs, reserved)[i] == tail[i - head.len()]);
            }
        }
    }
}

/// A request for as many frames as lie one after another at the front of
/// the sequence is met by the first of them, and the frame after them is
/// the next to be handed out: nothing is rewound.
pub proof fn lemma_front_run_taken(frames: Seq<u64>, n: int)
    requires
        n >= 1,
        run_at(frames, 0, n),
    ensures
        has_run_of(frames, n),
        first_run(frames, n) == 0,
        frames.len() > n ==> frames.skip(first_run(frames, n) + n).len() > 0 && frames.skip(
            first_run(frames, n) + n,
        )[0] == frames[n],
{
    assert(is_first_run(frames, n, 0));
    lemma_first_run(frames, n, 0);
}

/// Two runs of frames with a gap between them, the second no longer than
/// the first: a request for one frame more than the first run has finds
/// nothing and reports the gap, with the address after the first run as
/// expected and the start of the second run as found.
pub proof fn lemma_gap_reported(first: Seq<u64>, second: Seq<u64>)
    requires
        first.len() >= 1,
        second.len() >= 1,
        second.len() <= first.len(),
        run_at(first, 0, first.len() as int),
        run_at(second, 0, second.len() as int),
        second[0] != first.last() + FRAME_SIZE,
    ensures
        !has_run_of(first + second, first.len() as int + 1),
        gap_error(first + second) == (FrameAllocError::NonContiguous {
            expected: capped_sum(first.last(), FRAME_SIZE),
            found: second[0],
        }),
{
    let all = first + second;
    let n = first.len() as int;
    let edge = n - 1;
    assert(all[edge] == first.last());
    assert(all[edge + 1] == second[0]);
    assert(!consecutive(all, edge));
    assert forall|k: int| 0 <= k < edge implies #[trigger] consecutive(all, k) by {
        assert(consecutive(first, k));
        assert(all[k] == first[k] && all[k + 1] == first[k + 1]);
    }
    assert(is_first_gap(all, edge));
    lemma_first_gap(all, edge);
    if has_run_of(all, n + 1) {
        let lo = choose|lo: int| #[trigger] run_at(all, lo, n + 1);
        if lo <= edge {
            assert(consecutive(all, edge));
        }
    }
}

} // verus!
