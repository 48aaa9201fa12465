//! The two slot lists of the runtime allocator: free runs and reserved
//! regions. A slot is either empty or holds one entry; the number of slots
//! is fixed when the list is made.

use vstd::prelude::*;
use crate::memory::allocator::{
    align_down, align_up, frame_ceil, frame_floor, span_of_frame, FrameSpan, PhysFrame,
    ReservedRegion, LAST_FRAME,
};
use crate::memory::error::PhysAllocError;
use crate::memory::map::FRAME_SIZE;

verus! {

/// Number of slots of `s` that hold an entry.
pub open spec fn occupied<T>(s: Seq<Option<T>>) -> nat
    decreases s.len(),
{
    if s.len() == 0 {
        0
    } else {
        occupied(s.drop_last()) + if s.last() is Some {
            1nat
        } else {
            0nat
        }
    }
}

/// The entries of the occupied slots of `s`, in slot order.
pub open spec fn populated<T>(s: Seq<Option<T>>) -> Seq<T>
    decreases s.len(),
{
    if s.len() == 0 {
        Seq::empty()
    } else {
        match s.last() {
            Some(x) => populated(s.drop_last()).push(x),
            None => populated(s.drop_last()),
        }
    }
}

/// `i` is the first empty slot of `s`, or its length where no slot is empty.
pub open spec fn is_first_none<T>(s: Seq<Option<T>>, i: int) -> bool {
    &&& 0 <= i <= s.len()
    &&& i < s.len() ==> s[i] is None
    &&& forall|j: int| 0 <= j < i ==> #[trigger] s[j] is Some
}

/// Index of the first empty slot of `s`, or its length where none is empty.
pub open spec fn first_none<T>(s: Seq<Option<T>>) -> int {
    choose|i: int| is_first_none(s, i)
}

/// At most one index is the first empty slot.
pub proof fn lemma_first_none<T>(s: Seq<Option<T>>, i: int)
    requires
        is_first_none(s, i),
    ensures
        first_none(s) == i,
{
    let k = first_none(s);
    assert(is_first_none(s, k));
    if k < i {
        assert(s[k] is Some);
    }
    if i < k {
        assert(s[i] is Some);
    }
}

/// An occupied-slot count never exceeds the number of slots.
pub proof fn lemma_occupied_bound<T>(s: Seq<Option<T>>)
    ensures
        occupied(s) <= s.len(),
    decreases s.len(),
{
    if s.len() > 0 {
        lemma_occupied_bound(s.drop_last());
    }
}

/// A list of empty slots holds nothing.
pub proof fn lemma_occupied_empty<T>(s: Seq<Option<T>>)
    requires
        forall|i: int| 0 <= i < s.len() ==> #[trigger] s[i] is None,
    ensures
        occupied(s) == 0,
        populated(s) == Seq::<T>::empty(),
    decreases s.len(),
{
    if s.len() > 0 {
        let t = s.drop_last();
        assert forall|i: int| 0 <= i < t.len() implies #[trigger] t[i] is None by {
            assert(t[i] == s[i]);
        }
        lemma_occupied_empty(t);
    }
}

/// Writing one slot changes the count by what left and what came.
pub proof fn lemma_occupied_update<T>(s: Seq<Option<T>>, i: int, v: Option<T>)
    requires
        0 <= i < s.len(),
    ensures
        occupied(s.update(i, v)) + (if s[i] is Some {
            1nat
        } else {
            0nat
        }) == occupied(s) + (if v is Some {
            1nat
        } else {
            0nat
        }),
    decreases s.len(),
{
    let u = s.update(i, v);
    if i == s.len() - 1 {
        assert(u.drop_last() =~= s.drop_last());
    } else {
        assert(u.drop_last() =~= s.drop_last().update(i, v));
        lemma_occupied_update(s.drop_last(), i, v);
    }
}

/// Number of frames in the slot.
pub open spec fn slot_frames(slot: Option<PhysFrame>) -> nat {
    match slot {
        Some(r) => r.count as nat,
        None => 0,
    }
}

/// Number of frames in all runs of `s`.
pub open spec fn frames_free(s: Seq<Option<PhysFrame>>) -> nat
    decreases s.len(),
{
    if s.len() == 0 {
        0
    } else {
        frames_free(s.drop_last()) + slot_frames(s.last())
    }
}

/// Writing one slot changes the number of frames by what left and what
/// came.
pub proof fn lemma_frames_update(s: Seq<Option<PhysFrame>>, i: int, v: Option<PhysFrame>)
    requires
        0 <= i < s.len(),
    ensures
        frames_free(s.update(i, v)) + slot_frames(s[i]) == frames_free(s) + slot_frames(v),
    decreases s.len(),
{
    let u = s.update(i, v);
    if i == s.len() - 1 {
        assert(u.drop_last() =~= s.drop_last());
    } else {
        assert(u.drop_last() =~= s.drop_last().update(i, v));
        lemma_frames_update(s.drop_last(), i, v);
    }
}

/// Where there are frames, some slot has one.
pub proof fn lemma_frames_somewhere(s: Seq<Option<PhysFrame>>)
    requires
        frames_free(s) > 0,
    ensures
        exists|i: int| 0 <= i < s.len() && slot_frames(#[trigger] s[i]) > 0,
    decreases s.len(),
{
    if slot_frames(s.last()) > 0 {
        assert(slot_frames(s[s.len() - 1]) > 0);
    } else {
        lemma_frames_somewhere(s.drop_last());
        let i = choose|i: int|
            0 <= i < s.drop_last().len() && slot_frames(#[trigger] s.drop_last()[i]) > 0;
        assert(s[i] == s.drop_last()[i]);
    }
}

/// Whether the slot holds a run that covers byte `a`.
pub open spec fn slot_holds(slot: Option<PhysFrame>, a: int) -> bool {
    match slot {
        Some(r) => r.holds(a),
        None => false,
    }
}

/// Whether some run of `s` covers byte `a`.
pub open spec fn covers(s: Seq<Option<PhysFrame>>, a: int) -> bool {
    exists|i: int| 0 <= i < s.len() && slot_holds(#[trigger] s[i], a)
}

/// The bytes that the runs of `s` cover.
pub open spec fn free_bytes(s: Seq<Option<PhysFrame>>) -> Set<int> {
    Set::new(|a: int| covers(s, a))
}

/// Every run of `s` is valid.
pub open spec fn runs_valid(s: Seq<Option<PhysFrame>>) -> bool {
    forall|i: int|
        0 <= i < s.len() ==> match #[trigger] s[i] {
            Some(r) => r.valid(),
            None => true,
        }
}

/// No two runs of `s` share a byte.
pub open spec fn runs_disjoint(s: Seq<Option<PhysFrame>>) -> bool {
    forall|i: int, j: int|
        0 <= i < s.len() && 0 <= j < s.len() && i != j
            ==> match (#[trigger] s[i], #[trigger] s[j]) {
            (Some(p), Some(q)) => p.end() <= q.start || q.end() <= p.start,
            _ => true,
        }
}

/// The span of a valid run.
pub open spec fn run_span(r: PhysFrame) -> FrameSpan {
    FrameSpan { start: r.start, end: r.end() as u64 }
}

/// `i` is the first slot of `s` whose run has at least `frames` frames, or
/// the length of `s` where no run is that long.
pub open spec fn is_first_fit(s: Seq<Option<PhysFrame>>, frames: u64, i: int) -> bool {
    &&& 0 <= i <= s.len()
    &&& i < s.len() ==> (s[i] is Some && s[i]->Some_0.count >= frames)
    &&& forall|j: int|
        0 <= j < i ==> match #[trigger] s[j] {
            Some(r) => r.count < frames,
            None => true,
        }
}

/// Index of the first run of `s` with at least `frames` frames, or the
/// length of `s`.
pub open spec fn first_fit(s: Seq<Option<PhysFrame>>, frames: u64) -> int {
    choose|i: int| is_first_fit(s, frames, i)
}

/// At most one index is the first fit.
pub proof fn lemma_first_fit(s: Seq<Option<PhysFrame>>, frames: u64, i: int)
    requires
        is_first_fit(s, frames, i),
    ensures
        first_fit(s, frames) == i,
{
    let k = first_fit(s, frames);
    assert(is_first_fit(s, frames, k));
    if k < i {
        assert(s[k] is Some);
    }
    if i < k {
        assert(s[i] is Some);
    }
}

/// `i` is the first slot of `s` whose run shares a byte or a boundary with
/// `span`, or the length of `s` where none does.
pub open spec fn is_first_touching(s: Seq<Option<PhysFrame>>, span: FrameSpan, i: int) -> bool {
    &&& 0 <= i <= s.len()
    &&& i < s.len() ==> (s[i] is Some && span.spec_touches(run_span(s[i]->Some_0)))
    &&& forall|j: int|
        0 <= j < i ==> match #[trigger] s[j] {
            Some(r) => !span.spec_touches(run_span(r)),
            None => true,
        }
}

/// Whether some run of `s` shares a byte or a boundary with `span`.
pub open spec fn any_touching(s: Seq<Option<PhysFrame>>, span: FrameSpan) -> bool {
    exists|i: int|
        0 <= i < s.len() && match #[trigger] s[i] {
            Some(r) => span.spec_touches(run_span(r)),
            None => false,
        }
}

/// What coalescing `span` into `old` leaves: `cur` is `old` without the
/// runs that were merged, and `m` is `span` grown over those runs. Every run
/// of `old` either lies inside `m` and is gone, or neither shares a byte nor
/// a boundary with `m` and stays in its slot. Every byte of `m` comes from
/// `span` or from a merged run.
pub open spec fn coalesced(
    old: Seq<Option<PhysFrame>>,
    span: FrameSpan,
    cur: Seq<Option<PhysFrame>>,
    m: FrameSpan,
) -> bool {
    &&& cur.len() == old.len()
    &&& m.valid()
    &&& m.start <= span.start
    &&& span.end <= m.end
    &&& forall|i: int|
        0 <= i < old.len() ==> match #[trigger] old[i] {
            Some(r) => (cur[i] == old[i] && !m.spec_touches(run_span(r))) || (cur[i] is None
                && m.start <= r.start && r.end() <= m.end),
            None => cur[i] is None,
        }
    &&& forall|a: int|
        m.holds(a) ==> span.holds(a) || #[trigger] covers(old, a)
}

/// What inserting the valid run `frame` into `old` leaves: the runs that
/// `frame` reaches, directly or through one another, are gone; the run that
/// covers them and `frame` stands in the first slot that is then empty.
pub open spec fn inserted(
    old: Seq<Option<PhysFrame>>,
    frame: PhysFrame,
    new: Seq<Option<PhysFrame>>,
) -> bool {
    exists|cur: Seq<Option<PhysFrame>>, m: FrameSpan|
        #![trigger coalesced(old, run_span(frame), cur, m)]
        {
            &&& coalesced(old, run_span(frame), cur, m)
            &&& first_none(cur) < cur.len()
            &&& new == cur.update(first_none(cur), Some(m.as_frame()))
        }
}

/// Some index is the first empty slot of `s`.
pub proof fn lemma_first_none_exists<T>(s: Seq<Option<T>>)
    ensures
        is_first_none(s, first_none(s)),
{
    lemma_first_none_from(s, 0);
}

proof fn lemma_first_none_from<T>(s: Seq<Option<T>>, k: int)
    requires
        0 <= k <= s.len(),
        forall|j: int| 0 <= j < k ==> #[trigger] s[j] is Some,
    ensures
        exists|i: int| is_first_none(s, i),
    decreases s.len() - k,
{
    if k == s.len() {
        assert(is_first_none(s, k));
    } else if s[k] is None {
        assert(is_first_none(s, k));
    } else {
        lemma_first_none_from(s, k + 1);
    }
}

/// Whether the run shares a byte with `removal`.
pub open spec fn run_overlaps(q: PhysFrame, removal: FrameSpan) -> bool {
    q.start < removal.end && removal.start < q.end()
}

/// What is left of the run `q` below `removal`.
pub open spec fn left_piece(q: PhysFrame, removal: FrameSpan) -> Option<PhysFrame> {
    if q.start < removal.start {
        Some(
            PhysFrame {
                start: q.start,
                count: ((removal.start - q.start) / (FRAME_SIZE as int)) as u64,
            },
        )
    } else {
        None
    }
}

/// What is left of the run `q` above `removal`.
pub open spec fn right_piece(q: PhysFrame, removal: FrameSpan) -> Option<PhysFrame> {
    if removal.end < q.end() {
        Some(
            PhysFrame {
                start: removal.end,
                count: ((q.end() - removal.end) / (FRAME_SIZE as int)) as u64,
            },
        )
    } else {
        None
    }
}

/// Whether `p` is what is left, on one side of `removal`, of a run of `old`
/// that `removal` overlaps.
pub open spec fn is_piece(old: Seq<Option<PhysFrame>>, removal: FrameSpan, p: PhysFrame) -> bool {
    exists|i: int|
        0 <= i < old.len() && match #[trigger] old[i] {
            Some(q) => run_overlaps(q, removal) && (left_piece(q, removal) == Some(p)
                || right_piece(q, removal) == Some(p)),
            None => false,
        }
}

/// Whether the run `p` stands in some slot of `s`.
pub open spec fn has_run(s: Seq<Option<PhysFrame>>, p: PhysFrame) -> bool {
    exists|j: int| 0 <= j < s.len() && #[trigger] s[j] == Some(p)
}

/// Whether some run of `s` reaches beyond `removal` on both sides, so that
/// cutting `removal` out leaves two runs in place of one.
pub open spec fn has_two_sided(s: Seq<Option<PhysFrame>>, removal: FrameSpan) -> bool {
    exists|i: int|
        0 <= i < s.len() && match #[trigger] s[i] {
            Some(q) => q.start < removal.start && removal.end < q.end(),
            None => false,
        }
}

/// The slots after the run `run` in slot `idx` has been cut by `removal`:
/// the slot is emptied, then the left piece and the right piece each go to
/// the first slot that is empty by then. The flag says whether both found one.
pub open spec fn carved(
    cur: Seq<Option<PhysFrame>>,
    idx: int,
    run: PhysFrame,
    removal: FrameSpan,
) -> (Seq<Option<PhysFrame>>, bool) {
    let base = cur.update(idx, None);
    let with_left = match left_piece(run, removal) {
        Some(p) => base.update(first_none(base), Some(p)),
        None => base,
    };
    match right_piece(run, removal) {
        Some(q) => if first_none(with_left) < with_left.len() {
            (with_left.update(first_none(with_left), Some(q)), true)
        } else {
            (with_left, false)
        },
        None => (with_left, true),
    }
}

/// The interval that `subtract_range` removes for the bounds `start` and
/// `end`: `start` rounded down and `end` rounded up to frame boundaries, the
/// latter held to the last boundary that fits in 64 bits.
pub open spec fn removal_span(start: u64, end: u64) -> FrameSpan {
    FrameSpan {
        start: frame_floor(start as int) as u64,
        end: if frame_ceil(end as int) <= LAST_FRAME {
            frame_ceil(end as int) as u64
        } else {
            LAST_FRAME
        },
    }
}

/// The slots `next` that cutting leaves, slot by slot: the left piece
/// stands in slot `jl`, the right piece in slot `jr`, the slot `idx` is empty
/// unless a piece took it, and every other slot is as it was.
#[verifier::opaque]
pub open spec fn carved_shape(
    cur: Seq<Option<PhysFrame>>,
    idx: int,
    run: PhysFrame,
    removal: FrameSpan,
    next: Seq<Option<PhysFrame>>,
    done: bool,
    jl: int,
    jr: int,
) -> bool {
    let left = left_piece(run, removal);
    let right = right_piece(run, removal);
    &&& next.len() == cur.len()
    &&& 0 <= jl < cur.len()
    &&& 0 <= jr <= cur.len()
    &&& cur[jl] is None || jl == idx
    &&& jr < cur.len() ==> cur[jr] is None || jr == idx
    &&& left is Some && right is Some && done ==> jl != jr
    &&& right is Some && done ==> jr < cur.len()
    &&& !done ==> left is Some && right is Some && jl == idx && forall|i: int|
        0 <= i < cur.len() && i != idx ==> #[trigger] cur[i] is Some
    &&& forall|i: int|
        0 <= i < cur.len() ==> #[trigger] next[i] == if left is Some && i == jl {
            left
        } else if right is Some && done && i == jr {
            right
        } else if i == idx {
            None
        } else {
            cur[i]
        }
}

proof fn lemma_carved_shape(
    cur: Seq<Option<PhysFrame>>,
    idx: int,
    run: PhysFrame,
    removal: FrameSpan,
)
    requires
        0 <= idx < cur.len(),
        cur[idx] == Some(run),
    ensures
        ({
            let (next, done) = carved(cur, idx, run, removal);
            let base = cur.update(idx, None);
            let with_left = match left_piece(run, removal) {
                Some(p) => base.update(first_none(base), Some(p)),
                None => base,
            };
            carved_shape(
                cur,
                idx,
                run,
                removal,
                next,
                done,
                first_none(base),
                first_none(with_left),
            )
        }),
{
    reveal(carved_shape);
    let base = cur.update(idx, None);
    lemma_first_none_exists(base);
    let jl = first_none(base);
    assert(jl < base.len()) by {
        if jl >= base.len() {
            assert(base[idx] is Some);
        }
    }
    let with_left = match left_piece(run, removal) {
        Some(p) => base.update(jl, Some(p)),
        None => base,
    };
    lemma_first_none_exists(with_left);
    let jr = first_none(with_left);
    let (next, done) = carved(cur, idx, run, removal);
    if jr < cur.len() {
        assert(with_left[jr] is None);
        assert(base[jr] is None);
    }
    if !done {
        assert forall|i: int| 0 <= i < cur.len() && i != idx implies #[trigger] cur[i] is Some by {
            assert(with_left[i] is Some);
        }
        if jl != idx {
            assert(with_left[idx] is None);
        }
    }
}

proof fn lemma_carved_disjoint(
    cur: Seq<Option<PhysFrame>>,
    idx: int,
    run: PhysFrame,
    removal: FrameSpan,
    next: Seq<Option<PhysFrame>>,
    done: bool,
    jl: int,
    jr: int,
)
    requires
        0 <= idx < cur.len(),
        cur[idx] == Some(run),
        run.valid(),
        removal.valid(),
        run_overlaps(run, removal),
        runs_disjoint(cur),
        carved_shape(cur, idx, run, removal, next, done, jl, jr),
    ensures
        runs_disjoint(next),
{
    reveal(carved_shape);
    let left = left_piece(run, removal);
    let right = right_piece(run, removal);
    if let Some(p) = left {
        assert(p.start + p.count * FRAME_SIZE == removal.start);
    }
    if let Some(q) = right {
        assert(q.start + q.count * FRAME_SIZE == run.end());
    }
    assert forall|i: int, j: int|
        0 <= i < next.len() && 0 <= j < next.len() && i != j implies match (
            #[trigger] next[i],
            #[trigger] next[j],
        ) {
            (Some(p), Some(q)) => p.end() <= q.start || q.end() <= p.start,
            _ => true,
        } by {
        if next[i] is Some && next[j] is Some {
            let p = next[i]->Some_0;
            let q = next[j]->Some_0;
            let piece_i = (left is Some && i == jl) || (right is Some && done && i == jr);
            let piece_j = (left is Some && j == jl) || (right is Some && done && j == jr);
            if !piece_i {
                assert(next[i] == cur[i] && i != idx);
            }
            if !piece_j {
                assert(next[j] == cur[j] && j != idx);
            }
            if piece_i {
                assert(run.start <= p.start && p.end() <= run.end());
            }
            if piece_j {
                assert(run.start <= q.start && q.end() <= run.end());
            }
            if !piece_i && !piece_j {
                assert(cur[i] is Some && cur[j] is Some);
            } else if !piece_i {
                assert(cur[i] is Some && cur[idx] is Some);
            } else if !piece_j {
                assert(cur[j] is Some && cur[idx] is Some);
            }
        }
    }
}

proof fn lemma_carved_covers(
    cur: Seq<Option<PhysFrame>>,
    idx: int,
    run: PhysFrame,
    removal: FrameSpan,
    next: Seq<Option<PhysFrame>>,
    done: bool,
    jl: int,
    jr: int,
)
    requires
        0 <= idx < cur.len(),
        cur[idx] == Some(run),
        run.valid(),
        removal.valid(),
        run_overlaps(run, removal),
        carved_shape(cur, idx, run, removal, next, done, jl, jr),
    ensures
        forall|a: int| #[trigger] covers(next, a) ==> covers(cur, a),
        done ==> forall|a: int| !removal.holds(a) && #[trigger] covers(cur, a) ==> covers(next, a),
{
    reveal(carved_shape);
    let left = left_piece(run, removal);
    let right = right_piece(run, removal);
    if let Some(p) = left {
        assert(p.start + p.count * FRAME_SIZE == removal.start);
    }
    if let Some(q) = right {
        assert(q.start + q.count * FRAME_SIZE == run.end());
    }
    assert forall|a: int| #[trigger] covers(next, a) implies covers(cur, a) by {
        let i = choose|i: int| 0 <= i < next.len() && slot_holds(#[trigger] next[i], a);
        let piece = (left is Some && i == jl) || (right is Some && done && i == jr);
        if piece {
            assert(slot_holds(cur[idx], a));
        } else {
            assert(next[i] == cur[i]);
            assert(slot_holds(cur[i], a));
        }
    }
    if done {
        assert forall|a: int| !removal.holds(a) && #[trigger] covers(cur, a) implies covers(
            next,
            a,
        ) by {
            let i = choose|i: int| 0 <= i < cur.len() && slot_holds(#[trigger] cur[i], a);
            if i != idx {
                assert(cur[i] is Some);
                assert(next[i] == cur[i]);
                assert(slot_holds(next[i], a));
            } else {
                if a < removal.start {
                    assert(slot_holds(next[jl], a));
                } else {
                    assert(slot_holds(next[jr], a));
                }
            }
        }
    }
}

/// What a cut of the given shape does to the runs that stay.
#[verifier::rlimit(50)]
proof fn lemma_carved_runs(
    cur: Seq<Option<PhysFrame>>,
    idx: int,
    run: PhysFrame,
    removal: FrameSpan,
    next: Seq<Option<PhysFrame>>,
    done: bool,
    jl: int,
    jr: int,
)
    requires
        0 <= idx < cur.len(),
        cur[idx] == Some(run),
        run.valid(),
        removal.valid(),
        run_overlaps(run, removal),
        runs_valid(cur),
        carved_shape(cur, idx, run, removal, next, done, jl, jr),
    ensures
        runs_valid(next),
        next.len() == cur.len(),
        !done ==> run.start < removal.start && removal.end < run.end() && forall|i: int|
            0 <= i < cur.len() && i != idx ==> #[trigger] cur[i] is Some,
        forall|i: int|
            0 <= i < cur.len() && i != idx && #[trigger] cur[i] is Some ==> next[i] == cur[i],
        forall|i: int|
            0 <= i < next.len() ==> match #[trigger] next[i] {
                Some(p) => (i != idx && cur[i] == next[i]) || left_piece(run, removal) == Some(p)
                    || right_piece(run, removal) == Some(p),
                None => true,
            },
        left_piece(run, removal) matches Some(p) ==> has_run(next, p) && p.valid()
            && !run_overlaps(p, removal),
        done ==> (right_piece(run, removal) matches Some(p) ==> has_run(next, p)),
        right_piece(run, removal) matches Some(p) ==> p.valid() && !run_overlaps(p, removal),
{
    reveal(carved_shape);
    let left = left_piece(run, removal);
    let right = right_piece(run, removal);
    if let Some(p) = left {
        assert(p.start + p.count * FRAME_SIZE == removal.start);
        assert(next[jl] == Some(p));
        assert(has_run(next, p));
    }
    if let Some(q) = right {
        assert(q.start + q.count * FRAME_SIZE == run.end());
        if done {
            assert(next[jr] == Some(q));
            assert(has_run(next, q));
        }
    }
    assert forall|i: int| 0 <= i < next.len() implies match #[trigger] next[i] {
        Some(p) => p.valid() && ((i != idx && cur[i] == next[i]) || left == Some(p) || right
            == Some(p)),
        None => true,
    } by {
        let piece = (left is Some && i == jl) || (right is Some && done && i == jr);
        if !piece && next[i] is Some {
            assert(next[i] == cur[i]);
        }
    }
    assert forall|i: int| 0 <= i < cur.len() && i != idx
        && #[trigger] cur[i] is Some implies next[i]
        == cur[i] by {
    }
}

/// What cutting one run does to the bytes that are covered, and to the runs
/// that stay.
pub proof fn lemma_carved(
    cur: Seq<Option<PhysFrame>>,
    idx: int,
    run: PhysFrame,
    removal: FrameSpan,
)
    requires
        0 <= idx < cur.len(),
        cur[idx] == Some(run),
        run.valid(),
        removal.valid(),
        run_overlaps(run, removal),
        runs_valid(cur),
    ensures
        ({
            let (next, done) = carved(cur, idx, run, removal);
            &&& next.len() == cur.len()
            &&& runs_valid(next)
            &&& forall|i: int|
                0 <= i < cur.len() && i != idx && #[trigger] cur[i] is Some ==> next[i] == cur[i]
            &&& forall|i: int|
                0 <= i < next.len() ==> match #[trigger] next[i] {
                    Some(p) => (i != idx && cur[i] == next[i]) || left_piece(run, removal) == Some(
                        p,
                    ) || right_piece(run, removal) == Some(p),
                    None => true,
                }
            &&& left_piece(run, removal) matches Some(p) ==> has_run(next, p) && p.valid()
                && !run_overlaps(p, removal)
            &&& done ==> (right_piece(run, removal) matches Some(p) ==> has_run(next, p))
            &&& right_piece(run, removal) matches Some(p) ==> p.valid() && !run_overlaps(
                p,
                removal,
            )
            &&& forall|a: int| #[trigger] covers(next, a) ==> covers(cur, a)
            &&& done ==> forall|a: int|
                !removal.holds(a) && #[trigger] covers(cur, a) ==> covers(next, a)
            &&& !done ==> run.start < removal.start && removal.end < run.end() && forall|i: int|
                0 <= i < cur.len() && i != idx ==> #[trigger] cur[i] is Some
            &&& runs_disjoint(cur) ==> runs_disjoint(next)
        }),
{
    let base = cur.update(idx, None);
    let with_left = match left_piece(run, removal) {
        Some(p) => base.update(first_none(base), Some(p)),
        None => base,
    };
    let jl = first_none(base);
    let jr = first_none(with_left);
    let next = carved(cur, idx, run, removal).0;
    let done = carved(cur, idx, run, removal).1;
    lemma_carved_shape(cur, idx, run, removal);
    assert(carved_shape(cur, idx, run, removal, next, done, jl, jr));
    lemma_carved_covers(cur, idx, run, removal, next, done, jl, jr);
    lemma_carved_runs(cur, idx, run, removal, next, done, jl, jr);
    if runs_disjoint(cur) {
        lemma_carved_disjoint(cur, idx, run, removal, next, done, jl, jr);
    }
}

/// The free runs of the allocator.
pub struct FrameRunList {
    entries: Vec<Option<PhysFrame>>,
    len: usize,
}

/// Walks the occupied slots of a run list in slot order.
pub struct FreeRegionIter<'a> {
    entries: &'a [Option<PhysFrame>],
    index: usize,
}

impl<'a> FreeRegionIter<'a> {
    /// The runs still to come.
    pub closed spec fn view(&self) -> Seq<PhysFrame> {
        populated(self.entries@.skip(self.index as int))
    }

    pub closed spec fn wf(&self) -> bool {
        self.index <= self.entries@.len()
    }

    /// The next run, or `None` past the last occupied slot.
    pub fn next(&mut self) -> (r: Option<PhysFrame>)
        requires
            old(self).wf(),
        ensures
            final(self).wf(),
            old(self)@.len() == 0 ==> r is None && final(self)@.len() == 0,
            old(self)@.len() > 0 ==> r == Some(old(self)@[0]) && final(self)@ == old(self)@.skip(1),
    {
        let n: usize = self.entries.len();
        while self.index < n
            invariant
                n == self.entries@.len(),
                self.index <= n,
                self.entries == old(self).entries,
                self@ == old(self)@,
            decreases n - self.index,
        {
            let item: Option<PhysFrame> = self.entries[self.index];
            proof {
                lemma_populated_first(self.entries@.skip(self.index as int));
                assert(self.entries@.skip(self.index as int).skip(1) =~= self.entries@.skip(
                    self.index as int + 1,
                ));
            }
            self.index = self.index + 1;
            if let Some(frame) = item {
                return Some(frame);
            }
        }
        proof {
            assert(self.entries@.skip(self.index as int) =~= Seq::<Option<PhysFrame>>::empty());
        }
        None
    }
}

/// The populated entries of a list, seen from its first slot.
pub proof fn lemma_populated_first<T>(s: Seq<Option<T>>)
    requires
        s.len() > 0,
    ensures
        populated(s) == match s[0] {
            Some(x) => seq![x] + populated(s.skip(1)),
            None => populated(s.skip(1)),
        },
    decreases s.len(),
{
    if s.len() == 1 {
        assert(s.drop_last() =~= Seq::<Option<T>>::empty());
        assert(s.skip(1) =~= Seq::<Option<T>>::empty());
        assert(populated(s.drop_last()) =~= Seq::<T>::empty());
        match s[0] {
            Some(x) => {
                assert(populated(s) =~= seq![x] + populated(s.skip(1)));
            },
            None => {},
        }
    } else {
        let t = s.drop_last();
        lemma_populated_first(t);
        assert(t.skip(1) =~= s.skip(1).drop_last());
        assert(s.skip(1).last() == s.last());
        assert(t[0] == s[0]);
        match s[0] {
            Some(x) => {
                match s.last() {
                    Some(y) => {
                        assert(populated(s) =~= seq![x] + populated(s.skip(1)));
                    },
                    None => {},
                }
            },
            None => {},
        }
    }
}

impl FrameRunList {
    /// The slots, in storage order.
    pub closed spec fn view(&self) -> Seq<Option<PhysFrame>> {
        self.entries@
    }

    /// The count of occupied slots that the list keeps.
    pub closed spec fn spec_len(&self) -> nat {
        self.len as nat
    }

    /// The kept count is right and every run is valid.
    pub open spec fn wf(&self) -> bool {
        &&& self.spec_len() == occupied(self@)
        &&& runs_valid(self@)
    }

    /// The bytes that are free.
    pub open spec fn free_bytes(&self) -> Set<int> {
        free_bytes(self@)
    }

    /// A list over `storage` with every slot emptied.
    pub fn new(storage: Vec<Option<PhysFrame>>) -> (r: Self)
        ensures
            r.wf(),
            r@.len() == storage@.len(),
            forall|i: int| 0 <= i < r@.len() ==> #[trigger] r@[i] is None,
            r.spec_len() == 0,
    {
        let mut entries = storage;
        let n: usize = entries.len();
        let mut i: usize = 0;
        while i < n
            invariant
                i <= n,
                entries@.len() == n,
                forall|j: int| 0 <= j < i ==> #[trigger] entries@[j] is None,
            decreases n - i,
        {
            entries.set(i, None);
            i = i + 1;
        }
        proof {
            lemma_occupied_empty(entries@);
        }
        FrameRunList { entries, len: 0 }
    }

    /// Number of slots.
    pub fn capacity(&self) -> (r: usize)
        ensures
            r == self@.len(),
    {
        self.entries.len()
    }

    /// Number of runs.
    pub fn len(&self) -> (r: usize)
        ensures
            r == self.spec_len(),
    {
        self.len
    }

    /// The slots as they are stored.
    pub fn as_slice(&self) -> (r: &[Option<PhysFrame>])
        ensures
            r@ == self@,
    {
        self.entries.as_slice()
    }

    /// A walk over the runs in slot order.
    pub fn iter(&self) -> (r: FreeRegionIter<'_>)
        ensures
            r.wf(),
            r@ == populated(self@),
    {
        let r = FreeRegionIter { entries: self.entries.as_slice(), index: 0 };
        proof {
            assert(self.entries@.skip(0) =~= self.entries@);
        }
        r
    }

    /// Stores `frame` in the first empty slot. An empty run is not stored.
    /// With no slot empty the list is left as it was.
    pub fn push(&mut self, frame: PhysFrame) -> (r: Result<(), PhysAllocError>)
        requires
            old(self).wf(),
            frame.count == 0 || frame.valid(),
        ensures
            final(self).wf(),
            final(self)@.len() == old(self)@.len(),
            frame.count == 0 ==> r is Ok && final(self)@ == old(self)@,
            frame.count != 0 && first_none(old(self)@) < old(self)@.len()
                ==> r is Ok
                && final(self)@ == old(self)@.update(first_none(old(self)@), Some(frame)),
            frame.count != 0 && first_none(old(self)@) >= old(self)@.len() ==> r == Err::<(), _>(
                PhysAllocError::StorageExhausted { capacity: old(self)@.len() as usize },
            ) && final(self)@ == old(self)@,
    {
        if frame.count == 0 {
            return Ok(());
        }
        let n: usize = self.entries.len();
        let mut idx: usize = 0;
        while idx < n
            invariant
                idx <= n,
                n == self.entries@.len(),
                *self == *old(self),
                self.wf(),
                frame.valid(),
                forall|j: int| 0 <= j < idx ==> #[trigger] self.entries@[j] is Some,
            decreases n - idx,
        {
            if self.entries[idx].is_none() {
                proof {
                    lemma_first_none(self.entries@, idx as int);
                    lemma_occupied_update(self.entries@, idx as int, Some(frame));
                    lemma_occupied_bound(self.entries@.update(idx as int, Some(frame)));
                }
                self.entries.set(idx, Some(frame));
                self.len = self.len + 1;
                return Ok(());
            }
            idx = idx + 1;
        }
        proof {
            lemma_first_none(self.entries@, n as int);
        }
        Err(PhysAllocError::StorageExhausted { capacity: self.capacity() })
    }

    /// Empties the slot `index`, where there is one.
    pub fn remove_slot(&mut self, index: usize)
        requires
            old(self).wf(),
        ensures
            final(self).wf(),
            final(self)@ == if index < old(self)@.len() {
                old(self)@.update(index as int, None)
            } else {
                old(self)@
            },
    {
        if index < self.entries.len() {
            if self.entries[index].is_some() {
                proof {
                    lemma_occupied_update(self.entries@, index as int, None);
                }
                self.entries.set(index, None);
                self.len = self.len - 1;
            } else {
                assert(self.entries@ =~= self.entries@.update(index as int, None));
            }
        }
    }

    /// Takes `frames` frames from the start of the first run that is long
    /// enough. A run of exactly that length leaves its slot empty; a longer
    /// one keeps its slot and loses its first `frames` frames. `Ok(None)`
    /// when no run is long enough.
    pub fn allocate_count(&mut self, frames: u64) -> (r: Result<Option<PhysFrame>, PhysAllocError>)
        requires
            old(self).wf(),
        ensures
            final(self).wf(),
            final(self)@.len() == old(self)@.len(),
            frames == 0 ==> r == Err::<Option<PhysFrame>, _>(
                PhysAllocError::UnsupportedFrameCount { frames: 0 },
            ) && final(self)@ == old(self)@,
            frames != 0 && first_fit(old(self)@, frames) >= old(self)@.len() ==> r == Ok::<
                _,
                PhysAllocError,
            >(None::<PhysFrame>) && final(self)@ == old(self)@,
            frames != 0 && first_fit(old(self)@, frames) < old(self)@.len() ==> ({
                let idx = first_fit(old(self)@, frames);
                let run = old(self)@[idx]->Some_0;
                &&& r == Ok::<_, PhysAllocError>(Some(PhysFrame { start: run.start,
                    count: frames }))
                &&& final(self)@ == old(self)@.update(
                    idx,
                    if run.count == frames {
                        None
                    } else {
                        Some(
                            PhysFrame {
                                start: (run.start + frames * FRAME_SIZE) as u64,
                                count: (run.count - frames) as u64,
                            },
                        )
                    },
                )
            }),
    {
        if frames == 0 {
            return Err(PhysAllocError::UnsupportedFrameCount { frames });
        }
        let n: usize = self.entries.len();
        let mut idx: usize = 0;
        while idx < n
            invariant
                idx <= n,
                n == self.entries@.len(),
                *self == *old(self),
                self.wf(),
                frames != 0,
                forall|j: int|
                    0 <= j < idx ==> match #[trigger] self.entries@[j] {
                        Some(r) => r.count < frames,
                        None => true,
                    },
            decreases n - idx,
        {
            let slot: Option<PhysFrame> = self.entries[idx];
            if let Some(run) = slot {
                if run.count >= frames {
                    proof {
                        lemma_first_fit(self.entries@, frames, idx as int);
                    }
                    let alloc = PhysFrame::new(run.start, frames);
                    if run.count == frames {
                        self.remove_slot(idx);
                        return Ok(Some(alloc));
                    }
                    let advance_bytes: u64 = match frames.checked_mul(FRAME_SIZE) {
                        Some(bytes) => bytes,
                        None => {
                            return Err(
                                PhysAllocError::RangeOverflow {
                                    start: run.start,
                                    end: run.start.saturating_add(u64::MAX),
                                },
                            );
                        },
                    };
                    let new_start: u64 = match run.start.checked_add(advance_bytes) {
                        Some(s) => s,
                        None => {
                            return Err(
                                PhysAllocError::RangeOverflow {
                                    start: run.start,
                                    end: run.start.saturating_add(advance_bytes),
                                },
                            );
                        },
                    };
                    let remaining: u64 = run.count - frames;
                    let rest = PhysFrame::new(new_start, remaining);
                    proof {
                        lemma_occupied_update(self.entries@, idx as int, Some(rest));
                        assert(rest.valid());
                    }
                    self.entries.set(idx, Some(rest));
                    return Ok(Some(alloc));
                }
            }
            idx = idx + 1;
        }
        proof {
            lemma_first_fit(self.entries@, frames, n as int);
        }
        Ok(None)
    }

    /// Index of the first run that shares a byte or a boundary with `span`.
    pub fn first_overlapping_index(&self, span: &FrameSpan) -> (r: Result<
        Option<usize>,
        PhysAllocError,
    >)
        requires
            self.wf(),
        ensures
            r is Ok,
            match r->Ok_0 {
                Some(i) => i < self@.len() && is_first_touching(self@, *span, i as int),
                None => is_first_touching(self@, *span, self@.len() as int),
            },
    {
        let n: usize = self.entries.len();
        let mut idx: usize = 0;
        while idx < n
            invariant
                idx <= n,
                n == self.entries@.len(),
                self.wf(),
                forall|j: int|
                    0 <= j < idx ==> match #[trigger] self.entries@[j] {
                        Some(r) => !span.spec_touches(run_span(r)),
                        None => true,
                    },
            decreases n - idx,
        {
            let slot: Option<PhysFrame> = self.entries[idx];
            if let Some(run) = slot {
                match FrameSpan::from_frame(run) {
                    Err(e) => {
                        return Err(e);
                    },
                    Ok(existing) => {
                        if span.touches(&existing) {
                            return Ok(Some(idx));
                        }
                    },
                }
            }
            idx = idx + 1;
        }
        Ok(None)
    }

    /// Empties the slot `index` and hands out the span of the run it held.
    pub fn take_span(&mut self, index: usize) -> (r: Result<FrameSpan, PhysAllocError>)
        requires
            old(self).wf(),
        ensures
            final(self).wf(),
            index < old(self)@.len() && old(self)@[index as int] is Some ==> r == Ok::<
                _,
                PhysAllocError,
            >(run_span(old(self)@[index as int]->Some_0)) && final(self)@ == old(self)@.update(
                index as int,
                None,
            ) && final(self).spec_len() + 1 == old(self).spec_len(),
            !(index < old(self)@.len() && old(self)@[index as int] is Some) ==> r == Err::<
                FrameSpan,
                _,
            >(PhysAllocError::OutOfMemory) && final(self)@ == old(self)@,
    {
        if index >= self.entries.len() {
            return Err(PhysAllocError::OutOfMemory);
        }
        let slot: Option<PhysFrame> = self.entries[index];
        match slot {
            None => Err(PhysAllocError::OutOfMemory),
            Some(run) => {
                proof {
                    lemma_occupied_update(self.entries@, index as int, None);
                }
                self.entries.set(index, None);
                self.len = self.len - 1;
                FrameSpan::from_frame(run)
            },
        }
    }

    /// Stores the run of a valid span in the first empty slot.
    pub fn push_span(&mut self, span: FrameSpan) -> (r: Result<(), PhysAllocError>)
        requires
            old(self).wf(),
            span.valid(),
        ensures
            final(self).wf(),
            final(self)@.len() == old(self)@.len(),
            first_none(old(self)@) < old(self)@.len()
                ==> r is Ok
                && final(self)@ == old(self)@.update(first_none(old(self)@), Some(span.as_frame())),
            first_none(old(self)@) >= old(self)@.len() ==> r == Err::<(), _>(
                PhysAllocError::StorageExhausted { capacity: old(self)@.len() as usize },
            ) && final(self)@ == old(self)@,
    {
        match span.into_frame() {
            Err(e) => Err(e),
            Ok(frame) => self.push(frame),
        }
    }

    /// Merges into `span` every run that it shares a byte or a boundary
    /// with, again and again until none is left, and empties their slots.
    pub fn coalesce_span(&mut self, span: FrameSpan) -> (r: Result<FrameSpan, PhysAllocError>)
        requires
            old(self).wf(),
            span.valid(),
        ensures
            final(self).wf(),
            r is Ok,
            coalesced(old(self)@, span, final(self)@, r->Ok_0),
            !any_touching(old(self)@, span) ==> final(self)@ == old(self)@ && r->Ok_0 == span,
            any_touching(old(self)@, span) ==> first_none(final(self)@) < final(self)@.len(),
    {
        let ghost first = span;
        let ghost merged = false;
        let mut span = span;
        loop
            invariant
                self.wf(),
                old(self).wf(),
                span.valid(),
                first.valid(),
                self@.len() == old(self)@.len(),
                span.start <= first.start,
                first.end <= span.end,
                forall|i: int|
                    0 <= i < old(self)@.len() ==> match #[trigger] old(self)@[i] {
                        Some(r) => self@[i] == old(self)@[i] || (self@[i] is None && span.start
                            <= r.start && r.end() <= span.end),
                        None => self@[i] is None,
                    },
                forall|a: int| span.holds(a) ==> first.holds(a) || #[trigger] covers(old(self)@, a),
                !merged ==> self@ == old(self)@ && span == first,
                merged ==> any_touching(old(self)@, first) && first_none(self@) < self@.len(),
            ensures
                is_first_touching(self@, span, self@.len() as int),
            decreases self.spec_len(),
        {
            let found = match self.first_overlapping_index(&span) {
                Err(e) => {
                    return Err(e);
                },
                Ok(found) => found,
            };
            let index: usize = match found {
                None => {
                    break ;
                },
                Some(index) => index,
            };
            let ghost before = self@;
            let ghost run = before[index as int]->Some_0;
            let existing = match self.take_span(index) {
                Err(e) => {
                    return Err(e);
                },
                Ok(existing) => existing,
            };
            let ghost wider = span.hull(existing);
            proof {
                assert(old(self)@[index as int] == Some(run));
                assert(run.valid());
                if !merged {
                    assert(any_touching(old(self)@, first));
                }
                lemma_first_none_exists(self@);
                if first_none(self@) >= self@.len() {
                    assert(self@[index as int] is Some);
                }
                assert forall|a: int| wider.holds(a) implies first.holds(a) || #[trigger] covers(
                    old(self)@,
                    a,
                ) by {
                    if !span.holds(a) {
                        assert(existing.holds(a));
                        assert(slot_holds(old(self)@[index as int], a));
                    }
                }
                merged = true;
            }
            span = match span.merge(existing) {
                Err(e) => {
                    return Err(e);
                },
                Ok(wider) => wider,
            };
        }
        proof {
            assert forall|i: int| 0 <= i < old(self)@.len() implies match #[trigger] old(self)@[i] {
                Some(r) => (self@[i] == old(self)@[i] && !span.spec_touches(run_span(r))) || (
                self@[i] is None && span.start <= r.start && r.end() <= span.end),
                None => self@[i] is None,
            } by {
                if let Some(r) = old(self)@[i] {
                    if self@[i] == old(self)@[i] {
                        assert(self@[i] is Some);
                    }
                }
            }
            if !merged {
                if any_touching(old(self)@, first) {
                    let i = choose|i: int|
                        0 <= i < old(self)@.len() && match #[trigger] old(self)@[i] {
                            Some(r) => first.spec_touches(run_span(r)),
                            None => false,
                        };
                    assert(self@[i] is Some);
                }
            }
        }
        Ok(span)
    }

    /// Puts a run back among the free runs. Every run that it shares a byte
    /// or a boundary with is merged with it, so that one run stands for all
    /// of them. An empty run changes nothing.
    pub fn insert(&mut self, frame: PhysFrame) -> (r: Result<(), PhysAllocError>)
        requires
            old(self).wf(),
        ensures
            final(self).wf(),
            final(self)@.len() == old(self)@.len(),
            frame.count == 0 ==> r is Ok && final(self)@ == old(self)@,
            frame.count != 0 && !frame.valid() ==> r is Err && Err::<FrameSpan, _>(r->Err_0)
                == span_of_frame(frame) && final(self)@ == old(self)@,
            frame.valid() ==> (r is Err <==> first_none(old(self)@) >= old(self)@.len()
                && !any_touching(old(self)@, run_span(frame))),
            frame.valid() && r is Err ==> r == Err::<(), _>(
                PhysAllocError::StorageExhausted { capacity: old(self)@.len() as usize },
            ) && final(self)@ == old(self)@,
            frame.valid() && r is Ok ==> inserted(old(self)@, frame, final(self)@),
            frame.valid() && r is Ok ==> final(self).free_bytes() == old(self).free_bytes().union(
                Set::new(|a: int| frame.holds(a)),
            ),
            runs_disjoint(old(self)@) ==> runs_disjoint(final(self)@),
    {
        if frame.count == 0 {
            return Ok(());
        }
        let initial_span = match FrameSpan::from_frame(frame) {
            Err(e) => {
                return Err(e);
            },
            Ok(s) => s,
        };
        let merged_span = match self.coalesce_span(initial_span) {
            Err(e) => {
                return Err(e);
            },
            Ok(m) => m,
        };
        let ghost cur = self@;
        let r = self.push_span(merged_span);
        proof {
            lemma_first_none_exists(cur);
            lemma_first_none_exists(old(self)@);
            if r is Ok {
                assert(coalesced(old(self)@, run_span(frame), cur, merged_span));
                assert(inserted(old(self)@, frame, self@));
                lemma_inserted_bytes(old(self)@, frame, self@);
                if runs_disjoint(old(self)@) {
                    lemma_inserted_disjoint(old(self)@, frame, self@);
                }
            }
        }
        r
    }

    /// Cuts `removal` out of the run in slot `idx`.
    fn carve_slot(&mut self, idx: usize, run: PhysFrame, removal: &FrameSpan) -> (r: Result<
        (),
        PhysAllocError,
    >)
        requires
            old(self).wf(),
            removal.valid(),
            idx < old(self)@.len(),
            old(self)@[idx as int] == Some(run),
            run_overlaps(run, *removal),
        ensures
            final(self).wf(),
            final(self)@.len() == old(self)@.len(),
            final(self)@ == carved(old(self)@, idx as int, run, *removal).0,
            r is Ok <==> carved(old(self)@, idx as int, run, *removal).1,
            r is Err ==> r == Err::<(), _>(
                PhysAllocError::StorageExhausted { capacity: old(self)@.len() as usize },
            ),
    {
        let existing_span = match FrameSpan::from_frame(run) {
            Err(e) => {
                return Err(e);
            },
            Ok(s) => s,
        };
        self.remove_slot(idx);
        let ghost base = self@;
        let (left, right) = match existing_span.subtract(removal) {
            Err(e) => {
                return Err(e);
            },
            Ok(pieces) => pieces,
        };
        proof {
            lemma_first_none_exists(base);
            if first_none(base) >= base.len() {
                assert(base[idx as int] is Some);
            }
        }
        if let Some(span) = left {
            assert(Some(span.as_frame()) == left_piece(run, *removal));
            match self.push_span(span) {
                Err(e) => {
                    return Err(e);
                },
                Ok(_) => {},
            }
        }
        if let Some(span) = right {
            assert(Some(span.as_frame()) == right_piece(run, *removal));
            match self.push_span(span) {
                Err(e) => {
                    return Err(e);
                },
                Ok(_) => {},
            }
        }
        Ok(())
    }

    /// Removes the bytes from `start` to `end` from the free runs. The
    /// interval is widened to frame boundaries; each run that it overlaps
    /// leaves its slot, and what is left of the run on either side is
    /// stored again, each piece in the first empty slot.
    pub fn subtract_range(&mut self, start: u64, end: u64) -> (r: Result<(), PhysAllocError>)
        requires
            old(self).wf(),
        ensures
            final(self).wf(),
            final(self)@.len() == old(self)@.len(),
            start >= end || !removal_span(start, end).valid()
                ==> r is Ok && final(self)@ == old(self)@,
            start < end && removal_span(start, end).valid() ==> subtracted(
                old(self)@,
                removal_span(start, end),
                final(self)@,
                r is Ok,
            ),
            start < end && removal_span(start, end).valid() ==> final(self)@ == cut_from(
                old(self)@,
                removal_span(start, end),
                0,
            ).0 && (r is Ok) == cut_from(old(self)@, removal_span(start, end), 0).1,
            r is Err ==> r == Err::<(), _>(
                PhysAllocError::StorageExhausted { capacity: old(self)@.len() as usize },
            ),
            r is Ok ==> forall|a: int| start <= a < end ==> !#[trigger] covers(final(self)@, a),
            r is Ok && start < end
                ==> final(self).free_bytes() == old(self).free_bytes().difference(
                Set::new(|a: int| removal_span(start, end).holds(a)),
            ),
            forall|a: int| #[trigger] covers(final(self)@, a) ==> covers(old(self)@, a),
    {
        if start >= end {
            return Ok(());
        }
        let range_start: u64 = align_down(start);
        let range_end: u64 = align_up(end);
        if range_start >= range_end {
            proof {
                assert(old(self).free_bytes() =~= old(self).free_bytes().difference(
                    Set::new(|a: int| removal_span(start, end).holds(a)),
                ));
            }
            return Ok(());
        }
        let removal = match FrameSpan::new(range_start, range_end) {
            Err(e) => {
                return Err(e);
            },
            Ok(s) => s,
        };
        assert(removal == removal_span(start, end));
        let n: usize = self.entries.len();
        let mut idx: usize = 0;
        proof {
            lemma_carving_start(self@, removal);
        }
        while idx < n
            invariant
                idx <= n,
                n == self@.len(),
                self.wf(),
                old(self).wf(),
                removal.valid(),
                start < end,
                self@.len() == old(self)@.len(),
                removal == removal_span(start, end),
                carving(old(self)@, self@, removal, idx as int),
                cut_from(self@, removal, idx as int) == cut_from(old(self)@, removal, 0),
            decreases n - idx,
        {
            let slot: Option<PhysFrame> = self.entries[idx];
            let ghost cur = self@;
            let mut overlapping: bool = false;
            if let Some(run) = slot {
                overlapping =
                match FrameSpan::from_frame(run) {
                    Err(e) => {
                        return Err(e);
                    },
                    Ok(existing_span) => existing_span.overlaps(&removal),
                };
                if overlapping {
                    proof {
                        lemma_carving_cut(old(self)@, cur, removal, idx as int, run);
                    }
                    match self.carve_slot(idx, run, &removal) {
                        Err(e) => {
                            proof {
                                lemma_subtracted_bytes(old(self)@, removal, self@, false);
                            }
                            return Err(e);
                        },
                        Ok(_) => {},
                    }
                }
            }
            proof {
                if !overlapping {
                    lemma_carving_skip(old(self)@, cur, removal, idx as int);
                }
            }
            idx = idx + 1;
        }
        proof {
            lemma_carving_done(old(self)@, self@, removal);
            lemma_subtracted_bytes(old(self)@, removal, self@, true);
            lemma_removal_bytes(self@, start, end);
        }
        Ok(())
    }
}

/// What cutting an interval out does to the bytes that are free.
pub proof fn lemma_subtracted_bytes(
    old: Seq<Option<PhysFrame>>,
    removal: FrameSpan,
    new: Seq<Option<PhysFrame>>,
    ok: bool,
)
    requires
        subtracted(old, removal, new, ok),
    ensures
        ok ==> free_bytes(new) == free_bytes(old).difference(Set::new(|a: int| removal.holds(a))),
        forall|a: int| #[trigger] covers(new, a) ==> covers(old, a),
        runs_valid(new),
        runs_disjoint(old) ==> runs_disjoint(new),
        runs_disjoint(old) ==> occupied(new) <= occupied(old) + 1,
        runs_disjoint(old) ==> (!ok <==> has_two_sided(old, removal) && first_none(old)
            >= old.len()),
        ok ==> forall|j: int|
            0 <= j < new.len() ==> match #[trigger] new[j] {
                Some(p) => !run_overlaps(p, removal),
                None => true,
            },
{
    reveal(subtracted);
}

/// The slots after `removal` was cut out of the run of every slot from
/// `idx` on, slot after slot, and whether every piece found a slot. The
/// cutting ends with the first piece that finds none.
pub open spec fn cut_from(s: Seq<Option<PhysFrame>>, removal: FrameSpan, idx: int) -> (
    Seq<Option<PhysFrame>>,
    bool,
)
    decreases s.len() - idx,
{
    if idx < 0 || idx >= s.len() {
        (s, true)
    } else {
        match s[idx] {
            Some(run) => if run_overlaps(run, removal) {
                let (next, done) = carved(s, idx, run, removal);
                if done && next.len() == s.len() {
                    cut_from(next, removal, idx + 1)
                } else {
                    (next, false)
                }
            } else {
                cut_from(s, removal, idx + 1)
            },
            None => cut_from(s, removal, idx + 1),
        }
    }
}

/// Whether a run of `s` in a slot before `idx` reaches beyond `removal` on
/// both sides.
pub open spec fn two_sided_before(s: Seq<Option<PhysFrame>>, removal: FrameSpan, idx: int) -> bool {
    exists|i: int|
        0 <= i < idx && i < s.len() && match #[trigger] s[i] {
            Some(q) => q.start < removal.start && removal.end < q.end(),
            None => false,
        }
}

/// A list with fewer runs than slots has an empty slot.
pub proof fn lemma_room<T>(s: Seq<Option<T>>)
    ensures
        occupied(s) < s.len() ==> first_none(s) < s.len(),
        first_none(s) >= s.len() ==> occupied(s) == s.len(),
{
    lemma_first_none_exists(s);
    if first_none(s) >= s.len() {
        lemma_all_occupied(s);
    }
}

proof fn lemma_all_occupied<T>(s: Seq<Option<T>>)
    requires
        forall|i: int| 0 <= i < s.len() ==> #[trigger] s[i] is Some,
    ensures
        occupied(s) == s.len(),
    decreases s.len(),
{
    if s.len() > 0 {
        let t = s.drop_last();
        assert forall|i: int| 0 <= i < t.len() implies #[trigger] t[i] is Some by {
            assert(t[i] == s[i]);
        }
        lemma_all_occupied(t);
    }
}

/// How many runs a list has after one of them was cut.
proof fn lemma_carved_count(
    cur: Seq<Option<PhysFrame>>,
    idx: int,
    run: PhysFrame,
    removal: FrameSpan,
)
    requires
        0 <= idx < cur.len(),
        cur[idx] == Some(run),
    ensures
        ({
            let (next, done) = carved(cur, idx, run, removal);
            occupied(next) + 1 == occupied(cur) + (if left_piece(run, removal) is Some {
                1nat
            } else {
                0nat
            }) + (if right_piece(run, removal) is Some && done {
                1nat
            } else {
                0nat
            })
        }),
{
    let base = cur.update(idx, None);
    lemma_occupied_update(cur, idx, None);
    lemma_first_none_exists(base);
    let jl = first_none(base);
    if jl >= base.len() {
        assert(base[idx] is Some);
    }
    let with_left = match left_piece(run, removal) {
        Some(p) => base.update(jl, Some(p)),
        None => base,
    };
    if let Some(p) = left_piece(run, removal) {
        lemma_occupied_update(base, jl, Some(p));
    }
    lemma_first_none_exists(with_left);
    let jr = first_none(with_left);
    if let Some(q) = right_piece(run, removal) {
        if jr < with_left.len() {
            lemma_occupied_update(with_left, jr, Some(q));
        }
    }
}

/// No run of `old` before slot `idx` shares a byte with `removal`.
pub open spec fn untouched_before(
    old: Seq<Option<PhysFrame>>,
    removal: FrameSpan,
    idx: int,
) -> bool {
    forall|i: int|
        0 <= i < idx && i < old.len() ==> match #[trigger] old[i] {
            Some(q) => !run_overlaps(q, removal),
            None => true,
        }
}

/// What cutting `removal` out of the runs of `old` leaves in `new`. `ok`
/// says whether every piece found a slot; if one did not, the run that it
/// was cut from reached beyond `removal` on both sides.
#[verifier::opaque]
pub open spec fn subtracted(
    old: Seq<Option<PhysFrame>>,
    removal: FrameSpan,
    new: Seq<Option<PhysFrame>>,
    ok: bool,
) -> bool {
    &&& new.len() == old.len()
    &&& runs_valid(new)
    &&& !ok ==> has_two_sided(old, removal)
    &&& runs_disjoint(old) ==> (!ok <==> has_two_sided(old, removal) && first_none(old)
        >= old.len())
    &&& ok ==> free_bytes(new) == free_bytes(old).difference(Set::new(|a: int| removal.holds(a)))
    &&& runs_disjoint(old) ==> runs_disjoint(new)
    &&& runs_disjoint(old) ==> occupied(new) <= occupied(old) + if has_two_sided(old, removal) {
        1nat
    } else {
        0nat
    }
    &&& forall|a: int| #[trigger] covers(new, a) ==> covers(old, a)
    &&& forall|j: int|
        0 <= j < old.len() ==> match #[trigger] old[j] {
            Some(q) => !run_overlaps(q, removal) ==> new[j] == old[j],
            None => true,
        }
    &&& ok ==> forall|j: int|
        0 <= j < new.len() ==> match #[trigger] new[j] {
            Some(p) => !run_overlaps(p, removal) && (new[j] == old[j] || is_piece(
                old,
                removal,
                p,
            )),
            None => true,
        }
    &&& ok ==> forall|i: int|
        0 <= i < old.len() ==> match #[trigger] old[i] {
            Some(q) => run_overlaps(q, removal) ==> (left_piece(q, removal) matches Some(p)
                ==> has_run(new, p)) && (right_piece(q, removal) matches Some(p) ==> has_run(
                new,
                p,
            )),
            None => true,
        }
}

/// How the slots `cur` stand to the slots `old` once `removal` has been cut
/// out of every run in the slots before `idx`.
#[verifier::opaque]
pub open spec fn carving(
    old: Seq<Option<PhysFrame>>,
    cur: Seq<Option<PhysFrame>>,
    removal: FrameSpan,
    idx: int,
) -> bool {
    &&& cur.len() == old.len()
    &&& runs_valid(cur)
    &&& forall|j: int|
        0 <= j < idx && j < cur.len() ==> match #[trigger] cur[j] {
            Some(p) => !run_overlaps(p, removal),
            None => true,
        }
    &&& forall|j: int|
        0 <= j < cur.len() ==> match #[trigger] cur[j] {
            Some(p) => cur[j] == old[j] || (!run_overlaps(p, removal) && is_piece(
                old,
                removal,
                p,
            )),
            None => true,
        }
    &&& forall|a: int| #[trigger] covers(cur, a) ==> covers(old, a)
    &&& forall|a: int| !removal.holds(a) && #[trigger] covers(old, a) ==> covers(cur, a)
    &&& forall|j: int|
        0 <= j < old.len() ==> match #[trigger] old[j] {
            Some(q) => (!run_overlaps(q, removal) || j >= idx) ==> cur[j] == old[j],
            None => true,
        }
    &&& forall|i: int|
        0 <= i < idx && i < old.len() ==> match #[trigger] old[i] {
            Some(q) => run_overlaps(q, removal) ==> (left_piece(q, removal) matches Some(p)
                ==> has_run(cur, p)) && (right_piece(q, removal) matches Some(p) ==> has_run(
                cur,
                p,
            )),
            None => true,
        }
    &&& untouched_before(old, removal, idx) ==> cur == old
    &&& forall|i: int|
        0 <= i < idx && i < old.len() ==> match #[trigger] old[i] {
            Some(q) => q.start < removal.start && removal.end < q.end() ==> !(runs_disjoint(old)
                && first_none(old) >= old.len()),
            None => true,
        }
    &&& runs_disjoint(old) ==> runs_disjoint(cur)
    &&& runs_disjoint(old) ==> occupied(cur) <= occupied(old) + if two_sided_before(
        old,
        removal,
        idx,
    ) {
        1nat
    } else {
        0nat
    }
}

proof fn lemma_carving_start(old: Seq<Option<PhysFrame>>, removal: FrameSpan)
    requires
        runs_valid(old),
    ensures
        carving(old, old, removal, 0),
{
    reveal(carving);
}

proof fn lemma_carving_skip(
    old: Seq<Option<PhysFrame>>,
    cur: Seq<Option<PhysFrame>>,
    removal: FrameSpan,
    idx: int,
)
    requires
        carving(old, cur, removal, idx),
        removal.valid(),
        0 <= idx < cur.len(),
        match cur[idx] {
            Some(p) => !run_overlaps(p, removal),
            None => true,
        },
    ensures
        carving(old, cur, removal, idx + 1),
{
    reveal(carving);
    assert(untouched_before(old, removal, idx + 1) ==> untouched_before(old, removal, idx));
    if two_sided_before(old, removal, idx) {
        let i = choose|i: int|
            0 <= i < idx && i < old.len() && match #[trigger] old[i] {
                Some(q) => q.start < removal.start && removal.end < q.end(),
                None => false,
            };
        assert(old[i] is Some);
        assert(two_sided_before(old, removal, idx + 1));
    }
    assert forall|i: int| 0 <= i < idx + 1 && i < old.len() implies match #[trigger] old[i] {
        Some(q) => run_overlaps(q, removal) ==> (left_piece(q, removal) matches Some(p)
            ==> has_run(cur, p)) && (right_piece(q, removal) matches Some(p) ==> has_run(cur, p)),
        None => true,
    } by {
        if i == idx {
            if old[idx] is Some {
                assert(cur[idx] == old[idx]);
            }
        }
    }
    assert forall|i: int| 0 <= i < idx + 1 && i < old.len() implies match #[trigger] old[i] {
        Some(q) => q.start < removal.start && removal.end < q.end() ==> !(runs_disjoint(old)
            && first_none(old) >= old.len()),
        None => true,
    } by {
        if i == idx {
            if old[idx] is Some {
                assert(cur[idx] == old[idx]);
            }
        }
    }
    assert forall|j: int| 0 <= j < old.len() implies match #[trigger] old[j] {
        Some(q) => (!run_overlaps(q, removal) || j >= idx + 1) ==> cur[j] == old[j],
        None => true,
    } by {
    }
}

/// Cutting one run of runs that share no byte adds a run only if the run
/// reaches beyond the interval on both sides, and no other run does.
proof fn lemma_carving_count(
    old: Seq<Option<PhysFrame>>,
    cur: Seq<Option<PhysFrame>>,
    removal: FrameSpan,
    idx: int,
    run: PhysFrame,
)
    requires
        0 <= idx < cur.len(),
        cur.len() == old.len(),
        cur[idx] == Some(run),
        old[idx] == Some(run),
        run.valid(),
        run_overlaps(run, removal),
        removal.valid(),
        runs_disjoint(old) ==> occupied(cur) <= occupied(old) + if two_sided_before(
            old,
            removal,
            idx,
        ) {
            1nat
        } else {
            0nat
        },
    ensures
        runs_disjoint(old) ==> occupied(carved(cur, idx, run, removal).0) <= occupied(old)
            + if two_sided_before(old, removal, idx + 1) {
            1nat
        } else {
            0nat
        },
{
    lemma_carved_count(cur, idx, run, removal);
    let two_sided = run.start < removal.start && removal.end < run.end();
    if runs_disjoint(old) {
        if two_sided {
            assert(two_sided_before(old, removal, idx + 1));
            if two_sided_before(old, removal, idx) {
                let i = choose|i: int|
                    0 <= i < idx && i < old.len() && match #[trigger] old[i] {
                        Some(q) => q.start < removal.start && removal.end < q.end(),
                        None => false,
                    };
                assert(old[i] is Some && old[idx] is Some);
                assert(false);
            }
        } else {
            if two_sided_before(old, removal, idx) {
                let i = choose|i: int|
                    0 <= i < idx && i < old.len() && match #[trigger] old[i] {
                        Some(q) => q.start < removal.start && removal.end < q.end(),
                        None => false,
                    };
                assert(old[i] is Some);
                assert(two_sided_before(old, removal, idx + 1));
            }
        }
    }
}

#[verifier::rlimit(50)]
proof fn lemma_carving_cut(
    old: Seq<Option<PhysFrame>>,
    cur: Seq<Option<PhysFrame>>,
    removal: FrameSpan,
    idx: int,
    run: PhysFrame,
)
    requires
        carving(old, cur, removal, idx),
        0 <= idx < cur.len(),
        cur[idx] == Some(run),
        run_overlaps(run, removal),
        removal.valid(),
    ensures
        ({
            let (next, done) = carved(cur, idx, run, removal);
            &&& done ==> carving(old, next, removal, idx + 1)
            &&& !done ==> subtracted(old, removal, next, false)
        }),
{
    reveal(carving);
    reveal(subtracted);
    let (next, done) = carved(cur, idx, run, removal);
    assert(run.valid());
    assert(old[idx] == Some(run));
    lemma_carved(cur, idx, run, removal);
    let two_sided = run.start < removal.start && removal.end < run.end();
    lemma_carving_count(old, cur, removal, idx, run);
    // With disjoint runs, a run that reaches beyond the interval on both
    // sides is the only one that the interval overlaps.
    if runs_disjoint(old) && two_sided {
        assert forall|i: int| 0 <= i < old.len() && i != idx implies match #[trigger] old[i] {
            Some(q) => !run_overlaps(q, removal),
            None => true,
        } by {
            assert(old[idx] == Some(run));
        }
        assert(untouched_before(old, removal, idx));
        assert(cur == old);
        let base = cur.update(idx, None);
        lemma_first_none_exists(old);
        lemma_first_none_exists(base);
        if first_none(old) >= old.len() {
            assert(is_first_none(base, idx));
            lemma_first_none(base, idx);
            let p = left_piece(run, removal)->Some_0;
            let with_left = base.update(idx, Some(p));
            assert(is_first_none(with_left, with_left.len() as int));
            lemma_first_none(with_left, with_left.len() as int);
            assert(!done);
        } else {
            let k = first_none(old);
            assert(old[k] is None);
            assert(done);
        }
    }
    assert forall|a: int| #[trigger] covers(next, a) implies covers(old, a) by {
        assert(covers(cur, a));
    }
    assert forall|j: int| 0 <= j < old.len() implies match #[trigger] old[j] {
        Some(q) => (!run_overlaps(q, removal) || j >= idx + 1) ==> next[j] == old[j],
        None => true,
    } by {
        if let Some(q) = old[j] {
            if !run_overlaps(q, removal) || j >= idx + 1 {
                assert(cur[j] == old[j]);
                assert(cur[j] is Some);
                assert(j != idx);
            }
        }
    }
    if done {
        assert forall|j: int| 0 <= j < idx + 1 && j < next.len() implies match #[trigger] next[j] {
            Some(p) => !run_overlaps(p, removal),
            None => true,
        } by {
            if let Some(p) = next[j] {
                if j != idx && cur[j] == next[j] {
                    assert(cur[j] is Some);
                }
            }
        }
        assert forall|j: int| 0 <= j < next.len() implies match #[trigger] next[j] {
            Some(p) => next[j] == old[j] || (!run_overlaps(p, removal) && is_piece(
                old,
                removal,
                p,
            )),
            None => true,
        } by {
            if let Some(p) = next[j] {
                if j != idx && cur[j] == next[j] {
                    assert(cur[j] is Some);
                } else {
                    assert(old[idx] == Some(run));
                    assert(is_piece(old, removal, p));
                }
            }
        }
        assert forall|a: int| !removal.holds(a) && #[trigger] covers(old, a) implies covers(
            next,
            a,
        ) by {
            assert(covers(cur, a));
        }
        assert forall|i: int| 0 <= i < idx + 1 && i < old.len() implies match #[trigger] old[i] {
            Some(q) => run_overlaps(q, removal) ==> (left_piece(q, removal) matches Some(p)
                ==> has_run(next, p)) && (right_piece(q, removal) matches Some(p) ==> has_run(
                next,
                p,
            )),
            None => true,
        } by {
            if let Some(q) = old[i] {
                if run_overlaps(q, removal) && i < idx {
                    if let Some(p) = left_piece(q, removal) {
                        assert(p.start < removal.start);
                        assert(!run_overlaps(p, removal));
                        lemma_has_run_kept(cur, next, idx, p);
                    }
                    if let Some(p) = right_piece(q, removal) {
                        assert(!run_overlaps(p, removal));
                        lemma_has_run_kept(cur, next, idx, p);
                    }
                }
            }
        }
        assert(!untouched_before(old, removal, idx + 1)) by {
            assert(old[idx] == Some(run));
        }
        assert forall|i: int| 0 <= i < idx + 1 && i < old.len() implies match #[trigger] old[i] {
            Some(q) => q.start < removal.start && removal.end < q.end() ==> !(runs_disjoint(old)
                && first_none(old) >= old.len()),
            None => true,
        } by {
            if i == idx {
                assert(old[idx] == Some(run));
                if two_sided && runs_disjoint(old) && first_none(old) >= old.len() {
                    assert(!done);
                }
            } else {
                assert(0 <= i < idx);
            }
        }
    } else {
        assert(has_two_sided(old, removal)) by {
            assert(old[idx] == Some(run));
        }
        assert forall|j: int| 0 <= j < old.len() implies match #[trigger] old[j] {
            Some(q) => !run_overlaps(q, removal) ==> next[j] == old[j],
            None => true,
        } by {
        }
    }
}

proof fn lemma_carving_done(
    old: Seq<Option<PhysFrame>>,
    cur: Seq<Option<PhysFrame>>,
    removal: FrameSpan,
)
    requires
        carving(old, cur, removal, old.len() as int),
    ensures
        subtracted(old, removal, cur, true),
{
    reveal(carving);
    reveal(subtracted);
    if two_sided_before(old, removal, old.len() as int) {
        let i = choose|i: int|
            0 <= i < old.len() && i < old.len() && match #[trigger] old[i] {
                Some(q) => q.start < removal.start && removal.end < q.end(),
                None => false,
            };
        assert(old[i] is Some);
        assert(has_two_sided(old, removal));
    }
    assert forall|a: int| covers(cur, a) implies !removal.holds(a) by {
        let i = choose|i: int| 0 <= i < cur.len() && slot_holds(#[trigger] cur[i], a);
        assert(cur[i] is Some);
    }
    assert(free_bytes(cur) =~= free_bytes(old).difference(Set::new(|a: int| removal.holds(a))));
    if runs_disjoint(old) && has_two_sided(old, removal) && first_none(old) >= old.len() {
        let i = choose|i: int|
            0 <= i < old.len() && match #[trigger] old[i] {
                Some(q) => q.start < removal.start && removal.end < q.end(),
                None => false,
            };
        assert(old[i] is Some);
    }
    assert forall|j: int| 0 <= j < cur.len() implies match #[trigger] cur[j] {
        Some(p) => !run_overlaps(p, removal) && (cur[j] == old[j] || is_piece(old, removal, p)),
        None => true,
    } by {
    }
    assert forall|j: int| 0 <= j < old.len() implies match #[trigger] old[j] {
        Some(q) => !run_overlaps(q, removal) ==> cur[j] == old[j],
        None => true,
    } by {
    }
}

/// A run that stands in a list still stands there after another run was
/// cut, unless it stood in the slot that was cut.
proof fn lemma_has_run_kept(
    cur: Seq<Option<PhysFrame>>,
    next: Seq<Option<PhysFrame>>,
    idx: int,
    p: PhysFrame,
)
    requires
        cur.len() == next.len(),
        0 <= idx < cur.len(),
        forall|i: int| 0 <= i < cur.len() && i != idx && #[trigger] cur[i] is Some
            ==> next[i] == cur[i],
        has_run(cur, p),
        cur[idx] != Some(p),
    ensures
        has_run(next, p),
{
    let j = choose|j: int| 0 <= j < cur.len() && #[trigger] cur[j] == Some(p);
    assert(cur[j] is Some);
    assert(next[j] == Some(p));
}

/// A byte between the bounds as given that a run without a byte in the
/// widened interval covers: there is none.
pub proof fn lemma_removal_bytes(s: Seq<Option<PhysFrame>>, start: u64, end: u64)
    requires
        start < end,
        removal_span(start, end).valid(),
        runs_valid(s),
        forall|j: int|
            0 <= j < s.len() ==> match #[trigger] s[j] {
                Some(p) => !run_overlaps(p, removal_span(start, end)),
                None => true,
            },
    ensures
        forall|a: int| start <= a < end ==> !#[trigger] covers(s, a),
{
    let removal = removal_span(start, end);
    assert forall|a: int| start <= a < end implies !#[trigger] covers(s, a) by {
        if covers(s, a) {
            let i = choose|i: int| 0 <= i < s.len() && slot_holds(#[trigger] s[i], a);
            let q = s[i]->Some_0;
            assert(q.valid());
            lemma_run_frames(q, a);
            assert(frame_floor(start as int) <= a);
            assert(a < frame_ceil(end as int));
            assert(removal.holds(a));
            assert(run_overlaps(q, removal));
        }
    }
}

/// A valid run holds the whole frame of each byte that it holds.
pub proof fn lemma_run_frames(q: PhysFrame, a: int)
    requires
        q.valid(),
        q.holds(a),
    ensures
        q.holds(frame_floor(a)),
        q.holds(frame_floor(a) + FRAME_SIZE - 1),
        frame_floor(a) % (FRAME_SIZE as int) == 0,
        q.end() <= LAST_FRAME,
{
    let size = FRAME_SIZE as int;
    let k = (q.start as int) / size;
    assert(q.start == k * size);
    let e = k + q.count;
    assert(q.end() == e * size);
    let d = a / size;
    assert(a == d * size + a % size);
    assert(frame_floor(a) == d * size);
    assert(k <= d < e) by (nonlinear_arith)
        requires
            k * size <= d * size + a % size < e * size,
            0 <= a % size < size,
            size == 4096,
    ;
    assert(k * size <= d * size && (d + 1) * size <= e * size) by (nonlinear_arith)
        requires
            k <= d < e,
            size == 4096,
    ;
}

/// Inserting a run adds its bytes to those that are free, and no others.
pub proof fn lemma_inserted_bytes(
    old: Seq<Option<PhysFrame>>,
    frame: PhysFrame,
    new: Seq<Option<PhysFrame>>,
)
    requires
        frame.valid(),
        runs_valid(old),
        inserted(old, frame, new),
    ensures
        free_bytes(new) == free_bytes(old).union(Set::new(|a: int| frame.holds(a))),
{
    let span = run_span(frame);
    let (cur, m) = choose|cur: Seq<Option<PhysFrame>>, m: FrameSpan|
        #![trigger coalesced(old, span, cur, m)]
        {
            &&& coalesced(old, span, cur, m)
            &&& first_none(cur) < cur.len()
            &&& new == cur.update(first_none(cur), Some(m.as_frame()))
        };
    lemma_first_none_exists(cur);
    let j = first_none(cur);
    let merged = m.as_frame();
    assert(merged.start + merged.count * FRAME_SIZE == m.end);
    assert forall|a: int| covers(new, a) <==> covers(old, a) || frame.holds(a) by {
        if covers(new, a) {
            let i = choose|i: int| 0 <= i < new.len() && slot_holds(#[trigger] new[i], a);
            if i == j {
                assert(m.holds(a));
            } else {
                assert(new[i] == cur[i]);
                assert(old[i] is Some);
                assert(slot_holds(old[i], a));
            }
        }
        if frame.holds(a) {
            assert(m.holds(a));
            assert(slot_holds(new[j], a));
        }
        if covers(old, a) {
            let i = choose|i: int| 0 <= i < old.len() && slot_holds(#[trigger] old[i], a);
            if cur[i] == old[i] {
                assert(i != j);
                assert(slot_holds(new[i], a));
            } else {
                assert(m.holds(a));
                assert(slot_holds(new[j], a));
            }
        }
    }
    assert(free_bytes(new) =~= free_bytes(old).union(Set::new(|a: int| frame.holds(a))));
}

/// Inserting a run into runs that share no byte leaves runs that share no
/// byte.
pub proof fn lemma_inserted_disjoint(
    old: Seq<Option<PhysFrame>>,
    frame: PhysFrame,
    new: Seq<Option<PhysFrame>>,
)
    requires
        frame.valid(),
        runs_valid(old),
        runs_disjoint(old),
        inserted(old, frame, new),
    ensures
        runs_disjoint(new),
        runs_valid(new),
{
    let span = run_span(frame);
    let (cur, m) = choose|cur: Seq<Option<PhysFrame>>, m: FrameSpan|
        #![trigger coalesced(old, span, cur, m)]
        {
            &&& coalesced(old, span, cur, m)
            &&& first_none(cur) < cur.len()
            &&& new == cur.update(first_none(cur), Some(m.as_frame()))
        };
    lemma_first_none_exists(cur);
    let k = first_none(cur);
    let merged = m.as_frame();
    assert(merged.start + merged.count * FRAME_SIZE == m.end);
    assert forall|i: int, j: int|
        0 <= i < new.len() && 0 <= j < new.len() && i != j implies match (
            #[trigger] new[i],
            #[trigger] new[j],
        ) {
            (Some(p), Some(q)) => p.end() <= q.start || q.end() <= p.start,
            _ => true,
        } by {
        if new[i] is Some && new[j] is Some {
            if i != k {
                assert(cur[i] == new[i]);
                assert(old[i] is Some);
            }
            if j != k {
                assert(cur[j] == new[j]);
                assert(old[j] is Some);
            }
        }
    }
    assert forall|i: int| 0 <= i < new.len() implies match #[trigger] new[i] {
        Some(r) => r.valid(),
        None => true,
    } by {
        if i != k && new[i] is Some {
            assert(cur[i] == new[i]);
            assert(old[i] is Some);
        }
    }
}

/// The reserved regions of the allocator.
pub struct ReservedList {
    entries: Vec<Option<ReservedRegion>>,
    len: usize,
}

/// Walks the occupied slots of a reserved list in slot order.
pub struct ReservedRegionIter<'a> {
    entries: &'a [Option<ReservedRegion>],
    index: usize,
}

impl<'a> ReservedRegionIter<'a> {
    /// The regions still to come.
    pub closed spec fn view(&self) -> Seq<ReservedRegion> {
        populated(self.entries@.skip(self.index as int))
    }

    pub closed spec fn wf(&self) -> bool {
        self.index <= self.entries@.len()
    }

    /// The next region, or `None` past the last occupied slot.
    pub fn next(&mut self) -> (r: Option<ReservedRegion>)
        requires
            old(self).wf(),
        ensures
            final(self).wf(),
            old(self)@.len() == 0 ==> r is None && final(self)@.len() == 0,
            old(self)@.len() > 0 ==> r == Some(old(self)@[0]) && final(self)@ == old(self)@.skip(1),
    {
        let n: usize = self.entries.len();
        while self.index < n
            invariant
                n == self.entries@.len(),
                self.index <= n,
                self.entries == old(self).entries,
                self@ == old(self)@,
            decreases n - self.index,
        {
            let item: Option<ReservedRegion> = self.entries[self.index];
            proof {
                lemma_populated_first(self.entries@.skip(self.index as int));
                assert(self.entries@.skip(self.index as int).skip(1) =~= self.entries@.skip(
                    self.index as int + 1,
                ));
            }
            self.index = self.index + 1;
            if let Some(region) = item {
                return Some(region);
            }
        }
        proof {
            assert(self.entries@.skip(self.index as int) =~= Seq::<
                Option<ReservedRegion>,
            >::empty());
        }
        None
    }
}

impl ReservedList {
    /// The slots, in storage order.
    pub closed spec fn view(&self) -> Seq<Option<ReservedRegion>> {
        self.entries@
    }

    /// The count of occupied slots that the list keeps.
    pub closed spec fn spec_len(&self) -> nat {
        self.len as nat
    }

    /// The kept count is right and every region has `start < end`.
    pub open spec fn wf(&self) -> bool {
        &&& self.spec_len() == occupied(self@)
        &&& forall|i: int|
            0 <= i < self@.len() ==> match #[trigger] self@[i] {
                Some(region) => region.start < region.end,
                None => true,
            }
    }

    /// A list over `storage` with every slot emptied.
    pub fn new(storage: Vec<Option<ReservedRegion>>) -> (r: Self)
        ensures
            r.wf(),
            r@.len() == storage@.len(),
            forall|i: int| 0 <= i < r@.len() ==> #[trigger] r@[i] is None,
            r.spec_len() == 0,
    {
        let mut entries = storage;
        let n: usize = entries.len();
        let mut i: usize = 0;
        while i < n
            invariant
                i <= n,
                entries@.len() == n,
                forall|j: int| 0 <= j < i ==> #[trigger] entries@[j] is None,
            decreases n - i,
        {
            entries.set(i, None);
            i = i + 1;
        }
        proof {
            lemma_occupied_empty(entries@);
        }
        ReservedList { entries, len: 0 }
    }

    /// Number of slots.
    pub fn capacity(&self) -> (r: usize)
        ensures
            r == self@.len(),
    {
        self.entries.len()
    }

    /// Number of regions.
    pub fn len(&self) -> (r: usize)
        ensures
            r == self.spec_len(),
    {
        self.len
    }

    /// The slots as they are stored.
    pub fn as_slice(&self) -> (r: &[Option<ReservedRegion>])
        ensures
            r@ == self@,
    {
        self.entries.as_slice()
    }

    /// A walk over the regions in slot order.
    pub fn iter(&self) -> (r: ReservedRegionIter<'_>)
        ensures
            r.wf(),
            r@ == populated(self@),
    {
        let r = ReservedRegionIter { entries: self.entries.as_slice(), index: 0 };
        proof {
            assert(self.entries@.skip(0) =~= self.entries@);
        }
        r
    }

    /// Records `region` in the first empty slot. A region with
    /// `start >= end` is refused, and so is any region once no slot is empty.
    pub fn push(&mut self, region: ReservedRegion) -> (r: Result<(), PhysAllocError>)
        requires
            old(self).wf(),
        ensures
            final(self).wf(),
            final(self)@.len() == old(self)@.len(),
            region.start >= region.end ==> r == Err::<(), _>(
                PhysAllocError::InvalidRegion { start: region.start, end: region.end },
            ) && final(self)@ == old(self)@,
            region.start < region.end && first_none(old(self)@) < old(self)@.len() ==> r is Ok
                && final(self)@ == old(self)@.update(first_none(old(self)@), Some(region)),
            region.start < region.end && first_none(old(self)@) >= old(self)@.len() ==> r == Err::<
                (),
                _,
            >(PhysAllocError::StorageExhausted { capacity: old(self)@.len() as usize })
                && final(self)@ == old(self)@,
    {
        if region.start >= region.end {
            return Err(PhysAllocError::InvalidRegion { start: region.start, end: region.end });
        }
        let n: usize = self.entries.len();
        let mut idx: usize = 0;
        while idx < n
            invariant
                idx <= n,
                n == self.entries@.len(),
                *self == *old(self),
                self.wf(),
                region.start < region.end,
                forall|j: int| 0 <= j < idx ==> #[trigger] self.entries@[j] is Some,
            decreases n - idx,
        {
            if self.entries[idx].is_none() {
                proof {
                    lemma_first_none(self.entries@, idx as int);
                    lemma_occupied_update(self.entries@, idx as int, Some(region));
                    lemma_occupied_bound(self.entries@.update(idx as int, Some(region)));
                }
                self.entries.set(idx, Some(region));
                self.len = self.len + 1;
                return Ok(());
            }
            idx = idx + 1;
        }
        proof {
            lemma_first_none(self.entries@, n as int);
        }
        Err(PhysAllocError::StorageExhausted { capacity: self.capacity() })
    }
}

} // verus!
