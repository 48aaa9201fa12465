//! What insertion into and removal from the free runs come to in the plain
//! cases: runs that lie apart stay apart, runs that adjoin become one, and a
//! hole cut into a run leaves the two runs beside it.

use vstd::prelude::*;
use crate::memory::allocator::{FrameSpan, PhysFrame};
use crate::memory::free_list::{
    coalesced, covers, first_none, free_bytes, has_run, inserted, is_first_none, left_piece,
    lemma_first_none, lemma_first_none_exists, lemma_occupied_empty, lemma_populated_first,
    populated, right_piece, run_overlaps, run_span, runs_disjoint, runs_valid, slot_holds,
    subtracted,
};
use crate::memory::map::FRAME_SIZE;

verus! {

/// Whether the run lies inside the span.
pub open spec fn run_inside(r: PhysFrame, m: FrameSpan) -> bool {
    m.start <= r.start && r.end() <= m.end
}

/// The slots of `old` without the runs that lie inside `m`.
pub open spec fn without_inside(old: Seq<Option<PhysFrame>>, m: FrameSpan) -> Seq<
    Option<PhysFrame>,
> {
    Seq::new(
        old.len(),
        |i: int|
            match old[i] {
                Some(r) => if run_inside(r, m) {
                    None
                } else {
                    old[i]
                },
                None => None,
            },
    )
}

/// The span `m` closes `span` over the runs of `old`: it holds `span`, each
/// run lies inside it or shares neither byte nor boundary with it, and each
/// of its bytes comes from `span` or from a run inside it.
pub open spec fn closes_over(old: Seq<Option<PhysFrame>>, span: FrameSpan, m: FrameSpan) -> bool {
    &&& m.valid()
    &&& m.start <= span.start
    &&& span.end <= m.end
    &&& forall|i: int|
        0 <= i < old.len() ==> match #[trigger] old[i] {
            Some(r) => run_inside(r, m) || !m.spec_touches(run_span(r)),
            None => true,
        }
    &&& forall|a: int| m.holds(a) ==> span.holds(a) || #[trigger] inside_covers(old, m, a)
}

/// Whether a run of `old` that lies inside `m` covers byte `a`.
pub open spec fn inside_covers(old: Seq<Option<PhysFrame>>, m: FrameSpan, a: int) -> bool {
    exists|i: int|
        0 <= i < old.len() && match #[trigger] old[i] {
            Some(r) => run_inside(r, m) && r.holds(a),
            None => false,
        }
}

/// Insertion has one result. Whatever span closes the inserted run over the
/// runs of the list is the span that insertion merges: the runs inside it
/// leave, and the run of that span takes the first slot that is then empty.
pub proof fn lemma_insert_result(
    old: Seq<Option<PhysFrame>>,
    frame: PhysFrame,
    new: Seq<Option<PhysFrame>>,
    m: FrameSpan,
)
    requires
        frame.valid(),
        runs_valid(old),
        inserted(old, frame, new),
        closes_over(old, run_span(frame), m),
    ensures
        new == without_inside(old, m).update(
            first_none(without_inside(old, m)),
            Some(m.as_frame()),
        ),
        first_none(without_inside(old, m)) < old.len(),
{
    let span = run_span(frame);
    let (cur, got) = choose|cur: Seq<Option<PhysFrame>>, got: FrameSpan|
        #![trigger coalesced(old, span, cur, got)]
        {
            &&& coalesced(old, span, cur, got)
            &&& first_none(cur) < cur.len()
            &&& new == cur.update(first_none(cur), Some(got.as_frame()))
        };
    // Neither span reaches further down than the other.
    if got.start < m.start {
        let x = m.start - 1;
        assert(got.holds(x));
        assert(covers(old, x));
        let i = choose|i: int| 0 <= i < old.len() && slot_holds(#[trigger] old[i], x);
        assert(old[i] is Some);
        assert(false);
    }
    if m.start < got.start {
        let x = got.start - 1;
        assert(m.holds(x));
        assert(inside_covers(old, m, x));
        let i = choose|i: int|
            0 <= i < old.len() && match #[trigger] old[i] {
                Some(r) => run_inside(r, m) && r.holds(x),
                None => false,
            };
        assert(old[i] is Some);
        assert(false);
    }
    // Nor further up.
    if got.end > m.end {
        let x = m.end as int;
        assert(got.holds(x));
        assert(covers(old, x));
        let i = choose|i: int| 0 <= i < old.len() && slot_holds(#[trigger] old[i], x);
        assert(old[i] is Some);
        assert(false);
    }
    if m.end > got.end {
        let x = got.end as int;
        assert(m.holds(x));
        assert(inside_covers(old, m, x));
        let i = choose|i: int|
            0 <= i < old.len() && match #[trigger] old[i] {
                Some(r) => run_inside(r, m) && r.holds(x),
                None => false,
            };
        assert(old[i] is Some);
        assert(false);
    }
    assert(got == m);
    assert forall|i: int| 0 <= i < old.len() implies cur[i] == without_inside(old, m)[i] by {
        if let Some(r) = old[i] {
            assert(r.valid());
        }
    }
    assert(cur =~= without_inside(old, m));
}

/// A list of `n` empty slots.
pub open spec fn empty_slots(n: nat) -> Seq<Option<PhysFrame>> {
    Seq::new(n, |i: int| None::<PhysFrame>)
}

/// The run that covers two adjoining runs.
pub open spec fn joined(a: PhysFrame, b: PhysFrame) -> PhysFrame {
    PhysFrame { start: a.start, count: (a.count + b.count) as u64 }
}

/// The runs of a list whose first slot is the only occupied one.
proof fn lemma_populated_single(s: Seq<Option<PhysFrame>>, x: PhysFrame)
    requires
        s.len() >= 1,
        s[0] == Some(x),
        forall|i: int| 1 <= i < s.len() ==> #[trigger] s[i] is None,
    ensures
        populated(s) == seq![x],
{
    lemma_populated_first(s);
    let rest = s.skip(1);
    assert forall|i: int| 0 <= i < rest.len() implies #[trigger] rest[i] is None by {
        assert(rest[i] == s[i + 1]);
    }
    lemma_occupied_empty(rest);
    assert(seq![x] + Seq::<PhysFrame>::empty() =~= seq![x]);
}

/// Inserting a run into a list that holds no run puts it in the first slot.
pub proof fn lemma_insert_first(n: nat, a: PhysFrame, new: Seq<Option<PhysFrame>>)
    requires
        n >= 1,
        a.valid(),
        inserted(empty_slots(n), a, new),
    ensures
        new == empty_slots(n).update(0, Some(a)),
{
    let old = empty_slots(n);
    let span = run_span(a);
    assert(closes_over(old, span, span));
    lemma_insert_result(old, a, new, span);
    assert(without_inside(old, span) =~= old);
    assert(is_first_none(old, 0));
    lemma_first_none(old, 0);
    assert(span.as_frame() == a);
}

/// Two adjoining runs, inserted into a list that holds no run, in either
/// order, leave exactly one run: the one that covers both.
pub proof fn lemma_adjacent_runs_become_one(
    n: nat,
    a: PhysFrame,
    b: PhysFrame,
    first: Seq<Option<PhysFrame>>,
    second: Seq<Option<PhysFrame>>,
)
    requires
        n >= 1,
        a.valid(),
        b.valid(),
        a.end() == b.start,
        (inserted(empty_slots(n), a, first) && inserted(first, b, second)) || (inserted(
            empty_slots(n),
            b,
            first,
        ) && inserted(first, a, second)),
    ensures
        populated(second) == seq![joined(a, b)],
        second == empty_slots(n).update(0, Some(joined(a, b))),
{
    let e = empty_slots(n);
    let m = FrameSpan { start: a.start, end: b.end() as u64 };
    assert(m.as_frame() == joined(a, b)) by {
        assert(m.end - m.start == (a.count + b.count) * FRAME_SIZE);
    }
    let a_first = inserted(e, a, first) && inserted(first, b, second);
    let (x, y) = if a_first {
        (a, b)
    } else {
        (b, a)
    };
    lemma_insert_first(n, x, first);
    assert(first[0] == Some(x));
    assert forall|a0: int| m.holds(a0) implies run_span(y).holds(a0) || #[trigger] inside_covers(
        first,
        m,
        a0,
    ) by {
        if !run_span(y).holds(a0) {
            assert(x.holds(a0));
            assert(first[0] == Some(x));
        }
    }
    assert(closes_over(first, run_span(y), m));
    lemma_insert_result(first, y, second, m);
    assert(without_inside(first, m) =~= e);
    assert(is_first_none(e, 0));
    lemma_first_none(e, 0);
    lemma_populated_single(second, joined(a, b));
}

/// Three runs of which no two share a byte or a boundary, inserted into a
/// list that holds no run, stay three runs of their own sizes.
pub proof fn lemma_apart_runs_stay_apart(
    n: nat,
    a: PhysFrame,
    b: PhysFrame,
    c: PhysFrame,
    first: Seq<Option<PhysFrame>>,
    second: Seq<Option<PhysFrame>>,
    third: Seq<Option<PhysFrame>>,
)
    requires
        n >= 3,
        a.valid(),
        b.valid(),
        c.valid(),
        !run_span(a).spec_touches(run_span(b)),
        !run_span(a).spec_touches(run_span(c)),
        !run_span(b).spec_touches(run_span(c)),
        inserted(empty_slots(n), a, first),
        inserted(first, b, second),
        inserted(second, c, third),
    ensures
        populated(third) == seq![a, b, c],
{
    let e = empty_slots(n);
    lemma_insert_first(n, a, first);
    assert(closes_over(first, run_span(b), run_span(b)));
    lemma_insert_result(first, b, second, run_span(b));
    assert(without_inside(first, run_span(b)) =~= first);
    assert(is_first_none(first, 1));
    lemma_first_none(first, 1);
    assert(run_span(b).as_frame() == b);
    assert(second[0] == Some(a) && second[1] == Some(b));
    assert(closes_over(second, run_span(c), run_span(c)));
    lemma_insert_result(second, c, third, run_span(c));
    assert(without_inside(second, run_span(c)) =~= second);
    assert(is_first_none(second, 2));
    lemma_first_none(second, 2);
    assert(run_span(c).as_frame() == c);
    lemma_populated_first(third);
    let t1 = third.skip(1);
    assert(t1[0] == third[1]);
    lemma_populated_first(t1);
    let t2 = t1.skip(1);
    assert(t2[0] == third[2]);
    lemma_populated_first(t2);
    let t3 = t2.skip(1);
    assert forall|i: int| 0 <= i < t3.len() implies #[trigger] t3[i] is None by {
        assert(t3[i] == third[i + 3]);
    }
    lemma_occupied_empty(t3);
    assert(populated(t2) =~= seq![c]);
    assert(populated(t1) =~= seq![b, c]);
    assert(populated(third) =~= seq![a, b, c]);
}

/// Giving back a run that adjoins a free run on either side merges all
/// three into one.
pub proof fn lemma_bridge_merges_three(
    old: Seq<Option<PhysFrame>>,
    i: int,
    j: int,
    a: PhysFrame,
    b: PhysFrame,
    c: PhysFrame,
    new: Seq<Option<PhysFrame>>,
)
    requires
        0 <= i < old.len(),
        0 <= j < old.len(),
        i != j,
        old[i] == Some(a),
        old[j] == Some(c),
        forall|k: int| 0 <= k < old.len() && k != i && k != j ==> #[trigger] old[k] is None,
        a.valid(),
        b.valid(),
        c.valid(),
        a.end() == b.start,
        b.end() == c.start,
        inserted(old, b, new),
    ensures
        populated(new) == seq![joined(joined(a, b), c)],
{
    let m = FrameSpan { start: a.start, end: c.end() as u64 };
    assert(m.as_frame() == joined(joined(a, b), c)) by {
        assert(m.end - m.start == (a.count + b.count + c.count) * FRAME_SIZE);
    }
    assert forall|a0: int| m.holds(a0) implies run_span(b).holds(a0) || #[trigger] inside_covers(
        old,
        m,
        a0,
    ) by {
        if a0 < b.start {
            assert(old[i] == Some(a));
        } else if a0 >= b.end() {
            assert(old[j] == Some(c));
        }
    }
    assert(closes_over(old, run_span(b), m));
    lemma_insert_result(old, b, new, m);
    let e = empty_slots(old.len());
    assert(without_inside(old, m) =~= e);
    assert(is_first_none(e, 0));
    lemma_first_none(e, 0);
    lemma_populated_single(new, joined(joined(a, b), c));
}

/// Cutting an interval out of the inside of the only free run leaves exactly
/// two runs, the one below the interval and the one above it, and together
/// they cover what the run covered outside the interval.
pub proof fn lemma_hole_leaves_two_runs(
    old: Seq<Option<PhysFrame>>,
    i: int,
    q: PhysFrame,
    removal: FrameSpan,
    new: Seq<Option<PhysFrame>>,
    ok: bool,
)
    requires
        old.len() >= 2,
        0 <= i < old.len(),
        old[i] == Some(q),
        forall|k: int| 0 <= k < old.len() && k != i ==> #[trigger] old[k] is None,
        q.valid(),
        removal.valid(),
        q.start < removal.start,
        removal.end < q.end(),
        subtracted(old, removal, new, ok),
    ensures
        ok,
        exists|jl: int, jr: int|
            {
                &&& 0 <= jl < new.len()
                &&& 0 <= jr < new.len()
                &&& jl != jr
                &&& #[trigger] new[jl] == left_piece(q, removal)
                &&& #[trigger] new[jr] == right_piece(q, removal)
                &&& forall|k: int|
                    0 <= k < new.len() && k != jl && k != jr ==> #[trigger] new[k] is None
            },
        left_piece(q, removal) is Some,
        right_piece(q, removal) is Some,
        forall|a: int|
            left_piece(q, removal)->Some_0.holds(a) || right_piece(q, removal)->Some_0.holds(a)
                <==> q.holds(a) && !removal.holds(a),
        free_bytes(new) == free_bytes(old).difference(Set::new(|a: int| removal.holds(a))),
{
    reveal(subtracted);
    let left = left_piece(q, removal)->Some_0;
    let right = right_piece(q, removal)->Some_0;
    assert(left.start + left.count * FRAME_SIZE == removal.start);
    assert(right.start + right.count * FRAME_SIZE == q.end());
    assert(runs_disjoint(old));
    lemma_first_none_exists(old);
    if first_none(old) >= old.len() {
        let other = if i == 0 {
            1int
        } else {
            0int
        };
        assert(old[other] is None);
        assert(old[other] is Some);
    }
    assert(ok);
    assert(run_overlaps(q, removal));
    assert(has_run(new, left));
    assert(has_run(new, right));
    let jl = choose|j: int| 0 <= j < new.len() && #[trigger] new[j] == Some(left);
    let jr = choose|j: int| 0 <= j < new.len() && #[trigger] new[j] == Some(right);
    assert forall|k: int| 0 <= k < new.len() && k != jl && k != jr implies #[trigger] new[k]
        is None by {
        if let Some(p) = new[k] {
            if new[k] == old[k] {
                assert(old[k] is Some);
                assert(k == i);
            } else {
                let w = choose|w: int|
                    0 <= w < old.len() && match #[trigger] old[w] {
                        Some(src) => run_overlaps(src, removal) && (left_piece(src, removal)
                            == Some(p) || right_piece(src, removal) == Some(p)),
                        None => false,
                    };
                assert(old[w] is Some);
                assert(w == i);
                assert(new[jl] is Some && new[jr] is Some);
            }
        }
    }
}

} // verus!
