//! Laws of the box-merge engine.
//!
//! The engine's contract says which multisets of boxes it may produce
//! (`reach`) and that it stops only when nothing touches. This module turns
//! that into the guarantees a caller cares about: merging again changes
//! nothing, no geometry is ever discarded, and the final set of boxes does
//! not depend on the order in which the input was listed.

use vstd::prelude::*;

use crate::geometry::AABox;
use crate::geometry::union_box;
use crate::merging::all_valid;
use crate::merging::all_valid_ms;
use crate::merging::covered;
use crate::merging::in_box;
use crate::merging::is_merge_result;
use crate::merging::no_touching_pair;
use crate::merging::normal_ms;
use crate::merging::reach;
use crate::merging::reach_n;
use crate::merging::step;
use crate::merging::step_with;
use crate::merging::touching_s;
use crate::merging::lemma_normal_seq_ms;
use vstd::multiset::Multiset;

verus! {

broadcast use {vstd::seq_lib::group_to_multiset_ensures, vstd::multiset::group_multiset_axioms};

/// An integer point lies inside some box of the multiset.
pub open spec fn covered_ms(x: int, y: int, z: int, s: Multiset<AABox>) -> bool {
    exists|b: AABox| s.count(b) > 0 && in_box(x, y, z, b)
}

/// Merging the working sequence changes coverage only through the working
/// multiset, so the two notions agree.
proof fn lemma_covered_seq_ms(x: int, y: int, z: int, s: Seq<AABox>)
    ensures
        covered(x, y, z, s) <==> covered_ms(x, y, z, s.to_multiset()),
{
    s.to_multiset_ensures();
    if covered(x, y, z, s) {
        let i = choose|i: int| 0 <= i < s.len() && in_box(x, y, z, s[i]);
        assert(s.contains(s[i]));
        assert(s.to_multiset().count(s[i]) > 0 && in_box(x, y, z, s[i]));
    }
    if covered_ms(x, y, z, s.to_multiset()) {
        let b = choose|b: AABox| s.to_multiset().count(b) > 0 && in_box(x, y, z, b);
        assert(s.contains(b));
        let i = choose|i: int| 0 <= i < s.len() && s[i] == b;
        assert(in_box(x, y, z, s[i]));
    }
}

/// One merge never uncovers a point: the union of two boxes contains both.
proof fn lemma_step_covered(s: Multiset<AABox>, t: Multiset<AABox>, x: int, y: int, z: int)
    requires
        step(s, t),
        covered_ms(x, y, z, s),
    ensures
        covered_ms(x, y, z, t),
{
    let (a, b) = choose|a: AABox, b: AABox| step_with(s, t, a, b);
    let m = union_box(a, b);
    let w = choose|w: AABox| s.count(w) > 0 && in_box(x, y, z, w);
    if w == a || w == b {
        assert(in_box(x, y, z, m));
        assert(t.count(m) > 0);
    } else {
        assert(t.count(w) > 0);
    }
}

/// A whole chain of merges never uncovers a point.
proof fn lemma_reach_n_covered(
    s: Multiset<AABox>,
    t: Multiset<AABox>,
    n: nat,
    x: int,
    y: int,
    z: int,
)
    requires
        reach_n(s, t, n),
        covered_ms(x, y, z, s),
    ensures
        covered_ms(x, y, z, t),
    decreases n,
{
    if n != 0 {
        let u = choose|u: Multiset<AABox>| step(s, u) && reach_n(u, t, (n - 1) as nat);
        lemma_step_covered(s, u, x, y, z);
        lemma_reach_n_covered(u, t, (n - 1) as nat, x, y, z);
    }
}

/// A chain of merges keeps every box well-formed.
proof fn lemma_reach_n_valid(s: Multiset<AABox>, t: Multiset<AABox>, n: nat)
    requires
        all_valid_ms(s),
        reach_n(s, t, n),
    ensures
        all_valid_ms(t),
    decreases n,
{
    if n != 0 {
        let u = choose|u: Multiset<AABox>| step(s, u) && reach_n(u, t, (n - 1) as nat);
        lemma_step_valid(s, u);
        lemma_reach_n_valid(u, t, (n - 1) as nat);
    }
}

/// Merging keeps every box well-formed: when each input box has min at
/// or below max on every axis, so has each output box.
pub proof fn lemma_merge_keeps_valid(xs: Seq<AABox>, ys: Seq<AABox>)
    requires
        all_valid(xs),
        is_merge_result(xs, ys),
    ensures
        all_valid(ys),
{
    xs.to_multiset_ensures();
    assert(all_valid_ms(xs.to_multiset())) by {
        assert forall|w: AABox| xs.to_multiset().count(w) > 0 implies w.valid() by {
            assert(xs.contains(w));
            let i = choose|i: int| 0 <= i < xs.len() && xs[i] == w;
            assert(xs[i].valid());
        }
    }
    let n = choose|n: nat| reach_n(xs.to_multiset(), ys.to_multiset(), n);
    lemma_reach_n_valid(xs.to_multiset(), ys.to_multiset(), n);
    ys.to_multiset_ensures();
    assert forall|i: int| 0 <= i < ys.len() implies (#[trigger] ys[i]).valid() by {
        assert(ys.contains(ys[i]));
        assert(ys.to_multiset().count(ys[i]) > 0);
    }
}

/// One box encloses another on every axis.
pub open spec fn box_covers(outer: AABox, inner: AABox) -> bool {
    &&& outer.0 <= inner.0
    &&& outer.1 <= inner.1
    &&& outer.2 <= inner.2
    &&& inner.3 <= outer.3
    &&& inner.4 <= outer.4
    &&& inner.5 <= outer.5
}

/// After one merge, every box of the result encloses some original box.
proof fn lemma_step_anchored(s: Multiset<AABox>, t: Multiset<AABox>)
    requires
        step(s, t),
    ensures
        forall|x: AABox| #[trigger]
            t.count(x) > 0 ==> exists|y: AABox| s.count(y) > 0 && box_covers(x, y),
{
    let (a, b) = choose|a: AABox, b: AABox| step_with(s, t, a, b);
    assert forall|x: AABox| #[trigger] t.count(x) > 0 implies exists|y: AABox|
        s.count(y) > 0 && box_covers(x, y) by {
        if x == union_box(a, b) {
            assert(s.count(a) > 0 && box_covers(x, a));
        } else {
            assert(s.count(x) > 0 && box_covers(x, x));
        }
    }
}

/// After any chain of merges, every box of the result encloses some
/// original box.
proof fn lemma_reach_n_anchored(s: Multiset<AABox>, t: Multiset<AABox>, n: nat)
    requires
        reach_n(s, t, n),
    ensures
        forall|x: AABox| #[trigger]
            t.count(x) > 0 ==> exists|y: AABox| s.count(y) > 0 && box_covers(x, y),
    decreases n,
{
    if n == 0 {
        assert forall|x: AABox| #[trigger] t.count(x) > 0 implies exists|y: AABox|
            s.count(y) > 0 && box_covers(x, y) by {
            assert(s.count(x) > 0 && box_covers(x, x));
        }
    } else {
        let u = choose|u: Multiset<AABox>| step(s, u) && reach_n(u, t, (n - 1) as nat);
        lemma_step_anchored(s, u);
        lemma_reach_n_anchored(u, t, (n - 1) as nat);
        assert forall|x: AABox| #[trigger] t.count(x) > 0 implies exists|y: AABox|
            s.count(y) > 0 && box_covers(x, y) by {
            let m = choose|m: AABox| u.count(m) > 0 && box_covers(x, m);
            let y = choose|y: AABox| s.count(y) > 0 && box_covers(m, y);
            assert(s.count(y) > 0 && box_covers(x, y));
        }
    }
}

/// No arbitrary shrinkage: every output box of a merge wholly encloses at
/// least one input box, and merging a non-empty input never empties it.
pub proof fn lemma_merge_no_shrinkage(xs: Seq<AABox>, ys: Seq<AABox>)
    requires
        is_merge_result(xs, ys),
    ensures
        forall|i: int|
            0 <= i < ys.len() ==> exists|j: int|
                0 <= j < xs.len() && box_covers(#[trigger] ys[i], #[trigger] xs[j]),
        xs.len() > 0 ==> ys.len() > 0,
{
    xs.to_multiset_ensures();
    ys.to_multiset_ensures();
    let n = choose|n: nat| reach_n(xs.to_multiset(), ys.to_multiset(), n);
    lemma_reach_n_anchored(xs.to_multiset(), ys.to_multiset(), n);
    assert forall|i: int| 0 <= i < ys.len() implies exists|j: int|
        0 <= j < xs.len() && box_covers(#[trigger] ys[i], #[trigger] xs[j]) by {
        assert(ys.contains(ys[i]));
        assert(ys.to_multiset().count(ys[i]) > 0);
        let y = choose|y: AABox| xs.to_multiset().count(y) > 0 && box_covers(ys[i], y);
        assert(xs.contains(y));
        let j = choose|j: int| 0 <= j < xs.len() && xs[j] == y;
        assert(box_covers(ys[i], xs[j]));
    }
    if xs.len() > 0 {
        lemma_reach_n_nonempty(xs.to_multiset(), ys.to_multiset(), n);
    }
}

/// A chain of merges never empties a non-empty multiset.
proof fn lemma_reach_n_nonempty(s: Multiset<AABox>, t: Multiset<AABox>, n: nat)
    requires
        reach_n(s, t, n),
        s.len() > 0,
    ensures
        t.len() > 0,
    decreases n,
{
    if n != 0 {
        let u = choose|u: Multiset<AABox>| step(s, u) && reach_n(u, t, (n - 1) as nat);
        let (a, b) = choose|a: AABox, b: AABox| step_with(s, u, a, b);
        lemma_step_len(s, u, a, b);
        lemma_reach_n_nonempty(u, t, (n - 1) as nat);
    }
}

/// Widening one of two touching boxes keeps them touching.
proof fn lemma_touching_union(a: AABox, b: AABox, e: AABox)
    requires
        a.valid(),
        e.valid(),
        touching_s(a, e),
    ensures
        touching_s(union_box(a, b), e),
{
}

/// One merge shrinks the multiset by exactly one box.
proof fn lemma_step_len(s: Multiset<AABox>, t: Multiset<AABox>, a: AABox, b: AABox)
    requires
        step_with(s, t, a, b),
    ensures
        t.len() + 1 == s.len(),
        s.len() >= 2,
{
    let s1 = s.remove(a);
    let s2 = s1.remove(b);
    assert(s1.insert(a) =~= s);
    assert(s2.insert(b) =~= s1);
    vstd::multiset::lemma_insert_len(s1, a);
    vstd::multiset::lemma_insert_len(s2, b);
    vstd::multiset::lemma_insert_len(s2, union_box(a, b));
}

/// One merge keeps every box of the multiset well-formed.
proof fn lemma_step_valid(s: Multiset<AABox>, t: Multiset<AABox>)
    requires
        all_valid_ms(s),
        step(s, t),
    ensures
        all_valid_ms(t),
{
    let (a, b) = choose|a: AABox, b: AABox| step_with(s, t, a, b);
    assert forall|w: AABox| t.count(w) > 0 implies w.valid() by {
        if w == union_box(a, b) {
            assert(s.count(a) > 0 && s.count(b) > 0);
        } else {
            assert(s.count(w) > 0);
        }
    }
}

/// A multiset with a touching pair still admits a merge.
proof fn lemma_step_possible(s: Multiset<AABox>)
    requires
        !normal_ms(s),
    ensures
        exists|t: Multiset<AABox>| step(s, t),
{
    let (a, b) = choose|a: AABox, b: AABox|
        s.count(a) > 0 && s.remove(a).count(b) > 0 && touching_s(a, b);
    let t = s.remove(a).remove(b).insert(union_box(a, b));
    assert(step_with(s, t, a, b));
    assert(step(s, t));
}

/// From a multiset with no touching pair, no chain of merges goes anywhere.
proof fn lemma_reach_normal_eq(s: Multiset<AABox>, t: Multiset<AABox>, n: nat)
    requires
        normal_ms(s),
        reach_n(s, t, n),
    ensures
        t == s,
    decreases n,
{
    if n != 0 {
        let u = choose|u: Multiset<AABox>| step(s, u) && reach_n(u, t, (n - 1) as nat);
        let (a, b) = choose|a: AABox, b: AABox| step_with(s, u, a, b);
        assert(false);
    }
}

/// Local confluence: when two different merges both apply to a multiset,
/// their results are equal or can be brought back together by one further
/// merge on each side.
#[verifier::rlimit(60)]
proof fn lemma_join(
    s: Multiset<AABox>,
    t1: Multiset<AABox>,
    t2: Multiset<AABox>,
    a: AABox,
    b: AABox,
    c: AABox,
    d: AABox,
)
    requires
        all_valid_ms(s),
        step_with(s, t1, a, b),
        step_with(s, t2, c, d),
    ensures
        t1 == t2 || exists|u: Multiset<AABox>|
            step(t1, u) && step(t2, u),
{
    let m1 = union_box(a, b);
    let m2 = union_box(c, d);
    assert(s.count(b) > 0);
    assert(s.count(d) > 0);
    if (c == a && d == b) || (c == b && d == a) {
        assert(m2 == m1);
        assert(t1 =~= t2);
    } else if c == a || c == b || d == a || d == b {
        let x = if c == a || d == a {
            a
        } else {
            b
        };
        let e = if c == x {
            d
        } else {
            c
        };
        let f = if x == a {
            b
        } else {
            a
        };
        let m3 = union_box(m1, e);
        let u = s.remove(a).remove(b).remove(e).insert(m3);
        assert(t1.remove(m1) =~= s.remove(a).remove(b));
        assert(s.remove(a).remove(b).count(e) > 0);
        assert(touching_s(m1, e)) by {
            if x == a {
                lemma_touching_union(a, b, e);
            } else {
                lemma_touching_union(b, a, e);
                assert(union_box(b, a) == m1);
            }
        }
        assert(u =~= t1.remove(m1).remove(e).insert(m3));
        assert(step_with(t1, u, m1, e));
        assert(t2.remove(m2) =~= s.remove(c).remove(d));
        assert(s.remove(c).remove(d).count(f) > 0);
        assert(touching_s(m2, f)) by {
            if c == x {
                lemma_touching_union(x, e, f);
                assert(union_box(x, e) == m2);
            } else {
                lemma_touching_union(x, e, f);
                assert(union_box(x, e) == m2);
            }
        }
        assert(union_box(m2, f) == m3);
        assert(u =~= t2.remove(m2).remove(f).insert(union_box(m2, f)));
        assert(step_with(t2, u, m2, f));
        assert(step(t1, u) && step(t2, u));
    } else {
        let u = t1.remove(c).remove(d).insert(m2);
        assert(t1.count(c) > 0);
        assert(t1.remove(c).count(d) > 0);
        assert(step_with(t1, u, c, d));
        assert(t2.count(a) > 0);
        assert(t2.remove(a).count(b) > 0);
        assert(u =~= t2.remove(a).remove(b).insert(m1));
        assert(step_with(t2, t2.remove(a).remove(b).insert(m1), a, b));
        assert(step(t1, u) && step(t2, u));
    }
}

/// Every multiset of boxes can be merged down to one with no touching
/// pair: the engine's termination, stated abstractly.
proof fn lemma_nf_exists(s: Multiset<AABox>) -> (r: (Multiset<AABox>, nat))
    ensures
        reach_n(s, r.0, r.1),
        normal_ms(r.0),
    decreases s.len(),
{
    if normal_ms(s) {
        assert(reach_n(s, s, 0));
        (s, 0)
    } else {
        lemma_step_possible(s);
        let t = choose|t: Multiset<AABox>| step(s, t);
        let (a, b) = choose|a: AABox, b: AABox| step_with(s, t, a, b);
        lemma_step_len(s, t, a, b);
        let r2 = lemma_nf_exists(t);
        assert(step(s, t) && reach_n(t, r2.0, r2.1));
        assert(reach_n(s, r2.0, r2.1 + 1));
        (r2.0, (r2.1 + 1) as nat)
    }
}

/// Newman's diamond argument: from a multiset of well-formed boxes, all
/// maximal chains of merges end in the same multiset.
proof fn lemma_unique_nf(
    s: Multiset<AABox>,
    t1: Multiset<AABox>,
    n1: nat,
    t2: Multiset<AABox>,
    n2: nat,
)
    requires
        all_valid_ms(s),
        reach_n(s, t1, n1),
        normal_ms(t1),
        reach_n(s, t2, n2),
        normal_ms(t2),
    ensures
        t1 == t2,
    decreases s.len(),
{
    if normal_ms(s) {
        lemma_reach_normal_eq(s, t1, n1);
        lemma_reach_normal_eq(s, t2, n2);
    } else {
        assert(n1 != 0);
        assert(n2 != 0);
        let u1 = choose|u: Multiset<AABox>| step(s, u) && reach_n(u, t1, (n1 - 1) as nat);
        let u2 = choose|u: Multiset<AABox>| step(s, u) && reach_n(u, t2, (n2 - 1) as nat);
        let (a, b) = choose|a: AABox, b: AABox| step_with(s, u1, a, b);
        let (c, d) = choose|c: AABox, d: AABox| step_with(s, u2, c, d);
        lemma_step_len(s, u1, a, b);
        lemma_step_len(s, u2, c, d);
        lemma_step_valid(s, u1);
        lemma_step_valid(s, u2);
        lemma_join(s, u1, u2, a, b, c, d);
        if u1 == u2 {
            lemma_unique_nf(u1, t1, (n1 - 1) as nat, t2, (n2 - 1) as nat);
        } else {
            let v = choose|v: Multiset<AABox>| step(u1, v) && step(u2, v);
            let w = lemma_nf_exists(v);
            assert(step(u1, v) && reach_n(v, w.0, w.1));
            assert(reach_n(u1, w.0, w.1 + 1));
            assert(step(u2, v) && reach_n(v, w.0, w.1));
            assert(reach_n(u2, w.0, w.1 + 1));
            lemma_unique_nf(u1, t1, (n1 - 1) as nat, w.0, (w.1 + 1) as nat);
            lemma_unique_nf(u2, t2, (n2 - 1) as nat, w.0, (w.1 + 1) as nat);
        }
    }
}

/// Permutation invariance: however the same collection of well-formed
/// boxes is listed, the engine ends with the same collection of boxes.
pub proof fn lemma_merge_order_invariant(
    xs: Seq<AABox>,
    ys: Seq<AABox>,
    rx: Seq<AABox>,
    ry: Seq<AABox>,
)
    requires
        all_valid(xs),
        xs.to_multiset() == ys.to_multiset(),
        is_merge_result(xs, rx),
        is_merge_result(ys, ry),
    ensures
        rx.to_multiset() == ry.to_multiset(),
{
    xs.to_multiset_ensures();
    assert(all_valid_ms(xs.to_multiset())) by {
        assert forall|w: AABox| xs.to_multiset().count(w) > 0 implies w.valid() by {
            assert(xs.contains(w));
            let i = choose|i: int| 0 <= i < xs.len() && xs[i] == w;
            assert(xs[i].valid());
        }
    }
    lemma_normal_seq_ms(rx);
    lemma_normal_seq_ms(ry);
    let n1 = choose|n: nat| reach_n(xs.to_multiset(), rx.to_multiset(), n);
    let n2 = choose|n: nat| reach_n(ys.to_multiset(), ry.to_multiset(), n);
    lemma_unique_nf(xs.to_multiset(), rx.to_multiset(), n1, ry.to_multiset(), n2);
}

/// Merging again changes nothing: a merge result has no touching pair
/// left, and the engine returns such an input unchanged.
pub proof fn lemma_merge_idempotent(xs: Seq<AABox>, ys: Seq<AABox>, zs: Seq<AABox>)
    requires
        is_merge_result(xs, ys),
        is_merge_result(ys, zs),
    ensures
        zs == ys,
{
}

/// Merging never discards geometry: every point covered by the input boxes
/// is covered by the output boxes, so the union volume can only grow; and
/// when no two input boxes touch or overlap at all, the output is exactly
/// the input.
pub proof fn lemma_merge_never_discards(xs: Seq<AABox>, ys: Seq<AABox>)
    requires
        is_merge_result(xs, ys),
    ensures
        forall|x: int, y: int, z: int| covered(x, y, z, xs) ==> covered(x, y, z, ys),
        no_touching_pair(xs) ==> ys == xs,
{
    assert forall|x: int, y: int, z: int| covered(x, y, z, xs) implies covered(x, y, z, ys) by {
        let n = choose|n: nat| reach_n(xs.to_multiset(), ys.to_multiset(), n);
        lemma_covered_seq_ms(x, y, z, xs);
        lemma_reach_n_covered(xs.to_multiset(), ys.to_multiset(), n, x, y, z);
        lemma_covered_seq_ms(x, y, z, ys);
    }
}

} // verus!
