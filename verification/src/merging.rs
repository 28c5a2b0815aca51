//! The box-merge engine: repeatedly collapses a touching pair of boxes into
//! their componentwise union until no pair touches.
//!
//! The multiset relations `step` and `reach` record what the engine is
//! allowed to do: one merge of one touching pair, and any finite chain of
//! such merges. The laws module builds on them to show that the final set
//! of boxes does not depend on the order in which pairs are found.

use vstd::prelude::*;

use crate::geometry::AABox;
use crate::geometry::union_box;
use vstd::multiset::Multiset;

verus! {

broadcast use {vstd::seq_lib::group_to_multiset_ensures, vstd::multiset::group_multiset_axioms};

/// Closed-interval overlap on one axis: the two intervals share at least
/// one endpoint-bounded point; a shared boundary counts.
pub open spec fn axis_overlap_s(va0: u32, va1: u32, vb0: u32, vb1: u32) -> bool {
    (vb0 >= va0 && vb0 <= va1) || (vb1 >= va0 && vb1 <= va1) || (va0 >= vb0 && va0 <= vb1) || (va1
        >= vb0 && va1 <= vb1)
}

/// Two boxes touch when their intervals overlap on all three axes at once.
pub open spec fn touching_s(a: AABox, b: AABox) -> bool {
    axis_overlap_s(a.0, a.3, b.0, b.3) && axis_overlap_s(a.1, a.4, b.1, b.4) && axis_overlap_s(
        a.2,
        a.5,
        b.2,
        b.5,
    )
}

/// No two distinct boxes of the sequence touch.
pub open spec fn no_touching_pair(s: Seq<AABox>) -> bool {
    forall|i: int, j: int|
        0 <= i < s.len() && 0 <= j < s.len() && i != j ==> !touching_s(s[i], s[j])
}

/// Every box of the sequence has min at or below max on every axis.
pub open spec fn all_valid(s: Seq<AABox>) -> bool {
    forall|i: int| 0 <= i < s.len() ==> (#[trigger] s[i]).valid()
}

/// Every box of the multiset has min at or below max on every axis.
pub open spec fn all_valid_ms(s: Multiset<AABox>) -> bool {
    forall|b: AABox| s.count(b) > 0 ==> b.valid()
}

/// An integer point lies inside a box (boundaries included).
pub open spec fn in_box(x: int, y: int, z: int, b: AABox) -> bool {
    b.0 <= x <= b.3 && b.1 <= y <= b.4 && b.2 <= z <= b.5
}

/// An integer point lies inside some box of the sequence.
pub open spec fn covered(x: int, y: int, z: int, s: Seq<AABox>) -> bool {
    exists|i: int| 0 <= i < s.len() && in_box(x, y, z, s[i])
}

/// One merge of the engine, on boxes as a multiset: a touching pair leaves
/// the working set and its componentwise union enters it.
pub open spec fn step_with(s: Multiset<AABox>, t: Multiset<AABox>, a: AABox, b: AABox) -> bool {
    &&& s.count(a) > 0
    &&& s.remove(a).count(b) > 0
    &&& touching_s(a, b)
    &&& t == s.remove(a).remove(b).insert(union_box(a, b))
}

/// Some touching pair can be merged to turn `s` into `t`.
pub open spec fn step(s: Multiset<AABox>, t: Multiset<AABox>) -> bool {
    exists|a: AABox, b: AABox| step_with(s, t, a, b)
}

/// `t` arises from `s` by exactly `n` merges.
pub open spec fn reach_n(s: Multiset<AABox>, t: Multiset<AABox>, n: nat) -> bool
    decreases n,
{
    if n == 0 {
        s == t
    } else {
        exists|u: Multiset<AABox>| step(s, u) && reach_n(u, t, (n - 1) as nat)
    }
}

/// `t` arises from `s` by finitely many merges, possibly none.
pub open spec fn reach(s: Multiset<AABox>, t: Multiset<AABox>) -> bool {
    exists|n: nat| reach_n(s, t, n)
}

/// No merge applies: no pair of the multiset touches.
pub open spec fn normal_ms(s: Multiset<AABox>) -> bool {
    forall|a: AABox, b: AABox| s.count(a) > 0 && s.remove(a).count(b) > 0 ==> !touching_s(a, b)
}

/// What `merge_touching` promises: the output has no touching pair left,
/// an input without touching pairs comes back unchanged, and the output
/// multiset arises from the input multiset by merges of touching pairs.
pub open spec fn is_merge_result(input: Seq<AABox>, output: Seq<AABox>) -> bool {
    &&& no_touching_pair(output)
    &&& (no_touching_pair(input) ==> output == input)
    &&& reach(input.to_multiset(), output.to_multiset())
}

fn axis_overlap(va0: u32, va1: u32, vb0: u32, vb1: u32) -> (r: bool)
    ensures
        r == axis_overlap_s(va0, va1, vb0, vb1),
{
    vb0 >= va0 && vb0 <= va1 || vb1 >= va0 && vb1 <= va1 || va0 >= vb0 && va0 <= vb1 || va1 >= vb0
        && va1 <= vb1
}

fn touching(a: &AABox, b: &AABox) -> (r: bool)
    ensures
        r == touching_s(*a, *b),
{
    let x_overlap = axis_overlap(a.0, a.3, b.0, b.3);
    let y_overlap = axis_overlap(a.1, a.4, b.1, b.4);
    let z_overlap = axis_overlap(a.2, a.5, b.2, b.5);

    x_overlap && y_overlap && z_overlap
}

fn merge(a: AABox, b: AABox) -> (r: AABox)
    ensures
        r == union_box(a, b),
{
    let min_x = if a.0 <= b.0 {
        a.0
    } else {
        b.0
    };
    let min_y = if a.1 <= b.1 {
        a.1
    } else {
        b.1
    };
    let min_z = if a.2 <= b.2 {
        a.2
    } else {
        b.2
    };
    let max_x = if a.3 <= b.3 {
        b.3
    } else {
        a.3
    };
    let max_y = if a.4 <= b.4 {
        b.4
    } else {
        a.4
    };
    let max_z = if a.5 <= b.5 {
        b.5
    } else {
        a.5
    };
    AABox(min_x, min_y, min_z, max_x, max_y, max_z)
}

/// The first pair of distinct indices whose boxes touch, scanning the
/// outer index and then the inner one in ascending order.
fn find_touching_pair(work: &Vec<AABox>) -> (r: Option<(usize, usize)>)
    ensures
        match r {
            Some(p) => p.0 < work@.len() && p.1 < work@.len() && p.0 != p.1 && touching_s(
                work@[p.0 as int],
                work@[p.1 as int],
            ),
            None => no_touching_pair(work@),
        },
{
    let n = work.len();
    let mut i: usize = 0;
    while i < n
        invariant
            n == work@.len(),
            i <= n,
            forall|p: int, q: int|
                0 <= p < i && 0 <= q < n && p != q ==> !touching_s(work@[p], work@[q]),
        decreases n - i,
    {
        let mut j: usize = 0;
        while j < n
            invariant
                n == work@.len(),
                i < n,
                j <= n,
                forall|q: int| 0 <= q < j && q != i ==> !touching_s(work@[i as int], work@[q]),
            decreases n - j,
        {
            if i != j {
                if touching(&work[i], &work[j]) {
                    return Some((i, j));
                }
            }
            j = j + 1;
        }
        i = i + 1;
    }
    None
}

/// Two distinct indices of a sequence witness a pair of the multiset: the
/// second value is still present once the first has been taken out.
proof fn lemma_indices_to_ms_pair(s: Seq<AABox>, i: int, j: int)
    requires
        0 <= i < s.len(),
        0 <= j < s.len(),
        i != j,
    ensures
        s.to_multiset().count(s[i]) > 0,
        s.to_multiset().remove(s[i]).count(s[j]) > 0,
{
    s.to_multiset_ensures();
    assert(s.contains(s[i]));
    let t = s.remove(i);
    assert(t.to_multiset() == s.to_multiset().remove(s[i]));
    if j < i {
        assert(t[j] == s[j]);
        assert(t.contains(s[j]));
    } else {
        assert(t[j - 1] == s[j]);
        assert(t.contains(s[j]));
    }
    t.to_multiset_ensures();
}

/// A pair of the multiset is witnessed by two distinct indices.
proof fn lemma_ms_pair_to_indices(s: Seq<AABox>, a: AABox, b: AABox) -> (r: (int, int))
    requires
        s.to_multiset().count(a) > 0,
        s.to_multiset().remove(a).count(b) > 0,
    ensures
        0 <= r.0 < s.len(),
        0 <= r.1 < s.len(),
        r.0 != r.1,
        s[r.0] == a,
        s[r.1] == b,
{
    s.to_multiset_ensures();
    assert(s.contains(a));
    let i = choose|i: int| 0 <= i < s.len() && s[i] == a;
    let t = s.remove(i);
    assert(t.to_multiset() == s.to_multiset().remove(a));
    t.to_multiset_ensures();
    assert(t.contains(b));
    let j0 = choose|j: int| 0 <= j < t.len() && t[j] == b;
    s.remove_ensures(i);
    if j0 < i {
        assert(s[j0] == t[j0]);
        (i, j0)
    } else {
        assert(s[j0 + 1] == t[j0]);
        (i, j0 + 1)
    }
}

/// A sequence has no touching pair exactly when its multiset has none.
pub proof fn lemma_normal_seq_ms(s: Seq<AABox>)
    ensures
        no_touching_pair(s) <==> normal_ms(s.to_multiset()),
{
    if no_touching_pair(s) {
        assert forall|a: AABox, b: AABox|
            s.to_multiset().count(a) > 0 && s.to_multiset().remove(a).count(b)
                > 0 implies !touching_s(a, b) by {
            let (i, j) = lemma_ms_pair_to_indices(s, a, b);
        }
    }
    if normal_ms(s.to_multiset()) {
        assert forall|i: int, j: int|
            0 <= i < s.len() && 0 <= j < s.len() && i != j implies !touching_s(s[i], s[j]) by {
            lemma_indices_to_ms_pair(s, i, j);
        }
    }
}

/// A chain of merges grows on the right by one more merge.
proof fn lemma_reach_n_snoc(
    s: Multiset<AABox>,
    t: Multiset<AABox>,
    u: Multiset<AABox>,
    n: nat,
)
    requires
        reach_n(s, t, n),
        step(t, u),
    ensures
        reach_n(s, u, n + 1),
    decreases n,
{
    if n == 0 {
        assert(step(s, u) && reach_n(u, u, 0));
    } else {
        let v = choose|v: Multiset<AABox>| step(s, v) && reach_n(v, t, (n - 1) as nat);
        lemma_reach_n_snoc(v, t, u, (n - 1) as nat);
        assert(step(s, v) && reach_n(v, u, n));
    }
}

/// Given a set of axis-aligned boxes, merge together boxes that touch or
/// overlap, scanning pairs in ascending index order and restarting after
/// every merge, until no touching pair remains.
pub fn merge_touching(boxes: &[AABox]) -> (r: Vec<AABox>)
    ensures
        is_merge_result(boxes@, r@),
        r@.len() <= boxes@.len(),
{
    let ghost input = boxes@;
    let mut work: Vec<AABox> = Vec::new();
    let mut k: usize = 0;
    while k < boxes.len()
        invariant
            k <= boxes@.len(),
            work@ == boxes@.take(k as int),
        decreases boxes@.len() - k,
    {
        work.push(boxes[k]);
        proof {
            assert(boxes@.take(k + 1 as int) =~= boxes@.take(k as int).push(boxes@[k as int]));
        }
        k = k + 1;
    }
    proof {
        assert(boxes@.take(boxes@.len() as int) =~= boxes@);
        assert(reach_n(input.to_multiset(), work@.to_multiset(), 0));
    }
    loop
        invariant_except_break
            reach(input.to_multiset(), work@.to_multiset()),
            no_touching_pair(input) ==> work@ == input,
            work@.len() <= input.len(),
        ensures
            reach(input.to_multiset(), work@.to_multiset()),
            no_touching_pair(input) ==> work@ == input,
            no_touching_pair(work@),
            work@.len() <= input.len(),
        decreases work@.len(),
    {
        let found = find_touching_pair(&work);
        match found {
            None => {
                break ;
            },
            Some(p) => {
                let (i, j) = p;
                let ghost w0 = work@;
                let (a, b) = if i < j {
                    (work.remove(j), work.remove(i))
                } else {
                    (work.remove(i), work.remove(j))
                };
                let m = merge(a, b);
                work.push(m);
                proof {
                    let ghost ms0 = w0.to_multiset();
                    if i < j {
                        let w1 = w0.remove(j as int);
                        w0.remove_ensures(j as int);
                        assert(w1[i as int] == w0[i as int]);
                        assert(a == w0[j as int] && b == w0[i as int]);
                        assert(w1.to_multiset() == ms0.remove(a));
                        assert(w1.contains(b));
                        w1.to_multiset_ensures();
                        assert(work@ == w1.remove(i as int).push(m));
                        assert(work@.to_multiset() == ms0.remove(a).remove(b).insert(m));
                    } else {
                        let w1 = w0.remove(i as int);
                        w0.remove_ensures(i as int);
                        assert(w1[j as int] == w0[j as int]);
                        assert(a == w0[i as int] && b == w0[j as int]);
                        assert(w1.to_multiset() == ms0.remove(a));
                        assert(w1.contains(b));
                        w1.to_multiset_ensures();
                        assert(work@ == w1.remove(j as int).push(m));
                        assert(work@.to_multiset() == ms0.remove(a).remove(b).insert(m));
                    }
                    assert(ms0.count(a) > 0 && ms0.remove(a).count(b) > 0) by {
                        if i < j {
                            lemma_indices_to_ms_pair(w0, j as int, i as int);
                        } else {
                            lemma_indices_to_ms_pair(w0, i as int, j as int);
                        }
                    }
                    assert(touching_s(a, b));
                    assert(step_with(ms0, work@.to_multiset(), a, b));
                    let n = choose|n: nat| reach_n(input.to_multiset(), ms0, n);
                    lemma_reach_n_snoc(input.to_multiset(), ms0, work@.to_multiset(), n);
                }
            },
        }
    }
    work
}

} // verus!
