//! The graph-structural half of relaxation: which stitches the solver's
//! forces connect, decided from the insertion graph alone.
//!
//! Springs, bending resistance, sibling repulsion and barrier contact all
//! act between particular stitches. Which ones is a fact about the graph:
//! a bending triple never touches a "fan edge" (two consecutive stitches
//! converging on the same insertion point — a fan's angular spread is
//! sibling repulsion's job, not bending's), every pair of stitches
//! sharing a single target repels once too close, and so do a slip
//! stitch's target and its working-order predecessor (both pulled toward
//! the same near-zero-slack junction). A stitch's base moves with the
//! stitch tops it is defined from.
use vstd::prelude::*;

use crate::geometry::earlier_than;
use crate::graph::{Scheme, StitchInstance, StitchRef, Thread};
use crate::stitch::{str_equal, SS};

verus! {

/// Stitch `b` of thread `thread` converges on the same insertion point
/// as stitch `a`: either `b`'s one target is `a` itself, or both have
/// the same single target.
pub open spec fn fan_edge(scheme: Scheme, thread: int, a: int, b: int) -> bool {
    let sa = scheme.threads@[thread].stitches@[a];
    let sb = scheme.threads@[thread].stitches@[b];
    ||| sb.targets@ == seq![StitchRef { thread: thread as usize, index: a as usize }]
    ||| (sa.targets@.len() == 1 && sb.targets@.len() == 1 && sa.targets@[0] == sb.targets@[0])
}

/// Whether the working-order edge from stitch `a` to stitch `b` of one
/// thread is a fan edge: `b`'s one target is `a`, or `a` and `b` are
/// literal siblings (identical single-element target lists).
pub fn is_fan_edge(scheme: &Scheme, thread: usize, a: usize, b: usize) -> (res: bool)
    requires
        thread < scheme.threads@.len(),
        a < scheme.threads@[thread as int].stitches@.len(),
        b < scheme.threads@[thread as int].stitches@.len(),
    ensures
        res == fan_edge(*scheme, thread as int, a as int, b as int),
{
    let sa = &scheme.threads[thread].stitches[a];
    let sb = &scheme.threads[thread].stitches[b];
    if sb.targets.len() == 1 {
        let only = sb.targets[0];
        if only.thread == thread && only.index == a {
            assert(sb.targets@ =~= seq![StitchRef { thread: thread, index: a }]);
            return true;
        }
        if sa.targets.len() == 1 && sa.targets[0] == only {
            return true;
        }
    }
    false
}

/// Stitch `i` of thread `thread` is the middle of a bending triple: the
/// thread has at least three stitches, `i` has a predecessor and a
/// successor, and neither edge touching it is a fan edge.
pub open spec fn bending_vertex(scheme: Scheme, thread: int, i: int) -> bool {
    let n = scheme.threads@[thread].stitches@.len();
    &&& n >= 3
    &&& 1 <= i < n - 1
    &&& !fan_edge(scheme, thread, i - 1, i)
    &&& !fan_edge(scheme, thread, i, i + 1)
}

/// Every interior stitch of a thread (one with both a working-order
/// predecessor and a successor, in a thread of at least three stitches)
/// whose two working-order edges are ordinary, non-fan edges is the
/// middle of a bending triple — and only interior stitches are.
pub proof fn lemma_interior_vertices_bend(scheme: Scheme, thread: int, i: int)
    requires
        0 <= thread < scheme.threads@.len(),
    ensures
        1 <= i && i + 2 <= scheme.threads@[thread].stitches@.len() && !fan_edge(scheme, thread, i - 1, i)
            && !fan_edge(scheme, thread, i, i + 1) ==> bending_vertex(scheme, thread, i),
        bending_vertex(scheme, thread, i) ==> 1 <= i && i + 2 <= scheme.threads@[thread].stitches@.len(),
{
}

/// In a thread with no targets at all (a run of chains) there are no fan
/// edges, so every interior stitch is the middle of a bending triple.
pub proof fn lemma_chain_interior_bends(scheme: Scheme, thread: int, i: int)
    requires
        0 <= thread < scheme.threads@.len(),
        forall|k: int|
            0 <= k < scheme.threads@[thread].stitches@.len() ==> (#[trigger] scheme.threads@[thread].stitches@[k]).targets@.len() == 0,
        1 <= i,
        i + 2 <= scheme.threads@[thread].stitches@.len(),
    ensures
        bending_vertex(scheme, thread, i),
{
    assert(scheme.threads@[thread].stitches@[i].targets@.len() == 0);
    assert(scheme.threads@[thread].stitches@[i + 1].targets@.len() == 0);
    lemma_interior_vertices_bend(scheme, thread, i);
}

/// The middle stitch of every candidate bending triple, in working order:
/// one per interior working-order vertex whose two edges are both
/// ordinary (non-fan) edges.
pub fn bending_vertices(scheme: &Scheme) -> (res: Vec<StitchRef>)
    ensures
        forall|k: int|
            0 <= k < res@.len() ==> scheme.contains_ref(#[trigger] res@[k]) && bending_vertex(
                *scheme,
                res@[k].thread as int,
                res@[k].index as int,
            ),
        forall|r: StitchRef|
            scheme.contains_ref(r) && bending_vertex(*scheme, r.thread as int, r.index as int)
                ==> res@.contains(r),
        forall|k1: int, k2: int|
            #![trigger res@[k1], res@[k2]]
            0 <= k1 < k2 < res@.len() ==> earlier_than(res@[k1], res@[k2].thread as int, res@[k2].index as int),
        forall|k: int|
            0 <= k < res@.len() ==> 1 <= (#[trigger] res@[k]).index && res@[k].index + 2
                <= scheme.threads@[res@[k].thread as int].stitches@.len(),
        forall|r: StitchRef|
            #![trigger scheme.threads@[r.thread as int].stitches@[r.index as int]]
            r.thread < scheme.threads@.len() && 1 <= r.index && r.index + 2
                <= scheme.threads@[r.thread as int].stitches@.len() && !fan_edge(
                *scheme,
                r.thread as int,
                r.index - 1,
                r.index as int,
            ) && !fan_edge(*scheme, r.thread as int, r.index as int, r.index + 1) ==> res@.contains(r),
{
    let mut res: Vec<StitchRef> = Vec::new();
    let mut a: usize = 0;
    while a < scheme.threads.len()
        invariant
            a <= scheme.threads@.len(),
            forall|k: int|
                0 <= k < res@.len() ==> scheme.contains_ref(#[trigger] res@[k]) && bending_vertex(
                    *scheme,
                    res@[k].thread as int,
                    res@[k].index as int,
                ) && res@[k].thread < a,
            forall|r: StitchRef|
                scheme.contains_ref(r) && r.thread < a && bending_vertex(
                    *scheme,
                    r.thread as int,
                    r.index as int,
                ) ==> res@.contains(r),
            forall|k1: int, k2: int|
                #![trigger res@[k1], res@[k2]]
                0 <= k1 < k2 < res@.len() ==> earlier_than(res@[k1], res@[k2].thread as int, res@[k2].index as int),
        decreases scheme.threads@.len() - a,
    {
        let n = scheme.threads[a].stitches.len();
        if n >= 3 {
            let mut i: usize = 1;
            while i < n - 1
                invariant
                    a < scheme.threads@.len(),
                    n == scheme.threads@[a as int].stitches@.len(),
                    n >= 3,
                    1 <= i <= n - 1,
                    forall|k: int|
                        0 <= k < res@.len() ==> scheme.contains_ref(#[trigger] res@[k]) && bending_vertex(
                            *scheme,
                            res@[k].thread as int,
                            res@[k].index as int,
                        ) && (res@[k].thread < a || (res@[k].thread == a && res@[k].index < i)),
                    forall|r: StitchRef|
                        scheme.contains_ref(r) && (r.thread < a || (r.thread == a && r.index < i))
                            && bending_vertex(*scheme, r.thread as int, r.index as int) ==> res@.contains(
                            r,
                        ),
                    forall|k1: int, k2: int|
                        #![trigger res@[k1], res@[k2]]
                        0 <= k1 < k2 < res@.len() ==> earlier_than(res@[k1], res@[k2].thread as int, res@[k2].index as int),
                decreases n - 1 - i,
            {
                let ghost before = res@;
                if !is_fan_edge(scheme, a, i - 1, i) && !is_fan_edge(scheme, a, i, i + 1) {
                    res.push(StitchRef::new(a, i));
                    proof {
                        assert forall|r: StitchRef|
                            scheme.contains_ref(r) && (r.thread < a || (r.thread == a && r.index < i + 1))
                                && bending_vertex(*scheme, r.thread as int, r.index as int) implies res@.contains(
                            r,
                        ) by {
                            if r.thread == a && r.index == i {
                                assert(res@[res@.len() - 1] == r);
                            } else {
                                assert(before.contains(r));
                                let k = choose|k: int| 0 <= k < before.len() && before[k] == r;
                                assert(res@[k] == r);
                            }
                        }
                    }
                }
                i = i + 1;
            }
        }
        a = a + 1;
    }
    proof {
        assert forall|r: StitchRef|
            r.thread < scheme.threads@.len() && 1 <= r.index && r.index + 2
                <= scheme.threads@[r.thread as int].stitches@.len() && !fan_edge(
                *scheme,
                r.thread as int,
                r.index - 1,
                r.index as int,
            ) && !fan_edge(*scheme, r.thread as int, r.index as int, r.index + 1) implies res@.contains(r) by {
            lemma_interior_vertices_bend(*scheme, r.thread as int, r.index as int);
            assert(scheme.contains_ref(r));
            assert(bending_vertex(*scheme, r.thread as int, r.index as int));
        }
    }
    res
}

/// `x` and `y` are distinct stitches, `x` earlier in working order, that
/// share the same single target.
pub open spec fn sibling_pair(scheme: Scheme, x: StitchRef, y: StitchRef) -> bool {
    &&& scheme.contains_ref(x)
    &&& scheme.contains_ref(y)
    &&& earlier_than(x, y.thread as int, y.index as int)
    &&& scheme.stitch_at(x).targets@.len() == 1
    &&& scheme.stitch_at(x).targets@ == scheme.stitch_at(y).targets@
}

/// Every stitch with exactly one target, with that target, in working
/// order.
///
/// Sibling pairs are found by comparing these entries pairwise rather
/// than by grouping stitches in a `HashMap` keyed by their target: vstd
/// specifies `HashMap` only for key types with `obeys_key_model`, which
/// it establishes for `bool`, the primitive integers and boxes of them,
/// not for `StitchRef`.
fn single_target_stitches(scheme: &Scheme) -> (res: Vec<(StitchRef, StitchRef)>)
    ensures
        forall|k: int|
            0 <= k < res@.len() ==> scheme.contains_ref((#[trigger] res@[k]).0) && scheme.stitch_at(
                res@[k].0,
            ).targets@ == seq![res@[k].1],
        forall|r: StitchRef|
            scheme.contains_ref(r) && scheme.stitch_at(r).targets@.len() == 1 ==> exists|k: int|
                0 <= k < res@.len() && (#[trigger] res@[k]).0 == r,
        forall|k1: int, k2: int|
            #![trigger res@[k1], res@[k2]]
            0 <= k1 < k2 < res@.len() ==> earlier_than(res@[k1].0, res@[k2].0.thread as int, res@[k2].0.index as int),
{
    let mut res: Vec<(StitchRef, StitchRef)> = Vec::new();
    let mut a: usize = 0;
    while a < scheme.threads.len()
        invariant
            a <= scheme.threads@.len(),
            forall|k: int|
                0 <= k < res@.len() ==> scheme.contains_ref((#[trigger] res@[k]).0) && scheme.stitch_at(
                    res@[k].0,
                ).targets@ == seq![res@[k].1] && earlier_than(res@[k].0, a as int, 0),
            forall|r: StitchRef|
                scheme.contains_ref(r) && scheme.stitch_at(r).targets@.len() == 1 && earlier_than(
                    r,
                    a as int,
                    0,
                ) ==> exists|k: int| 0 <= k < res@.len() && (#[trigger] res@[k]).0 == r,
            forall|k1: int, k2: int|
                #![trigger res@[k1], res@[k2]]
                0 <= k1 < k2 < res@.len() ==> earlier_than(res@[k1].0, res@[k2].0.thread as int, res@[k2].0.index as int),
        decreases scheme.threads@.len() - a,
    {
        let thread = &scheme.threads[a];
        let mut b: usize = 0;
        while b < thread.stitches.len()
            invariant
                a < scheme.threads@.len(),
                *thread == scheme.threads@[a as int],
                b <= thread.stitches@.len(),
                forall|k: int|
                    0 <= k < res@.len() ==> scheme.contains_ref((#[trigger] res@[k]).0) && scheme.stitch_at(
                        res@[k].0,
                    ).targets@ == seq![res@[k].1] && earlier_than(res@[k].0, a as int, b as int),
                forall|r: StitchRef|
                    scheme.contains_ref(r) && scheme.stitch_at(r).targets@.len() == 1 && earlier_than(
                        r,
                        a as int,
                        b as int,
                    ) ==> exists|k: int| 0 <= k < res@.len() && (#[trigger] res@[k]).0 == r,
                forall|k1: int, k2: int|
                    #![trigger res@[k1], res@[k2]]
                    0 <= k1 < k2 < res@.len() ==> earlier_than(res@[k1].0, res@[k2].0.thread as int, res@[k2].0.index as int),
            decreases thread.stitches@.len() - b,
        {
            let s = &thread.stitches[b];
            let ghost before = res@;
            let ghost here = StitchRef { thread: a, index: b };
            assert(scheme.contains_ref(here));
            if s.targets.len() == 1 {
                res.push((StitchRef::new(a, b), s.targets[0]));
                proof {
                    assert(s.targets@ =~= seq![s.targets@[0]]);
                    assert(res@[res@.len() - 1].0 == here);
                    assert forall|r: StitchRef|
                        scheme.contains_ref(r) && scheme.stitch_at(r).targets@.len() == 1 && earlier_than(
                            r,
                            a as int,
                            b + 1,
                        ) implies exists|k: int| 0 <= k < res@.len() && (#[trigger] res@[k]).0 == r by {
                        if r == here {
                            assert(res@[res@.len() - 1].0 == r);
                        } else {
                            assert(earlier_than(r, a as int, b as int));
                            let k = choose|k: int| 0 <= k < before.len() && (#[trigger] before[k]).0 == r;
                            assert(res@[k].0 == r);
                        }
                    }
                }
            } else {
                proof {
                    assert forall|r: StitchRef|
                        scheme.contains_ref(r) && scheme.stitch_at(r).targets@.len() == 1 && earlier_than(
                            r,
                            a as int,
                            b + 1,
                        ) implies exists|k: int| 0 <= k < res@.len() && (#[trigger] res@[k]).0 == r by {
                        if r != here {
                            assert(earlier_than(r, a as int, b as int));
                        }
                    }
                }
            }
            b = b + 1;
        }
        proof {
            assert forall|r: StitchRef|
                scheme.contains_ref(r) && scheme.stitch_at(r).targets@.len() == 1 && earlier_than(
                    r,
                    a + 1,
                    0,
                ) implies exists|k: int| 0 <= k < res@.len() && (#[trigger] res@[k]).0 == r by {
                assert(earlier_than(r, a as int, b as int));
            }
        }
        a = a + 1;
    }
    proof {
        assert forall|r: StitchRef|
            scheme.contains_ref(r) && scheme.stitch_at(r).targets@.len() == 1 implies exists|k: int|
                0 <= k < res@.len() && (#[trigger] res@[k]).0 == r by {
            assert(earlier_than(r, a as int, 0));
        }
    }
    res
}

/// Every pair of stitches sharing the same single target, the earlier
/// one first — the pairs sibling repulsion keeps apart. Each pair is
/// listed once.
pub fn sibling_pairs(scheme: &Scheme) -> (pairs: Vec<(StitchRef, StitchRef)>)
    ensures
        forall|k: int| 0 <= k < pairs@.len() ==> sibling_pair(*scheme, (#[trigger] pairs@[k]).0, pairs@[k].1),
        forall|x: StitchRef, y: StitchRef| sibling_pair(*scheme, x, y) ==> pairs@.contains((x, y)),
        pairs@.no_duplicates(),
{
    let singles = single_target_stitches(scheme);
    let mut pairs: Vec<(StitchRef, StitchRef)> = Vec::new();
    let ghost mut from: Seq<(int, int)> = Seq::empty();
    let mut j: usize = 0;
    while j < singles.len()
        invariant
            j <= singles@.len(),
            forall|k: int|
                0 <= k < singles@.len() ==> scheme.contains_ref((#[trigger] singles@[k]).0) && scheme.stitch_at(
                    singles@[k].0,
                ).targets@ == seq![singles@[k].1],
            forall|k1: int, k2: int|
                #![trigger singles@[k1], singles@[k2]]
                0 <= k1 < k2 < singles@.len() ==> earlier_than(
                    singles@[k1].0,
                    singles@[k2].0.thread as int,
                    singles@[k2].0.index as int,
                ),
            from.len() == pairs@.len(),
            forall|k: int|
                0 <= k < pairs@.len() ==> {
                    let (i1, j1) = #[trigger] from[k];
                    &&& 0 <= i1 < j1 < j
                    &&& pairs@[k] == (singles@[i1].0, singles@[j1].0)
                    &&& singles@[i1].1 == singles@[j1].1
                },
            forall|k1: int, k2: int|
                #![trigger from[k1], from[k2]]
                0 <= k1 < k2 < from.len() ==> from[k1].1 < from[k2].1 || (from[k1].1 == from[k2].1
                    && from[k1].0 < from[k2].0),
            forall|i1: int, j1: int|
                0 <= i1 < j1 < j && (#[trigger] singles@[i1]).1 == (#[trigger] singles@[j1]).1 ==> exists|k: int|
                    0 <= k < from.len() && #[trigger] from[k] == (i1, j1),
        decreases singles@.len() - j,
    {
        let mut i: usize = 0;
        while i < j
            invariant
                j < singles@.len(),
                i <= j,
                forall|k: int|
                    0 <= k < singles@.len() ==> scheme.contains_ref((#[trigger] singles@[k]).0)
                        && scheme.stitch_at(singles@[k].0).targets@ == seq![singles@[k].1],
                forall|k1: int, k2: int|
                    #![trigger singles@[k1], singles@[k2]]
                    0 <= k1 < k2 < singles@.len() ==> earlier_than(
                        singles@[k1].0,
                        singles@[k2].0.thread as int,
                        singles@[k2].0.index as int,
                    ),
                from.len() == pairs@.len(),
                forall|k: int|
                    0 <= k < pairs@.len() ==> {
                        let (i1, j1) = #[trigger] from[k];
                        &&& 0 <= i1 < j1 <= j
                        &&& (j1 == j ==> i1 < i)
                        &&& pairs@[k] == (singles@[i1].0, singles@[j1].0)
                        &&& singles@[i1].1 == singles@[j1].1
                    },
                forall|k1: int, k2: int|
                    #![trigger from[k1], from[k2]]
                    0 <= k1 < k2 < from.len() ==> from[k1].1 < from[k2].1 || (from[k1].1 == from[k2].1
                        && from[k1].0 < from[k2].0),
                forall|i1: int, j1: int|
                    0 <= i1 < j1 && (j1 < j || (j1 == j && i1 < i)) && (#[trigger] singles@[i1]).1 == (
                    #[trigger] singles@[j1]).1 ==> exists|k: int| 0 <= k < from.len() && #[trigger] from[k] == (i1, j1),
            decreases j - i,
        {
            if singles[i].1 == singles[j].1 {
                let ghost old_from = from;
                pairs.push((singles[i].0, singles[j].0));
                proof {
                    from = from.push((i as int, j as int));
                    assert forall|i1: int, j1: int|
                        0 <= i1 < j1 && (j1 < j || (j1 == j && i1 < i + 1)) && (#[trigger] singles@[i1]).1 == (
                        #[trigger] singles@[j1]).1 implies exists|k: int| 0 <= k < from.len() && #[trigger] from[k] == (i1, j1) by {
                        if j1 == j && i1 == i {
                            assert(from[from.len() - 1] == (i1, j1));
                        } else {
                            let k = choose|k: int| 0 <= k < old_from.len() && #[trigger] old_from[k] == (i1, j1);
                            assert(from[k] == (i1, j1));
                        }
                    }
                }
            }
            i = i + 1;
        }
        j = j + 1;
    }
    proof {
        assert forall|k: int| 0 <= k < pairs@.len() implies sibling_pair(*scheme, (#[trigger] pairs@[k]).0, pairs@[k].1) by {
            let (i1, j1) = from[k];
            assert(singles@[i1].0 == pairs@[k].0);
            assert(earlier_than(singles@[i1].0, singles@[j1].0.thread as int, singles@[j1].0.index as int));
        }
        assert forall|x: StitchRef, y: StitchRef| sibling_pair(*scheme, x, y) implies pairs@.contains((x, y)) by {
            let kx = choose|k: int| 0 <= k < singles@.len() && (#[trigger] singles@[k]).0 == x;
            assert(scheme.stitch_at(y).targets@.len() == 1);
            let ky = choose|k: int| 0 <= k < singles@.len() && (#[trigger] singles@[k]).0 == y;
            assert(singles@[kx].1 == scheme.stitch_at(x).targets@[0]);
            assert(singles@[ky].1 == scheme.stitch_at(y).targets@[0]);
            if kx >= ky {
                if kx == ky {
                } else {
                    assert(earlier_than(singles@[ky].0, singles@[kx].0.thread as int, singles@[kx].0.index as int));
                }
            }
            assert(kx < ky);
            let k = choose|k: int| 0 <= k < from.len() && #[trigger] from[k] == (kx, ky);
            assert(pairs@[k] == (x, y));
        }
        assert forall|k1: int, k2: int| 0 <= k1 < pairs@.len() && 0 <= k2 < pairs@.len() && k1 != k2 implies pairs@[k1] != pairs@[k2] by {
            let (a1, b1) = from[k1];
            let (a2, b2) = from[k2];
            if k1 < k2 {
                assert(from[k1].1 < from[k2].1 || (from[k1].1 == from[k2].1 && from[k1].0 < from[k2].0));
            } else {
                assert(from[k2].1 < from[k1].1 || (from[k2].1 == from[k1].1 && from[k2].0 < from[k1].0));
            }
            if a1 != a2 {
                if a1 < a2 {
                    assert(earlier_than(singles@[a1].0, singles@[a2].0.thread as int, singles@[a2].0.index as int));
                } else {
                    assert(earlier_than(singles@[a2].0, singles@[a1].0.thread as int, singles@[a1].0.index as int));
                }
            }
            if b1 != b2 {
                if b1 < b2 {
                    assert(earlier_than(singles@[b1].0, singles@[b2].0.thread as int, singles@[b2].0.index as int));
                } else {
                    assert(earlier_than(singles@[b2].0, singles@[b1].0.thread as int, singles@[b1].0.index as int));
                }
            }
        }
    }
    pairs
}

/// The stitch `r` is a slip stitch joining back to something other than
/// its own working-order predecessor: it has a predecessor and exactly one
/// target, and that target is not the predecessor.
pub open spec fn slip_join_at(scheme: Scheme, r: StitchRef) -> bool {
    let s = scheme.stitch_at(r);
    &&& scheme.contains_ref(r)
    &&& s.kind@ == SS@
    &&& r.index > 0
    &&& s.targets@.len() == 1
    &&& s.targets@[0] != StitchRef { thread: r.thread, index: (r.index - 1) as usize }
}

/// `(target, predecessor)` are the target and the working-order
/// predecessor of the joining slip stitch that follows `predecessor`.
pub open spec fn slip_join_pair(scheme: Scheme, target: StitchRef, predecessor: StitchRef) -> bool {
    let r = StitchRef { thread: predecessor.thread, index: (predecessor.index + 1) as usize };
    &&& predecessor.index + 1 <= usize::MAX
    &&& slip_join_at(scheme, r)
    &&& target == scheme.stitch_at(r).targets@[0]
}

/// For every joining slip stitch (see `slip_join_at`), the pair of its
/// target and its working-order predecessor, in working order: both are
/// pulled toward the same near-zero-slack junction, so they repel once
/// too close.
pub fn slip_join_pairs(scheme: &Scheme) -> (pairs: Vec<(StitchRef, StitchRef)>)
    ensures
        forall|k: int| 0 <= k < pairs@.len() ==> slip_join_pair(*scheme, (#[trigger] pairs@[k]).0, pairs@[k].1),
        forall|r: StitchRef|
            slip_join_at(*scheme, r) ==> pairs@.contains(
                (
                    scheme.stitch_at(r).targets@[0],
                    StitchRef { thread: r.thread, index: (r.index - 1) as usize },
                ),
            ),
        forall|k1: int, k2: int|
            #![trigger pairs@[k1], pairs@[k2]]
            0 <= k1 < k2 < pairs@.len() ==> earlier_than(
                pairs@[k1].1,
                pairs@[k2].1.thread as int,
                pairs@[k2].1.index as int,
            ),
        pairs@.no_duplicates(),
{
    let mut pairs: Vec<(StitchRef, StitchRef)> = Vec::new();
    let mut a: usize = 0;
    while a < scheme.threads.len()
        invariant
            a <= scheme.threads@.len(),
            forall|k: int|
                0 <= k < pairs@.len() ==> slip_join_pair(*scheme, (#[trigger] pairs@[k]).0, pairs@[k].1)
                    && pairs@[k].1.thread < a,
            forall|r: StitchRef|
                slip_join_at(*scheme, r) && r.thread < a ==> pairs@.contains(
                    (
                        scheme.stitch_at(r).targets@[0],
                        StitchRef { thread: r.thread, index: (r.index - 1) as usize },
                    ),
                ),
            forall|k1: int, k2: int|
                #![trigger pairs@[k1], pairs@[k2]]
                0 <= k1 < k2 < pairs@.len() ==> earlier_than(
                    pairs@[k1].1,
                    pairs@[k2].1.thread as int,
                    pairs@[k2].1.index as int,
                ),
        decreases scheme.threads@.len() - a,
    {
        let thread = &scheme.threads[a];
        let mut b: usize = 1;
        while b < thread.stitches.len()
            invariant
                a < scheme.threads@.len(),
                *thread == scheme.threads@[a as int],
                1 <= b,
                b <= thread.stitches@.len() || thread.stitches@.len() == 0,
                forall|k: int|
                    0 <= k < pairs@.len() ==> slip_join_pair(*scheme, (#[trigger] pairs@[k]).0, pairs@[k].1)
                        && earlier_than(pairs@[k].1, a as int, b - 1),
                forall|r: StitchRef|
                    slip_join_at(*scheme, r) && earlier_than(r, a as int, b as int) ==> pairs@.contains(
                        (
                            scheme.stitch_at(r).targets@[0],
                            StitchRef { thread: r.thread, index: (r.index - 1) as usize },
                        ),
                    ),
                forall|k1: int, k2: int|
                    #![trigger pairs@[k1], pairs@[k2]]
                    0 <= k1 < k2 < pairs@.len() ==> earlier_than(
                        pairs@[k1].1,
                        pairs@[k2].1.thread as int,
                        pairs@[k2].1.index as int,
                    ),
            decreases thread.stitches@.len() - b,
        {
            let s = &thread.stitches[b];
            let ghost here = StitchRef { thread: a, index: b };
            let ghost before = pairs@;
            assert(scheme.contains_ref(here));
            if str_equal(s.kind, SS) && s.targets.len() == 1 {
                let target = s.targets[0];
                let predecessor = StitchRef::new(a, b - 1);
                if target != predecessor {
                    pairs.push((target, predecessor));
                    proof {
                        assert(slip_join_at(*scheme, here));
                        assert forall|r: StitchRef|
                            slip_join_at(*scheme, r) && earlier_than(r, a as int, b + 1) implies pairs@.contains(
                                (
                                    scheme.stitch_at(r).targets@[0],
                                    StitchRef { thread: r.thread, index: (r.index - 1) as usize },
                                ),
                            ) by {
                            if r == here {
                                assert(pairs@[pairs@.len() - 1] == (target, predecessor));
                            } else {
                                assert(earlier_than(r, a as int, b as int));
                                let p = (
                                    scheme.stitch_at(r).targets@[0],
                                    StitchRef { thread: r.thread, index: (r.index - 1) as usize },
                                );
                                let k = choose|k: int| 0 <= k < before.len() && before[k] == p;
                                assert(pairs@[k] == p);
                            }
                        }
                    }
                }
            }
            proof {
                assert forall|r: StitchRef|
                    slip_join_at(*scheme, r) && earlier_than(r, a as int, b + 1) implies pairs@.contains(
                        (
                            scheme.stitch_at(r).targets@[0],
                            StitchRef { thread: r.thread, index: (r.index - 1) as usize },
                        ),
                    ) by {
                    if r != here {
                        assert(earlier_than(r, a as int, b as int));
                    }
                }
            }
            b = b + 1;
        }
        proof {
            assert forall|r: StitchRef| slip_join_at(*scheme, r) && r.thread < a + 1 implies pairs@.contains(
                (
                    scheme.stitch_at(r).targets@[0],
                    StitchRef { thread: r.thread, index: (r.index - 1) as usize },
                ),
            ) by {
                if r.thread == a {
                    assert(earlier_than(r, a as int, b as int));
                }
            }
        }
        a = a + 1;
    }
    proof {
        assert forall|k1: int, k2: int| 0 <= k1 < pairs@.len() && 0 <= k2 < pairs@.len() && k1 != k2 implies pairs@[k1]
            != pairs@[k2] by {
            if k1 < k2 {
                assert(earlier_than(pairs@[k1].1, pairs@[k2].1.thread as int, pairs@[k2].1.index as int));
            } else {
                assert(earlier_than(pairs@[k2].1, pairs@[k1].1.thread as int, pairs@[k1].1.index as int));
            }
        }
    }
    pairs
}

/// What a spring between two stitch tops models.
#[derive(Debug, Clone, Copy, PartialEq, Eq, Structural)]
pub enum SpringKind {
    /// A stitch pulled toward one of its targets: rest length is the
    /// stitch's height, stiffness its insertion stiffness.
    Insertion,
    /// A stitch held at its raw distance from its working-order
    /// predecessor along the yarn.
    Continuity,
    /// A slip stitch held at near-zero slack from its working-order
    /// predecessor: a slip stitch adds no height of its own.
    SlipContinuity,
}

/// A spring from stitch `a` to stitch `b`.
#[derive(Debug, Clone, Copy, PartialEq, Eq, Structural)]
pub struct SpringLink {
    pub a: StitchRef,
    pub b: StitchRef,
    pub kind: SpringKind,
}

/// The springs stitch `r` contributes, in order: one insertion spring to
/// each of its targets, in list order, then — unless it opens its thread
/// — one continuity spring to its working-order predecessor, a slip
/// continuity spring when `r` is a slip stitch.
pub open spec fn stitch_springs(scheme: Scheme, r: StitchRef) -> Seq<SpringLink> {
    let s = scheme.stitch_at(r);
    let insertions = s.targets@.map_values(|t: StitchRef| SpringLink { a: r, b: t, kind: SpringKind::Insertion });
    if r.index > 0 {
        insertions.push(
            SpringLink {
                a: r,
                b: StitchRef { thread: r.thread, index: (r.index - 1) as usize },
                kind: if s.kind@ == SS@ {
                    SpringKind::SlipContinuity
                } else {
                    SpringKind::Continuity
                },
            },
        )
    } else {
        insertions
    }
}

/// The springs of the first `n` stitches of thread `a`, in working order.
pub open spec fn thread_springs(scheme: Scheme, a: int, n: int) -> Seq<SpringLink>
    decreases n,
{
    if n <= 0 {
        Seq::empty()
    } else {
        thread_springs(scheme, a, n - 1) + stitch_springs(
            scheme,
            StitchRef { thread: a as usize, index: (n - 1) as usize },
        )
    }
}

/// The springs of every stitch of the first `a` threads, in working order.
pub open spec fn scheme_springs(scheme: Scheme, a: int) -> Seq<SpringLink>
    decreases a,
{
    if a <= 0 {
        Seq::empty()
    } else {
        scheme_springs(scheme, a - 1) + thread_springs(scheme, a - 1, scheme.threads@[a - 1].stitches@.len() as int)
    }
}

/// The springs of one stitch, spelled out: first one insertion spring
/// to each of its targets, in list order, then — exactly when the stitch
/// has a working-order predecessor, whatever its targets — one spring to
/// that predecessor, a slip continuity spring for a slip stitch and an
/// ordinary continuity spring otherwise.
pub proof fn lemma_stitch_springs_shape(scheme: Scheme, r: StitchRef)
    ensures
        stitch_springs(scheme, r).len() == scheme.stitch_at(r).targets@.len() + (if r.index > 0 {
            1int
        } else {
            0int
        }),
        forall|j: int|
            0 <= j < scheme.stitch_at(r).targets@.len() ==> #[trigger] stitch_springs(scheme, r)[j]
                == (SpringLink { a: r, b: scheme.stitch_at(r).targets@[j], kind: SpringKind::Insertion }),
        r.index > 0 ==> stitch_springs(scheme, r)[scheme.stitch_at(r).targets@.len() as int] == (SpringLink {
            a: r,
            b: StitchRef { thread: r.thread, index: (r.index - 1) as usize },
            kind: (if scheme.stitch_at(r).kind@ == SS@ {
                SpringKind::SlipContinuity
            } else {
                SpringKind::Continuity
            }),
        }),
{
}

proof fn lemma_thread_springs_has(scheme: Scheme, a: int, n: int, j: int, x: SpringLink)
    requires
        0 <= j < n,
        stitch_springs(scheme, StitchRef { thread: a as usize, index: j as usize }).contains(x),
    ensures
        thread_springs(scheme, a, n).contains(x),
    decreases n,
{
    let prefix = thread_springs(scheme, a, n - 1);
    let last = stitch_springs(scheme, StitchRef { thread: a as usize, index: (n - 1) as usize });
    assert(thread_springs(scheme, a, n) == prefix + last);
    if j == n - 1 {
        let k = choose|k: int| 0 <= k < last.len() && last[k] == x;
        assert((prefix + last)[prefix.len() + k] == x);
    } else {
        lemma_thread_springs_has(scheme, a, n - 1, j, x);
        let k = choose|k: int| 0 <= k < prefix.len() && prefix[k] == x;
        assert((prefix + last)[k] == x);
    }
}

proof fn lemma_scheme_springs_has(scheme: Scheme, b: int, a: int, j: int, x: SpringLink)
    requires
        0 <= a < b <= scheme.threads@.len(),
        0 <= j < scheme.threads@[a].stitches@.len(),
        stitch_springs(scheme, StitchRef { thread: a as usize, index: j as usize }).contains(x),
    ensures
        scheme_springs(scheme, b).contains(x),
    decreases b,
{
    let prefix = scheme_springs(scheme, b - 1);
    let last = thread_springs(scheme, b - 1, scheme.threads@[b - 1].stitches@.len() as int);
    assert(scheme_springs(scheme, b) == prefix + last);
    if a == b - 1 {
        lemma_thread_springs_has(scheme, a, scheme.threads@[a].stitches@.len() as int, j, x);
        let k = choose|k: int| 0 <= k < last.len() && last[k] == x;
        assert((prefix + last)[prefix.len() + k] == x);
    } else {
        lemma_scheme_springs_has(scheme, b - 1, a, j, x);
        let k = choose|k: int| 0 <= k < prefix.len() && prefix[k] == x;
        assert((prefix + last)[k] == x);
    }
}

proof fn lemma_thread_springs_from(scheme: Scheme, a: int, n: int, k: int)
    requires
        0 <= k < thread_springs(scheme, a, n).len(),
    ensures
        exists|j: int|
            0 <= j < n && (#[trigger] stitch_springs(scheme, StitchRef { thread: a as usize, index: j as usize })).contains(
                thread_springs(scheme, a, n)[k],
            ),
    decreases n,
{
    let prefix = thread_springs(scheme, a, n - 1);
    let last = stitch_springs(scheme, StitchRef { thread: a as usize, index: (n - 1) as usize });
    assert(thread_springs(scheme, a, n) == prefix + last);
    if k < prefix.len() {
        lemma_thread_springs_from(scheme, a, n - 1, k);
        let j = choose|j: int|
            0 <= j < n - 1 && (#[trigger] stitch_springs(scheme, StitchRef { thread: a as usize, index: j as usize })).contains(
                prefix[k],
            );
        assert((prefix + last)[k] == prefix[k]);
        assert(stitch_springs(scheme, StitchRef { thread: a as usize, index: j as usize }).contains(
            thread_springs(scheme, a, n)[k],
        ));
    } else {
        assert((prefix + last)[k] == last[k - prefix.len()]);
        assert(last.contains(thread_springs(scheme, a, n)[k]));
    }
}

proof fn lemma_scheme_springs_from(scheme: Scheme, b: int, k: int)
    requires
        0 <= b <= scheme.threads@.len(),
        0 <= k < scheme_springs(scheme, b).len(),
    ensures
        exists|a: int, j: int|
            0 <= a < b && 0 <= j < scheme.threads@[a].stitches@.len() && (#[trigger] stitch_springs(
                scheme,
                StitchRef { thread: a as usize, index: j as usize },
            )).contains(scheme_springs(scheme, b)[k]),
    decreases b,
{
    let prefix = scheme_springs(scheme, b - 1);
    let n = scheme.threads@[b - 1].stitches@.len() as int;
    let last = thread_springs(scheme, b - 1, n);
    assert(scheme_springs(scheme, b) == prefix + last);
    if k < prefix.len() {
        lemma_scheme_springs_from(scheme, b - 1, k);
        let (a, j) = choose|a: int, j: int|
            0 <= a < b - 1 && 0 <= j < scheme.threads@[a].stitches@.len() && (#[trigger] stitch_springs(
                scheme,
                StitchRef { thread: a as usize, index: j as usize },
            )).contains(prefix[k]);
        assert((prefix + last)[k] == prefix[k]);
        assert(stitch_springs(scheme, StitchRef { thread: a as usize, index: j as usize }).contains(
            scheme_springs(scheme, b)[k],
        ));
    } else {
        assert((prefix + last)[k] == last[k - prefix.len()]);
        lemma_thread_springs_from(scheme, b - 1, n, k - prefix.len());
        let j = choose|j: int|
            0 <= j < n && (#[trigger] stitch_springs(scheme, StitchRef { thread: (b - 1) as usize, index: j as usize })).contains(
                last[k - prefix.len()],
            );
        assert(stitch_springs(scheme, StitchRef { thread: (b - 1) as usize, index: j as usize }).contains(
            scheme_springs(scheme, b)[k],
        ));
    }
}

/// The number of targets named by `stitches`, all told.
pub open spec fn targets_total(stitches: Seq<StitchInstance>) -> nat
    decreases stitches.len(),
{
    if stitches.len() == 0 {
        0
    } else {
        targets_total(stitches.drop_last()) + stitches.last().targets@.len()
    }
}

/// The number of targets named in `threads` plus the number of their
/// stitches that have a working-order predecessor.
pub open spec fn links_total(threads: Seq<Thread>) -> nat
    decreases threads.len(),
{
    if threads.len() == 0 {
        0
    } else {
        let last = threads.last().stitches@;
        links_total(threads.drop_last()) + targets_total(last) + (if last.len() > 0 {
            (last.len() - 1) as nat
        } else {
            0
        })
    }
}

/// Every spring of `scheme`, stitch by stitch in working order (see
/// `stitch_springs`).
pub fn spring_links(scheme: &Scheme) -> (res: Vec<SpringLink>)
    ensures
        res@ == scheme_springs(*scheme, scheme.threads@.len() as int),
        res@.len() == links_total(scheme.threads@),
        forall|r: StitchRef|
            #[trigger] scheme.contains_ref(r) && r.index > 0 ==> res@.contains(
                (SpringLink {
                    a: r,
                    b: StitchRef { thread: r.thread, index: (r.index - 1) as usize },
                    kind: (if scheme.stitch_at(r).kind@ == SS@ {
                        SpringKind::SlipContinuity
                    } else {
                        SpringKind::Continuity
                    }),
                }),
            ),
        forall|r: StitchRef, j: int|
            scheme.contains_ref(r) && 0 <= j < scheme.stitch_at(r).targets@.len() ==> res@.contains(
                (SpringLink { a: r, b: #[trigger] scheme.stitch_at(r).targets@[j], kind: SpringKind::Insertion }),
            ),
        forall|k: int|
            0 <= k < res@.len() ==> (#[trigger] res@[k]).kind == SpringKind::Insertion ==> scheme.contains_ref(
                res@[k].a,
            ) && scheme.stitch_at(res@[k].a).targets@.contains(res@[k].b),
        forall|k: int|
            0 <= k < res@.len() ==> (#[trigger] res@[k]).kind != SpringKind::Insertion ==> scheme.contains_ref(
                res@[k].a,
            ) && res@[k].a.index > 0 && res@[k].b == (StitchRef {
                thread: res@[k].a.thread,
                index: (res@[k].a.index - 1) as usize,
            }) && (res@[k].kind == SpringKind::SlipContinuity <==> scheme.stitch_at(res@[k].a).kind@ == SS@),
{
    let mut res: Vec<SpringLink> = Vec::new();
    let mut a: usize = 0;
    while a < scheme.threads.len()
        invariant
            a <= scheme.threads@.len(),
            res@ == scheme_springs(*scheme, a as int),
            res@.len() == links_total(scheme.threads@.take(a as int)),
        decreases scheme.threads@.len() - a,
    {
        let thread = &scheme.threads[a];
        let ghost start = res@;
        let mut i: usize = 0;
        while i < thread.stitches.len()
            invariant
                a < scheme.threads@.len(),
                *thread == scheme.threads@[a as int],
                i <= thread.stitches@.len(),
                start == scheme_springs(*scheme, a as int),
                start.len() == links_total(scheme.threads@.take(a as int)),
                res@ == start + thread_springs(*scheme, a as int, i as int),
                res@.len() == start.len() + targets_total(thread.stitches@.take(i as int)) + (if i > 0 {
                    i - 1
                } else {
                    0
                }),
            decreases thread.stitches@.len() - i,
        {
            let s = &thread.stitches[i];
            let r = StitchRef::new(a, i);
            let ghost before = res@;
            let ghost ins = s.targets@.map_values(
                |t: StitchRef| SpringLink { a: r, b: t, kind: SpringKind::Insertion },
            );
            let mut k: usize = 0;
            while k < s.targets.len()
                invariant
                    k <= s.targets@.len(),
                    ins == s.targets@.map_values(
                        |t: StitchRef| SpringLink { a: r, b: t, kind: SpringKind::Insertion },
                    ),
                    res@ == before + ins.take(k as int),
                decreases s.targets@.len() - k,
            {
                res.push(SpringLink { a: r, b: s.targets[k], kind: SpringKind::Insertion });
                proof {
                    assert(ins.take(k + 1) =~= ins.take(k as int).push(ins[k as int]));
                    assert(res@ =~= before + ins.take(k + 1));
                }
                k = k + 1;
            }
            proof {
                assert(ins.take(k as int) =~= ins);
            }
            if i > 0 {
                let kind = if str_equal(s.kind, SS) {
                    SpringKind::SlipContinuity
                } else {
                    SpringKind::Continuity
                };
                res.push(SpringLink { a: r, b: StitchRef::new(a, i - 1), kind });
                proof {
                    assert(res@ =~= before + stitch_springs(*scheme, r));
                }
            } else {
                proof {
                    assert(res@ =~= before + stitch_springs(*scheme, r));
                }
            }
            proof {
                lemma_stitch_springs_shape(*scheme, r);
                assert(thread.stitches@.take(i + 1).drop_last() =~= thread.stitches@.take(i as int));
                assert(thread.stitches@.take(i + 1).last() == thread.stitches@[i as int]);
                assert(thread_springs(*scheme, a as int, i + 1) == thread_springs(*scheme, a as int, i as int)
                    + stitch_springs(*scheme, r));
                assert(res@ =~= start + thread_springs(*scheme, a as int, i + 1));
            }
            i = i + 1;
        }
        proof {
            assert(res@ =~= scheme_springs(*scheme, a + 1));
            assert(scheme.threads@.take(a + 1).drop_last() =~= scheme.threads@.take(a as int));
            assert(scheme.threads@.take(a + 1).last() == scheme.threads@[a as int]);
            assert(thread.stitches@.take(i as int) =~= thread.stitches@);
        }
        a = a + 1;
    }
    proof {
        let total = scheme.threads@.len() as int;
        assert(scheme.threads@.take(total) =~= scheme.threads@);
        assert forall|r: StitchRef| #[trigger] scheme.contains_ref(r) && r.index > 0 implies res@.contains(
            SpringLink {
                a: r,
                b: StitchRef { thread: r.thread, index: (r.index - 1) as usize },
                kind: if scheme.stitch_at(r).kind@ == SS@ {
                    SpringKind::SlipContinuity
                } else {
                    SpringKind::Continuity
                },
            },
        ) by {
            lemma_stitch_springs_shape(*scheme, r);
            let own = stitch_springs(*scheme, r);
            assert(own.contains(own[scheme.stitch_at(r).targets@.len() as int]));
            assert(StitchRef { thread: r.thread as usize, index: r.index as usize } == r);
            lemma_scheme_springs_has(*scheme, total, r.thread as int, r.index as int, own[scheme.stitch_at(r).targets@.len() as int]);
        }
        assert forall|r: StitchRef, j: int|
            scheme.contains_ref(r) && 0 <= j < scheme.stitch_at(r).targets@.len() implies res@.contains(
            SpringLink { a: r, b: #[trigger] scheme.stitch_at(r).targets@[j], kind: SpringKind::Insertion },
        ) by {
            lemma_stitch_springs_shape(*scheme, r);
            let own = stitch_springs(*scheme, r);
            assert(own[j] == SpringLink { a: r, b: scheme.stitch_at(r).targets@[j], kind: SpringKind::Insertion });
            assert(own.contains(own[j]));
            assert(StitchRef { thread: r.thread as usize, index: r.index as usize } == r);
            lemma_scheme_springs_has(*scheme, total, r.thread as int, r.index as int, own[j]);
        }
        assert forall|k: int| 0 <= k < res@.len() implies scheme.contains_ref(res@[k].a) && ((#[trigger] res@[k]).kind
            == SpringKind::Insertion ==> scheme.stitch_at(res@[k].a).targets@.contains(res@[k].b)) && (res@[k].kind
            != SpringKind::Insertion ==> res@[k].a.index > 0 && res@[k].b == (StitchRef {
            thread: res@[k].a.thread,
            index: (res@[k].a.index - 1) as usize,
        }) && (res@[k].kind == SpringKind::SlipContinuity <==> scheme.stitch_at(res@[k].a).kind@ == SS@)) by {
            lemma_scheme_springs_from(*scheme, total, k);
            let (ta, j) = choose|ta: int, j: int|
                0 <= ta < total && 0 <= j < scheme.threads@[ta].stitches@.len() && (#[trigger] stitch_springs(
                    *scheme,
                    StitchRef { thread: ta as usize, index: j as usize },
                )).contains(res@[k]);
            let r = StitchRef { thread: ta as usize, index: j as usize };
            lemma_stitch_springs_shape(*scheme, r);
            let own = stitch_springs(*scheme, r);
            let m = choose|m: int| 0 <= m < own.len() && own[m] == res@[k];
            if m < scheme.stitch_at(r).targets@.len() {
                assert(own[m] == SpringLink { a: r, b: scheme.stitch_at(r).targets@[m], kind: SpringKind::Insertion });
                assert(scheme.stitch_at(r).targets@.contains(scheme.stitch_at(r).targets@[m]));
            }
        }
    }
    res
}

/// The stitch tops a stitch's base position is defined from, before any
/// fixed offset: for a stitch without targets, its working-order
/// predecessor's top (or, for a thread's very first stitch, its own top);
/// otherwise the tops of its targets, averaged.
pub open spec fn spec_base_sources(scheme: Scheme, r: StitchRef) -> Seq<StitchRef> {
    let s = scheme.stitch_at(r);
    if s.targets@.len() == 0 {
        if r.index > 0 {
            seq![StitchRef { thread: r.thread, index: (r.index - 1) as usize }]
        } else {
            seq![r]
        }
    } else {
        s.targets@
    }
}

/// A stitch with targets has its base on exactly its targets — every
/// one of them, in list order; a stitch without targets hangs off its
/// predecessor's top, or its own for a thread's first stitch.
pub proof fn lemma_base_sources_are_targets(scheme: Scheme, r: StitchRef)
    ensures
        scheme.stitch_at(r).targets@.len() > 0 ==> spec_base_sources(scheme, r) == scheme.stitch_at(r).targets@,
        scheme.stitch_at(r).targets@.len() == 0 && r.index > 0 ==> spec_base_sources(scheme, r) == seq![
            StitchRef { thread: r.thread, index: (r.index - 1) as usize },
        ],
        scheme.stitch_at(r).targets@.len() == 0 && r.index == 0 ==> spec_base_sources(scheme, r) == seq![r],
{
}

/// The stitch tops the base of stitch `i` of thread `thread` moves with
/// (each with equal weight) — see `spec_base_sources`.
pub fn base_sources(scheme: &Scheme, thread: usize, i: usize) -> (res: Vec<StitchRef>)
    requires
        scheme.contains_ref(StitchRef { thread, index: i }),
    ensures
        res@ == spec_base_sources(*scheme, StitchRef { thread, index: i }),
        scheme.threads@[thread as int].stitches@[i as int].targets@.len() > 0 ==> res@
            == scheme.threads@[thread as int].stitches@[i as int].targets@,
        scheme.threads@[thread as int].stitches@[i as int].targets@.len() == 0 && i > 0 ==> res@ == seq![
            StitchRef { thread, index: (i - 1) as usize },
        ],
        scheme.threads@[thread as int].stitches@[i as int].targets@.len() == 0 && i == 0 ==> res@ == seq![
            StitchRef { thread, index: i },
        ],
{
    let stitch = &scheme.threads[thread].stitches[i];
    if stitch.targets.len() == 0 {
        if i > 0 {
            vec![StitchRef::new(thread, i - 1)]
        } else {
            vec![StitchRef::new(thread, i)]
        }
    } else {
        let mut res: Vec<StitchRef> = Vec::new();
        let mut k: usize = 0;
        while k < stitch.targets.len()
            invariant
                k <= stitch.targets@.len(),
                res@ == stitch.targets@.take(k as int),
            decreases stitch.targets@.len() - k,
        {
            res.push(stitch.targets[k]);
            proof {
                assert(res@ =~= stitch.targets@.take(k + 1));
            }
            k = k + 1;
        }
        proof {
            assert(stitch.targets@.take(k as int) =~= stitch.targets@);
        }
        res
    }
}

} // verus!
