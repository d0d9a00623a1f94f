//! The structural half of raw placement: everything placement decides
//! from the insertion graph alone, before any coordinate is computed.
//!
//! Siblings sharing a single target are arranged radially around it; how
//! far out, and whether excess siblings bulge into the third dimension,
//! comes from the target's `CapacityStyle` and from how many siblings
//! share it. A target must already be placed when it is referenced — it
//! must live earlier in the same thread, or in an earlier thread (the
//! forward-reference discipline a "crochet join" between threads needs).
use vstd::prelude::*;

use crate::graph::{Scheme, StitchInstance, StitchRef, Thread};
use crate::stitch::{str_equal, CapacityStyle, StitchDef, StitchId, StitchRegistry};

verus! {

#[derive(Debug, Clone, PartialEq)]
pub enum PlacementError {
    UnknownStitchKind(StitchId),
    TargetNotYetPlaced(StitchRef),
}

/// How a stitch's base is anchored, decided from its targets alone.
#[derive(Debug, Clone, Copy)]
pub enum Anchor {
    /// No target at all: the stitch continues from wherever the thread
    /// left off.
    Free,
    /// Exactly one target, shared by `sibling_total` stitches of the whole
    /// scheme; this stitch is the `sibling_index`-th of them in working
    /// order. `style` is how the target behaves under that load.
    Shared { target: StitchRef, style: CapacityStyle, sibling_index: usize, sibling_total: usize },
    /// Several targets (a decrease): the base is their average.
    Averaged,
}

/// Everything raw placement needs to know about one stitch before it
/// computes coordinates: the stitch's definition and how it is anchored.
#[derive(Debug, Clone, Copy)]
pub struct StitchPlan {
    pub def: StitchDef,
    pub anchor: Anchor,
}

/// Whether stitch `target` has been placed by the time the stitch at
/// (`thread`, `index`) is: it lies in an earlier thread, or earlier in
/// the same thread.
pub open spec fn placed_before(scheme: Scheme, target: StitchRef, thread: int, index: int) -> bool {
    &&& scheme.contains_ref(target)
    &&& (target.thread < thread || (target.thread == thread && target.index < index))
}

/// Position `j` holds the first of `targets` not yet placed.
pub open spec fn is_first_unplaced(
    scheme: Scheme,
    targets: Seq<StitchRef>,
    thread: int,
    index: int,
    j: int,
) -> bool {
    &&& 0 <= j < targets.len()
    &&& !placed_before(scheme, targets[j], thread, index)
    &&& forall|k: int| 0 <= k < j ==> placed_before(scheme, #[trigger] targets[k], thread, index)
}

/// Whether every one of `targets` is placed before (`thread`, `index`).
pub open spec fn all_placed(scheme: Scheme, targets: Seq<StitchRef>, thread: int, index: int) -> bool {
    forall|k: int| 0 <= k < targets.len() ==> placed_before(scheme, #[trigger] targets[k], thread, index)
}

/// What goes wrong placing the stitch `r`, if anything: an unregistered
/// kind is reported first; otherwise the first of its targets (in list
/// order) that is not placed yet.
pub open spec fn stitch_error(scheme: Scheme, registry: Map<Seq<char>, StitchDef>, r: StitchRef) -> Option<
    PlacementError,
> {
    let s = scheme.stitch_at(r);
    if !registry.contains_key(s.kind@) {
        Some(PlacementError::UnknownStitchKind(s.kind))
    } else if all_placed(scheme, s.targets@, r.thread as int, r.index as int) {
        None
    } else {
        let j = choose|j: int| is_first_unplaced(scheme, s.targets@, r.thread as int, r.index as int, j);
        Some(PlacementError::TargetNotYetPlaced(s.targets@[j]))
    }
}

/// Whether `r` comes before (`thread`, `index`) in working order.
pub open spec fn earlier_than(r: StitchRef, thread: int, index: int) -> bool {
    r.thread < thread || (r.thread == thread && r.index < index)
}

/// No stitch before (`thread`, `index`) in working order fails to place.
pub open spec fn placeable_before(
    scheme: Scheme,
    registry: Map<Seq<char>, StitchDef>,
    thread: int,
    index: int,
) -> bool {
    forall|r: StitchRef|
        scheme.contains_ref(r) && earlier_than(r, thread, index) ==> #[trigger] stitch_error(
            scheme,
            registry,
            r,
        ) is None
}

/// Whether the stitch has exactly one target, and it is `t`.
pub open spec fn single_on(s: StitchInstance, t: StitchRef) -> bool {
    s.targets@ == seq![t]
}

/// How many of `stitches` have `t` as their one and only target.
pub open spec fn count_single_in(stitches: Seq<StitchInstance>, t: StitchRef) -> nat
    decreases stitches.len(),
{
    if stitches.len() == 0 {
        0
    } else {
        count_single_in(stitches.drop_last(), t) + if single_on(stitches.last(), t) {
            1nat
        } else {
            0nat
        }
    }
}

/// How many stitches of `threads` have `t` as their one and only target.
pub open spec fn count_single_threads(threads: Seq<Thread>, t: StitchRef) -> nat
    decreases threads.len(),
{
    if threads.len() == 0 {
        0
    } else {
        count_single_threads(threads.drop_last(), t) + count_single_in(threads.last().stitches@, t)
    }
}

/// How many stitches of the whole scheme share `t` as their one target.
pub open spec fn sibling_total(scheme: Scheme, t: StitchRef) -> nat {
    count_single_threads(scheme.threads@, t)
}

/// How many stitches before (`thread`, `index`) in working order have
/// `t` as their one target.
pub open spec fn siblings_before(scheme: Scheme, t: StitchRef, thread: int, index: int) -> nat {
    count_single_threads(scheme.threads@.take(thread), t) + count_single_in(
        scheme.threads@[thread].stitches@.take(index),
        t,
    )
}

/// The capacity style a target behaves as: its own instance override if
/// set, else the registry default for its stitch kind.
pub open spec fn spec_capacity_style(
    scheme: Scheme,
    registry: Map<Seq<char>, StitchDef>,
    target: StitchRef,
) -> CapacityStyle {
    match scheme.stitch_at(target).capacity_override {
        Some(style) => style,
        None => registry[scheme.stitch_at(target).kind@].capacity_style,
    }
}

/// The plan placement makes for the stitch `r`.
pub open spec fn spec_stitch_plan(scheme: Scheme, registry: Map<Seq<char>, StitchDef>, r: StitchRef) -> StitchPlan {
    let s = scheme.stitch_at(r);
    StitchPlan {
        def: registry[s.kind@],
        anchor: if s.targets@.len() == 0 {
            Anchor::Free
        } else if s.targets@.len() == 1 {
            Anchor::Shared {
                target: s.targets@[0],
                style: spec_capacity_style(scheme, registry, s.targets@[0]),
                sibling_index: siblings_before(scheme, s.targets@[0], r.thread as int, r.index as int) as usize,
                sibling_total: sibling_total(scheme, s.targets@[0]) as usize,
            }
        } else {
            Anchor::Averaged
        },
    }
}

proof fn lemma_count_single_in_bound(stitches: Seq<StitchInstance>, t: StitchRef)
    ensures
        count_single_in(stitches, t) <= stitches.len(),
    decreases stitches.len(),
{
    if stitches.len() > 0 {
        lemma_count_single_in_bound(stitches.drop_last(), t);
    }
}

proof fn lemma_count_single_threads_bound(threads: Seq<Thread>, t: StitchRef)
    ensures
        count_single_threads(threads, t) <= crate::graph::stitches_in(threads),
    decreases threads.len(),
{
    if threads.len() > 0 {
        lemma_count_single_threads_bound(threads.drop_last(), t);
        lemma_count_single_in_bound(threads.last().stitches@, t);
    }
}

proof fn lemma_siblings_bound(scheme: Scheme, t: StitchRef, thread: int, index: int)
    requires
        0 <= thread < scheme.threads@.len(),
        0 <= index <= scheme.threads@[thread].stitches@.len(),
    ensures
        siblings_before(scheme, t, thread, index) <= scheme.stitch_count(),
        sibling_total(scheme, t) <= scheme.stitch_count(),
{
    let threads = scheme.threads@;
    lemma_count_single_threads_bound(threads.take(thread), t);
    lemma_count_single_threads_bound(threads, t);
    lemma_count_single_in_bound(threads[thread].stitches@.take(index), t);
    crate::graph::lemma_stitches_in_prefix_monotone(threads, thread, thread + 1);
    crate::graph::lemma_stitches_in_prefix_monotone(threads, thread + 1, threads.len() as int);
    assert(threads.take(thread + 1).drop_last() =~= threads.take(thread));
    assert(threads.take(threads.len() as int) =~= threads);
}

/// `counters` has one entry per stitch of `scheme`, thread by thread.
///
/// Per-stitch counts (siblings seen so far, siblings in total) are kept
/// in such tables, indexed by thread and position, rather than in a
/// `HashMap` keyed by `StitchRef`: vstd specifies `HashMap` only for key
/// types with `obeys_key_model`, which it establishes for `bool`, the
/// primitive integers and boxes of them, not for a struct key.
pub open spec fn counters_shaped(counters: Seq<Vec<usize>>, scheme: Scheme) -> bool {
    &&& counters.len() == scheme.threads@.len()
    &&& forall|a: int|
        0 <= a < counters.len() ==> #[trigger] counters[a]@.len() == scheme.threads@[a].stitches@.len()
}

/// The entry of `counters` for stitch `r`.
pub open spec fn counter_at(counters: Seq<Vec<usize>>, r: StitchRef) -> usize {
    counters[r.thread as int]@[r.index as int]
}

/// A table of zeros with one entry per stitch of `scheme`.
fn zero_counters(scheme: &Scheme) -> (counters: Vec<Vec<usize>>)
    ensures
        counters_shaped(counters@, *scheme),
        forall|r: StitchRef| scheme.contains_ref(r) ==> #[trigger] counter_at(counters@, r) == 0,
{
    let mut counters: Vec<Vec<usize>> = Vec::new();
    let mut a: usize = 0;
    while a < scheme.threads.len()
        invariant
            a <= scheme.threads@.len(),
            counters@.len() == a,
            forall|x: int| 0 <= x < a ==> #[trigger] counters@[x]@.len() == scheme.threads@[x].stitches@.len(),
            forall|x: int, y: int|
                0 <= x < a && 0 <= y < counters@[x]@.len() ==> #[trigger] counters@[x]@[y] == 0,
        decreases scheme.threads@.len() - a,
    {
        let n = scheme.threads[a].stitches.len();
        let mut row: Vec<usize> = Vec::new();
        let mut b: usize = 0;
        while b < n
            invariant
                b <= n,
                row@.len() == b,
                forall|y: int| 0 <= y < b ==> #[trigger] row@[y] == 0,
            decreases n - b,
        {
            row.push(0);
            b = b + 1;
        }
        counters.push(row);
        a = a + 1;
    }
    counters
}

/// Whether `target` is placed by the time the stitch at (`thread`,
/// `index`) is.
fn is_placed_before(scheme: &Scheme, target: StitchRef, thread: usize, index: usize) -> (res: bool)
    ensures
        res == placed_before(*scheme, target, thread as int, index as int),
{
    if target.thread >= scheme.threads.len() {
        return false;
    }
    if target.index >= scheme.threads[target.thread].stitches.len() {
        return false;
    }
    target.thread < thread || (target.thread == thread && target.index < index)
}

proof fn lemma_siblings_step(scheme: Scheme, t: StitchRef, a: int, b: int)
    requires
        0 <= a < scheme.threads@.len(),
        0 <= b < scheme.threads@[a].stitches@.len(),
    ensures
        siblings_before(scheme, t, a, b + 1) == siblings_before(scheme, t, a, b) + if single_on(
            scheme.threads@[a].stitches@[b],
            t,
        ) {
            1nat
        } else {
            0nat
        },
{
    let st = scheme.threads@[a].stitches@;
    assert(st.take(b + 1).drop_last() =~= st.take(b));
    assert(st.take(b + 1).last() == st[b]);
}

proof fn lemma_siblings_next_thread(scheme: Scheme, t: StitchRef, a: int)
    requires
        0 <= a < scheme.threads@.len(),
    ensures
        siblings_before(scheme, t, a + 1, 0) == siblings_before(
            scheme,
            t,
            a,
            scheme.threads@[a].stitches@.len() as int,
        ),
{
    let th = scheme.threads@;
    assert(th.take(a + 1).drop_last() =~= th.take(a));
    assert(th.take(a + 1).last() == th[a]);
    assert(th[a].stitches@.take(th[a].stitches@.len() as int) =~= th[a].stitches@);
    assert(th[a + 1].stitches@.take(0).len() == 0);
}

/// How many stitches of the whole scheme share each stitch as their one
/// and only target, as a table shaped like the scheme.
fn sibling_totals(scheme: &Scheme) -> (totals: Vec<Vec<usize>>)
    requires
        scheme.stitch_count() <= usize::MAX,
    ensures
        counters_shaped(totals@, *scheme),
        forall|r: StitchRef| scheme.contains_ref(r) ==> #[trigger] counter_at(totals@, r) == sibling_total(*scheme, r),
{
    let mut totals = zero_counters(scheme);
    let mut a: usize = 0;
    while a < scheme.threads.len()
        invariant
            a <= scheme.threads@.len(),
            scheme.stitch_count() <= usize::MAX,
            counters_shaped(totals@, *scheme),
            forall|r: StitchRef|
                scheme.contains_ref(r) ==> #[trigger] counter_at(totals@, r) == siblings_before(
                    *scheme,
                    r,
                    a as int,
                    0,
                ),
        decreases scheme.threads@.len() - a,
    {
        let thread = &scheme.threads[a];
        let mut b: usize = 0;
        while b < thread.stitches.len()
            invariant
                a < scheme.threads@.len(),
                *thread == scheme.threads@[a as int],
                b <= thread.stitches@.len(),
                scheme.stitch_count() <= usize::MAX,
                counters_shaped(totals@, *scheme),
                forall|r: StitchRef|
                    scheme.contains_ref(r) ==> #[trigger] counter_at(totals@, r) == siblings_before(
                        *scheme,
                        r,
                        a as int,
                        b as int,
                    ),
            decreases thread.stitches@.len() - b,
        {
            let s = &thread.stitches[b];
            let ghost old_totals = totals@;
            if s.targets.len() == 1 {
                let t = s.targets[0];
                if t.thread < scheme.threads.len() && t.index < scheme.threads[t.thread].stitches.len() {
                    proof {
                        assert(scheme.contains_ref(t));
                        lemma_siblings_step(*scheme, t, a as int, b as int);
                        assert(single_on(*s, t)) by {
                            assert(s.targets@ =~= seq![t]);
                        }
                        lemma_siblings_bound(*scheme, t, a as int, b + 1);
                        assert(counter_at(totals@, t) == siblings_before(*scheme, t, a as int, b as int));
                    }
                    let v = totals[t.thread][t.index];
                    totals[t.thread][t.index] = v + 1;
                }
            }
            proof {
                assert forall|r: StitchRef| scheme.contains_ref(r) implies #[trigger] counter_at(totals@, r)
                    == siblings_before(*scheme, r, a as int, b + 1) by {
                    lemma_siblings_step(*scheme, r, a as int, b as int);
                    assert(counter_at(old_totals, r) == siblings_before(*scheme, r, a as int, b as int));
                    if single_on(*s, r) {
                        assert(s.targets@.len() == 1 && s.targets@[0] == r);
                    }
                }
            }
            b = b + 1;
        }
        proof {
            assert forall|r: StitchRef| scheme.contains_ref(r) implies #[trigger] counter_at(totals@, r)
                == siblings_before(*scheme, r, a + 1, 0) by {
                lemma_siblings_next_thread(*scheme, r, a as int);
            }
        }
        a = a + 1;
    }
    proof {
        assert forall|r: StitchRef| scheme.contains_ref(r) implies #[trigger] counter_at(totals@, r)
            == sibling_total(*scheme, r) by {
            assert(scheme.threads@.take(scheme.threads@.len() as int) =~= scheme.threads@);
        }
    }
    totals
}

/// The `CapacityStyle` a specific target behaves as: its own instance
/// override (e.g. a magic ring deliberately left open) if set, else the
/// registry default for its stitch kind.
pub fn target_capacity_style(scheme: &Scheme, registry: &StitchRegistry, target: StitchRef) -> (res: Result<
    CapacityStyle,
    PlacementError,
>)
    requires
        scheme.contains_ref(target),
    ensures
        scheme.stitch_at(target).capacity_override is None && !registry@.contains_key(
            scheme.stitch_at(target).kind@,
        ) ==> res == Err::<CapacityStyle, PlacementError>(
            PlacementError::UnknownStitchKind(scheme.stitch_at(target).kind),
        ),
        scheme.stitch_at(target).capacity_override is Some || registry@.contains_key(
            scheme.stitch_at(target).kind@,
        ) ==> res == Ok::<CapacityStyle, PlacementError>(spec_capacity_style(*scheme, registry@, target)),
{
    let target_instance = scheme.get(target).unwrap();
    if let Some(style) = target_instance.capacity_override {
        return Ok(style);
    }
    match registry.get(target_instance.kind) {
        Some(def) => Ok(def.capacity_style),
        None => Err(PlacementError::UnknownStitchKind(target_instance.kind)),
    }
}

/// The position of the first of `targets` not placed before (`thread`,
/// `index`), if any.
fn first_unplaced(scheme: &Scheme, targets: &Vec<StitchRef>, thread: usize, index: usize) -> (res: Option<usize>)
    ensures
        match res {
            Some(j) => is_first_unplaced(*scheme, targets@, thread as int, index as int, j as int),
            None => all_placed(*scheme, targets@, thread as int, index as int),
        },
{
    let mut j: usize = 0;
    while j < targets.len()
        invariant
            j <= targets@.len(),
            forall|k: int| 0 <= k < j ==> placed_before(*scheme, #[trigger] targets@[k], thread as int, index as int),
        decreases targets@.len() - j,
    {
        if !is_placed_before(scheme, targets[j], thread, index) {
            return Some(j);
        }
        j = j + 1;
    }
    None
}

/// Only one position can be the first unplaced one.
proof fn lemma_first_unplaced_unique(scheme: Scheme, targets: Seq<StitchRef>, thread: int, index: int, j: int)
    requires
        is_first_unplaced(scheme, targets, thread, index, j),
    ensures
        (choose|w: int| is_first_unplaced(scheme, targets, thread, index, w)) == j,
{
    let w = choose|w: int| is_first_unplaced(scheme, targets, thread, index, w);
    if w < j {
        assert(placed_before(scheme, targets[w], thread, index));
    }
    if w > j {
        assert(placed_before(scheme, targets[j], thread, index));
    }
}

proof fn lemma_count_single_in_prefix_monotone(stitches: Seq<StitchInstance>, t: StitchRef, b1: int, b2: int)
    requires
        0 <= b1 <= b2 <= stitches.len(),
    ensures
        count_single_in(stitches.take(b1), t) <= count_single_in(stitches.take(b2), t),
    decreases b2 - b1,
{
    if b1 < b2 {
        assert(stitches.take(b2).drop_last() =~= stitches.take(b2 - 1));
        lemma_count_single_in_prefix_monotone(stitches, t, b1, b2 - 1);
    }
}

proof fn lemma_count_single_threads_prefix_monotone(threads: Seq<Thread>, t: StitchRef, a1: int, a2: int)
    requires
        0 <= a1 <= a2 <= threads.len(),
    ensures
        count_single_threads(threads.take(a1), t) <= count_single_threads(threads.take(a2), t),
    decreases a2 - a1,
{
    if a1 < a2 {
        assert(threads.take(a2).drop_last() =~= threads.take(a2 - 1));
        lemma_count_single_threads_prefix_monotone(threads, t, a1, a2 - 1);
    }
}

/// Counting siblings over a longer working-order prefix never gives less,
/// and never more than the whole scheme holds.
proof fn lemma_siblings_monotone(scheme: Scheme, t: StitchRef, a1: int, b1: int, a2: int, b2: int)
    requires
        0 <= a1 < scheme.threads@.len(),
        0 <= a2 < scheme.threads@.len(),
        0 <= b1 <= scheme.threads@[a1].stitches@.len(),
        0 <= b2 <= scheme.threads@[a2].stitches@.len(),
        a1 < a2 || (a1 == a2 && b1 <= b2),
    ensures
        siblings_before(scheme, t, a1, b1) <= siblings_before(scheme, t, a2, b2),
        siblings_before(scheme, t, a2, b2) <= sibling_total(scheme, t),
{
    let th = scheme.threads@;
    let n1 = th[a1].stitches@.len() as int;
    let n2 = th[a2].stitches@.len() as int;
    lemma_count_single_in_prefix_monotone(th[a2].stitches@, t, b2, n2);
    assert(th[a2].stitches@.take(n2) =~= th[a2].stitches@);
    assert(th.take(a2 + 1).drop_last() =~= th.take(a2));
    lemma_count_single_threads_prefix_monotone(th, t, a2 + 1, th.len() as int);
    assert(th.take(th.len() as int) =~= th);
    if a1 == a2 {
        lemma_count_single_in_prefix_monotone(th[a1].stitches@, t, b1, b2);
    } else {
        lemma_count_single_in_prefix_monotone(th[a1].stitches@, t, b1, n1);
        assert(th[a1].stitches@.take(n1) =~= th[a1].stitches@);
        assert(th.take(a1 + 1).drop_last() =~= th.take(a1));
        lemma_count_single_threads_prefix_monotone(th, t, a1 + 1, a2);
    }
}

/// Siblings sharing one target are numbered apart: each gets an index
/// below the number of siblings, a later sibling always gets a larger
/// index than an earlier one, and the first one gets index 0.
pub proof fn lemma_sibling_indices_distinct(scheme: Scheme, t: StitchRef, x: StitchRef, y: StitchRef)
    requires
        scheme.contains_ref(x),
        scheme.contains_ref(y),
        single_on(scheme.stitch_at(x), t),
        single_on(scheme.stitch_at(y), t),
        earlier_than(x, y.thread as int, y.index as int),
    ensures
        siblings_before(scheme, t, x.thread as int, x.index as int) < siblings_before(
            scheme,
            t,
            y.thread as int,
            y.index as int,
        ),
        siblings_before(scheme, t, y.thread as int, y.index as int) < sibling_total(scheme, t),
{
    lemma_siblings_step(scheme, t, x.thread as int, x.index as int);
    lemma_siblings_step(scheme, t, y.thread as int, y.index as int);
    lemma_siblings_monotone(
        scheme,
        t,
        x.thread as int,
        x.index + 1,
        y.thread as int,
        y.index as int,
    );
    lemma_siblings_monotone(
        scheme,
        t,
        y.thread as int,
        y.index + 1,
        y.thread as int,
        y.index + 1,
    );
}

/// The first stitch, in working order, to take `t` as its one target
/// gets sibling index 0.
pub proof fn lemma_first_sibling_index_zero(scheme: Scheme, t: StitchRef, x: StitchRef)
    requires
        scheme.contains_ref(x),
        single_on(scheme.stitch_at(x), t),
        forall|w: StitchRef|
            scheme.contains_ref(w) && earlier_than(w, x.thread as int, x.index as int) ==> !single_on(
                #[trigger] scheme.stitch_at(w),
                t,
            ),
    ensures
        siblings_before(scheme, t, x.thread as int, x.index as int) == 0,
{
    let th = scheme.threads@;
    assert forall|a: int, b: int|
        0 <= a <= x.thread && 0 <= b <= (if a == x.thread { x.index as int } else { th[a].stitches@.len() as int })
        implies count_single_in(#[trigger] th[a].stitches@.take(b), t) == 0 by {
        lemma_count_zero_prefix(scheme, t, x, a, b);
    }
    lemma_count_threads_zero_prefix(scheme, t, x, x.thread as int);
}

proof fn lemma_count_zero_prefix(scheme: Scheme, t: StitchRef, x: StitchRef, a: int, b: int)
    requires
        scheme.contains_ref(x),
        0 <= a <= x.thread,
        0 <= b <= (if a == x.thread { x.index as int } else { scheme.threads@[a].stitches@.len() as int }),
        forall|w: StitchRef|
            scheme.contains_ref(w) && earlier_than(w, x.thread as int, x.index as int) ==> !single_on(
                #[trigger] scheme.stitch_at(w),
                t,
            ),
    ensures
        count_single_in(scheme.threads@[a].stitches@.take(b), t) == 0,
    decreases b,
{
    let st = scheme.threads@[a].stitches@;
    if b > 0 {
        assert(st.take(b).drop_last() =~= st.take(b - 1));
        lemma_count_zero_prefix(scheme, t, x, a, b - 1);
        assert(scheme.threads@[a].stitches.len() == st.len());
        let w = StitchRef { thread: a as usize, index: (b - 1) as usize };
        assert(scheme.contains_ref(w) && earlier_than(w, x.thread as int, x.index as int));
        assert(scheme.stitch_at(w) == st[b - 1]);
        assert(st.take(b).last() == st[b - 1]);
        assert(!single_on(scheme.stitch_at(w), t));
    }
}

proof fn lemma_count_threads_zero_prefix(scheme: Scheme, t: StitchRef, x: StitchRef, a: int)
    requires
        scheme.contains_ref(x),
        0 <= a <= x.thread,
        forall|w: StitchRef|
            scheme.contains_ref(w) && earlier_than(w, x.thread as int, x.index as int) ==> !single_on(
                #[trigger] scheme.stitch_at(w),
                t,
            ),
    ensures
        count_single_threads(scheme.threads@.take(a), t) == 0,
    decreases a,
{
    let th = scheme.threads@;
    if a > 0 {
        assert(th.take(a).drop_last() =~= th.take(a - 1));
        lemma_count_threads_zero_prefix(scheme, t, x, a - 1);
        let n = th[a - 1].stitches@.len() as int;
        lemma_count_zero_prefix(scheme, t, x, a - 1, n);
        assert(th[a - 1].stitches@.take(n) =~= th[a - 1].stitches@);
    }
}

/// The plans of every stitch before (`thread`, `index`) in working
/// order, as held in `done` (finished threads) and `current` (the thread
/// being planned).
pub open spec fn plans_so_far(
    scheme: Scheme,
    registry: Map<Seq<char>, StitchDef>,
    done: Seq<Vec<StitchPlan>>,
    current: Seq<StitchPlan>,
    thread: int,
    index: int,
) -> bool {
    &&& done.len() == thread
    &&& forall|x: int| 0 <= x < thread ==> #[trigger] done[x]@.len() == scheme.threads@[x].stitches@.len()
    &&& forall|r: StitchRef|
        scheme.contains_ref(r) && r.thread < thread ==> done[r.thread as int]@[r.index as int]
            == #[trigger] spec_stitch_plan(scheme, registry, r)
    &&& current.len() == index
    &&& forall|r: StitchRef|
        r.thread == thread && r.index < index ==> current[r.index as int] == #[trigger] spec_stitch_plan(
            scheme,
            registry,
            r,
        )
}

/// Plans the placement of every stitch of `scheme` in working order:
/// each stitch's definition, and — for a stitch with exactly one target
/// — how many stitches of the whole scheme share that target, which of
/// them this one is, and how the target behaves under that load.
///
/// Fails on the first stitch, in working order, whose kind is not
/// registered or that references a target not placed before it; the
/// error names that kind, or the first such target in the stitch's list.
pub fn plan_placement(scheme: &Scheme, registry: &StitchRegistry) -> (res: Result<
    Vec<Vec<StitchPlan>>,
    PlacementError,
>)
    requires
        scheme.stitch_count() <= usize::MAX,
    ensures
        res is Ok <==> forall|r: StitchRef|
            scheme.contains_ref(r) ==> #[trigger] stitch_error(*scheme, registry@, r) is None,
        res matches Err(e) ==> exists|r: StitchRef|
            #![trigger stitch_error(*scheme, registry@, r)]
            {
                &&& scheme.contains_ref(r)
                &&& placeable_before(*scheme, registry@, r.thread as int, r.index as int)
                &&& stitch_error(*scheme, registry@, r) == Some(e)
            },
        res matches Ok(plans) ==> {
            &&& plans@.len() == scheme.threads@.len()
            &&& forall|a: int|
                0 <= a < plans@.len() ==> #[trigger] plans@[a]@.len() == scheme.threads@[a].stitches@.len()
            &&& forall|r: StitchRef|
                scheme.contains_ref(r) ==> plans@[r.thread as int]@[r.index as int]
                    == #[trigger] spec_stitch_plan(*scheme, registry@, r)
        },
{
    let totals = sibling_totals(scheme);
    let mut seen = zero_counters(scheme);
    let mut done: Vec<Vec<StitchPlan>> = Vec::new();
    let mut a: usize = 0;
    while a < scheme.threads.len()
        invariant
            a <= scheme.threads@.len(),
            scheme.stitch_count() <= usize::MAX,
            counters_shaped(totals@, *scheme),
            forall|r: StitchRef| scheme.contains_ref(r) ==> #[trigger] counter_at(totals@, r) == sibling_total(*scheme, r),
            counters_shaped(seen@, *scheme),
            forall|r: StitchRef|
                scheme.contains_ref(r) ==> #[trigger] counter_at(seen@, r) == siblings_before(
                    *scheme,
                    r,
                    a as int,
                    0,
                ),
            placeable_before(*scheme, registry@, a as int, 0),
            plans_so_far(*scheme, registry@, done@, Seq::empty(), a as int, 0),
        decreases scheme.threads@.len() - a,
    {
        let thread = &scheme.threads[a];
        let mut current: Vec<StitchPlan> = Vec::new();
        let mut b: usize = 0;
        while b < thread.stitches.len()
            invariant
                a < scheme.threads@.len(),
                *thread == scheme.threads@[a as int],
                b <= thread.stitches@.len(),
                scheme.stitch_count() <= usize::MAX,
                counters_shaped(totals@, *scheme),
                forall|r: StitchRef| scheme.contains_ref(r) ==> #[trigger] counter_at(totals@, r) == sibling_total(*scheme, r),
                counters_shaped(seen@, *scheme),
                forall|r: StitchRef|
                    scheme.contains_ref(r) ==> #[trigger] counter_at(seen@, r) == siblings_before(
                        *scheme,
                        r,
                        a as int,
                        b as int,
                    ),
                placeable_before(*scheme, registry@, a as int, b as int),
                plans_so_far(*scheme, registry@, done@, current@, a as int, b as int),
            decreases thread.stitches@.len() - b,
        {
            let s = &thread.stitches[b];
            let ghost here = StitchRef { thread: a, index: b };
            let ghost old_seen = seen@;
            assert(scheme.contains_ref(here));
            assert(*s == scheme.stitch_at(here));
            let def = match registry.get(s.kind) {
                Some(d) => *d,
                None => {
                    assert(stitch_error(*scheme, registry@, here) == Some(
                        PlacementError::UnknownStitchKind(s.kind),
                    ));
                    return Err(PlacementError::UnknownStitchKind(s.kind));
                },
            };
            let n = s.targets.len();
            match first_unplaced(scheme, &s.targets, a, b) {
                Some(j) => {
                    proof {
                        lemma_first_unplaced_unique(*scheme, s.targets@, a as int, b as int, j as int);
                        assert(stitch_error(*scheme, registry@, here) == Some(
                            PlacementError::TargetNotYetPlaced(s.targets@[j as int]),
                        ));
                    }
                    return Err(PlacementError::TargetNotYetPlaced(s.targets[j]));
                },
                None => {},
            }
            let anchor = if n == 0 {
                Anchor::Free
            } else if n == 1 {
                let t = s.targets[0];
                proof {
                    assert(placed_before(*scheme, s.targets@[0], a as int, b as int));
                    assert(earlier_than(t, a as int, b as int));
                    assert(stitch_error(*scheme, registry@, t) is None);
                    lemma_siblings_step(*scheme, t, a as int, b as int);
                    assert(single_on(*s, t)) by {
                        assert(s.targets@ =~= seq![t]);
                    }
                    lemma_siblings_bound(*scheme, t, a as int, b + 1);
                    assert(counter_at(seen@, t) == siblings_before(*scheme, t, a as int, b as int));
                    assert(counter_at(totals@, t) == sibling_total(*scheme, t));
                }
                let style = match target_capacity_style(scheme, registry, t) {
                    Ok(style) => style,
                    Err(e) => {
                        assert(false);
                        return Err(e);
                    },
                };
                let idx = seen[t.thread][t.index];
                seen[t.thread][t.index] = idx + 1;
                Anchor::Shared {
                    target: t,
                    style,
                    sibling_index: idx,
                    sibling_total: totals[t.thread][t.index],
                }
            } else {
                Anchor::Averaged
            };
            let plan = StitchPlan { def, anchor };
            proof {
                assert(stitch_error(*scheme, registry@, here) is None);
                assert(plan == spec_stitch_plan(*scheme, registry@, here));
                assert forall|r: StitchRef|
                    scheme.contains_ref(r) && earlier_than(r, a as int, b + 1) implies #[trigger] stitch_error(
                        *scheme,
                        registry@,
                        r,
                    ) is None by {
                    if r != here {
                        assert(earlier_than(r, a as int, b as int));
                    }
                }
                assert forall|r: StitchRef| scheme.contains_ref(r) implies #[trigger] counter_at(seen@, r)
                    == siblings_before(*scheme, r, a as int, b + 1) by {
                    lemma_siblings_step(*scheme, r, a as int, b as int);
                    assert(counter_at(old_seen, r) == siblings_before(*scheme, r, a as int, b as int));
                    if single_on(*s, r) {
                        assert(s.targets@.len() == 1 && s.targets@[0] == r);
                    }
                }
            }
            current.push(plan);
            b = b + 1;
        }
        proof {
            assert forall|r: StitchRef| scheme.contains_ref(r) implies #[trigger] counter_at(seen@, r)
                == siblings_before(*scheme, r, a + 1, 0) by {
                lemma_siblings_next_thread(*scheme, r, a as int);
            }
            assert forall|r: StitchRef|
                scheme.contains_ref(r) && earlier_than(r, a + 1, 0) implies #[trigger] stitch_error(
                    *scheme,
                    registry@,
                    r,
                ) is None by {
                assert(earlier_than(r, a as int, b as int));
            }
        }
        let ghost finished = current@;
        done.push(current);
        proof {
            assert(done@[a as int]@ == finished);
            assert forall|r: StitchRef| scheme.contains_ref(r) && r.thread < a + 1 implies done@[r.thread as int]@[r.index as int]
                == #[trigger] spec_stitch_plan(*scheme, registry@, r) by {
                if r.thread == a {
                    assert(finished[r.index as int] == spec_stitch_plan(*scheme, registry@, r));
                }
            }
        }
        a = a + 1;
    }
    proof {
        assert forall|r: StitchRef| scheme.contains_ref(r) implies #[trigger] stitch_error(
            *scheme,
            registry@,
            r,
        ) is None by {
            assert(earlier_than(r, a as int, 0));
        }
    }
    Ok(done)
}

} // verus!
