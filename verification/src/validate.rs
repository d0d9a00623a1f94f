//! Structural checks on a scheme: the programmatic equivalent of a
//! pattern's "(N sts)" stitch-count self-check.
use vstd::prelude::*;

use std::collections::HashSet;

use crate::graph::{Scheme, StitchRef};

verus! {

#[derive(Debug, Clone)]
pub struct RoundCountError {
    pub expected: usize,
    pub actual: usize,
    /// Any stitch in `new_round` whose target fell outside `previous_round`
    /// — i.e. it isn't actually built on the round it's claimed to be.
    pub stray_targets: Vec<StitchRef>,
}

/// The targets in `targets` that are not members of `round`, in order.
pub open spec fn targets_outside(targets: Seq<StitchRef>, round: Set<StitchRef>) -> Seq<StitchRef>
    decreases targets.len(),
{
    if targets.len() == 0 {
        Seq::empty()
    } else if round.contains(targets.last()) {
        targets_outside(targets.drop_last(), round)
    } else {
        targets_outside(targets.drop_last(), round).push(targets.last())
    }
}

/// Every target of every stitch of `new_round` that lies outside `round`,
/// in the order the stitches and their targets are listed.
pub open spec fn stray_targets(scheme: Scheme, round: Set<StitchRef>, new_round: Seq<StitchRef>) -> Seq<StitchRef>
    decreases new_round.len(),
{
    if new_round.len() == 0 {
        Seq::empty()
    } else {
        stray_targets(scheme, round, new_round.drop_last()) + targets_outside(
            scheme.stitch_at(new_round.last()).targets@,
            round,
        )
    }
}

proof fn lemma_outside_sound(targets: Seq<StitchRef>, round: Set<StitchRef>)
    ensures
        forall|k: int|
            0 <= k < targets_outside(targets, round).len() ==> !round.contains(
                #[trigger] targets_outside(targets, round)[k],
            ) && targets.contains(targets_outside(targets, round)[k]),
    decreases targets.len(),
{
    if targets.len() > 0 {
        lemma_outside_sound(targets.drop_last(), round);
        let rest = targets_outside(targets.drop_last(), round);
        assert forall|k: int| 0 <= k < rest.len() implies targets.contains(#[trigger] rest[k]) by {
            let i = choose|i: int| 0 <= i < targets.drop_last().len() && targets.drop_last()[i] == rest[k];
            assert(targets[i] == rest[k]);
        }
        assert(targets[targets.len() - 1] == targets.last());
    }
}

proof fn lemma_outside_complete(targets: Seq<StitchRef>, round: Set<StitchRef>, j: int)
    requires
        0 <= j < targets.len(),
        !round.contains(targets[j]),
    ensures
        targets_outside(targets, round).contains(targets[j]),
    decreases targets.len(),
{
    if j < targets.len() - 1 {
        assert(targets.drop_last()[j] == targets[j]);
        lemma_outside_complete(targets.drop_last(), round, j);
        let rest = targets_outside(targets.drop_last(), round);
        let k = choose|k: int| 0 <= k < rest.len() && rest[k] == targets[j];
        if !round.contains(targets.last()) {
            assert(targets_outside(targets, round)[k] == targets[j]);
        }
    } else {
        let out = targets_outside(targets, round);
        assert(out[out.len() - 1] == targets[j]);
    }
}

/// The stray targets `check_round` reports are exactly the targets of
/// the new round's stitches that lie outside the previous round: every
/// one reported is outside it and belongs to a new-round stitch, and
/// every such target is reported. In particular nothing is reported when
/// every target lies in the previous round.
pub proof fn lemma_strays_are_targets_outside_round(
    scheme: Scheme,
    round: Set<StitchRef>,
    new_round: Seq<StitchRef>,
    i: int,
    j: int,
)
    ensures
        forall|k: int|
            0 <= k < stray_targets(scheme, round, new_round).len() ==> !round.contains(
                #[trigger] stray_targets(scheme, round, new_round)[k],
            ) && exists|m: int|
                0 <= m < new_round.len() && scheme.stitch_at(new_round[m]).targets@.contains(
                    stray_targets(scheme, round, new_round)[k],
                ),
        0 <= i < new_round.len() && 0 <= j < scheme.stitch_at(new_round[i]).targets@.len() && !round.contains(
            scheme.stitch_at(new_round[i]).targets@[j],
        ) ==> stray_targets(scheme, round, new_round).contains(scheme.stitch_at(new_round[i]).targets@[j]),
        (forall|m: int, n: int|
            0 <= m < new_round.len() && 0 <= n < scheme.stitch_at(new_round[m]).targets@.len() ==> round.contains(
                #[trigger] scheme.stitch_at(new_round[m]).targets@[n],
            )) ==> stray_targets(scheme, round, new_round).len() == 0,
    decreases new_round.len(),
{
    if new_round.len() > 0 {
        let init = new_round.drop_last();
        lemma_strays_are_targets_outside_round(scheme, round, init, i, j);
        let rest = stray_targets(scheme, round, init);
        let last_targets = scheme.stitch_at(new_round.last()).targets@;
        let tail = targets_outside(last_targets, round);
        lemma_outside_sound(last_targets, round);
        let all = stray_targets(scheme, round, new_round);
        assert(all == rest + tail);
        assert forall|k: int| 0 <= k < all.len() implies !round.contains(#[trigger] all[k]) && exists|m: int|
            0 <= m < new_round.len() && scheme.stitch_at(new_round[m]).targets@.contains(all[k]) by {
            if k < rest.len() {
                assert(all[k] == rest[k]);
                let m = choose|m: int|
                    0 <= m < init.len() && scheme.stitch_at(init[m]).targets@.contains(rest[k]);
                assert(new_round[m] == init[m]);
            } else {
                assert(all[k] == tail[k - rest.len()]);
                assert(new_round[new_round.len() - 1] == new_round.last());
            }
        }
        if 0 <= i < new_round.len() && 0 <= j < scheme.stitch_at(new_round[i]).targets@.len() && !round.contains(
            scheme.stitch_at(new_round[i]).targets@[j],
        ) {
            let x = scheme.stitch_at(new_round[i]).targets@[j];
            if i < new_round.len() - 1 {
                assert(init[i] == new_round[i]);
                let k = choose|k: int| 0 <= k < rest.len() && rest[k] == x;
                assert(all[k] == x);
            } else {
                lemma_outside_complete(last_targets, round, j);
                let k = choose|k: int| 0 <= k < tail.len() && tail[k] == x;
                assert(all[rest.len() + k] == x);
            }
        }
        if forall|m: int, n: int|
            0 <= m < new_round.len() && 0 <= n < scheme.stitch_at(new_round[m]).targets@.len() ==> round.contains(
                #[trigger] scheme.stitch_at(new_round[m]).targets@[n],
            ) {
            assert forall|m: int, n: int|
                0 <= m < init.len() && 0 <= n < scheme.stitch_at(init[m]).targets@.len() implies round.contains(
                #[trigger] scheme.stitch_at(init[m]).targets@[n],
            ) by {
                assert(init[m] == new_round[m]);
            }
            if tail.len() > 0 {
                let y = tail[0];
                let n = choose|n: int| 0 <= n < last_targets.len() && last_targets[n] == y;
                assert(new_round[new_round.len() - 1] == new_round.last());
                assert(round.contains(scheme.stitch_at(new_round[new_round.len() - 1]).targets@[n]));
            }
        }
    }
}

/// Membership test on a set of stitch references.
///
/// Calls `std::collections::HashSet::contains`; the contract claims that
/// it answers whether `r` is an element of the set. `StitchRef`'s `Hash`
/// and `Eq` are both derived from its two integer fields, so equal
/// references hash alike and the claim is what the std documentation
/// promises for such a key.
#[verifier::external_body]
fn round_contains(round: &HashSet<StitchRef>, r: &StitchRef) -> (res: bool)
    ensures
        res == round@.contains(*r),
{
    round.contains(r)
}

/// Programmatic equivalent of a pattern's `(N sts)` self-check,
/// generalised for a model with no real row/round objects: the caller
/// names which stitches make up "the previous round" and "the new round"
/// explicitly, and this checks (a) the new round's stitch count matches
/// `expected`, and (b) every new stitch's target(s) actually lie in the
/// claimed previous round.
pub fn check_round(
    scheme: &Scheme,
    previous_round: &HashSet<StitchRef>,
    new_round: &[StitchRef],
    expected: usize,
) -> (res: Result<(), RoundCountError>)
    requires
        forall|k: int| 0 <= k < new_round@.len() ==> scheme.contains_ref(#[trigger] new_round@[k]),
    ensures
        res is Ok <==> (new_round@.len() == expected && stray_targets(
            *scheme,
            previous_round@,
            new_round@,
        ).len() == 0),
        res matches Err(e) ==> {
            &&& e.expected == expected
            &&& e.actual == new_round@.len()
            &&& e.stray_targets@ == stray_targets(*scheme, previous_round@, new_round@)
        },
{
    let ghost round = previous_round@;
    let mut strays: Vec<StitchRef> = Vec::new();
    let mut i: usize = 0;
    while i < new_round.len()
        invariant
            i <= new_round@.len(),
            round == previous_round@,
            forall|k: int| 0 <= k < new_round@.len() ==> scheme.contains_ref(#[trigger] new_round@[k]),
            strays@ == stray_targets(*scheme, round, new_round@.take(i as int)),
        decreases new_round@.len() - i,
    {
        let r = new_round[i];
        assert(scheme.contains_ref(new_round@[i as int]));
        let stitch = scheme.get(r).unwrap();
        let ghost before = strays@;
        let mut j: usize = 0;
        while j < stitch.targets.len()
            invariant
                j <= stitch.targets@.len(),
                round == previous_round@,
                strays@ == before + targets_outside(stitch.targets@.take(j as int), round),
            decreases stitch.targets@.len() - j,
        {
            let target = stitch.targets[j];
            proof {
                assert(stitch.targets@.take(j + 1).drop_last() =~= stitch.targets@.take(j as int));
                assert(stitch.targets@.take(j + 1).last() == target);
            }
            if !round_contains(previous_round, &target) {
                strays.push(target);
                proof {
                    assert(strays@ =~= before + targets_outside(
                        stitch.targets@.take(j + 1),
                        round,
                    ));
                }
            }
            j = j + 1;
        }
        proof {
            assert(stitch.targets@.take(j as int) =~= stitch.targets@);
            assert(new_round@.take(i + 1).drop_last() =~= new_round@.take(i as int));
            assert(new_round@.take(i + 1).last() == r);
        }
        i = i + 1;
    }
    proof {
        assert(new_round@.take(i as int) =~= new_round@);
    }
    if new_round.len() != expected || strays.len() != 0 {
        Err(RoundCountError { expected, actual: new_round.len(), stray_targets: strays })
    } else {
        Ok(())
    }
}

} // verus!
