//! The two demonstration schemes the browser viewer opens with.
use vstd::prelude::*;

use crate::graph::{LoopTarget, Scheme, StitchInstance, StitchRef, Thread};
use crate::stitch::{DC, MR};

verus! {

/// The stitch at `index` of the first thread.
pub fn ref_at(index: usize) -> (r: StitchRef)
    ensures
        r == (StitchRef { thread: 0, index }),
{
    StitchRef::new(0, index)
}

/// A magic ring followed by `count` dc all worked into it through both
/// loops, with no capacity override, as a one-thread scheme.
pub open spec fn is_ring_round(scheme: Scheme, count: nat) -> bool {
    let stitches = scheme.threads@[0].stitches@;
    &&& scheme.threads@.len() == 1
    &&& stitches.len() == count + 1
    &&& stitches[0].kind == MR
    &&& stitches[0].targets@.len() == 0
    &&& forall|i: int|
        1 <= i <= count ==> (#[trigger] stitches[i]).kind == DC && stitches[i].targets@ == seq![
            StitchRef { thread: 0, index: 0 },
        ]
    &&& forall|i: int| 0 <= i <= count ==> (#[trigger] stitches[i]).capacity_override is None
    &&& forall|i: int| 0 <= i <= count ==> (#[trigger] stitches[i]).loop_target == LoopTarget::Both
}

fn ring_round(count: usize) -> (scheme: Scheme)
    requires
        count < usize::MAX,
    ensures
        is_ring_round(scheme, count as nat),
{
    let mut thread = Thread::new();
    thread.stitches.push(StitchInstance::new(MR, vec![]));
    let mut i: usize = 0;
    while i < count
        invariant
            i <= count,
            thread.stitches@.len() == i + 1,
            thread.stitches@[0].kind == MR,
            thread.stitches@[0].targets@.len() == 0,
            forall|k: int|
                1 <= k <= i ==> (#[trigger] thread.stitches@[k]).kind == DC && thread.stitches@[k].targets@
                    == seq![StitchRef { thread: 0, index: 0 }],
            forall|k: int| 0 <= k <= i ==> (#[trigger] thread.stitches@[k]).capacity_override is None,
            forall|k: int| 0 <= k <= i ==> (#[trigger] thread.stitches@[k]).loop_target == LoopTarget::Both,
        decreases count - i,
    {
        let targets = vec![ref_at(0)];
        assert(targets@ =~= seq![StitchRef { thread: 0, index: 0 }]);
        thread.stitches.push(StitchInstance::new(DC, targets));
        i = i + 1;
    }
    let mut scheme = Scheme::new();
    scheme.add_thread(thread);
    scheme
}

/// Round 1 of a standard flat-circle start: a tightened magic ring with
/// 6 dc into it — the first round of the classic amigurumi opening.
pub fn build_flat_circle_scheme() -> (scheme: Scheme)
    ensures
        is_ring_round(scheme, 6),
{
    ring_round(6)
}

/// A deliberately overloaded ring: 15 dc crammed into one tightened
/// magic ring, well past comfortable capacity ("eleven won't fit").
pub fn build_overloaded_ring_scheme() -> (scheme: Scheme)
    ensures
        is_ring_round(scheme, 15),
{
    ring_round(15)
}

} // verus!
