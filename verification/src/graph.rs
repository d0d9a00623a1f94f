//! The insertion graph.
//!
//! A scheme is a list of threads. Each thread is a working-order
//! sequence of stitch instances; a stitch's "connection points" are its
//! `targets`, not a row/round relationship — rows and rounds are not
//! modelled here at all.
use vstd::prelude::*;

use crate::stitch::{CapacityStyle, StitchId};

verus! {

/// Which loop(s) of the target this stitch's hook insertion goes through.
/// Irrelevant for `ch` (no insertion at all).
#[derive(Debug, Clone, Copy, PartialEq, Eq, Structural)]
pub enum LoopTarget {
    Both,
    FrontOnly,
    BackOnly,
    FrontPost,
    BackPost,
}

impl Default for LoopTarget {
    fn default() -> (r: Self)
        ensures
            r == LoopTarget::Both,
    {
        LoopTarget::Both
    }
}

/// A reference to an earlier stitch instance, anywhere in the scheme.
/// Cross-thread refs (`thread` differing from the referencing stitch's
/// own thread) are the "crochet join" case.
#[derive(Debug, Clone, Copy, PartialEq, Eq, Hash, Structural)]
pub struct StitchRef {
    pub thread: usize,
    pub index: usize,
}

impl StitchRef {
    pub fn new(thread: usize, index: usize) -> (r: Self)
        ensures
            r.thread == thread,
            r.index == index,
    {
        StitchRef { thread, index }
    }
}

#[derive(Debug, Clone)]
pub struct StitchInstance {
    pub kind: StitchId,
    pub loop_target: LoopTarget,
    /// Insertion-target references: empty for `ch`, one for a plain
    /// stitch, shared with siblings for an increase, several for a
    /// decrease.
    pub targets: Vec<StitchRef>,
    /// Overrides the registry-default `CapacityStyle` for this stitch
    /// when it is used as another stitch's target. `None` means the
    /// registry default for `kind` applies.
    pub capacity_override: Option<CapacityStyle>,
}

impl StitchInstance {
    pub fn new(kind: StitchId, targets: Vec<StitchRef>) -> (r: Self)
        ensures
            r.kind == kind,
            r.loop_target == LoopTarget::Both,
            r.targets@ == targets@,
            r.capacity_override is None,
    {
        StitchInstance { kind, loop_target: LoopTarget::Both, targets, capacity_override: None }
    }

    pub fn with_loop_target(self, loop_target: LoopTarget) -> (r: Self)
        ensures
            r.kind == self.kind,
            r.loop_target == loop_target,
            r.targets@ == self.targets@,
            r.capacity_override == self.capacity_override,
    {
        let mut s = self;
        s.loop_target = loop_target;
        s
    }

    pub fn with_capacity_override(self, style: CapacityStyle) -> (r: Self)
        ensures
            r.kind == self.kind,
            r.loop_target == self.loop_target,
            r.targets@ == self.targets@,
            r.capacity_override == Some(style),
    {
        let mut s = self;
        s.capacity_override = Some(style);
        s
    }
}

#[derive(Debug, Clone)]
pub struct Thread {
    pub stitches: Vec<StitchInstance>,
}

impl Thread {
    pub fn new() -> (r: Self)
        ensures
            r.stitches@ == Seq::<StitchInstance>::empty(),
    {
        Thread { stitches: Vec::new() }
    }
}

impl Default for Thread {
    fn default() -> (r: Self)
        ensures
            r.stitches@ == Seq::<StitchInstance>::empty(),
    {
        Thread::new()
    }
}

/// Number of stitch instances held by a sequence of threads.
pub open spec fn stitches_in(threads: Seq<Thread>) -> nat
    decreases threads.len(),
{
    if threads.len() == 0 {
        0
    } else {
        stitches_in(threads.drop_last()) + threads.last().stitches@.len()
    }
}

/// The top-level object: a list of one or more threads.
#[derive(Debug, Clone)]
pub struct Scheme {
    pub threads: Vec<Thread>,
}

impl Scheme {
    /// Whether `r` names a stitch instance of this scheme.
    pub open spec fn contains_ref(&self, r: StitchRef) -> bool {
        &&& r.thread < self.threads@.len()
        &&& r.index < self.threads@[r.thread as int].stitches@.len()
    }

    /// The stitch instance `r` names (meaningful when `contains_ref(r)`).
    pub open spec fn stitch_at(&self, r: StitchRef) -> StitchInstance {
        self.threads@[r.thread as int].stitches@[r.index as int]
    }

    /// Total number of stitch instances across every thread.
    pub open spec fn stitch_count(&self) -> nat {
        stitches_in(self.threads@)
    }

    pub fn new() -> (r: Self)
        ensures
            r.threads@ == Seq::<Thread>::empty(),
    {
        Scheme { threads: Vec::new() }
    }

    /// Appends `thread` and returns its index.
    pub fn add_thread(&mut self, thread: Thread) -> (idx: usize)
        requires
            old(self).threads@.len() < usize::MAX,
        ensures
            final(self).threads@ == old(self).threads@.push(thread),
            idx == old(self).threads@.len(),
    {
        self.threads.push(thread);
        self.threads.len() - 1
    }

    pub fn get(&self, r: StitchRef) -> (res: Option<&StitchInstance>)
        ensures
            match res {
                Some(s) => self.contains_ref(r) && *s == self.stitch_at(r),
                None => !self.contains_ref(r),
            },
    {
        if r.thread < self.threads.len() {
            let thread = &self.threads[r.thread];
            if r.index < thread.stitches.len() {
                return Some(&thread.stitches[r.index]);
            }
        }
        None
    }

    /// Total stitch instances across every thread.
    pub fn total_stitch_count(&self) -> (n: usize)
        requires
            self.stitch_count() <= usize::MAX,
        ensures
            n == self.stitch_count(),
    {
        let mut sum: usize = 0;
        let mut i: usize = 0;
        proof {
            lemma_stitches_in_prefix_monotone(self.threads@, 0, self.threads@.len() as int);
        }
        while i < self.threads.len()
            invariant
                i <= self.threads@.len(),
                sum == stitches_in(self.threads@.take(i as int)),
                stitches_in(self.threads@) <= usize::MAX,
            decreases self.threads@.len() - i,
        {
            proof {
                assert(self.threads@.take(i + 1).drop_last() =~= self.threads@.take(i as int));
                lemma_stitches_in_prefix_monotone(
                    self.threads@,
                    i + 1,
                    self.threads@.len() as int,
                );
                assert(self.threads@.take(self.threads@.len() as int) =~= self.threads@);
            }
            sum = sum + self.threads[i].stitches.len();
            i = i + 1;
        }
        assert(self.threads@.take(i as int) =~= self.threads@);
        sum
    }
}

impl Default for Scheme {
    fn default() -> (r: Self)
        ensures
            r.threads@ == Seq::<Thread>::empty(),
    {
        Scheme::new()
    }
}

/// Counting the stitches of a longer prefix of threads never gives less.
pub proof fn lemma_stitches_in_prefix_monotone(threads: Seq<Thread>, a: int, b: int)
    requires
        0 <= a <= b <= threads.len(),
    ensures
        stitches_in(threads.take(a)) <= stitches_in(threads.take(b)),
    decreases b - a,
{
    if a < b {
        assert(threads.take(b).drop_last() =~= threads.take(b - 1));
        lemma_stitches_in_prefix_monotone(threads, a, b - 1);
    }
}

/// Adding a thread keeps every existing stitch reference valid and
/// pointing at the same stitch, makes the new thread's stitches
/// reachable under the new thread index, and adds exactly the new
/// thread's stitches to the total.
pub proof fn lemma_add_thread_keeps_references(before: Scheme, after: Scheme, thread: Thread, r: StitchRef)
    requires
        after.threads@ == before.threads@.push(thread),
    ensures
        before.contains_ref(r) ==> after.contains_ref(r) && after.stitch_at(r) == before.stitch_at(r),
        r.thread == before.threads@.len() && r.index < thread.stitches@.len() ==> after.contains_ref(r)
            && after.stitch_at(r) == thread.stitches@[r.index as int],
        after.contains_ref(r) ==> before.contains_ref(r) || r.thread == before.threads@.len(),
        after.stitch_count() == before.stitch_count() + thread.stitches@.len(),
{
    assert(after.threads@.drop_last() =~= before.threads@);
}

} // verus!
