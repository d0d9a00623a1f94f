use crochet_core::graph::{LoopTarget, Scheme, StitchInstance, StitchRef, Thread};
use crochet_core::stitch::{CapacityStyle, CH, DC};

#[test]
fn scheme_is_a_list_of_threads_not_a_singleton() {
    let scheme = Scheme::new();
    assert_eq!(scheme.threads.len(), 0);
}

#[test]
fn chain_instance_has_no_targets() {
    let ch = StitchInstance::new(CH, vec![]);
    assert!(ch.targets.is_empty());
}

#[test]
fn stitch_ref_can_point_across_threads() {
    let r = StitchRef::new(1, 3);
    assert_eq!(r.thread, 1);
    assert_eq!(r.index, 3);
}

#[test]
fn total_stitch_count_sums_across_threads() {
    let mut scheme = Scheme::new();
    let mut t0 = Thread::new();
    t0.stitches.push(StitchInstance::new(CH, vec![]));
    t0.stitches.push(StitchInstance::new(DC, vec![StitchRef::new(0, 0)]));
    scheme.add_thread(t0);
    assert_eq!(scheme.total_stitch_count(), 2);
}

#[test]
fn new_instance_defaults_to_both_loops_and_no_override() {
    let dc = StitchInstance::new(DC, vec![StitchRef::new(0, 2)]);
    assert_eq!(dc.kind, DC);
    assert_eq!(dc.loop_target, LoopTarget::Both);
    assert_eq!(dc.loop_target, LoopTarget::default());
    assert!(dc.capacity_override.is_none());
    assert_eq!(dc.targets, vec![StitchRef::new(0, 2)]);
}

#[test]
fn builders_change_only_their_own_field() {
    let dc = StitchInstance::new(DC, vec![StitchRef::new(0, 0)])
        .with_loop_target(LoopTarget::FrontPost)
        .with_capacity_override(CapacityStyle::Elastic);
    assert_eq!(dc.kind, DC);
    assert_eq!(dc.loop_target, LoopTarget::FrontPost);
    assert_eq!(dc.capacity_override, Some(CapacityStyle::Elastic));
    assert_eq!(dc.targets, vec![StitchRef::new(0, 0)]);
}

#[test]
fn add_thread_returns_the_new_thread_index() {
    let mut scheme = Scheme::new();
    assert_eq!(scheme.add_thread(Thread::new()), 0);
    assert_eq!(scheme.add_thread(Thread::default()), 1);
    assert_eq!(scheme.threads.len(), 2);
}

#[test]
fn get_resolves_references_across_threads_and_rejects_dangling_ones() {
    let mut scheme = Scheme::default();
    let mut t0 = Thread::new();
    t0.stitches.push(StitchInstance::new(CH, vec![]));
    scheme.add_thread(t0);
    let mut t1 = Thread::new();
    t1.stitches.push(StitchInstance::new(CH, vec![]));
    t1.stitches.push(StitchInstance::new(DC, vec![StitchRef::new(0, 0)]));
    scheme.add_thread(t1);

    assert_eq!(scheme.get(StitchRef::new(1, 1)).unwrap().kind, DC);
    assert_eq!(scheme.get(StitchRef::new(0, 0)).unwrap().kind, CH);
    assert!(scheme.get(StitchRef::new(0, 1)).is_none());
    assert!(scheme.get(StitchRef::new(2, 0)).is_none());
    assert_eq!(scheme.total_stitch_count(), 3);
}

#[test]
fn adding_a_thread_keeps_earlier_references_pointing_at_the_same_stitch() {
    let mut scheme = Scheme::new();
    let mut t0 = Thread::new();
    t0.stitches.push(StitchInstance::new(CH, vec![]));
    t0.stitches.push(StitchInstance::new(DC, vec![StitchRef::new(0, 0)]));
    scheme.add_thread(t0);
    let before = scheme.get(StitchRef::new(0, 1)).unwrap().clone();
    let count_before = scheme.total_stitch_count();

    let mut t1 = Thread::new();
    t1.stitches.push(StitchInstance::new(CH, vec![]));
    let idx = scheme.add_thread(t1);

    let after = scheme.get(StitchRef::new(0, 1)).unwrap();
    assert_eq!(after.kind, before.kind);
    assert_eq!(after.targets, before.targets);
    assert_eq!(scheme.get(StitchRef::new(idx, 0)).unwrap().kind, CH);
    assert_eq!(scheme.total_stitch_count(), count_before + 1);
}
