use crochet_core::geometry::{
    plan_placement, target_capacity_style, Anchor, PlacementError, StitchPlan,
};
use crochet_core::graph::{LoopTarget, Scheme, StitchInstance, StitchRef, Thread};
use crochet_core::stitch::{CapacityStyle, StitchId, StitchRegistry, CH, DC, DTR, MR, TR};

fn ref_at(index: usize) -> StitchRef {
    StitchRef::new(0, index)
}

fn one_thread(stitches: Vec<StitchInstance>) -> Scheme {
    let mut thread = Thread::new();
    thread.stitches = stitches;
    let mut scheme = Scheme::new();
    scheme.add_thread(thread);
    scheme
}

fn shared(plan: &StitchPlan) -> (StitchRef, CapacityStyle, usize, usize) {
    match plan.anchor {
        Anchor::Shared {
            target,
            style,
            sibling_index,
            sibling_total,
        } => (target, style, sibling_index, sibling_total),
        other => panic!("expected a shared anchor, got {:?}", other),
    }
}

#[test]
fn plan_numbers_siblings_sharing_a_target_in_working_order() {
    let registry = StitchRegistry::with_uk_basics();
    let mut stitches = vec![StitchInstance::new(MR, vec![])];
    for _ in 0..6 {
        stitches.push(StitchInstance::new(DC, vec![ref_at(0)]));
    }
    let scheme = one_thread(stitches);
    let plans = plan_placement(&scheme, &registry).unwrap();
    assert_eq!(plans.len(), 1);
    assert_eq!(plans[0].len(), 7);
    assert!(matches!(plans[0][0].anchor, Anchor::Free));
    assert_eq!(plans[0][0].def.id, MR);
    for i in 1..=6 {
        let (target, style, index, total) = shared(&plans[0][i]);
        assert_eq!(target, ref_at(0));
        assert_eq!(style, CapacityStyle::TightenedRing);
        assert_eq!(index, i - 1);
        assert_eq!(total, 6);
        assert_eq!(plans[0][i].def.id, DC);
    }
}

#[test]
fn plan_counts_siblings_across_the_whole_scheme_before_placing_the_first() {
    let registry = StitchRegistry::with_uk_basics();
    let mut t0 = Thread::new();
    t0.stitches.push(StitchInstance::new(CH, vec![]));
    t0.stitches.push(StitchInstance::new(DC, vec![ref_at(0)]));
    let mut t1 = Thread::new();
    t1.stitches.push(StitchInstance::new(DC, vec![ref_at(0)]));
    t1.stitches.push(StitchInstance::new(TR, vec![ref_at(0)]));
    let mut scheme = Scheme::new();
    scheme.add_thread(t0);
    scheme.add_thread(t1);
    let plans = plan_placement(&scheme, &registry).unwrap();
    assert_eq!(shared(&plans[0][1]), (ref_at(0), CapacityStyle::Elastic, 0, 3));
    assert_eq!(shared(&plans[1][0]), (ref_at(0), CapacityStyle::Elastic, 1, 3));
    assert_eq!(shared(&plans[1][1]), (ref_at(0), CapacityStyle::Elastic, 2, 3));
}

#[test]
fn plan_rejects_an_unplaced_forward_target() {
    let registry = StitchRegistry::with_uk_basics();
    let scheme = one_thread(vec![
        StitchInstance::new(DC, vec![ref_at(1)]),
        StitchInstance::new(CH, vec![]),
    ]);
    let result = plan_placement(&scheme, &registry);
    assert!(matches!(result, Err(PlacementError::TargetNotYetPlaced(_))));
    assert_eq!(result.unwrap_err(), PlacementError::TargetNotYetPlaced(ref_at(1)));
}

#[test]
fn plan_reports_an_unknown_kind_before_its_targets() {
    let registry = StitchRegistry::with_uk_basics();
    let scheme = one_thread(vec![
        StitchInstance::new(CH, vec![]),
        StitchInstance::new(StitchId("bobble"), vec![ref_at(5)]),
    ]);
    assert_eq!(
        plan_placement(&scheme, &registry).unwrap_err(),
        PlacementError::UnknownStitchKind("bobble")
    );
}

#[test]
fn plan_reports_the_first_unplaced_target_of_a_decrease() {
    let registry = StitchRegistry::with_uk_basics();
    let scheme = one_thread(vec![
        StitchInstance::new(CH, vec![]),
        StitchInstance::new(DC, vec![ref_at(0), ref_at(4), ref_at(3)]),
        StitchInstance::new(CH, vec![]),
        StitchInstance::new(CH, vec![]),
        StitchInstance::new(CH, vec![]),
    ]);
    assert_eq!(
        plan_placement(&scheme, &registry).unwrap_err(),
        PlacementError::TargetNotYetPlaced(ref_at(4))
    );
}

#[test]
fn plan_reports_the_earliest_failing_stitch() {
    let registry = StitchRegistry::with_uk_basics();
    let scheme = one_thread(vec![
        StitchInstance::new(CH, vec![]),
        StitchInstance::new(DC, vec![StitchRef::new(3, 0)]),
        StitchInstance::new(StitchId("bobble"), vec![]),
    ]);
    assert_eq!(
        plan_placement(&scheme, &registry).unwrap_err(),
        PlacementError::TargetNotYetPlaced(StitchRef::new(3, 0))
    );
}

#[test]
fn plan_accepts_spike_and_freeform_targets_and_cross_thread_joins() {
    let registry = StitchRegistry::with_uk_basics();
    let mut t0 = Thread::new();
    t0.stitches
        .push(StitchInstance::new(CH, vec![]).with_loop_target(LoopTarget::Both)); // 0
    t0.stitches.push(StitchInstance::new(TR, vec![ref_at(0)])); // 1
    t0.stitches.push(StitchInstance::new(DC, vec![ref_at(0)])); // 2
    t0.stitches.push(StitchInstance::new(DTR, vec![ref_at(1)])); // 3
    t0.stitches
        .push(StitchInstance::new(DC, vec![ref_at(2), ref_at(1)])); // 4: cross-link
    let mut t1 = Thread::new();
    t1.stitches.push(StitchInstance::new(DC, vec![ref_at(4)])); // joins thread 0
    let mut scheme = Scheme::new();
    scheme.add_thread(t0);
    scheme.add_thread(t1);
    let plans = plan_placement(&scheme, &registry).unwrap();
    assert_eq!(plans[0].len(), 5);
    assert!(matches!(plans[0][4].anchor, Anchor::Averaged));
    assert_eq!(shared(&plans[1][0]), (ref_at(4), CapacityStyle::Fixed, 0, 1));
}

#[test]
fn plan_rejects_a_reference_to_a_later_thread() {
    let registry = StitchRegistry::with_uk_basics();
    let mut t0 = Thread::new();
    t0.stitches.push(StitchInstance::new(CH, vec![]));
    t0.stitches
        .push(StitchInstance::new(DC, vec![StitchRef::new(1, 0)]));
    let mut t1 = Thread::new();
    t1.stitches.push(StitchInstance::new(CH, vec![]));
    let mut scheme = Scheme::new();
    scheme.add_thread(t0);
    scheme.add_thread(t1);
    assert_eq!(
        plan_placement(&scheme, &registry).unwrap_err(),
        PlacementError::TargetNotYetPlaced(StitchRef::new(1, 0))
    );
}

#[test]
fn capacity_override_wins_over_the_registry_default() {
    let registry = StitchRegistry::with_uk_basics();
    let scheme = one_thread(vec![
        StitchInstance::new(MR, vec![]).with_capacity_override(CapacityStyle::Elastic),
        StitchInstance::new(MR, vec![]),
        StitchInstance::new(StitchId("bobble"), vec![]),
        StitchInstance::new(StitchId("bobble"), vec![])
            .with_capacity_override(CapacityStyle::Fixed),
    ]);
    assert_eq!(
        target_capacity_style(&scheme, &registry, ref_at(0)),
        Ok(CapacityStyle::Elastic)
    );
    assert_eq!(
        target_capacity_style(&scheme, &registry, ref_at(1)),
        Ok(CapacityStyle::TightenedRing)
    );
    assert_eq!(
        target_capacity_style(&scheme, &registry, ref_at(2)),
        Err(PlacementError::UnknownStitchKind("bobble"))
    );
    assert_eq!(
        target_capacity_style(&scheme, &registry, ref_at(3)),
        Ok(CapacityStyle::Fixed)
    );
}

#[test]
fn planned_sibling_indices_are_distinct_and_below_the_total() {
    let registry = StitchRegistry::with_uk_basics();
    let mut stitches = vec![
        StitchInstance::new(CH, vec![]),
        StitchInstance::new(DC, vec![ref_at(0)]),
    ];
    for _ in 0..9 {
        stitches.push(StitchInstance::new(DC, vec![ref_at(1)]));
    }
    let scheme = one_thread(stitches);
    let plans = plan_placement(&scheme, &registry).unwrap();
    let mut seen = Vec::new();
    for plan in &plans[0][2..] {
        let (target, style, index, total) = shared(plan);
        assert_eq!(target, ref_at(1));
        assert_eq!(style, CapacityStyle::Fixed);
        assert_eq!(total, 9);
        assert!(index < total);
        assert!(!seen.contains(&index));
        seen.push(index);
    }
    assert_eq!(shared(&plans[0][1]), (ref_at(0), CapacityStyle::Elastic, 0, 1));
}
