use crochet_core::demo::{build_flat_circle_scheme, build_overloaded_ring_scheme, ref_at};
use crochet_core::geometry::{plan_placement, Anchor};
use crochet_core::graph::{LoopTarget, StitchRef};
use crochet_core::path::SegmentOwner;
use crochet_core::stitch::{StitchRegistry, DC, MR};

#[test]
fn flat_circle_demo_is_a_ring_with_six_dc() {
    let scheme = build_flat_circle_scheme();
    assert_eq!(scheme.total_stitch_count(), 7);
    assert_eq!(scheme.threads[0].stitches[0].kind, MR);
    for s in &scheme.threads[0].stitches[1..] {
        assert_eq!(s.kind, DC);
        assert_eq!(s.targets, vec![ref_at(0)]);
    }
    for s in &scheme.threads[0].stitches {
        assert_eq!(s.loop_target, LoopTarget::Both);
        assert_eq!(s.capacity_override, None);
    }
}

#[test]
fn overloaded_demo_crams_fifteen_dc_into_one_ring() {
    let scheme = build_overloaded_ring_scheme();
    assert_eq!(scheme.total_stitch_count(), 16);
    let registry = StitchRegistry::with_uk_basics();
    let plans = plan_placement(&scheme, &registry).unwrap();
    match plans[0][15].anchor {
        Anchor::Shared {
            sibling_index,
            sibling_total,
            ..
        } => {
            assert_eq!(sibling_index, 14);
            assert_eq!(sibling_total, 15);
        }
        other => panic!("unexpected anchor {:?}", other),
    }
}

#[test]
fn segment_owners_compare_by_their_stitches() {
    let a = SegmentOwner::Stitch(StitchRef::new(0, 1));
    let b = SegmentOwner::Bridge(StitchRef::new(0, 1), StitchRef::new(0, 2));
    assert_eq!(a, SegmentOwner::Stitch(ref_at(1)));
    assert_ne!(a, b);
}
