use crochet_core::graph::{Scheme, StitchInstance, StitchRef, Thread};
use crochet_core::relax::{
    base_sources, bending_vertices, is_fan_edge, sibling_pairs, slip_join_pairs, spring_links,
    SpringKind, SpringLink,
};
use crochet_core::stitch::{CH, DC, SS, TR};

fn ref_at(index: usize) -> StitchRef {
    StitchRef::new(0, index)
}

fn one_thread(stitches: Vec<StitchInstance>) -> Scheme {
    let mut thread = Thread::new();
    thread.stitches = stitches;
    let mut scheme = Scheme::new();
    scheme.add_thread(thread);
    scheme
}

fn shell() -> Scheme {
    // chain of 3, then a 3-tr shell into the middle chain, then a dc.
    one_thread(vec![
        StitchInstance::new(CH, vec![]),          // 0
        StitchInstance::new(CH, vec![]),          // 1
        StitchInstance::new(CH, vec![]),          // 2
        StitchInstance::new(TR, vec![ref_at(1)]), // 3
        StitchInstance::new(TR, vec![ref_at(1)]), // 4
        StitchInstance::new(TR, vec![ref_at(1)]), // 5
        StitchInstance::new(DC, vec![ref_at(0)]), // 6
        StitchInstance::new(DC, vec![ref_at(6)]), // 7
    ])
}

#[test]
fn fan_edges_are_sibling_edges_and_edges_into_the_own_target() {
    let scheme = shell();
    assert!(!is_fan_edge(&scheme, 0, 0, 1));
    assert!(!is_fan_edge(&scheme, 0, 2, 3));
    assert!(is_fan_edge(&scheme, 0, 3, 4));
    assert!(is_fan_edge(&scheme, 0, 4, 5));
    assert!(!is_fan_edge(&scheme, 0, 5, 6));
    assert!(is_fan_edge(&scheme, 0, 6, 7));
}

#[test]
fn bending_vertices_skip_every_vertex_touching_a_fan_edge() {
    let scheme = shell();
    assert_eq!(
        bending_vertices(&scheme),
        vec![ref_at(1), ref_at(2)]
    );
    let short = one_thread(vec![
        StitchInstance::new(CH, vec![]),
        StitchInstance::new(CH, vec![]),
    ]);
    assert!(bending_vertices(&short).is_empty());
}

#[test]
fn sibling_pairs_cover_every_pair_sharing_a_single_target_once() {
    let scheme = shell();
    let mut pairs = sibling_pairs(&scheme);
    pairs.sort_by_key(|(a, b)| (a.index, b.index));
    assert_eq!(
        pairs,
        vec![
            (ref_at(3), ref_at(4)),
            (ref_at(3), ref_at(5)),
            (ref_at(4), ref_at(5)),
        ]
    );
}

#[test]
fn decreases_are_not_siblings() {
    let scheme = one_thread(vec![
        StitchInstance::new(CH, vec![]),
        StitchInstance::new(CH, vec![]),
        StitchInstance::new(DC, vec![ref_at(0), ref_at(1)]),
        StitchInstance::new(DC, vec![ref_at(0), ref_at(1)]),
    ]);
    assert!(sibling_pairs(&scheme).is_empty());
}

#[test]
fn slip_stitch_join_repels_its_target_from_its_predecessor() {
    let mut stitches = Vec::new();
    for _ in 0..6 {
        stitches.push(StitchInstance::new(CH, vec![]));
    }
    stitches.push(StitchInstance::new(SS, vec![ref_at(0)])); // 6: closes the ring
    stitches.push(StitchInstance::new(SS, vec![ref_at(6)])); // 7: into its own predecessor
    let scheme = one_thread(stitches);
    assert_eq!(slip_join_pairs(&scheme), vec![(ref_at(0), ref_at(5))]);
}

#[test]
fn base_sources_follow_the_three_anchor_cases() {
    let scheme = one_thread(vec![
        StitchInstance::new(CH, vec![]),
        StitchInstance::new(CH, vec![]),
        StitchInstance::new(DC, vec![ref_at(0)]),
        StitchInstance::new(DC, vec![ref_at(1), ref_at(0)]),
    ]);
    assert_eq!(base_sources(&scheme, 0, 0), vec![ref_at(0)]);
    assert_eq!(base_sources(&scheme, 0, 1), vec![ref_at(0)]);
    assert_eq!(base_sources(&scheme, 0, 2), vec![ref_at(0)]);
    assert_eq!(base_sources(&scheme, 0, 3), vec![ref_at(1), ref_at(0)]);
}

fn link(a: StitchRef, b: StitchRef, kind: SpringKind) -> SpringLink {
    SpringLink { a, b, kind }
}

#[test]
fn springs_join_each_stitch_to_its_targets_then_its_predecessor() {
    // ch, ch, a dc into the first ch, a two-target decrease, then a slip
    // stitch joining back to the first ch.
    let scheme = one_thread(vec![
        StitchInstance::new(CH, vec![]),                     // 0
        StitchInstance::new(CH, vec![]),                     // 1
        StitchInstance::new(DC, vec![ref_at(0)]),            // 2
        StitchInstance::new(DC, vec![ref_at(1), ref_at(2)]), // 3
        StitchInstance::new(SS, vec![ref_at(0)]),            // 4
    ]);
    assert_eq!(
        spring_links(&scheme),
        vec![
            link(ref_at(1), ref_at(0), SpringKind::Continuity),
            link(ref_at(2), ref_at(0), SpringKind::Insertion),
            link(ref_at(2), ref_at(1), SpringKind::Continuity),
            link(ref_at(3), ref_at(1), SpringKind::Insertion),
            link(ref_at(3), ref_at(2), SpringKind::Insertion),
            link(ref_at(3), ref_at(2), SpringKind::Continuity),
            link(ref_at(4), ref_at(0), SpringKind::Insertion),
            link(ref_at(4), ref_at(3), SpringKind::SlipContinuity),
        ]
    );
}

#[test]
fn springs_of_a_second_thread_follow_the_first() {
    let mut scheme = one_thread(vec![StitchInstance::new(CH, vec![])]);
    let mut second = Thread::new();
    second.stitches = vec![
        StitchInstance::new(SS, vec![ref_at(0)]),
        StitchInstance::new(CH, vec![]),
    ];
    scheme.add_thread(second);
    assert_eq!(
        spring_links(&scheme),
        vec![
            link(StitchRef::new(1, 0), ref_at(0), SpringKind::Insertion),
            link(StitchRef::new(1, 1), StitchRef::new(1, 0), SpringKind::Continuity),
        ]
    );
}

#[test]
fn slip_join_pairs_come_in_working_order() {
    let scheme = one_thread(vec![
        StitchInstance::new(CH, vec![]),          // 0
        StitchInstance::new(CH, vec![]),          // 1
        StitchInstance::new(SS, vec![ref_at(0)]), // 2
        StitchInstance::new(CH, vec![]),          // 3
        StitchInstance::new(SS, vec![ref_at(1)]), // 4
    ]);
    assert_eq!(
        slip_join_pairs(&scheme),
        vec![(ref_at(0), ref_at(1)), (ref_at(1), ref_at(3))]
    );
}
