use std::collections::HashSet;

use crochet_core::graph::{Scheme, StitchInstance, StitchRef, Thread};
use crochet_core::stitch::{CH, DC};
use crochet_core::validate::check_round;

fn ref_at(index: usize) -> StitchRef {
    StitchRef::new(0, index)
}

#[test]
fn check_round_passes_for_a_consistent_flat_circle_first_round() {
    let mut thread = Thread::new();
    thread.stitches.push(StitchInstance::new(CH, vec![])); // 0: ring anchor
    for _ in 0..6 {
        thread
            .stitches
            .push(StitchInstance::new(DC, vec![ref_at(0)]));
    }
    let mut scheme = Scheme::new();
    scheme.add_thread(thread);

    let previous_round: HashSet<StitchRef> = [ref_at(0)].into_iter().collect();
    let new_round: Vec<StitchRef> = (1..=6).map(ref_at).collect();
    assert!(check_round(&scheme, &previous_round, &new_round, 6).is_ok());
}

#[test]
fn check_round_flags_wrong_count_and_stray_targets() {
    let mut thread = Thread::new();
    thread.stitches.push(StitchInstance::new(CH, vec![])); // 0: claimed round
    thread.stitches.push(StitchInstance::new(CH, vec![])); // 1: NOT in claimed round
    thread
        .stitches
        .push(StitchInstance::new(DC, vec![ref_at(0)])); // 2
    thread
        .stitches
        .push(StitchInstance::new(DC, vec![ref_at(1)])); // 3: stray target
    let mut scheme = Scheme::new();
    scheme.add_thread(thread);

    let previous_round: HashSet<StitchRef> = [ref_at(0)].into_iter().collect();
    let new_round: Vec<StitchRef> = vec![ref_at(2), ref_at(3)];
    let err = check_round(&scheme, &previous_round, &new_round, 3).unwrap_err();
    assert_eq!(err.expected, 3);
    assert_eq!(err.actual, 2);
    assert_eq!(err.stray_targets, vec![ref_at(1)]);
}

#[test]
fn check_round_reports_strays_even_when_the_count_is_right() {
    let mut thread = Thread::new();
    thread.stitches.push(StitchInstance::new(CH, vec![])); // 0
    thread.stitches.push(StitchInstance::new(CH, vec![])); // 1
    thread.stitches.push(StitchInstance::new(CH, vec![])); // 2
    thread
        .stitches
        .push(StitchInstance::new(DC, vec![ref_at(2), ref_at(0), ref_at(1)])); // 3: decrease
    thread
        .stitches
        .push(StitchInstance::new(DC, vec![ref_at(1)])); // 4
    let mut scheme = Scheme::new();
    scheme.add_thread(thread);

    let previous_round: HashSet<StitchRef> = [ref_at(0)].into_iter().collect();
    let err = check_round(&scheme, &previous_round, &[ref_at(3), ref_at(4)], 2).unwrap_err();
    assert_eq!(err.expected, 2);
    assert_eq!(err.actual, 2);
    assert_eq!(err.stray_targets, vec![ref_at(2), ref_at(1), ref_at(1)]);
}

#[test]
fn check_round_flags_a_wrong_count_with_no_strays() {
    let mut thread = Thread::new();
    thread.stitches.push(StitchInstance::new(CH, vec![]));
    thread
        .stitches
        .push(StitchInstance::new(DC, vec![ref_at(0)]));
    let mut scheme = Scheme::new();
    scheme.add_thread(thread);
    let previous_round: HashSet<StitchRef> = [ref_at(0)].into_iter().collect();
    let err = check_round(&scheme, &previous_round, &[ref_at(1)], 2).unwrap_err();
    assert_eq!(err.expected, 2);
    assert_eq!(err.actual, 1);
    assert!(err.stray_targets.is_empty());
    // An empty round of the expected size zero passes.
    assert!(check_round(&scheme, &previous_round, &[], 0).is_ok());
}
