use crochet_core::stitch::{
    CapacityStyle, StitchDef, StitchRegistry, CH, DC, DTR, HTR, MR, QUAD_TR, SS, TR,
};
use crochet_core::yarn_shape::bar_count;

fn def(reg: &StitchRegistry, id: &'static str) -> StitchDef {
    *reg.get(id).unwrap()
}

#[test]
fn bar_count_matches_height_formula_for_repeated2_stitches() {
    let reg = StitchRegistry::with_uk_basics();
    for id in [TR, DTR, QUAD_TR] {
        let d = def(&reg, id);
        assert_eq!(2 * bar_count(&d) as u64, d.height_halves());
    }
}

#[test]
fn zero_target_zero_insertion_stitches_get_zero_bars() {
    let reg = StitchRegistry::with_uk_basics();
    assert_eq!(bar_count(&def(&reg, CH)), 0);
    assert_eq!(bar_count(&def(&reg, MR)), 0);
    assert_eq!(bar_count(&def(&reg, SS)), 0);
}

#[test]
fn quad_tr_target_is_still_fixed_capacity_sanity_check() {
    let reg = StitchRegistry::with_uk_basics();
    assert_eq!(def(&reg, QUAD_TR).capacity_style, CapacityStyle::Fixed);
}

#[test]
fn bar_counts_of_the_uk_ladder() {
    let reg = StitchRegistry::with_uk_basics();
    assert_eq!(bar_count(&def(&reg, DC)), 1);
    assert_eq!(bar_count(&def(&reg, HTR)), 2);
    assert_eq!(bar_count(&def(&reg, TR)), 2);
    assert_eq!(bar_count(&def(&reg, DTR)), 3);
    assert_eq!(bar_count(&def(&reg, QUAD_TR)), 5);
}
