use crochet_core::stitch::{
    str_equal, CapacityStyle, DrawThrough, StitchDef, StitchId, StitchRegistry, CH, DC, DTR, HTR,
    MR, QUAD_TR, SS, START_CH, TR, TRTR,
};

#[test]
fn ch_has_no_insertion_and_zero_height() {
    let reg = StitchRegistry::with_uk_basics();
    let ch = reg.get(CH).unwrap();
    assert!(!ch.has_insertion);
    assert_eq!(ch.height_halves(), 0);
}

#[test]
fn ss_has_insertion_but_zero_height() {
    let reg = StitchRegistry::with_uk_basics();
    let ss = reg.get(SS).unwrap();
    assert!(ss.has_insertion);
    assert_eq!(ss.height_halves(), 0);
}

#[test]
fn stitch_height_increases_with_pre_wraps() {
    let reg = StitchRegistry::with_uk_basics();
    let heights: Vec<u64> = [DC, HTR, TR, DTR, TRTR, QUAD_TR]
        .iter()
        .map(|id| reg.get(*id).unwrap().height_halves())
        .collect();
    for pair in heights.windows(2) {
        assert!(
            pair[1] > pair[0],
            "expected strictly increasing heights: {:?}",
            heights
        );
    }
}

#[test]
fn htr_and_tr_share_pre_wrap_count_but_differ_in_draw_through() {
    let reg = StitchRegistry::with_uk_basics();
    let htr = reg.get(HTR).unwrap();
    let tr = reg.get(TR).unwrap();
    assert_eq!(htr.pre_wraps, tr.pre_wraps);
    assert_ne!(htr.draw_through, tr.draw_through);
    assert!(htr.height_halves() < tr.height_halves());
}

#[test]
fn insertion_stiffness_decreases_as_stitches_get_taller() {
    let reg = StitchRegistry::with_uk_basics();
    let stiffnesses: Vec<u32> = [DC, HTR, TR, DTR, TRTR, QUAD_TR]
        .iter()
        .map(|id| reg.get(*id).unwrap().insertion_stiffness_hundredths())
        .collect();
    for pair in stiffnesses.windows(2) {
        assert!(
            pair[1] < pair[0],
            "expected strictly decreasing stiffness (more give as stitches get taller): {:?}",
            stiffnesses
        );
    }
    let ch_stiffness = reg.get(CH).unwrap().insertion_stiffness_hundredths();
    assert!(ch_stiffness < *stiffnesses.last().unwrap());
}

#[test]
fn registry_is_extensible() {
    let mut reg = StitchRegistry::with_uk_basics();
    let custom = StitchId("bobble");
    reg.register(StitchDef {
        id: custom,
        pre_wraps: 1,
        has_insertion: true,
        draw_through: DrawThrough::Repeated2,
        capacity_style: CapacityStyle::Fixed,
        lays_out_as_line: false,
    });
    assert!(reg.get(custom).is_some());
}

#[test]
fn mr_has_no_insertion_and_defaults_to_tightened_ring() {
    let reg = StitchRegistry::with_uk_basics();
    let mr = reg.get(MR).unwrap();
    assert!(!mr.has_insertion);
    assert_eq!(mr.height_halves(), 0);
    assert_eq!(mr.capacity_style, CapacityStyle::TightenedRing);
}

#[test]
fn ordinary_stitches_default_to_fixed_capacity() {
    let reg = StitchRegistry::with_uk_basics();
    for id in [SS, DC, HTR, TR, DTR, TRTR, QUAD_TR] {
        assert_eq!(reg.get(id).unwrap().capacity_style, CapacityStyle::Fixed);
    }
}

#[test]
fn ch_is_elastic() {
    let reg = StitchRegistry::with_uk_basics();
    assert_eq!(reg.get(CH).unwrap().capacity_style, CapacityStyle::Elastic);
}

#[test]
fn start_ch_is_a_physical_clone_of_ch() {
    let reg = StitchRegistry::with_uk_basics();
    let ch = reg.get(CH).unwrap();
    let start_ch = reg.get(START_CH).unwrap();
    assert_eq!(start_ch.has_insertion, ch.has_insertion);
    assert_eq!(start_ch.height_halves(), ch.height_halves());
    assert_eq!(start_ch.capacity_style, ch.capacity_style);
    assert_eq!(start_ch.lays_out_as_line, ch.lays_out_as_line);
    assert_eq!(
        start_ch.insertion_stiffness_hundredths(),
        ch.insertion_stiffness_hundredths()
    );
}

#[test]
fn heights_of_the_uk_ladder_in_half_rows() {
    let reg = StitchRegistry::with_uk_basics();
    let expected = [
        (CH, 0),
        (START_CH, 0),
        (MR, 0),
        (SS, 0),
        (DC, 2),
        (HTR, 3),
        (TR, 4),
        (DTR, 6),
        (TRTR, 8),
        (QUAD_TR, 10),
    ];
    for (id, halves) in expected {
        assert_eq!(reg.get(id).unwrap().height_halves(), halves, "{}", id);
    }
}

#[test]
fn stiffnesses_of_the_uk_ladder_in_hundredths() {
    let reg = StitchRegistry::with_uk_basics();
    let expected = [
        (CH, 15),
        (MR, 15),
        (SS, 90),
        (DC, 80),
        (HTR, 50),
        (TR, 42),
        (DTR, 34),
        (TRTR, 26),
        (QUAD_TR, 18),
    ];
    for (id, hundredths) in expected {
        assert_eq!(
            reg.get(id).unwrap().insertion_stiffness_hundredths(),
            hundredths,
            "{}",
            id
        );
    }
}

#[test]
fn stiffness_floor_is_reached_at_five_pre_wraps() {
    let mut def = StitchDef {
        id: StitchId("quintuple_tr"),
        pre_wraps: 5,
        has_insertion: true,
        draw_through: DrawThrough::Repeated2,
        capacity_style: CapacityStyle::Fixed,
        lays_out_as_line: false,
    };
    assert_eq!(def.insertion_stiffness_hundredths(), 10);
    def.pre_wraps = 40;
    assert_eq!(def.insertion_stiffness_hundredths(), 10);
    assert_eq!(def.height_halves(), 82);
}

#[test]
fn path_segments_grow_with_pre_wraps() {
    let reg = StitchRegistry::with_uk_basics();
    assert_eq!(reg.get(CH).unwrap().path_segments(), 1);
    assert_eq!(reg.get(SS).unwrap().path_segments(), 1);
    assert_eq!(reg.get(DC).unwrap().path_segments(), 1);
    assert_eq!(reg.get(DTR).unwrap().path_segments(), 3);
    assert_eq!(reg.get(QUAD_TR).unwrap().path_segments(), 5);
}

#[test]
fn registering_an_existing_name_replaces_its_definition() {
    let mut reg = StitchRegistry::with_uk_basics();
    reg.register(StitchDef {
        id: StitchId("dc"),
        pre_wraps: 2,
        has_insertion: true,
        draw_through: DrawThrough::AllAtOnce,
        capacity_style: CapacityStyle::Elastic,
        lays_out_as_line: false,
    });
    let dc = reg.get(DC).unwrap();
    assert_eq!(dc.pre_wraps, 2);
    assert_eq!(dc.draw_through, DrawThrough::AllAtOnce);
    assert_eq!(dc.capacity_style, CapacityStyle::Elastic);
    // Other names are untouched.
    assert_eq!(reg.get(TR).unwrap().pre_wraps, 1);
    assert_eq!(reg.get(CH).unwrap().capacity_style, CapacityStyle::Elastic);
}

#[test]
fn empty_registry_knows_no_stitch() {
    let reg = StitchRegistry::empty();
    assert!(reg.get(CH).is_none());
    let basics = StitchRegistry::with_uk_basics();
    assert!(basics.get(StitchId("bobble")).is_none());
}

#[test]
fn names_compare_by_their_characters() {
    assert!(str_equal("tr", "tr"));
    assert!(!str_equal("tr", "dtr"));
    assert!(!str_equal("dc", "ch"));
    assert!(str_equal("", ""));
    assert!(!str_equal("ch", "chx"));
}

#[test]
fn every_definition_is_found_under_its_own_id() {
    let mut reg = StitchRegistry::with_uk_basics();
    reg.register(StitchDef {
        id: StitchId("bobble"),
        pre_wraps: 1,
        has_insertion: true,
        draw_through: DrawThrough::Repeated2,
        capacity_style: CapacityStyle::Fixed,
        lays_out_as_line: false,
    });
    for id in [CH, SS, DC, HTR, TR, DTR, TRTR, QUAD_TR, MR, START_CH, StitchId("bobble")] {
        assert_eq!(reg.get(id).unwrap().id, id);
    }
}
