//! Stitch registry.
//!
//! Every stitch is described by the same three-part recipe (pre-wraps,
//! insertion, draw-throughs); `ch` is the one stitch with no insertion at
//! all. The registry is open: new entries — textured/compound stitches,
//! other regional traditions — are added by registering a new
//! `StitchDef`, not by extending an enum or touching placement code.
use vstd::prelude::*;

verus! {

/// Stable internal identifier for a stitch kind, independent of any
/// display language (UK/US/other). Its view is the characters of the name.
/// A plain string slice, so that each built-in kind below can be a
/// constant holding just its name.
pub type StitchId = &'static str;

/// Builds the identifier of a stitch kind from its name.
#[allow(non_snake_case)]
pub fn StitchId(name: &'static str) -> (id: StitchId)
    ensures
        id@ == name@,
{
    name
}

pub const CH: StitchId = "ch";

pub const SS: StitchId = "ss";

pub const DC: StitchId = "dc";

pub const HTR: StitchId = "htr";

pub const TR: StitchId = "tr";

pub const DTR: StitchId = "dtr";

pub const TRTR: StitchId = "trtr";

pub const QUAD_TR: StitchId = "quad_tr";

/// Magic ring / adjustable loop: a single loop of working yarn, not a run
/// of chains. Shares "no insertion, zero height" with `ch` because both
/// are foundation anchors, but carries its own capacity behaviour as a
/// target.
pub const MR: StitchId = "mr";

/// Starting chain: physically and geometrically identical to `ch`; it
/// exists as its own kind only so an editor can tell the opening stitch
/// apart from an ordinary mid-scheme `ch`.
pub const START_CH: StitchId = "start_ch";

/// True exactly when two string slices hold the same characters.
pub fn str_equal(a: &str, b: &str) -> (res: bool)
    ensures
        res == (a@ == b@),
{
    let ab = a.as_bytes();
    let bb = b.as_bytes();
    proof {
        vstd::utf8::encode_utf8_decode_utf8(a@);
        vstd::utf8::encode_utf8_decode_utf8(b@);
    }
    if ab.len() != bb.len() {
        return false;
    }
    let mut i: usize = 0;
    while i < ab.len()
        invariant
            ab@ == vstd::utf8::encode_utf8(a@),
            bb@ == vstd::utf8::encode_utf8(b@),
            ab@.len() == bb@.len(),
            i <= ab@.len(),
            forall|k: int| 0 <= k < i ==> ab@[k] == bb@[k],
        decreases ab@.len() - i,
    {
        if ab[i] != bb[i] {
            return false;
        }
        i = i + 1;
    }
    assert(ab@ =~= bb@);
    true
}

/// How a stitch behaves as an insertion **target** when several stitches
/// share it.
#[derive(Debug, Clone, Copy, PartialEq, Eq, Structural)]
pub enum CapacityStyle {
    /// Comfortable capacity is small and roughly fixed; beyond it extra
    /// siblings bulge out of the flat plane.
    Fixed,
    /// Comfortable capacity grows without bound (a chain or chain-space).
    Elastic,
    /// A magic ring pulled tight: narrow at 3-5 siblings, flat at 6-8,
    /// wavy at 9 and more.
    TightenedRing,
}

/// How the loops on the hook are cleared once the pre-wraps and the
/// inserted loop are on it.
#[derive(Debug, Clone, Copy, PartialEq, Eq, Structural)]
pub enum DrawThrough {
    /// `ss`: one draw-through clearing the stitch loop and the working
    /// loop together — zero net height.
    SlipClear,
    /// `dc`: one draw-through, pulling through both loops on the hook.
    Single,
    /// `htr`: one draw-through, pulling through all loops at once.
    AllAtOnce,
    /// `tr` and taller: "yarn over, pull through 2" repeated until one
    /// loop remains.
    Repeated2,
}

#[derive(Debug, Clone, Copy)]
pub struct StitchDef {
    pub id: StitchId,
    /// Yarn-overs before inserting the hook. 0 for `dc`, 1 for `htr`/`tr`,
    /// 2 for `dtr`, etc. Meaningless (left 0) when `has_insertion` is false.
    pub pre_wraps: u32,
    /// False for `ch` and `mr`: neither has an insertion step at all.
    pub has_insertion: bool,
    pub draw_through: DrawThrough,
    /// How this stitch behaves as a *target* for other stitches.
    pub capacity_style: CapacityStyle,
    /// True only for chains: a zero-target stitch that lays itself out
    /// as a step forward from wherever the thread left off.
    pub lays_out_as_line: bool,
}

impl StitchDef {
    /// Abstract stitch height, counted in half rows (a `dc` is two half
    /// rows high).
    pub open spec fn spec_height_halves(&self) -> nat {
        if !self.has_insertion {
            0
        } else {
            match self.draw_through {
                DrawThrough::SlipClear => 0,
                DrawThrough::Single => 2,
                DrawThrough::AllAtOnce => (2 + self.pre_wraps) as nat,
                DrawThrough::Repeated2 => (2 * (self.pre_wraps + 1)) as nat,
            }
        }
    }

    /// Relative insertion stiffness, counted in hundredths.
    pub open spec fn spec_insertion_stiffness_hundredths(&self) -> nat {
        if !self.has_insertion {
            15
        } else {
            match self.draw_through {
                DrawThrough::SlipClear => 90,
                DrawThrough::Single => 80,
                DrawThrough::AllAtOnce => 50,
                DrawThrough::Repeated2 => if self.pre_wraps < 5 {
                    (50 - 8 * self.pre_wraps) as nat
                } else {
                    10
                },
            }
        }
    }

    /// Abstract stitch height in half rows. Driven by pre-wrap count, but
    /// not just a flat function of it: `htr` pre-wraps once like `tr` but
    /// clears everything in one motion, so each of its pre-wraps earns
    /// half the credit a `Repeated2` stage does, and it comes out shorter
    /// than `tr`.
    pub fn height_halves(&self) -> (h: u64)
        ensures
            h == self.spec_height_halves(),
    {
        if !self.has_insertion {
            return 0;
        }
        match self.draw_through {
            DrawThrough::SlipClear => 0,
            DrawThrough::Single => 2,
            DrawThrough::AllAtOnce => 2 + self.pre_wraps as u64,
            DrawThrough::Repeated2 => 2 * (self.pre_wraps as u64 + 1),
        }
    }

    /// How stiffly this stitch resists its insertion point(s) deviating
    /// from rest length, in hundredths: dense, short-draw-through
    /// stitches are stiff; tall, multi-stage stitches are soft; `ch` is
    /// the loosest connection of all. Each pre-wrap of a `Repeated2`
    /// stitch takes 8 hundredths off, down to a floor of 10.
    pub fn insertion_stiffness_hundredths(&self) -> (s: u32)
        ensures
            s == self.spec_insertion_stiffness_hundredths(),
    {
        if !self.has_insertion {
            return 15;
        }
        match self.draw_through {
            DrawThrough::SlipClear => 90,
            DrawThrough::Single => 80,
            DrawThrough::AllAtOnce => 50,
            DrawThrough::Repeated2 => {
                if self.pre_wraps < 5 {
                    50 - 8 * self.pre_wraps
                } else {
                    10
                }
            },
        }
    }

    pub open spec fn spec_path_segments(&self) -> nat {
        if !self.has_insertion {
            1
        } else {
            (self.pre_wraps + 1) as nat
        }
    }

    /// Number of segments along this stitch's own yarn path: a taller
    /// stitch gets a proportionally more subdivided path. Chains get the
    /// minimum, one segment.
    pub fn path_segments(&self) -> (n: u32)
        requires
            self.has_insertion ==> self.pre_wraps < u32::MAX,
        ensures
            n == self.spec_path_segments(),
            self.has_insertion ==> n == self.pre_wraps + 1,
            !self.has_insertion ==> n == 1,
    {
        if !self.has_insertion {
            1
        } else {
            self.pre_wraps + 1
        }
    }
}

/// Map from stitch-kind names to their definitions; a later definition
/// of the same name replaces an earlier one.
pub open spec fn defs_map(defs: Seq<StitchDef>) -> Map<Seq<char>, StitchDef>
    decreases defs.len(),
{
    if defs.len() == 0 {
        Map::empty()
    } else {
        defs_map(defs.drop_last()).insert(defs.last().id@, defs.last())
    }
}

/// No two definitions share a name.
pub open spec fn ids_unique(defs: Seq<StitchDef>) -> bool {
    forall|i: int, j: int| 0 <= i < defs.len() && 0 <= j < defs.len() && i != j ==> defs[i].id@ != defs[j].id@
}

proof fn lemma_defs_map_dom(defs: Seq<StitchDef>, k: Seq<char>)
    ensures
        defs_map(defs).contains_key(k) <==> exists|i: int| 0 <= i < defs.len() && defs[i].id@ == k,
    decreases defs.len(),
{
    if defs.len() > 0 {
        lemma_defs_map_dom(defs.drop_last(), k);
        if defs_map(defs).contains_key(k) && defs.last().id@ != k {
            let i = choose|i: int| 0 <= i < defs.drop_last().len() && defs.drop_last()[i].id@ == k;
            assert(defs[i].id@ == k);
        }
        if exists|i: int| 0 <= i < defs.len() && defs[i].id@ == k {
            let i = choose|i: int| 0 <= i < defs.len() && defs[i].id@ == k;
            if i < defs.len() - 1 {
                assert(defs.drop_last()[i].id@ == k);
            }
        }
    }
}

proof fn lemma_defs_map_keys(defs: Seq<StitchDef>, k: Seq<char>)
    ensures
        defs_map(defs).contains_key(k) ==> defs_map(defs)[k].id@ == k,
    decreases defs.len(),
{
    if defs.len() > 0 {
        lemma_defs_map_keys(defs.drop_last(), k);
    }
}

proof fn lemma_defs_map_value(defs: Seq<StitchDef>, i: int)
    requires
        ids_unique(defs),
        0 <= i < defs.len(),
    ensures
        defs_map(defs).contains_key(defs[i].id@),
        defs_map(defs)[defs[i].id@] == defs[i],
    decreases defs.len(),
{
    if i < defs.len() - 1 {
        assert(defs.drop_last()[i] == defs[i]);
        lemma_defs_map_value(defs.drop_last(), i);
        assert(defs.last().id@ != defs[i].id@);
    }
}

/// The open registry of stitch definitions, looked up by name.
///
/// The definitions are kept in a `Vec` whose names are unique, and the
/// registry is viewed as the map from each name to its definition. A
/// `HashMap` keyed by the name carries no usable contract here: vstd
/// specifies `HashMap` only under `obeys_key_model` for the key type, and
/// it establishes that only for `bool`, the primitive integers and boxes
/// of them, never for a string slice, so every lookup would rest on an
/// assumption rather than a proof.
pub struct StitchRegistry {
    defs: Vec<StitchDef>,
}

impl View for StitchRegistry {
    type V = Map<Seq<char>, StitchDef>;

    closed spec fn view(&self) -> Map<Seq<char>, StitchDef> {
        defs_map(self.defs@)
    }
}

/// The definition registered for `CH`, `START_CH` or `MR`: no insertion,
/// no pre-wraps.
pub open spec fn foundation_def(id: StitchId, capacity_style: CapacityStyle, lays_out_as_line: bool) -> StitchDef {
    StitchDef {
        id,
        pre_wraps: 0,
        has_insertion: false,
        draw_through: DrawThrough::Single,
        capacity_style,
        lays_out_as_line,
    }
}

/// The definition registered for an inserted stitch of the basic ladder:
/// fixed capacity as a target, never laid out as a line.
pub open spec fn inserted_def(id: StitchId, pre_wraps: u32, draw_through: DrawThrough) -> StitchDef {
    StitchDef {
        id,
        pre_wraps,
        has_insertion: true,
        draw_through,
        capacity_style: CapacityStyle::Fixed,
        lays_out_as_line: false,
    }
}

/// The contents of `StitchRegistry::with_uk_basics`, by name.
pub open spec fn uk_basics() -> Map<Seq<char>, StitchDef> {
    Map::empty()
        .insert(CH@, foundation_def(CH, CapacityStyle::Elastic, true))
        .insert(START_CH@, foundation_def(START_CH, CapacityStyle::Elastic, true))
        .insert(MR@, foundation_def(MR, CapacityStyle::TightenedRing, false))
        .insert(SS@, inserted_def(SS, 0, DrawThrough::SlipClear))
        .insert(DC@, inserted_def(DC, 0, DrawThrough::Single))
        .insert(HTR@, inserted_def(HTR, 1, DrawThrough::AllAtOnce))
        .insert(TR@, inserted_def(TR, 1, DrawThrough::Repeated2))
        .insert(DTR@, inserted_def(DTR, 2, DrawThrough::Repeated2))
        .insert(TRTR@, inserted_def(TRTR, 3, DrawThrough::Repeated2))
        .insert(QUAD_TR@, inserted_def(QUAD_TR, 4, DrawThrough::Repeated2))
}

/// The names of the basic UK ladder are ten distinct names, and the
/// seeded definitions follow the stitch recipe: only `ch` and `start_ch`
/// lay out as a line, only the three foundation stitches (`ch`,
/// `start_ch`, `mr`) have no insertion, the chains are elastic, the magic
/// ring a tightened ring and every inserted stitch fixed.
proof fn lemma_uk_basics_table()
    ensures
        forall|k: Seq<char>|
            #[trigger] uk_basics().contains_key(k) <==> (k == CH@ || k == START_CH@ || k == MR@ || k == SS@
                || k == DC@ || k == HTR@ || k == TR@ || k == DTR@ || k == TRTR@ || k == QUAD_TR@),
        forall|k: Seq<char>|
            uk_basics().contains_key(k) ==> ((#[trigger] uk_basics()[k]).lays_out_as_line <==> (k == CH@
                || k == START_CH@)),
        forall|k: Seq<char>|
            uk_basics().contains_key(k) ==> (!(#[trigger] uk_basics()[k]).has_insertion <==> (k == CH@
                || k == START_CH@ || k == MR@)),
        forall|k: Seq<char>|
            uk_basics().contains_key(k) ==> ((#[trigger] uk_basics()[k]).capacity_style
                == CapacityStyle::Elastic <==> (k == CH@ || k == START_CH@)),
        forall|k: Seq<char>|
            uk_basics().contains_key(k) ==> ((#[trigger] uk_basics()[k]).capacity_style
                == CapacityStyle::TightenedRing <==> k == MR@),
        forall|k: Seq<char>|
            uk_basics().contains_key(k) && (#[trigger] uk_basics()[k]).has_insertion ==> uk_basics()[k].capacity_style
                == CapacityStyle::Fixed,
        uk_basics()[SS@].pre_wraps == 0 && uk_basics()[SS@].draw_through == DrawThrough::SlipClear,
        uk_basics()[DC@].pre_wraps == 0 && uk_basics()[DC@].draw_through == DrawThrough::Single,
        uk_basics()[HTR@].pre_wraps == 1 && uk_basics()[HTR@].draw_through == DrawThrough::AllAtOnce,
        uk_basics()[TR@].pre_wraps == 1 && uk_basics()[TR@].draw_through == DrawThrough::Repeated2,
        uk_basics()[DTR@].pre_wraps == 2 && uk_basics()[DTR@].draw_through == DrawThrough::Repeated2,
        uk_basics()[TRTR@].pre_wraps == 3 && uk_basics()[TRTR@].draw_through == DrawThrough::Repeated2,
        uk_basics()[QUAD_TR@].pre_wraps == 4 && uk_basics()[QUAD_TR@].draw_through == DrawThrough::Repeated2,
{
    reveal_strlit("ch");
    reveal_strlit("start_ch");
    reveal_strlit("mr");
    reveal_strlit("ss");
    reveal_strlit("dc");
    reveal_strlit("htr");
    reveal_strlit("tr");
    reveal_strlit("dtr");
    reveal_strlit("trtr");
    reveal_strlit("quad_tr");
    assert(CH@.len() == 2 && CH@[0] == 'c' && CH@[1] == 'h');
    assert(START_CH@.len() == 8 && START_CH@[0] == 's');
    assert(MR@.len() == 2 && MR@[0] == 'm');
    assert(SS@.len() == 2 && SS@[0] == 's');
    assert(DC@.len() == 2 && DC@[0] == 'd');
    assert(HTR@.len() == 3 && HTR@[0] == 'h');
    assert(TR@.len() == 2 && TR@[0] == 't');
    assert(DTR@.len() == 3 && DTR@[0] == 'd');
    assert(TRTR@.len() == 4);
    assert(QUAD_TR@.len() == 7);
    assert(CH@ != START_CH@ && CH@ != MR@ && START_CH@ != MR@);
    assert(CH@ != SS@ && CH@ != DC@ && CH@ != HTR@ && CH@ != TR@ && CH@ != DTR@ && CH@ != TRTR@ && CH@
        != QUAD_TR@);
    assert(START_CH@ != SS@ && START_CH@ != DC@ && START_CH@ != HTR@ && START_CH@ != TR@ && START_CH@
        != DTR@ && START_CH@ != TRTR@ && START_CH@ != QUAD_TR@);
    assert(SS@ != DC@ && SS@ != HTR@ && SS@ != TR@ && SS@ != DTR@ && SS@ != TRTR@ && SS@ != QUAD_TR@);
    assert(DC@ != HTR@ && DC@ != TR@ && DC@ != DTR@ && DC@ != TRTR@ && DC@ != QUAD_TR@);
    assert(HTR@ != TR@ && HTR@ != DTR@ && HTR@ != TRTR@ && HTR@ != QUAD_TR@);
    assert(TR@ != DTR@ && TR@ != TRTR@ && TR@ != QUAD_TR@ && DTR@ != TRTR@ && DTR@ != QUAD_TR@ && TRTR@ != QUAD_TR@);
    assert(MR@ != SS@ && MR@ != DC@ && MR@ != HTR@ && MR@ != TR@ && MR@ != DTR@ && MR@ != TRTR@ && MR@
        != QUAD_TR@);
}

impl StitchRegistry {
    #[verifier::type_invariant]
    spec fn names_unique(self) -> bool {
        ids_unique(self.defs@)
    }

    pub fn empty() -> (r: Self)
        ensures
            r@ == Map::<Seq<char>, StitchDef>::empty(),
    {
        StitchRegistry { defs: Vec::new() }
    }

    /// Seeds the registry with the basic UK stitch ladder. Other stitch
    /// traditions and textured stitches are deliberately not seeded here
    /// — they are registered separately.
    pub fn with_uk_basics() -> (r: Self)
        ensures
            r@ == uk_basics(),
            forall|k: Seq<char>|
                #[trigger] r@.contains_key(k) <==> (k == CH@ || k == START_CH@ || k == MR@ || k == SS@ || k
                    == DC@ || k == HTR@ || k == TR@ || k == DTR@ || k == TRTR@ || k == QUAD_TR@),
            forall|k: Seq<char>|
                r@.contains_key(k) ==> ((#[trigger] r@[k]).lays_out_as_line <==> (k == CH@ || k == START_CH@)),
            forall|k: Seq<char>|
                r@.contains_key(k) ==> (!(#[trigger] r@[k]).has_insertion <==> (k == CH@ || k == START_CH@ || k
                    == MR@)),
            forall|k: Seq<char>|
                r@.contains_key(k) ==> ((#[trigger] r@[k]).capacity_style == CapacityStyle::Elastic <==> (k
                    == CH@ || k == START_CH@)),
            forall|k: Seq<char>|
                r@.contains_key(k) ==> ((#[trigger] r@[k]).capacity_style == CapacityStyle::TightenedRing
                    <==> k == MR@),
            forall|k: Seq<char>|
                r@.contains_key(k) && (#[trigger] r@[k]).has_insertion ==> r@[k].capacity_style
                    == CapacityStyle::Fixed,
            forall|k: Seq<char>| r@.contains_key(k) ==> (#[trigger] r@[k]).id@ == k,
            r@[SS@].pre_wraps == 0 && r@[SS@].draw_through == DrawThrough::SlipClear,
            r@[DC@].pre_wraps == 0 && r@[DC@].draw_through == DrawThrough::Single,
            r@[HTR@].pre_wraps == 1 && r@[HTR@].draw_through == DrawThrough::AllAtOnce,
            r@[TR@].pre_wraps == 1 && r@[TR@].draw_through == DrawThrough::Repeated2,
            r@[DTR@].pre_wraps == 2 && r@[DTR@].draw_through == DrawThrough::Repeated2,
            r@[TRTR@].pre_wraps == 3 && r@[TRTR@].draw_through == DrawThrough::Repeated2,
            r@[QUAD_TR@].pre_wraps == 4 && r@[QUAD_TR@].draw_through == DrawThrough::Repeated2,
            forall|k: Seq<char>|
                r@.contains_key(k) && !(#[trigger] r@[k]).has_insertion ==> r@[k].pre_wraps == 0,
    {
        proof {
            lemma_uk_basics_table();
        }
        let mut reg = Self::empty();
        reg.register(
            StitchDef {
                id: CH,
                pre_wraps: 0,
                has_insertion: false,
                draw_through: DrawThrough::Single,
                capacity_style: CapacityStyle::Elastic,
                lays_out_as_line: true,
            },
        );
        reg.register(
            StitchDef {
                id: START_CH,
                pre_wraps: 0,
                has_insertion: false,
                draw_through: DrawThrough::Single,
                capacity_style: CapacityStyle::Elastic,
                lays_out_as_line: true,
            },
        );
        reg.register(
            StitchDef {
                id: MR,
                pre_wraps: 0,
                has_insertion: false,
                draw_through: DrawThrough::Single,
                // Tightened is the ordinary use of a magic ring.
                capacity_style: CapacityStyle::TightenedRing,
                // A point anchor, not a line — unlike `ch`.
                lays_out_as_line: false,
            },
        );
        reg.register(
            StitchDef {
                id: SS,
                pre_wraps: 0,
                has_insertion: true,
                draw_through: DrawThrough::SlipClear,
                capacity_style: CapacityStyle::Fixed,
                lays_out_as_line: false,
            },
        );
        reg.register(
            StitchDef {
                id: DC,
                pre_wraps: 0,
                has_insertion: true,
                draw_through: DrawThrough::Single,
                capacity_style: CapacityStyle::Fixed,
                lays_out_as_line: false,
            },
        );
        reg.register(
            StitchDef {
                id: HTR,
                pre_wraps: 1,
                has_insertion: true,
                draw_through: DrawThrough::AllAtOnce,
                capacity_style: CapacityStyle::Fixed,
                lays_out_as_line: false,
            },
        );
        reg.register(
            StitchDef {
                id: TR,
                pre_wraps: 1,
                has_insertion: true,
                draw_through: DrawThrough::Repeated2,
                capacity_style: CapacityStyle::Fixed,
                lays_out_as_line: false,
            },
        );
        reg.register(
            StitchDef {
                id: DTR,
                pre_wraps: 2,
                has_insertion: true,
                draw_through: DrawThrough::Repeated2,
                capacity_style: CapacityStyle::Fixed,
                lays_out_as_line: false,
            },
        );
        reg.register(
            StitchDef {
                id: TRTR,
                pre_wraps: 3,
                has_insertion: true,
                draw_through: DrawThrough::Repeated2,
                capacity_style: CapacityStyle::Fixed,
                lays_out_as_line: false,
            },
        );
        reg.register(
            StitchDef {
                id: QUAD_TR,
                pre_wraps: 4,
                has_insertion: true,
                draw_through: DrawThrough::Repeated2,
                capacity_style: CapacityStyle::Fixed,
                lays_out_as_line: false,
            },
        );
        reg
    }

    /// Registers `def` under its own name, replacing any definition
    /// already registered under that name.
    pub fn register(&mut self, def: StitchDef)
        ensures
            final(self)@ == old(self)@.insert(def.id@, def),
    {
        proof {
            use_type_invariant(&*self);
        }
        let mut defs: Vec<StitchDef> = Vec::new();
        std::mem::swap(&mut defs, &mut self.defs);
        let ghost before = defs@;
        let mut i: usize = 0;
        let mut found = false;
        while i < defs.len()
            invariant_except_break
                !found,
            invariant
                defs@ == before,
                ids_unique(before),
                i <= defs@.len(),
                forall|k: int| 0 <= k < i ==> defs@[k].id@ != def.id@,
            ensures
                found ==> i < defs@.len() && defs@[i as int].id@ == def.id@,
                !found ==> i == defs@.len(),
            decreases defs@.len() - i,
        {
            if str_equal(defs[i].id, def.id) {
                found = true;
                break;
            }
            i = i + 1;
        }
        if found {
            defs.set(i, def);
            proof {
                assert(ids_unique(defs@));
                assert forall|k: Seq<char>|
                    #![auto]
                    defs_map(defs@).contains_key(k) == defs_map(before).insert(def.id@, def).contains_key(k) by {
                    lemma_defs_map_dom(defs@, k);
                    lemma_defs_map_dom(before, k);
                    if k == def.id@ {
                        assert(defs@[i as int].id@ == k);
                    } else if exists|j: int| 0 <= j < before.len() && before[j].id@ == k {
                        let j = choose|j: int| 0 <= j < before.len() && before[j].id@ == k;
                        assert(defs@[j].id@ == k);
                    } else if exists|j: int| 0 <= j < defs@.len() && defs@[j].id@ == k {
                        let j = choose|j: int| 0 <= j < defs@.len() && defs@[j].id@ == k;
                        assert(before[j].id@ == k);
                    }
                }
                assert forall|k: Seq<char>|
                    #![auto]
                    defs_map(defs@).contains_key(k) implies defs_map(defs@)[k] == defs_map(before).insert(
                        def.id@,
                        def,
                    )[k] by {
                    lemma_defs_map_dom(defs@, k);
                    let j = choose|j: int| 0 <= j < defs@.len() && defs@[j].id@ == k;
                    lemma_defs_map_value(defs@, j);
                    if j != i {
                        lemma_defs_map_value(before, j);
                    }
                }
                assert(defs_map(defs@) =~= defs_map(before).insert(def.id@, def));
            }
        } else {
            defs.push(def);
            proof {
                assert(defs@.drop_last() =~= before);
                assert(ids_unique(defs@));
            }
        }
        self.defs = defs;
    }

    /// The definition registered under `id`, if any.
    pub fn get(&self, id: StitchId) -> (res: Option<&StitchDef>)
        ensures
            match res {
                Some(d) => self@.contains_key(id@) && *d == self@[id@] && d.id@ == id@,
                None => !self@.contains_key(id@),
            },
    {
        proof {
            use_type_invariant(self);
        }
        let mut i: usize = 0;
        while i < self.defs.len()
            invariant
                ids_unique(self.defs@),
                i <= self.defs@.len(),
                forall|k: int| 0 <= k < i ==> self.defs@[k].id@ != id@,
            decreases self.defs@.len() - i,
        {
            if str_equal(self.defs[i].id, id) {
                proof {
                    lemma_defs_map_value(self.defs@, i as int);
                }
                return Some(&self.defs[i]);
            }
            i = i + 1;
        }
        proof {
            lemma_defs_map_dom(self.defs@, id@);
        }
        None
    }
}

impl StitchRegistry {
    /// Every definition in a registry is stored under its own id.
    pub proof fn lemma_stored_under_own_id(&self, id: Seq<char>)
        ensures
            self@.contains_key(id) ==> self@[id].id@ == id,
    {
        lemma_defs_map_keys(self.defs@, id);
    }
}

/// A stitch's path is subdivided by its insertion and pre-wraps alone:
/// one segment without an insertion, one more than its pre-wraps with
/// one, whatever its draw-through. So two stitches that agree on
/// insertion and pre-wraps (htr and tr, say) get the same number.
pub proof fn lemma_path_segments_follow_pre_wraps(a: StitchDef, b: StitchDef)
    ensures
        !a.has_insertion ==> a.spec_path_segments() == 1,
        a.has_insertion ==> a.spec_path_segments() == a.pre_wraps + 1,
        a.has_insertion == b.has_insertion && a.pre_wraps == b.pre_wraps ==> a.spec_path_segments()
            == b.spec_path_segments(),
{
}

/// Registering a definition and then looking its name up gives that
/// definition back, and leaves every other name as it was.
pub proof fn lemma_register_then_lookup(
    before: Map<Seq<char>, StitchDef>,
    after: Map<Seq<char>, StitchDef>,
    def: StitchDef,
    other: Seq<char>,
)
    requires
        after == before.insert(def.id@, def),
    ensures
        after.contains_key(def.id@),
        after[def.id@] == def,
        other != def.id@ ==> after.contains_key(other) == before.contains_key(other),
        other != def.id@ && before.contains_key(other) ==> after[other] == before[other],
{
}

/// Among `Repeated2` stitches (tr and taller), more pre-wraps make a
/// strictly taller stitch with a looser insertion — strictly looser until
/// the stiffness floor is reached (from five pre-wraps on).
pub proof fn lemma_taller_stitches_give_more(shorter: StitchDef, taller: StitchDef)
    requires
        shorter.has_insertion,
        taller.has_insertion,
        shorter.draw_through == DrawThrough::Repeated2,
        taller.draw_through == DrawThrough::Repeated2,
        shorter.pre_wraps < taller.pre_wraps,
    ensures
        shorter.spec_height_halves() < taller.spec_height_halves(),
        taller.spec_insertion_stiffness_hundredths() <= shorter.spec_insertion_stiffness_hundredths(),
        shorter.pre_wraps < 5 ==> taller.spec_insertion_stiffness_hundredths()
            < shorter.spec_insertion_stiffness_hundredths(),
{
}

/// An `AllAtOnce` stitch (htr) comes out shorter than a `Repeated2`
/// stitch (tr) with the same, non-zero, number of pre-wraps: it clears
/// every loop in one motion instead of stepwise.
pub proof fn lemma_all_at_once_is_shorter(all_at_once: StitchDef, repeated: StitchDef)
    requires
        all_at_once.has_insertion,
        repeated.has_insertion,
        all_at_once.draw_through == DrawThrough::AllAtOnce,
        repeated.draw_through == DrawThrough::Repeated2,
        all_at_once.pre_wraps == repeated.pre_wraps,
        repeated.pre_wraps >= 1,
    ensures
        all_at_once.spec_height_halves() < repeated.spec_height_halves(),
{
}

/// A stitch without an insertion (a chain) is the loosest connection of
/// all: any inserted stitch up to four pre-wraps, or of any draw-through
/// other than `Repeated2`, is stiffer.
pub proof fn lemma_chain_is_loosest(chain: StitchDef, inserted: StitchDef)
    requires
        !chain.has_insertion,
        inserted.has_insertion,
        inserted.draw_through == DrawThrough::Repeated2 ==> inserted.pre_wraps <= 4,
    ensures
        chain.spec_insertion_stiffness_hundredths() < inserted.spec_insertion_stiffness_hundredths(),
{
}

/// Zero-height stitches: a stitch without an insertion, and a slip
/// stitch, add no height.
pub proof fn lemma_zero_height_stitches(def: StitchDef)
    requires
        !def.has_insertion || def.draw_through == DrawThrough::SlipClear,
    ensures
        def.spec_height_halves() == 0,
{
}

} // verus!
