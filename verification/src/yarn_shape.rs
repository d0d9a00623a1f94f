//! Per-stitch yarn-path structure: how many real loops ("bars") a stitch's
//! post carries, one per pull-through stage.
use vstd::prelude::*;

use crate::stitch::{DrawThrough, StitchDef};

verus! {

pub open spec fn spec_bar_count(def: StitchDef) -> nat {
    if !def.has_insertion {
        0
    } else {
        match def.draw_through {
            DrawThrough::SlipClear => 0,
            DrawThrough::Single => 1,
            DrawThrough::AllAtOnce => 2,
            DrawThrough::Repeated2 => (def.pre_wraps + 1) as nat,
        }
    }
}

/// Number of visible "bars" (real loops, one per pull-through stage) a
/// post has. `Repeated2` stitches (tr and taller) get `pre_wraps + 1`
/// bars, one per stage; `Single` (dc) gets 1, the finishing knot;
/// `AllAtOnce` (htr) clears everything in one motion but still shows two
/// distinct marks (the initial yarn-over across the post and the
/// finishing knot), so it gets 2; `SlipClear` and stitches without an
/// insertion (ss, ch, mr) get none.
pub fn bar_count(def: &StitchDef) -> (n: u32)
    requires
        def.has_insertion && def.draw_through == DrawThrough::Repeated2 ==> def.pre_wraps < u32::MAX,
    ensures
        n == spec_bar_count(*def),
{
    if !def.has_insertion {
        return 0;
    }
    match def.draw_through {
        DrawThrough::SlipClear => 0,
        DrawThrough::Single => 1,
        DrawThrough::AllAtOnce => 2,
        DrawThrough::Repeated2 => def.pre_wraps + 1,
    }
}

/// For `Repeated2` stitches (tr and taller) there is one bar per stage,
/// exactly matching the stitch's height: each bar is one full row, two
/// half rows.
pub proof fn lemma_bars_match_height(def: StitchDef)
    requires
        def.has_insertion,
        def.draw_through == DrawThrough::Repeated2,
    ensures
        2 * spec_bar_count(def) == def.spec_height_halves(),
{
}

/// Stitches with no insertion (ch, mr) and slip stitches carry no bars.
pub proof fn lemma_no_bars_without_a_post(def: StitchDef)
    requires
        !def.has_insertion || def.draw_through == DrawThrough::SlipClear,
    ensures
        spec_bar_count(def) == 0,
{
}

} // verus!
