//! Ownership of the segments of the continuous relaxed yarn path: the
//! physical strand doesn't teleport between stitches, so consecutive
//! stitches in working order are joined by a "bridge" segment whenever
//! their positions don't already coincide, beside each stitch's own
//! base-to-top sub-path.
use vstd::prelude::*;

use crate::graph::StitchRef;

verus! {

/// Which stitch(es) a segment belongs to, for reporting *where* a
/// self-intersection is.
#[derive(Debug, Clone, Copy, PartialEq, Eq, Hash, Structural)]
pub enum SegmentOwner {
    /// Part of this stitch's own base-to-top sub-path.
    Stitch(StitchRef),
    /// The connecting strand between two consecutive stitches in working
    /// order (`from` -> `to`), when their positions don't coincide.
    Bridge(StitchRef, StitchRef),
}

} // verus!
