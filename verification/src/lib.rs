//! The insertion-graph engine of a crochet-scheme design tool: stitch
//! registry, insertion graph, and the structural checks placement,
//! relaxation and validation are built on.
use vstd::prelude::*;

pub mod demo;
pub mod geometry;
pub mod graph;
pub mod path;
pub mod relax;
pub mod stitch;
pub mod validate;
pub mod yarn_shape;

verus! {
}
