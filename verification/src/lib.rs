//! A verified Wave Function Collapse generation engine.
//!
//! The engine samples a grid of cells whose final colors are mutually
//! consistent with adjacency statistics learned from a small example
//! image, and exposes an incremental stepping interface so a host can
//! render the run as an animation.  Decoding the example image and
//! painting on the host's drawing surface are left to the host; the
//! engine works on plain pixel values and hands back plain colors.
//!
//! The modules follow the engine's components: `catalog` extracts
//! patterns and adjacency statistics from the example image, `stats`
//! holds the immutable frequency and compatibility tables, `wave`
//! holds the cell grid and the constraint propagation, `observe`
//! chooses and samples cells, `rng` is the deterministic random
//! stream, `engine` is the run's state machine, and `render` maps
//! cells to colors for the host to paint.

pub mod catalog;
pub mod engine;
pub mod observe;
pub mod render;
pub mod rng;
pub mod stats;
pub mod wave;

use vstd::prelude::*;

verus! {

} // verus!
