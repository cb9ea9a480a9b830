//! Verified core of a musician-placement optimizer.
//!
//! A rectangular room holds a stage; point-like musicians stand on the
//! stage and play for a fixed set of attendees, each with a per-instrument
//! taste. The engine maintains, under single-musician moves and pairwise
//! swaps, an exact visibility-weighted score without recomputing it from
//! scratch. All geometry and scoring is carried out in exact integer
//! arithmetic so that the incremental bookkeeping can be proved equal to a
//! from-scratch rebuild.

use vstd::prelude::*;

pub mod geometry;
pub mod intmath;
pub mod draw;
pub mod engine;
pub mod problem;
pub mod rng;
pub mod solution;
pub mod solver;
pub mod stats;
pub mod solver_sa;

verus! {

pub use geometry::Point;

} // verus!
