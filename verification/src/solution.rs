//! A mutable answer to a problem: one position and one volume per musician.

use vstd::prelude::*;
use crate::geometry::Point;
use crate::problem::Problem;

verus! {

/// Loudness values are integers from 0 (muted) to `MAX_VOLUME`.
pub const MAX_VOLUME: i64 = 10;

#[derive(Clone, Debug)]
pub struct Solution {
    pub placements: Vec<Point>,
    pub volumes: Vec<i64>,
}

impl Solution {
    /// The shape conditions a solution must meet for a given problem.
    pub open spec fn fits(&self, p: &Problem) -> bool {
        &&& self.placements@.len() == p.nm()
        &&& self.volumes@.len() == p.nm()
        &&& (forall|i: int|
            0 <= i < p.nm() ==> 0 <= #[trigger] self.volumes@[i] <= MAX_VOLUME)
    }
}

} // verus!
