//! The solver interface: what a solving strategy produces, and the
//! decision rule of the best-score ledger.

use vstd::prelude::*;
use crate::geometry::Point;
use crate::problem::ProblemId;
use crate::solution::Solution;
use crate::engine::EngineError;

verus! {

/// One progress snapshot of an annealing run, captured at a fixed
/// iteration interval: the scores, the temperature, and the proposal
/// and acceptance counts since the last snapshot.
#[derive(Clone, Copy, Debug, PartialEq, Eq, Structural)]
pub struct ProgressRow {
    pub iteration: u64,
    /// Current aggregate score, in millionths.
    pub score: i128,
    /// Best aggregate score so far, in millionths.
    pub best: i128,
    pub temperature: i128,
    /// Accepted proposals that did not lower the score.
    pub accepted_positive: u64,
    /// Accepted proposals that lowered the score.
    pub accepted_negative: u64,
    /// Evaluated proposals.
    pub proposals: u64,
}

/// The outcome of one solving run.
pub struct Solved {
    pub problem_id: ProblemId,
    pub solver_name: String,
    /// Aggregate score, in millionths.
    pub score: i128,
    pub placements: Vec<Point>,
    pub volumes: Vec<i64>,
    /// Per-interval progress rows of the run.
    pub progress: Vec<ProgressRow>,
}

impl Solved {
    /// The answer as a plain solution value.
    pub fn solution(&self) -> (r: Solution)
        ensures
            r.placements@ == self.placements@,
            r.volumes@ == self.volumes@,
    {
        let mut placements: Vec<Point> = Vec::new();
        let mut volumes: Vec<i64> = Vec::new();
        let mut i: usize = 0;
        let n: usize = self.placements.len();
        while i < n
            invariant
                0 <= i <= n,
                n == self.placements@.len(),
                placements@ == self.placements@.take(i as int),
            decreases n - i,
        {
            placements.push(self.placements[i]);
            proof {
                assert(placements@ =~= self.placements@.take(i as int + 1));
            }
            i = i + 1;
        }
        let mut i2: usize = 0;
        let n2: usize = self.volumes.len();
        while i2 < n2
            invariant
                0 <= i2 <= n2,
                n2 == self.volumes@.len(),
                volumes@ == self.volumes@.take(i2 as int),
            decreases n2 - i2,
        {
            volumes.push(self.volumes[i2]);
            proof {
                assert(volumes@ =~= self.volumes@.take(i2 as int + 1));
            }
            i2 = i2 + 1;
        }
        proof {
            assert(placements@ =~= self.placements@);
            assert(volumes@ =~= self.volumes@);
        }
        Solution { placements, volumes }
    }
}

/// The ledger keeps a solution exactly when it beats the recorded best,
/// or when nothing is recorded yet.
pub fn is_improvement(best: Option<i128>, score: i128) -> (r: bool)
    ensures
        r == (best is None || best->0 < score),
{
    match best {
        Some(b) => b < score,
        None => true,
    }
}

/// A solving strategy: its problem, its name, and a run.
pub trait Solver {
    fn problem_id(&self) -> ProblemId;

    fn name(&self) -> String;

    fn solve(&mut self) -> Result<Solved, EngineError>;
}

} // verus!
