//! Conflict analysis by minimum cut: the implication graph becomes a flow
//! network whose vertex weights a heuristic sets, and the learned clause is
//! read off the cut.
pub mod asserting;
pub mod chronology;
pub mod decisions;
pub mod functions;
pub mod heuristic;
pub mod wiring;

use crate::cdcl::mincut::heuristic::MinCutConflict;
use num::BigUint;
use vstd::prelude::*;

verus! {

/// The analysis that learns from a smallest cut.
pub type CutMinimal = MinCutConflict<usize, functions::MinCutFunction>;

/// The analysis by cut that finds the first unique implication point.
pub type CutFirstUIP = MinCutConflict<usize, functions::FirstUIPFunction>;

/// The analysis by cut with unique implication points of two levels.
pub type CutSecondUIP = MinCutConflict<usize, functions::SecondUIPFunction>;

/// The analysis by cut with unique implication points of three levels.
pub type CutThirdUIP = MinCutConflict<usize, functions::ThirdUIPFunction>;

/// The analysis by cut with unique implication points of every level, in
/// numbers without bound.
pub type CutAllUIP = MinCutConflict<BigUint, functions::AllUIPFunction>;

/// The analysis by cut with unique implication points of every level, as far
/// as a machine word reaches.
pub type CutSatAllUIP = MinCutConflict<usize, functions::SaturatingAllUIPFunction>;

/// The analysis by cut that learns decisions only.
pub type CutRelSat = MinCutConflict<usize, functions::RelSatFunction>;

} // verus!
