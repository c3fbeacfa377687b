//! Data of the learning components: the direction of an optimisation and the vocabulary
//! of two-dimensional agents.

pub mod logic_2d;

use vstd::prelude::*;

verus! {

/// Whether a score is to be made as large or as small as possible.
#[derive(Debug, Clone, Copy, PartialEq, Eq, Hash, Structural)]
pub enum OptimizationObjective {
    Maximize,
    Minimize,
}

impl Default for OptimizationObjective {
    fn default() -> (r: Self)
        ensures
            r == OptimizationObjective::Maximize,
    {
        OptimizationObjective::Maximize
    }
}

} // verus!
