use vstd::prelude::*;

verus! {

/// The kind of a link in the graph of models and solutions: a rewriting of a model into
/// another, or a feature that a solution needs.
#[derive(Debug, PartialEq, Eq, Clone, Copy, Structural)]
pub enum SolverGraphEdge {
    Translation,
    Feature,
}

} // verus!
