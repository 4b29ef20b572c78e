//! Error taxonomy of the analysis core.

use vstd::prelude::*;

verus! {

/// Failures the analysis core reports to its caller.
#[derive(Debug, Clone, Copy, PartialEq, Eq, Structural)]
pub enum AnalysisError {
    /// The input sequence has zero records; aggregation has nothing to group.
    EmptyDataset,
    /// Two records share a `username`, violating node identity.
    DuplicateUsername,
    /// The distance engine was started from a node absent from the graph.
    UnknownNode,
}

impl AnalysisError {
    /// A short human-readable description, for reporting at the boundary.
    pub fn describe(&self) -> (r: &'static str)
        ensures
            r@ == match *self {
                AnalysisError::EmptyDataset => "empty dataset"@,
                AnalysisError::DuplicateUsername => "duplicate username"@,
                AnalysisError::UnknownNode => "unknown node"@,
            },
    {
        match *self {
            AnalysisError::EmptyDataset => "empty dataset",
            AnalysisError::DuplicateUsername => "duplicate username",
            AnalysisError::UnknownNode => "unknown node",
        }
    }
}

} // verus!
