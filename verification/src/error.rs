use vstd::prelude::*;

verus! {

/// The failure surface of complex construction. Every failure is a
/// precondition violation on the input graph; each variant carries the
/// offending node or edge for diagnosis.
#[derive(Debug, Clone, Copy, PartialEq, Eq, Structural)]
pub enum MorseError {
    /// A node's scalar reading was unusable.
    NanValue { node: usize },
    /// A node referenced by the graph's edge list is not in the graph.
    MissingNode { node: usize },
    /// A node had no neighbors where neighbors were required.
    MissingNeighbors { node: usize },
    /// An edge had no usable weight.
    MissingEdgeWeight { edge: usize },
    /// An expected edge between two nodes was absent.
    MissingEdge { node: usize, other: usize },
    /// No surviving basin could be selected for a merge.
    NoMaximum { node: usize },
    /// A processed node was missing its merge record.
    MissingData { node: usize },
}

impl MorseError {
    /// A short description of the error, for reporting outside the library.
    pub fn describe(&self) -> (s: &'static str)
        ensures
            s@.len() > 0,
    {
        proof {
            reveal_strlit("node had an unusable scalar value");
            reveal_strlit("node referenced by an edge is missing from the graph");
            reveal_strlit("node had no neighbors but neighbors were expected");
            reveal_strlit("edge had no usable weight");
            reveal_strlit("expected edge was missing from the graph");
            reveal_strlit("no surviving basin could be selected");
            reveal_strlit("no merge record was found for a processed node");
        }
        match self {
            MorseError::NanValue { .. } => "node had an unusable scalar value",
            MorseError::MissingNode { .. } => "node referenced by an edge is missing from the graph",
            MorseError::MissingNeighbors { .. } => "node had no neighbors but neighbors were expected",
            MorseError::MissingEdgeWeight { .. } => "edge had no usable weight",
            MorseError::MissingEdge { .. } => "expected edge was missing from the graph",
            MorseError::NoMaximum { .. } => "no surviving basin could be selected",
            MorseError::MissingData { .. } => "no merge record was found for a processed node",
        }
    }
}

} // verus!
