use vstd::prelude::*;

verus! {

/// A persistence value: how large a scalar change is needed to merge an
/// extremum's basin into a more extreme one. The global extremum of a
/// direction never merges and has infinite persistence.
#[derive(Debug, Clone, Copy, PartialEq, Eq, Structural)]
pub enum Lifetime {
    Finite(u64),
    Infinite,
}

/// The merge record of a processed node.
#[derive(Debug, Clone, Copy)]
pub struct MorseData {
    /// The node's persistence.
    pub lifetime: Lifetime,
    /// The extremum that absorbed this node's basin, if this node was the
    /// destroyed side of a merge event; `None` otherwise.
    pub merge_parent: Option<usize>,
    /// The extremum owning the basin this node belongs to.
    pub ancestor: usize,
}

/// One basin-merge event: at `time`, the basin of the extremum
/// `destroyed_cell` is absorbed into the basin of `owning_cell`.
#[derive(Debug, Clone, Copy, PartialEq, Eq, Structural)]
pub struct MorseFiltrationStep {
    pub time: u64,
    pub destroyed_cell: usize,
    pub owning_cell: usize,
}

} // verus!
