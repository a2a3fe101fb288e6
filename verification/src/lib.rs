//! Morse complex construction over scalar-labeled undirected graphs.
//!
//! Given an undirected graph whose nodes carry scalar readings and whose
//! edges carry weights, the library partitions the nodes into basins owned by
//! local extrema, computes a persistence value for each extremum, and derives
//! a filtration: a time-ordered sequence of basin-merge events that
//! progressively simplifies the complex.
use vstd::prelude::*;

pub mod cells;
pub mod complex;
pub mod error;
pub mod graph;
pub mod invariants;
pub mod laws;
pub mod model;
pub mod order;
pub mod points;

pub use cells::PointedUnionFind;
pub use complex::{MorseComplex, MorseSmaleComplex};
pub use error::MorseError;
pub use graph::{GraphEdge, ScalarGraph};
pub use points::{Lifetime, MorseData, MorseFiltrationStep};

verus! {

/// Direction of a Morse complex: `Descending` partitions the graph into
/// basins of maxima, `Ascending` into basins of minima.
#[derive(Debug, Clone, Copy, PartialEq, Eq, Structural)]
pub enum MorseKind {
    Ascending,
    Descending,
}

} // verus!
