use vstd::prelude::*;

verus! {

/// One undirected edge: two endpoints and a non-negative weight. The weight
/// is used only as the divisor when measuring how steeply the scalar field
/// changes along the edge.
#[derive(Debug, Clone, Copy, PartialEq, Eq, Structural)]
pub struct GraphEdge {
    pub a: usize,
    pub b: usize,
    pub weight: u64,
}

/// An undirected graph whose nodes carry scalar readings.
///
/// A node's reading is `Some(v)` for a usable scalar value and `None` for an
/// unusable sample (a reading that could not be taken); constructing a complex
/// over a graph with a `None` reading fails with `MorseError::NanValue`.
/// Edges are kept in insertion order; that order is the deterministic
/// tie-break for neighbor enumeration.
#[derive(Debug)]
pub struct ScalarGraph {
    values: Vec<Option<i64>>,
    edges: Vec<GraphEdge>,
}

impl ScalarGraph {
    /// The per-node scalar readings, indexed by node id.
    pub closed spec fn val_seq(&self) -> Seq<Option<i64>> {
        self.values@
    }

    /// The edge list, in insertion order.
    pub closed spec fn edge_seq(&self) -> Seq<GraphEdge> {
        self.edges@
    }

    /// The edge at position `j` names only nodes of the graph.
    pub open spec fn edge_ok(&self, j: int) -> bool {
        self.edge_seq()[j].a < self.val_seq().len() && self.edge_seq()[j].b
            < self.val_seq().len()
    }

    /// Every edge endpoint names a node of the graph.
    pub open spec fn edges_ok(&self) -> bool {
        forall|j: int| 0 <= j < self.edge_seq().len() ==> #[trigger] self.edge_ok(j)
    }

    /// Every node carries a usable scalar reading.
    pub open spec fn values_ok(&self) -> bool {
        forall|v: int| 0 <= v < self.val_seq().len() ==> self.val_seq()[v] is Some
    }

    /// An empty graph.
    pub fn new() -> (g: Self)
        ensures
            g.val_seq().len() == 0,
            g.edge_seq().len() == 0,
    {
        ScalarGraph { values: Vec::new(), edges: Vec::new() }
    }

    /// Adds a node carrying the given reading and returns its id. Ids are
    /// assigned consecutively from zero.
    pub fn add_node(&mut self, value: Option<i64>) -> (idx: usize)
        ensures
            idx == old(self).val_seq().len(),
            final(self).val_seq() == old(self).val_seq().push(value),
            final(self).edge_seq() == old(self).edge_seq(),
    {
        let idx = self.values.len();
        self.values.push(value);
        idx
    }

    /// Adds an undirected edge. Endpoints are not checked here; a dangling
    /// endpoint makes complex construction fail with `MorseError::MissingNode`.
    pub fn add_edge(&mut self, a: usize, b: usize, weight: u64)
        ensures
            final(self).val_seq() == old(self).val_seq(),
            final(self).edge_seq() == old(self).edge_seq().push(GraphEdge { a, b, weight }),
    {
        self.edges.push(GraphEdge { a, b, weight });
    }

    /// The number of nodes.
    pub fn node_count(&self) -> (n: usize)
        ensures
            n == self.val_seq().len(),
    {
        self.values.len()
    }

    /// The number of edges.
    pub fn edge_count(&self) -> (n: usize)
        ensures
            n == self.edge_seq().len(),
    {
        self.edges.len()
    }

    /// The reading of node `v`.
    pub fn value_of(&self, v: usize) -> (r: Option<i64>)
        requires
            v < self.val_seq().len(),
        ensures
            r == self.val_seq()[v as int],
    {
        self.values[v]
    }

    /// The edge at position `j` of the edge list.
    pub fn edge_at(&self, j: usize) -> (e: GraphEdge)
        requires
            j < self.edge_seq().len(),
        ensures
            e == self.edge_seq()[j as int],
    {
        self.edges[j]
    }
}

/// Whether nodes `u` and `v` share an edge.
pub open spec fn adjacent(edges: Seq<GraphEdge>, u: usize, v: usize) -> bool {
    exists|j: int|
        0 <= j < edges.len() && ((edges[j].a == u && edges[j].b == v) || (edges[j].a == v
            && edges[j].b == u))
}

/// What one edge contributes to the neighbor list of node `v`: the other
/// endpoint, paired with the edge's weight. A self-loop contributes `v` once.
pub open spec fn edge_touch(e: GraphEdge, v: usize) -> Seq<(usize, u64)> {
    if e.a == v {
        seq![(e.b, e.weight)]
    } else if e.b == v {
        seq![(e.a, e.weight)]
    } else {
        Seq::empty()
    }
}

/// The neighbors of node `v`, with edge weights, in edge-list order. Parallel
/// edges contribute one entry each.
pub open spec fn nbrs_of(edges: Seq<GraphEdge>, v: usize) -> Seq<(usize, u64)>
    decreases edges.len(),
{
    if edges.len() == 0 {
        Seq::empty()
    } else {
        nbrs_of(edges.drop_last(), v) + edge_touch(edges.last(), v)
    }
}

} // verus!
