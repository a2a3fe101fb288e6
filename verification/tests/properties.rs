use morse_graph::{
    Lifetime, MorseComplex, MorseError, MorseKind, MorseSmaleComplex, PointedUnionFind,
    ScalarGraph,
};

fn grid_graph() -> ScalarGraph {
    let values: [i64; 9] = [6, 2, 3, 5, 4, -5, 0, 1, 10];
    let edges: [(usize, usize); 12] = [
        (0, 1),
        (1, 2),
        (0, 3),
        (1, 4),
        (2, 5),
        (3, 4),
        (4, 5),
        (3, 6),
        (4, 7),
        (5, 8),
        (6, 7),
        (7, 8),
    ];
    let mut graph = ScalarGraph::new();
    for value in values {
        graph.add_node(Some(value));
    }
    for (a, b) in edges {
        graph.add_edge(a, b, 1);
    }
    graph
}

#[test]
fn global_extremum_is_unique_and_most_extreme() {
    let graph = grid_graph();
    let complex = MorseSmaleComplex::from_graph(&graph).unwrap();

    let descending = complex.descending_complex.get_persistence();
    let infinite: Vec<usize> = (0..9)
        .filter(|v| descending[v] == Lifetime::Infinite)
        .collect();
    assert_eq!(infinite, vec![8]);

    let ascending = complex.ascending_complex.get_persistence();
    let infinite: Vec<usize> = (0..9)
        .filter(|v| ascending[v] == Lifetime::Infinite)
        .collect();
    assert_eq!(infinite, vec![5]);
}

#[test]
fn absorbed_nodes_have_zero_persistence() {
    let mut graph = ScalarGraph::new();
    for value in [5i64, 3, 1] {
        graph.add_node(Some(value));
    }
    graph.add_edge(0, 1, 1);
    graph.add_edge(1, 2, 1);
    let complex = MorseComplex::from_graph(MorseKind::Descending, &graph).unwrap();
    let lifetimes = complex.get_persistence();
    // a chain has one maximum; every other node is absorbed without a merge
    assert_eq!(lifetimes[&0], Lifetime::Infinite);
    assert_eq!(lifetimes[&1], Lifetime::Finite(0));
    assert_eq!(lifetimes[&2], Lifetime::Finite(0));
    assert!(complex.filtration.is_empty());
}

#[test]
fn merge_lifetime_is_absolute_scalar_gap() {
    // two maxima (10 at node 0, 7 at node 2) meet at the saddle node 1 (value 1):
    // the weaker basin dies at time |7 - 1| = 6
    let mut graph = ScalarGraph::new();
    for value in [10i64, 1, 7] {
        graph.add_node(Some(value));
    }
    graph.add_edge(0, 1, 1);
    graph.add_edge(1, 2, 1);
    let complex = MorseComplex::from_graph(MorseKind::Descending, &graph).unwrap();
    let lifetimes = complex.get_persistence();
    assert_eq!(lifetimes[&0], Lifetime::Infinite);
    assert_eq!(lifetimes[&1], Lifetime::Finite(0));
    assert_eq!(lifetimes[&2], Lifetime::Finite(6));
    assert_eq!(complex.filtration.len(), 1);
    assert_eq!(complex.filtration[0].time, 6);
    assert_eq!(complex.filtration[0].destroyed_cell, 2);
    assert_eq!(complex.filtration[0].owning_cell, 0);
}

#[test]
fn filtration_is_time_sorted_and_consistent() {
    let graph = grid_graph();
    let complex = MorseComplex::from_graph(MorseKind::Descending, &graph).unwrap();
    let lifetimes = complex.get_persistence();
    let filtration = &complex.filtration;
    assert_eq!(filtration.len(), 2);
    for w in filtration.windows(2) {
        assert!(w[0].time <= w[1].time);
    }
    // every destroyed cell's persistence is exactly the event's time
    for step in filtration {
        assert_eq!(lifetimes[&step.destroyed_cell], Lifetime::Finite(step.time));
    }
}

#[test]
fn ancestors_are_self_owned_extrema() {
    let mut graph = ScalarGraph::new();
    for value in [-1i64, 0, 1] {
        graph.add_node(Some(value));
    }
    graph.add_edge(0, 1, 0);
    graph.add_edge(0, 2, 0);
    graph.add_edge(1, 2, 0);
    let complex = MorseComplex::from_graph(MorseKind::Descending, &graph).unwrap();
    let owners = complex.get_complex();
    let lifetimes = complex.get_persistence();
    for v in 0..3usize {
        let owner = owners[&v];
        // the owner owns itself, and an owner that was never destroyed is the
        // global extremum
        assert_eq!(owners[&owner], owner);
        assert_eq!(lifetimes[&owner], Lifetime::Infinite);
        assert_eq!(owner, 2);
    }
}

#[test]
fn unusable_value_is_rejected() {
    let mut graph = ScalarGraph::new();
    graph.add_node(Some(1));
    graph.add_node(None);
    graph.add_edge(0, 1, 1);
    let err = MorseComplex::from_graph(MorseKind::Descending, &graph).unwrap_err();
    assert_eq!(err, MorseError::NanValue { node: 1 });
    let err = MorseSmaleComplex::from_graph(&graph).unwrap_err();
    assert_eq!(err, MorseError::NanValue { node: 1 });
}

#[test]
fn dangling_edge_is_rejected() {
    let mut graph = ScalarGraph::new();
    graph.add_node(Some(1));
    graph.add_node(Some(2));
    graph.add_edge(0, 7, 1);
    let err = MorseComplex::from_graph(MorseKind::Ascending, &graph).unwrap_err();
    assert_eq!(err, MorseError::MissingNode { node: 7 });
    assert!(err.describe().len() > 0);
}

#[test]
fn steepest_neighbor_uses_edge_weights() {
    // node 2 (value 4) joins the basins of node 0 (value 9) and node 1
    // (value 8). The surviving basin belongs to node 0, but the grade toward
    // node 1 is steeper: 8/1 > 9/100.
    let mut graph = ScalarGraph::new();
    for value in [9i64, 8, 4] {
        graph.add_node(Some(value));
    }
    graph.add_edge(0, 2, 100);
    graph.add_edge(1, 2, 1);
    let complex = MorseComplex::from_graph(MorseKind::Descending, &graph).unwrap();
    let owners = complex.get_complex();
    // the saddle is attributed to the basin it most steeply rises toward
    assert_eq!(owners[&2], 1);
    let lifetimes = complex.get_persistence();
    assert_eq!(lifetimes[&0], Lifetime::Infinite);
    assert_eq!(lifetimes[&1], Lifetime::Finite(4));
}

#[test]
fn pointed_union_find_keeps_left_representative() {
    let mut uf = PointedUnionFind::new(4);
    for z in 0..4 {
        assert_eq!(uf.find(z), z);
    }
    uf.union(1, 0);
    assert_eq!(uf.find(0), 1);
    assert_eq!(uf.find(1), 1);
    uf.union(2, 1);
    assert_eq!(uf.find(0), 2);
    assert_eq!(uf.find(1), 2);
    assert_eq!(uf.find(2), 2);
    assert_eq!(uf.find(3), 3);
}

#[test]
fn ascending_and_descending_are_independent() {
    let mut graph = ScalarGraph::new();
    for value in [-1i64, 1] {
        graph.add_node(Some(value));
    }
    graph.add_edge(0, 1, 0);
    let complex = MorseSmaleComplex::from_graph(&graph).unwrap();
    let descending = complex.descending_complex.get_persistence();
    assert_eq!(descending[&0], Lifetime::Finite(0));
    assert_eq!(descending[&1], Lifetime::Infinite);
    let ascending = complex.ascending_complex.get_persistence();
    assert_eq!(ascending[&0], Lifetime::Infinite);
    assert_eq!(ascending[&1], Lifetime::Finite(0));
}
