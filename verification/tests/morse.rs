use morse_graph::{Lifetime, MorseComplex, MorseKind, MorseSmaleComplex, ScalarGraph};

fn build_graph(values: &[i64], edges: &[(usize, usize, u64)]) -> (ScalarGraph, Vec<usize>) {
    let mut graph = ScalarGraph::new();
    let mut node_lookup = Vec::with_capacity(values.len());
    for value in values {
        node_lookup.push(graph.add_node(Some(*value)));
    }
    for (a, b, w) in edges {
        graph.add_edge(node_lookup[*a], node_lookup[*b], *w);
    }
    (graph, node_lookup)
}

#[test]
fn test_single() {
    let (graph, node_lookup) = build_graph(&[-1, 1], &[(0, 1, 0)]);
    let complex = MorseComplex::from_graph(MorseKind::Descending, &graph).unwrap();
    let lifetimes = complex.get_persistence();
    assert_eq!(lifetimes[&node_lookup[0]], Lifetime::Finite(0));
    assert_eq!(lifetimes[&node_lookup[1]], Lifetime::Infinite);
}

#[test]
fn test_triangle() {
    let (graph, node_lookup) = build_graph(&[-1, 0, 1], &[(0, 1, 0), (0, 2, 0), (1, 2, 0)]);
    let complex = MorseComplex::from_graph(MorseKind::Descending, &graph).unwrap();
    let lifetimes = complex.get_persistence();
    assert_eq!(lifetimes[&node_lookup[0]], Lifetime::Finite(0));
    assert_eq!(lifetimes[&node_lookup[1]], Lifetime::Finite(0));
    assert_eq!(lifetimes[&node_lookup[2]], Lifetime::Infinite);
}

#[test]
fn test_square() {
    let (graph, node_lookup) = build_graph(
        &[1, -1, 0, 2],
        &[(0, 1, 0), (0, 2, 0), (1, 3, 0), (2, 3, 0)],
    );
    let complex = MorseComplex::from_graph(MorseKind::Descending, &graph).unwrap();
    let lifetimes = complex.get_persistence();
    assert_eq!(lifetimes[&node_lookup[0]], Lifetime::Finite(1));
    assert_eq!(lifetimes[&node_lookup[1]], Lifetime::Finite(0));
    assert_eq!(lifetimes[&node_lookup[2]], Lifetime::Finite(0));
    assert_eq!(lifetimes[&node_lookup[3]], Lifetime::Infinite);
}

#[test]
fn test_all_equal_values() {
    let (graph, node_lookup) = build_graph(
        &[0, 0, 0, 0, 1],
        &[(0, 1, 1), (0, 2, 1), (1, 3, 1), (2, 3, 1), (2, 4, 1)],
    );
    let complex = MorseComplex::from_graph(MorseKind::Descending, &graph).unwrap();
    let lifetimes = complex.get_persistence();
    println!("{:?}", lifetimes);
    assert_eq!(lifetimes[&node_lookup[0]], Lifetime::Finite(0));
    assert_eq!(lifetimes[&node_lookup[1]], Lifetime::Finite(0));
    assert_eq!(lifetimes[&node_lookup[2]], Lifetime::Finite(0));
    assert_eq!(lifetimes[&node_lookup[3]], Lifetime::Finite(0));
    assert_eq!(lifetimes[&node_lookup[4]], Lifetime::Infinite);
}

#[test]
fn test_big_square_morse_smale() {
    let (graph, node_lookup) = build_graph(
        &[6, 2, 3, 5, 4, -5, 0, 1, 10],
        &[
            (0, 1, 1),
            (1, 2, 1),
            (0, 3, 1),
            (1, 4, 1),
            (2, 5, 1),
            (3, 4, 1),
            (4, 5, 1),
            (3, 6, 1),
            (4, 7, 1),
            (5, 8, 1),
            (6, 7, 1),
            (7, 8, 1),
        ],
    );
    let complex = MorseSmaleComplex::from_graph(&graph).unwrap();
    let lifetimes = complex.descending_complex.get_persistence();
    assert_eq!(lifetimes[&node_lookup[0]], Lifetime::Finite(5));
    assert_eq!(lifetimes[&node_lookup[1]], Lifetime::Finite(0));
    assert_eq!(lifetimes[&node_lookup[2]], Lifetime::Finite(1));
    assert_eq!(lifetimes[&node_lookup[3]], Lifetime::Finite(0));
    assert_eq!(lifetimes[&node_lookup[4]], Lifetime::Finite(0));
    assert_eq!(lifetimes[&node_lookup[5]], Lifetime::Finite(0));
    assert_eq!(lifetimes[&node_lookup[6]], Lifetime::Finite(0));
    assert_eq!(lifetimes[&node_lookup[7]], Lifetime::Finite(0));
    assert_eq!(lifetimes[&node_lookup[8]], Lifetime::Infinite);

    let lifetimes = complex.ascending_complex.get_persistence();
    println!("{:?}", lifetimes);
    assert_eq!(lifetimes[&node_lookup[0]], Lifetime::Finite(0));
    assert_eq!(lifetimes[&node_lookup[1]], Lifetime::Finite(1));
    assert_eq!(lifetimes[&node_lookup[2]], Lifetime::Finite(0));
    assert_eq!(lifetimes[&node_lookup[3]], Lifetime::Finite(0));
    assert_eq!(lifetimes[&node_lookup[4]], Lifetime::Finite(0));
    assert_eq!(lifetimes[&node_lookup[5]], Lifetime::Infinite);
    assert_eq!(lifetimes[&node_lookup[6]], Lifetime::Finite(4));
    assert_eq!(lifetimes[&node_lookup[7]], Lifetime::Finite(0));
    assert_eq!(lifetimes[&node_lookup[8]], Lifetime::Finite(0));
}

#[test]
fn test_filtration() {
    let (graph, node_lookup) = build_graph(
        &[3, -1, 10, 2, 7],
        &[(0, 1, 0), (0, 3, 0), (1, 2, 0), (1, 4, 0), (3, 4, 0)],
    );
    let complex = MorseComplex::from_graph(MorseKind::Descending, &graph).unwrap();
    let lifetimes = complex.get_persistence();
    println!("{:?}", lifetimes);
    assert_eq!(lifetimes[&node_lookup[0]], Lifetime::Finite(1));
    assert_eq!(lifetimes[&node_lookup[1]], Lifetime::Finite(0));
    assert_eq!(lifetimes[&node_lookup[2]], Lifetime::Infinite);
    assert_eq!(lifetimes[&node_lookup[3]], Lifetime::Finite(0));
    assert_eq!(lifetimes[&node_lookup[4]], Lifetime::Finite(8));

    let filtration = complex.filtration;
    let expected = [
        (1, node_lookup[0], node_lookup[4]),
        (8, node_lookup[4], node_lookup[2]),
    ];
    assert_eq!(filtration.len(), expected.len());
    for (actual, expected) in filtration.iter().zip(expected.iter()) {
        assert_eq!(actual.time, expected.0);
        assert_eq!(actual.destroyed_cell, expected.1);
        assert_eq!(actual.owning_cell, expected.2);
    }
}
