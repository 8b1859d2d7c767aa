use graphalgs::sort::{topological_sort, Graph};

fn assert_valid(order: &[u64], vertices: &[u64], edges: &[(u64, u64)]) {
    assert_eq!(order.len(), vertices.len());
    for v in vertices {
        assert!(order.contains(v));
    }
    let pos = |x: u64| order.iter().position(|&y| y == x).unwrap();
    for &(a, b) in edges {
        assert!(pos(a) < pos(b), "{} must come before {}", a, b);
    }
}

#[test]
fn test_sort_none() {
    let mut graph = Graph::new();
    graph.add_vertex(1);
    graph.add_vertex(2);
    graph.add_vertex(3);
    graph.add_vertex(4);
    graph.add_vertex(5);
    graph.add_vertex(6);
    graph.add_vertex(7);
    graph.add_edge(1, 2, 0);
    graph.add_edge(1, 3, 0);
    graph.add_edge(2, 4, 0);
    graph.add_edge(2, 5, 0);
    graph.add_edge(3, 6, 0);
    graph.add_edge(3, 7, 0);
    let order = topological_sort(&graph).unwrap();
    assert_valid(
        &order,
        &[1, 2, 3, 4, 5, 6, 7],
        &[(1, 2), (1, 3), (2, 4), (2, 5), (3, 6), (3, 7)],
    );

    let mut graph1 = Graph::new();
    graph1.add_vertex(2);
    graph1.add_vertex(3);
    graph1.add_vertex(5);
    graph1.add_vertex(7);
    graph1.add_vertex(8);
    graph1.add_vertex(9);
    graph1.add_vertex(10);
    graph1.add_vertex(11);

    graph1.add_edge(5, 11, 0);
    graph1.add_edge(7, 11, 0);
    graph1.add_edge(7, 8, 0);
    graph1.add_edge(3, 8, 0);
    graph1.add_edge(3, 10, 0);
    graph1.add_edge(11, 2, 0);
    graph1.add_edge(11, 9, 0);
    graph1.add_edge(11, 10, 0);
    graph1.add_edge(8, 9, 0);
    let order1 = topological_sort(&graph1).unwrap();
    assert_valid(
        &order1,
        &[2, 3, 5, 7, 8, 9, 10, 11],
        &[(5, 11), (7, 11), (7, 8), (3, 8), (3, 10), (11, 2), (11, 9), (11, 10), (8, 9)],
    );
}

#[test]
fn sort_detects_three_cycle() {
    let mut graph = Graph::new();
    graph.add_edge(1, 2, 0);
    graph.add_edge(2, 3, 0);
    graph.add_edge(3, 1, 0);
    assert_eq!(topological_sort(&graph), None);
}

#[test]
fn sort_detects_self_loop() {
    let mut graph = Graph::new();
    graph.add_vertex(4);
    graph.add_edge(4, 4, 1);
    assert_eq!(topological_sort(&graph), None);
}

#[test]
fn sort_cycle_behind_acyclic_part() {
    let mut graph = Graph::new();
    graph.add_edge(0, 1, 0);
    graph.add_edge(1, 2, 0);
    graph.add_edge(2, 3, 0);
    graph.add_edge(3, 2, 0);
    assert_eq!(topological_sort(&graph), None);
}

#[test]
fn sort_empty_graph() {
    let graph = Graph::new();
    assert_eq!(topological_sort(&graph), Some(vec![]));
}

#[test]
fn sort_isolated_vertices_and_parallel_edges() {
    let mut graph = Graph::new();
    graph.add_vertex(9);
    graph.add_edge(2, 1, 0);
    graph.add_edge(2, 1, 5);
    graph.add_vertex(2);
    let order = topological_sort(&graph).unwrap();
    assert_valid(&order, &[9, 2, 1], &[(2, 1)]);
}

#[test]
fn sort_chain_has_one_order() {
    let mut graph = Graph::new();
    graph.add_edge(1, 3, 0);
    graph.add_edge(3, 4, 0);
    graph.add_edge(4, 2, 0);
    assert_eq!(topological_sort(&graph), Some(vec![1, 3, 4, 2]));
}

#[test]
fn sort_runs_twice_alike() {
    let mut graph = Graph::new();
    graph.add_edge(5, 11, 0);
    graph.add_edge(7, 11, 0);
    graph.add_edge(11, 2, 0);
    assert_eq!(topological_sort(&graph), topological_sort(&graph));
}
