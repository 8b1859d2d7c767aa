use graphalgs::Graph;

fn directed_example() -> Graph {
    let vertex_names = vec!["s", "t", "x", "y", "z"];
    let mut graph = Graph::new(vertex_names);
    graph.add_edge(0, 1, 10);
    graph.add_edge(0, 3, 5);
    graph.add_edge(1, 2, 1);
    graph.add_edge(1, 3, 2);
    graph.add_edge(2, 4, 4);
    graph.add_edge(3, 1, 3);
    graph.add_edge(3, 2, 9);
    graph.add_edge(3, 4, 2);
    graph.add_edge(4, 0, 7);
    graph.add_edge(4, 2, 6);
    graph
}

#[test]
fn test_dijkstra_dir() {
    let graph = directed_example();
    let start_vertex = 0;
    let distances = Graph::dijkstra(&graph, start_vertex);
    assert_eq!(distances, vec![0, 8, 9, 5, 7]);
}

#[test]
fn test_dijkstra_nao_dir() {
    let vertex_names = vec!["A", "B", "C", "D", "E", "F", "G"];
    let mut graph = Graph::new(vertex_names);
    graph.add_edge(0, 1, 7);
    graph.add_edge(0, 2, 5);
    graph.add_edge(0, 3, 2);
    graph.add_edge(1, 0, 7);
    graph.add_edge(1, 4, 3);
    graph.add_edge(1, 5, 8);
    graph.add_edge(2, 0, 5);
    graph.add_edge(2, 3, 10);
    graph.add_edge(2, 4, 4);
    graph.add_edge(3, 0, 2);
    graph.add_edge(3, 2, 10);
    graph.add_edge(3, 5, 2);
    graph.add_edge(4, 1, 3);
    graph.add_edge(4, 2, 4);
    graph.add_edge(4, 5, 6);
    graph.add_edge(5, 1, 8);
    graph.add_edge(5, 3, 2);
    graph.add_edge(5, 4, 6);

    let start_vertex = 4;
    let distances = Graph::dijkstra(&graph, start_vertex);
    assert_eq!(distances, vec![9, 3, 4, 8, 0, 6, u32::MAX]);
}

#[test]
fn dijkstra_unreachable_vertices_get_sentinel() {
    let mut graph = Graph::new(vec!["a", "b", "c"]);
    graph.add_edge(1, 0, 4);
    let distances = Graph::dijkstra(&graph, 0);
    assert_eq!(distances, vec![0, u32::MAX, u32::MAX]);
}

#[test]
fn dijkstra_single_vertex() {
    let graph = Graph::new(vec!["only"]);
    assert_eq!(Graph::dijkstra(&graph, 0), vec![0]);
}

#[test]
fn dijkstra_parallel_edges_take_the_lighter() {
    let mut graph = Graph::new(vec!["a", "b"]);
    graph.add_edge(0, 1, 9);
    graph.add_edge(0, 1, 3);
    graph.add_edge(0, 1, 5);
    assert_eq!(Graph::dijkstra(&graph, 0), vec![0, 3]);
}

#[test]
fn dijkstra_zero_weights_and_self_loops() {
    let mut graph = Graph::new(vec!["a", "b", "c"]);
    graph.add_edge(0, 0, 0);
    graph.add_edge(0, 1, 0);
    graph.add_edge(1, 2, 0);
    graph.add_edge(2, 0, 1);
    assert_eq!(Graph::dijkstra(&graph, 0), vec![0, 0, 0]);
}

#[test]
fn dijkstra_sums_that_do_not_fit_count_as_unreachable() {
    let mut graph = Graph::new(vec!["a", "b", "c"]);
    graph.add_edge(0, 1, u32::MAX - 1);
    graph.add_edge(1, 2, 5);
    assert_eq!(Graph::dijkstra(&graph, 0), vec![0, u32::MAX - 1, u32::MAX]);
}

#[test]
fn dijkstra_later_shorter_path_replaces_earlier() {
    // The direct edge is found first; the detour through b is shorter.
    let mut graph = Graph::new(vec!["a", "b", "c"]);
    graph.add_edge(0, 2, 10);
    graph.add_edge(0, 1, 1);
    graph.add_edge(1, 2, 2);
    assert_eq!(Graph::dijkstra(&graph, 0), vec![0, 1, 3]);
}

#[test]
fn dijkstra_runs_twice_alike() {
    let graph = directed_example();
    let first = Graph::dijkstra(&graph, 3);
    let second = Graph::dijkstra(&graph, 3);
    assert_eq!(first, second);
    assert_eq!(first, vec![9, 3, 4, 0, 2]);
}
