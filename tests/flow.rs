use graphalgs::{augment, bfs, edmonds_karp};

fn clrs_network() -> Vec<Vec<i32>> {
    vec![
        vec![0, 16, 13, 0, 0, 0],
        vec![0, 0, 0, 12, 0, 0],
        vec![0, 4, 0, 0, 14, 0],
        vec![0, 0, 9, 0, 0, 20],
        vec![0, 0, 0, 7, 0, 4],
        vec![0, 0, 0, 0, 0, 0],
    ]
}

#[test]
fn test_flow_edmondskarp() {
    let graph = clrs_network();
    let source = 0;
    let sink = 5;
    let max_flow = edmonds_karp(&graph, source, sink);
    assert_eq!(max_flow, 23);
    assert_eq!(graph, clrs_network());
}

#[test]
fn test_flow_edmondskarp1() {
    let graph = vec![
        vec![0, 3, 0, 3, 0, 0, 0],
        vec![0, 0, 4, 0, 0, 0, 0],
        vec![0, 0, 0, 1, 2, 0, 0],
        vec![0, 0, 0, 0, 2, 6, 0],
        vec![0, 0, 0, 0, 0, 0, 1],
        vec![0, 0, 0, 0, 0, 0, 9],
        vec![0, 0, 0, 0, 0, 0, 0],
    ];
    let source = 0;
    let sink = 6;
    let max_flow = edmonds_karp(&graph, source, sink);
    assert_eq!(max_flow, 5);
}

#[test]
fn test_flow_edmondskarp2() {
    let graph = vec![
        vec![0, 22, 0, 4, 0, 0],
        vec![0, 0, 20, 7, 0, 0],
        vec![0, 0, 0, 0, 0, 15],
        vec![0, 0, 0, 0, 18, 0],
        vec![0, 0, 13, 0, 0, 20],
        vec![0, 0, 0, 0, 0, 0],
    ];
    let source = 0;
    let sink = 5;
    let max_flow = edmonds_karp(&graph, source, sink);
    assert_eq!(max_flow, 26);
}

#[test]
fn flow_with_no_path_is_zero() {
    let graph = vec![vec![0, 5, 0], vec![0, 0, 0], vec![0, 0, 0]];
    assert_eq!(edmonds_karp(&graph, 0, 2), 0);
}

#[test]
fn flow_needs_cancelling_a_previous_path() {
    // The first shortest path 0-1-2-3 must be partly undone.
    let graph = vec![
        vec![0, 1, 1, 0],
        vec![0, 0, 1, 1],
        vec![0, 0, 0, 1],
        vec![0, 0, 0, 0],
    ];
    assert_eq!(edmonds_karp(&graph, 0, 3), 2);
}

#[test]
fn flow_runs_twice_alike() {
    let graph = clrs_network();
    assert_eq!(edmonds_karp(&graph, 0, 5), edmonds_karp(&graph, 0, 5));
}

#[test]
fn flow_reverse_direction() {
    let graph = clrs_network();
    assert_eq!(edmonds_karp(&graph, 5, 0), 0);
}

#[test]
fn bfs_records_a_path_to_the_sink() {
    let graph = clrs_network();
    let mut parent = vec![None; 6];
    assert!(bfs(&graph, 0, 5, &mut parent));
    assert_eq!(parent[0], None);
    let mut v = 5;
    let mut steps = 0;
    while v != 0 {
        let u = parent[v].unwrap();
        assert!(graph[u][v] > 0);
        v = u;
        steps += 1;
        assert!(steps <= 6);
    }
    assert_eq!(steps, 3);
}

#[test]
fn bfs_reports_unreachable_sink() {
    let graph = vec![vec![0, 3, 0], vec![0, 0, 0], vec![0, 7, 0]];
    let mut parent = vec![Some(1); 3];
    assert!(!bfs(&graph, 0, 2, &mut parent));
    assert_eq!(parent[0], None);
    assert_eq!(parent[1], Some(0));
}

#[test]
fn bfs_parent_table_on_example_network() {
    let graph = clrs_network();
    let mut parent = vec![None; 6];
    assert!(bfs(&graph, 0, 5, &mut parent));
    assert_eq!(parent, vec![None, Some(0), Some(0), Some(1), Some(2), Some(3)]);
}

#[test]
fn bfs_leaves_unreached_entries_alone() {
    let graph = vec![vec![0, 0], vec![0, 0]];
    let mut parent = vec![Some(1), Some(0)];
    assert!(!bfs(&graph, 0, 1, &mut parent));
    assert_eq!(parent, vec![None, Some(0)]);
}

#[test]
fn bfs_accepts_a_longer_parent_table() {
    let graph = vec![vec![0, 2], vec![0, 0]];
    let mut parent = vec![None, None, Some(7)];
    assert!(bfs(&graph, 0, 1, &mut parent));
    assert_eq!(parent, vec![None, Some(0), Some(7)]);
}

#[test]
fn bfs_takes_the_fewest_edges() {
    // 0-1-2-3 is longer than 0-4-3.
    let graph = vec![
        vec![0, 5, 0, 0, 1],
        vec![0, 0, 5, 0, 0],
        vec![0, 0, 0, 5, 0],
        vec![0, 0, 0, 0, 0],
        vec![0, 0, 0, 1, 0],
    ];
    let mut parent = vec![None; 5];
    assert!(bfs(&graph, 0, 3, &mut parent));
    assert_eq!(parent[3], Some(4));
    assert_eq!(parent[4], Some(0));
}

#[test]
fn augment_sends_the_bottleneck() {
    let mut residual = vec![vec![0, 3, 0], vec![0, 0, 2], vec![0, 0, 0]];
    let parent = vec![None, Some(0), Some(1)];
    assert_eq!(augment(&mut residual, &parent, 0, 2), 2);
    assert_eq!(residual, vec![vec![0, 1, 0], vec![2, 0, 0], vec![0, 2, 0]]);
}

#[test]
fn augment_then_search_again() {
    let mut residual = clrs_network();
    let mut parent = vec![None; 6];
    assert!(bfs(&residual, 0, 5, &mut parent));
    assert_eq!(augment(&mut residual, &parent, 0, 5), 12);
    assert_eq!(residual[0][1], 4);
    assert_eq!(residual[1][0], 12);
    assert_eq!(residual[3][5], 8);
    assert!(residual.iter().all(|row| row.iter().all(|&x| x >= 0)));
}
