use rust_interview_lab::graph_bfs::bfs_vec;
use rust_interview_lab::graph_dfs::dfs_vec;
use rust_interview_lab::graph_dijkstra::dijkstra_vec;
use rust_interview_lab::graph_topology::topological_sort;

/// A -> B (1), A -> C (4), B -> C (2), B -> D (5), C -> D (1)
fn sample_vec() -> Vec<Vec<(usize, u32)>> {
    vec![vec![(1, 1), (2, 4)], vec![(2, 2), (3, 5)], vec![(3, 1)], vec![]]
}

#[test]
fn vec_variant_visits_level_by_level() {
    assert_eq!(bfs_vec(&sample_vec(), 0), vec![0, 1, 2, 3]);
}

#[test]
fn vec_variant_skips_unreachable_nodes() {
    let graph = vec![vec![(1, 1)], vec![], vec![(0, 1)]];
    assert_eq!(bfs_vec(&graph, 0), vec![0, 1]);
}

#[test]
fn graph_bfs_vec_variant_handles_cycles() {
    let graph = vec![vec![(1, 1)], vec![(0, 1)]];
    assert_eq!(bfs_vec(&graph, 0), vec![0, 1]);
}

#[test]
fn vec_variant_explores_the_last_neighbor_first() {
    assert_eq!(dfs_vec(&sample_vec(), 0), vec![0, 2, 3, 1]);
}

#[test]
fn graph_dfs_vec_variant_handles_cycles() {
    let graph = vec![vec![(1, 1)], vec![(2, 1)], vec![(0, 1)]];
    assert_eq!(dfs_vec(&graph, 0), vec![0, 1, 2]);
}

#[test]
fn vec_variant_finds_shorter_multi_hop_paths() {
    assert_eq!(dijkstra_vec(&sample_vec(), 0), vec![Some(0), Some(1), Some(3), Some(4)]);
}

#[test]
fn vec_variant_marks_unreachable_nodes() {
    let graph = vec![vec![(1, 7)], vec![], vec![(0, 1)]];
    assert_eq!(dijkstra_vec(&graph, 0), vec![Some(0), Some(7), None]);
}

#[test]
fn returns_order_for_dag() {
    let edges = [(0, 1), (0, 2), (1, 3), (2, 3)];
    let order = topological_sort(4, &edges).expect("DAG has an order");
    assert_eq!(order.len(), 4);
    assert!(order.iter().position(|&n| n == 0).unwrap() < order.iter().position(|&n| n == 1).unwrap());
    assert!(order.iter().position(|&n| n == 1).unwrap() < order.iter().position(|&n| n == 3).unwrap());
}

#[test]
fn detects_cycle() {
    let edges = [(0, 1), (1, 0)];
    assert_eq!(topological_sort(2, &edges), None);
}

#[test]
fn disconnected_nodes_are_included() {
    let edges = [(0, 1)];
    let order = topological_sort(3, &edges).expect("DAG has an order");
    assert_eq!(order.len(), 3);
}

#[test]
fn searches_from_a_later_start_and_with_parallel_edges() {
    let graph = vec![vec![(1, 1)], vec![(2, 1), (2, 3)], vec![]];
    assert_eq!(bfs_vec(&graph, 1), vec![1, 2]);
    assert_eq!(dfs_vec(&graph, 1), vec![1, 2]);
    assert_eq!(dijkstra_vec(&graph, 1), vec![None, Some(0), Some(1)]);
}

#[test]
fn zero_weight_edges_and_self_loops() {
    let graph = vec![vec![(0, 0), (1, 0)], vec![(2, 5)], vec![(0, 0)]];
    assert_eq!(dijkstra_vec(&graph, 0), vec![Some(0), Some(0), Some(5)]);
    assert_eq!(topological_sort(1, &[(0, 0)]), None);
    assert_eq!(topological_sort(3, &[]), Some(vec![0, 1, 2]));
    assert_eq!(topological_sort(3, &[(2, 0), (2, 1)]), Some(vec![2, 0, 1]));
}

#[test]
fn an_unreachable_node_may_point_outside_the_graph() {
    let graph = vec![vec![(1, 1)], vec![], vec![(9, 1)]];
    assert_eq!(bfs_vec(&graph, 0), vec![0, 1]);
    assert_eq!(dfs_vec(&graph, 0), vec![0, 1]);
    assert_eq!(dijkstra_vec(&graph, 0), vec![Some(0), Some(1), None]);
}
