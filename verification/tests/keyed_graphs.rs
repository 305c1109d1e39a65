use rust_interview_lab::graph_bfs::{bfs, bfs_vec};
use rust_interview_lab::graph_dfs::{dfs, dfs_vec};
use rust_interview_lab::graph_dijkstra::dijkstra;
use std::collections::HashMap;

/// A -> B (1), A -> C (4), B -> C (2), B -> D (5), C -> D (1)
fn sample_vec() -> Vec<Vec<(usize, u32)>> {
    vec![vec![(1, 1), (2, 4)], vec![(2, 2), (3, 5)], vec![(3, 1)], vec![]]
}

fn sample_map() -> HashMap<&'static str, &'static [(&'static str, u32)]> {
    HashMap::from([
        ("A", &[("B", 1), ("C", 4)][..]),
        ("B", &[("C", 2), ("D", 5)][..]),
        ("C", &[("D", 1)][..]),
        ("D", &[][..]),
    ])
}

#[test]
fn map_variant_visits_level_by_level() {
    assert_eq!(bfs(&sample_map(), "A"), vec!["A", "B", "C", "D"]);
}

#[test]
fn graph_bfs_both_variants_agree() {
    let names = ["A", "B", "C", "D"];
    let from_vec: Vec<&str> = bfs_vec(&sample_vec(), 0).into_iter().map(|index| names[index]).collect();
    assert_eq!(from_vec, bfs(&sample_map(), "A"));
}

#[test]
fn map_variant_explores_the_last_neighbor_first() {
    assert_eq!(dfs(&sample_map(), "A"), vec!["A", "C", "D", "B"]);
}

#[test]
fn graph_dfs_both_variants_agree() {
    let names = ["A", "B", "C", "D"];
    let from_vec: Vec<&str> = dfs_vec(&sample_vec(), 0).into_iter().map(|index| names[index]).collect();
    assert_eq!(from_vec, dfs(&sample_map(), "A"));
}

#[test]
fn keyed_searches_with_integer_nodes_skip_unreachable_keys() {
    let graph: HashMap<u8, &[(u8, u32)]> = HashMap::from([(0, &[(1, 2)][..]), (1, &[(0, 1)][..]), (2, &[(0, 1)][..])]);
    assert_eq!(bfs(&graph, 0), vec![0, 1]);
    assert_eq!(dfs(&graph, 2), vec![2, 0, 1]);
}

#[test]
fn keyed_search_from_a_node_without_edges_returns_it_alone() {
    let graph: HashMap<u8, &[(u8, u32)]> = HashMap::from([(7, &[][..])]);
    assert_eq!(bfs(&graph, 7), vec![7]);
    assert_eq!(dfs(&graph, 7), vec![7]);
}

#[test]
fn map_variant_finds_shorter_multi_hop_paths() {
    let distances = dijkstra(&sample_map(), "A");
    assert_eq!(distances, HashMap::from([("A", 0), ("B", 1), ("C", 3), ("D", 4)]));
}

#[test]
fn map_variant_omits_unreachable_nodes() {
    let graph: HashMap<u8, &[(u8, u32)]> = HashMap::from([(0, &[(1, 2)][..]), (1, &[][..]), (2, &[(0, 1)][..])]);
    assert_eq!(dijkstra(&graph, 0), HashMap::from([(0, 0), (1, 2)]));
}

#[test]
fn keyed_dijkstra_keeps_the_cheaper_of_parallel_edges_and_skips_max_weight_paths() {
    let graph: HashMap<u8, &[(u8, u32)]> =
        HashMap::from([(0, &[(1, 9), (1, 4), (2, u32::MAX)][..]), (1, &[(0, 0)][..]), (2, &[][..])]);
    assert_eq!(dijkstra(&graph, 0), HashMap::from([(0, 0), (1, 4)]));
}
