use rust_interview_lab::consistent_hash::ConsistentHash;
use std::collections::HashMap;

#[test]
fn empty_ring_has_no_owner() {
    let ring = ConsistentHash::new(64);
    assert_eq!(ring.get("workload-1"), None);
    assert_eq!(ring.node_count(), 0);
}

#[test]
fn lookup_is_stable_for_a_fixed_ring() {
    let mut ring = ConsistentHash::new(64);
    ring.add_node("node-a");
    ring.add_node("node-b");
    let first = ring.get("gpu-job-42").map(str::to_string);
    for _ in 0..100 {
        assert_eq!(ring.get("gpu-job-42").map(str::to_string), first);
    }
    assert!(first.is_some());
}

#[test]
fn keys_spread_across_nodes() {
    let mut ring = ConsistentHash::new(128);
    for node in ["node-a", "node-b", "node-c"] {
        ring.add_node(node);
    }
    let mut counts = HashMap::new();
    for key in 0..3_000 {
        let owner = ring.get(&format!("key-{key}")).expect("ring is populated");
        *counts.entry(owner.to_string()).or_insert(0) += 1;
    }
    assert_eq!(counts.len(), 3, "every node should own some keys");
    let smallest = *counts.values().min().expect("non-empty");
    assert!(smallest > 300, "distribution is too lumpy: {counts:?}");
}

#[test]
fn adding_a_node_only_moves_keys_to_the_new_node() {
    let keys: Vec<String> = (0..2_000).map(|i| format!("workload-{i}")).collect();
    let mut ring = ConsistentHash::new(128);
    ring.add_node("node-a");
    ring.add_node("node-b");
    let before: Vec<String> = keys.iter().map(|key| ring.get(key).expect("ring is populated").to_string()).collect();
    ring.add_node("node-c");
    let after: Vec<String> = keys.iter().map(|key| ring.get(key).expect("ring is populated").to_string()).collect();
    for (old, new) in before.iter().zip(after.iter()) {
        assert!(old == new || new == "node-c", "adding a node moved a key from {old} to {new}");
    }
}

#[test]
fn removing_a_node_drops_it_from_the_ring() {
    let mut ring = ConsistentHash::new(32);
    ring.add_node("node-a");
    ring.add_node("node-b");
    assert_eq!(ring.node_count(), 2);
    assert_eq!(ring.ring_len(), 64);
    ring.remove_node("node-a");
    assert_eq!(ring.node_count(), 1);
    for _ in 0..500 {
        assert!(matches!(ring.get("any-key"), Some("node-b")));
    }
}

#[test]
fn adding_a_node_twice_changes_nothing() {
    let mut ring = ConsistentHash::new(8);
    ring.add_node("node-a");
    ring.add_node("node-a");
    assert_eq!(ring.ring_len(), 8);
    assert_eq!(ring.node_count(), 1);
    ring.remove_node("missing");
    assert_eq!(ring.ring_len(), 8);
    assert_eq!(ring.get("k"), Some("node-a"));
}
