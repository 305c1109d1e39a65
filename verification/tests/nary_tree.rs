use rust_interview_lab::nary_tree::{deserialize, level_order, level_order_by_layers, serialize, NaryNode};

fn leaf(value: &str) -> NaryNode {
    NaryNode { value: value.to_string(), children: vec![] }
}

fn sample() -> NaryNode {
    NaryNode {
        value: "root".to_string(),
        children: vec![
            NaryNode { value: "a".to_string(), children: vec![leaf("a1"), leaf("a2")] },
            NaryNode { value: "b".to_string(), children: vec![leaf("b1")] },
        ],
    }
}

fn lines(items: &[&str]) -> Vec<String> {
    items.iter().map(|s| s.to_string()).collect()
}

#[test]
fn serialize_writes_value_and_child_count_in_pre_order() {
    assert_eq!(serialize(&sample()), lines(&["root", "2", "a", "2", "a1", "0", "a2", "0", "b", "1", "b1", "0"]));
}

#[test]
fn deserialize_reads_back_what_serialize_wrote() {
    let written = serialize(&sample());
    let mut pos = 0;
    let loaded = deserialize(&written, &mut pos).expect("a serialized tree reads back");
    assert_eq!(pos, written.len());
    assert_eq!(serialize(&loaded), written);
    assert_eq!(loaded.children[1].children[0].value, "b1");
}

#[test]
fn deserialize_accepts_a_plus_sign_and_stops_after_one_tree() {
    let mut pos = 0;
    let tree = deserialize(&lines(&["x", "+1", "y", "0", "extra", "0"]), &mut pos).expect("well formed");
    assert_eq!(pos, 4);
    assert_eq!(tree.children.len(), 1);
    assert_eq!(tree.children[0].value, "y");
}

#[test]
fn deserialize_rejects_bad_counts_and_missing_children() {
    assert!(deserialize(&lines(&["x", "-1"]), &mut 0).is_none());
    assert!(deserialize(&lines(&["x", "two"]), &mut 0).is_none());
    assert!(deserialize(&lines(&["x", "2", "y", "0"]), &mut 0).is_none());
    assert!(deserialize(&lines(&["x"]), &mut 0).is_none());
    assert!(deserialize(&lines(&[]), &mut 0).is_none());
}

#[test]
fn levels_list_values_breadth_first() {
    let tree = sample();
    let expected = vec![vec!["root"], vec!["a", "b"], vec!["a1", "a2", "b1"]];
    let by_queue: Vec<Vec<&str>> =
        level_order(&tree).into_iter().map(|level| level.into_iter().map(|s| s.as_str()).collect()).collect();
    let by_layers: Vec<Vec<&str>> = level_order_by_layers(&tree)
        .into_iter()
        .map(|level| level.into_iter().map(|s| s.as_str()).collect())
        .collect();
    assert_eq!(by_queue, expected);
    assert_eq!(by_layers, expected);
    assert_eq!(level_order(&leaf("solo")).len(), 1);
}
