use rust_interview_lab::backtracking::subsets;

#[test]
fn generates_all_subsets() {
    let mut subsets = subsets(vec![1, 2, 3]);
    subsets.sort_unstable();
    assert_eq!(subsets.len(), 8);
    assert!(subsets.contains(&vec![]));
    assert!(subsets.contains(&vec![1, 2, 3]));
}

#[test]
fn empty_input_has_one_subset() {
    assert_eq!(subsets(vec![]), vec![vec![]]);
}

#[test]
fn subsets_keep_input_order_and_double_per_element() {
    let all = subsets(vec![4, 5]);
    assert_eq!(all.len(), 4);
    for s in &all {
        assert!(s.windows(2).all(|w| w[0] == 4 && w[1] == 5));
    }
    assert_eq!(subsets(vec![1, 2, 3, 4]).len(), 16);
}
