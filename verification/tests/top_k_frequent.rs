use rust_interview_lab::top_k_frequent::top_k_frequent;

#[test]
fn returns_top_two() {
    let nums = [1, 1, 1, 2, 2, 3];
    let mut result = top_k_frequent(&nums, 2);
    result.sort_unstable();
    assert_eq!(result, vec![1, 2]);
}

#[test]
fn k_larger_than_unique_values_returns_all() {
    let result = top_k_frequent(&[1, 2, 3], 10);
    assert_eq!(result.len(), 3);
}

#[test]
fn most_frequent_value_comes_first_and_zero_k_returns_nothing() {
    assert_eq!(top_k_frequent(&[5, 7, 7, 5, 7, -1], 1), vec![7]);
    assert!(top_k_frequent(&[5, 7], 0).is_empty());
    assert!(top_k_frequent(&[], 3).is_empty());
}
