use rust_interview_lab::three_sum::three_sum;

#[test]
fn finds_all_unique_triplets() {
    let result = three_sum(vec![-1, 0, 1, 2, -1, -4], 0);
    assert_eq!(result, vec![(-1, -1, 2), (-1, 0, 1)]);
}

#[test]
fn skips_duplicates_on_every_position() {
    assert_eq!(three_sum(vec![0, 0, 0, 0], 0), vec![(0, 0, 0)]);
    assert_eq!(three_sum(vec![-2, 0, 0, 2, 2], 0), vec![(-2, 0, 2)]);
}

#[test]
fn supports_a_non_zero_target() {
    assert_eq!(three_sum(vec![1, 2, 3, 4, 5], 9), vec![(1, 3, 5), (2, 3, 4)]);
}

#[test]
fn returns_nothing_when_no_triplet_exists() {
    assert!(three_sum(vec![1, 2, 3], 100).is_empty());
    assert!(three_sum(vec![1, 2], 3).is_empty());
    assert!(three_sum(vec![], 0).is_empty());
}

#[test]
fn does_not_overflow_on_extreme_values() {
    assert_eq!(
        three_sum(vec![i32::MAX, i32::MAX, i32::MIN], i32::MAX - 1),
        vec![(i32::MIN, i32::MAX, i32::MAX)]
    );
}
