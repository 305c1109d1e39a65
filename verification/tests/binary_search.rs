use rust_interview_lab::binary_search::search_rotated;

#[test]
fn finds_target_in_rotated_array() {
    let nums = [4, 5, 6, 7, 0, 1, 2];
    assert_eq!(search_rotated(&nums, 0), Some(4));
    assert_eq!(search_rotated(&nums, 3), None);
    assert_eq!(search_rotated(&nums, 5), Some(1));
}

#[test]
fn handles_unrotated_and_single() {
    assert_eq!(search_rotated(&[1, 2, 3, 4], 3), Some(2));
    assert_eq!(search_rotated(&[1], 1), Some(0));
    assert_eq!(search_rotated(&[1], 2), None);
}

#[test]
fn empty_input_has_no_match() {
    assert_eq!(search_rotated(&[], 1), None);
    assert_eq!(search_rotated(&[3, 1], 1), Some(1));
}
