use rust_interview_lab::two_sum::two_sum;

#[test]
fn finds_pair() {
    let nums = [2, 7, 11, 15];
    assert_eq!(two_sum(&nums, 9), Some((0, 1)));
}

#[test]
fn returns_none_when_missing() {
    assert_eq!(two_sum(&[1, 2, 3], 100), None);
}

#[test]
fn prefers_the_earliest_completed_pair() {
    assert_eq!(two_sum(&[3, 3], 6), Some((0, 1)));
    assert_eq!(two_sum(&[1, 5, 1, 5], 6), Some((0, 1)));
    assert_eq!(two_sum(&[i32::MAX, i32::MIN], -1), Some((0, 1)));
}
