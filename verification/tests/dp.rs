use rust_interview_lab::dp::coin_change;

#[test]
fn computes_minimum_coins() {
    assert_eq!(coin_change(&[1, 2, 5], 11), Some(3));
    assert_eq!(coin_change(&[2], 3), None);
    assert_eq!(coin_change(&[1], 0), Some(0));
}

#[test]
fn greedy_is_not_optimal_but_the_table_is() {
    assert_eq!(coin_change(&[1, 3, 4], 6), Some(2));
    assert_eq!(coin_change(&[], 5), None);
    assert_eq!(coin_change(&[5, 10], 3), None);
}
