use rust_interview_lab::async_mini::YieldTimes;
use rust_interview_lab::parallel::{add_parts, chunk_ranges, chunk_size, part_bounds, sum_widened};
use rust_interview_lab::sharded_cache::shard_count;
use rust_interview_lab::worker_pool::reorder;

#[test]
fn reorder_puts_results_back_in_input_order() {
    assert_eq!(reorder(3, vec![(2, "c"), (0, "a"), (1, "b")]), Some(vec!["a", "b", "c"]));
    assert_eq!(reorder(2, vec![(0, 1), (1, 2), (0, 3)]), Some(vec![3, 2]));
    assert_eq!(reorder(2, vec![(0, 1)]), None);
    assert_eq!(reorder(1, vec![(0, 1), (1, 2)]), None);
}

#[test]
fn chunks_cover_the_input_and_sum_to_the_total() {
    assert_eq!(chunk_size(10, 4), 3);
    assert_eq!(chunk_size(0, 4), 1);
    assert_eq!(chunk_ranges(10, 3), vec![(0, 3), (3, 6), (6, 9), (9, 10)]);
    assert!(chunk_ranges(0, 3).is_empty());
    let values: Vec<i32> = (1..=10).collect();
    let parts: Vec<i64> = chunk_ranges(values.len(), 3).iter().map(|&(a, b)| sum_widened(&values[a..b])).collect();
    assert_eq!(add_parts(&parts), 55);
    assert_eq!(sum_widened(&[i32::MAX, i32::MAX]), 2 * i32::MAX as i64);
}

#[test]
fn shard_counts_round_up_to_a_power_of_two() {
    assert_eq!(shard_count(0), 1);
    assert_eq!(shard_count(1), 1);
    assert_eq!(shard_count(5), 8);
    assert_eq!(shard_count(16), 16);
}

#[test]
fn yield_times_counts_its_suspensions() {
    let mut future = YieldTimes::new(2);
    assert_eq!(future.step(), None);
    assert_eq!(future.step(), None);
    assert_eq!(future.step(), Some(2));
    assert_eq!(YieldTimes::new(0).step(), Some(0));
}

#[test]
fn equal_parts_give_the_remainder_to_the_last() {
    assert_eq!(part_bounds(10, 3, 0), (0, 3));
    assert_eq!(part_bounds(10, 3, 1), (3, 6));
    assert_eq!(part_bounds(10, 3, 2), (6, 10));
    assert_eq!(part_bounds(2, 4, 1), (0, 0));
    assert_eq!(part_bounds(2, 4, 3), (0, 2));
}
