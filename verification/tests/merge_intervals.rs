use rust_interview_lab::merge_intervals::{merge_intervals, merge_intervals2, merge_intervals_in_place, Interval};

#[test]
fn merges_overlapping_and_adjacent() {
    let input = [(1, 3), (2, 6), (8, 10), (15, 18)].map(|(start, end)| Interval { start, end });
    let expected = [(1, 6), (8, 10), (15, 18)].map(|(start, end)| Interval { start, end });
    assert_eq!(merge_intervals(input.into()), expected);
}

#[test]
fn handles_empty_and_disjoint() {
    assert_eq!(merge_intervals(vec![]), vec![]);
    let input = [(1, 2), (3, 4)].map(|(start, end)| Interval { start, end });
    let expected = [(1, 2), (3, 4)].map(|(start, end)| Interval { start, end });
    assert_eq!(merge_intervals(input.into()), expected);
}

#[test]
fn merges_in_place() {
    let mut intervals: Vec<Interval> =
        [(8, 10), (1, 3), (15, 18), (2, 6)].map(|(start, end)| Interval { start, end }).into();
    merge_intervals_in_place(&mut intervals);
    let expected = [(1, 6), (8, 10), (15, 18)].map(|(start, end)| Interval { start, end });
    assert_eq!(intervals, expected);

    let mut empty = vec![];
    merge_intervals_in_place(&mut empty);
    assert!(empty.is_empty());
}

#[test]
fn tuple_variant_merges_touching_ends() {
    assert_eq!(merge_intervals2(vec![(1, 4), (4, 5)]), vec![(1, 5)]);
    assert_eq!(merge_intervals2(vec![(5, 6), (1, 2)]), vec![(1, 2), (5, 6)]);
    assert_eq!(merge_intervals2(vec![(1, 10), (2, 3)]), vec![(1, 10)]);
}
