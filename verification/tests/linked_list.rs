use rust_interview_lab::linked_list::{reverse_list, ListNode};

#[test]
fn reverses_list() {
    let head = ListNode::from_slice(&[1, 2, 3, 4]);
    assert_eq!(ListNode::to_vec(reverse_list(head)), vec![4, 3, 2, 1]);
}

#[test]
fn handles_empty_and_single() {
    assert_eq!(reverse_list(None), None);
    assert_eq!(ListNode::to_vec(reverse_list(ListNode::from_slice(&[42]))), vec![42]);
}

#[test]
fn reversing_twice_restores_the_values() {
    let values = [5, -1, 7];
    let twice = reverse_list(reverse_list(ListNode::from_slice(&values)));
    assert_eq!(ListNode::to_vec(twice), values.to_vec());
}
