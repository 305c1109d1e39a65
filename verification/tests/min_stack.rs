use rust_interview_lab::min_stack::MinStack;

#[test]
fn stack_tracks_minimum() {
    let mut stack = MinStack::new();
    stack.push(-2);
    stack.push(0);
    stack.push(-3);
    assert_eq!(stack.get_min(), Some(-3));
    assert_eq!(stack.pop(), Some(-3));
    assert_eq!(stack.top(), Some(0));
    assert_eq!(stack.get_min(), Some(-2));
}

#[test]
fn handles_duplicates() {
    let mut stack = MinStack::new();
    stack.push(1);
    stack.push(1);
    stack.pop();
    assert_eq!(stack.get_min(), Some(1));
}

#[test]
fn empty_stack_has_no_top_or_minimum() {
    let mut stack = MinStack::new();
    assert_eq!(stack.pop(), None);
    assert_eq!(stack.top(), None);
    assert_eq!(stack.get_min(), None);
}
