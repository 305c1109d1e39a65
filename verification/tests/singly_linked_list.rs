use rust_interview_lab::singly_linked_list::List;

#[test]
fn push_pop_works() {
    let mut list = List::new();
    list.push_front(1);
    list.push_front(2);
    assert_eq!(list.pop_front(), Some(2));
    assert_eq!(list.pop_front(), Some(1));
    assert_eq!(list.pop_front(), None);
}

#[test]
fn len_works() {
    let mut list = List::new();
    assert_eq!(list.len(), 0);
    list.push_front(1);
    list.push_front(2);
    assert_eq!(list.len(), 2);
}

#[test]
fn push_then_pop_restores_the_list() {
    let mut list = List::new();
    assert!(list.is_empty());
    list.push_front("x");
    list.push_front("y");
    assert_eq!(list.pop_front(), Some("y"));
    assert_eq!(list.len(), 1);
    assert!(!list.is_empty());
}
