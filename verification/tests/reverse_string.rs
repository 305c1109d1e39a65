use rust_interview_lab::reverse_string::reverse_str;

#[test]
fn an_even_length_string_is_reversed() {
    let mut s = String::from("abcd");
    reverse_str(&mut s);
    assert_eq!(s, "dcba");
}

#[test]
fn an_odd_length_string_keeps_its_middle_byte() {
    let mut s = String::from("abc");
    reverse_str(&mut s);
    assert_eq!(s, "cba");
}

#[test]
fn a_single_byte_is_unchanged() {
    let mut s = String::from("a");
    reverse_str(&mut s);
    assert_eq!(s, "a");
}

#[test]
fn the_buffer_is_reused() {
    let mut s = String::from("abcd");
    let capacity = s.capacity();
    let address = s.as_ptr();
    reverse_str(&mut s);
    assert_eq!(s.capacity(), capacity);
    assert_eq!(s.as_ptr(), address);
}

#[test]
fn reversing_twice_restores_the_string() {
    let mut s = String::from("interview");
    reverse_str(&mut s);
    reverse_str(&mut s);
    assert_eq!(s, "interview");
}
