use rust_interview_lab::valid_parentheses::is_valid;

#[test]
fn valid_cases() {
    assert!(is_valid("()"));
    assert!(is_valid("()[]{}"));
    assert!(is_valid("{[()]}"));
}

#[test]
fn invalid_cases() {
    assert!(!is_valid("(]"));
    assert!(!is_valid("([)]"));
    assert!(!is_valid("("));
    assert!(!is_valid(")"));
    assert!(!is_valid("(("));
}

#[test]
fn empty_and_foreign_characters() {
    assert!(is_valid(""));
    assert!(!is_valid("a"));
    assert!(!is_valid("(a"));
}
