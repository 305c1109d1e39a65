use rust_interview_lab::sliding_window::length_of_longest_substring;

#[test]
fn examples() {
    assert_eq!(length_of_longest_substring("abcabcbb"), 3);
    assert_eq!(length_of_longest_substring("bbbbb"), 1);
    assert_eq!(length_of_longest_substring("pwwkew"), 3);
    assert_eq!(length_of_longest_substring(""), 0);
}

#[test]
fn counts_characters_not_bytes() {
    assert_eq!(length_of_longest_substring("héllo"), 3);
    assert_eq!(length_of_longest_substring("abba"), 2);
    assert_eq!(length_of_longest_substring("dvdf"), 3);
}
