use rust_interview_lab::trie::Trie;

#[test]
fn trie_insert_search_and_prefix() {
    let mut trie = Trie::new();
    trie.insert("gpu");
    trie.insert("gpucloud");

    assert!(trie.search("gpu"));
    assert!(trie.search("gpucloud"));
    assert!(!trie.search("gp"));
    assert!(!trie.search("gpucloudapi"));

    assert!(trie.starts_with("gp"));
    assert!(trie.starts_with("gpucloud"));
    assert!(!trie.starts_with("h100"));
}

#[test]
fn empty_word_and_empty_prefix() {
    let mut trie = Trie::new();
    assert!(!trie.search(""));
    assert!(trie.starts_with(""));
    trie.insert("");
    assert!(trie.search(""));
    trie.insert("ü");
    assert!(trie.search("ü"));
    assert!(!trie.search("u"));
}
