use redis_rs::trie::Trie;

#[test]
fn test_trie() {
    let mut trie = Trie::new();
    trie.insert("apple", 1);
    trie.insert("app", 2);
    assert_eq!(trie.get("apple"), Some(&1));
    assert_eq!(trie.get("app"), Some(&2));
    assert_eq!(trie.get("ap"), None);
}

#[test]
fn trie_insert_replaces() {
    let mut trie = Trie::new();
    trie.insert("key", 1);
    trie.insert("key", 3);
    trie.insert("", 0);
    assert_eq!(trie.get("key"), Some(&3));
    assert_eq!(trie.get(""), Some(&0));
    assert_eq!(trie.get("keys"), None);
}
