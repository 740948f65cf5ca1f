use contamers::strtrie::StrTrie;

#[test]
fn test_insert_contains() {
    let mut trie = StrTrie::new();
    trie.insert("a");
    assert!(trie.contains("a"));
}

#[test]
fn test_does_not_contain_prefix() {
    let mut trie = StrTrie::new();
    trie.insert("boot");
    assert!(!trie.contains("boo"));
    assert!(trie.contains("boot"));
}

#[test]
fn test_contains_prefix_inserted_later() {
    let mut trie = StrTrie::new();
    trie.insert("boot");
    trie.insert("boo");
    assert!(trie.contains("boo"));
    assert!(trie.contains("boot"));
}

#[test]
fn test_single_character() {
    let mut trie = StrTrie::new();
    trie.insert("a");
    assert!(trie.contains("a"));
    assert!(!trie.contains("b"));
}

#[test]
fn test_empty_string_never_member() {
    let mut trie = StrTrie::new();
    assert!(!trie.contains(""));
    trie.insert("");
    assert!(!trie.contains(""));
    trie.insert("boot");
    assert!(!trie.contains(""));
}

#[test]
fn test_fresh_trie_contains_nothing() {
    let trie = StrTrie::new();
    assert!(!trie.contains("a"));
    assert!(!trie.contains("boot"));
}

#[test]
fn test_two_strings_either_order() {
    let mut one = StrTrie::new();
    one.insert("cat");
    one.insert("car");
    assert!(one.contains("cat"));
    assert!(one.contains("car"));

    let mut other = StrTrie::new();
    other.insert("car");
    other.insert("cat");
    assert!(other.contains("cat"));
    assert!(other.contains("car"));
}

#[test]
fn test_proper_prefixes_absent() {
    let mut trie = StrTrie::new();
    trie.insert("boots");
    assert!(!trie.contains("b"));
    assert!(!trie.contains("bo"));
    assert!(!trie.contains("boo"));
    assert!(!trie.contains("boot"));
    assert!(trie.contains("boots"));
}

#[test]
fn test_insert_twice_is_once() {
    let mut trie = StrTrie::new();
    trie.insert("boot");
    trie.insert("boot");
    assert!(trie.contains("boot"));
    assert!(!trie.contains("boo"));
    assert!(!trie.contains("boots"));
}

#[test]
fn test_longer_string_keeps_terminal_prefix() {
    let mut trie = StrTrie::new();
    trie.insert("boo");
    trie.insert("boot");
    assert!(trie.contains("boo"));
    assert!(trie.contains("boot"));
    assert!(!trie.contains("bo"));
}

#[test]
fn test_unicode_scalar_values() {
    let mut trie = StrTrie::new();
    trie.insert("héron");
    assert!(trie.contains("héron"));
    assert!(!trie.contains("héro"));
    assert!(!trie.contains("heron"));
}
