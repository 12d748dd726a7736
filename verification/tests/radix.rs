use radix_trie::radix::get_common_prefix;
use radix_trie::radix::RadixTrie;

#[test]
fn test_get_common_prefix() {
    let string_a = "abcdefg";
    let string_b = "abcdt";
    let result = get_common_prefix(string_a, string_b);
    assert_eq!(result, "abcd");
}

#[test]
fn test_get_common_prefix_no_prefix() {
    let string_a = "abcdefg";
    let string_b = "dbcdef";
    let result = get_common_prefix(string_a, string_b);
    assert!(result.is_empty());
}

#[test]
fn test_get_common_prefix_full_match() {
    let string_a = "abcdefg";
    let string_b = "abcdefg";
    let result = get_common_prefix(string_a, string_b);
    assert_eq!(result, "abcdefg");
}

#[test]
fn test_delete_and_compress_logic() {
    let mut trie = RadixTrie::new();
    trie.insert("testing");
    trie.insert("tester");

    trie.delete("tester");

    assert!(trie.search("testing"));
    assert!(!trie.search("tester"));
}

#[test]
fn test_delete_prefix_of_existing_word() {
    let mut trie = RadixTrie::new();
    trie.insert("hello");
    trie.insert("hell");

    trie.delete("hell");
    assert!(!trie.search("hell"));
    assert!(trie.search("hello"));

    // This should not panic and should not delete "hello"
    trie.delete("he");
    assert!(trie.search("hello"));
}

#[test]
fn empty_word_is_never_stored() {
    let mut trie = RadixTrie::new();
    assert!(!trie.search(""));
    trie.insert("");
    assert!(!trie.search(""));
    trie.insert("word");
    assert!(!trie.search(""));
    trie.delete("");
    assert!(trie.search("word"));
    assert!(!trie.search(""));
}

#[test]
fn insert_then_search_round_trip() {
    let mut trie = RadixTrie::new();
    trie.insert("alpha");
    assert!(trie.search("alpha"));
    trie.insert("alphabet");
    assert!(trie.search("alpha"));
    assert!(trie.search("alphabet"));
}

#[test]
fn search_is_negative_for_absent_words() {
    let mut trie = RadixTrie::new();
    assert!(!trie.search("anything"));
    trie.insert("anything");
    assert!(!trie.search("anythin"));
    assert!(!trie.search("anythings"));
    trie.delete("anything");
    assert!(!trie.search("anything"));
}

#[test]
fn insert_and_delete_are_idempotent() {
    let mut trie = RadixTrie::new();
    trie.insert("twice");
    trie.insert("twice");
    assert!(trie.search("twice"));
    trie.delete("twice");
    assert!(!trie.search("twice"));
    trie.delete("twice");
    assert!(!trie.search("twice"));
}

#[test]
fn deleting_absent_word_keeps_stored_words() {
    let mut trie = RadixTrie::new();
    trie.insert("keep");
    trie.insert("kept");
    trie.delete("never");
    trie.delete("ke");
    trie.delete("keeper");
    assert!(trie.search("keep"));
    assert!(trie.search("kept"));
}

#[test]
fn delete_compresses_single_child_node() {
    let mut trie = RadixTrie::new();
    trie.insert("testing");
    trie.insert("tester");
    // "test" forks into "ing" and "er"
    assert_eq!(trie.root.children.len(), 1);
    let fork: String = trie.root.children[0].label.iter().collect();
    assert_eq!(fork, "test");
    assert_eq!(trie.root.children[0].children.len(), 2);

    trie.delete("tester");

    // the fork is non-terminal with one child left, so it must have been
    // merged back into a single "testing" leaf
    assert_eq!(trie.root.children.len(), 1);
    let merged: String = trie.root.children[0].label.iter().collect();
    assert_eq!(merged, "testing");
    assert!(trie.root.children[0].terminal);
    assert!(trie.root.children[0].children.is_empty());
}

#[test]
fn insert_splits_shared_prefix_into_common_node() {
    let mut trie = RadixTrie::new();
    trie.insert("hello");
    trie.insert("hell");
    trie.insert("help");
    assert!(trie.search("hello"));
    assert!(trie.search("hell"));
    assert!(trie.search("help"));

    // one common node keyed "hel", split internally
    assert_eq!(trie.root.children.len(), 1);
    let common: String = trie.root.children[0].label.iter().collect();
    assert_eq!(common, "hel");
    assert!(!trie.root.children[0].terminal);
    assert_eq!(trie.root.children[0].children.len(), 2);
}

#[test]
fn six_words_then_deletes() {
    let mut trie = RadixTrie::new();
    trie.insert("hello");
    trie.insert("hell");
    trie.insert("world");
    trie.insert("hi");
    trie.insert("wow");
    trie.insert("win");

    assert!(trie.search("hello"));
    assert!(trie.search("hell"));
    assert!(trie.search("world"));
    assert!(trie.search("hi"));
    assert!(trie.search("wow"));
    assert!(trie.search("win"));
    assert!(!trie.search("he"));
    assert!(!trie.search("wi"));
    assert!(!trie.search(""));

    trie.delete("hell");
    assert!(!trie.search("hell"));
    assert!(trie.search("hello"));

    trie.delete("he");
    assert!(trie.search("hello"));
}

#[test]
fn multi_byte_characters_split_on_code_points() {
    let mut trie = RadixTrie::new();
    trie.insert("h\u{e9}llo");
    trie.insert("h\u{e9}lp");
    assert!(trie.search("h\u{e9}llo"));
    assert!(trie.search("h\u{e9}lp"));
    assert!(!trie.search("h\u{e9}l"));
    assert_eq!(get_common_prefix("h\u{e9}llo", "h\u{e9}lp"), "h\u{e9}l");
    trie.delete("h\u{e9}llo");
    assert!(!trie.search("h\u{e9}llo"));
    assert!(trie.search("h\u{e9}lp"));
}

#[test]
fn get_common_prefix_with_empty_input() {
    assert_eq!(get_common_prefix("", "abc"), "");
    assert_eq!(get_common_prefix("abc", ""), "");
    assert_eq!(get_common_prefix("", ""), "");
}

#[test]
fn delete_extension_keeps_prefix_word() {
    let mut trie = RadixTrie::new();
    trie.insert("hell");
    trie.insert("hello");
    trie.delete("hello");
    assert!(trie.search("hell"));
    assert!(!trie.search("hello"));
}

#[test]
fn default_trie_is_empty() {
    let mut trie = RadixTrie::default();
    assert!(!trie.search("a"));
    trie.insert("a");
    assert!(trie.search("a"));
}

#[test]
fn new_trie_is_empty() {
    let trie = RadixTrie::new();
    assert!(!trie.search("a"));
    assert!(!trie.search(""));
    assert!(trie.root.children.is_empty());
    assert!(!trie.root.terminal);
}
