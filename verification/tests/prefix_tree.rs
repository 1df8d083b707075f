use vocab_tree::{PrefixTree, QueryResult, StringPrefixTree};

fn chars(word: &str) -> Vec<char> {
    word.chars().collect()
}

#[test]
fn test_prefix_tree() {
    let mut trie: PrefixTree<char, String> = PrefixTree::empty();

    let value = "world".to_string();

    // hello -> world
    trie.set(&chars("hello"), value.clone());

    assert_eq!(trie.get(&chars("hello")), QueryResult::Value(&value));
    assert_eq!(trie.get(&chars("hel")), QueryResult::Prefix);
    assert_eq!(trie.get(&chars("asdf")), QueryResult::NotFound);
    assert_eq!(trie.get(&chars("helloworld")), QueryResult::NotFound);
}

#[test]
fn test_string_prefix_tree() {
    let mut trie = StringPrefixTree::empty();

    trie.add("hello");
    trie.add("world");

    assert!(trie.contains("hello"));
    assert!(trie.contains("world"));

    assert!(!trie.contains(""));
    assert!(!trie.contains("adf"));
    assert!(!trie.contains("worl"));
    assert!(!trie.contains("helloo"));

    assert!(trie.contains_prefix("hello"));
    assert!(trie.contains_prefix("world"));
    assert!(trie.contains_prefix("hel"));
    assert!(trie.contains_prefix("worl"));
    assert!(trie.contains_prefix("w"));
    assert!(trie.contains_prefix(""));

    assert!(!trie.contains_prefix("woooorld"));
    assert!(!trie.contains_prefix("asdlfa"));
}

#[test]
fn set_replaces_the_value_of_a_key() {
    let mut trie: PrefixTree<char, u32> = PrefixTree::empty();
    trie.set(&chars("cat"), 5);
    trie.set(&chars("cat"), 9);
    trie.set(&chars("ca"), 1);
    trie.set(&chars(""), 7);

    assert_eq!(trie.get(&chars("cat")), QueryResult::Value(&9));
    assert_eq!(trie.get(&chars("ca")), QueryResult::Value(&1));
    assert_eq!(trie.get(&chars("c")), QueryResult::Prefix);
    assert_eq!(trie.get(&chars("")), QueryResult::Value(&7));
    assert_eq!(trie.get(&chars("cats")), QueryResult::NotFound);
}

#[test]
fn empty_tree_knows_the_empty_prefix_only() {
    let trie: PrefixTree<char, u32> = PrefixTree::empty();

    assert_eq!(trie.get(&chars("")), QueryResult::Prefix);
    assert_eq!(trie.get(&chars("a")), QueryResult::NotFound);

    let strings = StringPrefixTree::empty();
    assert!(!strings.contains(""));
    assert!(strings.contains_prefix(""));
    assert!(!strings.contains_prefix("a"));
}

#[test]
fn string_tree_reads_text_by_characters() {
    let mut trie = StringPrefixTree::empty();
    trie.add("na\u{ef}ve");

    assert!(trie.contains("na\u{ef}ve"));
    assert!(trie.contains_prefix("na\u{ef}"));
    assert!(!trie.contains_prefix("nai"));
}
