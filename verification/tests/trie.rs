use vocab_tree::traversal::TrieDfsTraversal;
use vocab_tree::traversal_inorder::DijkstraTraversal;
use vocab_tree::{Key, Query, QueryResult, Symbol, Trie};

fn chars(word: &str) -> Vec<char> {
    word.chars().collect()
}

fn count_dfs(trie: &Trie<char, ()>, pattern: Option<Vec<Query<char>>>) -> usize {
    let mut walk = TrieDfsTraversal::from_root(trie, pattern);
    let mut n = 0;
    while walk.next().is_some() {
        n += 1;
    }
    n
}

#[test]
fn test_empty_trie() {
    let trie: Trie<char, ()> = Trie::new();

    assert_eq!(trie.node_keys(), vec![]);
}

#[test]
fn test_single_string() {
    let mut trie = Trie::new();
    trie.push(&chars("hi!"), ());

    assert_eq!(
        trie.node_keys(),
        vec![
            Key::Start,
            Key::Internal('h'),
            Key::Internal('i'),
            Key::Internal('!'),
            Key::End,
        ]
    );
}

#[test]
fn test_multiple_strings() {
    let mut trie = Trie::new();
    trie.push(&chars("car"), 1);
    trie.push(&chars("cat"), 2);

    assert_eq!(trie.node_count(), 1 + (3 + 1) + (1 + 1));

    assert_eq!(trie.get(&chars("car")), Some(&1));
    assert_eq!(trie.get(&chars("cat")), Some(&2));

    assert!(trie.get(&chars("dog")).is_none());

    assert!(trie.get(&chars("c")).is_none());
    assert!(trie.get(&chars("ca")).is_none());
}

#[test]
fn trie_test_iter_unordered() {
    let mut trie = Trie::new();
    let words = vec!["antidisestablishmentarianism", "cab", "car", "cat"];

    for word in &words {
        trie.push(&chars(word), ());
    }

    let mut should_be_words = trie
        .iter_values_unordered(None)
        .into_iter()
        .map(|(word, _)| word.into_iter().collect::<String>())
        .collect::<Vec<_>>();
    should_be_words.sort();

    assert_eq!(words, should_be_words);
}

#[test]
fn traversal_test_iter_unordered() {
    let mut trie = Trie::new();
    let words = vec!["antidisestablishmentarianism", "cab", "car", "cat"];

    for word in &words {
        trie.push(&chars(word), ());
    }

    let mut should_be_words = Vec::new();
    let mut walk = TrieDfsTraversal::from_root(&trie, None);
    let mut terminals = 0;
    while let Some(node) = walk.next() {
        if node.key == Key::End {
            terminals += 1;
        }
    }
    for (word, _) in trie.iter_values_unordered(None) {
        should_be_words.push(word.into_iter().collect::<String>());
    }
    should_be_words.sort();

    assert_eq!(terminals, words.len());
    assert_eq!(words, should_be_words);
}

#[test]
fn test_dfs_no_pattern() {
    let mut trie = Trie::new();
    trie.push(&chars("car"), ());
    trie.push(&chars("cat"), ());
    trie.push(&chars("carp"), ());

    assert_eq!(count_dfs(&trie, None), 9);
}

#[test]
fn test_dfs_with_pattern() {
    let mut trie = Trie::new();

    // 'ca.'
    let pattern = vec![
        Query::Matches(Key::Start),
        Query::Matches(Key::Internal('c')),
        Query::Matches(Key::Internal('a')),
        Query::Any,
        Query::Matches(Key::End),
    ];

    trie.push(&chars("car"), ());
    trie.push(&chars("cat"), ());

    let n = count_dfs(&trie, Some(pattern.clone()));

    // push a bunch of words that don't match the pattern,
    // so the number of nodes explored shouldn't change
    trie.push(&chars("carp"), ());
    trie.push(&chars("carpet"), ());
    trie.push(&chars("bazinga!"), ());

    assert_eq!(count_dfs(&trie, Some(pattern)), n);
    assert_eq!(n, 7);
}

#[test]
fn test_iter_ordered() {
    let mut trie = Trie::new();

    let words = vec!["bad", "shazam", "baz", "bat", "bark", "zebra"];
    let sorted_by_last_letter = vec!["zebra", "bad", "bark", "shazam", "bat", "baz"];

    for word in &words {
        trie.push(&chars(word), word.chars().last().unwrap());
    }

    let returned_by_iterator = trie
        .iter_values_ordered(None)
        .into_iter()
        .map(|(word, _)| word.into_iter().collect::<String>())
        .collect::<Vec<_>>();

    assert_eq!(sorted_by_last_letter, returned_by_iterator);
}

#[test]
fn ordered_walk_never_gets_cheaper() {
    let mut trie: Trie<u8, u8> = Trie::new();
    let keys: Vec<Vec<u8>> = vec![
        vec![3, 1, 4],
        vec![3, 1, 5],
        vec![2, 7],
        vec![9],
        vec![3],
        vec![2, 7, 1, 8],
        vec![],
    ];
    for key in &keys {
        trie.push(key, key.iter().copied().last().unwrap_or(0));
    }

    let values = trie.iter_values_ordered(None);
    assert_eq!(values.len(), keys.len());
    for pair in values.windows(2) {
        assert!(pair[0].1 <= pair[1].1);
    }

    let mut walk = DijkstraTraversal::from_root(&trie, None);
    let mut costs = Vec::new();
    while let Some(node) = walk.next() {
        costs.push(node.min_descendent.unwrap());
    }
    assert_eq!(costs.len(), trie.node_count());
    for pair in costs.windows(2) {
        assert!(pair[0] <= pair[1]);
    }
}

#[test]
fn query_tells_words_prefixes_and_strangers_apart() {
    let mut trie = Trie::new();
    trie.push(&chars("car"), 7u32);

    assert_eq!(trie.query(&chars("ca")), QueryResult::Prefix);
    assert_eq!(trie.query(&chars("c")), QueryResult::Prefix);
    assert_eq!(trie.query(&chars("")), QueryResult::Prefix);
    assert_eq!(trie.query(&chars("care")), QueryResult::NotFound);
    assert_eq!(trie.query(&chars("dog")), QueryResult::NotFound);
    assert_eq!(trie.query(&chars("car")), QueryResult::Value(&7));
}

#[test]
fn empty_trie_knows_nothing() {
    let trie: Trie<char, u32> = Trie::new();

    assert_eq!(trie.query(&chars("a")), QueryResult::NotFound);
    assert_eq!(trie.query(&chars("")), QueryResult::NotFound);
    assert_eq!(trie.get(&chars("a")), None);
    assert!(trie.iter_values_unordered(None).is_empty());
    assert!(trie.iter_values_ordered(None).is_empty());
    assert_eq!(trie.node_count(), 0);
}

#[test]
fn repeated_insert_keeps_the_best_cost_and_the_nodes() {
    let mut trie = Trie::new();
    trie.push(&chars("hello"), 5u32);
    let nodes = trie.node_count();
    assert_eq!(nodes, 7);

    trie.push(&chars("hello"), 5);
    assert_eq!(trie.node_count(), nodes);
    assert_eq!(trie.get(&chars("hello")), Some(&5));

    trie.push(&chars("hello"), 9);
    assert_eq!(trie.node_count(), nodes);
    assert_eq!(trie.get(&chars("hello")), Some(&5));

    trie.push(&chars("hello"), 2);
    assert_eq!(trie.node_count(), nodes);
    assert_eq!(trie.get(&chars("hello")), Some(&2));
    assert_eq!(trie.iter_values_unordered(None).len(), 1);
}

#[test]
fn shared_prefix_is_stored_once() {
    let mut trie = Trie::new();
    trie.push(&chars("cat"), 5u32);
    trie.push(&chars("cap"), 6);

    // root, c, a, then t and p with their terminal nodes
    assert_eq!(trie.node_count(), 7);
    assert_eq!(trie.query(&chars("ca")), QueryResult::Prefix);

    let mut values = trie
        .iter_values_unordered(None)
        .into_iter()
        .map(|(word, cost)| (word.into_iter().collect::<String>(), cost))
        .collect::<Vec<_>>();
    values.sort();
    assert_eq!(values, vec![("cap".to_string(), 6), ("cat".to_string(), 5)]);
}

#[test]
fn best_cost_is_the_cheapest_of_all() {
    let mut trie: Trie<char, i32> = Trie::new();
    assert_eq!(trie.best_cost(), None);

    trie.push(&chars("dog"), 4);
    assert_eq!(trie.best_cost(), Some(&4));
    trie.push(&chars("cat"), 9);
    assert_eq!(trie.best_cost(), Some(&4));
    trie.push(&chars("do"), -2);
    assert_eq!(trie.best_cost(), Some(&-2));
    trie.push(&chars(""), -7);
    assert_eq!(trie.best_cost(), Some(&-7));
}

#[test]
fn push_adds_a_node_for_every_new_step() {
    let mut trie: Trie<char, u32> = Trie::new();
    trie.push(&chars(""), 1);
    // the root and the end of the empty sequence
    assert_eq!(trie.node_count(), 2);
    trie.push(&chars("ab"), 1);
    assert_eq!(trie.node_count(), 5);
    trie.push(&chars("a"), 1);
    assert_eq!(trie.node_count(), 6);
    trie.push(&chars("abcd"), 1);
    assert_eq!(trie.node_count(), 9);
    trie.push(&chars("abcd"), 0);
    assert_eq!(trie.node_count(), 9);
    trie.push(&chars("b"), 1);
    assert_eq!(trie.node_count(), 11);
}

#[test]
fn nodes_show_their_links() {
    let mut trie: Trie<char, u32> = Trie::default();
    assert!(trie.root().is_none());
    trie.push(&chars("ab"), 3);
    trie.push(&chars("ac"), 5);

    let root = trie.root().unwrap();
    assert_eq!(root.key(), &Key::Start);
    assert_eq!(root.parent(), None);
    assert_eq!(root.value(), Some(&3));
    assert_eq!(root.child_indices(), &[1]);

    let mut walk = TrieDfsTraversal::from_index(&trie, 1, None);
    let a = walk.next().unwrap();
    assert_eq!(a.key(), &Key::from('a'));
    assert_eq!(a.parent(), Some(0));
    assert_eq!(a.child_indices(), &[2, 4]);
    let mut below = 0;
    while walk.next().is_some() {
        below += 1;
    }
    assert_eq!(below, 4);

    let mut walk = DijkstraTraversal::from_index(&trie, 4, None);
    assert_eq!(walk.next().unwrap().key(), &Key::Internal('c'));
    assert_eq!(walk.next().unwrap().value(), Some(&5));
    assert!(walk.next().is_none());
    assert!(TrieDfsTraversal::from_index(&trie, 9, None).next().is_none());
}

#[derive(Debug, Clone, PartialEq, Eq, PartialOrd, Ord)]
struct Token(String);

impl Symbol for Token {
    fn same(&self, other: &Self) -> bool {
        self == other
    }

    fn duplicate(&self) -> Self {
        self.clone()
    }
}

fn tokens(words: &[&str]) -> Vec<Token> {
    words.iter().map(|w| Token(w.to_string())).collect()
}

#[test]
fn symbols_need_not_be_copy() {
    let mut trie: Trie<Token, u32> = Trie::new();
    trie.push(&tokens(&["to", "be"]), 2);
    trie.push(&tokens(&["to", "do"]), 1);

    assert_eq!(trie.node_count(), 6);
    assert_eq!(trie.query(&tokens(&["to"])), QueryResult::Prefix);
    assert_eq!(trie.get(&tokens(&["to", "be"])), Some(&2));
    let found = trie.iter_values_ordered(None);
    assert_eq!(
        found,
        vec![(tokens(&["to", "do"]), 1), (tokens(&["to", "be"]), 2)]
    );
}

#[test]
fn unordered_walk_is_depth_first() {
    let mut trie: Trie<char, u32> = Trie::new();
    for (word, cost) in [("ab", 1), ("abc", 2), ("ad", 3), ("b", 4), ("a", 5)] {
        trie.push(&chars(word), cost);
    }

    let found = trie
        .iter_values_unordered(None)
        .into_iter()
        .map(|(word, _)| word.into_iter().collect::<String>())
        .collect::<Vec<_>>();
    // of the children of a node the one stored last comes first
    assert_eq!(found, vec!["b", "a", "ad", "abc", "ab"]);
    let again = trie
        .iter_values_unordered(None)
        .into_iter()
        .map(|(word, _)| word.into_iter().collect::<String>())
        .collect::<Vec<_>>();
    assert_eq!(found, again);
}
