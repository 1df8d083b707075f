use vocab_tree::key::compile_pattern;
use vocab_tree::{Key, Query, QueryResult, Trie};

fn chars(word: &str) -> Vec<char> {
    word.chars().collect()
}

fn text(word: Vec<char>) -> String {
    word.into_iter().collect()
}

fn greetings() -> Trie<char, u32> {
    let mut trie = Trie::new();
    trie.push(&chars("hello"), 1);
    trie.push(&chars("hillo"), 4);
    trie.push(&chars("hells"), 2);
    trie.push(&chars("world"), 3);
    trie
}

fn h_ll_() -> Vec<Query<char>> {
    compile_pattern(&vec![Some('h'), None, Some('l'), Some('l'), None])
}

#[test]
fn compiled_pattern_has_both_sentinels() {
    assert_eq!(
        compile_pattern(&vec![Some('c'), None]),
        vec![
            Query::Matches(Key::Start),
            Query::Matches(Key::Internal('c')),
            Query::Any,
            Query::Matches(Key::End),
        ]
    );
    assert_eq!(
        compile_pattern::<char>(&vec![]),
        vec![Query::Matches(Key::Start), Query::Matches(Key::End)]
    );
}

#[test]
fn pattern_selects_the_words_that_agree() {
    let trie = greetings();

    let mut found = trie
        .iter_values_unordered(Some(h_ll_()))
        .into_iter()
        .map(|(word, cost)| (text(word), cost))
        .collect::<Vec<_>>();
    found.sort();

    assert_eq!(
        found,
        vec![
            ("hello".to_string(), 1),
            ("hells".to_string(), 2),
            ("hillo".to_string(), 4),
        ]
    );
}

#[test]
fn ordered_pattern_walk_is_cheapest_first() {
    let trie = greetings();

    let found = trie
        .iter_values_ordered(Some(h_ll_()))
        .into_iter()
        .map(|(word, cost)| (text(word), cost))
        .collect::<Vec<_>>();

    assert_eq!(
        found,
        vec![
            ("hello".to_string(), 1),
            ("hells".to_string(), 2),
            ("hillo".to_string(), 4),
        ]
    );
}

#[test]
fn pattern_equals_brute_force_filter() {
    let words = ["cat", "cab", "cot", "dog", "cart", "at", "bat", "cut"];
    let mut trie = Trie::new();
    for (i, word) in words.iter().enumerate() {
        trie.push(&chars(word), i as u32);
    }
    let positions = vec![Some('c'), None, Some('t')];

    let mut found = trie
        .iter_values_unordered(Some(compile_pattern(&positions)))
        .into_iter()
        .map(|(word, _)| text(word))
        .collect::<Vec<_>>();
    found.sort();

    let mut expected = words
        .iter()
        .filter(|word| {
            let letters = chars(word);
            letters.len() == positions.len()
                && positions
                    .iter()
                    .zip(letters.iter())
                    .all(|(p, c)| p.map_or(true, |s| s == *c))
        })
        .map(|word| word.to_string())
        .collect::<Vec<_>>();
    expected.sort();

    assert_eq!(found, expected);
    assert_eq!(expected, vec!["cat", "cot", "cut"]);
}

#[test]
fn wildcard_stands_for_one_symbol() {
    let mut trie = Trie::new();
    trie.push(&chars("hell"), 1u32);
    trie.push(&chars("hello"), 2);
    trie.push(&chars("hellos"), 3);
    let pattern = compile_pattern(&vec![Some('h'), Some('e'), Some('l'), Some('l'), None]);

    let found = trie
        .iter_values_ordered(Some(pattern.clone()))
        .into_iter()
        .map(|(word, _)| text(word))
        .collect::<Vec<_>>();
    assert_eq!(found, vec!["hello"]);
    let found = trie
        .iter_values_unordered(Some(pattern))
        .into_iter()
        .map(|(word, _)| text(word))
        .collect::<Vec<_>>();
    assert_eq!(found, vec!["hello"]);

    let mut trie = Trie::new();
    trie.push(&chars("ca"), 1u32);
    trie.push(&chars("cat"), 2);
    let pattern = vec![
        Query::Matches(Key::Start),
        Query::Matches(Key::Internal('c')),
        Query::Matches(Key::Internal('a')),
        Query::Any,
        Query::Matches(Key::End),
    ];
    let found = trie
        .iter_values_unordered(Some(pattern))
        .into_iter()
        .map(|(word, cost)| (text(word), cost))
        .collect::<Vec<_>>();
    assert_eq!(found, vec![("cat".to_string(), 2)]);
}

#[test]
fn pattern_past_its_end_stops_the_walk() {
    let trie = greetings();

    assert!(trie.iter_values_unordered(Some(vec![])).is_empty());
    assert!(trie
        .iter_values_unordered(Some(vec![Query::Any, Query::Any, Query::Any]))
        .is_empty());
    // wildcards alone never ask for the end of a sequence
    assert!(trie.iter_values_unordered(Some(vec![Query::Any; 7])).is_empty());
    let mut five = vec![Query::Any; 6];
    five.push(Query::Matches(Key::End));
    assert_eq!(trie.iter_values_unordered(Some(five)).len(), 4);
}

#[test]
fn costs_are_kept_apart() {
    let mut trie = Trie::new();
    trie.push(&chars("cat"), 5u32);
    trie.push(&chars("cap"), 6);

    assert_eq!(trie.query(&chars("ca")), QueryResult::Prefix);
    assert_eq!(trie.query(&chars("cat")), QueryResult::Value(&5));
    assert_eq!(trie.query(&chars("cap")), QueryResult::Value(&6));

    let found = trie
        .iter_values_ordered(None)
        .into_iter()
        .map(|(word, cost)| (text(word), cost))
        .collect::<Vec<_>>();
    assert_eq!(found, vec![("cat".to_string(), 5), ("cap".to_string(), 6)]);
}

#[test]
fn round_trip_keeps_the_minimum() {
    let mut trie = Trie::new();
    let entries = [("b", 4i32), ("a", 7), ("b", 2), ("ab", -1), ("b", 3), ("a", 9)];
    for (word, cost) in entries {
        trie.push(&chars(word), cost);
    }

    assert_eq!(trie.query(&chars("a")), QueryResult::Value(&7));
    assert_eq!(trie.query(&chars("b")), QueryResult::Value(&2));
    assert_eq!(trie.query(&chars("ab")), QueryResult::Value(&-1));
    assert_eq!(trie.get(&chars("ba")), None);
}
