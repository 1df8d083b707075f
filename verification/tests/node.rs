use vocab_tree::node::{key_side, Node, Side};
use vocab_tree::{Key, Query};

fn keys(word: &str) -> Vec<Key<char>> {
    let mut keys: Vec<Key<char>> = word.chars().map(Key::Internal).collect();
    keys.push(Key::End);
    keys
}

fn vocabulary() -> Node<char, u32> {
    let mut root = Node::new();
    root.push(&keys("cat"), 0, 5);
    root.push(&keys("car"), 0, 3);
    root.push(&keys("cab"), 0, 8);
    root.push(&keys("dog"), 0, 4);
    root.push(&keys("ca"), 0, 9);
    root
}

fn walk(root: &Node<char, u32>, pattern: Option<Vec<Query<char>>>) -> Vec<(String, Option<u32>)> {
    let mut found = Vec::new();
    let mut walk = root.iter_descendents(pattern);
    while let Some((symbols, node)) = walk.next() {
        let word = symbols.iter().filter_map(|s| s.copied()).collect::<String>();
        found.push((word, node.value().copied()));
    }
    found
}

#[test]
fn keys_are_ordered_with_the_sentinels_outside() {
    assert!(matches!(key_side(&Key::Start, &Key::Internal('a')), Side::Before));
    assert!(matches!(key_side(&Key::Internal('a'), &Key::Internal('b')), Side::Before));
    assert!(matches!(key_side(&Key::Internal('b'), &Key::Internal('b')), Side::Same));
    assert!(matches!(key_side(&Key::Internal('c'), &Key::Internal('b')), Side::After));
    assert!(matches!(key_side(&Key::Internal('z'), &Key::<char>::End), Side::Before));
    assert!(matches!(key_side(&Key::<char>::End, &Key::Start), Side::After));
    assert!(matches!(key_side(&Key::<char>::Start, &Key::Start), Side::Same));
    assert!(matches!(key_side(&Key::<char>::End, &Key::End), Side::Same));
}

#[test]
fn push_keeps_children_in_order_and_costs_lowest() {
    let root = vocabulary();

    assert_eq!(root.contents, Key::Start);
    assert_eq!(root.key(), None);
    assert_eq!(root.value(), None);
    assert_eq!(root.min_descendent, Some(3));
    let first = root
        .iter_children()
        .iter()
        .map(|child| child.contents)
        .collect::<Vec<_>>();
    assert_eq!(first, vec![Key::Internal('c'), Key::Internal('d')]);

    let ca = root
        .find_descendent(&[Key::Internal('c'), Key::Internal('a')], 0)
        .unwrap();
    assert_eq!(ca.key(), Some(&'a'));
    assert_eq!(ca.min_descendent, Some(3));
    let below = ca
        .iter_children()
        .iter()
        .map(|child| (child.contents, child.min_descendent))
        .collect::<Vec<_>>();
    assert_eq!(
        below,
        vec![
            (Key::Internal('b'), Some(8)),
            (Key::Internal('r'), Some(3)),
            (Key::Internal('t'), Some(5)),
            (Key::End, Some(9)),
        ]
    );
    assert_eq!(ca.children.get(&Key::Internal('r')).unwrap().min_descendent, Some(3));
    assert!(ca.children.get(&Key::Internal('s')).is_none());
    assert!(ca.children.get(&Key::Start).is_none());
}

#[test]
fn find_descendent_follows_the_keys() {
    let mut root = vocabulary();

    assert_eq!(root.find_descendent(&keys("cat"), 0).unwrap().value(), Some(&5));
    assert_eq!(root.find_descendent(&keys("ca"), 0).unwrap().value(), Some(&9));
    assert!(root.find_descendent(&keys("c"), 0).is_none());
    assert!(root.find_descendent(&keys("cow"), 0).is_none());
    assert_eq!(root.find_descendent(&[], 0).unwrap().contents, Key::Start);
    // from a later position on only the rest of the keys counts
    assert_eq!(root.find_descendent(&keys("xdog"), 1).unwrap().value(), Some(&4));

    let end = root.push(&keys("cat"), 0, 7);
    assert_eq!(end.contents, Key::End);
    assert_eq!(end.value(), Some(&5));
    assert_eq!(root.find_descendent(&keys("cat"), 0).unwrap().value(), Some(&5));
    let end = root.push(&keys("cow"), 0, 6);
    assert_eq!(end.value(), Some(&6));
    assert_eq!(root.push(&[Key::Internal('c')], 0, 9).min_descendent, Some(3));
    root.push(&keys("cat"), 0, 1);
    assert_eq!(root.find_descendent(&keys("cat"), 0).unwrap().value(), Some(&1));
    assert_eq!(root.min_descendent, Some(1));
}

#[test]
fn walk_without_pattern_meets_every_node_once() {
    let root = vocabulary();

    let found = walk(&root, None);
    // root, c, a, three letters and four ends below a, d, o, g and its end
    assert_eq!(found.len(), 14);
    let mut words = found
        .into_iter()
        .filter_map(|(word, value)| value.map(|v| (word, v)))
        .collect::<Vec<_>>();
    words.sort();
    assert_eq!(
        words,
        vec![
            ("ca".to_string(), 9),
            ("cab".to_string(), 8),
            ("car".to_string(), 3),
            ("cat".to_string(), 5),
            ("dog".to_string(), 4),
        ]
    );

    let empty: Node<char, u32> = Node::new();
    assert_eq!(walk(&empty, None), vec![(String::new(), None)]);
}

#[test]
fn walk_honours_the_pattern() {
    let root = vocabulary();
    let pattern = vec![
        Query::Matches(Key::Start),
        Query::Matches(Key::Internal('c')),
        Query::Any,
        Query::Any,
        Query::Matches(Key::End),
    ];

    let mut words = walk(&root, Some(pattern))
        .into_iter()
        .filter_map(|(word, value)| value.map(|v| (word, v)))
        .collect::<Vec<_>>();
    words.sort();
    // a wildcard stands for one symbol, so "ca" is too short
    assert_eq!(
        words,
        vec![
            ("cab".to_string(), 8),
            ("car".to_string(), 3),
            ("cat".to_string(), 5),
        ]
    );

    assert_eq!(walk(&root, Some(vec![])).len(), 1);
    assert_eq!(walk(&root, Some(vec![Query::Any, Query::Matches(Key::Internal('d'))])).len(), 2);
}
