use vocab_tree::letter_boxed::game::{GameError, GameState, LettersBoxedGame, Reach};
use vocab_tree::letter_boxed::solve::{next_states, winning_moves};
use vocab_tree::letter_boxed::word_list::{load_vocabulary, parse_number, split_tokens};
use vocab_tree::letter_boxed::{Board, Position};
use vocab_tree::QueryResult;

fn chars(word: &str) -> Vec<char> {
    word.chars().collect()
}

fn game() -> LettersBoxedGame {
    let vocabulary =
        load_vocabulary("clover 10\ntwig 7\nwagon 5\nnet 4\nto 3\ngrew 2\nvow 1").unwrap();
    LettersBoxedGame::new(&["LCV", "RWA", "ENG", "TIO"], vocabulary).unwrap()
}

fn chain_game() -> LettersBoxedGame {
    let vocabulary = load_vocabulary("adgj 4\njbeh 3\nhkcf 2\nfli 1\nadg 9").unwrap();
    LettersBoxedGame::new(&["ABC", "DEF", "GHI", "JKL"], vocabulary).unwrap()
}

#[test]
fn main_test_reachable_words() {
    let words = game().all_possible_words();
    println!("{:#?}", words.0[0][0]);

    // from the L on the first side nothing starts
    assert!(words.0[0][0].is_empty());
    // WAGON would need A after W, both on the second side
    assert!(words.0[1][1].is_empty());
    // VOW starts on the V and ends on the W
    let from_v = words.0[0][2]
        .iter()
        .map(|(end, word, _)| (*end, word.clone()))
        .collect::<Vec<_>>();
    assert_eq!(from_v, vec![(Position(1, 1), "VOW".to_string())]);
    // TWIG never stays on a side, so it is there
    let from_t = words.0[3][0]
        .iter()
        .map(|(_, word, _)| word.clone())
        .collect::<Vec<_>>();
    assert_eq!(from_t, vec!["TWIG"]);
    // NET would need E after N, both on the third side
    assert!(words.0[2][1].is_empty());
}

#[test]
fn new_puts_the_sides_on_the_box() {
    let game = game();
    assert_eq!(
        game.board(),
        &Board([
            ['L', 'C', 'V'],
            ['R', 'W', 'A'],
            ['E', 'N', 'G'],
            ['T', 'I', 'O'],
        ])
    );

    let short = LettersBoxedGame::new(&["AB"], load_vocabulary("abc 1").unwrap()).unwrap();
    assert_eq!(short.board().0[0], ['A', 'B', '\0']);
    assert_eq!(short.board().0[3], ['\0', '\0', '\0']);

    let vocabulary = load_vocabulary("abc 1").unwrap();
    assert_eq!(
        LettersBoxedGame::new(&["ABCD"], vocabulary).err(),
        Some(GameError::TooManyLetters)
    );
    let vocabulary = load_vocabulary("abc 1").unwrap();
    assert_eq!(
        LettersBoxedGame::new(&["A", "B", "C", "D", "E"], vocabulary).err(),
        Some(GameError::TooManyLetters)
    );
    let letters = Board([['a'; 3]; 4]);
    let given = LettersBoxedGame::with_letters(letters.clone(), load_vocabulary("abc 1").unwrap());
    assert_eq!(given.board(), &letters);
}

#[test]
fn moves_avoid_the_own_side() {
    let all = LettersBoxedGame::all_moves();
    assert_eq!(all.len(), 12);
    assert_eq!(all[0], Position(0, 0));
    assert_eq!(all[4], Position(1, 1));
    assert_eq!(all[11], Position(3, 2));

    let valid = LettersBoxedGame::valid_moves(Position(1, 2));
    assert_eq!(
        valid,
        vec![
            Position(0, 0),
            Position(0, 1),
            Position(0, 2),
            Position(2, 0),
            Position(2, 1),
            Position(2, 2),
            Position(3, 0),
            Position(3, 1),
            Position(3, 2),
        ]
    );
}

#[test]
fn marks_combine() {
    let mut left = Board::<bool>::blank();
    let mut right = Board::<bool>::blank();
    assert!(left.all_false() && !left.all_true());

    left.set(Position(0, 1), true);
    right.set(Position(3, 2), true);
    let both = left.bitor(&right);
    assert!(*both.get(Position(0, 1)) && *both.get(Position(3, 2)));
    assert!(!*both.get(Position(0, 0)));
    assert!(!both.all_false() && !both.all_true());
    assert_eq!(left.copy(), left);

    let full = Board([[true; 3]; 4]);
    assert!(full.all_true() && !full.all_false());
    assert_eq!(full.bitor(&left), full);
}

#[test]
fn extend_adds_one_known_letter() {
    let game = game();
    let mut letters = Board::<bool>::blank();
    letters.set(Position(3, 0), true);
    let start = Reach { pos: Position(3, 0), word: chars("T"), letters };

    let next = game.extend(&start);
    assert_eq!(next.len(), 1);
    assert_eq!(next[0].pos, Position(1, 1));
    assert_eq!(next[0].word, chars("TW"));
    assert!(*next[0].letters.get(Position(3, 0)) && *next[0].letters.get(Position(1, 1)));
    assert!(!*next[0].letters.get(Position(0, 0)));

    let again = game.extend(&next[0]);
    assert_eq!(again.len(), 1);
    assert_eq!(again[0].word, chars("TWI"));
}

#[test]
fn word_list_is_read_line_by_line() {
    let vocabulary = load_vocabulary("cat 10\nhe 3\n  dog\t+7  extra\nna\u{ef}ve 2").unwrap();

    assert_eq!(vocabulary.get(&chars("CAT")), QueryResult::Value(&10));
    assert_eq!(vocabulary.get(&chars("DOG")), QueryResult::Value(&7));
    assert_eq!(vocabulary.get(&chars("NA\u{cf}VE")), QueryResult::Value(&2));
    assert_eq!(vocabulary.get(&chars("cat")), QueryResult::NotFound);
    assert_eq!(vocabulary.get(&chars("HE")), QueryResult::NotFound);
    assert_eq!(vocabulary.get(&chars("CA")), QueryResult::Prefix);

    assert!(load_vocabulary("cat 10\n").is_none());
    assert!(load_vocabulary("cat").is_none());
    assert!(load_vocabulary("cat ten").is_none());
    assert!(load_vocabulary("cat -1").is_none());
    assert!(load_vocabulary("").is_none());
}

#[test]
fn numbers_are_decimal() {
    assert_eq!(parse_number(&chars("0")), Some(0));
    assert_eq!(parse_number(&chars("+42")), Some(42));
    assert_eq!(parse_number(&chars("007")), Some(7));
    assert_eq!(
        parse_number(&chars(&usize::MAX.to_string())),
        Some(usize::MAX)
    );
    assert_eq!(parse_number(&chars("340282366920938463463374607431768211456")), None);
    assert_eq!(parse_number(&chars("")), None);
    assert_eq!(parse_number(&chars("+")), None);
    assert_eq!(parse_number(&chars("-3")), None);
    assert_eq!(parse_number(&chars("1 ")), None);
    assert_eq!(parse_number(&chars("1_000")), None);

    assert_eq!(
        split_tokens(&chars(" a\tbc \u{a0} d")),
        vec![chars("a"), chars("bc"), chars("d")]
    );
    assert!(split_tokens(&chars("  ")).is_empty());
}

#[test]
fn states_are_compared_without_their_words() {
    let mut used = Board::<bool>::blank();
    used.set(Position(2, 2), true);
    let a = GameState { pos: Position(2, 2), letters_used: used.clone(), moves: vec!["ONE".to_string()] };
    let b = GameState { pos: Position(2, 2), letters_used: used.clone(), moves: vec![] };
    let c = GameState { pos: Position(2, 1), letters_used: used, moves: vec![] };
    let d = GameState {
        pos: Position(2, 2),
        letters_used: Board::<bool>::blank(),
        moves: vec!["ONE".to_string()],
    };

    assert!(a == b);
    assert!(a != c);
    assert!(a != d);
}

#[test]
fn first_move_plays_any_word() {
    let game = chain_game();
    let table = game.all_possible_words();
    let start = GameState {
        pos: Position(0, 0),
        letters_used: Board::<bool>::blank(),
        moves: vec![],
    };

    let first = next_states(&table, &start);
    let played = first
        .iter()
        .map(|(state, cost)| (state.moves.clone(), state.pos, *cost))
        .collect::<Vec<_>>();
    assert_eq!(
        played,
        vec![
            (vec!["ADG".to_string()], Position(2, 0), 997),
            (vec!["ADGJ".to_string()], Position(3, 0), 996),
            (vec!["FLI".to_string()], Position(2, 2), 997),
            (vec!["HKCF".to_string()], Position(1, 2), 996),
            (vec!["JBEH".to_string()], Position(2, 1), 996),
        ]
    );

    let second = next_states(&table, &first[1].0);
    assert_eq!(second.len(), 1);
    assert_eq!(second[0].0.moves, vec!["ADGJ", "JBEH"]);
    assert_eq!(second[0].1, 996);
    assert!(!second[0].0.letters_used.all_true());
}

#[test]
fn solve_finds_the_chain() {
    let wins = chain_game().solve();

    assert_eq!(wins, vec![vec!["ADGJ", "JBEH", "HKCF", "FLI"]]);
    assert!(game().solve().is_empty());
}

#[test]
fn winners_are_the_full_boards() {
    let full = GameState {
        pos: Position(0, 0),
        letters_used: Board([[true; 3]; 4]),
        moves: vec!["A".to_string(), "B".to_string()],
    };
    let open = GameState {
        pos: Position(0, 0),
        letters_used: Board::<bool>::blank(),
        moves: vec!["C".to_string()],
    };

    assert_eq!(
        winning_moves(&vec![open.clone(), full.clone(), open, full]),
        vec![vec!["A", "B"], vec!["A", "B"]]
    );
}

#[test]
fn page_names_the_sides() {
    let page = r#"<script>window.gameData = {"ourSolution":["X"],"sides":["TCP","YIR","DHA","ONL"],"date":"x"}</script>"#;
    let game = LettersBoxedGame::from_nytimes_html(page, load_vocabulary("abc 1").unwrap()).unwrap();
    assert_eq!(
        game.board(),
        &Board([
            ['T', 'C', 'P'],
            ['Y', 'I', 'R'],
            ['D', 'H', 'A'],
            ['O', 'N', 'L'],
        ])
    );

    assert_eq!(
        LettersBoxedGame::from_nytimes_html("<html></html>", load_vocabulary("abc 1").unwrap()).err(),
        Some(GameError::SidesNotFound)
    );
    let crowded = r#""sides":["AAA","BBB","CCC","DDD","EEE"]"#;
    assert_eq!(
        LettersBoxedGame::from_nytimes_html(crowded, load_vocabulary("abc 1").unwrap()).err(),
        Some(GameError::TooManyLetters)
    );
    let game =
        LettersBoxedGame::from_sides_text(r#""AB","CDE",x,"FGHI""#, load_vocabulary("abc 1").unwrap())
            .unwrap();
    assert_eq!(game.board().0[0], ['A', 'B', '"']);
    assert_eq!(game.board().0[1], ['C', 'D', 'E']);
    assert_eq!(game.board().0[2], ['F', 'G', 'H']);
    assert_eq!(game.board().0[3], ['\0', '\0', '\0']);
}

#[test]
fn white_space_separates_words() {
    let spaces = [
        ' ', '\t', '\n', '\u{b}', '\u{c}', '\r', '\u{85}', '\u{a0}', '\u{1680}', '\u{2000}',
        '\u{2005}', '\u{200a}', '\u{2028}', '\u{2029}', '\u{202f}', '\u{205f}', '\u{3000}',
    ];
    for c in spaces {
        let line = format!("a{}b", c);
        assert_eq!(split_tokens(&chars(&line)), vec![chars("a"), chars("b")], "{:?}", c);
    }
    let others = ['\u{8}', '\u{e}', '\u{1f}', '!', '\u{84}', '\u{86}', '\u{9f}', '\u{a1}',
        '\u{167f}', '\u{1681}', '\u{180e}', '\u{1fff}', '\u{200b}', '\u{2027}', '\u{202a}',
        '\u{2060}', '\u{2fff}', '\u{3001}', '\u{feff}'];
    for c in others {
        let line = format!("a{}b", c);
        assert_eq!(split_tokens(&chars(&line)).len(), 1, "{:?}", c);
    }
}
