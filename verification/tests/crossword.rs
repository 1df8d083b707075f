use vocab_tree::crossword::board::Board;
use vocab_tree::crossword::clue::{Clue, Direction::Across, Direction::Down};
use vocab_tree::crossword::puzzle::{filled_boards, Puzzle};
use vocab_tree::crossword::square::Square;
use vocab_tree::crossword::vocab::{read_word_list, Vocab};
use vocab_tree::crossword::word::Word;
use vocab_tree::crossword::Position;

fn squares_of(text: &str) -> Vec<Square> {
    text.chars().map(|c| Square::try_from(c).unwrap()).collect()
}

#[test]
fn board_from_string() {
    Board::try_from("asdf\nasdf\nasdf\nasdf").expect("Should be a valid board.");

    Board::try_from("#   \n#  #\n#  #\n   #").expect("Should be a valid board.");

    Board::try_from("asdf\nas").expect_err("Should be an invalid board.");
}

#[test]
fn correct_board_size() {
    let board =
        Board::try_from("    #\n     \n     \n     \n#    ").expect("Should be a valid board.");

    assert_eq!(board.n_rows(), 5);
    assert_eq!(board.n_cols(), 5);
}

#[test]
fn correct_positions() {
    let board =
        Board::try_from("    #\n     \n     \n     \n#    ").expect("Should be a valid board.");

    assert_eq!(board.positions().len(), board.n_rows() * board.n_cols());
}

#[test]
fn clues_from_board() {
    let board =
        Board::try_from("    #\n     \n     \n     \n#    ").expect("Should be a valid board.");
    let clues = board.clues();

    println!("{:#?}", clues);

    assert!(clues.contains(&Clue {
        direction: Across,
        start: Position { row: 0, col: 0 },
        length: 4,
    }));

    assert!(clues.contains(&Clue {
        direction: Down,
        start: Position { row: 1, col: 4 },
        length: 4,
    }));

    assert!(clues.contains(&Clue {
        direction: Down,
        start: Position { row: 0, col: 2 },
        length: 5,
    }));

    assert!(!clues.contains(&Clue {
        direction: Down,
        start: Position { row: 2, col: 2 },
        length: 3,
    }));
}

#[test]
fn clue_positions_work() {
    let clue = Clue {
        direction: Down,
        start: Position { row: 0, col: 1 },
        length: 4,
    };

    assert_eq!(
        clue.positions(),
        vec![
            Position { row: 0, col: 1 },
            Position { row: 1, col: 1 },
            Position { row: 2, col: 1 },
            Position { row: 3, col: 1 },
        ]
    );

    // ----

    let clue = Clue {
        direction: Across,
        start: Position { row: 3, col: 7 },
        length: 4,
    };

    assert_eq!(
        clue.positions(),
        vec![
            Position { row: 3, col: 7 },
            Position { row: 3, col: 8 },
            Position { row: 3, col: 9 },
            Position { row: 3, col: 10 },
        ]
    );
}

#[test]
fn square_from_char() {
    Square::try_from('a').expect("Should be an a.");
    Square::try_from('X').expect("Should be a X.");
    Square::try_from(' ').expect("Should be an empty square.");
    Square::try_from('#').expect("Should be a blocked square.");

    Square::try_from('*').expect_err("Should be an invalid square.");
    Square::try_from('_').expect_err("Should be an invalid square.");
    Square::try_from('$').expect_err("Should be an invalid square.");
    Square::try_from('/').expect_err("Should be an invalid square.");
}

#[test]
fn test_word_from_string() {
    let valid = vec![
        "lowercase",
        "UPPERCASE",
        "miXedCaSE",
        "short",
        "reallyreallyreallylong",
    ];
    let invalid = vec!["this has spaces", "not-ascii", "huh?"];

    for w in valid {
        Word::try_from(w).expect("This should work");
    }

    for w in invalid {
        Word::try_from(w).expect_err("This shouldn't work");
    }
}

#[test]
fn test_word_from_bytes() {}

#[test]
fn vocab_data_struct_works() {
    let words = [("hello", 1), ("world", 1), ("jello", 1)];

    let partial_words = ["     ", " ello", "h ll ", "    o", "worl ", "w  ld"]
        .iter()
        .map(|p| squares_of(p))
        .collect::<Vec<_>>();

    let vocab = Vocab::new(&words);

    // check that all the partial words are in the vocab
    assert!(partial_words.iter().all(|p| vocab.matches(p).len() > 0));

    assert!(vocab.matches(&partial_words[0]).len() == 3);
    assert!(vocab.matches(&partial_words[1]).len() == 2);
}

#[test]
fn generator_works_small() {
    let board = Board::try_from("    \n    \n    \n    ").expect("Should be a valid board.");
    let vocab = Vocab::new(&[("abcd", 1), ("aaaa", 1)]);
    let puzzle = Puzzle::new(board, vocab).expect("Should be a valid puzzle.");

    let _ = puzzle.fill_generator(10);
}

#[test]
fn square_knows_what_it_holds() {
    let empty = Square::try_from(' ').unwrap();
    let blocked = Square::try_from('#').unwrap();
    let letter = Square::try_from('q').unwrap();

    assert!(empty.is_empty() && !empty.is_blocked());
    assert!(blocked.is_blocked() && !blocked.is_empty());
    assert!(!letter.is_empty() && !letter.is_blocked());
    assert_eq!(letter, Square::try_from(b'Q').unwrap());
    assert_eq!(empty, Square::empty());
    assert_eq!(blocked, Square::blocked());
    assert_eq!(Square::try_from(0u8).unwrap(), empty);
    assert_eq!(Square::try_from(1u8).unwrap(), blocked);
    assert_eq!(
        Square::try_from(b'q'),
        Err("Not a valid uppercase ASCII char.")
    );

    assert!(empty.matches(b'Z'));
    assert!(letter.matches(b'Q'));
    assert!(!letter.matches(b'Z'));
    assert!(!blocked.matches(b'Z'));

    assert_eq!(empty.to_char(), ' ');
    assert_eq!(blocked.to_char(), '#');
    assert_eq!(letter.to_char(), 'Q');
}

#[test]
fn word_is_upper_case() {
    let word = Word::try_from("miXedCaSE").unwrap();
    assert_eq!(word.bytes(), b"MIXEDCASE");
    assert_eq!(word.text(), "MIXEDCASE");
    assert_eq!(word.len(), 9);
    assert_eq!(Word::try_from("").unwrap().len(), 0);
    assert_eq!(Word::try_from("huh?").unwrap_err(), "Not valid ASCII.");
    assert_eq!(Word::try_from(&b"ab"[..]).unwrap().bytes(), b"AB");
    assert_eq!(Word::from_bytes(b"a1").unwrap_err(), "Not valid ASCII.");
}

#[test]
fn board_errors_name_their_reason() {
    assert_eq!(
        Board::try_from("asdf\nas").unwrap_err(),
        "Rows have different lengths."
    );
    assert_eq!(
        Board::try_from("as?f\nasdf").unwrap_err(),
        "Not a valid uppercase ASCII char."
    );
    assert_eq!(
        Board::try_from("a\u{e9}\nabc").unwrap_err(),
        "Not a valid uppercase ASCII char."
    );
    assert_eq!(
        Board::try_from("ab\n").unwrap_err(),
        "Rows have different lengths."
    );

    let empty = Board::try_from("").unwrap();
    assert_eq!((empty.n_rows(), empty.n_cols()), (1, 0));
    assert!(empty.clues().is_empty());
    assert!(empty.is_filled());
}

#[test]
fn board_reads_and_shows_its_squares() {
    let board = Board::try_from("ab#\n c ").unwrap();

    assert_eq!((board.n_rows(), board.n_cols()), (2, 3));
    assert_eq!(board.render(), "AB#\n C \n");
    assert!(!board.is_filled());
    assert_eq!(
        board.square_at(Position { row: 1, col: 1 }).to_char(),
        'C'
    );
    assert_eq!(
        board.positions(),
        vec![
            Position { row: 0, col: 0 },
            Position { row: 0, col: 1 },
            Position { row: 0, col: 2 },
            Position { row: 1, col: 0 },
            Position { row: 1, col: 1 },
            Position { row: 1, col: 2 },
        ]
    );
    let rows = board
        .rows()
        .iter()
        .map(|row| row.iter().map(|s| s.to_char()).collect::<String>())
        .collect::<Vec<_>>();
    assert_eq!(rows, vec!["AB#", " C "]);
    let cols = board
        .cols()
        .iter()
        .map(|col| col.iter().map(|s| s.to_char()).collect::<String>())
        .collect::<Vec<_>>();
    assert_eq!(cols, vec!["A ", "BC", "# "]);
    assert!(Board::try_from("ab#\nxcx").unwrap().is_filled());
}

#[test]
fn clues_come_row_by_row() {
    let board = Board::try_from("ab#\n c ").unwrap();

    assert_eq!(
        board.clues(),
        vec![
            Clue { direction: Across, start: Position { row: 0, col: 0 }, length: 2 },
            Clue { direction: Down, start: Position { row: 0, col: 0 }, length: 2 },
            Clue { direction: Down, start: Position { row: 0, col: 1 }, length: 2 },
            Clue { direction: Across, start: Position { row: 1, col: 0 }, length: 3 },
            Clue { direction: Down, start: Position { row: 1, col: 2 }, length: 1 },
        ]
    );
}

#[test]
fn insert_writes_along_the_clue() {
    let board = Board::try_from("   \n # \n   ").unwrap();
    let across = Clue { direction: Across, start: Position { row: 2, col: 0 }, length: 3 };
    let down = Clue { direction: Down, start: Position { row: 0, col: 2 }, length: 3 };

    let filled = board.insert(&Word::try_from("cat").unwrap(), &across);
    assert_eq!(filled.render(), "   \n # \nCAT\n");
    assert_eq!(board.render(), "   \n # \n   \n");

    let filled = filled.insert(&Word::try_from("oat").unwrap(), &down);
    assert_eq!(filled.render(), "  O\n #A\nCAT\n");
    assert_eq!(
        filled
            .clue_squares(&down)
            .iter()
            .map(|s| s.to_char())
            .collect::<String>(),
        "OAT"
    );

    let short = board.insert(&Word::try_from("ab").unwrap(), &across);
    assert_eq!(short.render(), "   \n # \nAB \n");
    let long = board.insert(&Word::try_from("abcd").unwrap(), &across);
    assert_eq!(long.render(), "   \n # \nABC\n");
}

#[test]
fn vocab_matches_by_length_and_letters() {
    let vocab = Vocab::new(&[
        ("cat", 3),
        ("cot", 2),
        ("cart", 1),
        ("dog", 5),
        ("no way", 1),
        ("", 1),
    ]);

    let mut found = vocab
        .matches(&squares_of("c t"))
        .iter()
        .map(|w| String::from_utf8(w.bytes().to_vec()).unwrap())
        .collect::<Vec<_>>();
    found.sort();
    assert_eq!(found, vec!["CAT", "COT"]);

    assert_eq!(vocab.matches(&squares_of("   ")).len(), 3);
    assert_eq!(vocab.matches(&squares_of("    ")).len(), 1);
    assert!(vocab.matches(&squares_of("c#t")).is_empty());
    assert!(vocab.matches(&squares_of("      ")).is_empty());
    assert!(vocab.matches(&[]).is_empty());
}

#[test]
fn puzzle_refuses_short_clues() {
    let board = Board::try_from("   \n   \n   ").unwrap();
    let vocab = Vocab::new(&[("cat", 1)]);
    assert!(Puzzle::new(board, vocab).is_ok());

    // the square above the block is a down clue of one square
    let board = Board::try_from("   \n # \n   ").unwrap();
    let vocab = Vocab::new(&[("cat", 1)]);
    assert_eq!(
        Puzzle::new(board, vocab).err(),
        Some("Clues must have length at least 3.")
    );
}

#[test]
fn puzzle_finds_the_fills() {
    let board = Board::try_from("   \n   \n   ").unwrap();
    let vocab = Vocab::new(&[("aba", 1), ("bab", 1)]);
    let puzzle = Puzzle::new(board, vocab).unwrap();

    let start = Board::try_from("   \n   \n   ").unwrap();
    let moves = puzzle.next_moves(&start);
    // six clues, two words each, every result leaves all clues open
    assert_eq!(moves.len(), 12);
    assert_eq!(moves[0].render(), "ABA\n   \n   \n");
    assert_eq!(moves[2].render(), "A  \nB  \nA  \n");

    let mut fills = puzzle
        .valid_fills(100_000)
        .iter()
        .map(|b| b.render())
        .collect::<Vec<_>>();
    fills.sort();
    assert_eq!(fills, vec!["ABA\nBAB\nABA\n", "BAB\nABA\nBAB\n"]);

    let found = puzzle.fill_generator(3);
    assert_eq!(found.len(), 3);
    assert_eq!(found[0].render(), "   \n   \n   \n");
    assert!(filled_boards(&found).is_empty());

    // a word that crosses nothing else leaves its crossing clues closed
    let vocab = Vocab::new(&[("xyz", 1)]);
    let lonely = Puzzle::new(Board::try_from("   \n   \n   ").unwrap(), vocab).unwrap();
    assert!(lonely.next_moves(&start).is_empty());
    assert!(lonely.valid_fills(10).is_empty());
}

#[test]
fn word_takes_the_letters_among_all_bytes() {
    for byte in 0..=255u8 {
        let letter = matches!(byte,
            b'A'..=b'Z' | b'a'..=b'z' | 0xaa | 0xb5 | 0xba | 0xc0..=0xd6 | 0xd8..=0xf6 | 0xf8..=0xff);
        assert_eq!(Word::from_bytes(&[byte]).is_ok(), letter, "byte {}", byte);
    }
}

#[test]
fn word_list_lines_give_scored_words() {
    let entries = read_word_list("cat 10\n\n  dog\t7 extra\r\nbird\nfish many\n");
    assert_eq!(
        entries,
        vec![
            ("cat".to_string(), 10),
            ("dog".to_string(), 7),
            ("bird".to_string(), 0),
            ("fish".to_string(), 0),
        ]
    );
    assert!(read_word_list("").is_empty());
}
