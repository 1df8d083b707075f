//! A crossword puzzle: a board, the clues on it and a vocabulary to fill
//! them from.

use crate::crossword::board::Board;
use crate::crossword::clue::Clue;
use crate::crossword::square::is_upper;
use crate::crossword::vocab::{key_chars, pattern_of, wildcard_match, Vocab};
use crate::crossword::word::Word;
use crate::search::{explored, reach, reachable, trail, SearchSpace};
use vstd::prelude::*;

verus! {

/// A board to fill, with its clues and the words to fill them with.
pub struct Puzzle {
    board: Board,
    vocab: Vocab,
    clues: Vec<Clue>,
}

/// The message for a board with a clue of one or two squares.
pub open spec fn short_clue() -> &'static str {
    "Clues must have length at least 3."
}

/// Whether every byte is an uppercase ASCII letter.
pub open spec fn letters_only(bytes: Seq<u8>) -> bool {
    forall|i: int| 0 <= i < bytes.len() ==> is_upper(#[trigger] bytes[i])
}

/// Whether `to` is `from` with `letters` written along `clue`.
pub open spec fn follows(to: &Board, from: &Board, letters: Seq<u8>, clue: &Clue) -> bool {
    &&& to.rows_spec() == from.rows_spec()
    &&& to.cols_spec() == from.cols_spec()
    &&& forall|row: int, col: int|
        from.holds(row, col) ==> #[trigger] to.at(row, col) == from.written(letters, clue, row, col)
}

/// Different words have different keys.
pub proof fn lemma_key_chars_injective(a: Seq<u8>, b: Seq<u8>)
    requires
        key_chars(a) == key_chars(b),
    ensures
        a == b,
{
    assert(a.len() == key_chars(a).len());
    assert(b.len() == key_chars(b).len());
    assert forall|i: int| 0 <= i < a.len() implies a[i] == b[i] by {
        assert(key_chars(a)[i] == a[i] as char);
        assert(key_chars(b)[i] == b[i] as char);
    }
    assert(a =~= b);
}

impl Puzzle {
    /// The board the puzzle starts from.
    pub closed spec fn board(&self) -> &Board {
        &self.board
    }

    /// The vocabulary of the puzzle.
    pub closed spec fn vocab(&self) -> &Vocab {
        &self.vocab
    }

    /// The clues of the puzzle.
    pub closed spec fn clues(&self) -> Seq<Clue> {
        self.clues@
    }

    /// The invariant of the puzzle: the clues are those of the board.
    pub closed spec fn wf(&self) -> bool {
        &&& self.board.wf()
        &&& self.vocab.wf()
        &&& self.clues@ == self.board.clues_before(self.board.rows_spec() * self.board.cols_spec())
        &&& forall|i: int| 0 <= i < self.clues@.len() ==> self.board.takes(#[trigger] &self.clues@[i])
    }

    /// Whether a board has the size of the puzzle's board.
    pub open spec fn sized(&self, board: &Board) -> bool {
        &&& board.wf()
        &&& board.rows_spec() == self.board().rows_spec()
        &&& board.cols_spec() == self.board().cols_spec()
    }

    /// Whether some word of the vocabulary can stand on the clue.
    pub open spec fn open_for(&self, board: &Board, clue: &Clue) -> bool {
        exists|key: Seq<char>|
            self.vocab()@.contains_key(key) && wildcard_match(board.clue_pattern(clue), key)
    }

    /// Whether every clue can still take a word.
    pub open spec fn all_open(&self, board: &Board) -> bool {
        forall|i: int| 0 <= i < self.clues().len() ==> self.open_for(board, #[trigger] &self.clues()[i])
    }

    /// Whether writing `letters` along the clue `c` is a move from `from` to
    /// `to`: the letters are a word of the vocabulary that can stand on the
    /// clue, and afterwards every clue can still take a word.
    pub open spec fn moves(&self, from: &Board, to: &Board, c: int, letters: Seq<u8>) -> bool {
        &&& 0 <= c < self.clues().len()
        &&& self.vocab()@.contains_key(key_chars(letters))
        &&& wildcard_match(from.clue_pattern(&self.clues()[c]), key_chars(letters))
        &&& letters_only(letters)
        &&& follows(to, from, letters, &self.clues()[c])
        &&& self.all_open(to)
    }

    /// Whether one move leads from `from` to `to`.
    pub open spec fn is_move(&self, from: &Board, to: &Board) -> bool {
        exists|c: int, letters: Seq<u8>| self.moves(from, to, c, letters)
    }

    /// A puzzle on `board` with the words of `vocab`, unless a clue of the
    /// board is shorter than three squares.
    pub fn new(board: Board, vocab: Vocab) -> (r: Result<Self, &'static str>)
        requires
            board.wf(),
            vocab.wf(),
        ensures
            match r {
                Ok(puzzle) => {
                    &&& puzzle.wf()
                    &&& puzzle.board() == board
                    &&& puzzle.vocab() == vocab
                    &&& forall|i: int| 0 <= i < puzzle.clues().len() ==> (#[trigger] puzzle.clues()[i]).length >= 3
                },
                Err(e) => {
                    &&& e == short_clue()
                    &&& exists|i: int|
                        0 <= i < board.clues_before(board.rows_spec() * board.cols_spec()).len()
                            && (#[trigger] board.clues_before(
                            board.rows_spec() * board.cols_spec(),
                        )[i]).length < 3
                },
            },
    {
        let clues = board.clues();
        let mut i: usize = 0;
        while i < clues.len()
            invariant
                i <= clues.len(),
                clues@ == board.clues_before(board.rows_spec() * board.cols_spec()),
                forall|k: int| 0 <= k < i ==> (#[trigger] clues@[k]).length >= 3,
            decreases clues.len() - i,
        {
            if clues[i].len() < 3 {
                return Err("Clues must have length at least 3.");
            }
            i += 1;
        }
        proof {
            board.lemma_clues_on_board(board.rows_spec() * board.cols_spec());
        }
        Ok(Puzzle { board, vocab, clues })
    }

    /// Whether some word of the vocabulary can stand on the clue.
    fn clue_open(&self, board: &Board, clue: &Clue) -> (open: bool)
        requires
            self.wf(),
            self.sized(board),
            board.takes(clue),
        ensures
            open == self.open_for(board, clue),
    {
        let squares = board.clue_squares(clue);
        assert(pattern_of(squares@) =~= board.clue_pattern(clue));
        assert forall|i: int| 0 <= i < squares.len() implies (#[trigger] squares[i]).wf() by {
            board.lemma_squares_valid(clue.cell(i).0, clue.cell(i).1);
        }
        let words = self.vocab.matches(squares.as_slice());
        proof {
            if words.len() > 0 {
                assert(self.vocab@.contains_key(key_chars(words[0]@)));
            }
        }
        words.len() > 0
    }

    /// Whether every clue can still take a word.
    fn all_clues_open(&self, board: &Board) -> (open: bool)
        requires
            self.wf(),
            self.sized(board),
        ensures
            open == self.all_open(board),
    {
        let mut i: usize = 0;
        while i < self.clues.len()
            invariant
                self.wf(),
                self.sized(board),
                i <= self.clues@.len(),
                forall|k: int| 0 <= k < i ==> self.open_for(board, #[trigger] &self.clues@[k]),
            decreases self.clues@.len() - i,
        {
            proof {
                self.lemma_takes(board, i as int);
            }
            if !self.clue_open(board, &self.clues[i]) {
                assert(!self.open_for(board, &self.clues()[i as int]));
                return false;
            }
            i += 1;
        }
        true
    }

    /// A board of the puzzle's size takes every clue of the puzzle.
    proof fn lemma_takes(&self, board: &Board, i: int)
        requires
            self.wf(),
            self.sized(board),
            0 <= i < self.clues@.len(),
        ensures
            board.takes(&self.clues@[i]),
    {
        let clue = self.clues@[i];
        assert(self.board.takes(&clue));
        assert forall|j: int| 0 <= j < clue.length implies board.holds(
            #[trigger] clue.cell(j).0,
            clue.cell(j).1,
        ) by {
            assert(self.board.holds(clue.cell(j).0, clue.cell(j).1));
        }
    }

    /// The boards that one move leads to from `board`: for every clue and
    /// every word of letters that can stand on it, the board with that word
    /// written in, if every clue can still take a word afterwards.
    pub fn next_moves(&self, board: &Board) -> (moves: Vec<Board>)
        requires
            self.wf(),
            self.sized(board),
        ensures
            forall|i: int|
                0 <= i < moves.len() ==> self.sized(#[trigger] &moves[i]) && self.is_move(
                    board,
                    &moves[i],
                ),
            forall|to: Board|
                self.sized(&to) && #[trigger] self.is_move(board, &to) ==> exists|i: int|
                    0 <= i < moves.len() && (#[trigger] moves[i]).same_squares(&to),
    {
        let mut moves: Vec<Board> = Vec::new();
        let mut c: usize = 0;
        while c < self.clues.len()
            invariant
                self.wf(),
                self.sized(board),
                c <= self.clues@.len(),
                forall|i: int|
                    0 <= i < moves.len() ==> self.sized(#[trigger] &moves[i]) && self.is_move(
                        board,
                        &moves[i],
                    ),
                forall|to: Board, k: int, letters: Seq<u8>|
                    0 <= k < c && self.sized(&to) && #[trigger] self.moves(board, &to, k, letters)
                        ==> exists|i: int|
                        0 <= i < moves.len() && (#[trigger] moves[i]).same_squares(&to),
            decreases self.clues@.len() - c,
        {
            let clue = &self.clues[c];
            proof {
                self.lemma_takes(board, c as int);
            }
            let squares = board.clue_squares(clue);
            assert(pattern_of(squares@) =~= board.clue_pattern(clue));
            assert forall|i: int| 0 <= i < squares.len() implies (#[trigger] squares[i]).wf() by {
                board.lemma_squares_valid(clue.cell(i).0, clue.cell(i).1);
            }
            let words = self.vocab.matches(squares.as_slice());
            let mut w: usize = 0;
            while w < words.len()
                invariant
                    self.wf(),
                    self.sized(board),
                    c < self.clues@.len(),
                    *clue == self.clues@[c as int],
                    board.takes(clue),
                    w <= words.len(),
                    forall|i: int|
                        0 <= i < words.len() ==> self.vocab@.contains_key(
                            key_chars((#[trigger] words[i])@),
                        ) && wildcard_match(board.clue_pattern(clue), key_chars(words[i]@)),
                    forall|i: int|
                        0 <= i < moves.len() ==> self.sized(#[trigger] &moves[i]) && self.is_move(
                            board,
                            &moves[i],
                        ),
                    forall|to: Board, k: int, letters: Seq<u8>|
                        0 <= k < c && self.sized(&to) && #[trigger] self.moves(
                            board,
                            &to,
                            k,
                            letters,
                        ) ==> exists|i: int|
                            0 <= i < moves.len() && (#[trigger] moves[i]).same_squares(&to),
                    forall|to: Board, i: int|
                        0 <= i < w && self.sized(&to) && #[trigger] self.moves(
                            board,
                            &to,
                            c as int,
                            words[i]@,
                        ) ==> exists|i: int|
                            0 <= i < moves.len() && (#[trigger] moves[i]).same_squares(&to),
                decreases words.len() - w,
            {
                let word = &words[w];
                let ghost before = moves@;
                if is_letters(word) {
                    let filled = board.insert(word, clue);
                    if self.all_clues_open(&filled) {
                        assert(self.moves(board, &filled, c as int, word@));
                        moves.push(filled);
                        proof {
                            assert forall|i: int| 0 <= i < moves.len() implies self.sized(
                                #[trigger] &moves[i],
                            ) && self.is_move(board, &moves[i]) by {
                                if i < before.len() {
                                    assert(moves[i] == before[i]);
                                }
                            }
                        }
                    } else {
                        proof {
                            assert forall|to: Board|
                                self.sized(&to) && #[trigger] self.moves(
                                    board,
                                    &to,
                                    c as int,
                                    word@,
                                ) implies false by {
                                self.lemma_open_same(&filled, &to);
                            }
                        }
                    }
                }
                proof {
                    let last = moves.len() - 1;
                    assert forall|to: Board, k: int, letters: Seq<u8>|
                        0 <= k < c && self.sized(&to) && #[trigger] self.moves(
                            board,
                            &to,
                            k,
                            letters,
                        ) implies exists|i: int|
                        0 <= i < moves.len() && (#[trigger] moves[i]).same_squares(&to) by {
                        let i = choose|i: int|
                            0 <= i < before.len() && (#[trigger] before[i]).same_squares(&to);
                        assert(moves[i] == before[i]);
                    }
                    assert forall|to: Board, i: int|
                        0 <= i < w + 1 && self.sized(&to) && #[trigger] self.moves(
                            board,
                            &to,
                            c as int,
                            words[i]@,
                        ) implies exists|i: int|
                        0 <= i < moves.len() && (#[trigger] moves[i]).same_squares(&to) by {
                        if i < w {
                            let j = choose|j: int|
                                0 <= j < before.len() && (#[trigger] before[j]).same_squares(&to);
                            assert(moves[j] == before[j]);
                        } else {
                            assert(moves[last].same_squares(&to));
                        }
                    }
                }
                w += 1;
            }
            proof {
                assert forall|to: Board, k: int, letters: Seq<u8>|
                    0 <= k < c + 1 && self.sized(&to) && #[trigger] self.moves(
                        board,
                        &to,
                        k,
                        letters,
                    ) implies exists|i: int|
                    0 <= i < moves.len() && (#[trigger] moves[i]).same_squares(&to) by {
                    if k == c {
                        let key = key_chars(letters);
                        let i = choose|i: int|
                            0 <= i < words.len() && key_chars((#[trigger] words[i])@) == key;
                        lemma_key_chars_injective(words[i]@, letters);
                        assert(self.moves(board, &to, c as int, words[i]@));
                    }
                }
            }
            c += 1;
        }
        moves
    }

    /// Boards with the same squares leave the same clues open.
    proof fn lemma_open_same(&self, a: &Board, b: &Board)
        requires
            self.wf(),
            self.sized(a),
            a.same_squares(b),
        ensures
            self.all_open(a) == self.all_open(b),
    {
        assert forall|i: int| 0 <= i < self.clues().len() implies a.clue_pattern(&self.clues()[i])
            == b.clue_pattern(#[trigger] &self.clues()[i]) by {
            let clue = self.clues()[i];
            self.lemma_takes(a, i);
            assert forall|j: int| 0 <= j < clue.length implies a.at(clue.cell(j).0, clue.cell(j).1)
                == b.at(#[trigger] clue.cell(j).0, clue.cell(j).1) by {
                assert(a.holds(clue.cell(j).0, clue.cell(j).1));
            }
            assert(a.clue_pattern(&clue) =~= b.clue_pattern(&clue));
        }
    }

    /// The boards that a depth-first search over the moves finds from the
    /// puzzle's board, as far as it gets with `limit` boards.
    pub fn fill_generator(&self, limit: usize) -> (found: Vec<Board>)
        requires
            self.wf(),
        ensures
            explored(self, *self.board(), limit, found@),
    {
        let start = self.board.copy();
        let found = reach(self, start, limit);
        proof {
            assert forall|i: int| 0 <= i < found.len() implies reachable(
                self,
                self.board,
                #[trigger] found[i],
            ) by {
                lemma_same_start(self, start, self.board, found[i]);
            }
            if found.len() < limit {
                assert forall|board: Board|
                    self.sized(&board) && #[trigger] reachable(
                        self,
                        self.board,
                        board,
                    ) implies exists|i: int|
                    0 <= i < found.len() && (#[trigger] found[i]).same_squares(&board) by {
                    lemma_same_start(self, self.board, start, board);
                }
            }
        }
        found
    }

    /// The filled boards among those that a depth-first search over the
    /// moves finds with `limit` boards.
    pub fn valid_fills(&self, limit: usize) -> (fills: Vec<Board>)
        requires
            self.wf(),
        ensures
            exists|found: Seq<Board>|
                #[trigger] explored(self, *self.board(), limit, found) && filled_among(
                    found,
                    fills@,
                ),
            forall|i: int| 0 <= i < fills.len() ==> self.sized(&#[trigger] fills[i]),
    {
        let found = self.fill_generator(limit);
        let fills = filled_boards(&found);
        assert(explored(self, *self.board(), limit, found@) && filled_among(found@, fills@));
        proof {
            let at = choose|at: Seq<int>| picks_filled(found@, fills@, at);
            assert forall|i: int| 0 <= i < fills.len() implies self.sized(&#[trigger] fills[i]) by {
                assert(self.sized(&found@[at[i]]));
                assert(fills[i].same_squares(&found@[at[i]]));
            }
        }
        fills
    }
}

impl SearchSpace for Puzzle {
    type Node = Board;

    open spec fn space_ok(&self) -> bool {
        self.wf()
    }

    open spec fn holds(&self, node: Board) -> bool {
        self.sized(&node)
    }

    open spec fn same(a: Board, b: Board) -> bool {
        a.same_squares(&b)
    }

    open spec fn step(&self, from: Board, to: Board) -> bool {
        self.is_move(&from, &to)
    }

    proof fn lemma_same_is_eq(&self, a: Board, b: Board) {
        a.lemma_same_content(&b);
    }

    proof fn lemma_same(a: Board, b: Board, c: Board) {
        if a.same_squares(&b) {
            assert forall|row: int, col: int| b.holds(row, col) implies #[trigger] b.at(row, col)
                == a.at(row, col) by {
                assert(a.holds(row, col));
            }
            if b.same_squares(&c) {
                assert forall|row: int, col: int| a.holds(row, col) implies #[trigger] a.at(
                    row,
                    col,
                ) == c.at(row, col) by {
                    assert(b.holds(row, col));
                }
            }
        }
    }

    proof fn lemma_same_steps(&self, a: Board, b: Board, to: Board) {
        let (c, letters) = choose|c: int, letters: Seq<u8>| self.moves(&a, &to, c, letters);
        let clue = self.clues()[c];
        self.lemma_takes(&a, c);
        assert forall|j: int| 0 <= j < clue.length implies a.at(clue.cell(j).0, clue.cell(j).1)
            == b.at(#[trigger] clue.cell(j).0, clue.cell(j).1) by {
            assert(a.holds(clue.cell(j).0, clue.cell(j).1));
        }
        assert(a.clue_pattern(&clue) =~= b.clue_pattern(&clue));
        assert forall|row: int, col: int| b.holds(row, col) implies #[trigger] to.at(row, col)
            == b.written(letters, &clue, row, col) by {
            assert(a.holds(row, col));
            assert(to.at(row, col) == a.written(letters, &clue, row, col));
            assert(a.at(row, col) == b.at(row, col));
        }
        assert(self.moves(&b, &to, c, letters));
    }

    fn successors(&self, node: &Board) -> (next: Vec<Board>) {
        self.next_moves(node)
    }
}

/// What steps lead to from a board, they lead to from any board with the
/// same squares.
pub proof fn lemma_same_start(puzzle: &Puzzle, a: Board, b: Board, to: Board)
    requires
        a.same_squares(&b),
        b.same_squares(&a),
        reachable(puzzle, a, to),
    ensures
        reachable(puzzle, b, to),
{
    let path = choose|path: Seq<Board>|
        #[trigger] trail(puzzle, path) && path[0].same_squares(&a) && path.last().same_squares(&to);
    assert(puzzle.holds(path[0]));
    assert(path[0].same_squares(&b));
}

/// Whether a board has no empty square.
pub open spec fn is_full(board: &Board) -> bool {
    forall|row: int, col: int| board.holds(row, col) ==> #[trigger] board.at(row, col) != 0
}

/// Whether `fills` are the filled boards of `found`, in the same order.
pub open spec fn filled_among(found: Seq<Board>, fills: Seq<Board>) -> bool {
    exists|at: Seq<int>| picks_filled(found, fills, at)
}

/// Whether `fills` are the filled boards of `found`, the `i`-th of them
/// being the board at position `at[i]`.
pub open spec fn picks_filled(found: Seq<Board>, fills: Seq<Board>, at: Seq<int>) -> bool {
    &&& at.len() == fills.len()
    &&& forall|i: int|
        0 <= i < at.len() ==> 0 <= #[trigger] at[i] < found.len() && is_full(&found[at[i]])
            && fills[i].wf() && fills[i].same_squares(&found[at[i]])
    &&& forall|i: int, j: int| 0 <= i < j < at.len() ==> #[trigger] at[i] < #[trigger] at[j]
    &&& forall|k: int| 0 <= k < found.len() && is_full(#[trigger] &found[k]) ==> at.contains(k)
}

/// The filled boards of a list, in the order of the list.
pub fn filled_boards(found: &Vec<Board>) -> (fills: Vec<Board>)
    requires
        forall|i: int| 0 <= i < found.len() ==> (#[trigger] found[i]).wf(),
    ensures
        filled_among(found@, fills@),
        forall|i: int| 0 <= i < fills.len() ==> (#[trigger] fills[i]).wf(),
{
    let mut fills: Vec<Board> = Vec::new();
    let ghost mut at: Seq<int> = Seq::empty();
    let mut k: usize = 0;
    while k < found.len()
        invariant
            k <= found.len(),
            forall|i: int| 0 <= i < found.len() ==> (#[trigger] found[i]).wf(),
            forall|i: int| 0 <= i < fills.len() ==> (#[trigger] fills[i]).wf(),
            at.len() == fills.len(),
            forall|i: int|
                0 <= i < at.len() ==> 0 <= #[trigger] at[i] < k && is_full(&found[at[i]])
                    && fills[i].same_squares(&found[at[i]]),
            forall|i: int, j: int| 0 <= i < j < at.len() ==> #[trigger] at[i] < #[trigger] at[j],
            forall|j: int| 0 <= j < k && is_full(#[trigger] &found[j]) ==> at.contains(j),
        decreases found.len() - k,
    {
        let ghost at_before = at;
        if found[k].is_filled() {
            fills.push(found[k].copy());
            proof {
                at = at.push(k as int);
            }
        }
        proof {
            assert forall|j: int| 0 <= j < k + 1 && is_full(#[trigger] &found[j]) implies at.contains(
                j,
            ) by {
                if j < k {
                    let i = choose|i: int| 0 <= i < at_before.len() && at_before[i] == j;
                    assert(at[i] == j);
                } else {
                    assert(at[at.len() - 1] == j);
                }
            }
        }
        k += 1;
    }
    assert(picks_filled(found@, fills@, at));
    fills
}

/// Whether every byte of the word is an uppercase ASCII letter.
fn is_letters(word: &Word) -> (b: bool)
    ensures
        b == letters_only(word@),
{
    let bytes = word.bytes();
    let mut i: usize = 0;
    while i < bytes.len()
        invariant
            i <= bytes.len(),
            bytes@ == word@,
            forall|k: int| 0 <= k < i ==> is_upper(#[trigger] bytes@[k]),
        decreases bytes.len() - i,
    {
        if !(0x41 <= bytes[i] && bytes[i] <= 0x5a) {
            return false;
        }
        i += 1;
    }
    true
}

} // verus!
