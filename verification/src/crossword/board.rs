//! The crossword board: a grid of squares stored row by row.

use crate::crossword::clue::{Clue, Direction};
use crate::crossword::square::{
    is_square_byte, not_a_letter, shown, square_byte_of, Square,
};
use crate::crossword::vocab::pattern_char;
use crate::crossword::word::Word;
use crate::crossword::Position;
use crate::text::string_of;
use vstd::prelude::*;
use vstd::string::StringSliceAdditionalSpecFns;

verus! {

/// A grid of `n_rows` by `n_cols` squares.
#[derive(Clone, Hash, Debug)]
pub struct Board {
    squares: Vec<Square>,
    n_rows: usize,
    n_cols: usize,
}

/// The index of a place in row-major order stays inside the grid.
pub proof fn lemma_index_in_grid(rows: int, cols: int, row: int, col: int)
    requires
        0 <= row < rows,
        0 <= col < cols,
    ensures
        0 <= cols * row + col < rows * cols,
        cols * row + col < cols * (row + 1),
        cols * (row + 1) <= rows * cols,
        0 <= cols * row <= rows * cols,
        rows * cols == cols * rows,
{
    assert(rows * cols == cols * rows) by (nonlinear_arith);
    assert(cols * row + cols == cols * (row + 1)) by (nonlinear_arith);
    assert(cols * (row + 1) <= rows * cols) by (nonlinear_arith)
        requires
            row + 1 <= rows,
            cols >= 0,
    ;
    assert(0 <= cols * row) by (nonlinear_arith)
        requires
            0 <= row,
            0 <= cols,
    ;
}

/// A row-major index names one place of the grid.
pub proof fn lemma_place_of_index(cols: int, k: int)
    requires
        0 < cols,
        0 <= k,
    ensures
        0 <= k % cols < cols,
        0 <= k / cols,
        cols * (k / cols) + k % cols == k,
{
    vstd::arithmetic::div_mod::lemma_fundamental_div_mod(k, cols);
    vstd::arithmetic::div_mod::lemma_mod_bound(k, cols);
    vstd::arithmetic::div_mod::lemma_div_pos_is_pos(k, cols);
}

impl PartialEq for Board {
    /// Whether the boards have the same size and the same squares.
    fn eq(&self, other: &Self) -> (r: bool) {
        if self.n_rows != other.n_rows || self.n_cols != other.n_cols || self.squares.len()
            != other.squares.len() {
            assert(self.content().len() == self.squares@.len());
            assert(other.content().len() == other.squares@.len());
            return false;
        }
        let mut i: usize = 0;
        while i < self.squares.len()
            invariant
                i <= self.squares@.len(),
                self.squares@.len() == other.squares@.len(),
                forall|k: int| 0 <= k < i ==> (#[trigger] self.squares@[k])@ == other.squares@[k]@,
            decreases self.squares@.len() - i,
        {
            if self.squares[i].byte() != other.squares[i].byte() {
                assert(self.content()[i as int] != other.content()[i as int]);
                return false;
            }
            i += 1;
        }
        assert(self.content() =~= other.content());
        true
    }
}

impl vstd::std_specs::cmp::PartialEqSpecImpl for Board {
    open spec fn obeys_eq_spec() -> bool {
        true
    }

    open spec fn eq_spec(&self, other: &Self) -> bool {
        self.same_content(other)
    }
}

impl Eq for Board {

}

impl Board {
    /// The contents of the squares, row by row.
    pub closed spec fn content(&self) -> Seq<u8> {
        self.squares@.map_values(|s: Square| s@)
    }

    /// Whether the boards have the same size and the same squares, place by
    /// place of their storage.
    pub closed spec fn same_content(&self, other: &Board) -> bool {
        &&& self.n_rows == other.n_rows
        &&& self.n_cols == other.n_cols
        &&& self.content() == other.content()
    }

    /// On well-formed boards the same content is the same squares.
    pub proof fn lemma_same_content(&self, other: &Board)
        requires
            self.wf(),
            other.wf(),
        ensures
            self.same_content(other) == self.same_squares(other),
    {
        if self.same_content(other) {
            assert forall|row: int, col: int| self.holds(row, col) implies #[trigger] self.at(
                row,
                col,
            ) == other.at(row, col) by {
                lemma_index_in_grid(self.n_rows as int, self.n_cols as int, row, col);
                let k = self.n_cols * row + col;
                assert(self.content()[k] == other.content()[k]);
            }
        }
        if self.same_squares(other) {
            assert(self.squares@.len() == other.squares@.len());
            assert forall|k: int| 0 <= k < self.squares@.len() implies self.content()[k]
                == other.content()[k] by {
                if self.n_cols > 0 {
                    lemma_place_of_index(self.n_cols as int, k);
                    let row = k / self.n_cols as int;
                    let col = k % self.n_cols as int;
                    assert(row < self.n_rows) by (nonlinear_arith)
                        requires
                            self.n_cols * row + col == k,
                            k < self.n_rows * self.n_cols,
                            0 <= col,
                            0 < self.n_cols,
                    ;
                    assert(self.holds(row, col));
                    assert(self.at(row, col) == other.at(row, col));
                } else {
                    assert(self.n_rows * self.n_cols == 0) by (nonlinear_arith)
                        requires
                            self.n_cols == 0,
                    ;
                }
            }
            assert(self.content() =~= other.content());
        }
    }

    /// The number of rows.
    pub closed spec fn rows_spec(&self) -> nat {
        self.n_rows as nat
    }

    /// The number of columns.
    pub closed spec fn cols_spec(&self) -> nat {
        self.n_cols as nat
    }

    /// The content of the square at a place of the grid.
    pub closed spec fn at(&self, row: int, col: int) -> u8 {
        self.squares@[self.n_cols * row + col]@
    }

    /// The invariant of the board: it holds one valid square for every place.
    pub closed spec fn wf(&self) -> bool {
        &&& self.squares@.len() == self.n_rows * self.n_cols
        &&& forall|i: int| 0 <= i < self.squares@.len() ==> (#[trigger] self.squares@[i]).wf()
    }

    /// Whether a place lies on the board.
    pub open spec fn holds(&self, row: int, col: int) -> bool {
        0 <= row < self.rows_spec() && 0 <= col < self.cols_spec()
    }

    /// Whether the square at a place is blocked; places off the board are
    /// not.
    pub open spec fn blocked(&self, row: int, col: int) -> bool {
        self.holds(row, col) && self.at(row, col) == 1
    }

    /// Whether every square of the clue lies on the board.
    pub open spec fn covers(&self, clue: &Clue) -> bool {
        forall|i: int|
            0 <= i < clue.length ==> self.holds(#[trigger] clue.cell(i).0, clue.cell(i).1)
    }

    /// Every square of a well-formed board is a valid square.
    pub proof fn lemma_squares_valid(&self, row: int, col: int)
        requires
            self.wf(),
            self.holds(row, col),
        ensures
            is_square_byte(self.at(row, col)),
    {
        lemma_index_in_grid(self.n_rows as int, self.n_cols as int, row, col);
    }

    /// The number of rows.
    pub fn n_rows(&self) -> (n: usize)
        ensures
            n == self.rows_spec(),
    {
        self.n_rows
    }

    /// The number of columns.
    pub fn n_cols(&self) -> (n: usize)
        ensures
            n == self.cols_spec(),
    {
        self.n_cols
    }

    /// The square at `index`.
    pub fn square_at(&self, index: Position) -> (square: &Square)
        requires
            self.wf(),
            self.holds(index.row as int, index.col as int),
        ensures
            square@ == self.at(index.row as int, index.col as int),
            square.wf(),
    {
        proof {
            lemma_index_in_grid(
                self.n_rows as int,
                self.n_cols as int,
                index.row as int,
                index.col as int,
            );
        }
        assert(self.squares@.len() == self.squares.len());
        assert(self.n_cols * index.row <= self.n_rows * self.n_cols);
        let i = self.n_cols * index.row + index.col;
        &self.squares[i]
    }

    /// Puts `square` at `index`.
    pub fn set_square(&mut self, index: Position, square: Square)
        requires
            old(self).wf(),
            old(self).holds(index.row as int, index.col as int),
            square.wf(),
        ensures
            final(self).wf(),
            final(self).rows_spec() == old(self).rows_spec(),
            final(self).cols_spec() == old(self).cols_spec(),
            forall|row: int, col: int|
                old(self).holds(row, col) ==> #[trigger] final(self).at(row, col) == (if row
                    == index.row && col == index.col {
                    square@
                } else {
                    old(self).at(row, col)
                }),
    {
        proof {
            lemma_index_in_grid(
                self.n_rows as int,
                self.n_cols as int,
                index.row as int,
                index.col as int,
            );
        }
        assert(self.squares@.len() == self.squares.len());
        assert(self.n_cols * index.row <= self.n_rows * self.n_cols);
        let i = self.n_cols * index.row + index.col;
        self.squares[i] = square;
        proof {
            assert forall|row: int, col: int| old(self).holds(row, col) implies #[trigger] self.at(
                row,
                col,
            ) == (if row == index.row && col == index.col {
                square@
            } else {
                old(self).at(row, col)
            }) by {
                lemma_index_in_grid(self.n_rows as int, self.n_cols as int, row, col);
                if self.n_cols * row + col == i {
                    lemma_same_place(self.n_cols as int, row, col, index.row as int, index.col as int);
                }
            }
        }
    }

    /// Whether no square is empty.
    pub fn is_filled(&self) -> (filled: bool)
        requires
            self.wf(),
        ensures
            filled == forall|row: int, col: int|
                self.holds(row, col) ==> #[trigger] self.at(row, col) != 0,
    {
        let mut i: usize = 0;
        while i < self.squares.len()
            invariant
                self.wf(),
                i <= self.squares@.len(),
                forall|k: int| 0 <= k < i ==> (#[trigger] self.squares@[k])@ != 0,
            decreases self.squares@.len() - i,
        {
            if self.squares[i].is_empty() {
                proof {
                    if self.n_cols > 0 {
                        lemma_place_of_index(self.n_cols as int, i as int);
                        let row = i as int / self.n_cols as int;
                        let col = i as int % self.n_cols as int;
                        assert(row < self.n_rows) by (nonlinear_arith)
                            requires
                                self.n_cols * row + col == i,
                                i < self.n_rows * self.n_cols,
                                0 <= col,
                                0 < self.n_cols,
                        ;
                        assert(self.holds(row, col));
                        assert(self.at(row, col) == 0);
                    } else {
                        assert(self.n_rows * self.n_cols == 0) by (nonlinear_arith)
                            requires
                                self.n_cols == 0,
                        ;
                    }
                }
                return false;
            }
            i += 1;
        }
        proof {
            assert forall|row: int, col: int| self.holds(row, col) implies #[trigger] self.at(
                row,
                col,
            ) != 0 by {
                lemma_index_in_grid(self.n_rows as int, self.n_cols as int, row, col);
            }
        }
        true
    }

    /// The places of the board, row by row.
    pub fn positions(&self) -> (places: Vec<Position>)
        requires
            self.wf(),
        ensures
            places.len() == self.rows_spec() * self.cols_spec(),
            forall|row: int, col: int|
                self.holds(row, col) ==> (#[trigger] places[self.cols_spec() * row + col]) == (
                Position { row: row as usize, col: col as usize }),
    {
        let mut places: Vec<Position> = Vec::new();
        let mut row: usize = 0;
        while row < self.n_rows
            invariant
                self.wf(),
                row <= self.n_rows,
                places.len() == self.n_cols * row,
                forall|r: int, c: int|
                    0 <= r < row && 0 <= c < self.n_cols ==> (#[trigger] places[self.n_cols * r + c])
                        == (Position { row: r as usize, col: c as usize }),
            decreases self.n_rows - row,
        {
            let mut col: usize = 0;
            while col < self.n_cols
                invariant
                    self.wf(),
                    row < self.n_rows,
                    col <= self.n_cols,
                    places.len() == self.n_cols * row + col,
                    forall|r: int, c: int|
                        0 <= r < row && 0 <= c < self.n_cols ==> (#[trigger] places[self.n_cols * r
                            + c]) == (Position { row: r as usize, col: c as usize }),
                    forall|c: int|
                        0 <= c < col ==> (#[trigger] places[self.n_cols * row + c]) == (Position {
                            row: row,
                            col: c as usize,
                        }),
                decreases self.n_cols - col,
            {
                let ghost before = places@;
                places.push(Position { row, col });
                proof {
                    assert forall|r: int, c: int| 0 <= r < row && 0 <= c < self.n_cols implies (
                    #[trigger] places[self.n_cols * r + c]) == (Position {
                        row: r as usize,
                        col: c as usize,
                    }) by {
                        lemma_index_in_grid(row as int, self.n_cols as int, r, c);
                        assert(places[self.n_cols * r + c] == before[self.n_cols * r + c]);
                    }
                    assert forall|c: int| 0 <= c < col + 1 implies (#[trigger] places[self.n_cols
                        * row + c]) == (Position { row: row, col: c as usize }) by {
                        if c < col {
                            assert(places[self.n_cols * row + c] == before[self.n_cols * row + c]);
                        }
                    }
                }
                col += 1;
            }
            proof {
                assert(self.n_cols * row + self.n_cols == self.n_cols * (row + 1)) by (nonlinear_arith);
                assert forall|r: int, c: int| 0 <= r < row + 1 && 0 <= c < self.n_cols implies (
                #[trigger] places[self.n_cols * r + c]) == (Position {
                    row: r as usize,
                    col: c as usize,
                }) by {}
            }
            row += 1;
        }
        assert(self.n_cols * self.n_rows == self.n_rows * self.n_cols) by (nonlinear_arith);
        places
    }

    /// The squares of the board, one list per row.
    pub fn rows(&self) -> (rows: Vec<Vec<Square>>)
        requires
            self.wf(),
        ensures
            rows.len() == self.rows_spec(),
            forall|row: int|
                0 <= row < self.rows_spec() ==> (#[trigger] rows[row]).len() == self.cols_spec(),
            forall|row: int, col: int|
                self.holds(row, col) ==> (#[trigger] rows[row][col])@ == self.at(row, col),
    {
        let mut rows: Vec<Vec<Square>> = Vec::new();
        let mut row: usize = 0;
        while row < self.n_rows
            invariant
                self.wf(),
                row <= self.n_rows,
                rows.len() == row,
                forall|r: int| 0 <= r < row ==> (#[trigger] rows[r]).len() == self.n_cols,
                forall|r: int, c: int|
                    0 <= r < row && 0 <= c < self.n_cols ==> (#[trigger] rows[r][c])@ == self.at(r, c),
            decreases self.n_rows - row,
        {
            let mut line: Vec<Square> = Vec::new();
            let mut col: usize = 0;
            while col < self.n_cols
                invariant
                    self.wf(),
                    row < self.n_rows,
                    col <= self.n_cols,
                    line.len() == col,
                    forall|c: int| 0 <= c < col ==> (#[trigger] line[c])@ == self.at(row as int, c),
                decreases self.n_cols - col,
            {
                line.push(*self.square_at(Position { row, col }));
                col += 1;
            }
            rows.push(line);
            row += 1;
        }
        rows
    }

    /// The squares of the board, one list per column.
    pub fn cols(&self) -> (cols: Vec<Vec<Square>>)
        requires
            self.wf(),
        ensures
            cols.len() == self.cols_spec(),
            forall|col: int|
                0 <= col < self.cols_spec() ==> (#[trigger] cols[col]).len() == self.rows_spec(),
            forall|row: int, col: int|
                self.holds(row, col) ==> (#[trigger] cols[col][row])@ == self.at(row, col),
    {
        let mut cols: Vec<Vec<Square>> = Vec::new();
        let mut col: usize = 0;
        while col < self.n_cols
            invariant
                self.wf(),
                col <= self.n_cols,
                cols.len() == col,
                forall|c: int| 0 <= c < col ==> (#[trigger] cols[c]).len() == self.n_rows,
                forall|r: int, c: int|
                    0 <= r < self.n_rows && 0 <= c < col ==> (#[trigger] cols[c][r])@ == self.at(r, c),
            decreases self.n_cols - col,
        {
            let mut line: Vec<Square> = Vec::new();
            let mut row: usize = 0;
            while row < self.n_rows
                invariant
                    self.wf(),
                    col < self.n_cols,
                    row <= self.n_rows,
                    line.len() == row,
                    forall|r: int| 0 <= r < row ==> (#[trigger] line[r])@ == self.at(r, col as int),
                decreases self.n_rows - row,
            {
                line.push(*self.square_at(Position { row, col }));
                row += 1;
            }
            cols.push(line);
            col += 1;
        }
        cols
    }

    /// The squares that a clue covers, from its start on.
    pub fn clue_squares(&self, clue: &Clue) -> (squares: Vec<Square>)
        requires
            self.wf(),
            self.covers(clue),
        ensures
            squares.len() == clue.length,
            forall|i: int|
                0 <= i < clue.length ==> (#[trigger] squares[i])@ == self.at(
                    clue.cell(i).0,
                    clue.cell(i).1,
                ),
    {
        let mut squares: Vec<Square> = Vec::new();
        let mut i: usize = 0;
        while i < clue.length
            invariant
                self.wf(),
                self.covers(clue),
                i <= clue.length,
                squares.len() == i,
                forall|j: int|
                    0 <= j < i ==> (#[trigger] squares[j])@ == self.at(clue.cell(j).0, clue.cell(j).1),
            decreases clue.length - i,
        {
            assert(self.holds(clue.cell(i as int).0, clue.cell(i as int).1));
            let place = match clue.direction {
                Direction::Across => Position { row: clue.start.row, col: clue.start.col + i },
                Direction::Down => Position { row: clue.start.row + i, col: clue.start.col },
            };
            squares.push(*self.square_at(place));
            i += 1;
        }
        squares
    }

    /// A copy of the board with the letters of `word` written along `clue`,
    /// as far as both reach.
    pub fn insert(&self, word: &Word, clue: &Clue) -> (board: Self)
        requires
            self.wf(),
            self.covers(clue),
            forall|i: int| 0 <= i < word@.len() ==> is_square_byte(#[trigger] word@[i]),
        ensures
            board.wf(),
            board.rows_spec() == self.rows_spec(),
            board.cols_spec() == self.cols_spec(),
            forall|row: int, col: int|
                self.holds(row, col) ==> #[trigger] board.at(row, col) == self.written(
                    word@,
                    clue,
                    row,
                    col,
                ),
    {
        let mut board = self.copy();
        let bytes = word.bytes();
        let mut i: usize = 0;
        while i < clue.length && i < bytes.len()
            invariant
                self.wf(),
                board.wf(),
                self.covers(clue),
                bytes@ == word@,
                forall|k: int| 0 <= k < word@.len() ==> is_square_byte(#[trigger] word@[k]),
                board.rows_spec() == self.rows_spec(),
                board.cols_spec() == self.cols_spec(),
                i <= clue.length,
                i <= bytes.len(),
                forall|row: int, col: int|
                    self.holds(row, col) ==> #[trigger] board.at(row, col) == self.written(
                        word@.take(i as int),
                        clue,
                        row,
                        col,
                    ),
            decreases clue.length - i,
        {
            assert(self.holds(clue.cell(i as int).0, clue.cell(i as int).1));
            let place = match clue.direction {
                Direction::Across => Position { row: clue.start.row, col: clue.start.col + i },
                Direction::Down => Position { row: clue.start.row + i, col: clue.start.col },
            };
            let ghost earlier = board;
            match Square::try_from(bytes[i]) {
                Ok(square) => {
                    board.set_square(place, square);
                },
                Err(_) => {
                    assert(false);
                },
            }
            proof {
                let shorter = word@.take(i as int);
                let longer = word@.take(i + 1);
                assert forall|row: int, col: int| self.holds(row, col) implies #[trigger] board.at(
                    row,
                    col,
                ) == self.written(longer, clue, row, col) by {
                    assert(earlier.at(row, col) == self.written(shorter, clue, row, col));
                    if clue.cell(i as int) == (row, col) {
                        assert(longer[i as int] == word@[i as int]);
                        assert(clue.index_of(row, col) == i);
                    } else {
                        let at = clue.index_of(row, col);
                        if 0 <= at < longer.len() && at < clue.length {
                            assert(at < i);
                            assert(longer[at] == shorter[at]);
                        }
                    }
                }
            }
            i += 1;
        }
        proof {
            assert forall|row: int, col: int| self.holds(row, col) implies #[trigger] board.at(
                row,
                col,
            ) == self.written(word@, clue, row, col) by {
                assert(board.at(row, col) == self.written(word@.take(i as int), clue, row, col));
                let at = clue.index_of(row, col);
                if 0 <= at < word@.len() && at < clue.length {
                    assert(at < i);
                    assert(word@.take(i as int)[at] == word@[at]);
                }
            }
        }
        board
    }

    /// The content of a square after `letters` were written along `clue`.
    pub open spec fn written(&self, letters: Seq<u8>, clue: &Clue, row: int, col: int) -> u8 {
        let at = clue.index_of(row, col);
        if 0 <= at < letters.len() && at < clue.length {
            letters[at]
        } else {
            self.at(row, col)
        }
    }

    /// A board with the same squares.
    pub fn copy(&self) -> (board: Self)
        requires
            self.wf(),
        ensures
            board.wf(),
            board.rows_spec() == self.rows_spec(),
            board.cols_spec() == self.cols_spec(),
            forall|row: int, col: int| #[trigger] board.at(row, col) == self.at(row, col),
    {
        let mut squares: Vec<Square> = Vec::new();
        let mut i: usize = 0;
        while i < self.squares.len()
            invariant
                i <= self.squares@.len(),
                squares@ == self.squares@.take(i as int),
            decreases self.squares@.len() - i,
        {
            squares.push(self.squares[i]);
            proof {
                assert(self.squares@.take(i + 1) =~= self.squares@.take(i as int).push(
                    self.squares@[i as int],
                ));
            }
            i += 1;
        }
        assert(self.squares@.take(self.squares@.len() as int) =~= self.squares@);
        Board { squares, n_rows: self.n_rows, n_cols: self.n_cols }
    }
}

/// The lines of a text: the runs of bytes between its newlines, the line in
/// progress being `current`.
pub open spec fn split_from(bytes: Seq<u8>, i: int, current: Seq<u8>) -> Seq<Seq<u8>>
    decreases bytes.len() - i,
{
    if i < 0 || i >= bytes.len() {
        seq![current]
    } else if bytes[i] == 10 {
        seq![current] + split_from(bytes, i + 1, Seq::empty())
    } else {
        split_from(bytes, i + 1, current.push(bytes[i]))
    }
}

/// The lines of a text. A text without a newline is one line.
pub open spec fn lines_of(bytes: Seq<u8>) -> Seq<Seq<u8>> {
    split_from(bytes, 0, Seq::empty())
}

/// Whether all lines are as long as the first.
pub open spec fn same_lengths(lines: Seq<Seq<u8>>) -> bool {
    forall|i: int| 0 <= i < lines.len() ==> (#[trigger] lines[i]).len() == lines[0].len()
}

/// The square that a byte of a text stands for, if any.
pub open spec fn square_of_byte(byte: u8) -> Option<u8> {
    if byte < 128 {
        square_byte_of(byte as char)
    } else {
        None
    }
}

/// Whether every byte of the lines stands for a square.
pub open spec fn all_squares(lines: Seq<Seq<u8>>) -> bool {
    forall|r: int, c: int|
        0 <= r < lines.len() && 0 <= c < lines[r].len() ==> square_of_byte(
            #[trigger] lines[r][c],
        ) is Some
}

/// The message for a text whose lines differ in length.
pub open spec fn ragged() -> &'static str {
    "Rows have different lengths."
}

/// The lists as plain sequences.
pub open spec fn views(lines: Seq<Vec<u8>>) -> Seq<Seq<u8>> {
    lines.map_values(|line: Vec<u8>| line@)
}

/// The lines of a text.
pub fn split_lines(bytes: &[u8]) -> (lines: Vec<Vec<u8>>)
    ensures
        views(lines@) == lines_of(bytes@),
        lines.len() >= 1,
{
    let mut lines: Vec<Vec<u8>> = Vec::new();
    let mut current: Vec<u8> = Vec::new();
    let mut i: usize = 0;
    while i < bytes.len()
        invariant
            i <= bytes.len(),
            lines_of(bytes@) == views(lines@) + split_from(bytes@, i as int, current@),
        decreases bytes.len() - i,
    {
        let ghost done = views(lines@);
        if bytes[i] == 10 {
            let ghost line = current@;
            lines.push(current);
            current = Vec::new();
            proof {
                assert(views(lines@) =~= done + seq![line]);
                assert(done + (seq![line] + split_from(bytes@, i + 1, Seq::empty())) =~= (done
                    + seq![line]) + split_from(bytes@, i + 1, Seq::empty()));
            }
        } else {
            current.push(bytes[i]);
        }
        i += 1;
    }
    let ghost done = views(lines@);
    let ghost line = current@;
    lines.push(current);
    proof {
        assert(views(lines@) =~= done + seq![line]);
    }
    lines
}

impl Board {
    /// The board that a text describes, or the reason why it describes none.
    pub closed spec fn parsed(bytes: Seq<u8>) -> Result<Board, &'static str> {
        let lines = lines_of(bytes);
        if !same_lengths(lines) {
            Err(ragged())
        } else if !all_squares(lines) {
            Err(not_a_letter())
        } else {
            Ok(choose|board: Board| board.shows(lines))
        }
    }

    /// Whether the board has one row per line and one square per byte.
    pub open spec fn shows(&self, lines: Seq<Seq<u8>>) -> bool {
        &&& self.wf()
        &&& self.rows_spec() == lines.len()
        &&& self.cols_spec() == lines[0].len()
        &&& forall|r: int, c: int|
            self.holds(r, c) ==> Some(#[trigger] self.at(r, c)) == square_of_byte(lines[r][c])
    }

    /// Whether the square at a place is blocked.
    fn is_blocked_at(&self, row: usize, col: usize) -> (b: bool)
        requires
            self.wf(),
            self.holds(row as int, col as int),
        ensures
            b == self.blocked(row as int, col as int),
    {
        self.square_at(Position { row, col }).is_blocked()
    }

    /// The number of squares from a place rightwards up to the next blocked
    /// square or the edge.
    pub open spec fn run_across(&self, row: int, col: int) -> nat
        decreases self.cols_spec() - col,
    {
        if self.holds(row, col) && !self.blocked(row, col) {
            1 + self.run_across(row, col + 1)
        } else {
            0
        }
    }

    /// The number of squares from a place downwards up to the next blocked
    /// square or the edge.
    pub open spec fn run_down(&self, row: int, col: int) -> nat
        decreases self.rows_spec() - row,
    {
        if self.holds(row, col) && !self.blocked(row, col) {
            1 + self.run_down(row + 1, col)
        } else {
            0
        }
    }

    /// The clues that start at a place: an across clue where the square to
    /// the left is blocked or missing, then a down clue where the square
    /// above is. A blocked square starts none.
    pub open spec fn clues_at(&self, row: int, col: int) -> Seq<Clue> {
        let start = Position { row: row as usize, col: col as usize };
        if self.blocked(row, col) {
            Seq::empty()
        } else {
            (if col == 0 || self.blocked(row, col - 1) {
                seq![
                    Clue {
                        direction: Direction::Across,
                        start,
                        length: self.run_across(row, col) as usize,
                    },
                ]
            } else {
                Seq::empty()
            }) + (if row == 0 || self.blocked(row - 1, col) {
                seq![
                    Clue {
                        direction: Direction::Down,
                        start,
                        length: self.run_down(row, col) as usize,
                    },
                ]
            } else {
                Seq::empty()
            })
        }
    }

    /// The clues that start at the first `k` places of the board, row by
    /// row.
    pub open spec fn clues_before(&self, k: nat) -> Seq<Clue>
        decreases k,
    {
        if k == 0 || self.cols_spec() == 0 {
            Seq::empty()
        } else {
            self.clues_before((k - 1) as nat) + self.clues_at(
                (k - 1) / self.cols_spec() as int,
                (k - 1) % self.cols_spec() as int,
            )
        }
    }

    /// A run across stays on the board.
    pub proof fn lemma_run_across(&self, row: int, col: int)
        requires
            self.holds(row, col),
        ensures
            self.run_across(row, col) <= self.cols_spec() - col,
            forall|c: int|
                col <= c < col + self.run_across(row, col) ==> #[trigger] self.holds(row, c),
        decreases self.cols_spec() - col,
    {
        if !self.blocked(row, col) {
            if col + 1 < self.cols_spec() {
                self.lemma_run_across(row, col + 1);
            } else {
                assert(self.run_across(row, col + 1) == 0);
            }
        }
    }

    /// A run down stays on the board.
    pub proof fn lemma_run_down(&self, row: int, col: int)
        requires
            self.holds(row, col),
        ensures
            self.run_down(row, col) <= self.rows_spec() - row,
            forall|r: int|
                row <= r < row + self.run_down(row, col) ==> #[trigger] self.holds(r, col),
        decreases self.rows_spec() - row,
    {
        if !self.blocked(row, col) {
            if row + 1 < self.rows_spec() {
                self.lemma_run_down(row + 1, col);
            } else {
                assert(self.run_down(row + 1, col) == 0);
            }
        }
    }

    /// Whether a clue lies on a board of this size and its places fit the
    /// machine's integers.
    pub open spec fn takes(&self, clue: &Clue) -> bool {
        self.covers(clue) && clue.representable()
    }

    /// Every clue of the board lies on the board.
    pub proof fn lemma_clues_on_board(&self, k: nat)
        requires
            self.wf(),
            k <= self.rows_spec() * self.cols_spec(),
        ensures
            forall|i: int|
                0 <= i < self.clues_before(k).len() ==> self.takes(#[trigger] &self.clues_before(k)[i]),
        decreases k,
    {
        if k > 0 && self.cols_spec() > 0 {
            self.lemma_clues_on_board((k - 1) as nat);
            let cols = self.cols_spec() as int;
            let row = (k - 1) / cols;
            let col = (k - 1) % cols;
            lemma_place_of_index(cols, k - 1);
            assert(row < self.rows_spec()) by (nonlinear_arith)
                requires
                    cols * row + col == k - 1,
                    k <= self.rows_spec() * cols,
                    0 <= col,
                    0 < cols,
            ;
            assert(self.holds(row, col));
            self.lemma_run_across(row, col);
            self.lemma_run_down(row, col);
            let here = self.clues_at(row, col);
            let earlier = self.clues_before((k - 1) as nat);
            assert forall|i: int| 0 <= i < here.len() implies self.takes(#[trigger] &here[i]) by {
                let clue = here[i];
                match clue.direction {
                    Direction::Across => {
                        assert(clue.length == self.run_across(row, col));
                        assert forall|j: int| 0 <= j < clue.length implies self.holds(
                            #[trigger] clue.cell(j).0,
                            clue.cell(j).1,
                        ) by {
                            assert(self.holds(row, col + j));
                        }
                    },
                    Direction::Down => {
                        assert(clue.length == self.run_down(row, col));
                        assert forall|j: int| 0 <= j < clue.length implies self.holds(
                            #[trigger] clue.cell(j).0,
                            clue.cell(j).1,
                        ) by {
                            assert(self.holds(row + j, col));
                        }
                    },
                }
            }
            assert forall|i: int| 0 <= i < self.clues_before(k).len() implies self.takes(
                #[trigger] &self.clues_before(k)[i],
            ) by {
                if i < earlier.len() {
                    assert(self.clues_before(k)[i] == earlier[i]);
                } else {
                    assert(self.clues_before(k)[i] == here[i - earlier.len()]);
                }
            }
        }
    }

    /// The wildcard pattern of the squares that a clue covers: a dot for an
    /// empty square, `#` for a blocked one, else the letter.
    pub open spec fn clue_pattern(&self, clue: &Clue) -> Seq<char> {
        Seq::new(
            clue.length as nat,
            |i: int| pattern_char(self.at(clue.cell(i).0, clue.cell(i).1)),
        )
    }

    /// Whether two boards have the same size and the same squares.
    pub open spec fn same_squares(&self, other: &Board) -> bool {
        &&& self.rows_spec() == other.rows_spec()
        &&& self.cols_spec() == other.cols_spec()
        &&& forall|row: int, col: int|
            self.holds(row, col) ==> #[trigger] self.at(row, col) == other.at(row, col)
    }

    /// The length of the run of open squares from a place rightwards.
    fn across_length(&self, row: usize, col: usize) -> (length: usize)
        requires
            self.wf(),
            self.holds(row as int, col as int),
        ensures
            length == self.run_across(row as int, col as int),
    {
        let mut current: usize = col;
        let mut length: usize = 0;
        while current < self.n_cols && !self.is_blocked_at(row, current)
            invariant
                self.wf(),
                row < self.n_rows,
                col <= current <= self.n_cols,
                length == current - col,
                self.run_across(row as int, col as int) == length + self.run_across(
                    row as int,
                    current as int,
                ),
            decreases self.n_cols - current,
        {
            current += 1;
            length += 1;
        }
        length
    }

    /// The length of the run of open squares from a place downwards.
    fn down_length(&self, row: usize, col: usize) -> (length: usize)
        requires
            self.wf(),
            self.holds(row as int, col as int),
        ensures
            length == self.run_down(row as int, col as int),
    {
        let mut current: usize = row;
        let mut length: usize = 0;
        while current < self.n_rows && !self.is_blocked_at(current, col)
            invariant
                self.wf(),
                col < self.n_cols,
                row <= current <= self.n_rows,
                length == current - row,
                self.run_down(row as int, col as int) == length + self.run_down(
                    current as int,
                    col as int,
                ),
            decreases self.n_rows - current,
        {
            current += 1;
            length += 1;
        }
        length
    }

    /// The clues of the board: for every open square, row by row, the
    /// across clue and the down clue that start there.
    pub fn clues(&self) -> (clues: Vec<Clue>)
        requires
            self.wf(),
        ensures
            clues@ == self.clues_before(self.rows_spec() * self.cols_spec()),
    {
        let mut clues: Vec<Clue> = Vec::new();
        let mut row: usize = 0;
        while row < self.n_rows
            invariant
                self.wf(),
                row <= self.n_rows,
                clues@ == self.clues_before((self.n_cols * row) as nat),
            decreases self.n_rows - row,
        {
            let mut col: usize = 0;
            proof {
                lemma_index_in_grid(self.n_rows as int, self.n_cols as int + 1, row as int, 0);
                assert(0 <= self.n_cols * row) by (nonlinear_arith)
                    requires
                        0 <= row,
                        0 <= self.n_cols,
                ;
            }
            while col < self.n_cols
                invariant
                    self.wf(),
                    row < self.n_rows,
                    col <= self.n_cols,
                    0 <= self.n_cols * row,
                    clues@ == self.clues_before((self.n_cols * row + col) as nat),
                decreases self.n_cols - col,
            {
                let pos = Position { row, col };
                let ghost before = clues@;
                proof {
                    let k = self.n_cols * row + col;
                    lemma_place_of_index(self.n_cols as int, k);
                    lemma_same_place(
                        self.n_cols as int,
                        k / self.n_cols as int,
                        k % self.n_cols as int,
                        row as int,
                        col as int,
                    );
                    assert(self.clues_before((k + 1) as nat) == self.clues_before(k as nat)
                        + self.clues_at(row as int, col as int));
                }
                if self.is_blocked_at(row, col) {
                    // blocked, can't be clue here
                    proof {
                        assert(before + Seq::<Clue>::empty() =~= before);
                    }
                } else {
                    let mut starts_across = col == 0;
                    if !starts_across {
                        starts_across = self.is_blocked_at(row, col - 1);
                    }
                    // check for across clue
                    if starts_across {
                        let length = self.across_length(row, col);
                        clues.push(Clue { direction: Direction::Across, start: pos, length });
                    }
                    let mut starts_down = row == 0;
                    if !starts_down {
                        starts_down = self.is_blocked_at(row - 1, col);
                    }
                    // check for down clue
                    if starts_down {
                        let length = self.down_length(row, col);
                        clues.push(Clue { direction: Direction::Down, start: pos, length });
                    }
                    proof {
                        assert(clues@ =~= before + self.clues_at(row as int, col as int));
                    }
                }
                col += 1;
            }
            proof {
                assert(self.n_cols * row + self.n_cols == self.n_cols * (row + 1)) by (nonlinear_arith);
            }
            row += 1;
        }
        proof {
            assert(self.n_cols * self.n_rows == self.n_rows * self.n_cols) by (nonlinear_arith);
            if self.n_cols == 0 {
                assert(self.n_rows * self.n_cols == 0) by (nonlinear_arith)
                    requires
                        self.n_cols == 0,
                ;
            }
        }
        clues
    }

    /// The board as text: one line per row, each ended by a newline, with a
    /// space for an empty square, `#` for a blocked one and the upper-case
    /// letter of any other.
    pub fn render(&self) -> (text: String)
        requires
            self.wf(),
        ensures
            text@.len() == self.rows_spec() * (self.cols_spec() + 1),
            forall|r: int, c: int|
                self.holds(r, c) ==> #[trigger] text@[(self.cols_spec() + 1) * r + c] == shown(
                    self.at(r, c),
                ),
            forall|r: int|
                0 <= r < self.rows_spec() ==> #[trigger] text@[(self.cols_spec() + 1) * r
                    + self.cols_spec()] == '\n',
    {
        let mut chars: Vec<char> = Vec::new();
        let mut row: usize = 0;
        let ghost width = self.n_cols + 1;
        while row < self.n_rows
            invariant
                self.wf(),
                width == self.n_cols + 1,
                row <= self.n_rows,
                chars.len() == width * row,
                forall|r: int, c: int|
                    0 <= r < row && 0 <= c < self.n_cols ==> #[trigger] chars@[width * r + c]
                        == shown(self.at(r, c)),
                forall|r: int| 0 <= r < row ==> #[trigger] chars@[width * r + self.n_cols] == '\n',
            decreases self.n_rows - row,
        {
            let mut col: usize = 0;
            while col < self.n_cols
                invariant
                    self.wf(),
                    width == self.n_cols + 1,
                    row < self.n_rows,
                    col <= self.n_cols,
                    chars.len() == width * row + col,
                    forall|r: int, c: int|
                        0 <= r < row && 0 <= c < self.n_cols ==> #[trigger] chars@[width * r + c]
                            == shown(self.at(r, c)),
                    forall|r: int|
                        0 <= r < row ==> #[trigger] chars@[width * r + self.n_cols] == '\n',
                    forall|c: int|
                        0 <= c < col ==> #[trigger] chars@[width * row + c] == shown(
                            self.at(row as int, c),
                        ),
                decreases self.n_cols - col,
            {
                let ghost before = chars@;
                chars.push(self.square_at(Position { row, col }).to_char());
                proof {
                    assert forall|r: int, c: int| 0 <= r < row && 0 <= c < self.n_cols implies (
                    #[trigger] chars@[width * r + c]) == before[width * r + c] by {
                        lemma_index_in_grid(row as int, width, r, c);
                    }
                    assert forall|r: int| 0 <= r < row implies (#[trigger] chars@[width * r
                        + self.n_cols]) == before[width * r + self.n_cols] by {
                        lemma_index_in_grid(row as int, width, r, self.n_cols as int);
                    }
                    assert forall|c: int| 0 <= c < col implies (#[trigger] chars@[width * row + c])
                        == before[width * row + c] by {}
                }
                col += 1;
            }
            let ghost before = chars@;
            chars.push('\n');
            proof {
                assert forall|r: int, c: int| 0 <= r < row && 0 <= c < self.n_cols implies (
                #[trigger] chars@[width * r + c]) == before[width * r + c] by {
                    lemma_index_in_grid(row as int, width, r, c);
                }
                assert forall|r: int| 0 <= r < row implies (#[trigger] chars@[width * r
                    + self.n_cols]) == before[width * r + self.n_cols] by {
                    lemma_index_in_grid(row as int, width, r, self.n_cols as int);
                }
                assert forall|c: int| 0 <= c < self.n_cols implies (#[trigger] chars@[width * row
                    + c]) == before[width * row + c] by {}
                assert(width * row + width == width * (row + 1)) by (nonlinear_arith);
            }
            row += 1;
        }
        proof {
            assert(width * self.n_rows == self.n_rows * (self.n_cols + 1)) by (nonlinear_arith)
                requires
                    width == self.n_cols + 1,
            ;
        }
        string_of(&chars)
    }
}

// The conversion pins the board it returns by its rows, columns and squares;
// it does not promise which of the boards with those squares it is.
impl vstd::std_specs::convert::TryFromSpecImpl<&str> for Board {
    open spec fn obeys_try_from_spec() -> bool {
        false
    }

    open spec fn try_from_spec(value: &str) -> Result<Self, Self::Error> {
        Board::parsed(value.spec_bytes())
    }
}

impl TryFrom<&str> for Board {
    type Error = &'static str;

    /// Reads a board from text: one line per row, a space for an empty
    /// square, `#` for a blocked one, and a letter of either case for that
    /// letter.
    fn try_from(value: &str) -> (r: Result<Self, Self::Error>)
        ensures
            !same_lengths(lines_of(value.spec_bytes())) ==> r == Err::<Self, &'static str>(ragged()),
            same_lengths(lines_of(value.spec_bytes())) && !all_squares(
                lines_of(value.spec_bytes()),
            ) ==> r == Err::<Self, &'static str>(not_a_letter()),
            same_lengths(lines_of(value.spec_bytes())) && all_squares(lines_of(value.spec_bytes()))
                ==> r is Ok && r->Ok_0.shows(lines_of(value.spec_bytes())),
    {
        let lines = split_lines(value.as_bytes());
        let ghost text = lines_of(value.spec_bytes());
        assert(text == views(lines@));
        let rows = lines.len();
        let cols = lines[0].len();
        assert(text[0] == lines@[0]@);
        let mut i: usize = 0;
        while i < lines.len()
            invariant
                i <= lines.len(),
                text == views(lines@),
                text == lines_of(value.spec_bytes()),
                cols == text[0].len(),
                forall|k: int| 0 <= k < i ==> (#[trigger] text[k]).len() == cols,
            decreases lines.len() - i,
        {
            assert(text[i as int] == lines@[i as int]@);
            if lines[i].len() != cols {
                return Err("Rows have different lengths.");
            }
            i += 1;
        }
        let mut squares: Vec<Square> = Vec::new();
        let mut row: usize = 0;
        while row < rows
            invariant
                rows == lines.len(),
                text == views(lines@),
                text == lines_of(value.spec_bytes()),
                cols == text[0].len(),
                same_lengths(text),
                row <= rows,
                squares.len() == cols * row,
                forall|k: int| 0 <= k < squares.len() ==> (#[trigger] squares@[k]).wf(),
                forall|r: int, c: int|
                    0 <= r < row && 0 <= c < cols ==> Some((#[trigger] squares@[cols * r + c])@)
                        == square_of_byte(text[r][c]),
            decreases rows - row,
        {
            let line = &lines[row];
            assert(text[row as int] == line@);
            let mut col: usize = 0;
            while col < cols
                invariant
                    text == views(lines@),
                    text == lines_of(value.spec_bytes()),
                    same_lengths(text),
                    row < lines.len(),
                    line@ == text[row as int],
                    line.len() == cols,
                    col <= cols,
                    squares.len() == cols * row + col,
                    forall|k: int| 0 <= k < squares.len() ==> (#[trigger] squares@[k]).wf(),
                    forall|r: int, c: int|
                        0 <= r < row && 0 <= c < cols ==> Some((#[trigger] squares@[cols * r + c])@)
                            == square_of_byte(text[r][c]),
                    forall|c: int|
                        0 <= c < col ==> Some((#[trigger] squares@[cols * row + c])@)
                            == square_of_byte(text[row as int][c]),
                decreases cols - col,
            {
                let byte = line[col];
                if byte >= 128 {
                    assert(square_of_byte(text[row as int][col as int]) is None);
                    return Err("Not a valid uppercase ASCII char.");
                }
                let ghost before = squares@;
                match Square::try_from(byte as char) {
                    Ok(square) => {
                        squares.push(square);
                    },
                    Err(e) => {
                        assert(square_of_byte(text[row as int][col as int]) is None);
                        return Err(e);
                    },
                }
                proof {
                    assert forall|r: int, c: int| 0 <= r < row && 0 <= c < cols implies (
                    #[trigger] squares@[cols * r + c]) == before[cols * r + c] by {
                        lemma_index_in_grid(row as int, cols as int, r, c);
                    }
                    assert forall|c: int| 0 <= c < col implies (#[trigger] squares@[cols * row + c])
                        == before[cols * row + c] by {}
                }
                col += 1;
            }
            proof {
                assert(cols * row + cols == cols * (row + 1)) by (nonlinear_arith);
            }
            row += 1;
        }
        proof {
            assert(cols * rows == rows * cols) by (nonlinear_arith);
            assert forall|r: int, c: int| 0 <= r < text.len() && 0 <= c < text[r].len() implies square_of_byte(
                #[trigger] text[r][c],
            ) is Some by {
                assert(Some(squares@[cols * r + c]@) == square_of_byte(text[r][c]));
            }
        }
        Ok(Board { squares, n_rows: rows, n_cols: cols })
    }
}

impl Clue {
    /// Which square of the clue a place is: the distance from the start
    /// along the clue's direction, or `-1` for a place off the clue's line.
    pub open spec fn index_of(&self, row: int, col: int) -> int {
        match self.direction {
            Direction::Across => if row == self.start.row {
                col - self.start.col
            } else {
                -1
            },
            Direction::Down => if col == self.start.col {
                row - self.start.row
            } else {
                -1
            },
        }
    }
}

/// Two places of a grid with the same row-major index are the same place.
pub proof fn lemma_same_place(cols: int, row: int, col: int, other_row: int, other_col: int)
    requires
        0 <= col < cols,
        0 <= other_col < cols,
        cols * row + col == cols * other_row + other_col,
    ensures
        row == other_row,
        col == other_col,
{
    assert(row == other_row) by (nonlinear_arith)
        requires
            0 <= col < cols,
            0 <= other_col < cols,
            cols * row + col == cols * other_row + other_col,
    ;
}

} // verus!
