//! The crossword model: squares, words, clues and the board they live on.

pub mod board;
pub mod clue;
pub mod puzzle;
pub mod square;
pub mod vocab;
pub mod word;

use vstd::prelude::*;

verus! {

/// A place on a crossword board.
#[derive(Clone, Copy, Debug, PartialEq, Eq, Hash)]
pub struct Position {
    pub row: usize,
    pub col: usize,
}

impl Position {
    /// The place one column to the right.
    pub fn right(&self) -> (next: Self)
        requires
            self.col < usize::MAX,
        ensures
            next.row == self.row,
            next.col == self.col + 1,
    {
        Position { row: self.row, col: self.col + 1 }
    }

    /// The place one column to the left.
    pub fn left(&self) -> (next: Self)
        requires
            self.col > 0,
        ensures
            next.row == self.row,
            next.col == self.col - 1,
    {
        Position { row: self.row, col: self.col - 1 }
    }

    /// The place one row up.
    pub fn up(&self) -> (next: Self)
        requires
            self.row > 0,
        ensures
            next.row == self.row - 1,
            next.col == self.col,
    {
        Position { row: self.row - 1, col: self.col }
    }

    /// The place one row down.
    pub fn down(&self) -> (next: Self)
        requires
            self.row < usize::MAX,
        ensures
            next.row == self.row + 1,
            next.col == self.col,
    {
        Position { row: self.row + 1, col: self.col }
    }
}

} // verus!
