//! The letter-chain game: twelve letters on the four sides of a box, to be
//! used up by a chain of words in which consecutive letters never share a
//! side.

pub mod game;
pub mod scrape;
pub mod solve;
pub mod word_list;

use crate::prefix_tree::PrefixTree;
use vstd::prelude::*;

verus! {

pub const N_PER_SIDE: usize = 3;

pub const N_SIDES: usize = 4;

/// The number of words a vocabulary takes from a word list.
pub const VOCAB_SIZE: usize = 50_000;

/// The length below which a word is left out of the vocabulary.
pub const WORD_LEN_THRESHOLD: usize = 3;

pub type Letter = char;

/// word -> cost
pub type Vocabulary = PrefixTree<Letter, usize>;

/// A place on the board: a side and an index on that side.
#[derive(Debug, PartialEq, Eq, Clone, Copy, Hash, Default)]
pub struct Position(pub usize, pub usize);

/// One value for every place on the board.
#[derive(Default, Eq, PartialEq, Hash, Clone, Debug)]
pub struct Board<T>(pub [[T; N_PER_SIDE]; N_SIDES]);

impl Position {
    /// Whether the position names a place on the board.
    pub open spec fn on_board(&self) -> bool {
        self.0 < N_SIDES && self.1 < N_PER_SIDE
    }

    /// The number of the place, counting side by side.
    pub open spec fn number(&self) -> int {
        self.0 * N_PER_SIDE + self.1
    }
}

impl<T> View for Board<T> {
    type V = Seq<Seq<T>>;

    open spec fn view(&self) -> Seq<Seq<T>> {
        Seq::new(N_SIDES as nat, |i: int| Seq::new(N_PER_SIDE as nat, |j: int| self.0[i][j]))
    }
}

impl<T> Board<T> {
    /// The value at a place.
    pub open spec fn at(&self, pos: Position) -> T {
        self.0[pos.0 as int][pos.1 as int]
    }

    /// The value at a place.
    pub fn get(&self, index: Position) -> (value: &T)
        requires
            index.on_board(),
        ensures
            *value == self.at(index),
    {
        &self.0[index.0][index.1]
    }

    /// Puts a value at a place.
    pub fn set(&mut self, index: Position, value: T)
        requires
            index.on_board(),
        ensures
            final(self).at(index) == value,
            forall|other: Position|
                other.on_board() && other != index ==> #[trigger] final(self).at(other) == old(
                    self,
                ).at(other),
    {
        self.0[index.0][index.1] = value;
    }
}

impl Board<bool> {
    /// The board with no place marked.
    pub fn blank() -> (board: Self)
        ensures
            forall|pos: Position| pos.on_board() ==> !#[trigger] board.at(pos),
    {
        Board(
            [
                [false, false, false],
                [false, false, false],
                [false, false, false],
                [false, false, false],
            ],
        )
    }

    /// The board that marks every place marked on either board.
    pub fn bitor(&self, rhs: &Self) -> (output: Self)
        ensures
            forall|pos: Position|
                pos.on_board() ==> #[trigger] output.at(pos) == (self.at(pos) || rhs.at(pos)),
    {
        let mut output = Self::blank();
        let mut i: usize = 0;
        while i < N_SIDES
            invariant
                i <= N_SIDES,
                forall|pos: Position|
                    pos.on_board() && pos.0 < i ==> #[trigger] output.at(pos) == (self.at(pos)
                        || rhs.at(pos)),
            decreases N_SIDES - i,
        {
            let mut j: usize = 0;
            while j < N_PER_SIDE
                invariant
                    i < N_SIDES,
                    j <= N_PER_SIDE,
                    forall|pos: Position|
                        pos.on_board() && (pos.0 < i || (pos.0 == i && pos.1 < j))
                            ==> #[trigger] output.at(pos) == (self.at(pos) || rhs.at(pos)),
                decreases N_PER_SIDE - j,
            {
                let both = self.0[i][j] || rhs.0[i][j];
                output.set(Position(i, j), both);
                j += 1;
            }
            i += 1;
        }
        output
    }

    /// Whether every place is marked.
    pub fn all_true(&self) -> (all: bool)
        ensures
            all == forall|pos: Position| pos.on_board() ==> #[trigger] self.at(pos),
    {
        let mut i: usize = 0;
        while i < N_SIDES
            invariant
                i <= N_SIDES,
                forall|pos: Position| pos.on_board() && pos.0 < i ==> #[trigger] self.at(pos),
            decreases N_SIDES - i,
        {
            let mut j: usize = 0;
            while j < N_PER_SIDE
                invariant
                    i < N_SIDES,
                    j <= N_PER_SIDE,
                    forall|pos: Position|
                        pos.on_board() && (pos.0 < i || (pos.0 == i && pos.1 < j))
                            ==> #[trigger] self.at(pos),
                decreases N_PER_SIDE - j,
            {
                if !self.0[i][j] {
                    assert(!self.at(Position(i, j)));
                    return false;
                }
                j += 1;
            }
            i += 1;
        }
        true
    }

    /// Whether no place is marked.
    pub fn all_false(&self) -> (none: bool)
        ensures
            none == forall|pos: Position| pos.on_board() ==> !#[trigger] self.at(pos),
    {
        let mut i: usize = 0;
        while i < N_SIDES
            invariant
                i <= N_SIDES,
                forall|pos: Position| pos.on_board() && pos.0 < i ==> !#[trigger] self.at(pos),
            decreases N_SIDES - i,
        {
            let mut j: usize = 0;
            while j < N_PER_SIDE
                invariant
                    i < N_SIDES,
                    j <= N_PER_SIDE,
                    forall|pos: Position|
                        pos.on_board() && (pos.0 < i || (pos.0 == i && pos.1 < j))
                            ==> !#[trigger] self.at(pos),
                decreases N_PER_SIDE - j,
            {
                if self.0[i][j] {
                    assert(self.at(Position(i, j)));
                    return false;
                }
                j += 1;
            }
            i += 1;
        }
        true
    }

    /// A board with the same marks.
    pub fn copy(&self) -> (board: Self)
        ensures
            forall|pos: Position| pos.on_board() ==> #[trigger] board.at(pos) == self.at(pos),
    {
        let blank = Self::blank();
        self.bitor(&blank)
    }
}

} // verus!
