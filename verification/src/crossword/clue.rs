//! Clues: the runs of squares that take a word.

use crate::crossword::Position;
use vstd::prelude::*;

verus! {

/// The direction a clue runs in.
#[derive(Debug, PartialEq, Eq, Clone, Copy, Hash)]
pub enum Direction {
    Across,
    Down,
}

/// A run of `length` squares from `start` in one direction.
#[derive(Debug, PartialEq, Eq, Clone, Copy, Hash)]
pub struct Clue {
    pub direction: Direction,
    pub start: Position,
    pub length: usize,
}

impl Clue {
    /// The place of the `i`-th square of the clue.
    pub open spec fn cell(&self, i: int) -> (int, int) {
        match self.direction {
            Direction::Across => (self.start.row as int, self.start.col + i),
            Direction::Down => (self.start.row + i, self.start.col as int),
        }
    }

    /// Whether every square of the clue has a place that fits the machine's
    /// integers.
    pub open spec fn representable(&self) -> bool {
        match self.direction {
            Direction::Across => self.start.col + self.length <= usize::MAX,
            Direction::Down => self.start.row + self.length <= usize::MAX,
        }
    }

    /// The number of squares of the clue.
    pub fn len(&self) -> (n: usize)
        ensures
            n == self.length,
    {
        self.length
    }

    /// The places of the squares covered by this clue, from its start on.
    pub fn positions(&self) -> (places: Vec<Position>)
        requires
            self.representable(),
        ensures
            places.len() == self.length,
            forall|i: int|
                0 <= i < self.length ==> (#[trigger] places[i]).row == self.cell(i).0 && places[i].col
                    == self.cell(i).1,
    {
        let mut places: Vec<Position> = Vec::new();
        let mut i: usize = 0;
        while i < self.length
            invariant
                self.representable(),
                i <= self.length,
                places.len() == i,
                forall|j: int|
                    0 <= j < i ==> (#[trigger] places[j]).row == self.cell(j).0 && places[j].col
                        == self.cell(j).1,
            decreases self.length - i,
        {
            let place = Position {
                row: match self.direction {
                    Direction::Across => self.start.row,
                    Direction::Down => self.start.row + i,
                },
                col: match self.direction {
                    Direction::Across => self.start.col + i,
                    Direction::Down => self.start.col,
                },
            };
            places.push(place);
            i += 1;
        }
        places
    }
}

} // verus!
