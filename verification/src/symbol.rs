//! The two families of values the index is generic over: the symbols that
//! make up a stored sequence, and the costs attached to complete sequences.

use vstd::prelude::*;

verus! {

/// A symbol of the alphabet: a plain value that can be copied and tested
/// for equality.
pub trait Symbol: Sized {
    /// Whether the two symbols are the same value.
    fn same(&self, other: &Self) -> (b: bool)
        ensures
            b == (*self == *other),
    ;

    /// A copy of this symbol.
    fn duplicate(&self) -> (c: Self)
        ensures
            c == *self,
    ;
}

/// A cost attached to a stored sequence. Costs are totally preordered by
/// their `rank`; a smaller rank is the better cost.
pub trait Cost: Sized {
    /// The position of this cost in the order.
    spec fn rank(&self) -> int;

    /// A copy of this cost.
    fn duplicate(&self) -> (c: Self)
        ensures
            c == *self,
    ;

    /// Whether `self` is strictly better than `other`.
    fn cheaper_than(&self, other: &Self) -> (b: bool)
        ensures
            b == (self.rank() < other.rank()),
    ;
}

/// The better of two costs; on a tie the first one is kept.
pub open spec fn best<V: Cost>(current: V, candidate: V) -> V {
    if candidate.rank() < current.rank() {
        candidate
    } else {
        current
    }
}

impl Symbol for char {
    fn same(&self, other: &Self) -> (b: bool) {
        *self == *other
    }

    fn duplicate(&self) -> (c: Self) {
        *self
    }
}

impl Symbol for u8 {
    fn same(&self, other: &Self) -> (b: bool) {
        *self == *other
    }

    fn duplicate(&self) -> (c: Self) {
        *self
    }
}

impl Symbol for u32 {
    fn same(&self, other: &Self) -> (b: bool) {
        *self == *other
    }

    fn duplicate(&self) -> (c: Self) {
        *self
    }
}

impl Symbol for u64 {
    fn same(&self, other: &Self) -> (b: bool) {
        *self == *other
    }

    fn duplicate(&self) -> (c: Self) {
        *self
    }
}

impl Symbol for usize {
    fn same(&self, other: &Self) -> (b: bool) {
        *self == *other
    }

    fn duplicate(&self) -> (c: Self) {
        *self
    }
}

impl Cost for () {
    open spec fn rank(&self) -> int {
        0
    }

    fn duplicate(&self) -> (c: Self) {
        ()
    }

    fn cheaper_than(&self, other: &Self) -> (b: bool) {
        false
    }
}

impl Cost for char {
    open spec fn rank(&self) -> int {
        *self as int
    }

    fn duplicate(&self) -> (c: Self) {
        *self
    }

    fn cheaper_than(&self, other: &Self) -> (b: bool) {
        *self < *other
    }
}

impl Cost for u8 {
    open spec fn rank(&self) -> int {
        *self as int
    }

    fn duplicate(&self) -> (c: Self) {
        *self
    }

    fn cheaper_than(&self, other: &Self) -> (b: bool) {
        *self < *other
    }
}

impl Cost for u32 {
    open spec fn rank(&self) -> int {
        *self as int
    }

    fn duplicate(&self) -> (c: Self) {
        *self
    }

    fn cheaper_than(&self, other: &Self) -> (b: bool) {
        *self < *other
    }
}

impl Cost for u64 {
    open spec fn rank(&self) -> int {
        *self as int
    }

    fn duplicate(&self) -> (c: Self) {
        *self
    }

    fn cheaper_than(&self, other: &Self) -> (b: bool) {
        *self < *other
    }
}

impl Cost for usize {
    open spec fn rank(&self) -> int {
        *self as int
    }

    fn duplicate(&self) -> (c: Self) {
        *self
    }

    fn cheaper_than(&self, other: &Self) -> (b: bool) {
        *self < *other
    }
}

impl Cost for i32 {
    open spec fn rank(&self) -> int {
        *self as int
    }

    fn duplicate(&self) -> (c: Self) {
        *self
    }

    fn cheaper_than(&self, other: &Self) -> (b: bool) {
        *self < *other
    }
}

impl Cost for i64 {
    open spec fn rank(&self) -> int {
        *self as int
    }

    fn duplicate(&self) -> (c: Self) {
        *self
    }

    fn cheaper_than(&self, other: &Self) -> (b: bool) {
        *self < *other
    }
}

} // verus!
