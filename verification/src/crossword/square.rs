//! One square of a crossword board.

use vstd::prelude::*;

verus! {

pub const EMPTY_CHAR: char = ' ';

pub const BLOCKED_CHAR: char = '#';

/// A square in a crossword puzzle: empty, blocked, or filled with an
/// uppercase ASCII letter.
#[derive(Clone, Copy, Debug, PartialEq, Eq, Hash)]
pub struct Square(u8);

/// Whether the byte is an uppercase ASCII letter.
pub open spec fn is_upper(byte: u8) -> bool {
    0x41 <= byte <= 0x5a
}

/// Whether the byte is a lowercase ASCII letter.
pub open spec fn is_lower(byte: u8) -> bool {
    0x61 <= byte <= 0x7a
}

/// Whether a byte is the content of some square.
pub open spec fn is_square_byte(byte: u8) -> bool {
    byte <= 1 || is_upper(byte)
}

impl View for Square {
    type V = u8;

    closed spec fn view(&self) -> u8 {
        self.0
    }
}

impl Square {
    /// The invariant of a square.
    pub open spec fn wf(&self) -> bool {
        is_square_byte(self@)
    }

    /// The empty square.
    pub fn empty() -> (s: Self)
        ensures
            s@ == 0,
            s.wf(),
    {
        Square(0)
    }

    /// The blocked square.
    pub fn blocked() -> (s: Self)
        ensures
            s@ == 1,
            s.wf(),
    {
        Square(1)
    }

    /// The content of the square: 0 for empty, 1 for blocked, else the
    /// letter.
    pub fn byte(&self) -> (byte: u8)
        ensures
            byte == self@,
    {
        self.0
    }

    /// Whether the square is empty.
    pub fn is_empty(&self) -> (b: bool)
        ensures
            b == (self@ == 0),
    {
        self.0 == 0
    }

    /// Whether the square is blocked.
    pub fn is_blocked(&self) -> (b: bool)
        ensures
            b == (self@ == 1),
    {
        self.0 == 1
    }

    /// Whether the letter `char` can stand on this square: the square is
    /// empty or holds that letter already.
    pub fn matches(&self, char: u8) -> (b: bool)
        ensures
            b == (self@ == 0 || self@ == char),
    {
        self.is_empty() || self.0 == char
    }
}

/// The message for a byte or character that no square can hold.
pub open spec fn not_a_letter() -> &'static str {
    "Not a valid uppercase ASCII char."
}

impl vstd::std_specs::convert::TryFromSpecImpl<u8> for Square {
    open spec fn obeys_try_from_spec() -> bool {
        true
    }

    closed spec fn try_from_spec(value: u8) -> Result<Self, Self::Error> {
        if is_square_byte(value) {
            Ok(Square(value))
        } else {
            Err(not_a_letter())
        }
    }
}

impl TryFrom<u8> for Square {
    type Error = &'static str;

    fn try_from(value: u8) -> (r: Result<Self, Self::Error>)
        ensures
            is_square_byte(value) ==> r is Ok && r->Ok_0@ == value && r->Ok_0.wf(),
            !is_square_byte(value) ==> r == Err::<Self, &'static str>(not_a_letter()),
    {
        if value <= 1 {
            Ok(Square(value))
        } else if 0x41 <= value && value <= 0x5a {
            Ok(Square(value))
        } else {
            Err("Not a valid uppercase ASCII char.")
        }
    }
}

/// The square that a character stands for, if any: a space is the empty
/// square, `#` the blocked one, and a letter of either case is that letter
/// in upper case.
pub open spec fn square_byte_of(value: char) -> Option<u8> {
    if value == ' ' {
        Some(0u8)
    } else if value == '#' {
        Some(1u8)
    } else if 'A' <= value <= 'Z' {
        Some(value as u8)
    } else if 'a' <= value <= 'z' {
        Some((value as u8 - 32) as u8)
    } else {
        None
    }
}

impl vstd::std_specs::convert::TryFromSpecImpl<char> for Square {
    open spec fn obeys_try_from_spec() -> bool {
        true
    }

    closed spec fn try_from_spec(value: char) -> Result<Self, Self::Error> {
        match square_byte_of(value) {
            Some(byte) => Ok(Square(byte)),
            None => Err(not_a_letter()),
        }
    }
}

impl TryFrom<char> for Square {
    type Error = &'static str;

    fn try_from(value: char) -> (r: Result<Self, Self::Error>)
        ensures
            match square_byte_of(value) {
                Some(byte) => r is Ok && r->Ok_0@ == byte && r->Ok_0.wf(),
                None => r == Err::<Self, &'static str>(not_a_letter()),
            },
    {
        if value == EMPTY_CHAR {
            Ok(Square(0))  // empty
        } else if value == BLOCKED_CHAR {
            Ok(Square(1))
        } else if 'A' <= value && value <= 'Z' {
            Ok(Square(value as u8))
        } else if 'a' <= value && value <= 'z' {
            Ok(Square(value as u8 - 32))
        } else {
            Err("Not a valid uppercase ASCII char.")
        }
    }
}

/// The character that shows a square: a space for the empty square, `#`
/// for the blocked one, else the letter.
pub open spec fn shown(square: u8) -> char {
    if square == 0 {
        ' '
    } else if square == 1 {
        '#'
    } else {
        square as char
    }
}

impl Square {
    /// The character that shows this square; read back, it gives the same
    /// square.
    pub fn to_char(&self) -> (c: char)
        requires
            self.wf(),
        ensures
            c == shown(self@),
            square_byte_of(c) == Some(self@),
    {
        if self.is_empty() {
            EMPTY_CHAR
        } else if self.is_blocked() {
            BLOCKED_CHAR
        } else {
            self.0 as char
        }
    }
}

} // verus!
