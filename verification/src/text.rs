//! Strings as sequences of characters.

use vstd::prelude::*;
use vstd::string::StrSliceExecFns;

verus! {

/// The characters of a string, in order.
pub fn chars_of(s: &str) -> (chars: Vec<char>)
    ensures
        chars@ == s@,
{
    let n = s.unicode_len();
    let mut chars: Vec<char> = Vec::new();
    let mut i: usize = 0;
    while i < n
        invariant
            n == s@.len(),
            i <= n,
            chars@ == s@.take(i as int),
        decreases n - i,
    {
        chars.push(s.get_char(i));
        proof {
            assert(s@.take(i as int).push(s@[i as int]) =~= s@.take(i + 1));
        }
        i += 1;
    }
    assert(s@.take(n as int) =~= s@);
    chars
}

/// The pieces of a text between the occurrences of a separator, the piece
/// in progress being `current`.
pub open spec fn pieces_from(text: Seq<char>, sep: char, i: int, current: Seq<char>) -> Seq<
    Seq<char>,
>
    decreases text.len() - i,
{
    if i < 0 || i >= text.len() {
        seq![current]
    } else if text[i] == sep {
        seq![current] + pieces_from(text, sep, i + 1, Seq::empty())
    } else {
        pieces_from(text, sep, i + 1, current.push(text[i]))
    }
}

/// The pieces of a text between the occurrences of a separator. A text
/// without the separator is one piece.
pub open spec fn pieces_of(text: Seq<char>, sep: char) -> Seq<Seq<char>> {
    pieces_from(text, sep, 0, Seq::empty())
}

/// The lists of characters as plain sequences.
pub open spec fn char_views(pieces: Seq<Vec<char>>) -> Seq<Seq<char>> {
    pieces.map_values(|piece: Vec<char>| piece@)
}

/// The pieces of a text between the occurrences of a separator.
pub fn split_chars(text: &Vec<char>, sep: char) -> (pieces: Vec<Vec<char>>)
    ensures
        char_views(pieces@) == pieces_of(text@, sep),
        pieces.len() >= 1,
{
    let mut pieces: Vec<Vec<char>> = Vec::new();
    let mut current: Vec<char> = Vec::new();
    let mut i: usize = 0;
    while i < text.len()
        invariant
            i <= text.len(),
            pieces_of(text@, sep) == char_views(pieces@) + pieces_from(
                text@,
                sep,
                i as int,
                current@,
            ),
        decreases text.len() - i,
    {
        let ghost done = char_views(pieces@);
        if text[i] == sep {
            let ghost piece = current@;
            pieces.push(current);
            current = Vec::new();
            proof {
                assert(char_views(pieces@) =~= done + seq![piece]);
                assert(done + (seq![piece] + pieces_from(text@, sep, i + 1, Seq::empty())) =~= (
                done + seq![piece]) + pieces_from(text@, sep, i + 1, Seq::empty()));
            }
        } else {
            current.push(text[i]);
        }
        i += 1;
    }
    let ghost done = char_views(pieces@);
    let ghost piece = current@;
    pieces.push(current);
    proof {
        assert(char_views(pieces@) =~= done + seq![piece]);
    }
    pieces
}

/// The string made of `chars`. This is `String::from_iter` of std: the
/// string holds the characters in order.
#[verifier::external_body]
pub(crate) fn string_of(chars: &Vec<char>) -> (s: String)
    ensures
        s@ == chars@,
{
    String::from_iter(chars.iter())
}

} // verus!
