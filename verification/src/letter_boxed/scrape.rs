//! Making a game from the page that shows the puzzle of the day.

use crate::letter_boxed::game::{GameError, LettersBoxedGame};
use crate::letter_boxed::{Position, Vocabulary, N_SIDES};
use crate::text::{char_views, chars_of, pieces_of, split_chars, string_of};
use vstd::prelude::*;

verus! {

#[verifier::external_type_specification]
#[verifier::external_body]
pub struct ExPatternError(regex::Error);

/// The text between the brackets that follow `"sides":` in a page, if the
/// page has such a place.
pub uninterp spec fn sides_text(html: Seq<char>) -> Option<Seq<char>>;

/// The view of a string that may be missing.
pub open spec fn text_view(text: Option<String>) -> Option<Seq<char>> {
    match text {
        Some(t) => Some(t@),
        None => None,
    }
}

/// The text between the brackets that follow `"sides":` in a page. This is
/// the first capture group of the first match of the pattern
/// `\"sides\":\[(.*?)\]`, compiled and applied by the crate regex. The
/// pattern is fixed, well-formed and small, so compiling it does not fail.
#[verifier::external_body]
fn find_sides(html: &str) -> (found: Result<Option<String>, regex::Error>)
    ensures
        found is Ok,
        text_view(found->Ok_0) == sides_text(html@),
{
    let pattern = regex::Regex::new(r#"\"sides\":\[(.*?)\]"#)?;
    Ok(pattern.captures(html).and_then(|groups| groups.get(1)).map(|side| side.as_str().to_string()))
}

/// The letters that a piece of the sides text names: its second to fourth
/// character, if it has that many.
pub open spec fn side_of(piece: Seq<char>) -> Option<Seq<char>> {
    if piece.len() >= 4 {
        Some(piece.subrange(1, 4))
    } else {
        None
    }
}

/// The sides that the first `n` pieces name.
pub open spec fn sides_among(pieces: Seq<Seq<char>>, n: nat) -> Seq<Seq<char>>
    decreases n,
{
    if n == 0 {
        Seq::empty()
    } else {
        let earlier = sides_among(pieces, (n - 1) as nat);
        match side_of(pieces[n - 1]) {
            Some(side) => earlier.push(side),
            None => earlier,
        }
    }
}

/// The sides that a sides text names: of each piece between commas the
/// three letters between its quotes.
pub open spec fn sides_of(text: Seq<char>) -> Seq<Seq<char>> {
    sides_among(pieces_of(text, ','), pieces_of(text, ',').len())
}

/// The sides that a sides text names.
pub fn read_sides(text: &str) -> (sides: Vec<String>)
    ensures
        sides@.map_values(|s: String| s@) == sides_of(text@),
        forall|i: int| 0 <= i < sides.len() ==> (#[trigger] sides[i])@.len() == 3,
{
    let chars = chars_of(text);
    let pieces = split_chars(&chars, ',');
    let ghost all = pieces_of(text@, ',');
    let mut sides: Vec<String> = Vec::new();
    let mut n: usize = 0;
    while n < pieces.len()
        invariant
            n <= pieces.len(),
            all == char_views(pieces@),
            sides@.map_values(|s: String| s@) == sides_among(all, n as nat),
            forall|i: int| 0 <= i < sides.len() ==> (#[trigger] sides[i])@.len() == 3,
        decreases pieces.len() - n,
    {
        let piece = &pieces[n];
        assert(all[n as int] == piece@);
        let ghost before = sides@.map_values(|s: String| s@);
        if piece.len() >= 4 {
            let mut inner: Vec<char> = Vec::new();
            inner.push(piece[1]);
            inner.push(piece[2]);
            inner.push(piece[3]);
            assert(inner@ =~= piece@.subrange(1, 4));
            sides.push(string_of(&inner));
            proof {
                assert(sides@.map_values(|s: String| s@) =~= before.push(inner@));
            }
        }
        n += 1;
    }
    sides
}

impl LettersBoxedGame {
    /// Whether `r` is what a sides text stands for: the game with one side
    /// of the box for each group of three letters that the text names, or no
    /// game if the text names more sides than the box has.
    pub open spec fn reads_as(
        text: Seq<char>,
        words: Map<Seq<char>, usize>,
        r: Result<Self, GameError>,
    ) -> bool {
        if sides_of(text).len() > N_SIDES {
            r == Err::<Self, GameError>(GameError::TooManyLetters)
        } else {
            &&& r is Ok
            &&& r->Ok_0.wf()
            &&& r->Ok_0.words() == words
            &&& forall|pos: Position|
                pos.on_board() ==> #[trigger] r->Ok_0.letters().at(pos) == (if pos.0 < sides_of(
                    text,
                ).len() {
                    sides_of(text)[pos.0 as int][pos.1 as int]
                } else {
                    '\0'
                })
        }
    }

    /// The game that a sides text describes: one side of the box for each
    /// group of three letters that the text names.
    pub fn from_sides_text(text: &str, vocabulary: Vocabulary) -> (r: Result<Self, GameError>)
        requires
            vocabulary.wf(),
        ensures
            Self::reads_as(text@, vocabulary@, r),
    {
        let sides = read_sides(text);
        let mut borrowed: Vec<&str> = Vec::new();
        let mut i: usize = 0;
        while i < sides.len()
            invariant
                i <= sides.len(),
                borrowed.len() == i,
                forall|k: int| 0 <= k < i ==> (#[trigger] borrowed[k])@ == sides[k]@,
            decreases sides.len() - i,
        {
            borrowed.push(sides[i].as_str());
            i += 1;
        }
        proof {
            assert(sides@.map_values(|s: String| s@).len() == sides.len());
            assert forall|k: int| 0 <= k < sides.len() implies sides_of(text@)[k] == (
            #[trigger] borrowed[k])@ by {
                assert(sides@.map_values(|s: String| s@)[k] == sides[k]@);
            }
        }
        Self::new(borrowed.as_slice(), vocabulary)
    }

    /// The game that a page of the puzzle describes. The page names the
    /// sides of the box as `"sides":["ABC","DEF","GHI","JKL"]`; the result
    /// is what the text between the brackets stands for.
    pub fn from_nytimes_html(html: &str, vocabulary: Vocabulary) -> (r: Result<Self, GameError>)
        requires
            vocabulary.wf(),
        ensures
            match sides_text(html@) {
                None => r == Err::<Self, GameError>(GameError::SidesNotFound),
                Some(text) => Self::reads_as(text, vocabulary@, r),
            },
    {
        match find_sides(html) {
            Err(_) => Err(GameError::PatternRefused),
            Ok(None) => Err(GameError::SidesNotFound),
            Ok(Some(text)) => Self::from_sides_text(text.as_str(), vocabulary),
        }
    }
}

} // verus!
