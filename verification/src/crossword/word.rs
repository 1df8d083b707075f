//! Words that can be written into a crossword.

use crate::crossword::square::{is_lower, is_upper};
use crate::text::string_of;
use vstd::prelude::*;
use vstd::string::StringSliceAdditionalSpecFns;

verus! {

/// A word as a list of bytes, its ASCII letters in upper case.
#[derive(Clone, Debug)]
pub struct Word {
    chars: Vec<u8>,
}

/// Whether the byte, read as a character, is alphabetic: an ASCII letter,
/// or one of the letters among the characters from 128 to 255 (the two
/// ordinal indicators, the micro sign, and the accented letters, which
/// leave out the multiplication and the division sign).
pub open spec fn alphabetic(byte: u8) -> bool {
    ||| is_upper(byte)
    ||| is_lower(byte)
    ||| byte == 0xaa
    ||| byte == 0xb5
    ||| byte == 0xba
    ||| 0xc0 <= byte <= 0xd6
    ||| 0xd8 <= byte <= 0xf6
    ||| 0xf8 <= byte
}

/// Whether the byte, read as a character, is alphabetic. This is
/// `char::is_alphabetic` of std on one of the first 256 characters.
#[verifier::external_body]
fn is_alphabetic(byte: u8) -> (b: bool)
    ensures
        b == alphabetic(byte),
{
    (byte as char).is_alphabetic()
}

/// The byte with an ASCII lowercase letter turned into upper case.
pub open spec fn upper(byte: u8) -> u8 {
    if is_lower(byte) {
        (byte - 32) as u8
    } else {
        byte
    }
}

/// The message for bytes that are no word.
pub open spec fn not_a_word() -> &'static str {
    "Not valid ASCII."
}

/// Whether every byte is alphabetic.
pub open spec fn all_alphabetic(bytes: Seq<u8>) -> bool {
    forall|i: int| 0 <= i < bytes.len() ==> alphabetic(#[trigger] bytes[i])
}

/// What the bytes of a word are turned into.
pub open spec fn word_of(bytes: Seq<u8>) -> Seq<u8> {
    bytes.map_values(|b: u8| upper(b))
}

impl View for Word {
    type V = Seq<u8>;

    closed spec fn view(&self) -> Seq<u8> {
        self.chars@
    }
}

impl Word {
    /// The invariant of a word: it was made of alphabetic bytes by turning
    /// the ASCII letters into upper case.
    pub closed spec fn wf(&self) -> bool {
        exists|bytes: Seq<u8>| all_alphabetic(bytes) && self.chars@ == word_of(bytes)
    }

    /// The word with the bytes of another word.
    pub(crate) fn with_bytes(bytes: Vec<u8>, Ghost(like): Ghost<Word>) -> (word: Self)
        requires
            like.wf(),
            like@ == bytes@,
        ensures
            word.wf(),
            word@ == bytes@,
    {
        Word { chars: bytes }
    }

    /// The number of bytes of the word.
    pub fn len(&self) -> (n: usize)
        ensures
            n == self@.len(),
    {
        self.chars.len()
    }

    /// The bytes of the word.
    pub fn bytes(&self) -> (bytes: &[u8])
        ensures
            bytes@ == self@,
    {
        self.chars.as_slice()
    }

    /// The word as text, each byte read as one character.
    pub fn text(&self) -> (text: String)
        ensures
            text@ == self@.map_values(|b: u8| b as char),
    {
        let mut chars: Vec<char> = Vec::new();
        let mut i: usize = 0;
        while i < self.chars.len()
            invariant
                i <= self.chars@.len(),
                chars@ == self.chars@.take(i as int).map_values(|b: u8| b as char),
            decreases self.chars@.len() - i,
        {
            chars.push(self.chars[i] as char);
            proof {
                assert(self.chars@.take(i + 1) =~= self.chars@.take(i as int).push(
                    self.chars@[i as int],
                ));
                assert(chars@ =~= self.chars@.take(i + 1).map_values(|b: u8| b as char));
            }
            i += 1;
        }
        assert(self.chars@.take(self.chars@.len() as int) =~= self.chars@);
        string_of(&chars)
    }

    /// The word made of `value`: its bytes with the ASCII letters in upper
    /// case, if every byte is alphabetic.
    pub fn from_bytes(value: &[u8]) -> (r: Result<Self, &'static str>)
        ensures
            all_alphabetic(value@) ==> r is Ok && r->Ok_0@ == word_of(value@) && r->Ok_0.wf(),
            !all_alphabetic(value@) ==> r == Err::<Self, &'static str>(not_a_word()),
    {
        let mut chars: Vec<u8> = Vec::new();
        let mut i: usize = 0;
        while i < value.len()
            invariant
                i <= value.len(),
                all_alphabetic(value@.take(i as int)),
                chars@ == word_of(value@.take(i as int)),
            decreases value.len() - i,
        {
            let byte = value[i];
            if !is_alphabetic(byte) {
                return Err("Not valid ASCII.");
            }
            let up = if 0x61 <= byte && byte <= 0x7a {
                byte - 32
            } else {
                byte
            };
            chars.push(up);
            proof {
                assert(value@.take(i + 1) =~= value@.take(i as int).push(byte));
                assert(chars@ =~= word_of(value@.take(i + 1)));
                assert forall|j: int| 0 <= j < i + 1 implies alphabetic(
                    #[trigger] value@.take(i + 1)[j],
                ) by {
                    if j < i {
                        assert(value@.take(i as int)[j] == value@.take(i + 1)[j]);
                    }
                }
            }
            i += 1;
        }
        assert(value@.take(value.len() as int) =~= value@);
        Ok(Word { chars })
    }
}

/// The result of making a word of `bytes`, up to the identity of the word's
/// storage.
pub closed spec fn made_of(bytes: Seq<u8>) -> Result<Word, &'static str> {
    if all_alphabetic(bytes) {
        Ok(choose|w: Word| w@ == word_of(bytes))
    } else {
        Err(not_a_word())
    }
}

// The conversions below pin the word they return by its view; they do not
// promise which of the words with that view it is.
impl vstd::std_specs::convert::TryFromSpecImpl<&[u8]> for Word {
    open spec fn obeys_try_from_spec() -> bool {
        false
    }

    open spec fn try_from_spec(value: &[u8]) -> Result<Self, Self::Error> {
        made_of(value@)
    }
}

impl TryFrom<&[u8]> for Word {
    type Error = &'static str;

    fn try_from(value: &[u8]) -> (r: Result<Self, Self::Error>)
        ensures
            all_alphabetic(value@) ==> r is Ok && r->Ok_0@ == word_of(value@) && r->Ok_0.wf(),
            !all_alphabetic(value@) ==> r == Err::<Self, &'static str>(not_a_word()),
    {
        Self::from_bytes(value)
    }
}

impl vstd::std_specs::convert::TryFromSpecImpl<&str> for Word {
    open spec fn obeys_try_from_spec() -> bool {
        false
    }

    open spec fn try_from_spec(value: &str) -> Result<Self, Self::Error> {
        made_of(value.spec_bytes())
    }
}

impl TryFrom<&str> for Word {
    type Error = &'static str;

    fn try_from(value: &str) -> (r: Result<Self, Self::Error>)
        ensures
            all_alphabetic(value.spec_bytes()) ==> r is Ok && r->Ok_0@ == word_of(
                value.spec_bytes(),
            ) && r->Ok_0.wf(),
            !all_alphabetic(value.spec_bytes()) ==> r == Err::<Self, &'static str>(not_a_word()),
    {
        Self::from_bytes(value.as_bytes())
    }
}

} // verus!
