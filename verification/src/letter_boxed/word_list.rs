//! Reading a vocabulary from a word list: one word and its popularity per
//! line.

use crate::letter_boxed::{Vocabulary, VOCAB_SIZE, WORD_LEN_THRESHOLD};
use crate::prefix_tree::PrefixTree;
use crate::text::{char_views, chars_of, pieces_of, split_chars, string_of};
use vstd::prelude::*;

use vstd::utf8::encode_utf8;

verus! {

/// Whether a character is white space: the space, the controls from tab to
/// carriage return, the next-line control, and the spaces and separators
/// beyond ASCII.
pub open spec fn whitespace(c: char) -> bool {
    let code = c as u32;
    ||| code == 0x20
    ||| 0x09 <= code <= 0x0d
    ||| code == 0x85
    ||| code == 0xa0
    ||| code == 0x1680
    ||| 0x2000 <= code <= 0x200a
    ||| code == 0x2028
    ||| code == 0x2029
    ||| code == 0x202f
    ||| code == 0x205f
    ||| code == 0x3000
}

/// The text in upper case.
pub uninterp spec fn uppercased(text: Seq<char>) -> Seq<char>;

/// Whether a character is white space. This is `char::is_whitespace` of
/// std, which goes by the characters with the property White_Space.
#[verifier::external_body]
fn is_space(c: char) -> (b: bool)
    ensures
        b == whitespace(c),
{
    c.is_whitespace()
}

/// The text in upper case. This is `str::to_uppercase` of std.
#[verifier::external_body]
fn upper_text(text: &str) -> (upper: String)
    ensures
        upper@ == uppercased(text@),
{
    text.to_uppercase()
}

/// The words of a line: its runs of characters that are no white space, the
/// run in progress being `current`.
pub open spec fn tokens_from(line: Seq<char>, i: int, current: Seq<char>) -> Seq<Seq<char>>
    decreases line.len() - i,
{
    let done = if current.len() > 0 {
        seq![current]
    } else {
        Seq::empty()
    };
    if i < 0 || i >= line.len() {
        done
    } else if whitespace(line[i]) {
        done + tokens_from(line, i + 1, Seq::empty())
    } else {
        tokens_from(line, i + 1, current.push(line[i]))
    }
}

/// The words of a line.
pub open spec fn tokens_of(line: Seq<char>) -> Seq<Seq<char>> {
    tokens_from(line, 0, Seq::empty())
}

/// Whether a character is a decimal digit.
pub open spec fn is_digit(c: char) -> bool {
    '0' <= c <= '9'
}

/// The number that a run of digits stands for.
pub open spec fn digits_value(digits: Seq<char>) -> nat
    decreases digits.len(),
{
    if digits.len() == 0 {
        0
    } else {
        10 * digits_value(digits.drop_last()) + (digits.last() as u32 - '0' as u32) as nat
    }
}

/// The digits of a number text: the text without a leading plus sign.
pub open spec fn digits_of(text: Seq<char>) -> Seq<char> {
    if text.len() > 0 && text[0] == '+' {
        text.skip(1)
    } else {
        text
    }
}

/// The number that a text stands for: decimal digits, a plus sign before
/// them or not, and a value that the machine's integers hold.
pub open spec fn number_of(text: Seq<char>) -> Option<usize> {
    let digits = digits_of(text);
    if digits.len() > 0 && (forall|i: int| 0 <= i < digits.len() ==> is_digit(#[trigger] digits[i]))
        && digits_value(digits) <= usize::MAX {
        Some(digits_value(digits) as usize)
    } else {
        None
    }
}

/// The entry that a line stands for: its first word in upper case and the
/// number that its second word stands for.
pub open spec fn entry_of(line: Seq<char>) -> Option<(Seq<char>, usize)> {
    let tokens = tokens_of(line);
    if tokens.len() >= 2 && number_of(tokens[1]) is Some {
        Some((uppercased(tokens[0]), number_of(tokens[1])->0))
    } else {
        None
    }
}

/// Whether a word is long enough for the vocabulary, by its bytes.
pub open spec fn long_enough(word: Seq<char>) -> bool {
    (encode_utf8(word).len() as usize) >= WORD_LEN_THRESHOLD
}

/// The vocabulary that the lines from `i` on add to `m`, `taken` entries
/// being in already: line by line, the entries of the words that are long
/// enough, until the vocabulary is full. A line that stands for no entry
/// leaves no vocabulary at all.
pub open spec fn loaded_from(
    lines: Seq<Seq<char>>,
    i: int,
    taken: nat,
    m: Map<Seq<char>, usize>,
) -> Option<Map<Seq<char>, usize>>
    decreases lines.len() - i,
{
    if i < 0 || i >= lines.len() || taken >= VOCAB_SIZE {
        Some(m)
    } else {
        match entry_of(lines[i]) {
            None => None,
            Some((word, popularity)) => if long_enough(word) {
                loaded_from(lines, i + 1, taken + 1, m.insert(word, popularity))
            } else {
                loaded_from(lines, i + 1, taken, m)
            },
        }
    }
}

/// The vocabulary that a word list stands for.
pub open spec fn loaded(word_list: Seq<char>) -> Option<Map<Seq<char>, usize>> {
    loaded_from(pieces_of(word_list, '\n'), 0, 0, Map::empty())
}

/// A longer run of digits stands for no smaller number.
pub proof fn lemma_digits_grow(digits: Seq<char>, k: int)
    requires
        0 <= k <= digits.len(),
        forall|i: int| 0 <= i < digits.len() ==> is_digit(#[trigger] digits[i]),
    ensures
        digits_value(digits.take(k)) <= digits_value(digits),
    decreases digits.len() - k,
{
    if k < digits.len() {
        lemma_digits_grow(digits, k + 1);
        assert(digits.take(k + 1).drop_last() =~= digits.take(k));
        assert(is_digit(digits[k]));
    } else {
        assert(digits.take(k) =~= digits);
    }
}

/// The words of a line.
pub fn split_tokens(line: &Vec<char>) -> (tokens: Vec<Vec<char>>)
    ensures
        char_views(tokens@) == tokens_of(line@),
{
    let mut tokens: Vec<Vec<char>> = Vec::new();
    let mut current: Vec<char> = Vec::new();
    let mut i: usize = 0;
    while i < line.len()
        invariant
            i <= line.len(),
            tokens_of(line@) == char_views(tokens@) + tokens_from(line@, i as int, current@),
        decreases line.len() - i,
    {
        let ghost done = char_views(tokens@);
        if is_space(line[i]) {
            if current.len() > 0 {
                let ghost token = current@;
                tokens.push(current);
                current = Vec::new();
                proof {
                    assert(char_views(tokens@) =~= done + seq![token]);
                    assert(done + (seq![token] + tokens_from(line@, i + 1, Seq::empty())) =~= (
                    done + seq![token]) + tokens_from(line@, i + 1, Seq::empty()));
                }
            } else {
                proof {
                    assert(current@ =~= Seq::<char>::empty());
                    assert(Seq::<Seq<char>>::empty() + tokens_from(line@, i + 1, Seq::empty())
                        =~= tokens_from(line@, i + 1, Seq::empty()));
                }
            }
        } else {
            current.push(line[i]);
        }
        i += 1;
    }
    let ghost done = char_views(tokens@);
    if current.len() > 0 {
        let ghost token = current@;
        tokens.push(current);
        proof {
            assert(char_views(tokens@) =~= done + seq![token]);
        }
    } else {
        proof {
            assert(done + Seq::<Seq<char>>::empty() =~= done);
        }
    }
    tokens
}

/// The number that a text stands for.
pub fn parse_number(text: &Vec<char>) -> (number: Option<usize>)
    ensures
        number == number_of(text@),
{
    let start: usize = if text.len() > 0 && text[0] == '+' {
        1
    } else {
        0
    };
    let ghost digits = digits_of(text@);
    assert(digits =~= text@.skip(start as int));
    if start == text.len() {
        return None;
    }
    let mut value: usize = 0;
    let mut i: usize = start;
    while i < text.len()
        invariant
            start <= i <= text.len(),
            digits == text@.skip(start as int),
            digits == digits_of(text@),
            forall|k: int| 0 <= k < i - start ==> is_digit(#[trigger] digits[k]),
            value == digits_value(digits.take(i - start)),
        decreases text.len() - i,
    {
        let c = text[i];
        assert(digits[i - start] == c);
        if !('0' <= c && c <= '9') {
            assert(!is_digit(digits[i - start]));
            return None;
        }
        let digit = (c as u32 - '0' as u32) as usize;
        proof {
            assert(digits.take(i - start + 1).drop_last() =~= digits.take(i - start));
            assert(digits.take(i - start + 1).last() == c);
        }
        if value > (usize::MAX - digit) / 10 {
            proof {
                if forall|k: int| 0 <= k < digits.len() ==> is_digit(#[trigger] digits[k]) {
                    lemma_digits_grow(digits, i - start + 1);
                }
            }
            return None;
        }
        value = value * 10 + digit;
        i += 1;
    }
    assert(digits.take(digits.len() as int) =~= digits);
    Some(value)
}

/// The vocabulary that a word list stands for: one word and its popularity
/// per line, separated by white space. Words come in upper case; those
/// shorter than the threshold are left out, and once the vocabulary is full
/// the rest of the list is not read. A line without a word and a number
/// before that leaves no vocabulary.
pub fn load_vocabulary(word_list: &str) -> (vocabulary: Option<Vocabulary>)
    ensures
        match vocabulary {
            Some(v) => v.wf() && loaded(word_list@) == Some(v@),
            None => loaded(word_list@) is None,
        },
{
    let text = chars_of(word_list);
    let lines = split_chars(&text, '\n');
    let ghost all = pieces_of(word_list@, '\n');
    let mut vocab: Vocabulary = PrefixTree::empty();
    let mut taken: usize = 0;
    let mut i: usize = 0;
    while i < lines.len() && taken < VOCAB_SIZE
        invariant
            i <= lines.len(),
            taken <= VOCAB_SIZE,
            all == char_views(lines@),
            all == pieces_of(word_list@, '\n'),
            vocab.wf(),
            loaded_from(all, 0, 0, Map::empty()) == loaded_from(all, i as int, taken as nat, vocab@),
        decreases lines.len() - i,
    {
        assert(all[i as int] == lines@[i as int]@);
        let tokens = split_tokens(&lines[i]);
        assert(char_views(tokens@).len() == tokens.len());
        if tokens.len() < 2 {
            assert(entry_of(all[i as int]) is None);
            return None;
        }
        assert(char_views(tokens@)[0] == tokens@[0]@);
        assert(char_views(tokens@)[1] == tokens@[1]@);
        let popularity = match parse_number(&tokens[1]) {
            Some(n) => n,
            None => {
                assert(entry_of(all[i as int]) is None);
                return None;
            },
        };
        let word = upper_text(string_of(&tokens[0]).as_str());
        if word.as_str().len() >= WORD_LEN_THRESHOLD {
            let letters = chars_of(word.as_str());
            vocab.set(letters.as_slice(), popularity);
            taken += 1;
        }
        i += 1;
    }
    Some(vocab)
}

} // verus!
