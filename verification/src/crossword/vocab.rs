//! The crossword vocabulary: scored words in a ternary search tree, looked
//! up by the squares of a clue.

use crate::crossword::square::Square;
use crate::crossword::word::{all_alphabetic, word_of, Word};
use crate::letter_boxed::word_list::{number_of, parse_number, split_tokens, tokens_of};
use crate::text::{char_views, chars_of, pieces_of, split_chars, string_of};
use vstd::prelude::*;
use vstd::string::StringSliceAdditionalSpecFns;

verus! {

/// The score of a word.
pub type Score = usize;

/// The longest key that the tree takes.
pub const MAX_KEY_LEN: usize = 2000;

#[verifier::external_type_specification]
#[verifier::external_body]
#[verifier::reject_recursive_types(Value)]
pub struct ExTernaryTree<Value>(tst::TSTMap<Value>);

/// The keys that a ternary search tree holds, with their values.
pub uninterp spec fn tree_entries(tree: tst::TSTMap<usize>) -> Map<Seq<char>, usize>;

/// Whether `key` fits the wildcard pattern `pat`: both have the same length
/// and every character of the pattern is a dot or the character of the key.
pub open spec fn wildcard_match(pat: Seq<char>, key: Seq<char>) -> bool {
    &&& pat.len() == key.len()
    &&& forall|i: int| 0 <= i < pat.len() ==> #[trigger] pat[i] == '.' || pat[i] == key[i]
}

/// An empty tree. This is `TSTMap::new` of the crate tst.
#[verifier::external_body]
fn tree_new() -> (made: tst::TSTMap<usize>)
    ensures
        tree_entries(made) == (Map::<Seq<char>, usize>::empty()),
{
    tst::TSTMap::new()
}

/// Stores `value` under `key`, replacing what was stored there. This is
/// `TSTMap::insert` of the crate tst, which refuses an empty key and recurses
/// once per character of the key.
#[verifier::external_body]
fn tree_insert(tree: &mut tst::TSTMap<usize>, key: &str, value: usize)
    requires
        0 < key@.len() <= MAX_KEY_LEN,
    ensures
        tree_entries(*final(tree)) == tree_entries(*old(tree)).insert(key@, value),
{
    tree.insert(key, value);
}

/// The entries whose keys fit the wildcard pattern `pat`, each once. This
/// is `TSTMap::wildcard_iter` of the crate tst, which reads a dot in the
/// pattern as any one character.
#[verifier::external_body]
fn tree_wildcard(tree: &tst::TSTMap<usize>, pat: &str) -> (found: Vec<(String, usize)>)
    requires
        pat@.len() > 0,
    ensures
        forall|i: int|
            0 <= i < found.len() ==> {
                &&& tree_entries(*tree).contains_key((#[trigger] found[i]).0@)
                &&& tree_entries(*tree)[found[i].0@] == found[i].1
                &&& wildcard_match(pat@, found[i].0@)
            },
        forall|key: Seq<char>|
            tree_entries(*tree).contains_key(key) && wildcard_match(pat@, key) ==> exists|i: int|
                0 <= i < found.len() && (#[trigger] found[i]).0@ == key,
        forall|i: int, j: int|
            0 <= i < j < found.len() ==> (#[trigger] found[i]).0@ != (#[trigger] found[j]).0@,
{
    tree.wildcard_iter(pat).map(|(key, value)| (key, *value)).collect()
}

/// The key that the bytes of a word are stored under.
pub open spec fn key_chars(bytes: Seq<u8>) -> Seq<char> {
    bytes.map_values(|b: u8| b as char)
}

/// The character that a square puts into a wildcard pattern: a dot for the
/// empty square, `#` for the blocked one, else the letter.
pub open spec fn pattern_char(square: u8) -> char {
    if square == 0 {
        '.'
    } else if square == 1 {
        '#'
    } else {
        square as char
    }
}

/// The wildcard pattern that a run of squares stands for.
pub open spec fn pattern_of(squares: Seq<Square>) -> Seq<char> {
    squares.map_values(|s: Square| pattern_char(s@))
}

/// Whether a word list entry is taken into the vocabulary: its text is
/// alphabetic, not empty and not too long for the tree.
pub open spec fn takes(bytes: Seq<u8>) -> bool {
    all_alphabetic(bytes) && 0 < bytes.len() <= MAX_KEY_LEN
}

/// The vocabulary that a word list makes: every entry that is taken stands
/// under its upper-case text, a later entry replacing an earlier one.
pub open spec fn listed(entries: Seq<(&str, Score)>) -> Map<Seq<char>, Score>
    decreases entries.len(),
{
    if entries.len() == 0 {
        Map::empty()
    } else {
        let rest = listed(entries.drop_last());
        let bytes = entries.last().0.spec_bytes();
        if takes(bytes) {
            rest.insert(key_chars(word_of(bytes)), entries.last().1)
        } else {
            rest
        }
    }
}

/// A vocabulary of scored words.
pub struct Vocab(tst::TSTMap<Score>);

impl View for Vocab {
    type V = Map<Seq<char>, Score>;

    closed spec fn view(&self) -> Map<Seq<char>, Score> {
        tree_entries(self.0)
    }
}

/// Whether a key is the text of a word.
pub open spec fn is_word_key(key: Seq<char>) -> bool {
    key.len() > 0 && exists|word: Word| word.wf() && key == key_chars(word@)
}

impl Vocab {
    /// The invariant of the vocabulary: every key is the text of a word.
    pub open spec fn wf(&self) -> bool {
        forall|key: Seq<char>| self@.contains_key(key) ==> is_word_key(key)
    }

    /// The vocabulary made of a word list. Entries whose text is not
    /// alphabetic, is empty or is longer than the tree takes are left out.
    pub fn new(word_list: &[(&str, Score)]) -> (vocab: Self)
        ensures
            vocab.wf(),
            vocab@ == listed(word_list@),
    {
        let mut tree = tree_new();
        let mut i: usize = 0;
        while i < word_list.len()
            invariant
                i <= word_list.len(),
                tree_entries(tree) == listed(word_list@.take(i as int)),
                forall|key: Seq<char>| tree_entries(tree).contains_key(key) ==> is_word_key(key),
            decreases word_list.len() - i,
        {
            let (text, score) = word_list[i];
            proof {
                assert(word_list@.take(i + 1).drop_last() =~= word_list@.take(i as int));
                assert(word_list@.take(i + 1).last() == word_list@[i as int]);
            }
            match Word::try_from(text) {
                Ok(word) => {
                    if 0 < word.len() && word.len() <= MAX_KEY_LEN {
                        let key = key_of(&word);
                        tree_insert(&mut tree, key.as_str(), score);
                        proof {
                            assert(is_word_key(key@));
                        }
                    }
                },
                Err(_) => {},
            }
            i += 1;
        }
        assert(word_list@.take(word_list.len() as int) =~= word_list@);
        Vocab(tree)
    }

    /// The words that can stand on a run of squares: those as long as the
    /// run whose letters agree with every letter already there.
    pub fn matches(&self, squares: &[Square]) -> (words: Vec<Word>)
        requires
            self.wf(),
            forall|i: int| 0 <= i < squares.len() ==> (#[trigger] squares[i]).wf(),
        ensures
            forall|i: int|
                0 <= i < words.len() ==> {
                    &&& (#[trigger] words[i]).wf()
                    &&& self@.contains_key(key_chars(words[i]@))
                    &&& wildcard_match(pattern_of(squares@), key_chars(words[i]@))
                },
            forall|key: Seq<char>|
                self@.contains_key(key) && wildcard_match(pattern_of(squares@), key) ==> exists|
                    i: int,
                | 0 <= i < words.len() && key_chars((#[trigger] words[i])@) == key,
            forall|i: int, j: int|
                0 <= i < j < words.len() ==> (#[trigger] words[i])@ != (#[trigger] words[j])@,
    {
        let mut words: Vec<Word> = Vec::new();
        if squares.len() == 0 {
            proof {
                assert forall|key: Seq<char>| self@.contains_key(key) implies !wildcard_match(
                    pattern_of(squares@),
                    key,
                ) by {
                    assert(is_word_key(key));
                }
            }
            return words;
        }
        let mut pattern: Vec<char> = Vec::new();
        let mut i: usize = 0;
        while i < squares.len()
            invariant
                i <= squares.len(),
                forall|k: int| 0 <= k < squares.len() ==> (#[trigger] squares[k]).wf(),
                pattern@ == pattern_of(squares@.take(i as int)),
            decreases squares.len() - i,
        {
            let square = &squares[i];
            let c = if square.is_empty() {
                '.'
            } else {
                square.to_char()
            };
            pattern.push(c);
            proof {
                assert(squares@.take(i + 1) =~= squares@.take(i as int).push(squares@[i as int]));
                assert(pattern@ =~= pattern_of(squares@.take(i + 1)));
            }
            i += 1;
        }
        assert(squares@.take(squares.len() as int) =~= squares@);
        let pat = string_of(&pattern);
        let found = tree_wildcard(&self.0, pat.as_str());
        let mut j: usize = 0;
        while j < found.len()
            invariant
                j <= found.len(),
                self.wf(),
                forall|k: int|
                    0 <= k < found.len() ==> self@.contains_key((#[trigger] found[k]).0@)
                        && wildcard_match(pattern_of(squares@), found[k].0@),
                forall|a: int, b: int|
                    0 <= a < b < found.len() ==> (#[trigger] found[a]).0@ != (#[trigger] found[b]).0@,
                words.len() == j,
                forall|k: int|
                    0 <= k < j ==> (#[trigger] words[k]).wf() && key_chars(words[k]@) == found[k].0@,
            decreases found.len() - j,
        {
            let ghost key = found[j as int].0@;
            assert(is_word_key(key));
            let ghost like = choose|word: Word| word.wf() && key == key_chars(word@);
            let chars = chars_of(found[j].0.as_str());
            let mut bytes: Vec<u8> = Vec::new();
            let mut k: usize = 0;
            while k < chars.len()
                invariant
                    k <= chars.len(),
                    chars@ == key_chars(like@),
                    bytes@ == like@.take(k as int),
                decreases chars.len() - k,
            {
                let c = chars[k];
                assert(c == like@[k as int] as char);
                bytes.push(c as u8);
                proof {
                    assert(like@.take(k + 1) =~= like@.take(k as int).push(like@[k as int]));
                }
                k += 1;
            }
            assert(like@.take(chars.len() as int) =~= like@);
            words.push(Word::with_bytes(bytes, Ghost(like)));
            j += 1;
        }
        proof {
            assert forall|a: int, b: int| 0 <= a < b < words.len() implies (#[trigger] words[a])@ != (
            #[trigger] words[b])@ by {
                assert(found[a].0@ != found[b].0@);
            }
            assert forall|key: Seq<char>|
                self@.contains_key(key) && wildcard_match(
                    pattern_of(squares@),
                    key,
                ) implies exists|i: int|
                0 <= i < words.len() && key_chars((#[trigger] words[i])@) == key by {
                let i = choose|i: int| 0 <= i < found.len() && (#[trigger] found[i]).0@ == key;
                assert(key_chars(words[i]@) == key);
            }
        }
        words
    }
}

/// The entry that a line of a word list stands for: its first word, with
/// the number that its second word stands for as the score, or 0 where
/// there is no such number. A line without a word stands for no entry.
pub open spec fn scored_entry(line: Seq<char>) -> Option<(Seq<char>, Score)> {
    let tokens = tokens_of(line);
    if tokens.len() == 0 {
        None
    } else if tokens.len() >= 2 && number_of(tokens[1]) is Some {
        Some((tokens[0], number_of(tokens[1])->0))
    } else {
        Some((tokens[0], 0usize))
    }
}

/// The entries that the first `n` lines stand for, in order.
pub open spec fn scored_among(lines: Seq<Seq<char>>, n: nat) -> Seq<(Seq<char>, Score)>
    decreases n,
{
    if n == 0 {
        Seq::empty()
    } else {
        let earlier = scored_among(lines, (n - 1) as nat);
        match scored_entry(lines[n - 1]) {
            Some(entry) => earlier.push(entry),
            None => earlier,
        }
    }
}

/// The entries that a word list stands for: one per line that holds a word.
pub open spec fn scored(text: Seq<char>) -> Seq<(Seq<char>, Score)> {
    scored_among(pieces_of(text, '\n'), pieces_of(text, '\n').len())
}

/// The entries of a list as plain values.
pub open spec fn entry_views(entries: Seq<(String, Score)>) -> Seq<(Seq<char>, Score)> {
    entries.map_values(|entry: (String, Score)| (entry.0@, entry.1))
}

/// Reads a word list: on each line a word and, after white space, its
/// score. A score that is missing or no number counts as 0, and lines
/// without a word are passed over.
pub fn read_word_list(text: &str) -> (entries: Vec<(String, Score)>)
    ensures
        entry_views(entries@) == scored(text@),
{
    let chars = chars_of(text);
    let lines = split_chars(&chars, '\n');
    let ghost all = pieces_of(text@, '\n');
    let mut entries: Vec<(String, Score)> = Vec::new();
    let mut n: usize = 0;
    while n < lines.len()
        invariant
            n <= lines.len(),
            all == char_views(lines@),
            entry_views(entries@) == scored_among(all, n as nat),
        decreases lines.len() - n,
    {
        assert(all[n as int] == lines@[n as int]@);
        let tokens = split_tokens(&lines[n]);
        assert(char_views(tokens@).len() == tokens.len());
        let ghost before = entry_views(entries@);
        if tokens.len() > 0 {
            assert(char_views(tokens@)[0] == tokens@[0]@);
            let mut score: Score = 0;
            if tokens.len() >= 2 {
                assert(char_views(tokens@)[1] == tokens@[1]@);
                match parse_number(&tokens[1]) {
                    Some(number) => {
                        score = number;
                    },
                    None => {},
                }
            }
            let word = string_of(&tokens[0]);
            entries.push((word, score));
            proof {
                assert(entry_views(entries@) =~= before.push((tokens@[0]@, score)));
            }
        }
        n += 1;
    }
    entries
}

/// The key that a word is stored under.
fn key_of(word: &Word) -> (key: String)
    ensures
        key@ == key_chars(word@),
{
    let bytes = word.bytes();
    let mut chars: Vec<char> = Vec::new();
    let mut i: usize = 0;
    while i < bytes.len()
        invariant
            i <= bytes.len(),
            chars@ == key_chars(bytes@.take(i as int)),
        decreases bytes.len() - i,
    {
        chars.push(bytes[i] as char);
        proof {
            assert(bytes@.take(i + 1) =~= bytes@.take(i as int).push(bytes@[i as int]));
            assert(chars@ =~= key_chars(bytes@.take(i + 1)));
        }
        i += 1;
    }
    assert(bytes@.take(bytes.len() as int) =~= bytes@);
    string_of(&chars)
}

} // verus!
