//! The game itself: which words the board allows, and which chains of words
//! use up all of its letters.

use crate::letter_boxed::{Board, Letter, Position, Vocabulary, N_PER_SIDE, N_SIDES};
use crate::lookup::QueryResult;
use crate::prefix_tree::rooted_lookup;
use crate::search::{explored, reach, SearchSpace};
use crate::text::{chars_of, string_of};
use vstd::prelude::*;

verus! {

/// The cost of playing a word is this much less the length of the word, so
/// that long words come first.
pub const MOVE_COST: usize = 1000;

/// A word in the making: the place of its last letter, its letters, and
/// the places it has used.
#[derive(Clone, Hash, Debug)]
pub struct Reach {
    pub pos: Position,
    pub word: Vec<char>,
    pub letters: Board<bool>,
}

/// A word that can be played: the place of its last letter, the word, and
/// the places it uses.
pub type PlayableWord = (Position, String, Board<bool>);

/// A state of the search for a solution: the place of the last letter
/// played, the places used so far, and the words played. Two states with the
/// same place and the same used places count as the same state, whatever
/// their words.
#[derive(Clone, Debug)]
pub struct GameState {
    pub pos: Position,
    pub letters_used: Board<bool>,
    pub moves: Vec<String>,
}

/// A game: the letters on the box and the vocabulary to play with.
pub struct LettersBoxedGame {
    letters: Board<Letter>,
    vocabulary: Vocabulary,
}

/// Why no game could be made.
#[derive(Debug, PartialEq, Eq, Clone, Copy)]
pub enum GameError {
    /// More sides, or more letters on a side, than the box has.
    TooManyLetters,
    /// The page does not name the sides of the box.
    SidesNotFound,
    /// The pattern that finds the sides could not be built.
    PatternRefused,
}

/// Whether two boards mark the same places.
pub open spec fn same_marks(a: Board<bool>, b: Board<bool>) -> bool {
    forall|pos: Position| pos.on_board() ==> #[trigger] a.at(pos) == b.at(pos)
}

/// Whether two words in the making are the same.
pub open spec fn same_reach(a: Reach, b: Reach) -> bool {
    a.pos == b.pos && a.word@ == b.word@ && same_marks(a.letters, b.letters)
}

/// Whether two states are the same to the search.
pub open spec fn same_key(a: GameState, b: GameState) -> bool {
    a.pos == b.pos && same_marks(a.letters_used, b.letters_used)
}

/// Whether two states are the same, their words included.
pub open spec fn same_state(a: GameState, b: GameState) -> bool {
    same_key(a, b) && a.moves@ == b.moves@
}

/// Whether a vocabulary knows `word` as a word or as the beginning of one.
pub open spec fn known(m: Map<Seq<char>, usize>, word: Seq<char>) -> bool {
    !(rooted_lookup(m, word) is NotFound)
}

/// Whether a place is among the first `n` of a list.
pub open spec fn listed_before(places: Seq<Position>, n: int, pos: Position) -> bool {
    exists|k: int| 0 <= k < n && #[trigger] places[k] == pos
}

/// The places of the board, side by side.
pub open spec fn place(number: int) -> Position {
    Position((number / N_PER_SIDE as int) as usize, (number % N_PER_SIDE as int) as usize)
}

/// Whether two boards mark the same places.
fn marks_agree(a: &Board<bool>, b: &Board<bool>) -> (same: bool)
    ensures
        same == same_marks(*a, *b),
{
    let mut i: usize = 0;
    while i < N_SIDES
        invariant
            i <= N_SIDES,
            forall|pos: Position| pos.on_board() && pos.0 < i ==> #[trigger] a.at(pos) == b.at(pos),
        decreases N_SIDES - i,
    {
        let mut j: usize = 0;
        while j < N_PER_SIDE
            invariant
                i < N_SIDES,
                j <= N_PER_SIDE,
                forall|pos: Position|
                    pos.on_board() && (pos.0 < i || (pos.0 == i && pos.1 < j)) ==> #[trigger] a.at(
                        pos,
                    ) == b.at(pos),
            decreases N_PER_SIDE - j,
        {
            if a.0[i][j] != b.0[i][j] {
                assert(a.at(Position(i, j)) != b.at(Position(i, j)));
                return false;
            }
            j += 1;
        }
        i += 1;
    }
    true
}

impl PartialEq for Reach {
    /// Whether the two words in the making end at the same place, have the
    /// same letters and have used the same places.
    fn eq(&self, other: &Self) -> (r: bool) {
        if self.pos.0 != other.pos.0 || self.pos.1 != other.pos.1 {
            return false;
        }
        if self.word.len() != other.word.len() {
            return false;
        }
        let mut i: usize = 0;
        while i < self.word.len()
            invariant
                i <= self.word@.len(),
                self.word@.len() == other.word@.len(),
                forall|k: int| 0 <= k < i ==> self.word@[k] == other.word@[k],
            decreases self.word@.len() - i,
        {
            if self.word[i] != other.word[i] {
                return false;
            }
            i += 1;
        }
        assert(self.word@ =~= other.word@);
        marks_agree(&self.letters, &other.letters)
    }
}

impl vstd::std_specs::cmp::PartialEqSpecImpl for Reach {
    open spec fn obeys_eq_spec() -> bool {
        true
    }

    open spec fn eq_spec(&self, other: &Self) -> bool {
        same_reach(*self, *other)
    }
}

impl Eq for Reach {

}

impl PartialEq for GameState {
    fn eq(&self, other: &Self) -> (r: bool) {
        let same_pos = self.pos.0 == other.pos.0 && self.pos.1 == other.pos.1;
        let mut same = same_pos;
        let mut i: usize = 0;
        while i < N_SIDES
            invariant
                i <= N_SIDES,
                same == (same_pos && forall|pos: Position|
                    pos.on_board() && pos.0 < i ==> #[trigger] self.letters_used.at(pos)
                        == other.letters_used.at(pos)),
            decreases N_SIDES - i,
        {
            let mut j: usize = 0;
            while j < N_PER_SIDE
                invariant
                    i < N_SIDES,
                    j <= N_PER_SIDE,
                    same == (same_pos && forall|pos: Position|
                        pos.on_board() && (pos.0 < i || (pos.0 == i && pos.1 < j))
                            ==> #[trigger] self.letters_used.at(pos) == other.letters_used.at(pos)),
                decreases N_PER_SIDE - j,
            {
                if self.letters_used.0[i][j] != other.letters_used.0[i][j] {
                    assert(self.letters_used.at(Position(i, j)) != other.letters_used.at(
                        Position(i, j),
                    ));
                    same = false;
                }
                j += 1;
            }
            i += 1;
        }
        same
    }
}

impl vstd::std_specs::cmp::PartialEqSpecImpl for GameState {
    open spec fn obeys_eq_spec() -> bool {
        true
    }

    open spec fn eq_spec(&self, other: &Self) -> bool {
        same_key(*self, *other)
    }
}

impl Eq for GameState {

}

impl core::hash::Hash for GameState {
    /// Feeds the place and the used places into the hasher, and not the
    /// words, so that states that count as the same hash the same. This is
    /// `Hash::hash` of std on the pair of the two fields.
    #[verifier::external_body]
    fn hash<H: core::hash::Hasher>(&self, state: &mut H) {
        (&self.pos, &self.letters_used).hash(state);
    }
}

impl LettersBoxedGame {
    /// The letters on the box.
    pub closed spec fn letters(&self) -> Board<Letter> {
        self.letters
    }

    /// The words of the game.
    pub closed spec fn words(&self) -> Map<Seq<char>, usize> {
        self.vocabulary@
    }

    /// The invariant of the game.
    pub closed spec fn wf(&self) -> bool {
        self.vocabulary.wf()
    }

    /// Whether the sides fit on the box.
    pub open spec fn fit(sides: Seq<&str>) -> bool {
        &&& sides.len() <= N_SIDES
        &&& forall|i: int| 0 <= i < sides.len() ==> (#[trigger] sides[i])@.len() <= N_PER_SIDE
    }

    /// The letters on the box.
    pub fn board(&self) -> (letters: &Board<Letter>)
        ensures
            *letters == self.letters(),
    {
        &self.letters
    }

    /// The vocabulary of the game.
    pub fn vocabulary(&self) -> (vocabulary: &Vocabulary)
        ensures
            vocabulary@ == self.words(),
            self.wf() ==> vocabulary.wf(),
    {
        &self.vocabulary
    }

    /// A game with the given letters on the box.
    pub fn with_letters(letters: Board<Letter>, vocabulary: Vocabulary) -> (game: Self)
        requires
            vocabulary.wf(),
        ensures
            game.wf(),
            game.letters() == letters,
            game.words() == vocabulary@,
    {
        LettersBoxedGame { letters, vocabulary }
    }

    /// A game whose box has the letters of `sides`, one string per side.
    /// Places that the strings do not reach hold the null character.
    pub fn new(sides: &[&str], vocabulary: Vocabulary) -> (r: Result<Self, GameError>)
        requires
            vocabulary.wf(),
        ensures
            !Self::fit(sides@) ==> r == Err::<Self, GameError>(GameError::TooManyLetters),
            Self::fit(sides@) ==> {
                &&& r is Ok
                &&& r->Ok_0.wf()
                &&& r->Ok_0.words() == vocabulary@
                &&& forall|pos: Position|
                    pos.on_board() ==> #[trigger] r->Ok_0.letters().at(pos) == (if pos.0
                        < sides@.len() && pos.1 < sides@[pos.0 as int]@.len() {
                        sides@[pos.0 as int]@[pos.1 as int]
                    } else {
                        '\0'
                    })
            },
    {
        let mut letters: Board<Letter> = Board(
            [
                ['\0', '\0', '\0'],
                ['\0', '\0', '\0'],
                ['\0', '\0', '\0'],
                ['\0', '\0', '\0'],
            ],
        );
        if sides.len() > N_SIDES {
            return Err(GameError::TooManyLetters);
        }
        let mut i: usize = 0;
        while i < sides.len()
            invariant
                i <= sides.len() <= N_SIDES,
                forall|k: int| 0 <= k < i ==> (#[trigger] sides@[k])@.len() <= N_PER_SIDE,
                forall|pos: Position|
                    pos.on_board() ==> #[trigger] letters.at(pos) == (if pos.0 < i && pos.1
                        < sides@[pos.0 as int]@.len() {
                        sides@[pos.0 as int]@[pos.1 as int]
                    } else {
                        '\0'
                    }),
            decreases sides.len() - i,
        {
            let side = chars_of(sides[i]);
            if side.len() > N_PER_SIDE {
                return Err(GameError::TooManyLetters);
            }
            let mut j: usize = 0;
            while j < side.len()
                invariant
                    i < sides.len() <= N_SIDES,
                    side@ == sides@[i as int]@,
                    j <= side.len() <= N_PER_SIDE,
                    forall|pos: Position|
                        pos.on_board() ==> #[trigger] letters.at(pos) == (if (pos.0 < i && pos.1
                            < sides@[pos.0 as int]@.len()) || (pos.0 == i && pos.1 < j) {
                            sides@[pos.0 as int]@[pos.1 as int]
                        } else {
                            '\0'
                        }),
                decreases side.len() - j,
            {
                letters.set(Position(i, j), side[j]);
                j += 1;
            }
            i += 1;
        }
        Ok(LettersBoxedGame { letters, vocabulary })
    }

    /// The places of the board, side by side.
    pub fn all_moves() -> (places: Vec<Position>)
        ensures
            places.len() == N_SIDES * N_PER_SIDE,
            forall|n: int| 0 <= n < places.len() ==> #[trigger] places[n] == place(n),
    {
        let mut places: Vec<Position> = Vec::new();
        let mut side: usize = 0;
        while side < N_SIDES
            invariant
                side <= N_SIDES,
                places.len() == side * N_PER_SIDE,
                forall|n: int| 0 <= n < places.len() ==> #[trigger] places[n] == place(n),
            decreases N_SIDES - side,
        {
            let mut index: usize = 0;
            while index < N_PER_SIDE
                invariant
                    side < N_SIDES,
                    index <= N_PER_SIDE,
                    places.len() == side * N_PER_SIDE + index,
                    forall|n: int| 0 <= n < places.len() ==> #[trigger] places[n] == place(n),
                decreases N_PER_SIDE - index,
            {
                places.push(Position(side, index));
                index += 1;
            }
            side += 1;
        }
        places
    }

    /// The places that can follow `pos` in a word: those on the other sides,
    /// side by side.
    pub fn valid_moves(pos: Position) -> (places: Vec<Position>)
        ensures
            forall|i: int|
                0 <= i < places.len() ==> (#[trigger] places[i]).on_board() && places[i].0 != pos.0,
            forall|to: Position|
                to.on_board() && to.0 != pos.0 ==> exists|i: int|
                    0 <= i < places.len() && #[trigger] places[i] == to,
            forall|i: int, j: int|
                0 <= i < j < places.len() ==> (#[trigger] places[i]).number() < (
                #[trigger] places[j]).number(),
    {
        let all = Self::all_moves();
        let mut places: Vec<Position> = Vec::new();
        let mut n: usize = 0;
        while n < all.len()
            invariant
                n <= all.len(),
                all.len() == N_SIDES * N_PER_SIDE,
                forall|k: int| 0 <= k < all.len() ==> #[trigger] all[k] == place(k),
                forall|i: int|
                    0 <= i < places.len() ==> (#[trigger] places[i]).on_board() && places[i].0
                        != pos.0 && places[i].number() < n,
                forall|k: int|
                    0 <= k < n && place(k).0 != pos.0 ==> exists|i: int|
                        0 <= i < places.len() && #[trigger] places[i] == place(k),
                forall|i: int, j: int|
                    0 <= i < j < places.len() ==> (#[trigger] places[i]).number() < (
                    #[trigger] places[j]).number(),
            decreases all.len() - n,
        {
            let ghost before = places@;
            if all[n].0 != pos.0 {
                places.push(all[n]);
            }
            proof {
                assert forall|k: int| 0 <= k < n + 1 && place(k).0 != pos.0 implies exists|i: int|
                    0 <= i < places.len() && #[trigger] places[i] == place(k) by {
                    if k < n {
                        let i = choose|i: int| 0 <= i < before.len() && #[trigger] before[i] == place(k);
                        assert(places[i] == place(k));
                    } else {
                        assert(places[places.len() - 1] == place(k));
                    }
                }
            }
            n += 1;
        }
        proof {
            assert forall|to: Position| to.on_board() && to.0 != pos.0 implies exists|i: int|
                0 <= i < places.len() && #[trigger] places[i] == to by {
                assert(place(to.number()) == to);
            }
        }
        places
    }

    /// Whether `to` is `from` with one more letter: a letter from another
    /// side, such that the longer word is still known to the vocabulary.
    pub open spec fn extends(&self, from: Reach, to: Reach) -> bool {
        &&& to.pos.on_board()
        &&& to.pos.0 != from.pos.0
        &&& to.word@ == from.word@.push(self.letters().at(to.pos))
        &&& known(self.words(), to.word@)
        &&& forall|pos: Position|
            pos.on_board() ==> #[trigger] to.letters.at(pos) == (from.letters.at(pos) || pos
                == to.pos)
    }

    /// The words in the making that one more letter leads to.
    pub fn extend(&self, state: &Reach) -> (next: Vec<Reach>)
        requires
            self.wf(),
        ensures
            forall|i: int| 0 <= i < next.len() ==> self.extends(*state, #[trigger] next[i]),
            forall|to: Reach|
                #[trigger] self.extends(*state, to) ==> exists|i: int|
                    0 <= i < next.len() && same_reach(#[trigger] next[i], to),
    {
        let mut next: Vec<Reach> = Vec::new();
        let places = Self::valid_moves(state.pos);
        let mut n: usize = 0;
        while n < places.len()
            invariant
                self.wf(),
                n <= places.len(),
                forall|i: int|
                    0 <= i < places.len() ==> (#[trigger] places[i]).on_board() && places[i].0
                        != state.pos.0,
                forall|i: int| 0 <= i < next.len() ==> self.extends(*state, #[trigger] next[i]),
                forall|to: Reach|
                    listed_before(places@, n as int, to.pos) && #[trigger] self.extends(*state, to)
                        ==> exists|i: int| 0 <= i < next.len() && same_reach(#[trigger] next[i], to),
            decreases places.len() - n,
        {
            let next_pos = places[n];
            let next_char = *self.letters.get(next_pos);
            let mut next_word = copy_chars(&state.word);
            next_word.push(next_char);
            let ghost before = next@;
            let keep = match self.vocabulary.get(next_word.as_slice()) {
                QueryResult::NotFound => false,
                _ => true,
            };
            if keep {
                // update the letters used
                let mut next_letters = state.letters.copy();
                next_letters.set(next_pos, true);
                next.push(Reach { pos: next_pos, word: next_word, letters: next_letters });
            }
            proof {
                assert forall|to: Reach|
                    listed_before(places@, n + 1, to.pos) && #[trigger] self.extends(
                        *state,
                        to,
                    ) implies exists|i: int|
                    0 <= i < next.len() && same_reach(#[trigger] next[i], to) by {
                    if listed_before(places@, n as int, to.pos) {
                        let i = choose|i: int|
                            0 <= i < before.len() && same_reach(#[trigger] before[i], to);
                        assert(next[i] == before[i]);
                    } else {
                        let k = choose|k: int| 0 <= k < n + 1 && #[trigger] places@[k] == to.pos;
                        assert(k == n);
                        assert(same_reach(next[next.len() - 1], to));
                    }
                }
            }
            n += 1;
        }
        proof {
            assert forall|to: Reach| #[trigger] self.extends(*state, to) implies exists|i: int|
                0 <= i < next.len() && same_reach(#[trigger] next[i], to) by {
                let k = choose|k: int| 0 <= k < places.len() && #[trigger] places[k] == to.pos;
                assert(listed_before(places@, places.len() as int, to.pos));
            }
        }
        next
    }

    /// The word in the making that starts at `pos`: the letter there, and
    /// that place used.
    pub open spec fn starts_at(&self, pos: Position, start: Reach) -> bool {
        &&& start.pos == pos
        &&& start.word@ == seq![self.letters().at(pos)]
        &&& forall|other: Position|
            other.on_board() ==> #[trigger] start.letters.at(other) == (other == pos)
    }

    /// Whether `words` are the complete words among `found`, in order.
    pub open spec fn playable_among(&self, found: Seq<Reach>, words: Seq<PlayableWord>) -> bool {
        exists|at: Seq<int>|
            {
                &&& at.len() == words.len()
                &&& forall|i: int|
                    0 <= i < at.len() ==> {
                        &&& 0 <= #[trigger] at[i] < found.len()
                        &&& self.words().contains_key(found[at[i]].word@)
                        &&& words[i].0 == found[at[i]].pos
                        &&& words[i].1@ == found[at[i]].word@
                        &&& same_marks(words[i].2, found[at[i]].letters)
                    }
                &&& forall|i: int, j: int| 0 <= i < j < at.len() ==> #[trigger] at[i] < #[trigger] at[j]
                &&& forall|k: int|
                    0 <= k < found.len() && self.words().contains_key((#[trigger] found[k]).word@)
                        ==> at.contains(k)
            }
    }

    /// The complete words among `found`, in order.
    pub fn playable(&self, found: &Vec<Reach>) -> (words: Vec<PlayableWord>)
        requires
            self.wf(),
        ensures
            self.playable_among(found@, words@),
    {
        let mut words: Vec<PlayableWord> = Vec::new();
        let ghost mut at: Seq<int> = Seq::empty();
        let mut k: usize = 0;
        while k < found.len()
            invariant
                self.wf(),
                k <= found.len(),
                at.len() == words.len(),
                forall|i: int|
                    0 <= i < at.len() ==> {
                        &&& 0 <= #[trigger] at[i] < k
                        &&& self.words().contains_key(found[at[i]].word@)
                        &&& words[i].0 == found[at[i]].pos
                        &&& words[i].1@ == found[at[i]].word@
                        &&& same_marks(words[i].2, found[at[i]].letters)
                    },
                forall|i: int, j: int| 0 <= i < j < at.len() ==> #[trigger] at[i] < #[trigger] at[j],
                forall|j: int|
                    0 <= j < k && self.words().contains_key((#[trigger] found[j]).word@)
                        ==> at.contains(j),
            decreases found.len() - k,
        {
            let ghost at_before = at;
            let is_word = match self.vocabulary.get(found[k].word.as_slice()) {
                QueryResult::Value(_) => true,
                _ => false,
            };
            if is_word {
                let entry = (found[k].pos, string_of(&found[k].word), found[k].letters.copy());
                words.push(entry);
                proof {
                    at = at.push(k as int);
                }
            }
            proof {
                assert forall|j: int|
                    0 <= j < k + 1 && self.words().contains_key(
                        (#[trigger] found[j]).word@,
                    ) implies at.contains(j) by {
                    if j < k {
                        let i = choose|i: int| 0 <= i < at_before.len() && at_before[i] == j;
                        assert(at[i] == j);
                    } else {
                        assert(at[at.len() - 1] == j);
                    }
                }
            }
            k += 1;
        }
        words
    }

    /// Whether `entries` are the words that start at `pos`: the complete
    /// words among what a search over the extensions finds from there.
    pub open spec fn lists_at(&self, pos: Position, entries: Seq<PlayableWord>) -> bool {
        exists|start: Reach, found: Seq<Reach>|
            {
                &&& self.starts_at(pos, start)
                &&& #[trigger] explored(self, start, usize::MAX, found)
                &&& self.playable_among(found, entries)
            }
    }

    /// Whether `table` lists, for every place of the board, the words that
    /// start there.
    pub open spec fn lists(&self, table: Board<Vec<PlayableWord>>) -> bool {
        forall|pos: Position| pos.on_board() ==> self.lists_at(pos, (#[trigger] table.at(pos))@)
    }

    /// All possible words and their ending locations, by starting place.
    pub fn all_possible_words(&self) -> (words: Board<Vec<PlayableWord>>)
        requires
            self.wf(),
        ensures
            self.lists(words),
    {
        let mut words: Board<Vec<PlayableWord>> = Board(
            [
                [Vec::new(), Vec::new(), Vec::new()],
                [Vec::new(), Vec::new(), Vec::new()],
                [Vec::new(), Vec::new(), Vec::new()],
                [Vec::new(), Vec::new(), Vec::new()],
            ],
        );
        let places = Self::all_moves();
        let mut n: usize = 0;
        while n < places.len()
            invariant
                self.wf(),
                n <= places.len(),
                places.len() == N_SIDES * N_PER_SIDE,
                forall|k: int| 0 <= k < places.len() ==> #[trigger] places[k] == place(k),
                forall|k: int|
                    0 <= k < n ==> self.lists_at(#[trigger] place(k), words.at(place(k))@),
            decreases places.len() - n,
        {
            let starting_pos = places[n];
            let mut starting_word: Vec<char> = Vec::new();
            starting_word.push(*self.letters.get(starting_pos));
            let mut starting_letters = Board::<bool>::blank();
            starting_letters.set(starting_pos, true);
            let start = Reach { pos: starting_pos, word: starting_word, letters: starting_letters };
            let ghost start_view = start;
            // generate all reachable positions
            let reachable = reach(self, start, usize::MAX);
            // keep only those which are valid words
            let all_reachable_words = self.playable(&reachable);
            let ghost entries = all_reachable_words@;
            let ghost before = words;
            words.set(starting_pos, all_reachable_words);
            proof {
                assert(self.starts_at(place(n as int), start_view));
                assert(explored(self, start_view, usize::MAX, reachable@));
                assert(self.lists_at(place(n as int), entries));
                assert forall|k: int| 0 <= k < n + 1 implies self.lists_at(
                    #[trigger] place(k),
                    words.at(place(k))@,
                ) by {
                    if k < n {
                        assert(place(k).on_board() && place(k) != starting_pos);
                        assert(words.at(place(k)) == before.at(place(k)));
                    }
                }
            }
            n += 1;
        }
        proof {
            assert forall|pos: Position| pos.on_board() implies self.lists_at(
                pos,
                (#[trigger] words.at(pos))@,
            ) by {
                assert(place(pos.number()) == pos);
            }
        }
        words
    }
}

/// A list with the same characters.
pub fn copy_chars(chars: &Vec<char>) -> (copy: Vec<char>)
    ensures
        copy@ == chars@,
{
    let mut copy: Vec<char> = Vec::new();
    let mut i: usize = 0;
    while i < chars.len()
        invariant
            i <= chars.len(),
            copy@ == chars@.take(i as int),
        decreases chars.len() - i,
    {
        copy.push(chars[i]);
        proof {
            assert(chars@.take(i + 1) =~= chars@.take(i as int).push(chars@[i as int]));
        }
        i += 1;
    }
    assert(chars@.take(chars.len() as int) =~= chars@);
    copy
}

impl SearchSpace for LettersBoxedGame {
    type Node = Reach;

    open spec fn space_ok(&self) -> bool {
        self.wf()
    }

    open spec fn holds(&self, node: Reach) -> bool {
        true
    }

    open spec fn same(a: Reach, b: Reach) -> bool {
        same_reach(a, b)
    }

    open spec fn step(&self, from: Reach, to: Reach) -> bool {
        self.extends(from, to)
    }

    proof fn lemma_same_is_eq(&self, a: Reach, b: Reach) {
    }

    proof fn lemma_same(a: Reach, b: Reach, c: Reach) {
    }

    proof fn lemma_same_steps(&self, a: Reach, b: Reach, to: Reach) {
    }

    fn successors(&self, node: &Reach) -> (next: Vec<Reach>) {
        self.extend(node)
    }
}

} // verus!
