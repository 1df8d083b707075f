//! The search for chains of words that use up every letter of the box.

use crate::letter_boxed::game::{
    place,
    same_key,
    same_state,
    GameState,
    LettersBoxedGame,
    PlayableWord,
    MOVE_COST,
};
use crate::letter_boxed::{Board, Position, N_PER_SIDE, N_SIDES};
use vstd::prelude::*;

use vstd::utf8::encode_utf8;

verus! {

/// The words of a list of moves as plain values.
pub open spec fn texts(moves: Seq<String>) -> Seq<Seq<char>> {
    moves.map_values(|word: String| word@)
}

/// The cost of playing a word: the longer the word, the cheaper the move. A
/// word of more bytes than the base cost is free.
pub open spec fn cost_of(word: Seq<char>) -> usize {
    if byte_len(word) <= MOVE_COST {
        (MOVE_COST - byte_len(word)) as usize
    } else {
        0
    }
}

/// The number of bytes of a word, as the machine counts them.
pub open spec fn byte_len(word: Seq<char>) -> usize {
    encode_utf8(word).len() as usize
}

/// The words that start at the first `n` places of the board, side by side.
pub open spec fn flat(table: Board<Vec<PlayableWord>>, n: nat) -> Seq<PlayableWord>
    decreases n,
{
    if n == 0 {
        Seq::empty()
    } else {
        flat(table, (n - 1) as nat) + table.at(place(n - 1))@
    }
}

/// Whether no place is marked.
pub open spec fn unmarked(board: Board<bool>) -> bool {
    forall|pos: Position| pos.on_board() ==> !#[trigger] board.at(pos)
}

/// Whether every place is marked.
pub open spec fn all_marked(board: Board<bool>) -> bool {
    forall|pos: Position| pos.on_board() ==> #[trigger] board.at(pos)
}

/// The words that can be played in a state: any word before the first move,
/// afterwards the words that start where the last one ended.
pub open spec fn sources(table: Board<Vec<PlayableWord>>, from: GameState) -> Seq<PlayableWord> {
    if unmarked(from.letters_used) {
        flat(table, (N_SIDES * N_PER_SIDE) as nat)
    } else if from.pos.on_board() {
        table.at(from.pos)@
    } else {
        Seq::empty()
    }
}

/// Whether playing `entry` in the state `from` gives the state `to` at the
/// cost `cost`.
pub open spec fn plays(from: GameState, entry: PlayableWord, to: GameState, cost: usize) -> bool {
    &&& to.pos == entry.0
    &&& texts(to.moves@) == (if unmarked(from.letters_used) {
        seq![entry.1@]
    } else {
        texts(from.moves@).push(entry.1@)
    })
    &&& forall|pos: Position|
        pos.on_board() ==> #[trigger] to.letters_used.at(pos) == (from.letters_used.at(pos)
            || entry.2.at(pos))
    &&& cost == cost_of(entry.1@)
}

/// Whether one move leads from `from` to `to`.
pub open spec fn step(table: Board<Vec<PlayableWord>>, from: GameState, to: GameState) -> bool {
    exists|i: int|
        0 <= i < sources(table, from).len() && plays(
            from,
            #[trigger] sources(table, from)[i],
            to,
            cost_of(sources(table, from)[i].1@),
        )
}

/// Whether the states are a series of moves.
pub open spec fn route(table: Board<Vec<PlayableWord>>, path: Seq<GameState>) -> bool {
    &&& path.len() >= 1
    &&& forall|i: int| #![trigger path[i]] 0 <= i < path.len() - 1 ==> step(table, path[i], path[i + 1])
}

/// Whether a series of moves leads from `start` to `to`.
pub open spec fn arrives(table: Board<Vec<PlayableWord>>, start: GameState, to: GameState) -> bool {
    exists|path: Seq<GameState>|
        #[trigger] route(table, path) && same_state(path[0], start) && same_state(path.last(), to)
}

/// What a search over the moves has visited from `start`: states that
/// moves lead to, with the words of one way to get there; no two of them
/// the same to the search; and one for every state that moves lead to.
pub open spec fn visited(
    table: Board<Vec<PlayableWord>>,
    start: GameState,
    found: Seq<GameState>,
) -> bool {
    &&& forall|i: int| 0 <= i < found.len() ==> arrives(table, start, #[trigger] found[i])
    &&& forall|i: int, j: int|
        0 <= i < j < found.len() ==> !same_key(#[trigger] found[i], #[trigger] found[j])
    &&& forall|to: GameState|
        #[trigger] arrives(table, start, to) ==> exists|i: int|
            0 <= i < found.len() && same_key(#[trigger] found[i], to)
}

/// Whether `wins` are the words of the states among `found` that have used
/// every letter, in order.
pub open spec fn wins_among(found: Seq<GameState>, wins: Seq<Vec<String>>) -> bool {
    exists|at: Seq<int>|
        {
            &&& at.len() == wins.len()
            &&& forall|i: int|
                0 <= i < at.len() ==> {
                    &&& 0 <= #[trigger] at[i] < found.len()
                    &&& all_marked(found[at[i]].letters_used)
                    &&& texts(wins[i]@) == texts(found[at[i]].moves@)
                }
            &&& forall|i: int, j: int| 0 <= i < j < at.len() ==> #[trigger] at[i] < #[trigger] at[j]
            &&& forall|k: int|
                0 <= k < found.len() && all_marked((#[trigger] found[k]).letters_used)
                    ==> at.contains(k)
        }
}

/// The state before the first move.
pub open spec fn is_start(start: GameState) -> bool {
    &&& start.pos == Position(0, 0)
    &&& unmarked(start.letters_used)
    &&& start.moves@.len() == 0
}

/// A list with the same words.
pub fn copy_words(words: &Vec<String>) -> (copy: Vec<String>)
    ensures
        copy@ == words@,
{
    let mut copy: Vec<String> = Vec::new();
    let mut i: usize = 0;
    while i < words.len()
        invariant
            i <= words.len(),
            copy@ == words@.take(i as int),
        decreases words.len() - i,
    {
        copy.push(words[i].clone());
        proof {
            assert(words@.take(i + 1) =~= words@.take(i as int).push(words@[i as int]));
        }
        i += 1;
    }
    assert(words@.take(words.len() as int) =~= words@);
    copy
}

/// The state that playing `entry` in the state `from` leads to, with the
/// cost of the move.
fn play(from: &GameState, entry: &PlayableWord, first: bool) -> (next: (GameState, usize))
    requires
        first == unmarked(from.letters_used),
    ensures
        plays(*from, *entry, next.0, next.1),
{
    let word = entry.1.clone();
    let length = word.as_str().len();
    let cost = if length <= MOVE_COST {
        MOVE_COST - length
    } else {
        0
    };
    let mut moves: Vec<String> = if first {
        Vec::new()
    } else {
        copy_words(&from.moves)
    };
    let ghost earlier = moves@;
    moves.push(word);
    proof {
        assert(texts(moves@) =~= texts(earlier).push(entry.1@));
        if first {
            assert(texts(moves@) =~= seq![entry.1@]);
        }
    }
    let letters_used = from.letters_used.bitor(&entry.2);
    (GameState { pos: entry.0, letters_used, moves }, cost)
}

/// The states that one move leads to, each with the cost of the move:
/// before the first move any word can be played, afterwards the words that
/// start where the last one ended.
pub fn next_states(table: &Board<Vec<PlayableWord>>, state: &GameState) -> (next: Vec<
    (GameState, usize),
>)
    ensures
        next.len() == sources(*table, *state).len(),
        forall|i: int|
            0 <= i < next.len() ==> plays(
                *state,
                sources(*table, *state)[i],
                (#[trigger] next[i]).0,
                next[i].1,
            ),
{
    let mut next: Vec<(GameState, usize)> = Vec::new();
    if state.letters_used.all_false() {
        // first move, can play anywhere
        let mut side: usize = 0;
        while side < N_SIDES
            invariant
                side <= N_SIDES,
                unmarked(state.letters_used),
                next.len() == flat(*table, (side * N_PER_SIDE) as nat).len(),
                forall|i: int|
                    0 <= i < next.len() ==> plays(
                        *state,
                        flat(*table, (side * N_PER_SIDE) as nat)[i],
                        (#[trigger] next[i]).0,
                        next[i].1,
                    ),
            decreases N_SIDES - side,
        {
            let mut index: usize = 0;
            while index < N_PER_SIDE
                invariant
                    side < N_SIDES,
                    index <= N_PER_SIDE,
                    unmarked(state.letters_used),
                    next.len() == flat(*table, (side * N_PER_SIDE + index) as nat).len(),
                    forall|i: int|
                        0 <= i < next.len() ==> plays(
                            *state,
                            flat(*table, (side * N_PER_SIDE + index) as nat)[i],
                            (#[trigger] next[i]).0,
                            next[i].1,
                        ),
                decreases N_PER_SIDE - index,
            {
                let here = Position(side, index);
                let ghost n = side * N_PER_SIDE + index;
                assert(place(n as int) == here);
                let entries = table.get(here);
                let ghost done = flat(*table, n as nat);
                let mut k: usize = 0;
                while k < entries.len()
                    invariant
                        k <= entries.len(),
                        unmarked(state.letters_used),
                        entries@ == table.at(here)@,
                        next.len() == done.len() + k,
                        forall|i: int|
                            0 <= i < next.len() ==> plays(
                                *state,
                                (done + entries@)[i],
                                (#[trigger] next[i]).0,
                                next[i].1,
                            ),
                    decreases entries.len() - k,
                {
                    let ghost before = next@;
                    let moved = play(state, &entries[k], true);
                    next.push(moved);
                    proof {
                        assert forall|i: int| 0 <= i < next.len() implies plays(
                            *state,
                            (done + entries@)[i],
                            (#[trigger] next[i]).0,
                            next[i].1,
                        ) by {
                            if i < before.len() {
                                assert(next[i] == before[i]);
                            }
                        }
                    }
                    k += 1;
                }
                proof {
                    assert(flat(*table, (n + 1) as nat) == done + entries@);
                }
                index += 1;
            }
            side += 1;
        }
    } else if state.pos.0 < N_SIDES && state.pos.1 < N_PER_SIDE {
        // not the first move, can only play from the end of the previous word
        let entries = table.get(state.pos);
        let mut k: usize = 0;
        while k < entries.len()
            invariant
                k <= entries.len(),
                !unmarked(state.letters_used),
                entries@ == table.at(state.pos)@,
                next.len() == k,
                forall|i: int|
                    0 <= i < next.len() ==> plays(
                        *state,
                        entries@[i],
                        (#[trigger] next[i]).0,
                        next[i].1,
                    ),
            decreases entries.len() - k,
        {
            let ghost before = next@;
            let moved = play(state, &entries[k], false);
            next.push(moved);
            proof {
                assert forall|i: int| 0 <= i < next.len() implies plays(
                    *state,
                    entries@[i],
                    (#[trigger] next[i]).0,
                    next[i].1,
                ) by {
                    if i < before.len() {
                        assert(next[i] == before[i]);
                    }
                }
            }
            k += 1;
        }
    }
    next
}

/// The words of the states that have used every letter, in the order of the
/// states.
pub fn winning_moves(found: &Vec<GameState>) -> (wins: Vec<Vec<String>>)
    ensures
        wins_among(found@, wins@),
{
    let mut wins: Vec<Vec<String>> = Vec::new();
    let ghost mut at: Seq<int> = Seq::empty();
    let mut k: usize = 0;
    while k < found.len()
        invariant
            k <= found.len(),
            at.len() == wins.len(),
            forall|i: int|
                0 <= i < at.len() ==> {
                    &&& 0 <= #[trigger] at[i] < k
                    &&& all_marked(found[at[i]].letters_used)
                    &&& texts(wins[i]@) == texts(found[at[i]].moves@)
                },
            forall|i: int, j: int| 0 <= i < j < at.len() ==> #[trigger] at[i] < #[trigger] at[j],
            forall|j: int|
                0 <= j < k && all_marked((#[trigger] found[j]).letters_used) ==> at.contains(j),
        decreases found.len() - k,
    {
        let ghost at_before = at;
        // we want only the winning states, and only the move sequence
        if found[k].letters_used.all_true() {
            wins.push(copy_words(&found[k].moves));
            proof {
                at = at.push(k as int);
            }
        }
        proof {
            assert forall|j: int|
                0 <= j < k + 1 && all_marked((#[trigger] found[j]).letters_used) implies at.contains(
                j,
            ) by {
                if j < k {
                    let i = choose|i: int| 0 <= i < at_before.len() && at_before[i] == j;
                    assert(at[i] == j);
                } else {
                    assert(at[at.len() - 1] == j);
                }
            }
        }
        k += 1;
    }
    wins
}

/// The states that a search over the moves visits from `start`, cheapest
/// chain of moves first. This is `dijkstra_reach` of the crate pathfinding,
/// which visits every state that the moves lead to once; of two states that
/// are the same to the search it keeps the one it met first, with its words.
#[verifier::external_body]
fn reach_by_cost(table: &Board<Vec<PlayableWord>>, start: &GameState) -> (found: Vec<GameState>)
    ensures
        visited(*table, *start, found@),
{
    pathfinding::directed::dijkstra::dijkstra_reach(start, |state| next_states(table, state)).map(
        |item| item.node,
    ).collect()
}

impl LettersBoxedGame {
    /// Whether `wins` are the chains of words that a search finds for this
    /// game: the words of the visited states that have used every letter.
    pub open spec fn solved_by(&self, wins: Seq<Vec<String>>) -> bool {
        exists|table: Board<Vec<PlayableWord>>, start: GameState, found: Seq<GameState>|
            {
                &&& self.lists(table)
                &&& is_start(start)
                &&& #[trigger] visited(table, start, found)
                &&& wins_among(found, wins)
            }
    }

    /// The chains of words that use up every letter of the box, in the
    /// order in which the search meets them. Every chain starts anywhere, and
    /// each of its words starts where the one before ended.
    pub fn solve(&self) -> (wins: Vec<Vec<String>>)
        requires
            self.wf(),
        ensures
            self.solved_by(wins@),
    {
        let legal_words = self.all_possible_words();
        // words so far, letters so far, current pos
        let start = GameState {
            pos: Position(0, 0),
            letters_used: Board::<bool>::blank(),
            moves: Vec::new(),
        };
        let found = reach_by_cost(&legal_words, &start);
        let wins = winning_moves(&found);
        proof {
            assert(is_start(start));
            assert(visited(legal_words, start, found@) && wins_among(found@, wins@));
        }
        wins
    }
}

} // verus!
