//! What holds of the vocabulary as a whole: insertion followed by lookup,
//! repeated insertion, and the selection of a compiled pattern.

use crate::arena::is_prefix;
use crate::insertion::inserted;
use crate::key::compiled;
use crate::lookup::{lookup, QueryResult};
use crate::matching::{agrees, lemma_compiled_fits, matches_of};
use crate::symbol::{best, Cost};
use vstd::prelude::*;

verus! {

/// The contents after the insertions `entries`, made in order into an empty
/// vocabulary.
pub open spec fn inserted_all<K, V: Cost>(entries: Seq<(Seq<K>, V)>) -> Map<Seq<K>, V>
    decreases entries.len(),
{
    if entries.len() == 0 {
        Map::empty()
    } else {
        inserted(inserted_all(entries.drop_last()), entries.last().0, entries.last().1)
    }
}

/// A sequence that was just inserted is found, with the cost it was inserted
/// with or with the better cost it had before.
pub proof fn lemma_insert_then_lookup<K, V: Cost>(m: Map<Seq<K>, V>, word: Seq<K>, cost: V)
    ensures
        lookup(inserted(m, word, cost), word) == QueryResult::Value(
            if m.contains_key(word) {
                best(m[word], cost)
            } else {
                cost
            },
        ),
{
}

/// An insertion leaves every other stored sequence as it was.
pub proof fn lemma_insert_keeps_others<K, V: Cost>(
    m: Map<Seq<K>, V>,
    word: Seq<K>,
    cost: V,
    other: Seq<K>,
)
    requires
        other != word,
    ensures
        inserted(m, word, cost).contains_key(other) == m.contains_key(other),
        m.contains_key(other) ==> inserted(m, word, cost)[other] == m[other],
{
}

/// Round trip: after any series of insertions, every inserted sequence is
/// found, and the cost found for it is one it was inserted with and no worse
/// than any cost it was inserted with.
pub proof fn lemma_round_trip<K, V: Cost>(entries: Seq<(Seq<K>, V)>, i: int)
    requires
        0 <= i < entries.len(),
    ensures
        lookup(inserted_all(entries), entries[i].0) is Value,
        inserted_all(entries).contains_key(entries[i].0),
        inserted_all(entries)[entries[i].0].rank() <= entries[i].1.rank(),
        exists|j: int|
            0 <= j < entries.len() && #[trigger] entries[j] == (
                entries[i].0,
                inserted_all(entries)[entries[i].0],
            ),
    decreases entries.len(),
{
    let earlier = entries.drop_last();
    let last = entries.last();
    let word = entries[i].0;
    let m = inserted_all(earlier);
    if i == entries.len() - 1 {
        if m.contains_key(word) {
            lemma_stored_was_inserted(earlier, word);
            let j = choose|j: int| 0 <= j < earlier.len() && #[trigger] earlier[j] == (word, m[word]);
            assert(entries[j] == earlier[j]);
            if !(last.1.rank() < m[word].rank()) {
                assert(entries[j] == (word, inserted_all(entries)[word]));
            }
        }
    } else {
        lemma_round_trip(earlier, i);
        assert(earlier[i] == entries[i]);
        let j = choose|j: int| 0 <= j < earlier.len() && #[trigger] earlier[j] == (word, m[word]);
        assert(entries[j] == earlier[j]);
        if last.0 == word {
            if !(last.1.rank() < m[word].rank()) {
                assert(entries[j] == (word, inserted_all(entries)[word]));
            }
        } else {
            assert(entries[j] == (word, inserted_all(entries)[word]));
        }
    }
}

/// Whatever is stored after a series of insertions was inserted by one of
/// them.
pub proof fn lemma_stored_was_inserted<K, V: Cost>(entries: Seq<(Seq<K>, V)>, word: Seq<K>)
    requires
        inserted_all(entries).contains_key(word),
    ensures
        exists|j: int|
            0 <= j < entries.len() && #[trigger] entries[j] == (word, inserted_all(entries)[word]),
    decreases entries.len(),
{
    if entries.len() > 0 {
        let earlier = entries.drop_last();
        let last = entries.last();
        let m = inserted_all(earlier);
        if last.0 == word && (!m.contains_key(word) || last.1.rank() < m[word].rank()) {
            assert(entries[entries.len() - 1] == (word, inserted_all(entries)[word]));
        } else {
            lemma_stored_was_inserted(earlier, word);
            let j = choose|j: int| 0 <= j < earlier.len() && #[trigger] earlier[j] == (word, m[word]);
            assert(entries[j] == earlier[j]);
        }
    }
}

/// Idempotence: inserting a sequence a second time with the same cost
/// changes nothing, and inserting a stored sequence with any cost leaves the
/// set of stored sequences as it was.
pub proof fn lemma_insert_idempotent<K, V: Cost>(m: Map<Seq<K>, V>, word: Seq<K>, cost: V)
    ensures
        inserted(inserted(m, word, cost), word, cost) == inserted(m, word, cost),
        m.contains_key(word) ==> inserted(m, word, cost).dom() == m.dom(),
{
    let once = inserted(m, word, cost);
    assert(inserted(once, word, cost) =~= once);
    if m.contains_key(word) {
        assert(once.dom() =~= m.dom());
    }
}

/// Prefix distinction: of a vocabulary that holds one sequence only, every
/// proper beginning of it is a known prefix, the sequence itself is found,
/// and everything else is unknown.
pub proof fn lemma_single_word<K, V: Cost>(word: Seq<K>, cost: V, query: Seq<K>)
    ensures
        lookup(inserted(Map::<Seq<K>, V>::empty(), word, cost), query) == (if query == word {
            QueryResult::Value(cost)
        } else if is_prefix(query, word) {
            QueryResult::Prefix
        } else {
            QueryResult::NotFound
        }),
{
    let m = inserted(Map::<Seq<K>, V>::empty(), word, cost);
    if query != word {
        if is_prefix(query, word) {
            assert(m.contains_key(word) && is_prefix(query, word));
        }
    }
}

/// An empty vocabulary knows no sequence.
pub proof fn lemma_empty_knows_nothing<K, V>(query: Seq<K>)
    ensures
        lookup(Map::<Seq<K>, V>::empty(), query) == QueryResult::<V>::NotFound,
{
}

/// Pattern correctness: a compiled pattern selects exactly the stored
/// sequences of its length that agree with its fixed positions.
pub proof fn lemma_pattern_selects<K, V>(m: Map<Seq<K>, V>, positions: Seq<Option<K>>)
    ensures
        matches_of(m, Some(compiled(positions))) == Set::new(
            |word: Seq<K>| m.contains_key(word) && agrees(positions, word),
        ),
{
    let selected = matches_of(m, Some(compiled(positions)));
    let filtered = Set::new(|word: Seq<K>| m.contains_key(word) && agrees(positions, word));
    assert forall|word: Seq<K>| selected.contains(word) <==> filtered.contains(word) by {
        lemma_compiled_fits(positions, word);
    }
    assert(selected =~= filtered);
}

/// Without a pattern every stored sequence is selected.
pub proof fn lemma_no_pattern_selects_all<K, V>(m: Map<Seq<K>, V>)
    ensures
        matches_of(m, None) == m.dom(),
{
    assert(matches_of(m, None::<Seq<crate::key::Query<K>>>) =~= m.dom());
}

} // verus!
