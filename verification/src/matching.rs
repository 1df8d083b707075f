//! Which stored sequences a pattern selects, stated over the sequences
//! themselves, and how that relates to the nodes a traversal reaches.

use crate::arena::{lemma_depth_label, lemma_inner_key, lemma_terminal_label};
use crate::frontier::{admits, lemma_steps_from_root, reached};
use crate::key::{compiled, query_admits, Key, Query};
use crate::trie::{label, links_ok, parent_at, structure_ok, Node};
use vstd::prelude::*;

verus! {

/// Whether the pattern admits every symbol of `word` at its depth. The first
/// constraint of a pattern belongs to the root and is never consulted.
pub open spec fn prefix_fits<K>(pattern: Option<Seq<Query<K>>>, word: Seq<K>) -> bool {
    forall|i: int| 0 <= i < word.len() ==> admits(pattern, i + 1, Key::Internal(#[trigger] word[i]))
}

/// Whether the pattern selects `word`: it admits every symbol at its depth
/// and the end of the word right after the last symbol, where only the
/// constraint that asks for the end admits it. Without a pattern every word
/// is selected.
pub open spec fn fits<K>(pattern: Option<Seq<Query<K>>>, word: Seq<K>) -> bool {
    &&& prefix_fits(pattern, word)
    &&& admits(pattern, (word.len() + 1) as int, Key::End)
}

/// The stored sequences that the pattern selects.
pub open spec fn matches_of<K, V>(m: Map<Seq<K>, V>, pattern: Option<Seq<Query<K>>>) -> Set<Seq<K>> {
    Set::new(|word: Seq<K>| m.contains_key(word) && fits(pattern, word))
}

/// Whether `word` has the length of `positions` and agrees with every
/// position that names a symbol.
pub open spec fn agrees<K>(positions: Seq<Option<K>>, word: Seq<K>) -> bool {
    &&& word.len() == positions.len()
    &&& forall|i: int|
        0 <= i < positions.len() ==> (#[trigger] positions[i] matches Some(s) ==> word[i] == s)
}

/// What a compiled pattern selects: the words of the pattern's length that
/// agree with its fixed positions. A wildcard stands for one symbol, so no
/// shorter and no longer word is selected.
pub proof fn lemma_compiled_fits<K>(positions: Seq<Option<K>>, word: Seq<K>)
    ensures
        fits(Some(compiled(positions)), word) <==> agrees(positions, word),
{
    let p = compiled(positions);
    let pattern = Some(p);
    if fits(pattern, word) {
        assert(word.len() + 1 < p.len());
        assert forall|i: int| 0 <= i < word.len() implies (#[trigger] positions[i] matches Some(s)
            ==> word[i] == s) by {
            assert(admits(pattern, i + 1, Key::Internal(word[i])));
            assert(query_admits(p[i + 1], Key::Internal(word[i])));
        }
        assert(query_admits(p[(word.len() + 1) as int], Key::<K>::End));
    }
    if agrees(positions, word) {
        assert forall|i: int| 0 <= i < word.len() implies admits(
            pattern,
            i + 1,
            Key::Internal(#[trigger] word[i]),
        ) by {
            assert(positions[i] matches Some(s) ==> word[i] == s);
        }
    }
}

/// A traversal from the root reaches a node exactly if the pattern admits
/// the node's label, and for a terminal node the end of the label too.
pub proof fn lemma_reached_fits<K, V>(
    nodes: Seq<Node<K, V>>,
    pattern: Option<Seq<Query<K>>>,
    n: int,
)
    requires
        structure_ok(nodes),
        0 <= n < nodes.len(),
    ensures
        reached(nodes, pattern, 0, n) <==> (if nodes[n].key is End {
            fits(pattern, label(nodes, n))
        } else {
            prefix_fits(pattern, label(nodes, n))
        }),
    decreases n,
{
    assert(links_ok(nodes, n));
    if n > 0 {
        let p = parent_at(nodes, n);
        assert(links_ok(nodes, p));
        lemma_reached_fits(nodes, pattern, p);
        lemma_steps_from_root(nodes, n);
        lemma_depth_label(nodes, n);
        lemma_depth_label(nodes, p);
        if nodes[n].key is End {
            lemma_terminal_label(nodes, n);
        } else {
            lemma_inner_key(nodes, n);
            let k = nodes[n].key->Internal_0;
            let up = label(nodes, p);
            let w = up.push(k);
            if prefix_fits(pattern, w) {
                assert forall|i: int| 0 <= i < up.len() implies admits(
                    pattern,
                    i + 1,
                    Key::Internal(#[trigger] up[i]),
                ) by {
                    assert(w[i] == up[i]);
                }
                assert(w[up.len() as int] == k);
            }
            if prefix_fits(pattern, up) && admits(pattern, (up.len() + 1) as int, Key::Internal(k)) {
                assert forall|i: int| 0 <= i < w.len() implies admits(
                    pattern,
                    i + 1,
                    Key::Internal(#[trigger] w[i]),
                ) by {
                    if i < up.len() {
                        assert(w[i] == up[i]);
                    }
                }
            }
        }
    }
}

} // verus!
