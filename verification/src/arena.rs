//! Facts about the arena of a trie: how labels, depths and ancestry relate
//! to the links between nodes.

use crate::key::Key;
use crate::symbol::Cost;
use crate::trie::{
    aggregate_ok,
    contents,
    cost_of,
    costs_ok,
    depth,
    has_child,
    is_terminal,
    label,
    links_ok,
    parent_at,
    structure_ok,
    terminal_of,
    Node,
};
use vstd::prelude::*;

verus! {

/// Whether `a` lies on the way from the root to `m`, `m` itself included.
pub open spec fn is_ancestor<K, V>(nodes: Seq<Node<K, V>>, a: int, m: int) -> bool
    decreases m,
{
    a == m || (0 < m < nodes.len() && 0 <= parent_at(nodes, m) < m && is_ancestor(
        nodes,
        a,
        parent_at(nodes, m),
    ))
}

/// Whether `prefix` is an initial part of `word`.
pub open spec fn is_prefix<K>(prefix: Seq<K>, word: Seq<K>) -> bool {
    prefix.len() <= word.len() && word.take(prefix.len() as int) == prefix
}

/// A node that is neither the root nor terminal carries a symbol.
pub proof fn lemma_inner_key<K, V>(nodes: Seq<Node<K, V>>, i: int)
    requires
        structure_ok(nodes),
        0 < i < nodes.len(),
        !(nodes[i].key is End),
    ensures
        nodes[i].key is Internal,
        label(nodes, i) == label(nodes, parent_at(nodes, i)).push(nodes[i].key->Internal_0),
{
    assert(links_ok(nodes, i));
}

/// The label of a terminal node is the label of its parent.
pub proof fn lemma_terminal_label<K, V>(nodes: Seq<Node<K, V>>, e: int)
    requires
        structure_ok(nodes),
        is_terminal(nodes, e),
    ensures
        0 < e,
        0 <= parent_at(nodes, e) < e,
        !(nodes[parent_at(nodes, e)].key is End),
        label(nodes, e) == label(nodes, parent_at(nodes, e)),
        has_child(nodes, parent_at(nodes, e), e),
{
    assert(links_ok(nodes, e));
    assert(links_ok(nodes, 0));
}

/// Labels and depths depend only on the keys and parents of the nodes.
pub proof fn lemma_label_frame<K, V>(before: Seq<Node<K, V>>, after: Seq<Node<K, V>>, i: int)
    requires
        0 <= i < before.len() <= after.len(),
        forall|n: int|
            0 <= n <= i ==> (#[trigger] after[n]).key == before[n].key && after[n].parent
                == before[n].parent,
    ensures
        label(after, i) == label(before, i),
        depth(after, i) == depth(before, i),
    decreases i,
{
    if 0 < i && 0 <= parent_at(before, i) < i {
        assert(after[i].parent == before[i].parent);
        lemma_label_frame(before, after, parent_at(before, i));
    } else {
        assert(after[i].parent == before[i].parent);
    }
}

/// The depth of a node is the length of its label, plus one for a terminal
/// node.
pub proof fn lemma_depth_label<K, V>(nodes: Seq<Node<K, V>>, i: int)
    requires
        structure_ok(nodes),
        0 <= i < nodes.len(),
    ensures
        depth(nodes, i) == label(nodes, i).len() + (if nodes[i].key is End {
            1nat
        } else {
            0nat
        }),
    decreases i,
{
    assert(links_ok(nodes, i));
    if i > 0 {
        let p = parent_at(nodes, i);
        assert(links_ok(nodes, p));
        lemma_depth_label(nodes, p);
    }
}

/// Two nodes of the same kind with the same label are the same node.
pub proof fn lemma_label_injective<K, V>(nodes: Seq<Node<K, V>>, a: int, b: int)
    requires
        structure_ok(nodes),
        0 <= a < nodes.len(),
        0 <= b < nodes.len(),
        (nodes[a].key is End) == (nodes[b].key is End),
        label(nodes, a) == label(nodes, b),
    ensures
        a == b,
    decreases a,
{
    assert(links_ok(nodes, a));
    assert(links_ok(nodes, b));
    assert(links_ok(nodes, 0));
    if nodes[a].key is End {
        lemma_terminal_label(nodes, a);
        lemma_terminal_label(nodes, b);
        let pa = parent_at(nodes, a);
        let pb = parent_at(nodes, b);
        lemma_label_injective(nodes, pa, pb);
        lemma_same_key_siblings(nodes, pa, a, b);
    } else if a == 0 {
        if b > 0 {
            lemma_inner_key(nodes, b);
            assert(label(nodes, b).len() > 0);
        }
    } else {
        lemma_inner_key(nodes, a);
        if b == 0 {
            assert(label(nodes, a).len() > 0);
        } else {
            lemma_inner_key(nodes, b);
            let pa = parent_at(nodes, a);
            let pb = parent_at(nodes, b);
            let la = label(nodes, pa).push(nodes[a].key->Internal_0);
            let lb = label(nodes, pb).push(nodes[b].key->Internal_0);
            assert(la.last() == lb.last());
            assert(la.drop_last() =~= label(nodes, pa));
            assert(lb.drop_last() =~= label(nodes, pb));
            lemma_label_injective(nodes, pa, pb);
            lemma_same_key_siblings(nodes, pa, a, b);
        }
    }
}

/// Two children of one node with the same key are the same node.
pub proof fn lemma_same_key_siblings<K, V>(nodes: Seq<Node<K, V>>, p: int, a: int, b: int)
    requires
        0 <= p < nodes.len(),
        links_ok(nodes, p),
        has_child(nodes, p, a),
        has_child(nodes, p, b),
        0 <= a < nodes.len(),
        0 <= b < nodes.len(),
        nodes[a].key == nodes[b].key,
    ensures
        a == b,
{
    let siblings = nodes[p].children@;
    let ja = choose|j: int| 0 <= j < siblings.len() && siblings[j] as int == a;
    let jb = choose|j: int| 0 <= j < siblings.len() && siblings[j] as int == b;
    if ja < jb {
        assert(nodes[siblings[ja] as int].key != nodes[siblings[jb] as int].key);
    } else if jb < ja {
        assert(nodes[siblings[jb] as int].key != nodes[siblings[ja] as int].key);
    }
}

/// Every initial part of a node's label is the label of one of its
/// ancestors.
pub proof fn lemma_ancestor_with_label<K, V>(nodes: Seq<Node<K, V>>, m: int, j: int) -> (a: int)
    requires
        structure_ok(nodes),
        0 <= m < nodes.len(),
        0 <= j <= label(nodes, m).len(),
    ensures
        0 <= a <= m,
        !(nodes[a].key is End),
        label(nodes, a) == label(nodes, m).take(j),
        is_ancestor(nodes, a, m),
    decreases m,
{
    assert(links_ok(nodes, m));
    if m == 0 {
        assert(label(nodes, m).take(j) =~= label(nodes, m));
        0
    } else {
        let p = parent_at(nodes, m);
        if nodes[m].key is End {
            lemma_ancestor_with_label(nodes, p, j)
        } else {
            lemma_inner_key(nodes, m);
            if j == label(nodes, m).len() {
                assert(label(nodes, m).take(j) =~= label(nodes, m));
                m
            } else {
                assert(label(nodes, m).take(j) =~= label(nodes, p).take(j));
                lemma_ancestor_with_label(nodes, p, j)
            }
        }
    }
}

/// A node whose label extends the label of `cur` by one symbol is the child
/// of `cur` under that symbol.
pub proof fn lemma_child_by_label<K, V>(nodes: Seq<Node<K, V>>, cur: int, a: int, k: K)
    requires
        structure_ok(nodes),
        0 <= cur < nodes.len(),
        0 <= a < nodes.len(),
        !(nodes[cur].key is End),
        !(nodes[a].key is End),
        label(nodes, a) == label(nodes, cur).push(k),
    ensures
        has_child(nodes, cur, a),
        nodes[a].key == Key::Internal(k),
{
    assert(links_ok(nodes, a));
    assert(links_ok(nodes, 0));
    assert(label(nodes, a).len() > 0);
    lemma_inner_key(nodes, a);
    let pa = parent_at(nodes, a);
    let la = label(nodes, pa).push(nodes[a].key->Internal_0);
    let lc = label(nodes, cur).push(k);
    assert(la.last() == lc.last());
    assert(la.drop_last() =~= label(nodes, pa));
    assert(lc.drop_last() =~= label(nodes, cur));
    lemma_label_injective(nodes, pa, cur);
}

/// A terminal node with the label of `cur` is the terminal child of `cur`.
pub proof fn lemma_terminal_child_by_label<K, V>(nodes: Seq<Node<K, V>>, cur: int, e: int)
    requires
        structure_ok(nodes),
        0 <= cur < nodes.len(),
        !(nodes[cur].key is End),
        is_terminal(nodes, e),
        label(nodes, e) == label(nodes, cur),
    ensures
        has_child(nodes, cur, e),
{
    lemma_terminal_label(nodes, e);
    lemma_label_injective(nodes, parent_at(nodes, e), cur);
}

/// The terminal node of a stored sequence is unique, so the contents map the
/// label of a terminal node to that node's cost.
pub proof fn lemma_terminal_contents<K, V>(nodes: Seq<Node<K, V>>, e: int)
    requires
        structure_ok(nodes),
        is_terminal(nodes, e),
    ensures
        terminal_of(nodes, label(nodes, e)) == e,
        contents(nodes).contains_key(label(nodes, e)),
        contents(nodes)[label(nodes, e)] == cost_of(nodes, e),
{
    let t = terminal_of(nodes, label(nodes, e));
    assert(is_terminal(nodes, t) && label(nodes, t) == label(nodes, e));
    lemma_label_injective(nodes, t, e);
}

/// A stored sequence ends at its terminal node.
pub proof fn lemma_contents_terminal<K, V>(nodes: Seq<Node<K, V>>, word: Seq<K>)
    requires
        structure_ok(nodes),
        contents(nodes).contains_key(word),
    ensures
        is_terminal(nodes, terminal_of(nodes, word)),
        label(nodes, terminal_of(nodes, word)) == word,
        contents(nodes)[word] == cost_of(nodes, terminal_of(nodes, word)),
{
}

/// The cost of a node is no worse than the cost of any node below it.
pub proof fn lemma_ancestor_bounds<K, V: Cost>(nodes: Seq<Node<K, V>>, a: int, m: int)
    requires
        structure_ok(nodes),
        costs_ok(nodes),
        0 <= a < nodes.len(),
        0 <= m < nodes.len(),
        is_ancestor(nodes, a, m),
    ensures
        cost_of(nodes, a).rank() <= cost_of(nodes, m).rank(),
    decreases m,
{
    if a != m {
        let p = parent_at(nodes, m);
        lemma_ancestor_bounds(nodes, a, p);
        assert(links_ok(nodes, m));
        assert(aggregate_ok(nodes, p));
        let siblings = nodes[p].children@;
        let w = choose|w: int| 0 <= w < siblings.len() && siblings[w] as int == m;
        assert(cost_of(nodes, p).rank() <= cost_of(nodes, siblings[w] as int).rank());
    }
}

/// Below every node that is not terminal lies a terminal node of the same
/// rank.
pub proof fn lemma_best_descendant<K, V: Cost>(nodes: Seq<Node<K, V>>, n: int) -> (e: int)
    requires
        structure_ok(nodes),
        costs_ok(nodes),
        0 <= n < nodes.len(),
        !(nodes[n].key is End),
    ensures
        is_terminal(nodes, e),
        is_ancestor(nodes, n, e),
        is_prefix(label(nodes, n), label(nodes, e)),
        cost_of(nodes, e).rank() == cost_of(nodes, n).rank(),
    decreases nodes.len() - n,
{
    assert(aggregate_ok(nodes, n));
    assert(links_ok(nodes, n));
    let siblings = nodes[n].children@;
    let j = choose|j: int|
        0 <= j < siblings.len() && cost_of(nodes, n).rank() == cost_of(
            nodes,
            #[trigger] siblings[j] as int,
        ).rank();
    let c = siblings[j] as int;
    assert(links_ok(nodes, c));
    assert(is_ancestor(nodes, n, n));
    if nodes[c].key is End {
        assert(label(nodes, c).take(label(nodes, n).len() as int) =~= label(nodes, n));
        assert(is_ancestor(nodes, n, c));
        c
    } else {
        lemma_inner_key(nodes, c);
        let e = lemma_best_descendant(nodes, c);
        assert(is_ancestor(nodes, c, c));
        lemma_ancestor_step(nodes, n, c, e);
        assert(label(nodes, e).take(label(nodes, n).len() as int) =~= label(nodes, c).take(
            label(nodes, n).len() as int,
        ));
        assert(label(nodes, c).take(label(nodes, n).len() as int) =~= label(nodes, n));
        e
    }
}

/// Ancestry extends upwards by one link.
pub proof fn lemma_ancestor_step<K, V>(nodes: Seq<Node<K, V>>, p: int, c: int, m: int)
    requires
        0 < c < nodes.len(),
        parent_at(nodes, c) == p,
        0 <= p < c,
        is_ancestor(nodes, c, m),
    ensures
        is_ancestor(nodes, p, m),
    decreases m,
{
    if c != m {
        lemma_ancestor_step(nodes, p, c, parent_at(nodes, m));
    } else {
        assert(is_ancestor(nodes, p, p));
    }
}

} // verus!
