//! The proof obligations of an insertion: how the aggregate costs and the
//! contents of the arena change while a sequence is written into it.

use crate::arena::{
    is_prefix, lemma_ancestor_with_label, lemma_best_descendant, lemma_label_frame,
    lemma_label_injective, lemma_terminal_contents,
};
use crate::lookup::has_extension;
use crate::symbol::{best, Cost};
use crate::trie::{
    aggregate_ok, attained, bounded_below, contents, cost_of, costs_ok, has_child, is_terminal,
    label, links_ok, parent_at, structure_ok, terminal_of, Node,
};
use vstd::prelude::*;

verus! {

/// The contents after `word` was inserted with `cost`: the word is present,
/// with the better of its old cost and the new one.
pub open spec fn inserted<K, V: Cost>(m: Map<Seq<K>, V>, word: Seq<K>, cost: V) -> Map<
    Seq<K>,
    V,
> {
    if m.contains_key(word) {
        m.insert(word, best(m[word], cost))
    } else {
        m.insert(word, cost)
    }
}

/// Whether nothing is stored.
pub open spec fn stores_nothing<K, V>(m: Map<Seq<K>, V>) -> bool {
    forall|word: Seq<K>| !m.contains_key(word)
}

/// The length of the longest beginning of `keys`, not shorter than `j`, that
/// begins a stored sequence, given that the beginning of length `j` does.
pub open spec fn shared_len<K, V>(m: Map<Seq<K>, V>, keys: Seq<K>, j: nat) -> nat
    decreases keys.len() - j,
{
    if j < keys.len() && has_extension(m, keys.take((j + 1) as int)) {
        shared_len(m, keys, j + 1)
    } else {
        j
    }
}

/// The number of nodes that storing `keys` adds: a root where nothing is
/// stored yet, one node for every symbol past the longest beginning that the
/// stored sequences share with `keys`, and a terminal node where `keys` is
/// not stored yet.
pub open spec fn added<K, V>(m: Map<Seq<K>, V>, keys: Seq<K>) -> nat {
    (if stores_nothing(m) {
        1nat
    } else {
        0nat
    }) + (keys.len() - shared_len(m, keys, 0)) as nat + (if m.contains_key(keys) {
        0nat
    } else {
        1nat
    })
}

/// The label of every node that is not terminal begins a stored sequence.
pub proof fn lemma_node_is_known<K, V: Cost>(nodes: Seq<Node<K, V>>, a: int)
    requires
        structure_ok(nodes),
        costs_ok(nodes),
        0 <= a < nodes.len(),
        !(nodes[a].key is End),
    ensures
        has_extension(contents(nodes), label(nodes, a)),
{
    let e = lemma_best_descendant(nodes, a);
    lemma_terminal_contents(nodes, e);
    assert(contents(nodes).contains_key(label(nodes, e)) && is_prefix(
        label(nodes, a),
        label(nodes, e),
    ));
}

/// What begins a stored sequence is the label of a node, also after more
/// nodes were added.
pub proof fn lemma_known_has_node<K, V>(
    before: Seq<Node<K, V>>,
    now: Seq<Node<K, V>>,
    prefix: Seq<K>,
) -> (a: int)
    requires
        structure_ok(before),
        structure_ok(now),
        same_links(before, now),
        has_extension(contents(before), prefix),
    ensures
        0 <= a < before.len(),
        !(now[a].key is End),
        label(now, a) == prefix,
{
    let w = choose|w: Seq<K>| contents(before).contains_key(w) && is_prefix(prefix, w);
    let t = terminal_of(before, w);
    assert(is_terminal(before, t) && label(before, t) == w);
    assert(now[t].key == before[t].key);
    lemma_label_frame(before, now, t);
    lemma_ancestor_with_label(now, t, prefix.len() as int)
}

/// Whether the arena `now` is the arena `before` after an insertion of
/// `value`: every node that was there keeps its index, its key and its
/// parent; its list of children has only grown at the end; and its cost is
/// what it was or the better of that and `value`.
pub open spec fn settled<K, V: Cost>(
    before: Seq<Node<K, V>>,
    now: Seq<Node<K, V>>,
    value: V,
) -> bool {
    &&& before.len() <= now.len()
    &&& forall|n: int|
        0 <= n < before.len() ==> {
            &&& (#[trigger] now[n]).key == before[n].key
            &&& now[n].parent == before[n].parent
            &&& is_prefix(before[n].children@, now[n].children@)
            &&& before[n].min_descendent matches Some(cost) ==> now[n].min_descendent == Some(cost)
                || now[n].min_descendent == Some(best(cost, value))
        }
}

/// A step of an insertion leaves the nodes that were there before the
/// insertion in their places.
pub proof fn lemma_step_settled<K, V: Cost>(
    before: Seq<Node<K, V>>,
    s0: Seq<Node<K, V>>,
    s1: Seq<Node<K, V>>,
    s2: Seq<Node<K, V>>,
    cur: int,
    c: int,
    value: V,
)
    requires
        forall|n: int| 0 <= n < before.len() ==> (#[trigger] before[n]).min_descendent is Some,
        settled(before, s0, value),
        insertion_step(s0, s1, s2, cur, c, value),
        cur != c,
    ensures
        settled(before, s2, value),
{
    assert forall|n: int| 0 <= n < before.len() implies {
        &&& (#[trigger] s2[n]).key == before[n].key
        &&& s2[n].parent == before[n].parent
        &&& is_prefix(before[n].children@, s2[n].children@)
        &&& before[n].min_descendent matches Some(cost) ==> s2[n].min_descendent == Some(cost)
            || s2[n].min_descendent == Some(best(cost, value))
    } by {
        assert(s0[n].key == before[n].key);
        if n == c {
            assert(s1 == s0);
        } else {
            assert(s2[n] == s1[n]);
            if n == cur && c >= s0.len() {
                let old_list = before[n].children@;
                let grown = s1[n].children@;
                assert(grown.take(old_list.len() as int) =~= s0[n].children@.take(
                    old_list.len() as int,
                ));
            } else {
                assert(s1[n] == s0[n]);
            }
        }
    }
}

/// Two arenas agree on the keys and parents of the nodes of the first.
pub open spec fn same_links<K, V>(before: Seq<Node<K, V>>, after: Seq<Node<K, V>>) -> bool {
    &&& before.len() <= after.len()
    &&& forall|n: int|
        0 <= n < before.len() ==> (#[trigger] after[n]).key == before[n].key && after[n].parent
            == before[n].parent
}

/// The aggregate invariant while an insertion of `value` has reached node
/// `cur`: every other node is in order, and `cur` is in order as soon as
/// the next node on the way holds a cost no worse than `value`.
pub open spec fn focus_ok<K, V: Cost>(nodes: Seq<Node<K, V>>, cur: int, value: V) -> bool {
    &&& forall|n: int| 0 <= n < nodes.len() && n != cur ==> #[trigger] aggregate_ok(nodes, n)
    &&& bounded_below(nodes, cur)
    &&& cost_of(nodes, cur).rank() <= value.rank()
    &&& attained(nodes, cur) || cost_of(nodes, cur).rank() == value.rank()
}

/// What one step of an insertion does: `s1` is `s0` with the child `c` of
/// `cur` found or created, and `s2` is `s1` with the cost of `c` lowered to
/// `value`.
pub open spec fn insertion_step<K, V: Cost>(
    s0: Seq<Node<K, V>>,
    s1: Seq<Node<K, V>>,
    s2: Seq<Node<K, V>>,
    cur: int,
    c: int,
    value: V,
) -> bool {
    &&& 0 <= cur < s0.len()
    &&& 0 <= c < s1.len()
    &&& s2.len() == s1.len()
    &&& parent_at(s1, c) == cur
    &&& has_child(s1, cur, c)
    &&& c < s0.len() ==> s1 == s0
    &&& c >= s0.len() ==> {
        &&& c == s0.len()
        &&& s1.len() == s0.len() + 1
        &&& s1[c].children@.len() == 0
        &&& s1[c].min_descendent is None
        &&& s1[cur].children@ == s0[cur].children@.push(c as usize)
        &&& s1[cur].key == s0[cur].key
        &&& s1[cur].parent == s0[cur].parent
        &&& s1[cur].min_descendent == s0[cur].min_descendent
        &&& forall|n: int| 0 <= n < s0.len() && n != cur ==> s1[n] == s0[n]
    }
    &&& forall|n: int| 0 <= n < s1.len() && n != c ==> s2[n] == s1[n]
    &&& s2[c].key == s1[c].key
    &&& s2[c].parent == s1[c].parent
    &&& s2[c].children == s1[c].children
    &&& s2[c].min_descendent == Some(
        match s1[c].min_descendent {
            None => value,
            Some(current) => best(current, value),
        },
    )
}

/// A step of an insertion keeps the links of the earlier nodes.
pub proof fn lemma_step_links<K, V: Cost>(
    s0: Seq<Node<K, V>>,
    s1: Seq<Node<K, V>>,
    s2: Seq<Node<K, V>>,
    cur: int,
    c: int,
    value: V,
)
    requires
        insertion_step(s0, s1, s2, cur, c, value),
    ensures
        same_links(s0, s2),
        same_links(s1, s2),
        forall|n: int|
            0 <= n < s0.len() && n != c ==> (#[trigger] s2[n]).min_descendent
                == s0[n].min_descendent,
{
    assert forall|n: int| 0 <= n < s0.len() implies (#[trigger] s2[n]).key == s0[n].key
        && s2[n].parent == s0[n].parent by {
        if n != c {
            assert(s2[n] == s1[n]);
        }
    }
    assert forall|n: int| 0 <= n < s0.len() && n != c implies (#[trigger] s2[n]).min_descendent
        == s0[n].min_descendent by {
        assert(s2[n] == s1[n]);
    }
}

/// Lowering the cost of one node leaves the links as they are.
pub proof fn lemma_structure_kept<K, V>(s1: Seq<Node<K, V>>, s2: Seq<Node<K, V>>, c: int)
    requires
        structure_ok(s1),
        s2.len() == s1.len(),
        0 <= c < s1.len(),
        forall|n: int| 0 <= n < s1.len() && n != c ==> s2[n] == s1[n],
        s2[c].key == s1[c].key,
        s2[c].parent == s1[c].parent,
        s2[c].children == s1[c].children,
    ensures
        structure_ok(s2),
{
    assert forall|i: int| 0 <= i < s2.len() implies #[trigger] links_ok(s2, i) by {
        assert(links_ok(s1, i));
        assert(s2[i].key == s1[i].key && s2[i].parent == s1[i].parent && s2[i].children
            == s1[i].children);
        if i > 0 {
            let p = parent_at(s1, i);
            assert(s2[p].key == s1[p].key && s2[p].children == s1[p].children);
            let w = choose|w: int|
                0 <= w < s1[p].children@.len() && #[trigger] s1[p].children@[w] as int == i;
            assert(s2[p].children@[w] as int == i);
        }
        assert forall|j: int| 0 <= j < s2[i].children@.len() implies parent_at(
            s2,
            #[trigger] s2[i].children@[j] as int,
        ) == i by {
            let x = s1[i].children@[j] as int;
            assert(parent_at(s1, x) == i);
            assert(s2[x].parent == s1[x].parent);
        }
        assert forall|j: int, k: int| 0 <= j < k < s2[i].children@.len() implies s2[#[trigger] s2[i].children@[j] as int].key
            != s2[#[trigger] s2[i].children@[k] as int].key by {
            let x = s1[i].children@[j] as int;
            let y = s1[i].children@[k] as int;
            assert(s2[x].key == s1[x].key);
            assert(s2[y].key == s1[y].key);
        }
    }
}

/// A step of an insertion moves the focus of the aggregate invariant from
/// `cur` to its child `c`.
pub proof fn lemma_focus_step<K, V: Cost>(
    s0: Seq<Node<K, V>>,
    s1: Seq<Node<K, V>>,
    s2: Seq<Node<K, V>>,
    cur: int,
    c: int,
    value: V,
)
    requires
        structure_ok(s0),
        structure_ok(s1),
        focus_ok(s0, cur, value),
        insertion_step(s0, s1, s2, cur, c, value),
    ensures
        focus_ok(s2, c, value) || (s2[c].key is End && s2[c].children@.len() == 0),
        s2[c].key is End ==> costs_ok(s2),
        forall|n: int| 0 <= n < s2.len() && n != c ==> #[trigger] aggregate_ok(s2, n),
{
    lemma_step_links(s0, s1, s2, cur, c, value);
    assert(links_ok(s1, cur));
    assert(links_ok(s1, c));
    assert(links_ok(s0, cur));
    assert(cur < c);
    let jc = choose|j: int| 0 <= j < s1[cur].children@.len() && #[trigger] s1[cur].children@[j] as int == c;
    // the cost of `c` after the step
    if c < s0.len() {
        assert(aggregate_ok(s0, c));
        assert(cost_of(s0, cur).rank() <= cost_of(s0, s0[cur].children@[jc] as int).rank());
    }
    assert(cost_of(s2, c).rank() <= value.rank());
    assert(cost_of(s2, cur).rank() <= cost_of(s2, c).rank());
    // costs of all nodes but `c` are unchanged
    assert forall|x: int| 0 <= x < s2.len() && x != c implies cost_of(s2, x) == cost_of(s0, x)
        && x < s0.len() by {
        assert(s2[x] == s1[x]);
    }
    // the node `cur`
    assert(aggregate_ok(s2, cur)) by {
        assert(s2[cur] == s1[cur]);
        assert forall|j: int| 0 <= j < s2[cur].children@.len() implies cost_of(s2, cur).rank()
            <= cost_of(s2, #[trigger] s2[cur].children@[j] as int).rank() by {
            let x = s2[cur].children@[j] as int;
            if x != c {
                assert(x == s0[cur].children@[j] as int);
            }
        }
        if attained(s0, cur) {
            let w = choose|w: int|
                0 <= w < s0[cur].children@.len() && cost_of(s0, cur).rank() == cost_of(
                    s0,
                    #[trigger] s0[cur].children@[w] as int,
                ).rank();
            assert(s2[cur].children@[w] == s0[cur].children@[w]);
            let x = s2[cur].children@[w] as int;
            if x == c {
                assert(cost_of(s2, c).rank() == cost_of(s0, c).rank());
            }
            assert(cost_of(s2, cur).rank() == cost_of(s2, s2[cur].children@[w] as int).rank());
        } else {
            assert(cost_of(s2, cur).rank() == cost_of(s2, s2[cur].children@[jc] as int).rank());
        }
        assert(attained(s2, cur));
    }
    // every node other than `cur` and `c`
    assert forall|n: int| 0 <= n < s2.len() && n != c implies #[trigger] aggregate_ok(s2, n) by {
        if n != cur {
            assert(s2[n] == s0[n]);
            assert(aggregate_ok(s0, n));
            assert(links_ok(s0, n));
            assert forall|j: int| 0 <= j < s2[n].children@.len() implies cost_of(s2, #[trigger] s2[n].children@[j] as int)
                == cost_of(s0, s0[n].children@[j] as int) by {
                let x = s0[n].children@[j] as int;
                assert(parent_at(s0, x) == n);
                if x == c {
                    assert(s1 == s0);
                }
            }
            if !(s0[n].key is End) {
                let w = choose|w: int|
                    0 <= w < s0[n].children@.len() && cost_of(s0, n).rank() == cost_of(
                        s0,
                        #[trigger] s0[n].children@[w] as int,
                    ).rank();
                assert(cost_of(s2, n).rank() == cost_of(s2, s2[n].children@[w] as int).rank());
            }
        }
    }
    // the node `c`
    assert(bounded_below(s2, c)) by {
        assert forall|j: int| 0 <= j < s2[c].children@.len() implies cost_of(s2, c).rank()
            <= cost_of(s2, #[trigger] s2[c].children@[j] as int).rank() by {
            let x = s2[c].children@[j] as int;
            assert(s1 == s0);
            assert(c < x);
            assert(cost_of(s0, c).rank() <= cost_of(s0, s0[c].children@[j] as int).rank());
        }
    }
    if !(s2[c].key is End) {
        if cost_of(s2, c).rank() != value.rank() {
            assert(c < s0.len());
            assert(attained(s0, c));
            let w = choose|w: int|
                0 <= w < s0[c].children@.len() && cost_of(s0, c).rank() == cost_of(
                    s0,
                    #[trigger] s0[c].children@[w] as int,
                ).rank();
            assert(c < s0[c].children@[w]);
            assert(cost_of(s2, c).rank() == cost_of(s2, s2[c].children@[w] as int).rank());
            assert(attained(s2, c));
        }
    } else {
        assert(aggregate_ok(s2, c));
    }
}

/// The contents after an insertion that ended at the terminal node `e`.
pub proof fn lemma_push_contents<K, V: Cost>(
    before: Seq<Node<K, V>>,
    now: Seq<Node<K, V>>,
    keys: Seq<K>,
    e: int,
    value: V,
)
    requires
        structure_ok(before),
        structure_ok(now),
        same_links(before, now),
        forall|n: int|
            0 <= n < before.len() && n != e && before[n].key is End ==> (#[trigger] now[n]).min_descendent
                == before[n].min_descendent,
        forall|n: int| before.len() <= n < now.len() && n != e ==> !((#[trigger] now[n]).key is End),
        is_terminal(now, e),
        label(now, e) == keys,
        e < before.len() ==> cost_of(now, e) == best(cost_of(before, e), value),
        e >= before.len() ==> cost_of(now, e) == value,
    ensures
        contents(now) =~= inserted(contents(before), keys, value),
{
    let target = inserted(contents(before), keys, value);
    assert forall|t: int| is_terminal(before, t) implies is_terminal(now, t) && label(now, t)
        == label(before, t) by {
        assert(now[t].key == before[t].key);
        lemma_label_frame(before, now, t);
    }
    assert forall|t: int| is_terminal(now, t) && t != e implies is_terminal(before, t) && label(
        now,
        t,
    ) == label(before, t) by {
        if t >= before.len() {
            assert(!(now[t].key is End));
        }
        assert(now[t].key == before[t].key);
        lemma_label_frame(before, now, t);
    }
    lemma_terminal_contents(now, e);
    assert forall|w: Seq<K>| contents(now).contains_key(w) <==> target.contains_key(w) by {
        if contents(now).contains_key(w) {
            let t = terminal_of(now, w);
            if t != e {
                assert(is_terminal(before, t) && label(before, t) == w);
            }
        }
        if contents(before).contains_key(w) {
            let t = terminal_of(before, w);
            assert(is_terminal(now, t) && label(now, t) == w);
        }
    }
    assert forall|w: Seq<K>| contents(now).contains_key(w) implies contents(now)[w] == target[w] by {
        if w == keys {
            if contents(before).contains_key(keys) {
                let t = terminal_of(before, keys);
                assert(is_terminal(now, t) && label(now, t) == keys);
                lemma_label_injective(now, t, e);
            } else {
                if e < before.len() {
                    assert(now[e].key == before[e].key);
                    lemma_label_frame(before, now, e);
                    assert(is_terminal(before, e) && label(before, e) == keys);
                }
            }
        } else {
            let t = terminal_of(before, w);
            assert(is_terminal(before, t) && label(before, t) == w);
            assert(is_terminal(now, t) && label(now, t) == w);
            lemma_terminal_contents(now, t);
            assert(now[t].min_descendent == before[t].min_descendent);
        }
    }
}

} // verus!
