//! The arena-backed trie: nodes live in one flat table and refer to each
//! other by index.

use crate::arena::{
    is_prefix, lemma_ancestor_bounds, lemma_ancestor_with_label, lemma_best_descendant,
    lemma_child_by_label, lemma_inner_key, lemma_label_frame, lemma_label_injective,
    lemma_terminal_child_by_label, lemma_terminal_contents, lemma_terminal_label,
};
use crate::lookup::{has_extension, lookup_ref, QueryResult};
use crate::insertion::{
    added, focus_ok, inserted, insertion_step, lemma_focus_step, lemma_known_has_node,
    lemma_node_is_known, lemma_push_contents, lemma_step_links, lemma_step_settled,
    lemma_structure_kept, same_links, settled, shared_len, stores_nothing,
};
use crate::key::Key;
use crate::symbol::{best, Cost, Symbol};
use vstd::prelude::*;

verus! {

/// One node of the arena.
pub struct Node<K, V> {
    pub key: Key<K>,
    /// The best cost among the complete sequences below this node.
    pub min_descendent: Option<V>,
    pub children: Vec<usize>,
    /// `None` only for the root.
    pub parent: Option<usize>,
}

/// A trie over sequences of `K` that keeps, for every stored sequence, the
/// best cost it was inserted with.
pub struct Trie<K, V> {
    nodes: Vec<Node<K, V>>,
}

impl<K, V> Node<K, V> {
    /// A node without children and without a cost.
    pub fn new(parent: Option<usize>, key: Key<K>) -> (node: Self)
        ensures
            node.key == key,
            node.parent == parent,
            node.min_descendent is None,
            node.children@ == Seq::<usize>::empty(),
    {
        Node { children: Vec::new(), min_descendent: None, parent, key }
    }

    /// The key of the node.
    pub fn key(&self) -> (key: &Key<K>)
        ensures
            *key == self.key,
    {
        &self.key
    }

    /// The aggregate cost of the node, if it has one.
    pub fn value(&self) -> (value: Option<&V>)
        ensures
            value == match self.min_descendent {
                Some(v) => Some(&v),
                None => None::<&V>,
            },
    {
        match &self.min_descendent {
            Some(v) => Some(v),
            None => None,
        }
    }

    /// The index of the parent of the node; the root has none.
    pub fn parent(&self) -> (parent: Option<usize>)
        ensures
            parent == self.parent,
    {
        self.parent
    }

    /// The indices of the children of the node, in storage order.
    pub fn child_indices(&self) -> (children: &[usize])
        ensures
            children@ == self.children@,
    {
        self.children.as_slice()
    }
}

/// The index of a node's parent, or `-1` for a node without one.
pub open spec fn parent_at<K, V>(nodes: Seq<Node<K, V>>, i: int) -> int {
    match nodes[i].parent {
        Some(p) => p as int,
        None => -1,
    }
}

/// The symbols on the way from the root to node `i`, sentinels left out.
pub open spec fn label<K, V>(nodes: Seq<Node<K, V>>, i: int) -> Seq<K>
    decreases i,
{
    if 0 < i < nodes.len() && 0 <= parent_at(nodes, i) < i {
        let up = label(nodes, parent_at(nodes, i));
        match nodes[i].key {
            Key::Internal(k) => up.push(k),
            _ => up,
        }
    } else {
        Seq::empty()
    }
}

/// The number of steps from the root to node `i`.
pub open spec fn depth<K, V>(nodes: Seq<Node<K, V>>, i: int) -> nat
    decreases i,
{
    if 0 < i < nodes.len() && 0 <= parent_at(nodes, i) < i {
        1 + depth(nodes, parent_at(nodes, i))
    } else {
        0
    }
}

/// Whether node `i` marks the end of a complete sequence.
pub open spec fn is_terminal<K, V>(nodes: Seq<Node<K, V>>, i: int) -> bool {
    0 <= i < nodes.len() && nodes[i].key is End
}

/// The aggregate cost of node `i`.
pub open spec fn cost_of<K, V>(nodes: Seq<Node<K, V>>, i: int) -> V {
    nodes[i].min_descendent->0
}

/// Whether `c` is listed among the children of `p`.
pub open spec fn has_child<K, V>(nodes: Seq<Node<K, V>>, p: int, c: int) -> bool {
    exists|j: int| 0 <= j < nodes[p].children@.len() && #[trigger] nodes[p].children@[j] as int == c
}

/// The links of node `i` are consistent: parents come before children, the
/// sentinels sit where they belong, and siblings have distinct keys.
pub open spec fn links_ok<K, V>(nodes: Seq<Node<K, V>>, i: int) -> bool {
    let n = nodes[i];
    &&& i == 0 ==> n.key is Start && n.parent is None
    &&& i > 0 ==> {
        &&& n.parent is Some
        &&& parent_at(nodes, i) < i
        &&& !(n.key is Start)
        &&& !(nodes[parent_at(nodes, i)].key is End)
        &&& has_child(nodes, parent_at(nodes, i), i)
    }
    &&& n.key is End ==> n.children@.len() == 0
    &&& forall|j: int|
        0 <= j < n.children@.len() ==> {
            &&& i < #[trigger] n.children@[j] < nodes.len()
            &&& parent_at(nodes, n.children@[j] as int) == i
        }
    &&& forall|j: int, k: int|
        0 <= j < k < n.children@.len() ==> nodes[#[trigger] n.children@[j] as int].key
            != nodes[#[trigger] n.children@[k] as int].key
}

/// The arena is a tree rooted at index 0.
pub open spec fn structure_ok<K, V>(nodes: Seq<Node<K, V>>) -> bool {
    forall|i: int| 0 <= i < nodes.len() ==> #[trigger] links_ok(nodes, i)
}

/// Node `i` has a cost that bounds the costs of its children from below.
pub open spec fn bounded_below<K, V: Cost>(nodes: Seq<Node<K, V>>, i: int) -> bool {
    let n = nodes[i];
    &&& n.min_descendent is Some
    &&& forall|j: int|
        0 <= j < n.children@.len() ==> cost_of(nodes, i).rank() <= cost_of(
            nodes,
            #[trigger] n.children@[j] as int,
        ).rank()
}

/// Some child of node `i` has the same rank as the node itself.
pub open spec fn attained<K, V: Cost>(nodes: Seq<Node<K, V>>, i: int) -> bool {
    exists|j: int|
        0 <= j < nodes[i].children@.len() && cost_of(nodes, i).rank() == cost_of(
            nodes,
            #[trigger] nodes[i].children@[j] as int,
        ).rank()
}

/// The aggregate of node `i` is the best rank among its children.
pub open spec fn aggregate_ok<K, V: Cost>(nodes: Seq<Node<K, V>>, i: int) -> bool {
    &&& bounded_below(nodes, i)
    &&& !(nodes[i].key is End) ==> attained(nodes, i)
}

/// Every node carries the best rank of its subtree.
pub open spec fn costs_ok<K, V: Cost>(nodes: Seq<Node<K, V>>) -> bool {
    forall|i: int| 0 <= i < nodes.len() ==> #[trigger] aggregate_ok(nodes, i)
}

/// The node at which the sequence `word` ends.
pub open spec fn terminal_of<K, V>(nodes: Seq<Node<K, V>>, word: Seq<K>) -> int {
    choose|e: int| is_terminal(nodes, e) && label(nodes, e) == word
}

/// The stored sequences with their costs.
pub open spec fn contents<K, V>(nodes: Seq<Node<K, V>>) -> Map<Seq<K>, V> {
    Map::new(
        |word: Seq<K>| exists|e: int| is_terminal(nodes, e) && label(nodes, e) == word,
        |word: Seq<K>| cost_of(nodes, terminal_of(nodes, word)),
    )
}

impl<K: Symbol, V: Cost> View for Trie<K, V> {
    type V = Map<Seq<K>, V>;

    closed spec fn view(&self) -> Map<Seq<K>, V> {
        contents(self.nodes@)
    }
}

impl<K: Symbol, V: Cost> Trie<K, V> {
    /// The invariant of the arena.
    pub closed spec fn wf(&self) -> bool {
        &&& structure_ok(self.nodes@)
        &&& costs_ok(self.nodes@)
    }

    /// The invariant of the arena, spelled out.
    pub proof fn wf_unfold(&self)
        requires
            self.wf(),
        ensures
            structure_ok(self.arena()),
            costs_ok(self.arena()),
            self@ == contents(self.arena()),
    {
    }

    /// The node count is the length of the arena.
    pub proof fn node_count_is_len(&self)
        ensures
            self.spec_node_count() == self.arena().len(),
    {
    }

    /// The nodes of the arena, in the order they were created.
    pub closed spec fn arena(&self) -> Seq<Node<K, V>> {
        self.nodes@
    }

    /// The number of nodes in the arena.
    pub closed spec fn spec_node_count(&self) -> usize {
        self.nodes.len()
    }

    /// An empty trie: no nodes, not even a root.
    pub fn new() -> (trie: Self)
        ensures
            trie.wf(),
            trie@ == Map::<Seq<K>, V>::empty(),
            trie.spec_node_count() == 0,
    {
        let trie = Trie { nodes: Vec::new() };
        assert(trie@ =~= Map::<Seq<K>, V>::empty());
        trie
    }

    /// The root of the trie, if anything is stored.
    pub fn root(&self) -> (root: Option<&Node<K, V>>)
        ensures
            root == if self.arena().len() > 0 {
                Some(&self.arena()[0])
            } else {
                None::<&Node<K, V>>
            },
    {
        if self.nodes.len() > 0 {
            Some(&self.nodes[0])
        } else {
            None
        }
    }

    /// The number of nodes in the arena.
    #[verifier::when_used_as_spec(spec_node_count)]
    pub fn node_count(&self) -> (n: usize)
        ensures
            n == self.spec_node_count(),
    {
        self.nodes.len()
    }

    /// Stores the sequence `keys` with the cost `value`. A sequence that is
    /// already stored keeps the better of its two costs, and the nodes that
    /// stored sequences share with `keys` are reused.
    pub fn push(&mut self, keys: &[K], value: V)
        requires
            old(self).wf(),
        ensures
            final(self).wf(),
            final(self)@ == inserted(old(self)@, keys@, value),
            final(self).node_count() == old(self).node_count() + added(old(self)@, keys@),
            settled(old(self).arena(), final(self).arena(), value),
    {
        let ghost before = self.nodes@;
        let ghost stored = contents(before);
        if self.nodes.is_empty() {
            self.nodes.push(Node::new(None, Key::Start));
        }
        let ghost rooted = self.nodes@;
        self.update_min_descendent(0, &value);
        let mut current_index: usize = 0;
        proof {
            let now = self.nodes@;
            assert(structure_ok(rooted)) by {
                if before.len() == 0 {
                    assert(links_ok(rooted, 0));
                }
            }
            lemma_structure_kept(rooted, now, 0);
            assert(links_ok(now, 0));
            assert forall|n: int| 0 <= n < now.len() && n != 0 implies #[trigger] aggregate_ok(
                now,
                n,
            ) by {
                assert(now[n] == before[n]);
                assert(aggregate_ok(before, n));
                assert(links_ok(before, n));
                assert forall|j: int| 0 <= j < now[n].children@.len() implies cost_of(
                    now,
                    #[trigger] now[n].children@[j] as int,
                ) == cost_of(before, before[n].children@[j] as int) by {}
                if !(before[n].key is End) {
                    let w = choose|w: int|
                        0 <= w < before[n].children@.len() && cost_of(before, n).rank() == cost_of(
                            before,
                            #[trigger] before[n].children@[w] as int,
                        ).rank();
                    assert(cost_of(now, n).rank() == cost_of(now, now[n].children@[w] as int).rank());
                }
            }
            if before.len() > 0 {
                assert(aggregate_ok(before, 0));
                assert(links_ok(before, 0));
                assert forall|j: int| 0 <= j < now[0].children@.len() implies cost_of(now, 0).rank()
                    <= cost_of(now, #[trigger] now[0].children@[j] as int).rank() by {
                    assert(cost_of(before, 0).rank() <= cost_of(
                        before,
                        before[0].children@[j] as int,
                    ).rank());
                }
                if cost_of(now, 0).rank() != value.rank() {
                    let w = choose|w: int|
                        0 <= w < before[0].children@.len() && cost_of(before, 0).rank() == cost_of(
                            before,
                            #[trigger] before[0].children@[w] as int,
                        ).rank();
                    assert(cost_of(now, 0).rank() == cost_of(now, now[0].children@[w] as int).rank());
                }
            }
            assert(keys@.take(0) =~= Seq::<K>::empty());
            if before.len() > 0 {
                lemma_node_is_known(before, 0);
            }
            assert forall|n: int| 0 <= n < before.len() implies is_prefix(
                before[n].children@,
                (#[trigger] now[n]).children@,
            ) by {
                assert(now[n].children == before[n].children);
                assert(before[n].children@.take(before[n].children@.len() as int)
                    =~= before[n].children@);
            }
        }
        let ghost mut fresh: bool = before.len() == 0;
        let ghost mut shared: int = 0;
        let mut i: usize = 0;
        while i < keys.len()
            invariant
                i <= keys.len(),
                stored == contents(before),
                costs_ok(before),
                stores_nothing(stored) == (before.len() == 0),
                0 <= shared <= i,
                self.nodes@.len() == rooted.len() + (i - shared),
                rooted.len() == before.len() + (if before.len() == 0 {
                    1int
                } else {
                    0int
                }),
                fresh ==> {
                    &&& self.nodes@[current_index as int].children@.len() == 0
                    &&& shared_len(stored, keys@, 0) == shared
                    &&& (before.len() == 0 || shared < i)
                },
                !fresh ==> {
                    &&& shared == i
                    &&& current_index < before.len()
                    &&& shared_len(stored, keys@, 0) == shared_len(stored, keys@, i as nat)
                },
                structure_ok(before),
                structure_ok(self.nodes@),
                same_links(before, self.nodes@),
                settled(before, self.nodes@, value),
                before.len() == 0 ==> self.nodes@.len() >= 1,
                current_index < self.nodes@.len(),
                !(self.nodes@[current_index as int].key is End),
                label(self.nodes@, current_index as int) == keys@.take(i as int),
                focus_ok(self.nodes@, current_index as int, value),
                forall|n: int|
                    0 <= n < before.len() && before[n].key is End ==> (#[trigger] self.nodes@[n]).min_descendent
                        == before[n].min_descendent,
                forall|n: int|
                    before.len() <= n < self.nodes@.len() ==> !((#[trigger] self.nodes@[n]).key is End),
                contents(before).contains_key(keys@) ==> self.nodes@.len() == before.len(),
            decreases keys.len() - i,
        {
            let ghost s0 = self.nodes@;
            let ghost cur = current_index as int;
            let key = keys[i].duplicate();
            let child = self.get_or_create_child_index(current_index, Key::Internal(key));
            let ghost s1 = self.nodes@;
            self.update_min_descendent(child, &value);
            proof {
                let s2 = self.nodes@;
                let c = child as int;
                assert(insertion_step(s0, s1, s2, cur, c, value));
                lemma_structure_kept(s1, s2, c);
                lemma_step_links(s0, s1, s2, cur, c, value);
                assert(links_ok(s1, c));
                assert forall|n: int| 0 <= n < before.len() implies (#[trigger] before[n]).min_descendent is Some by {
                    assert(aggregate_ok(before, n));
                }
                lemma_step_settled(before, s0, s1, s2, cur, c, value);
                lemma_focus_step(s0, s1, s2, cur, c, value);
                assert(links_ok(s2, c));
                lemma_label_frame(s0, s2, cur);
                assert(keys@.take(i as int).push(key) =~= keys@.take(i + 1));
                assert forall|n: int| 0 <= n < before.len() && before[n].key is End implies (
                #[trigger] s2[n]).min_descendent == before[n].min_descendent by {
                    assert(s0[n].key == before[n].key);
                }
                if c >= s0.len() && contents(before).contains_key(keys@) {
                    let m = terminal_of(before, keys@);
                    assert(is_terminal(before, m) && label(before, m) == keys@);
                    assert(s0[m].key == before[m].key);
                    lemma_label_frame(before, s0, m);
                    let a = lemma_ancestor_with_label(s0, m, i + 1);
                    assert(keys@.take(i + 1) =~= label(s0, cur).push(key));
                    lemma_child_by_label(s0, cur, a, key);
                    assert(false);
                }
                // how many nodes the step has added
                if fresh {
                    assert(links_ok(s0, cur));
                    assert(c >= s0.len());
                } else if c < s0.len() {
                    lemma_label_frame(before, s2, c);
                    assert(before[c].key == s2[c].key);
                    lemma_node_is_known(before, c);
                    shared = i + 1;
                } else {
                    if has_extension(stored, keys@.take(i + 1)) {
                        let a = lemma_known_has_node(before, s0, keys@.take(i + 1));
                        assert(keys@.take(i + 1) =~= label(s0, cur).push(key));
                        lemma_child_by_label(s0, cur, a, key);
                        assert(false);
                    }
                    fresh = true;
                }
            }
            current_index = child;
            i += 1;
        }
        let ghost s0 = self.nodes@;
        let ghost cur = current_index as int;
        let terminal = self.get_or_create_child_index(current_index, Key::End);
        let ghost s1 = self.nodes@;
        self.update_min_descendent(terminal, &value);
        proof {
            let s2 = self.nodes@;
            let e = terminal as int;
            assert(insertion_step(s0, s1, s2, cur, e, value));
            lemma_structure_kept(s1, s2, e);
            lemma_step_links(s0, s1, s2, cur, e, value);
            assert(links_ok(s1, e));
            assert forall|n: int| 0 <= n < before.len() implies (#[trigger] before[n]).min_descendent is Some by {
                assert(aggregate_ok(before, n));
            }
            lemma_step_settled(before, s0, s1, s2, cur, e, value);
            lemma_focus_step(s0, s1, s2, cur, e, value);
            assert(links_ok(s2, e));
            lemma_label_frame(s0, s2, cur);
            assert(keys@.take(keys@.len() as int) =~= keys@);
            assert(label(s2, e) == keys@);
            if e >= s0.len() && contents(before).contains_key(keys@) {
                let m = terminal_of(before, keys@);
                assert(is_terminal(before, m) && label(before, m) == keys@);
                assert(s0[m].key == before[m].key);
                lemma_label_frame(before, s0, m);
                lemma_terminal_child_by_label(s0, cur, m);
                assert(false);
            }
            assert forall|n: int|
                0 <= n < before.len() && n != e && before[n].key is End implies (#[trigger] s2[n]).min_descendent
                == before[n].min_descendent by {
                assert(s0[n].key == before[n].key);
            }
            if e < before.len() {
                assert(s0[e].key == before[e].key);
                assert(s0[e].min_descendent == before[e].min_descendent);
                assert(aggregate_ok(before, e));
            }
            lemma_push_contents(before, s2, keys@, e, value);
            // how many nodes the insertion has added
            assert(shared_len(stored, keys@, 0) == shared);
            if fresh {
                assert(links_ok(s0, cur));
                assert(e >= s0.len());
            } else if e < s0.len() {
                assert(s0[e].key == before[e].key);
                lemma_label_frame(before, s2, e);
                assert(is_terminal(before, e) && label(before, e) == keys@);
            }
        }
    }

    /// The best cost of any stored sequence: the aggregate of the root.
    /// `None` if nothing is stored.
    pub fn best_cost(&self) -> (found: Option<&V>)
        requires
            self.wf(),
        ensures
            found is None <==> stores_nothing(self@),
            found is Some ==> {
                &&& exists|word: Seq<K>|
                    self@.contains_key(word) && (#[trigger] self@[word]).rank() == found->0.rank()
                &&& forall|word: Seq<K>|
                    self@.contains_key(word) ==> found->0.rank() <= (#[trigger] self@[word]).rank()
            },
    {
        if self.nodes.is_empty() {
            return None;
        }
        let ghost nodes = self.nodes@;
        proof {
            assert(aggregate_ok(nodes, 0));
            assert(links_ok(nodes, 0));
            let e = lemma_best_descendant(nodes, 0);
            lemma_terminal_contents(nodes, e);
            assert(self@.contains_key(label(nodes, e)) && self@[label(nodes, e)].rank() == cost_of(
                nodes,
                0,
            ).rank());
            assert forall|word: Seq<K>| self@.contains_key(word) implies cost_of(nodes, 0).rank() <= (
            #[trigger] self@[word]).rank() by {
                let t = terminal_of(nodes, word);
                let a = lemma_ancestor_with_label(nodes, t, 0);
                assert(label(nodes, t).take(0) =~= label(nodes, 0));
                lemma_label_injective(nodes, a, 0);
                lemma_ancestor_bounds(nodes, 0, t);
            }
        }
        match &self.nodes[0].min_descendent {
            Some(v) => Some(v),
            None => None,
        }
    }

    /// The cost that `keys` is stored with, if it is stored.
    pub fn get(&self, keys: &[K]) -> (found: Option<&V>)
        requires
            self.wf(),
        ensures
            found == if self@.contains_key(keys@) {
                Some(&self@[keys@])
            } else {
                None
            },
    {
        match self.query(keys) {
            QueryResult::Value(v) => Some(v),
            _ => None,
        }
    }

    /// Whether `keys` is a stored sequence, only the beginning of one, or
    /// unknown. An empty trie knows nothing, not even the empty prefix.
    pub fn query(&self, keys: &[K]) -> (result: QueryResult<&V>)
        requires
            self.wf(),
        ensures
            result == lookup_ref(self@, keys@),
    {
        let ghost nodes = self.nodes@;
        match self.get_node_index(keys) {
            None => {
                proof {
                    if has_extension(self@, keys@) {
                        let w = choose|w: Seq<K>| self@.contains_key(w) && is_prefix(keys@, w);
                        let t = terminal_of(nodes, w);
                        let a = lemma_ancestor_with_label(nodes, t, keys@.len() as int);
                        assert(false);
                    }
                    if self@.contains_key(keys@) {
                        assert(keys@.take(keys@.len() as int) =~= keys@);
                        assert(is_prefix(keys@, keys@));
                    }
                }
                QueryResult::NotFound
            },
            Some(index) => {
                assert(links_ok(nodes, index as int));
                match self.get_child_index(index, &Key::End) {
                    Some(terminal) => {
                        proof {
                            assert(aggregate_ok(nodes, terminal as int));
                            let siblings = nodes[index as int].children@;
                            let w = choose|w: int|
                                0 <= w < siblings.len() && #[trigger] siblings[w] as int
                                    == terminal;
                            assert(parent_at(nodes, siblings[w] as int) == index);
                            lemma_terminal_label(nodes, terminal as int);
                            lemma_terminal_contents(nodes, terminal as int);
                        }
                        match &self.nodes[terminal].min_descendent {
                            Some(v) => QueryResult::Value(v),
                            None => QueryResult::NotFound,
                        }
                    },
                    None => {
                        proof {
                            if self@.contains_key(keys@) {
                                let t = terminal_of(nodes, keys@);
                                lemma_terminal_child_by_label(nodes, index as int, t);
                                let w = choose|w: int|
                                    0 <= w < nodes[index as int].children@.len()
                                        && #[trigger] nodes[index as int].children@[w] as int == t;
                                assert(false);
                            }
                            let e = lemma_best_descendant(nodes, index as int);
                            lemma_terminal_contents(nodes, e);
                            assert(self@.contains_key(label(nodes, e)) && is_prefix(
                                keys@,
                                label(nodes, e),
                            ));
                        }
                        QueryResult::Prefix
                    },
                }
            },
        }
    }

    /// The node that the symbols `keys` lead to from the root, if there is
    /// one.
    pub(crate) fn get_node_index(&self, keys: &[K]) -> (found: Option<usize>)
        requires
            structure_ok(self.arena()),
        ensures
            match found {
                Some(n) => {
                    &&& n < self.arena().len()
                    &&& !(self.arena()[n as int].key is End)
                    &&& label(self.arena(), n as int) == keys@
                },
                None => forall|n: int|
                    0 <= n < self.arena().len() && !(self.arena()[n].key is End) ==> #[trigger] label(
                        self.arena(),
                        n,
                    ) != keys@,
            },
    {
        if self.nodes.is_empty() {
            return None;
        }
        let ghost nodes = self.nodes@;
        let mut current_index: usize = 0;
        let mut i: usize = 0;
        proof {
            assert(links_ok(nodes, 0));
            assert(keys@.take(0) =~= Seq::<K>::empty());
        }
        while i < keys.len()
            invariant
                nodes == self.nodes@,
                structure_ok(nodes),
                i <= keys.len(),
                current_index < nodes.len(),
                !(nodes[current_index as int].key is End),
                label(nodes, current_index as int) == keys@.take(i as int),
            decreases keys.len() - i,
        {
            assert(links_ok(nodes, current_index as int));
            let key = Key::Internal(keys[i].duplicate());
            match self.get_child_index(current_index, &key) {
                Some(child_index) => {
                    proof {
                        let siblings = nodes[current_index as int].children@;
                        let w = choose|w: int|
                            0 <= w < siblings.len() && #[trigger] siblings[w] as int == child_index;
                        assert(parent_at(nodes, siblings[w] as int) == current_index);
                        assert(links_ok(nodes, child_index as int));
                        lemma_inner_key(nodes, child_index as int);
                        assert(keys@.take(i as int).push(keys@[i as int]) =~= keys@.take(i + 1));
                    }
                    current_index = child_index;
                },
                None => {
                    proof {
                        assert forall|n: int|
                            0 <= n < nodes.len() && !(nodes[n].key is End) implies #[trigger] label(
                            nodes,
                            n,
                        ) != keys@ by {
                            if label(nodes, n) == keys@ {
                                let a = lemma_ancestor_with_label(nodes, n, i + 1);
                                assert(keys@.take(i + 1) =~= label(
                                    nodes,
                                    current_index as int,
                                ).push(keys@[i as int]));
                                lemma_child_by_label(nodes, current_index as int, a, keys@[i as int]);
                                let w = choose|w: int|
                                    0 <= w < nodes[current_index as int].children@.len()
                                        && #[trigger] nodes[current_index as int].children@[w] as int
                                        == a;
                                assert(false);
                            }
                        }
                    }
                    return None;
                },
            }
            i += 1;
        }
        assert(keys@.take(keys@.len() as int) =~= keys@);
        Some(current_index)
    }

    /// The index of the child of `parent_index` with the given key, if any.
    pub(crate) fn get_child_index(&self, parent_index: usize, child_key: &Key<K>) -> (found: Option<
        usize,
    >)
        requires
            parent_index < self.arena().len(),
            links_ok(self.arena(), parent_index as int),
        ensures
            match found {
                Some(c) => {
                    &&& has_child(self.arena(), parent_index as int, c as int)
                    &&& c < self.arena().len()
                    &&& self.arena()[c as int].key == *child_key
                },
                None => forall|j: int|
                    0 <= j < self.arena()[parent_index as int].children@.len()
                        ==> self.arena()[#[trigger] self.arena()[parent_index as int].children@[j] as int].key
                        != *child_key,
            },
    {
        let children = &self.nodes[parent_index].children;
        let mut j: usize = 0;
        while j < children.len()
            invariant
                parent_index < self.nodes@.len(),
                children == &self.nodes@[parent_index as int].children,
                links_ok(self.nodes@, parent_index as int),
                j <= children.len(),
                forall|k: int|
                    0 <= k < j ==> self.nodes@[#[trigger] children@[k] as int].key != *child_key,
            decreases children.len() - j,
        {
            let c = children[j];
            if self.nodes[c].key.same(child_key) {
                return Some(c);
            }
            j += 1;
        }
        None
    }

    /// The index of the child of `parent_index` with the given key; the child
    /// is created, without a cost, if there is none yet.
    pub(crate) fn get_or_create_child_index(&mut self, parent_index: usize, child_key: Key<K>) -> (child:
        usize)
        requires
            structure_ok(old(self).arena()),
            parent_index < old(self).arena().len(),
            !(child_key is Start),
            !(old(self).arena()[parent_index as int].key is End),
        ensures
            structure_ok(final(self).arena()),
            child < final(self).arena().len(),
            final(self).arena()[child as int].key == child_key,
            final(self).arena()[child as int].parent == Some(parent_index),
            has_child(final(self).arena(), parent_index as int, child as int),
            child < old(self).arena().len() ==> final(self).arena() == old(self).arena(),
            child >= old(self).arena().len() ==> {
                &&& child == old(self).arena().len()
                &&& final(self).arena().len() == old(self).arena().len() + 1
                &&& forall|j: int|
                    0 <= j < old(self).arena()[parent_index as int].children@.len() ==> old(self).arena()[#[trigger] old(self).arena()[parent_index as int].children@[j] as int].key
                        != child_key
                &&& final(self).arena()[child as int].children@.len() == 0
                &&& final(self).arena()[child as int].min_descendent is None
                &&& final(self).arena()[parent_index as int].children@ == old(self).arena()[parent_index as int].children@.push(child)
                &&& final(self).arena()[parent_index as int].key == old(self).arena()[parent_index as int].key
                &&& final(self).arena()[parent_index as int].parent == old(self).arena()[parent_index as int].parent
                &&& final(self).arena()[parent_index as int].min_descendent == old(self).arena()[parent_index as int].min_descendent
                &&& forall|n: int|
                    0 <= n < old(self).arena().len() && n != parent_index ==> final(self).arena()[n] == old(self).arena()[n]
            },
    {
        let maybe_index = self.get_child_index(parent_index, &child_key);
        match maybe_index {
            Some(index) => {
                proof {
                    let siblings = self.nodes@[parent_index as int].children@;
                    let w = choose|w: int| 0 <= w < siblings.len() && siblings[w] as int == index;
                    assert(links_ok(self.nodes@, parent_index as int));
                    assert(parent_at(self.nodes@, siblings[w] as int) == parent_index);
                }
                index
            },
            None => {
                let child = Node::new(Some(parent_index), child_key);
                self.nodes.push(child);
                let child_index = self.nodes.len() - 1;
                self.nodes[parent_index].children.push(child_index);
                proof {
                    let before = old(self).nodes@;
                    let after = self.nodes@;
                    assert(after[parent_index as int].children@.last() == child_index);
                    assert forall|i: int| 0 <= i < after.len() implies #[trigger] links_ok(
                        after,
                        i,
                    ) by {
                        if i < before.len() {
                            assert(links_ok(before, i));
                            if i > 0 {
                                let p = parent_at(before, i);
                                assert(has_child(before, p, i));
                                let w = choose|w: int|
                                    0 <= w < before[p].children@.len() && before[p].children@[w] as int
                                        == i;
                                assert(after[p].children@[w] as int == i);
                            }
                        } else {
                            assert(after[parent_index as int].children@[after[parent_index as int].children@.len()
                                - 1] as int == i);
                        }
                    }
                }
                child_index
            },
        }
    }

    /// Lowers the cost of a node to `value` where `value` is better than
    /// what the node holds, or where it holds nothing yet.
    pub(crate) fn update_min_descendent(&mut self, index_to_update: usize, value: &V)
        requires
            index_to_update < old(self).arena().len(),
        ensures
            final(self).arena().len() == old(self).arena().len(),
            forall|n: int|
                0 <= n < old(self).arena().len() && n != index_to_update ==> final(self).arena()[n]
                    == old(self).arena()[n],
            final(self).arena()[index_to_update as int].key == old(self).arena()[index_to_update as int].key,
            final(self).arena()[index_to_update as int].parent == old(self).arena()[index_to_update as int].parent,
            final(self).arena()[index_to_update as int].children == old(self).arena()[index_to_update as int].children,
            final(self).arena()[index_to_update as int].min_descendent == Some(
                match old(self).arena()[index_to_update as int].min_descendent {
                    None => *value,
                    Some(current) => best(current, *value),
                },
            ),
    {
        let replace = match &self.nodes[index_to_update].min_descendent {
            None => true,
            Some(current_value) => value.cheaper_than(current_value),
        };
        if replace {
            self.nodes[index_to_update].min_descendent = Some(value.duplicate());
        }
    }

    /// The keys of the nodes, in the order the nodes were created.
    pub fn node_keys(&self) -> (keys: Vec<Key<K>>)
        ensures
            keys@ == self.arena().map_values(|node: Node<K, V>| node.key),
    {
        let mut keys: Vec<Key<K>> = Vec::new();
        let mut i: usize = 0;
        while i < self.nodes.len()
            invariant
                i <= self.nodes@.len(),
                keys@ == self.nodes@.take(i as int).map_values(|node: Node<K, V>| node.key),
            decreases self.nodes@.len() - i,
        {
            keys.push(self.nodes[i].key.duplicate());
            proof {
                assert(self.nodes@.take(i + 1) =~= self.nodes@.take(i as int).push(
                    self.nodes@[i as int],
                ));
                assert(keys@ =~= self.nodes@.take(i + 1).map_values(|node: Node<K, V>| node.key));
            }
            i += 1;
        }
        assert(self.nodes@.take(self.nodes@.len() as int) =~= self.nodes@);
        keys
    }

    /// The node stored at `index`.
    pub(crate) fn node(&self, index: usize) -> (node: &Node<K, V>)
        requires
            index < self.arena().len(),
        ensures
            *node == self.arena()[index as int],
    {
        &self.nodes[index]
    }

    /// The indices of the children of a node, in storage order.
    pub(crate) fn children(&self, parent_index: usize) -> (list: &[usize])
        requires
            parent_index < self.arena().len(),
        ensures
            list@ == self.arena()[parent_index as int].children@,
    {
        self.nodes[parent_index].children.as_slice()
    }
}

impl<K: Symbol, V: Cost> Default for Trie<K, V> {
    fn default() -> (trie: Self)
        ensures
            trie.wf(),
            trie@ == Map::<Seq<K>, V>::empty(),
            trie.spec_node_count() == 0,
    {
        Self::new()
    }
}

} // verus!
