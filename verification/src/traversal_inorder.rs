//! Cheapest-first enumeration of the nodes and stored sequences that a
//! pattern selects.

use crate::arena::is_ancestor;
use crate::frontier::{
    lemma_lineage, lemma_lineage_start, lemma_lineage_step, lineage_ok, parents_first,
    expansion, frontier_ok, lemma_frontier_step, lemma_reached_below, pattern_view, reached,
    waiting,
};
use crate::key::Query;
use crate::matching::matches_of;
use crate::symbol::{Cost, Symbol};
use crate::traversal::{
    indices,
    lemma_distinct_bounded,
    lemma_nothing_reached,
    lemma_values_are_matches,
    words_of,
};
use crate::trie::{aggregate_ok, cost_of, has_child, links_ok, Node, Trie};
use vstd::prelude::*;

verus! {

/// A frontier entry of the cheapest-first walk: a node, its depth below the
/// start, and its aggregate cost.
pub struct HeapItem<V> {
    pub value: V,
    pub index: usize,
    pub depth: usize,
}

impl<V> HeapItem<V> {
    /// An entry for the node `index` at `depth` with the cost `value`.
    pub fn new(value: V, index: usize, depth: usize) -> (item: Self)
        ensures
            item.value == value,
            item.index == index,
            item.depth == depth,
    {
        HeapItem { value, index, depth }
    }
}

/// A walk over the nodes of a trie that a pattern admits, cheapest aggregate
/// cost first. Like the depth-first walk it is a plain value that hands out
/// one node per call of `next`.
pub struct DijkstraTraversal<'a, K, V> {
    trie: &'a Trie<K, V>,
    /// The entries still to expand. The cheapest one leaves first; of two
    /// equally cheap ones the one with the larger index.
    heap: Vec<HeapItem<V>>,
    pattern: Option<Vec<Query<K>>>,
    start: Ghost<int>,
    visited: Ghost<Seq<int>>,
}

/// The nodes and depths of the entries of a heap.
pub open spec fn frontier_of<V>(heap: Seq<HeapItem<V>>) -> Seq<(usize, usize)> {
    Seq::new(heap.len(), |i: int| (heap[i].index, heap[i].depth))
}

/// Whether the costs of the listed nodes never decrease along the list.
pub open spec fn ascending<K, V: Cost>(nodes: Seq<Node<K, V>>, list: Seq<int>) -> bool {
    forall|i: int, j: int|
        0 <= i < j < list.len() ==> cost_of(nodes, #[trigger] list[i]).rank() <= cost_of(
            nodes,
            #[trigger] list[j],
        ).rank()
}

impl<'a, K: Symbol, V: Cost> DijkstraTraversal<'a, K, V> {
    /// The state of the walk is in order.
    pub closed spec fn inv(&self) -> bool {
        &&& self.trie.wf()
        &&& 0 <= self.start@
        &&& frontier_ok(
            self.trie.arena(),
            pattern_view(self.pattern),
            self.start@,
            frontier_of(self.heap@),
            self.visited@,
        )
        &&& lineage_ok(self.trie.arena(), self.start@, frontier_of(self.heap@), self.visited@)
        &&& forall|k: int|
            0 <= k < self.heap@.len() ==> (#[trigger] self.heap@[k]).value == cost_of(
                self.trie.arena(),
                self.heap@[k].index as int,
            )
        &&& ascending(self.trie.arena(), self.visited@)
        &&& forall|i: int, k: int|
            0 <= i < self.visited@.len() && 0 <= k < self.heap@.len() ==> cost_of(
                self.trie.arena(),
                #[trigger] self.visited@[i],
            ).rank() <= (#[trigger] self.heap@[k]).value.rank()
    }

    /// The trie that is walked.
    pub closed spec fn trie(&self) -> &'a Trie<K, V> {
        self.trie
    }

    /// The pattern that the walk honours.
    pub closed spec fn pattern(&self) -> Option<Seq<Query<K>>> {
        pattern_view(self.pattern)
    }

    /// The node the walk started at.
    pub closed spec fn start(&self) -> int {
        self.start@
    }

    /// The nodes handed out so far, in order.
    pub closed spec fn visited(&self) -> Seq<int> {
        self.visited@
    }

    /// What the nodes handed out so far have in common: each is reached
    /// from the start, none was handed out twice, each but the start came
    /// after its parent, and their costs never decrease.
    pub proof fn lemma_visited(&self)
        requires
            self.inv(),
        ensures
            self.visited().no_duplicates(),
            forall|i: int|
                0 <= i < self.visited().len() ==> reached(
                    self.trie().arena(),
                    self.pattern(),
                    self.start(),
                    #[trigger] self.visited()[i],
                ),
            parents_first(self.trie().arena(), self.start(), self.visited()),
            ascending(self.trie().arena(), self.visited()),
    {
        lemma_lineage(self.trie.arena(), self.start@, frontier_of(self.heap@), self.visited@);
    }

    /// A walk over the whole trie.
    pub fn from_root(trie: &'a Trie<K, V>, pattern: Option<Vec<Query<K>>>) -> (walk: Self)
        requires
            trie.wf(),
        ensures
            walk.inv(),
            walk.trie() == trie,
            walk.pattern() == pattern_view(pattern),
            walk.start() == 0,
            walk.visited() == Seq::<int>::empty(),
    {
        Self::from_index(trie, 0, pattern)
    }

    /// A walk over the nodes below `start_index`; the pattern is aligned to
    /// the depth below that node.
    pub fn from_index(trie: &'a Trie<K, V>, start_index: usize, pattern: Option<Vec<Query<K>>>) -> (walk:
        Self)
        requires
            trie.wf(),
        ensures
            walk.inv(),
            walk.trie() == trie,
            walk.pattern() == pattern_view(pattern),
            walk.start() == start_index,
            walk.visited() == Seq::<int>::empty(),
    {
        let mut heap: Vec<HeapItem<V>> = Vec::new();
        proof {
            trie.wf_unfold();
            trie.node_count_is_len();
        }
        if start_index < trie.node_count() {
            assert(aggregate_ok(trie.arena(), start_index as int));
            match &trie.node(start_index).min_descendent {
                Some(v) => {
                    heap.push(HeapItem::new(v.duplicate(), start_index, 0));
                },
                None => {},
            }
        }
        proof {
            let nodes = trie.arena();
            let pat = pattern_view(pattern);
            assert forall|n: int| #[trigger] reached(nodes, pat, start_index as int, n) implies waiting(
                nodes,
                frontier_of(heap@),
                n,
            ) by {
                if nodes.len() <= start_index {
                    lemma_nothing_reached(nodes, pat, start_index as int, n);
                }
                lemma_reached_below(nodes, pat, start_index as int, n);
                assert(is_ancestor(nodes, frontier_of(heap@)[0].0 as int, n));
            }
            lemma_lineage_start(nodes, start_index as int, frontier_of(heap@));
        }
        DijkstraTraversal {
            trie,
            heap,
            pattern,
            start: Ghost(start_index as int),
            visited: Ghost(Seq::empty()),
        }
    }

    /// The position of the entry that leaves the heap next.
    fn cheapest(&self) -> (best: usize)
        requires
            self.heap@.len() > 0,
        ensures
            best < self.heap@.len(),
            forall|k: int|
                0 <= k < self.heap@.len() ==> self.heap@[best as int].value.rank() <= (
                #[trigger] self.heap@[k]).value.rank(),
    {
        let mut best: usize = 0;
        let mut j: usize = 1;
        while j < self.heap.len()
            invariant
                best < j <= self.heap@.len(),
                forall|k: int|
                    0 <= k < j ==> self.heap@[best as int].value.rank() <= (#[trigger] self.heap@[k]).value.rank(),
            decreases self.heap@.len() - j,
        {
            let candidate = &self.heap[j];
            let current = &self.heap[best];
            if candidate.value.cheaper_than(&current.value) {
                best = j;
            } else if !current.value.cheaper_than(&candidate.value) && candidate.index
                > current.index {
                best = j;
            }
            j += 1;
        }
        best
    }

    /// Hands out the next node of the walk, or `None` when every node that
    /// the pattern admits was handed out. No node handed out earlier costs
    /// more than this one.
    pub fn next(&mut self) -> (item: Option<&'a Node<K, V>>)
        requires
            old(self).inv(),
        ensures
            final(self).inv(),
            final(self).trie() == old(self).trie(),
            final(self).pattern() == old(self).pattern(),
            final(self).start() == old(self).start(),
            match item {
                Some(node) => {
                    &&& final(self).visited().len() == old(self).visited().len() + 1
                    &&& final(self).visited().drop_last() == old(self).visited()
                    &&& !old(self).visited().contains(final(self).visited().last())
                    &&& 0 <= final(self).visited().last() < old(self).trie().arena().len()
                    &&& *node == old(self).trie().arena()[final(self).visited().last()]
                    &&& forall|i: int|
                        0 <= i < old(self).visited().len() ==> cost_of(
                            old(self).trie().arena(),
                            #[trigger] old(self).visited()[i],
                        ).rank() <= cost_of(old(self).trie().arena(), final(self).visited().last()).rank()
                },
                None => {
                    &&& final(self).visited() == old(self).visited()
                    &&& forall|n: int|
                        reached(old(self).trie().arena(), old(self).pattern(), old(self).start(), n)
                            ==> old(self).visited().contains(n)
                },
            },
    {
        match self.next_index() {
            Some(index) => {
                proof {
                    assert(self.visited().drop_last() =~= old(self).visited());
                }
                proof {
                    self.lemma_visited();
                    let seen = self.visited();
                    assert forall|i: int| 0 <= i < old(self).visited().len() implies cost_of(
                        old(self).trie().arena(),
                        #[trigger] old(self).visited()[i],
                    ).rank() <= cost_of(old(self).trie().arena(), seen.last()).rank() by {
                        assert(seen[i] == old(self).visited()[i]);
                        assert(seen[seen.len() - 1] == seen.last());
                    }
                }
                Some(self.trie.node(index))
            },
            None => None,
        }
    }

    /// The index of the next node of the walk, or `None` when every node
    /// that the pattern admits was handed out.
    pub(crate) fn next_index(&mut self) -> (item: Option<usize>)
        requires
            old(self).inv(),
        ensures
            final(self).inv(),
            final(self).trie() == old(self).trie(),
            final(self).pattern() == old(self).pattern(),
            final(self).start() == old(self).start(),
            match item {
                Some(index) => {
                    &&& index < old(self).trie().arena().len()
                    &&& !old(self).visited().contains(index as int)
                    &&& final(self).visited() == old(self).visited().push(index as int)
                },
                None => {
                    &&& final(self).visited() == old(self).visited()
                    &&& forall|n: int|
                        reached(old(self).trie().arena(), old(self).pattern(), old(self).start(), n)
                            ==> old(self).visited().contains(n)
                },
            },
    {
        let ghost nodes = self.trie.arena();
        let ghost pat = pattern_view(self.pattern);
        let ghost heap_before = self.heap@;
        let ghost frontier = frontier_of(self.heap@);
        let ghost seen = self.visited@;
        if self.heap.len() == 0 {
            proof {
                assert forall|n: int| reached(nodes, pat, self.start@, n) implies seen.contains(
                    n,
                ) by {
                    assert(!waiting(nodes, frontier, n));
                }
            }
            return None;
        }
        let best = self.cheapest();
        let popped = self.heap.remove(best);
        let index = popped.index;
        let depth = popped.depth;
        proof {
            assert(frontier[best as int] == (index, depth));
            lemma_reached_below(nodes, pat, self.start@, index as int);
            self.trie.node_count_is_len();
            self.trie.wf_unfold();
        }
        let children = self.trie.admitted_children(&self.pattern, index, depth);
        let ghost rest = self.heap@;
        let mut j: usize = 0;
        while j < children.len()
            invariant
                j <= children.len(),
                nodes == self.trie.arena(),
                self.trie.wf(),
                index < nodes.len(),
                expansion(nodes, pat, index as int, depth as int, children@),
                self.heap@.len() == rest.len() + j,
                rest == heap_before.remove(best as int),
                best < heap_before.len(),
                forall|k: int| 0 <= k < rest.len() ==> self.heap@[k] == rest[k],
                forall|k: int|
                    0 <= k < j ==> {
                        &&& (#[trigger] self.heap@[rest.len() + k]).index == children@[k].0
                        &&& self.heap@[rest.len() + k].depth == children@[k].1
                        &&& self.heap@[rest.len() + k].value == cost_of(nodes, children@[k].0 as int)
                    },
                self.trie == old(self).trie,
                self.pattern == old(self).pattern,
                self.start == old(self).start,
                self.visited == old(self).visited,
            decreases children.len() - j,
        {
            let (child_index, child_depth) = children[j];
            proof {
                self.trie.wf_unfold();
                assert(has_child(nodes, index as int, children@[j as int].0 as int));
                assert(links_ok(nodes, index as int));
                let w = choose|w: int|
                    0 <= w < nodes[index as int].children@.len()
                        && #[trigger] nodes[index as int].children@[w] as int == child_index;
                assert(nodes[index as int].children@[w] < nodes.len());
                assert(aggregate_ok(nodes, child_index as int));
            }
            match &self.trie.node(child_index).min_descendent {
                Some(v) => {
                    self.heap.push(HeapItem::new(v.duplicate(), child_index, child_depth));
                },
                None => {
                    assert(false);
                },
            }
            j += 1;
        }
        proof {
            let k = best as int;
            let grown = frontier_of(self.heap@);
            assert forall|i: int| 0 <= i < rest.len() implies #[trigger] rest[i] == heap_before[if i
                < k {
                i
            } else {
                i + 1
            }] by {}
            assert(grown =~= frontier.remove(k) + children@) by {
                assert(grown.len() == rest.len() + children@.len());
                assert forall|i: int| 0 <= i < grown.len() implies grown[i] == (frontier.remove(k)
                    + children@)[i] by {
                    if i < rest.len() {
                        assert(self.heap@[i] == rest[i]);
                    } else {
                        assert(self.heap@[rest.len() + (i - rest.len())].index == children@[i
                            - rest.len()].0);
                    }
                }
            }
            lemma_frontier_step(nodes, pat, self.start@, frontier, seen, k, children@);
            assert(links_ok(nodes, index as int));
            lemma_lineage_step(nodes, self.start@, frontier, seen, k, children@);
            self.visited@ = seen.push(index as int);
            // the costs of the entries
            assert forall|i: int| 0 <= i < self.heap@.len() implies (#[trigger] self.heap@[i]).value
                == cost_of(nodes, self.heap@[i].index as int) && cost_of(nodes, index as int).rank()
                <= self.heap@[i].value.rank() by {
                if i < rest.len() {
                    let g = if i < k {
                        i
                    } else {
                        i + 1
                    };
                    assert(self.heap@[i] == rest[i]);
                    assert(self.heap@[i] == heap_before[g]);
                    assert(heap_before[k].value.rank() <= heap_before[g].value.rank());
                } else {
                    let c = children@[i - rest.len()].0 as int;
                    assert(self.heap@[rest.len() + (i - rest.len())].index == children@[i
                        - rest.len()].0);
                    assert(has_child(nodes, index as int, c));
                    assert(aggregate_ok(nodes, index as int));
                    let w = choose|w: int|
                        0 <= w < nodes[index as int].children@.len()
                            && #[trigger] nodes[index as int].children@[w] as int == c;
                    assert(cost_of(nodes, index as int).rank() <= cost_of(
                        nodes,
                        nodes[index as int].children@[w] as int,
                    ).rank());
                }
            }
            assert(ascending(nodes, self.visited@)) by {
                assert forall|a: int, b: int| 0 <= a < b < self.visited@.len() implies cost_of(
                    nodes,
                    #[trigger] self.visited@[a],
                ).rank() <= cost_of(nodes, #[trigger] self.visited@[b]).rank() by {
                    if b < seen.len() {
                        assert(self.visited@[a] == seen[a] && self.visited@[b] == seen[b]);
                    } else {
                        assert(self.visited@[a] == seen[a]);
                        assert(cost_of(nodes, seen[a]).rank() <= heap_before[k].value.rank());
                    }
                }
            }
            assert forall|i: int, g: int|
                0 <= i < self.visited@.len() && 0 <= g < self.heap@.len() implies cost_of(
                nodes,
                #[trigger] self.visited@[i],
            ).rank() <= (#[trigger] self.heap@[g]).value.rank() by {
                if i < seen.len() {
                    assert(self.visited@[i] == seen[i]);
                    assert(cost_of(nodes, seen[i]).rank() <= heap_before[k].value.rank());
                }
            }
        }
        Some(index)
    }
}

impl<K: Symbol, V: Cost> Trie<K, V> {
    /// The stored sequences that the pattern selects, each with its cost,
    /// cheapest first. Without a pattern every stored sequence is selected.
    pub fn iter_values_ordered(&self, pattern: Option<Vec<Query<K>>>) -> (values: Vec<(Vec<K>, V)>)
        requires
            self.wf(),
        ensures
            words_of(values@).no_duplicates(),
            words_of(values@).to_set() == matches_of(self@, pattern_view(pattern)),
            forall|i: int|
                0 <= i < values.len() ==> self@.contains_key((#[trigger] values[i]).0@) && values[i].1
                    == self@[values[i].0@],
            forall|i: int, j: int|
                0 <= i < j < values.len() ==> (#[trigger] values[i]).1.rank() <= (
                #[trigger] values[j]).1.rank(),
    {
        let ghost pat = pattern_view(pattern);
        let order = self.iter_nodes_ordered(pattern);
        let (values, Ghost(at)) = self.values_at(&order);
        proof {
            self.wf_unfold();
            lemma_values_are_matches(self.arena(), pat, order@, values@, at);
            assert forall|i: int, j: int| 0 <= i < j < values.len() implies (#[trigger] values[i]).1.rank()
                <= (#[trigger] values[j]).1.rank() by {
                assert(at[i] < at[j]);
                assert(indices(order@)[at[i]] == order@[at[i]] as int);
                assert(indices(order@)[at[j]] == order@[at[j]] as int);
            }
        }
        values
    }

    /// The nodes that the pattern admits, in the order a cheapest-first
    /// walk from the root meets them.
    pub(crate) fn iter_nodes_ordered(&self, pattern: Option<Vec<Query<K>>>) -> (order: Vec<usize>)
        requires
            self.wf(),
        ensures
            indices(order@).no_duplicates(),
            forall|i: int| 0 <= i < order.len() ==> #[trigger] order[i] < self.arena().len(),
            forall|n: int|
                reached(self.arena(), pattern_view(pattern), 0, n) <==> indices(order@).contains(n),
            ascending(self.arena(), indices(order@)),
    {
        let ghost nodes = self.arena();
        let ghost pat = pattern_view(pattern);
        let mut walk = DijkstraTraversal::from_root(self, pattern);
        let mut order: Vec<usize> = Vec::new();
        proof {
            self.node_count_is_len();
            assert(indices(order@) =~= walk.visited());
        }
        loop
            invariant
                walk.inv(),
                walk.trie() == self,
                walk.pattern() == pat,
                walk.start() == 0,
                nodes == self.arena(),
                indices(order@) == walk.visited(),
                forall|i: int| 0 <= i < order.len() ==> #[trigger] order[i] < nodes.len(),
            ensures
                indices(order@).no_duplicates(),
                forall|i: int| 0 <= i < order.len() ==> #[trigger] order[i] < nodes.len(),
                forall|n: int| reached(nodes, pat, 0, n) <==> indices(order@).contains(n),
                ascending(nodes, indices(order@)),
            decreases nodes.len() - order.len(),
        {
            let ghost seen = walk.visited();
            match walk.next_index() {
                Some(index) => {
                    order.push(index);
                    proof {
                        assert(indices(order@) =~= seen.push(index as int));
                        walk.lemma_visited();
                        assert forall|i: int| 0 <= i < walk.visited().len() implies 0
                            <= #[trigger] walk.visited()[i] < nodes.len() by {
                            assert(indices(order@)[i] == order@[i] as int);
                        }
                        lemma_distinct_bounded(walk.visited(), nodes.len());
                    }
                },
                None => {
                    proof {
                        walk.lemma_visited();
                        assert forall|n: int| indices(order@).contains(n) implies reached(
                            nodes,
                            pat,
                            0,
                            n,
                        ) by {
                            let i = choose|i: int| 0 <= i < seen.len() && seen[i] == n;
                        }
                    }
                    break ;
                },
            }
        }
        order
    }
}

} // verus!
