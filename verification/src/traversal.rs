//! Depth-first enumeration of the nodes and stored sequences that a pattern
//! selects.

use crate::arena::{
    is_ancestor, is_prefix, lemma_contents_terminal, lemma_label_injective, lemma_same_key_siblings,
    lemma_terminal_contents, lemma_terminal_label,
};
use crate::frontier::{
    lemma_lineage, lemma_lineage_start, lemma_lineage_step, lineage_ok, parents_first,
    admits,
    expansion,
    frontier_ok,
    lemma_frontier_step,
    lemma_reached_below,
    pattern_view,
    reached,
    waiting,
};
use crate::key::{Key, Query};
use crate::matching::{fits, lemma_reached_fits, matches_of};
use crate::order::{
    kept, lemma_kept_none, lemma_kept_one, lemma_order_done, lemma_order_prefix,
    lemma_order_start, lemma_order_step, lists_admitted, order_ok, preorder,
};
use crate::symbol::{Cost, Symbol};
use crate::trie::{
    aggregate_ok, contents, cost_of, has_child, is_terminal, label, links_ok, parent_at,
    structure_ok, terminal_of, Node, Trie,
};
use vstd::prelude::*;
use vstd::set_lib::{lemma_int_range, lemma_len_subset, set_int_range};

verus! {

/// A depth-first walk over the nodes of a trie that a pattern admits. The
/// walk is a plain value: each call of `next` hands out one node and leaves
/// the rest of the walk in the value.
pub struct TrieDfsTraversal<'a, K, V> {
    trie: &'a Trie<K, V>,
    /// The nodes still to expand, each with its depth below the start.
    stack: Vec<(usize, usize)>,
    pattern: Option<Vec<Query<K>>>,
    start: Ghost<int>,
    visited: Ghost<Seq<int>>,
}

/// The symbols of the proper ancestors of node `n`, from its parent up to
/// the root.
pub open spec fn upward<K, V>(nodes: Seq<Node<K, V>>, n: int) -> Seq<K>
    decreases n,
{
    if 0 < n < nodes.len() && 0 <= parent_at(nodes, n) < n {
        match nodes[parent_at(nodes, n)].key {
            Key::Internal(k) => seq![k] + upward(nodes, parent_at(nodes, n)),
            _ => Seq::empty(),
        }
    } else {
        Seq::empty()
    }
}

/// Read from the root downwards, the symbols above a node are the label of
/// its parent.
pub proof fn lemma_upward_label<K, V>(nodes: Seq<Node<K, V>>, n: int)
    requires
        structure_ok(nodes),
        0 < n < nodes.len(),
    ensures
        upward(nodes, n).reverse() == label(nodes, parent_at(nodes, n)),
    decreases n,
{
    assert(links_ok(nodes, n));
    let p = parent_at(nodes, n);
    assert(links_ok(nodes, p));
    if p > 0 {
        lemma_upward_label(nodes, p);
        let k = nodes[p].key->Internal_0;
        let rest = upward(nodes, p);
        assert((seq![k] + rest).reverse() =~= rest.reverse().push(k));
    } else {
        assert(upward(nodes, n).reverse() =~= Seq::<K>::empty());
    }
}

/// A sequence of distinct node indices is no longer than the arena.
pub proof fn lemma_distinct_bounded(list: Seq<int>, n: nat)
    requires
        list.no_duplicates(),
        forall|i: int| 0 <= i < list.len() ==> 0 <= #[trigger] list[i] < n,
    ensures
        list.len() <= n,
{
    list.unique_seq_to_set();
    lemma_int_range(0, n as int);
    assert(list.to_set().subset_of(set_int_range(0, n as int)));
    lemma_len_subset(list.to_set(), set_int_range(0, n as int));
}

/// The indices of a list of nodes as integers.
pub open spec fn indices(list: Seq<usize>) -> Seq<int> {
    list.map_values(|i: usize| i as int)
}

/// What a list of stored sequences with their costs says about the nodes it
/// was read from: entry `i` is the label and the cost of the terminal node
/// `order[at[i]]`, the entries follow the order of the nodes, and no terminal
/// node of the list is left out.
pub open spec fn read_from<K, V>(
    nodes: Seq<Node<K, V>>,
    order: Seq<usize>,
    values: Seq<(Vec<K>, V)>,
    at: Seq<int>,
) -> bool {
    &&& at.len() == values.len()
    &&& forall|i: int|
        0 <= i < at.len() ==> {
            &&& 0 <= #[trigger] at[i] < order.len()
            &&& is_terminal(nodes, order[at[i]] as int)
            &&& values[i].0@ == label(nodes, order[at[i]] as int)
            &&& values[i].1 == cost_of(nodes, order[at[i]] as int)
        }
    &&& forall|i: int, j: int| 0 <= i < j < at.len() ==> #[trigger] at[i] < #[trigger] at[j]
    &&& forall|j: int|
        0 <= j < order.len() && is_terminal(nodes, #[trigger] order[j] as int) ==> at.contains(j)
}

/// Whether the values come in the order of a depth-first walk from the
/// root: they are read, one after the other, from the terminal nodes of the
/// depth-first order of the nodes that the pattern admits.
pub open spec fn in_walk_order<K, V>(
    nodes: Seq<Node<K, V>>,
    pattern: Option<Seq<Query<K>>>,
    values: Seq<(Vec<K>, V)>,
) -> bool {
    exists|order: Seq<usize>, at: Seq<int>|
        indices(order) == preorder(nodes, pattern, 0, 0) && #[trigger] read_from(
            nodes,
            order,
            values,
            at,
        )
}

/// The stored sequences of a list of values.
pub open spec fn words_of<K, V>(values: Seq<(Vec<K>, V)>) -> Seq<Seq<K>> {
    values.map_values(|entry: (Vec<K>, V)| entry.0@)
}

/// The values read from the nodes that a traversal from the root handed out
/// are the stored sequences that the pattern selects, each once and with its
/// cost.
pub proof fn lemma_values_are_matches<K, V>(
    nodes: Seq<Node<K, V>>,
    pattern: Option<Seq<Query<K>>>,
    order: Seq<usize>,
    values: Seq<(Vec<K>, V)>,
    at: Seq<int>,
)
    requires
        structure_ok(nodes),
        indices(order).no_duplicates(),
        forall|n: int| reached(nodes, pattern, 0, n) <==> indices(order).contains(n),
        read_from(nodes, order, values, at),
    ensures
        words_of(values).no_duplicates(),
        words_of(values).to_set() =~= matches_of(contents(nodes), pattern),
        forall|i: int|
            0 <= i < values.len() ==> contents(nodes).contains_key((#[trigger] values[i]).0@)
                && values[i].1 == contents(nodes)[values[i].0@],
{
    let words = words_of(values);
    let list = indices(order);
    assert forall|i: int| 0 <= i < values.len() implies {
        &&& contents(nodes).contains_key((#[trigger] values[i]).0@)
        &&& values[i].1 == contents(nodes)[values[i].0@]
        &&& fits(pattern, values[i].0@)
    } by {
        let e = order[at[i]] as int;
        assert(list[at[i]] == e);
        assert(list.contains(e));
        lemma_terminal_contents(nodes, e);
        lemma_reached_fits(nodes, pattern, e);
    }
    assert forall|i: int, j: int| 0 <= i < words.len() && 0 <= j < words.len() && i != j implies words[i]
        != words[j] by {
        if words[i] == words[j] {
            let a = order[at[i]] as int;
            let b = order[at[j]] as int;
            lemma_label_injective(nodes, a, b);
            assert(list[at[i]] == a);
            assert(list[at[j]] == b);
            if i < j {
                assert(at[i] < at[j]);
            } else {
                assert(at[j] < at[i]);
            }
        }
    }
    assert forall|w: Seq<K>| matches_of(contents(nodes), pattern).contains(w) implies words.to_set().contains(
        w,
    ) by {
        lemma_contents_terminal(nodes, w);
        let t = terminal_of(nodes, w);
        lemma_reached_fits(nodes, pattern, t);
        assert(list.contains(t));
        let j = choose|j: int| 0 <= j < list.len() && list[j] == t;
        assert(order[j] as int == t);
        assert(at.contains(j));
        let i = choose|i: int| 0 <= i < at.len() && at[i] == j;
        assert(words[i] == w);
    }
    assert forall|w: Seq<K>| words.to_set().contains(w) implies matches_of(
        contents(nodes),
        pattern,
    ).contains(w) by {
        let i = choose|i: int| 0 <= i < words.len() && words[i] == w;
        assert(values[i].0@ == w);
    }
}

/// Below a start that is no node of the arena nothing is reached.
pub proof fn lemma_nothing_reached<K, V>(
    nodes: Seq<Node<K, V>>,
    pattern: Option<Seq<Query<K>>>,
    start: int,
    n: int,
)
    requires
        nodes.len() <= start,
    ensures
        !reached(nodes, pattern, start, n),
{
    if reached(nodes, pattern, start, n) {
        lemma_reached_below(nodes, pattern, start, n);
    }
}

impl<'a, K: Symbol, V: Cost> TrieDfsTraversal<'a, K, V> {
    /// The state of the walk is in order.
    pub closed spec fn inv(&self) -> bool {
        &&& structure_ok(self.trie.arena())
        &&& 0 <= self.start@
        &&& frontier_ok(
            self.trie.arena(),
            pattern_view(self.pattern),
            self.start@,
            self.stack@,
            self.visited@,
        )
        &&& lineage_ok(self.trie.arena(), self.start@, self.stack@, self.visited@)
        &&& order_ok(
            self.trie.arena(),
            pattern_view(self.pattern),
            self.start@,
            self.stack@,
            self.visited@,
        )
    }

    /// The trie that is walked.
    pub closed spec fn trie(&self) -> &'a Trie<K, V> {
        self.trie
    }

    /// The pattern that the walk honours.
    pub closed spec fn pattern(&self) -> Option<Seq<Query<K>>> {
        pattern_view(self.pattern)
    }

    /// The node the walk started at.
    pub closed spec fn start(&self) -> int {
        self.start@
    }

    /// The nodes handed out so far, in order.
    pub closed spec fn visited(&self) -> Seq<int> {
        self.visited@
    }

    /// What the nodes handed out so far have in common: each is reached
    /// from the start, none was handed out twice, each but the start came
    /// after its parent, and together they begin the depth-first order.
    pub proof fn lemma_visited(&self)
        requires
            self.inv(),
        ensures
            self.visited().no_duplicates(),
            forall|i: int|
                0 <= i < self.visited().len() ==> reached(
                    self.trie().arena(),
                    self.pattern(),
                    self.start(),
                    #[trigger] self.visited()[i],
                ),
            parents_first(self.trie().arena(), self.start(), self.visited()),
            is_prefix(
                self.visited(),
                preorder(self.trie().arena(), self.pattern(), self.start(), 0),
            ),
    {
        lemma_lineage(self.trie.arena(), self.start@, self.stack@, self.visited@);
        lemma_order_prefix(
            self.trie.arena(),
            pattern_view(self.pattern),
            self.start@,
            self.stack@,
            self.visited@,
        );
    }

    /// A walk over the whole trie.
    pub fn from_root(trie: &'a Trie<K, V>, pattern: Option<Vec<Query<K>>>) -> (walk: Self)
        requires
            trie.wf(),
        ensures
            walk.inv(),
            walk.trie() == trie,
            walk.pattern() == pattern_view(pattern),
            walk.start() == 0,
            walk.visited() == Seq::<int>::empty(),
    {
        Self::from_index(trie, 0, pattern)
    }

    /// A walk over the nodes below `start_index`; the pattern is aligned to
    /// the depth below that node.
    pub fn from_index(trie: &'a Trie<K, V>, start_index: usize, pattern: Option<Vec<Query<K>>>) -> (walk:
        Self)
        requires
            trie.wf(),
        ensures
            walk.inv(),
            walk.trie() == trie,
            walk.pattern() == pattern_view(pattern),
            walk.start() == start_index,
            walk.visited() == Seq::<int>::empty(),
    {
        let mut stack: Vec<(usize, usize)> = Vec::new();
        if start_index < trie.node_count() {
            stack.push((start_index, 0));
        }
        proof {
            trie.wf_unfold();
            trie.node_count_is_len();
            let nodes = trie.arena();
            let pat = pattern_view(pattern);
            assert forall|n: int| #[trigger] reached(nodes, pat, start_index as int, n) implies waiting(
                nodes,
                stack@,
                n,
            ) by {
                if nodes.len() <= start_index {
                    lemma_nothing_reached(nodes, pat, start_index as int, n);
                }
                lemma_reached_below(nodes, pat, start_index as int, n);
                assert(is_ancestor(nodes, stack@[0].0 as int, n));
            }
            lemma_lineage_start(nodes, start_index as int, stack@);
            lemma_order_start(nodes, pat, start_index, stack@);
        }
        TrieDfsTraversal {
            trie,
            stack,
            pattern,
            start: Ghost(start_index as int),
            visited: Ghost(Seq::empty()),
        }
    }

    /// Hands out the next node of the walk, or `None` when every node that
    /// the pattern admits was handed out.
    pub fn next(&mut self) -> (item: Option<&'a Node<K, V>>)
        requires
            old(self).inv(),
        ensures
            final(self).inv(),
            final(self).trie() == old(self).trie(),
            final(self).pattern() == old(self).pattern(),
            final(self).start() == old(self).start(),
            match item {
                Some(node) => {
                    &&& final(self).visited().len() == old(self).visited().len() + 1
                    &&& final(self).visited().drop_last() == old(self).visited()
                    &&& !old(self).visited().contains(final(self).visited().last())
                    &&& 0 <= final(self).visited().last() < old(self).trie().arena().len()
                    &&& *node == old(self).trie().arena()[final(self).visited().last()]
                },
                None => {
                    &&& final(self).visited() == old(self).visited()
                    &&& forall|n: int|
                        reached(old(self).trie().arena(), old(self).pattern(), old(self).start(), n)
                            ==> old(self).visited().contains(n)
                    &&& old(self).visited() == preorder(
                        old(self).trie().arena(),
                        old(self).pattern(),
                        old(self).start(),
                        0,
                    )
                },
            },
    {
        match self.next_index() {
            Some(index) => {
                proof {
                    assert(self.visited().drop_last() =~= old(self).visited());
                }
                Some(self.trie.node(index))
            },
            None => None,
        }
    }

    /// The index of the next node of the walk, or `None` when every node
    /// that the pattern admits was handed out.
    pub(crate) fn next_index(&mut self) -> (item: Option<usize>)
        requires
            old(self).inv(),
        ensures
            final(self).inv(),
            final(self).trie() == old(self).trie(),
            final(self).pattern() == old(self).pattern(),
            final(self).start() == old(self).start(),
            match item {
                Some(index) => {
                    &&& index < old(self).trie().arena().len()
                    &&& !old(self).visited().contains(index as int)
                    &&& final(self).visited() == old(self).visited().push(index as int)
                },
                None => {
                    &&& final(self).visited() == old(self).visited()
                    &&& forall|n: int|
                        reached(old(self).trie().arena(), old(self).pattern(), old(self).start(), n)
                            ==> old(self).visited().contains(n)
                    &&& old(self).visited() == preorder(
                        old(self).trie().arena(),
                        old(self).pattern(),
                        old(self).start(),
                        0,
                    )
                },
            },
    {
        let ghost nodes = self.trie.arena();
        let ghost pat = pattern_view(self.pattern);
        let ghost frontier = self.stack@;
        match self.stack.pop() {
            Some((index, depth)) => {
                proof {
                    let k = frontier.len() - 1;
                    assert(frontier[k] == (index, depth));
                    lemma_reached_below(nodes, pat, self.start@, index as int);
                    self.trie.node_count_is_len();
                }
                let children = self.trie.admitted_children(&self.pattern, index, depth);
                let ghost rest = self.stack@;
                let mut j: usize = 0;
                while j < children.len()
                    invariant
                        j <= children.len(),
                        self.stack@ == rest + children@.take(j as int),
                        self.trie == old(self).trie,
                        self.pattern == old(self).pattern,
                        self.start == old(self).start,
                        self.visited == old(self).visited,
                    decreases children.len() - j,
                {
                    self.stack.push(children[j]);
                    proof {
                        assert(children@.take(j as int).push(children@[j as int]) =~= children@.take(
                            j + 1,
                        ));
                        assert(self.stack@ =~= rest + children@.take(j + 1));
                    }
                    j += 1;
                }
                proof {
                    let k = frontier.len() - 1;
                    assert(children@.take(children.len() as int) =~= children@);
                    assert(rest =~= frontier.remove(k));
                    lemma_frontier_step(nodes, pat, self.start@, frontier, self.visited@, k, children@);
                    assert(links_ok(nodes, index as int));
                    lemma_lineage_step(nodes, self.start@, frontier, self.visited@, k, children@);
                    assert(frontier.last() == frontier[k]);
                    assert(frontier.remove(k) =~= frontier.drop_last());
                    assert forall|i: int| 0 <= i < children@.len() implies index < (
                    #[trigger] children@[i]).0 < nodes.len() by {
                        let c = children@[i].0 as int;
                        assert(has_child(nodes, index as int, c));
                        let w = choose|w: int|
                            0 <= w < nodes[index as int].children@.len()
                                && #[trigger] nodes[index as int].children@[w] as int == c;
                    }
                    lemma_order_step(nodes, pat, self.start@, frontier, self.visited@, children@);
                    self.visited@ = self.visited@.push(index as int);
                }
                Some(index)
            },
            None => {
                proof {
                    assert forall|n: int| reached(nodes, pat, self.start@, n) implies self.visited@.contains(
                        n,
                    ) by {
                        assert(!waiting(nodes, frontier, n));
                    }
                    lemma_order_done(nodes, pat, self.start@, frontier, self.visited@);
                }
                None
            },
        }
    }
}

impl<K: Symbol, V: Cost> Trie<K, V> {
    /// The children of `index` that the pattern admits one level below
    /// `depth`, in storage order: all of them without a pattern, those with
    /// a symbol under a wildcard, the one with the required key under a
    /// fixed constraint, none past the end of the pattern.
    pub(crate) fn admitted_children(
        &self,
        pattern: &Option<Vec<Query<K>>>,
        index: usize,
        depth: usize,
    ) -> (out: Vec<(usize, usize)>)
        requires
            structure_ok(self.arena()),
            index < self.arena().len(),
            depth < usize::MAX,
        ensures
            expansion(self.arena(), pattern_view(*pattern), index as int, depth as int, out@),
            lists_admitted(self.arena(), pattern_view(*pattern), index as int, depth as int, out@),
    {
        let ghost nodes = self.arena();
        let ghost pat = pattern_view(*pattern);
        let ghost kids = nodes[index as int].children@;
        assert(links_ok(nodes, index as int));
        let mut out: Vec<(usize, usize)> = Vec::new();
        let mut symbols_only = false;
        let take_all = match pattern {
            None => true,
            Some(p) => {
                if depth + 1 < p.len() {
                    match &p[depth + 1] {
                        Query::Any => {
                            symbols_only = true;
                            true
                        },
                        Query::Matches(k) => {
                            match self.get_child_index(index, k) {
                                Some(child_index) => {
                                    out.push((child_index, depth + 1));
                                    proof {
                                        assert forall|c: int|
                                            0 <= c < nodes.len() && #[trigger] has_child(
                                                nodes,
                                                index as int,
                                                c,
                                            ) && admits(pat, depth + 1, nodes[c].key) implies c
                                            == child_index by {
                                            lemma_same_key_siblings(
                                                nodes,
                                                index as int,
                                                c,
                                                child_index as int,
                                            );
                                        }
                                        assert(out@[0].0 == child_index);
                                        let at = choose|at: int|
                                            0 <= at < kids.len() && #[trigger] kids[at] as int
                                                == child_index;
                                        assert forall|i: int| 0 <= i < kids.len() implies (admits(
                                            pat,
                                            depth + 1,
                                            nodes[#[trigger] kids[i] as int].key,
                                        ) <==> i == at) by {
                                            if i < at {
                                                assert(nodes[kids[i] as int].key != nodes[kids[at] as int].key);
                                            } else if at < i {
                                                assert(nodes[kids[at] as int].key != nodes[kids[i] as int].key);
                                            }
                                        }
                                        lemma_kept_one(
                                            nodes,
                                            pat,
                                            index as int,
                                            depth as int,
                                            kids.len(),
                                            at,
                                        );
                                    }
                                },
                                None => {
                                    proof {
                                        assert forall|c: int|
                                            0 <= c < nodes.len() && #[trigger] has_child(
                                                nodes,
                                                index as int,
                                                c,
                                            ) implies !admits(pat, depth + 1, nodes[c].key) by {
                                            let w = choose|w: int|
                                                0 <= w < nodes[index as int].children@.len()
                                                    && #[trigger] nodes[index as int].children@[w] as int
                                                    == c;
                                        }
                                        lemma_kept_none(
                                            nodes,
                                            pat,
                                            index as int,
                                            depth as int,
                                            kids.len(),
                                        );
                                    }
                                },
                            }
                            false
                        },
                    }
                } else {
                    proof {
                        lemma_kept_none(nodes, pat, index as int, depth as int, kids.len());
                    }
                    false
                }
            },
        };
        if take_all {
            let children = self.children(index);
            let ghost mut from: Seq<int> = Seq::empty();
            let mut j: usize = 0;
            while j < children.len()
                invariant
                    nodes == self.arena(),
                    pat == pattern_view(*pattern),
                    index < nodes.len(),
                    links_ok(nodes, index as int),
                    children@ == nodes[index as int].children@,
                    j <= children.len(),
                    depth < usize::MAX,
                    symbols_only ==> pat is Some && depth + 1 < pat->0.len() && pat->0[depth + 1] is Any,
                    !symbols_only ==> pat is None,
                    from.len() == out.len(),
                    out.len() == kept(nodes, pat, index as int, depth as int, j as nat).len(),
                    forall|i: int|
                        0 <= i < out.len() ==> (#[trigger] out@[i]).0 as int == kept(
                            nodes,
                            pat,
                            index as int,
                            depth as int,
                            j as nat,
                        )[i] && out@[i].1 == depth + 1,
                    forall|i: int|
                        0 <= i < out.len() ==> 0 <= #[trigger] from[i] < j && out@[i] == (
                            children@[from[i]],
                            (depth + 1) as usize,
                        ) && admits(pat, depth + 1, nodes[children@[from[i]] as int].key),
                    forall|a: int, b: int| 0 <= a < b < from.len() ==> #[trigger] from[a] < #[trigger] from[b],
                    forall|k: int|
                        0 <= k < j && admits(pat, depth + 1, nodes[#[trigger] children@[k] as int].key)
                            ==> from.contains(k),
                decreases children.len() - j,
            {
                let child = children[j];
                let ghost from_before = from;
                let keep = if symbols_only {
                    match &self.node(child).key {
                        Key::Internal(_) => true,
                        _ => false,
                    }
                } else {
                    true
                };
                if keep {
                    out.push((child, depth + 1));
                    proof {
                        from = from.push(j as int);
                    }
                }
                proof {
                    assert forall|k: int|
                        0 <= k < j + 1 && admits(
                            pat,
                            depth + 1,
                            nodes[#[trigger] children@[k] as int].key,
                        ) implies from.contains(k) by {
                        if k < j {
                            let i = choose|i: int| 0 <= i < from_before.len() && from_before[i] == k;
                            assert(from[i] == k);
                        } else {
                            assert(from[from.len() - 1] == k);
                        }
                    }
                }
                j += 1;
            }
            proof {
                assert forall|i: int| 0 <= i < out@.len() implies {
                    &&& has_child(nodes, index as int, (#[trigger] out@[i]).0 as int)
                    &&& admits(pat, depth + 1, nodes[out@[i].0 as int].key)
                    &&& out@[i].1 == depth + 1
                } by {
                    assert(nodes[index as int].children@[from[i]] as int == out@[i].0);
                }
                assert forall|c: int|
                    0 <= c < nodes.len() && #[trigger] has_child(nodes, index as int, c) && admits(
                        pat,
                        depth + 1,
                        nodes[c].key,
                    ) implies exists|i: int|
                    0 <= i < out@.len() && (#[trigger] out@[i]).0 as int == c by {
                    let w = choose|w: int|
                        0 <= w < nodes[index as int].children@.len()
                            && #[trigger] nodes[index as int].children@[w] as int == c;
                    assert(from.contains(w));
                    let i = choose|i: int| 0 <= i < from.len() && from[i] == w;
                    assert(out@[i].0 as int == c);
                }
                assert forall|a: int, b: int| 0 <= a < b < out@.len() implies (#[trigger] out@[a]).0
                    != (#[trigger] out@[b]).0 by {
                    assert(from[a] < from[b]);
                    assert(nodes[children@[from[a]] as int].key != nodes[children@[from[b]] as int].key);
                }
            }
        }
        out
    }

    /// The stored sequences that the pattern selects, each with its cost,
    /// in the order a depth-first walk meets them: a node before what lies
    /// below it, and of the children of a node the one stored last first.
    /// Without a pattern every stored sequence is selected.
    pub fn iter_values_unordered(&self, pattern: Option<Vec<Query<K>>>) -> (values: Vec<(Vec<K>, V)>)
        requires
            self.wf(),
        ensures
            words_of(values@).no_duplicates(),
            words_of(values@).to_set() == matches_of(self@, pattern_view(pattern)),
            forall|i: int|
                0 <= i < values.len() ==> self@.contains_key((#[trigger] values[i]).0@) && values[i].1
                    == self@[values[i].0@],
            in_walk_order(self.arena(), pattern_view(pattern), values@),
    {
        let ghost pat = pattern_view(pattern);
        let order = self.iter_nodes_unordered(pattern);
        let (values, Ghost(at)) = self.values_at(&order);
        proof {
            self.wf_unfold();
            lemma_values_are_matches(self.arena(), pat, order@, values@, at);
            assert(indices(order@) == preorder(self.arena(), pat, 0, 0) && read_from(
                self.arena(),
                order@,
                values@,
                at,
            ));
        }
        values
    }

    /// The nodes that the pattern admits, in the order a depth-first walk
    /// from the root meets them.
    pub(crate) fn iter_nodes_unordered(&self, pattern: Option<Vec<Query<K>>>) -> (order: Vec<usize>)
        requires
            self.wf(),
        ensures
            indices(order@).no_duplicates(),
            forall|i: int| 0 <= i < order.len() ==> #[trigger] order[i] < self.arena().len(),
            forall|n: int|
                reached(self.arena(), pattern_view(pattern), 0, n) <==> indices(order@).contains(n),
            indices(order@) == preorder(self.arena(), pattern_view(pattern), 0, 0),
    {
        let ghost nodes = self.arena();
        let ghost pat = pattern_view(pattern);
        let mut walk = TrieDfsTraversal::from_root(self, pattern);
        let mut order: Vec<usize> = Vec::new();
        proof {
            self.node_count_is_len();
            assert(indices(order@) =~= walk.visited());
        }
        loop
            invariant
                walk.inv(),
                walk.trie() == self,
                walk.pattern() == pat,
                walk.start() == 0,
                nodes == self.arena(),
                indices(order@) == walk.visited(),
                forall|i: int| 0 <= i < order.len() ==> #[trigger] order[i] < nodes.len(),
            ensures
                indices(order@).no_duplicates(),
                forall|i: int| 0 <= i < order.len() ==> #[trigger] order[i] < nodes.len(),
                forall|n: int| reached(nodes, pat, 0, n) <==> indices(order@).contains(n),
                indices(order@) == preorder(nodes, pat, 0, 0),
            decreases nodes.len() - order.len(),
        {
            let ghost seen = walk.visited();
            match walk.next_index() {
                Some(index) => {
                    order.push(index);
                    proof {
                        assert(indices(order@) =~= seen.push(index as int));
                        walk.lemma_visited();
                        assert forall|i: int| 0 <= i < walk.visited().len() implies 0
                            <= #[trigger] walk.visited()[i] < nodes.len() by {
                            assert(indices(order@)[i] == order@[i] as int);
                        }
                        lemma_distinct_bounded(walk.visited(), nodes.len());
                    }
                },
                None => {
                    proof {
                        walk.lemma_visited();
                        assert forall|n: int| indices(order@).contains(n) implies reached(
                            nodes,
                            pat,
                            0,
                            n,
                        ) by {
                            let i = choose|i: int| 0 <= i < seen.len() && seen[i] == n;
                        }
                    }
                    break ;
                },
            }
        }
        order
    }

    /// The symbols of the proper ancestors of a node, from its parent up to
    /// the root.
    pub(crate) fn path_to_root(&self, index: usize) -> (path: Vec<K>)
        requires
            structure_ok(self.arena()),
            index < self.arena().len(),
        ensures
            path@ == upward(self.arena(), index as int),
    {
        let ghost nodes = self.arena();
        let mut path: Vec<K> = Vec::new();
        let mut current: usize = index;
        loop
            invariant
                nodes == self.arena(),
                structure_ok(nodes),
                current < nodes.len(),
                upward(nodes, index as int) == path@ + upward(nodes, current as int),
            ensures
                path@ == upward(nodes, index as int),
            decreases current,
        {
            assert(links_ok(nodes, current as int));
            match self.node(current).parent {
                Some(parent_index) => {
                    match &self.node(parent_index).key {
                        Key::Internal(k) => {
                            proof {
                                assert(path@.push(*k) + upward(nodes, parent_index as int) =~= path@
                                    + (seq![*k] + upward(nodes, parent_index as int)));
                            }
                            path.push(k.duplicate());
                            current = parent_index;
                        },
                        _ => {
                            assert(path@ + Seq::<K>::empty() =~= path@);
                            break ;
                        },
                    }
                },
                None => {
                    assert(path@ + Seq::<K>::empty() =~= path@);
                    break ;
                },
            }
        }
        path
    }

    /// The stored sequence that ends at the terminal node `index`.
    pub(crate) fn word_at(&self, index: usize) -> (word: Vec<K>)
        requires
            structure_ok(self.arena()),
            is_terminal(self.arena(), index as int),
        ensures
            word@ == label(self.arena(), index as int),
    {
        let path = self.path_to_root(index);
        let mut word: Vec<K> = Vec::new();
        let mut i: usize = path.len();
        while i > 0
            invariant
                i <= path.len(),
                word.len() == path.len() - i,
                forall|j: int| 0 <= j < word.len() ==> word@[j] == path@[path.len() - 1 - j],
            decreases i,
        {
            i -= 1;
            word.push(path[i].duplicate());
        }
        proof {
            lemma_terminal_label(self.arena(), index as int);
            lemma_upward_label(self.arena(), index as int);
            assert(word@ =~= path@.reverse());
        }
        word
    }

    /// The label and the cost of every terminal node in `order`, in the
    /// order of the list.
    pub(crate) fn values_at(&self, order: &Vec<usize>) -> (out: (Vec<(Vec<K>, V)>, Ghost<Seq<int>>))
        requires
            self.wf(),
            forall|i: int| 0 <= i < order.len() ==> #[trigger] order[i] < self.arena().len(),
        ensures
            read_from(self.arena(), order@, out.0@, out.1@),
    {
        let ghost nodes = self.arena();
        let mut values: Vec<(Vec<K>, V)> = Vec::new();
        let ghost mut at: Seq<int> = Seq::empty();
        let mut j: usize = 0;
        while j < order.len()
            invariant
                nodes == self.arena(),
                self.wf(),
                j <= order.len(),
                forall|i: int| 0 <= i < order.len() ==> #[trigger] order[i] < nodes.len(),
                read_from(nodes, order@.take(j as int), values@, at),
            decreases order.len() - j,
        {
            let index = order[j];
            let node = self.node(index);
            let ghost before = values@;
            let ghost at_before = at;
            let is_end = match &node.key {
                Key::End => true,
                _ => false,
            };
            if is_end {
                proof {
                    self.wf_unfold();
                    assert(aggregate_ok(nodes, index as int));
                }
                let word = self.word_at(index);
                match &node.min_descendent {
                    Some(v) => {
                        values.push((word, v.duplicate()));
                        proof {
                            at = at.push(j as int);
                        }
                    },
                    None => {},
                }
            }
            proof {
                let shorter = order@.take(j as int);
                let longer = order@.take(j + 1);
                assert forall|i: int| 0 <= i < at.len() implies {
                    &&& 0 <= #[trigger] at[i] < longer.len()
                    &&& is_terminal(nodes, longer[at[i]] as int)
                    &&& values@[i].0@ == label(nodes, longer[at[i]] as int)
                    &&& values@[i].1 == cost_of(nodes, longer[at[i]] as int)
                } by {
                    if i < at_before.len() {
                        assert(at[i] == at_before[i]);
                        assert(values@[i] == before[i]);
                        assert(shorter[at[i]] == longer[at[i]]);
                    }
                }
                assert forall|a: int, b: int| 0 <= a < b < at.len() implies #[trigger] at[a]
                    < #[trigger] at[b] by {
                    if b < at_before.len() {
                        assert(at_before[a] < at_before[b]);
                    } else {
                        assert(at[a] == at_before[a]);
                    }
                }
                assert forall|x: int|
                    0 <= x < longer.len() && is_terminal(
                        nodes,
                        #[trigger] longer[x] as int,
                    ) implies at.contains(x) by {
                    if x < j {
                        assert(shorter[x] == longer[x]);
                        assert(at_before.contains(x));
                        let i = choose|i: int| 0 <= i < at_before.len() && at_before[i] == x;
                        assert(at[i] == x);
                    } else {
                        assert(at[at.len() - 1] == x);
                    }
                }
            }
            j += 1;
        }
        assert(order@.take(order.len() as int) =~= order@);
        (values, Ghost(at))
    }
}

} // verus!
