//! What a traversal has to keep in order: the nodes it may still reach, the
//! frontier it holds and the nodes it has handed out.

use crate::arena::{is_ancestor, lemma_ancestor_step};
use crate::key::{query_admits, Key, Query};
use crate::trie::{depth, has_child, links_ok, parent_at, structure_ok, Node};
use vstd::prelude::*;

verus! {

/// The pattern of a traversal as a plain value.
pub open spec fn pattern_view<K>(pattern: Option<Vec<Query<K>>>) -> Option<Seq<Query<K>>> {
    match pattern {
        Some(p) => Some(p@),
        None => None,
    }
}

/// Whether the pattern lets a node with this key be entered at this depth.
/// Without a pattern every key is admitted; past the end of the pattern none
/// is.
pub open spec fn admits<K>(pattern: Option<Seq<Query<K>>>, at: int, key: Key<K>) -> bool {
    match pattern {
        None => true,
        Some(p) => 0 <= at < p.len() && query_admits(p[at], key),
    }
}

/// The number of links between `start` and a node below it.
pub open spec fn steps<K, V>(nodes: Seq<Node<K, V>>, start: int, n: int) -> nat
    decreases n,
{
    if 0 <= start < n < nodes.len() && start <= parent_at(nodes, n) < n {
        1 + steps(nodes, start, parent_at(nodes, n))
    } else {
        0
    }
}

/// Whether a traversal that starts at `start` enters node `n`: the node lies
/// below `start` and every key on the way down is admitted at its depth.
pub open spec fn reached<K, V>(
    nodes: Seq<Node<K, V>>,
    pattern: Option<Seq<Query<K>>>,
    start: int,
    n: int,
) -> bool
    decreases n,
{
    if n == start {
        0 <= start < nodes.len()
    } else if 0 <= start < n < nodes.len() && start <= parent_at(nodes, n) < n {
        reached(nodes, pattern, start, parent_at(nodes, n)) && admits(
            pattern,
            steps(nodes, start, n) as int,
            nodes[n].key,
        )
    } else {
        false
    }
}

/// The state of a traversal is in order: the frontier holds reached nodes
/// with their depths, no node is both handed out and waiting below a frontier
/// entry, and every reached node is handed out or waits below exactly one
/// frontier entry.
pub open spec fn frontier_ok<K, V>(
    nodes: Seq<Node<K, V>>,
    pattern: Option<Seq<Query<K>>>,
    start: int,
    frontier: Seq<(usize, usize)>,
    visited: Seq<int>,
) -> bool {
    &&& forall|k: int|
        0 <= k < frontier.len() ==> {
            &&& reached(nodes, pattern, start, (#[trigger] frontier[k]).0 as int)
            &&& frontier[k].1 == steps(nodes, start, frontier[k].0 as int)
        }
    &&& forall|k: int| 0 <= k < visited.len() ==> reached(nodes, pattern, start, #[trigger] visited[k])
    &&& visited.no_duplicates()
    &&& forall|n: int| #[trigger]
        reached(nodes, pattern, start, n) ==> visited.contains(n) || waiting(nodes, frontier, n)
    &&& forall|k: int, j: int|
        0 <= k < frontier.len() && 0 <= j < visited.len() ==> !is_ancestor(
            nodes,
            (#[trigger] frontier[k]).0 as int,
            #[trigger] visited[j],
        )
    &&& forall|k: int, j: int|
        0 <= k < frontier.len() && 0 <= j < frontier.len() && k != j ==> !is_ancestor(
            nodes,
            (#[trigger] frontier[k]).0 as int,
            (#[trigger] frontier[j]).0 as int,
        )
}

/// Whether the walk goes down the tree: every node handed out but the start
/// came after its parent, and the parent of every node on the frontier but
/// the start was handed out.
pub closed spec fn lineage_ok<K, V>(
    nodes: Seq<Node<K, V>>,
    start: int,
    frontier: Seq<(usize, usize)>,
    visited: Seq<int>,
) -> bool {
    &&& parents_first(nodes, start, visited)
    &&& forall|k: int|
        0 <= k < frontier.len() && (#[trigger] frontier[k]).0 != start ==> visited.contains(
            parent_at(nodes, frontier[k].0 as int),
        )
}

/// A walk that has only its start on the frontier goes down the tree.
pub proof fn lemma_lineage_start<K, V>(
    nodes: Seq<Node<K, V>>,
    start: int,
    frontier: Seq<(usize, usize)>,
)
    requires
        forall|k: int| 0 <= k < frontier.len() ==> (#[trigger] frontier[k]).0 == start,
    ensures
        lineage_ok(nodes, start, frontier, Seq::<int>::empty()),
{
}

/// In a walk that goes down the tree every node handed out but the start
/// came after its parent.
pub proof fn lemma_lineage<K, V>(
    nodes: Seq<Node<K, V>>,
    start: int,
    frontier: Seq<(usize, usize)>,
    visited: Seq<int>,
)
    requires
        lineage_ok(nodes, start, frontier, visited),
    ensures
        parents_first(nodes, start, visited),
{
}

/// Handing out a node of the frontier and putting children of it on the
/// frontier keeps the walk going down the tree.
pub proof fn lemma_lineage_step<K, V>(
    nodes: Seq<Node<K, V>>,
    start: int,
    frontier: Seq<(usize, usize)>,
    visited: Seq<int>,
    k: int,
    pushed: Seq<(usize, usize)>,
)
    requires
        lineage_ok(nodes, start, frontier, visited),
        0 <= k < frontier.len(),
        0 <= start <= frontier[k].0 < nodes.len(),
        links_ok(nodes, frontier[k].0 as int),
        forall|j: int|
            0 <= j < pushed.len() ==> has_child(
                nodes,
                frontier[k].0 as int,
                (#[trigger] pushed[j]).0 as int,
            ),
    ensures
        lineage_ok(
            nodes,
            start,
            frontier.remove(k) + pushed,
            visited.push(frontier[k].0 as int),
        ),
{
    let f = frontier[k].0 as int;
    let rest = frontier.remove(k);
    let next = rest + pushed;
    let seen = visited.push(f);
    assert forall|j: int| 0 <= j < seen.len() && #[trigger] seen[j] != start implies exists|i: int|
        0 <= i < j && #[trigger] seen[i] == parent_at(nodes, seen[j]) by {
        if j < visited.len() {
            assert(seen[j] == visited[j]);
            let i = choose|i: int| 0 <= i < j && #[trigger] visited[i] == parent_at(nodes, visited[j]);
            assert(seen[i] == visited[i]);
        } else {
            assert(visited.contains(parent_at(nodes, frontier[k].0 as int)));
            let i = choose|i: int|
                0 <= i < visited.len() && visited[i] == parent_at(nodes, frontier[k].0 as int);
            assert(seen[i] == visited[i]);
        }
    }
    assert forall|i: int| 0 <= i < next.len() && (#[trigger] next[i]).0 != start implies seen.contains(
        parent_at(nodes, next[i].0 as int),
    ) by {
        if i < rest.len() {
            let g = if i < k {
                i
            } else {
                i + 1
            };
            assert(next[i] == frontier[g]);
            let w = choose|w: int|
                0 <= w < visited.len() && visited[w] == parent_at(nodes, frontier[g].0 as int);
            assert(seen[w] == visited[w]);
        } else {
            let c = pushed[i - rest.len()].0 as int;
            assert(next[i] == pushed[i - rest.len()]);
            let w = choose|w: int|
                0 <= w < nodes[f].children@.len() && #[trigger] nodes[f].children@[w] as int == c;
            assert(parent_at(nodes, nodes[f].children@[w] as int) == f);
            assert(seen[visited.len() as int] == f);
        }
    }
}

/// Whether every node of the list but the start comes after its parent.
pub open spec fn parents_first<K, V>(nodes: Seq<Node<K, V>>, start: int, visited: Seq<int>) -> bool {
    forall|j: int|
        0 <= j < visited.len() && #[trigger] visited[j] != start ==> exists|i: int|
            0 <= i < j && #[trigger] visited[i] == parent_at(nodes, visited[j])
}

/// Whether node `n` lies at or below some frontier entry.
pub open spec fn waiting<K, V>(nodes: Seq<Node<K, V>>, frontier: Seq<(usize, usize)>, n: int) -> bool {
    exists|k: int| 0 <= k < frontier.len() && is_ancestor(nodes, (#[trigger] frontier[k]).0 as int, n)
}

/// The entries that expanding the node `f` at depth `d` adds to a frontier:
/// the admitted children of `f`, each once, one level further down.
pub open spec fn expansion<K, V>(
    nodes: Seq<Node<K, V>>,
    pattern: Option<Seq<Query<K>>>,
    f: int,
    d: int,
    pushed: Seq<(usize, usize)>,
) -> bool {
    &&& forall|j: int|
        0 <= j < pushed.len() ==> {
            &&& has_child(nodes, f, (#[trigger] pushed[j]).0 as int)
            &&& admits(pattern, d + 1, nodes[pushed[j].0 as int].key)
            &&& pushed[j].1 == d + 1
        }
    &&& forall|c: int|
        0 <= c < nodes.len() && #[trigger] has_child(nodes, f, c) && admits(
            pattern,
            d + 1,
            nodes[c].key,
        ) ==> exists|j: int| 0 <= j < pushed.len() && (#[trigger] pushed[j]).0 as int == c
    &&& forall|i: int, j: int|
        0 <= i < j < pushed.len() ==> (#[trigger] pushed[i]).0 != (#[trigger] pushed[j]).0
}

/// An ancestor has the smaller index.
pub proof fn lemma_ancestor_index<K, V>(nodes: Seq<Node<K, V>>, a: int, m: int)
    requires
        is_ancestor(nodes, a, m),
    ensures
        a <= m,
    decreases m,
{
    if a != m {
        lemma_ancestor_index(nodes, a, parent_at(nodes, m));
    }
}

/// A node that is reached lies below the start.
pub proof fn lemma_reached_below<K, V>(
    nodes: Seq<Node<K, V>>,
    pattern: Option<Seq<Query<K>>>,
    start: int,
    n: int,
)
    requires
        0 <= start,
        reached(nodes, pattern, start, n),
    ensures
        start <= n < nodes.len(),
        is_ancestor(nodes, start, n),
        steps(nodes, start, n) <= n - start,
    decreases n,
{
    if n != start {
        lemma_reached_below(nodes, pattern, start, parent_at(nodes, n));
    }
}

/// The way from a node to a node strictly below it leads through one of its
/// children.
pub proof fn lemma_child_towards<K, V>(nodes: Seq<Node<K, V>>, f: int, n: int) -> (c: int)
    requires
        structure_ok(nodes),
        0 <= f < nodes.len(),
        0 <= n < nodes.len(),
        is_ancestor(nodes, f, n),
        f != n,
    ensures
        0 <= c < nodes.len(),
        has_child(nodes, f, c),
        parent_at(nodes, c) == f,
        is_ancestor(nodes, c, n),
    decreases n,
{
    let p = parent_at(nodes, n);
    assert(links_ok(nodes, n));
    if p == f {
        n
    } else {
        let c = lemma_child_towards(nodes, f, p);
        c
    }
}

/// Every node between the start and a reached node is reached.
pub proof fn lemma_reached_between<K, V>(
    nodes: Seq<Node<K, V>>,
    pattern: Option<Seq<Query<K>>>,
    start: int,
    c: int,
    n: int,
)
    requires
        0 <= start,
        reached(nodes, pattern, start, n),
        is_ancestor(nodes, c, n),
        is_ancestor(nodes, start, c),
    ensures
        reached(nodes, pattern, start, c),
    decreases n,
{
    if c != n {
        lemma_ancestor_index(nodes, c, n);
        lemma_ancestor_index(nodes, start, c);
        lemma_reached_between(nodes, pattern, start, c, parent_at(nodes, n));
    }
}

/// A child of a reached node is reached exactly if its key is admitted one
/// level below its parent.
pub proof fn lemma_reached_child<K, V>(
    nodes: Seq<Node<K, V>>,
    pattern: Option<Seq<Query<K>>>,
    start: int,
    f: int,
    c: int,
)
    requires
        structure_ok(nodes),
        0 <= start,
        reached(nodes, pattern, start, f),
        0 <= c < nodes.len(),
        has_child(nodes, f, c),
    ensures
        f < c,
        parent_at(nodes, c) == f,
        steps(nodes, start, c) == steps(nodes, start, f) + 1,
        reached(nodes, pattern, start, c) == admits(
            pattern,
            (steps(nodes, start, f) + 1) as int,
            nodes[c].key,
        ),
        is_ancestor(nodes, f, c),
{
    lemma_reached_below(nodes, pattern, start, f);
    assert(links_ok(nodes, f));
    let w = choose|w: int| 0 <= w < nodes[f].children@.len() && #[trigger] nodes[f].children@[w] as int == c;
    assert(parent_at(nodes, nodes[f].children@[w] as int) == f);
    assert(is_ancestor(nodes, f, f));
}

/// Taking one entry off the frontier, handing its node out and putting the
/// admitted children of that node on the frontier keeps the state of a
/// traversal in order.
pub proof fn lemma_frontier_step<K, V>(
    nodes: Seq<Node<K, V>>,
    pattern: Option<Seq<Query<K>>>,
    start: int,
    frontier: Seq<(usize, usize)>,
    visited: Seq<int>,
    k: int,
    pushed: Seq<(usize, usize)>,
)
    requires
        structure_ok(nodes),
        0 <= start,
        frontier_ok(nodes, pattern, start, frontier, visited),
        0 <= k < frontier.len(),
        expansion(nodes, pattern, frontier[k].0 as int, frontier[k].1 as int, pushed),
    ensures
        frontier_ok(
            nodes,
            pattern,
            start,
            frontier.remove(k) + pushed,
            visited.push(frontier[k].0 as int),
        ),
        !visited.contains(frontier[k].0 as int),
{
    let f = frontier[k].0 as int;
    let d = frontier[k].1 as int;
    let rest = frontier.remove(k);
    let next = rest + pushed;
    let seen = visited.push(f);
    lemma_reached_below(nodes, pattern, start, f);
    assert(is_ancestor(nodes, f, f));
    // where the entries of the new frontier come from
    assert forall|i: int| 0 <= i < rest.len() implies #[trigger] rest[i] == frontier[if i < k {
        i
    } else {
        i + 1
    }] by {}
    assert forall|i: int| 0 <= i < next.len() implies #[trigger] next[i] == (if i < rest.len() {
        rest[i]
    } else {
        pushed[i - rest.len()]
    }) by {}
    // the pushed children
    assert forall|j: int| 0 <= j < pushed.len() implies {
        &&& reached(nodes, pattern, start, (#[trigger] pushed[j]).0 as int)
        &&& pushed[j].1 == steps(nodes, start, pushed[j].0 as int)
        &&& is_ancestor(nodes, f, pushed[j].0 as int)
        &&& f < pushed[j].0
        &&& parent_at(nodes, pushed[j].0 as int) == f
    } by {
        let c = pushed[j].0 as int;
        assert(links_ok(nodes, f));
        lemma_reached_child(nodes, pattern, start, f, c);
    }
    // the nodes handed out
    assert(!visited.contains(f)) by {
        if visited.contains(f) {
            let j = choose|j: int| 0 <= j < visited.len() && visited[j] == f;
            assert(!is_ancestor(nodes, frontier[k].0 as int, visited[j]));
        }
    }
    assert(seen.no_duplicates());
    assert forall|j: int| 0 <= j < seen.len() implies reached(
        nodes,
        pattern,
        start,
        #[trigger] seen[j],
    ) by {
        if j < visited.len() {
            assert(seen[j] == visited[j]);
        }
    }
    // every reached node is accounted for
    assert forall|n: int| #[trigger] reached(nodes, pattern, start, n) implies seen.contains(n)
        || waiting(nodes, next, n) by {
        lemma_reached_below(nodes, pattern, start, n);
        if visited.contains(n) {
            let j = choose|j: int| 0 <= j < visited.len() && visited[j] == n;
            assert(seen[j] == n);
        } else if n == f {
            assert(seen[visited.len() as int] == n);
        } else {
            assert(waiting(nodes, frontier, n));
            let g = choose|g: int|
                0 <= g < frontier.len() && is_ancestor(nodes, (#[trigger] frontier[g]).0 as int, n);
            if g == k {
                let c = lemma_child_towards(nodes, f, n);
                lemma_reached_child(nodes, pattern, start, f, c);
                assert(is_ancestor(nodes, start, c)) by {
                    assert(is_ancestor(nodes, c, c));
                    lemma_ancestor_up(nodes, start, f, c);
                }
                lemma_reached_between(nodes, pattern, start, c, n);
                let j = choose|j: int| 0 <= j < pushed.len() && (#[trigger] pushed[j]).0 as int == c;
                assert(next[rest.len() + j] == pushed[j]);
                assert(is_ancestor(nodes, next[rest.len() + j].0 as int, n));
            } else {
                let i = if g < k {
                    g
                } else {
                    g - 1
                };
                assert(rest[i] == frontier[g]);
                assert(next[i] == frontier[g]);
                assert(is_ancestor(nodes, next[i].0 as int, n));
            }
        }
    }
    // frontier entries hold no node that was handed out
    assert forall|i: int, j: int| 0 <= i < next.len() && 0 <= j < seen.len() implies !is_ancestor(
        nodes,
        (#[trigger] next[i]).0 as int,
        #[trigger] seen[j],
    ) by {
        let x = next[i].0 as int;
        let v = seen[j];
        if is_ancestor(nodes, x, v) {
            if i < rest.len() {
                let g = if i < k {
                    i
                } else {
                    i + 1
                };
                assert(next[i] == frontier[g]);
                if j < visited.len() {
                    assert(!is_ancestor(nodes, frontier[g].0 as int, visited[j]));
                } else {
                    assert(!is_ancestor(nodes, frontier[g].0 as int, frontier[k].0 as int));
                }
            } else {
                let c = pushed[i - rest.len()].0 as int;
                if j < visited.len() {
                    lemma_ancestor_step(nodes, f, c, v);
                    assert(!is_ancestor(nodes, frontier[k].0 as int, visited[j]));
                } else {
                    lemma_ancestor_index(nodes, c, f);
                }
            }
        }
    }
    // frontier entries do not lie below each other
    assert forall|i: int, j: int|
        0 <= i < next.len() && 0 <= j < next.len() && i != j implies !is_ancestor(
        nodes,
        (#[trigger] next[i]).0 as int,
        (#[trigger] next[j]).0 as int,
    ) by {
        let x = next[i].0 as int;
        let y = next[j].0 as int;
        if is_ancestor(nodes, x, y) {
            if i < rest.len() && j < rest.len() {
                let gi = if i < k {
                    i
                } else {
                    i + 1
                };
                let gj = if j < k {
                    j
                } else {
                    j + 1
                };
                assert(next[i] == frontier[gi]);
                assert(next[j] == frontier[gj]);
                assert(!is_ancestor(nodes, frontier[gi].0 as int, frontier[gj].0 as int));
            } else if i < rest.len() {
                // an old entry above a new child of `f`
                let gi = if i < k {
                    i
                } else {
                    i + 1
                };
                assert(next[i] == frontier[gi]);
                let c = pushed[j - rest.len()].0 as int;
                assert(y == c);
                if x == c {
                    assert(is_ancestor(nodes, f, x));
                    assert(!is_ancestor(nodes, frontier[k].0 as int, frontier[gi].0 as int));
                } else {
                    assert(is_ancestor(nodes, x, f));
                    assert(!is_ancestor(nodes, frontier[gi].0 as int, frontier[k].0 as int));
                }
            } else if j < rest.len() {
                // a new child of `f` above an old entry
                let gj = if j < k {
                    j
                } else {
                    j + 1
                };
                assert(next[j] == frontier[gj]);
                let c = pushed[i - rest.len()].0 as int;
                lemma_ancestor_step(nodes, f, c, y);
                assert(!is_ancestor(nodes, frontier[k].0 as int, frontier[gj].0 as int));
            } else {
                let ci = pushed[i - rest.len()].0 as int;
                let cj = pushed[j - rest.len()].0 as int;
                assert(ci != cj) by {
                    if i < j {
                        assert(pushed[i - rest.len()].0 != pushed[j - rest.len()].0);
                    } else {
                        assert(pushed[j - rest.len()].0 != pushed[i - rest.len()].0);
                    }
                }
                assert(is_ancestor(nodes, ci, f));
                lemma_ancestor_index(nodes, ci, f);
            }
        }
    }
    assert forall|i: int| 0 <= i < next.len() implies {
        &&& reached(nodes, pattern, start, (#[trigger] next[i]).0 as int)
        &&& next[i].1 == steps(nodes, start, next[i].0 as int)
    } by {
        if i < rest.len() {
            let g = if i < k {
                i
            } else {
                i + 1
            };
            assert(next[i] == frontier[g]);
        } else {
            assert(next[i] == pushed[i - rest.len()]);
        }
    }
}

/// Ancestry is transitive across one link: what is above a parent is above
/// its child.
pub proof fn lemma_ancestor_up<K, V>(nodes: Seq<Node<K, V>>, a: int, p: int, c: int)
    requires
        0 < c < nodes.len(),
        0 <= p < c,
        parent_at(nodes, c) == p,
        is_ancestor(nodes, a, p),
    ensures
        is_ancestor(nodes, a, c),
{
}

/// The depth of a node is its distance from the root.
pub proof fn lemma_steps_from_root<K, V>(nodes: Seq<Node<K, V>>, n: int)
    ensures
        steps(nodes, 0, n) == depth(nodes, n),
    decreases n,
{
    if 0 < n < nodes.len() && 0 <= parent_at(nodes, n) < n {
        lemma_steps_from_root(nodes, parent_at(nodes, n));
    }
}

} // verus!
