//! Depth-first enumeration of the nodes of a trie whose nodes own their
//! children, honouring a pattern.

use crate::arena::is_prefix;
use crate::frontier::{admits, pattern_view};
use crate::key::{Key, Query};
use crate::node::{lemma_position, position_of, Node, Ordered};
use crate::symbol::Cost;
use vstd::prelude::*;

verus! {

/// A depth-first walk over the nodes below a root that a pattern admits.
/// Every entry of the stack is the way from the root to a node that is
/// still to be handed out.
pub struct DfsTraversal<'a, K, V> {
    stack: Vec<Vec<&'a Node<K, V>>>,
    pattern: Option<Vec<Query<K>>>,
    root: Ghost<Node<K, V>>,
    visited: Ghost<Seq<Seq<Key<K>>>>,
}

/// The keys on a way from the root, the root's own key left out.
pub open spec fn path_of<K, V>(way: Seq<&Node<K, V>>) -> Seq<Key<K>> {
    Seq::new((way.len() - 1) as nat, |i: int| way[i + 1].contents)
}

/// The keys of the ways on a stack.
pub open spec fn paths_of<K, V>(stack: Seq<Vec<&Node<K, V>>>) -> Seq<Seq<Key<K>>> {
    stack.map_values(|way: Vec<&Node<K, V>>| path_of(way@))
}

/// Whether the walk follows `path`: the keys lead to a node, and the
/// pattern admits each of them at its depth.
pub open spec fn walked<K: Ordered, V: Cost>(
    root: Node<K, V>,
    pattern: Option<Seq<Query<K>>>,
    path: Seq<Key<K>>,
) -> bool {
    &&& root.descend(path) is Some
    &&& forall|i: int| 0 <= i < path.len() ==> admits(pattern, i + 1, #[trigger] path[i])
}

/// Whether the state of a walk is in order: the stack holds ways that the
/// walk follows, none of them below another or above a path handed out, and
/// every path that the walk follows is handed out or lies below a way on the
/// stack.
pub open spec fn ways_ok<K: Ordered, V: Cost>(
    root: Node<K, V>,
    pattern: Option<Seq<Query<K>>>,
    frontier: Seq<Seq<Key<K>>>,
    visited: Seq<Seq<Key<K>>>,
) -> bool {
    &&& forall|k: int| 0 <= k < frontier.len() ==> walked(root, pattern, #[trigger] frontier[k])
    &&& forall|k: int| 0 <= k < visited.len() ==> walked(root, pattern, #[trigger] visited[k])
    &&& visited.no_duplicates()
    &&& forall|path: Seq<Key<K>>|
        #[trigger] walked(root, pattern, path) ==> visited.contains(path) || below(frontier, path)
    &&& forall|k: int, j: int|
        0 <= k < frontier.len() && 0 <= j < visited.len() ==> !is_prefix(
            #[trigger] frontier[k],
            #[trigger] visited[j],
        )
    &&& forall|k: int, j: int|
        0 <= k < frontier.len() && 0 <= j < frontier.len() && k != j ==> !is_prefix(
            #[trigger] frontier[k],
            #[trigger] frontier[j],
        )
}

/// Whether every path of the list but the empty one comes after the path
/// to its parent.
pub open spec fn parents_first<K>(visited: Seq<Seq<Key<K>>>) -> bool {
    forall|j: int|
        0 <= j < visited.len() && (#[trigger] visited[j]).len() > 0 ==> exists|i: int|
            0 <= i < j && #[trigger] visited[i] == visited[j].drop_last()
}

/// Whether the walk goes down the tree: every path handed out came after
/// the path to its parent, and the path to the parent of every way on the
/// frontier was handed out.
pub closed spec fn descent_ok<K>(frontier: Seq<Seq<Key<K>>>, visited: Seq<Seq<Key<K>>>) -> bool {
    &&& parents_first(visited)
    &&& forall|k: int|
        0 <= k < frontier.len() && (#[trigger] frontier[k]).len() > 0 ==> visited.contains(
            frontier[k].drop_last(),
        )
}

/// A walk that has only the empty way on the frontier goes down the tree.
pub proof fn lemma_descent_start<K>(frontier: Seq<Seq<Key<K>>>)
    requires
        forall|k: int| 0 <= k < frontier.len() ==> (#[trigger] frontier[k]).len() == 0,
    ensures
        descent_ok(frontier, Seq::<Seq<Key<K>>>::empty()),
{
}

/// In a walk that goes down the tree every path handed out came after the
/// path to its parent.
pub proof fn lemma_descent<K>(frontier: Seq<Seq<Key<K>>>, visited: Seq<Seq<Key<K>>>)
    requires
        descent_ok(frontier, visited),
    ensures
        parents_first(visited),
{
}

/// Handing out the last way of the frontier and putting ways one key longer
/// on the frontier keeps the walk going down the tree.
pub proof fn lemma_descent_step<K>(
    frontier: Seq<Seq<Key<K>>>,
    visited: Seq<Seq<Key<K>>>,
    pushed: Seq<Seq<Key<K>>>,
)
    requires
        descent_ok(frontier, visited),
        frontier.len() > 0,
        forall|j: int|
            0 <= j < pushed.len() ==> (#[trigger] pushed[j]).len() == frontier.last().len() + 1
                && is_prefix(frontier.last(), pushed[j]),
    ensures
        descent_ok(frontier.drop_last() + pushed, visited.push(frontier.last())),
{
    let f = frontier.last();
    let rest = frontier.drop_last();
    let next = rest + pushed;
    let seen = visited.push(f);
    assert forall|j: int| 0 <= j < seen.len() && (#[trigger] seen[j]).len() > 0 implies exists|
        i: int,
    | 0 <= i < j && #[trigger] seen[i] == seen[j].drop_last() by {
        if j < visited.len() {
            assert(seen[j] == visited[j]);
            let i = choose|i: int| 0 <= i < j && #[trigger] visited[i] == visited[j].drop_last();
            assert(seen[i] == visited[i]);
        } else {
            assert(frontier[frontier.len() - 1] == f);
            let i = choose|i: int| 0 <= i < visited.len() && visited[i] == f.drop_last();
            assert(seen[i] == visited[i]);
        }
    }
    assert forall|k: int| 0 <= k < next.len() && (#[trigger] next[k]).len() > 0 implies seen.contains(
        next[k].drop_last(),
    ) by {
        if k < rest.len() {
            assert(next[k] == frontier[k]);
            let w = choose|w: int| 0 <= w < visited.len() && visited[w] == frontier[k].drop_last();
            assert(seen[w] == visited[w]);
        } else {
            let p = pushed[k - rest.len()];
            assert(next[k] == p);
            assert(p.drop_last() =~= p.take(f.len() as int));
            assert(seen[visited.len() as int] == f);
        }
    }
}

/// Whether `path` begins with one of the ways of the frontier.
pub open spec fn below<K>(frontier: Seq<Seq<Key<K>>>, path: Seq<Key<K>>) -> bool {
    exists|k: int| 0 <= k < frontier.len() && is_prefix(#[trigger] frontier[k], path)
}

/// Whether `pushed` are the ways one key longer than `way` that the walk
/// follows, each once.
pub open spec fn extensions<K: Ordered, V: Cost>(
    root: Node<K, V>,
    pattern: Option<Seq<Query<K>>>,
    way: Seq<Key<K>>,
    pushed: Seq<Seq<Key<K>>>,
) -> bool {
    &&& forall|j: int|
        0 <= j < pushed.len() ==> walked(root, pattern, #[trigger] pushed[j]) && pushed[j].len()
            == way.len() + 1 && is_prefix(way, pushed[j])
    &&& forall|key: Key<K>|
        #[trigger] walked(root, pattern, way.push(key)) ==> exists|j: int|
            0 <= j < pushed.len() && #[trigger] pushed[j] == way.push(key)
    &&& forall|i: int, j: int|
        0 <= i < j < pushed.len() ==> #[trigger] pushed[i] != #[trigger] pushed[j]
}

/// Walking down `first + rest` is walking down `first` and then `rest`.
pub proof fn lemma_descend_concat<K: Ordered, V: Cost>(
    node: Node<K, V>,
    first: Seq<Key<K>>,
    rest: Seq<Key<K>>,
)
    ensures
        node.descend(first + rest) == match node.descend(first) {
            Some(n) => n.descend(rest),
            None => None,
        },
    decreases first.len(),
{
    if first.len() == 0 {
        assert(first + rest =~= rest);
    } else {
        let whole = first + rest;
        assert(whole[0] == first[0]);
        assert(whole.drop_first() =~= first.drop_first() + rest);
        match position_of(node.children.0@, first[0]) {
            Some(i) => {
                lemma_descend_concat(node.children.0@[i], first.drop_first(), rest);
            },
            None => {},
        }
    }
}

/// A node that a walk leads to is in order.
pub proof fn lemma_descend_wf<K: Ordered, V: Cost>(node: Node<K, V>, path: Seq<Key<K>>)
    requires
        node.wf(),
        node.descend(path) is Some,
    ensures
        node.descend(path)->0.wf(),
    decreases path.len(),
{
    if path.len() > 0 {
        let i = position_of(node.children.0@, path[0])->0;
        assert(node.children.0@[i].wf());
        lemma_descend_wf(node.children.0@[i], path.drop_first());
    }
}

/// One key leads from a node to its child with that key.
pub proof fn lemma_descend_step<K: Ordered, V: Cost>(node: Node<K, V>, key: Key<K>)
    ensures
        node.descend(seq![key]) == match position_of(node.children.0@, key) {
            Some(i) => Some(node.children.0@[i]),
            None => None,
        },
{
    let path = seq![key];
    assert(path[0] == key);
    assert(path.drop_first().len() == 0);
    match position_of(node.children.0@, key) {
        Some(i) => {
            assert(node.children.0@[i].descend(path.drop_first()) == Some(node.children.0@[i]));
        },
        None => {},
    }
}

/// A path that begins with a shorter way begins with that way and one more
/// key.
pub proof fn lemma_next_key<K>(way: Seq<Key<K>>, path: Seq<Key<K>>)
    requires
        is_prefix(way, path),
        way != path,
    ensures
        way.len() < path.len(),
        is_prefix(way.push(path[way.len() as int]), path),
{
    if way.len() == path.len() {
        assert(path.take(way.len() as int) =~= path);
    }
    assert(path.take((way.len() + 1) as int) =~= path.take(way.len() as int).push(path[way.len() as int]));
}

/// A beginning of a path that the walk follows is followed too.
pub proof fn lemma_walked_prefix<K: Ordered, V: Cost>(
    root: Node<K, V>,
    pattern: Option<Seq<Query<K>>>,
    way: Seq<Key<K>>,
    path: Seq<Key<K>>,
)
    requires
        walked(root, pattern, path),
        is_prefix(way, path),
    ensures
        walked(root, pattern, way),
{
    let rest = path.skip(way.len() as int);
    assert(path =~= way + rest);
    lemma_descend_concat(root, way, rest);
    assert forall|i: int| 0 <= i < way.len() implies admits(pattern, i + 1, #[trigger] way[i]) by {
        assert(way[i] == path[i]);
    }
}

/// Prefixes compose.
pub proof fn lemma_prefix_transitive<K>(a: Seq<Key<K>>, b: Seq<Key<K>>, c: Seq<Key<K>>)
    requires
        is_prefix(a, b),
        is_prefix(b, c),
    ensures
        is_prefix(a, c),
{
    assert(c.take(a.len() as int) =~= c.take(b.len() as int).take(a.len() as int));
}

/// Of two beginnings of one path the shorter begins the longer.
pub proof fn lemma_prefixes_nest<K>(a: Seq<Key<K>>, b: Seq<Key<K>>, c: Seq<Key<K>>)
    requires
        is_prefix(a, c),
        is_prefix(b, c),
        a.len() <= b.len(),
    ensures
        is_prefix(a, b),
{
    assert(b.take(a.len() as int) =~= c.take(b.len() as int).take(a.len() as int));
    assert(c.take(a.len() as int) =~= c.take(b.len() as int).take(a.len() as int));
}

/// Handing out the last way of the frontier and putting its extensions on
/// the frontier keeps the state of a walk in order.
pub proof fn lemma_ways_step<K: Ordered, V: Cost>(
    root: Node<K, V>,
    pattern: Option<Seq<Query<K>>>,
    frontier: Seq<Seq<Key<K>>>,
    visited: Seq<Seq<Key<K>>>,
    pushed: Seq<Seq<Key<K>>>,
)
    requires
        ways_ok(root, pattern, frontier, visited),
        frontier.len() > 0,
        extensions(root, pattern, frontier.last(), pushed),
    ensures
        ways_ok(root, pattern, frontier.drop_last() + pushed, visited.push(frontier.last())),
        !visited.contains(frontier.last()),
{
    let last = frontier.len() - 1;
    let f = frontier.last();
    let rest = frontier.drop_last();
    let next = rest + pushed;
    let seen = visited.push(f);
    assert(is_prefix(f, f)) by {
        assert(f.take(f.len() as int) =~= f);
    }
    assert(!visited.contains(f)) by {
        if visited.contains(f) {
            let j = choose|j: int| 0 <= j < visited.len() && visited[j] == f;
            assert(!is_prefix(frontier[last], visited[j]));
        }
    }
    assert forall|i: int| 0 <= i < next.len() implies #[trigger] next[i] == (if i < rest.len() {
        frontier[i]
    } else {
        pushed[i - rest.len()]
    }) by {}
    assert forall|j: int| 0 <= j < seen.len() implies walked(root, pattern, #[trigger] seen[j]) by {
        if j < visited.len() {
            assert(seen[j] == visited[j]);
        }
    }
    assert forall|path: Seq<Key<K>>| #[trigger] walked(root, pattern, path) implies seen.contains(
        path,
    ) || below(next, path) by {
        if visited.contains(path) {
            let j = choose|j: int| 0 <= j < visited.len() && visited[j] == path;
            assert(seen[j] == path);
        } else if path == f {
            assert(seen[visited.len() as int] == path);
        } else {
            let g = choose|g: int| 0 <= g < frontier.len() && is_prefix(#[trigger] frontier[g], path);
            if g == last {
                lemma_next_key(f, path);
                let longer = f.push(path[f.len() as int]);
                lemma_walked_prefix(root, pattern, longer, path);
                let j = choose|j: int| 0 <= j < pushed.len() && #[trigger] pushed[j] == longer;
                assert(next[rest.len() + j] == longer);
                assert(is_prefix(next[rest.len() + j], path));
            } else {
                assert(next[g] == frontier[g]);
                assert(is_prefix(next[g], path));
            }
        }
    }
    assert forall|i: int, j: int| 0 <= i < next.len() && 0 <= j < seen.len() implies !is_prefix(
        #[trigger] next[i],
        #[trigger] seen[j],
    ) by {
        if is_prefix(next[i], seen[j]) {
            if i < rest.len() {
                if j < visited.len() {
                    assert(!is_prefix(frontier[i], visited[j]));
                } else {
                    assert(!is_prefix(frontier[i], frontier[last]));
                }
            } else {
                let p = pushed[i - rest.len()];
                if j < visited.len() {
                    lemma_prefix_transitive(f, p, visited[j]);
                    assert(!is_prefix(frontier[last], visited[j]));
                }
            }
        }
    }
    assert forall|i: int, j: int|
        0 <= i < next.len() && 0 <= j < next.len() && i != j implies !is_prefix(
        #[trigger] next[i],
        #[trigger] next[j],
    ) by {
        if is_prefix(next[i], next[j]) {
            if i < rest.len() && j < rest.len() {
                assert(!is_prefix(frontier[i], frontier[j]));
            } else if i < rest.len() {
                let p = pushed[j - rest.len()];
                if frontier[i].len() <= f.len() {
                    lemma_prefixes_nest(frontier[i], f, p);
                    assert(!is_prefix(frontier[i], frontier[last]));
                } else {
                    assert(p.take(frontier[i].len() as int) =~= p);
                    lemma_prefix_transitive(f, p, frontier[i]);
                    assert(!is_prefix(frontier[last], frontier[i]));
                }
            } else if j < rest.len() {
                let p = pushed[i - rest.len()];
                lemma_prefix_transitive(f, p, frontier[j]);
                assert(!is_prefix(frontier[last], frontier[j]));
            } else {
                let a = pushed[i - rest.len()];
                let b = pushed[j - rest.len()];
                assert(b.take(a.len() as int) =~= b);
                if i < j {
                    assert(pushed[i - rest.len()] != pushed[j - rest.len()]);
                } else {
                    assert(pushed[j - rest.len()] != pushed[i - rest.len()]);
                }
            }
        }
    }
}

impl<'a, K: Ordered, V: Cost> DfsTraversal<'a, K, V> {
    /// The state of the walk is in order.
    pub closed spec fn inv(&self) -> bool {
        &&& self.root@.wf()
        &&& forall|k: int|
            0 <= k < self.stack@.len() ==> {
                &&& (#[trigger] self.stack@[k])@.len() >= 1
                &&& *self.stack@[k]@[0] == self.root@
                &&& self.root@.descend(path_of(self.stack@[k]@)) == Some(*self.stack@[k]@.last())
            }
        &&& ways_ok(self.root@, pattern_view(self.pattern), paths_of(self.stack@), self.visited@)
        &&& descent_ok(paths_of(self.stack@), self.visited@)
    }

    /// The node the walk started at.
    pub closed spec fn root(&self) -> Node<K, V> {
        self.root@
    }

    /// The pattern that the walk honours.
    pub closed spec fn pattern(&self) -> Option<Seq<Query<K>>> {
        pattern_view(self.pattern)
    }

    /// The paths handed out so far, in order.
    pub closed spec fn visited(&self) -> Seq<Seq<Key<K>>> {
        self.visited@
    }

    /// What the paths handed out so far have in common: the walk follows
    /// each of them, none was handed out twice, and each came after the path
    /// to its parent.
    pub proof fn lemma_visited(&self)
        requires
            self.inv(),
        ensures
            self.visited().no_duplicates(),
            forall|i: int|
                0 <= i < self.visited().len() ==> walked(
                    self.root(),
                    self.pattern(),
                    #[trigger] self.visited()[i],
                ),
            parents_first(self.visited()),
    {
        lemma_descent(paths_of(self.stack@), self.visited@);
    }

    /// A walk from `root`.
    pub fn new(root: &'a Node<K, V>, pattern: Option<Vec<Query<K>>>) -> (walk: Self)
        requires
            root.wf(),
        ensures
            walk.inv(),
            walk.root() == *root,
            walk.pattern() == pattern_view(pattern),
            walk.visited() == Seq::<Seq<Key<K>>>::empty(),
    {
        let mut way: Vec<&'a Node<K, V>> = Vec::new();
        way.push(root);
        let mut stack: Vec<Vec<&'a Node<K, V>>> = Vec::new();
        stack.push(way);
        proof {
            let empty = Seq::<Key<K>>::empty();
            assert(path_of(stack@[0]@) =~= empty);
            assert(paths_of(stack@)[0] == empty);
            assert forall|path: Seq<Key<K>>| below(paths_of(stack@), path) by {
                assert(path.take(0) =~= empty);
                assert(is_prefix(paths_of(stack@)[0], path));
            }
            lemma_descent_start(paths_of(stack@));
        }
        DfsTraversal { pattern, stack, root: Ghost(*root), visited: Ghost(Seq::empty()) }
    }

    /// Hands out the next node of the walk with the symbols on the way to
    /// it, `None` standing for a sentinel; or `None` when every node that the
    /// pattern admits was handed out.
    pub fn next(&mut self) -> (item: Option<(Vec<Option<&'a K>>, &'a Node<K, V>)>)
        requires
            old(self).inv(),
        ensures
            final(self).inv(),
            final(self).root() == old(self).root(),
            final(self).pattern() == old(self).pattern(),
            match item {
                Some((keys, node)) => {
                    &&& final(self).visited().len() == old(self).visited().len() + 1
                    &&& final(self).visited().drop_last() == old(self).visited()
                    &&& !old(self).visited().contains(final(self).visited().last())
                    &&& old(self).root().descend(final(self).visited().last()) == Some(*node)
                    &&& keys@.len() == final(self).visited().last().len() + 1
                    &&& keys@[0] == symbol_of(old(self).root().contents)
                    &&& forall|i: int|
                        0 <= i < final(self).visited().last().len() ==> #[trigger] keys@[i + 1]
                            == symbol_of(final(self).visited().last()[i])
                },
                None => {
                    &&& final(self).visited() == old(self).visited()
                    &&& forall|path: Seq<Key<K>>|
                        walked(old(self).root(), old(self).pattern(), path) ==> old(
                            self,
                        ).visited().contains(path)
                },
            },
    {
        let ghost root = self.root@;
        let ghost pat = pattern_view(self.pattern);
        let ghost ways = self.stack@;
        let ghost frontier = paths_of(self.stack@);
        match self.stack.pop() {
            Some(prefix) => {
                let ghost last = ways.len() - 1;
                assert(prefix == ways[last]);
                assert(frontier[last] == path_of(prefix@));
                let ghost f = path_of(prefix@);
                let ghost rest = self.stack@;
                assert(rest =~= ways.drop_last());
                assert(paths_of(rest) =~= frontier.drop_last());
                let node: &'a Node<K, V> = prefix[prefix.len() - 1];
                proof {
                    lemma_descend_wf(root, f);
                }
                // the children that the pattern admits at this depth
                let mut admitted: Vec<&'a Node<K, V>> = Vec::new();
                let ghost kids = node.children.0@;
                let ghost level = (f.len() + 1) as int;
                let ghost mut from: Seq<int> = Seq::empty();
                let mut symbols_only = false;
                let take_all = match &self.pattern {
                    None => true,
                    Some(p) => {
                        if prefix.len() < p.len() {
                            match &p[prefix.len()] {
                                Query::Any => {
                                    symbols_only = true;
                                    true
                                },
                                Query::Matches(k) => {
                                    match node.children.get(k) {
                                        Some(child) => {
                                            admitted.push(child);
                                            proof {
                                                let at = position_of(kids, *k)->0;
                                                from = from.push(at);
                                                assert forall|i: int|
                                                    0 <= i < kids.len() && admits(
                                                        pat,
                                                        level,
                                                        (#[trigger] kids[i]).contents,
                                                    ) implies from.contains(i) by {
                                                    lemma_position(kids, i);
                                                    assert(from[0] == at);
                                                }
                                            }
                                        },
                                        None => {},
                                    }
                                    false
                                },
                            }
                        } else {
                            false
                        }
                    },
                };
                if take_all {
                    let children = node.iter_children();
                    let mut c: usize = 0;
                    while c < children.len()
                        invariant
                            c <= children.len(),
                            children@ == kids,
                            0 <= level,
                            symbols_only ==> pat is Some && level < pat->0.len() && pat->0[level] is Any,
                            !symbols_only ==> pat is None,
                            from.len() == admitted@.len(),
                            forall|i: int|
                                0 <= i < from.len() ==> 0 <= #[trigger] from[i] < c && *admitted@[i]
                                    == kids[from[i]] && admits(pat, level, kids[from[i]].contents),
                            forall|a: int, b: int|
                                0 <= a < b < from.len() ==> #[trigger] from[a] < #[trigger] from[b],
                            forall|i: int|
                                0 <= i < c && admits(pat, level, (#[trigger] kids[i]).contents)
                                    ==> from.contains(i),
                        decreases children.len() - c,
                    {
                        let ghost from_before = from;
                        let keep = if symbols_only {
                            match &children[c].contents {
                                Key::Internal(_) => true,
                                _ => false,
                            }
                        } else {
                            true
                        };
                        if keep {
                            admitted.push(&children[c]);
                            proof {
                                from = from.push(c as int);
                            }
                        }
                        proof {
                            assert forall|i: int|
                                0 <= i < c + 1 && admits(
                                    pat,
                                    level,
                                    (#[trigger] kids[i]).contents,
                                ) implies from.contains(i) by {
                                if i < c {
                                    let w = choose|w: int|
                                        0 <= w < from_before.len() && from_before[w] == i;
                                    assert(from[w] == i);
                                } else {
                                    assert(from[from.len() - 1] == i);
                                }
                            }
                        }
                        c += 1;
                    }
                }
                let ghost pushed = Seq::new(
                    admitted@.len(),
                    |j: int| f.push(admitted@[j].contents),
                );
                proof {
                    assert(from.len() == admitted@.len());
                    assert forall|j: int| 0 <= j < admitted@.len() implies 0 <= #[trigger] from[j]
                        < kids.len() && *admitted@[j] == kids[from[j]] && admits(
                        pat,
                        level,
                        kids[from[j]].contents,
                    ) by {}
                    assert forall|j: int| 0 <= j < pushed.len() implies walked(
                        root,
                        pat,
                        #[trigger] pushed[j],
                    ) && pushed[j].len() == f.len() + 1 && is_prefix(f, pushed[j]) && root.descend(
                        pushed[j],
                    ) == Some(*admitted@[j]) by {
                        let child = *admitted@[j];
                        assert(child == kids[from[j]]);
                        lemma_position(kids, from[j]);
                        lemma_descend_step(*node, child.contents);
                        lemma_descend_concat(root, f, seq![child.contents]);
                        assert(f + seq![child.contents] =~= pushed[j]);
                        assert(pushed[j].take(f.len() as int) =~= f);
                        assert forall|i: int| 0 <= i < pushed[j].len() implies admits(
                            pat,
                            i + 1,
                            #[trigger] pushed[j][i],
                        ) by {
                            if i < f.len() {
                                assert(pushed[j][i] == f[i]);
                            }
                        }
                    }
                    assert forall|key: Key<K>| #[trigger]
                        walked(root, pat, f.push(key)) implies exists|j: int|
                        0 <= j < pushed.len() && #[trigger] pushed[j] == f.push(key) by {
                        lemma_descend_concat(root, f, seq![key]);
                        assert(f + seq![key] =~= f.push(key));
                        lemma_descend_step(*node, key);
                        let at = position_of(kids, key)->0;
                        assert(admits(pat, level, f.push(key)[f.len() as int]));
                        assert(kids[at].contents == key);
                        assert(from.contains(at));
                        let j = choose|j: int| 0 <= j < from.len() && from[j] == at;
                        assert(pushed[j] == f.push(key));
                    }
                    assert forall|i: int, j: int| 0 <= i < j < pushed.len() implies #[trigger] pushed[i]
                        != #[trigger] pushed[j] by {
                        assert(from[i] < from[j]);
                        assert(key_differs(kids, from[i], from[j]));
                        assert(pushed[i][f.len() as int] == admitted@[i].contents);
                        assert(pushed[j][f.len() as int] == admitted@[j].contents);
                    }
                    lemma_ways_step(root, pat, frontier, self.visited@, pushed);
                    lemma_descent_step(frontier, self.visited@, pushed);
                }
                // one longer way for each admitted child
                let mut c: usize = 0;
                while c < admitted.len()
                    invariant
                        c <= admitted.len(),
                        rest == ways.drop_last(),
                        self.stack@.len() == rest.len() + c,
                        forall|k: int| 0 <= k < rest.len() ==> self.stack@[k] == rest[k],
                        forall|k: int|
                            0 <= k < c ==> (#[trigger] self.stack@[rest.len() + k])@ == prefix@.push(
                                admitted@[k],
                            ),
                        self.pattern == old(self).pattern,
                        self.root == old(self).root,
                        self.visited == old(self).visited,
                    decreases admitted.len() - c,
                {
                    let mut v = copy_way(&prefix);
                    v.push(admitted[c]);
                    self.stack.push(v);
                    c += 1;
                }
                // the symbols on the way
                let ghost stacked = self.stack@;
                let mut keys: Vec<Option<&'a K>> = Vec::new();
                let mut i: usize = 0;
                while i < prefix.len()
                    invariant
                        i <= prefix.len(),
                        self.stack@ == stacked,
                        self.pattern == old(self).pattern,
                        self.root == old(self).root,
                        self.visited == old(self).visited,
                        keys@.len() == i,
                        forall|k: int| 0 <= k < i ==> #[trigger] keys@[k] == symbol_of(
                            prefix@[k].contents,
                        ),
                    decreases prefix.len() - i,
                {
                    keys.push(prefix[i].key());
                    i += 1;
                }
                proof {
                    let grown = paths_of(self.stack@);
                    assert(grown =~= frontier.drop_last() + pushed) by {
                        assert forall|k: int| 0 <= k < grown.len() implies grown[k] == (
                        frontier.drop_last() + pushed)[k] by {
                            if k < rest.len() {
                                assert(self.stack@[k] == rest[k]);
                            } else {
                                let j = k - rest.len();
                                assert(self.stack@[rest.len() + j]@ == prefix@.push(admitted@[j]));
                                assert(path_of(prefix@.push(admitted@[j])) =~= f.push(
                                    admitted@[j].contents,
                                ));
                            }
                        }
                    }
                    assert forall|k: int| 0 <= k < self.stack@.len() implies {
                        &&& (#[trigger] self.stack@[k])@.len() >= 1
                        &&& *self.stack@[k]@[0] == root
                        &&& root.descend(path_of(self.stack@[k]@)) == Some(*self.stack@[k]@.last())
                    } by {
                        if k < rest.len() {
                            assert(self.stack@[k] == rest[k]);
                            assert(rest[k] == ways[k]);
                        } else {
                            let j = k - rest.len();
                            assert(self.stack@[rest.len() + j]@ == prefix@.push(admitted@[j]));
                            assert(path_of(prefix@.push(admitted@[j])) =~= pushed[j]);
                        }
                    }
                    self.visited@ = self.visited@.push(f);
                    assert(self.visited@.drop_last() =~= old(self).visited@);
                    assert forall|k: int| 0 <= k < f.len() implies #[trigger] keys@[k + 1]
                        == symbol_of(f[k]) by {
                        assert(f[k] == prefix@[k + 1].contents);
                    }
                }
                Some((keys, node))
            },
            None => {
                proof {
                    assert forall|path: Seq<Key<K>>| walked(root, pat, path) implies self.visited@.contains(
                        path,
                    ) by {
                        assert(!below(frontier, path));
                    }
                }
                None
            },
        }
    }
}

/// The symbol of a key; a sentinel has none.
pub open spec fn symbol_of<'a, K>(key: Key<K>) -> Option<&'a K> {
    match key {
        Key::Internal(k) => Some(&k),
        _ => None,
    }
}

/// Whether two children of a sorted list have different keys.
pub open spec fn key_differs<K: Ordered, V>(nodes: Seq<Node<K, V>>, i: int, j: int) -> bool {
    nodes[i].contents != nodes[j].contents
}

/// A list with the same nodes.
pub fn copy_way<'a, K, V>(way: &Vec<&'a Node<K, V>>) -> (copy: Vec<&'a Node<K, V>>)
    ensures
        copy@ == way@,
{
    let mut copy: Vec<&'a Node<K, V>> = Vec::new();
    let mut i: usize = 0;
    while i < way.len()
        invariant
            i <= way.len(),
            copy@ == way@.take(i as int),
        decreases way.len() - i,
    {
        copy.push(way[i]);
        proof {
            assert(way@.take(i + 1) =~= way@.take(i as int).push(way@[i as int]));
        }
        i += 1;
    }
    assert(way@.take(way.len() as int) =~= way@);
    copy
}

impl<K: Ordered, V: Cost> Node<K, V> {
    /// A depth-first walk over the nodes below this node that the pattern
    /// admits.
    pub fn iter_descendents(&self, pattern: Option<Vec<Query<K>>>) -> (walk: DfsTraversal<'_, K, V>)
        requires
            self.wf(),
        ensures
            walk.inv(),
            walk.root() == *self,
            walk.pattern() == pattern_view(pattern),
            walk.visited() == Seq::<Seq<Key<K>>>::empty(),
    {
        DfsTraversal::new(self, pattern)
    }
}

} // verus!
