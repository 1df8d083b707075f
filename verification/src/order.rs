//! The order of a depth-first walk: a node first, then what lies below its
//! admitted children, the child stored last first.

use crate::arena::is_prefix;
use crate::frontier::admits;
use crate::key::Query;
use crate::trie::Node;
use vstd::prelude::*;

verus! {

/// The children among the first `j` of node `n` that the pattern admits one
/// level below depth `d`, in storage order.
pub open spec fn kept<K, V>(
    nodes: Seq<Node<K, V>>,
    pattern: Option<Seq<Query<K>>>,
    n: int,
    d: int,
    j: nat,
) -> Seq<int>
    decreases j,
{
    if j == 0 || j > nodes[n].children@.len() {
        Seq::empty()
    } else {
        let earlier = kept(nodes, pattern, n, d, (j - 1) as nat);
        let c = nodes[n].children@[j - 1] as int;
        if admits(pattern, d + 1, nodes[c].key) {
            earlier.push(c)
        } else {
            earlier
        }
    }
}

/// The children of node `n` that the pattern admits one level below depth
/// `d`, in storage order.
pub open spec fn admitted<K, V>(
    nodes: Seq<Node<K, V>>,
    pattern: Option<Seq<Query<K>>>,
    n: int,
    d: int,
) -> Seq<int> {
    kept(nodes, pattern, n, d, nodes[n].children@.len())
}

/// The nodes that a depth-first walk hands out from node `n` at depth `d`,
/// in order: the node itself, then what lies below its admitted children,
/// the child stored last first.
pub open spec fn preorder<K, V>(
    nodes: Seq<Node<K, V>>,
    pattern: Option<Seq<Query<K>>>,
    n: int,
    d: int,
) -> Seq<int>
    decreases nodes.len() - n, admitted(nodes, pattern, n, d).len() + 1,
{
    if 0 <= n < nodes.len() {
        seq![n] + under(nodes, pattern, n, d, admitted(nodes, pattern, n, d).len())
    } else {
        Seq::empty()
    }
}

/// The nodes that a depth-first walk hands out below the first `j`
/// admitted children of node `n`, the `j`-th child first.
pub open spec fn under<K, V>(
    nodes: Seq<Node<K, V>>,
    pattern: Option<Seq<Query<K>>>,
    n: int,
    d: int,
    j: nat,
) -> Seq<int>
    decreases nodes.len() - n, j,
{
    if 0 <= n < nodes.len() && 0 < j <= admitted(nodes, pattern, n, d).len() {
        let c = admitted(nodes, pattern, n, d)[j - 1];
        (if n < c < nodes.len() {
            preorder(nodes, pattern, c, d + 1)
        } else {
            Seq::empty()
        }) + under(nodes, pattern, n, d, (j - 1) as nat)
    } else {
        Seq::empty()
    }
}

/// The nodes that a depth-first walk still hands out from a stack, the top
/// of the stack first.
pub open spec fn pending<K, V>(
    nodes: Seq<Node<K, V>>,
    pattern: Option<Seq<Query<K>>>,
    stack: Seq<(usize, usize)>,
) -> Seq<int>
    decreases stack.len(),
{
    if stack.len() == 0 {
        Seq::empty()
    } else {
        preorder(nodes, pattern, stack.last().0 as int, stack.last().1 as int) + pending(
            nodes,
            pattern,
            stack.drop_last(),
        )
    }
}

/// Whether `entries` are the admitted children of node `n`, in storage
/// order, each with the depth below `d`.
pub open spec fn lists_admitted<K, V>(
    nodes: Seq<Node<K, V>>,
    pattern: Option<Seq<Query<K>>>,
    n: int,
    d: int,
    entries: Seq<(usize, usize)>,
) -> bool {
    &&& entries.len() == admitted(nodes, pattern, n, d).len()
    &&& forall|i: int|
        0 <= i < entries.len() ==> (#[trigger] entries[i]).0 as int == admitted(
            nodes,
            pattern,
            n,
            d,
        )[i] && entries[i].1 == d + 1
}

/// Whether what a walk has handed out and what it still hands out from its
/// stack make up the depth-first order from `start`.
pub closed spec fn order_ok<K, V>(
    nodes: Seq<Node<K, V>>,
    pattern: Option<Seq<Query<K>>>,
    start: int,
    stack: Seq<(usize, usize)>,
    visited: Seq<int>,
) -> bool {
    visited + pending(nodes, pattern, stack) == preorder(nodes, pattern, start, 0)
}

/// Where no child among the first `j` is admitted, none is kept.
pub proof fn lemma_kept_none<K, V>(
    nodes: Seq<Node<K, V>>,
    pattern: Option<Seq<Query<K>>>,
    n: int,
    d: int,
    j: nat,
)
    requires
        j <= nodes[n].children@.len(),
        forall|i: int|
            0 <= i < j ==> !admits(pattern, d + 1, nodes[#[trigger] nodes[n].children@[i] as int].key),
    ensures
        kept(nodes, pattern, n, d, j) == Seq::<int>::empty(),
    decreases j,
{
    if j > 0 {
        lemma_kept_none(nodes, pattern, n, d, (j - 1) as nat);
    }
}

/// Where one child among the first `j` is admitted, it alone is kept.
pub proof fn lemma_kept_one<K, V>(
    nodes: Seq<Node<K, V>>,
    pattern: Option<Seq<Query<K>>>,
    n: int,
    d: int,
    j: nat,
    at: int,
)
    requires
        0 <= at < j <= nodes[n].children@.len(),
        forall|i: int|
            0 <= i < j ==> (admits(pattern, d + 1, nodes[#[trigger] nodes[n].children@[i] as int].key)
                <==> i == at),
    ensures
        kept(nodes, pattern, n, d, j) == seq![nodes[n].children@[at] as int],
    decreases j,
{
    if at == j - 1 {
        lemma_kept_none(nodes, pattern, n, d, (j - 1) as nat);
        assert(Seq::<int>::empty().push(nodes[n].children@[at] as int) =~= seq![
            nodes[n].children@[at] as int,
        ]);
    } else {
        lemma_kept_one(nodes, pattern, n, d, (j - 1) as nat, at);
    }
}

/// Entries pushed on a stack are handed out before what was on the stack,
/// the last pushed first.
pub proof fn lemma_pending_pushed<K, V>(
    nodes: Seq<Node<K, V>>,
    pattern: Option<Seq<Query<K>>>,
    rest: Seq<(usize, usize)>,
    f: int,
    d: int,
    entries: Seq<(usize, usize)>,
    j: nat,
)
    requires
        0 <= f < nodes.len(),
        lists_admitted(nodes, pattern, f, d, entries),
        forall|i: int| 0 <= i < entries.len() ==> f < (#[trigger] entries[i]).0 < nodes.len(),
        j <= entries.len(),
    ensures
        pending(nodes, pattern, rest + entries.take(j as int)) == under(nodes, pattern, f, d, j)
            + pending(nodes, pattern, rest),
    decreases j,
{
    if j == 0 {
        assert(rest + entries.take(0) =~= rest);
        assert(under(nodes, pattern, f, d, 0) + pending(nodes, pattern, rest) =~= pending(
            nodes,
            pattern,
            rest,
        ));
    } else {
        lemma_pending_pushed(nodes, pattern, rest, f, d, entries, (j - 1) as nat);
        let stack = rest + entries.take(j as int);
        let entry = entries[j - 1];
        assert(stack.last() == entry);
        assert(stack.drop_last() =~= rest + entries.take(j - 1));
        let c = admitted(nodes, pattern, f, d)[j - 1];
        assert(entry.0 as int == c);
        let first = preorder(nodes, pattern, c, d + 1);
        assert(first + (under(nodes, pattern, f, d, (j - 1) as nat) + pending(nodes, pattern, rest))
            =~= (first + under(nodes, pattern, f, d, (j - 1) as nat)) + pending(
            nodes,
            pattern,
            rest,
        ));
    }
}

/// A walk that has only its start on the stack is in depth-first order.
pub proof fn lemma_order_start<K, V>(
    nodes: Seq<Node<K, V>>,
    pattern: Option<Seq<Query<K>>>,
    start: usize,
    stack: Seq<(usize, usize)>,
)
    requires
        start < nodes.len() ==> stack == seq![(start, 0usize)],
        start >= nodes.len() ==> stack.len() == 0,
    ensures
        order_ok(nodes, pattern, start as int, stack, Seq::<int>::empty()),
{
    if start < nodes.len() {
        assert(stack.drop_last().len() == 0);
        assert(stack.last() == (start, 0usize));
        let whole = preorder(nodes, pattern, start as int, 0);
        assert(pending(nodes, pattern, stack.drop_last()) =~= Seq::<int>::empty());
        assert(pending(nodes, pattern, stack) =~= whole + Seq::<int>::empty());
        assert(Seq::<int>::empty() + pending(nodes, pattern, stack) =~= whole);
    } else {
        assert(Seq::<int>::empty() + pending(nodes, pattern, stack) =~= Seq::<int>::empty());
    }
}

/// Handing out the top of the stack and pushing its admitted children in
/// storage order keeps a walk in depth-first order.
pub proof fn lemma_order_step<K, V>(
    nodes: Seq<Node<K, V>>,
    pattern: Option<Seq<Query<K>>>,
    start: int,
    stack: Seq<(usize, usize)>,
    visited: Seq<int>,
    entries: Seq<(usize, usize)>,
)
    requires
        order_ok(nodes, pattern, start, stack, visited),
        stack.len() > 0,
        stack.last().0 < nodes.len(),
        lists_admitted(nodes, pattern, stack.last().0 as int, stack.last().1 as int, entries),
        forall|i: int|
            0 <= i < entries.len() ==> stack.last().0 < (#[trigger] entries[i]).0 < nodes.len(),
    ensures
        order_ok(
            nodes,
            pattern,
            start,
            stack.drop_last() + entries,
            visited.push(stack.last().0 as int),
        ),
{
    let f = stack.last().0 as int;
    let d = stack.last().1 as int;
    let rest = stack.drop_last();
    lemma_pending_pushed(nodes, pattern, rest, f, d, entries, entries.len());
    assert(entries.take(entries.len() as int) =~= entries);
    let below = under(nodes, pattern, f, d, entries.len());
    let later = pending(nodes, pattern, rest);
    assert(pending(nodes, pattern, stack) == (seq![f] + below) + later);
    assert(visited + ((seq![f] + below) + later) =~= visited.push(f) + (below + later));
}

/// What a walk has handed out begins the depth-first order.
pub proof fn lemma_order_prefix<K, V>(
    nodes: Seq<Node<K, V>>,
    pattern: Option<Seq<Query<K>>>,
    start: int,
    stack: Seq<(usize, usize)>,
    visited: Seq<int>,
)
    requires
        order_ok(nodes, pattern, start, stack, visited),
    ensures
        is_prefix(visited, preorder(nodes, pattern, start, 0)),
{
    let whole = visited + pending(nodes, pattern, stack);
    assert(whole.take(visited.len() as int) =~= visited);
}

/// When the stack is empty, what was handed out is the depth-first order.
pub proof fn lemma_order_done<K, V>(
    nodes: Seq<Node<K, V>>,
    pattern: Option<Seq<Query<K>>>,
    start: int,
    stack: Seq<(usize, usize)>,
    visited: Seq<int>,
)
    requires
        order_ok(nodes, pattern, start, stack, visited),
        stack.len() == 0,
    ensures
        visited == preorder(nodes, pattern, start, 0),
{
    assert(visited + Seq::<int>::empty() =~= visited);
}

} // verus!
