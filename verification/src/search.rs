//! Exhaustive search over the states of a puzzle.

use vstd::prelude::*;
use vstd::std_specs::cmp::PartialEqSpec;

verus! {

/// The states of a puzzle and the steps between them.
pub trait SearchSpace {
    /// A state of the search.
    type Node: Eq + core::hash::Hash + Clone;

    /// The invariant of the space.
    spec fn space_ok(&self) -> bool;

    /// Whether a state belongs to the space.
    spec fn holds(&self, node: Self::Node) -> bool;

    /// Whether two states are the same to the search.
    spec fn same(a: Self::Node, b: Self::Node) -> bool;

    /// Whether one step leads from `from` to `to`.
    spec fn step(&self, from: Self::Node, to: Self::Node) -> bool;

    /// The `==` of the states of the space says whether they are the same
    /// to the search.
    proof fn lemma_same_is_eq(&self, a: Self::Node, b: Self::Node)
        requires
            self.space_ok(),
            self.holds(a),
            self.holds(b),
        ensures
            <Self::Node as PartialEqSpec>::obeys_eq_spec(),
            a.eq_spec(&b) == Self::same(a, b),
    ;

    /// Being the same to the search is an equivalence.
    proof fn lemma_same(a: Self::Node, b: Self::Node, c: Self::Node)
        ensures
            Self::same(a, a),
            Self::same(a, b) ==> Self::same(b, a),
            Self::same(a, b) && Self::same(b, c) ==> Self::same(a, c),
    ;

    /// States that are the same to the search have the same steps.
    proof fn lemma_same_steps(&self, a: Self::Node, b: Self::Node, to: Self::Node)
        requires
            self.space_ok(),
            self.holds(a),
            self.holds(b),
            Self::same(a, b),
            self.step(a, to),
        ensures
            self.step(b, to),
    ;

    /// The states that one step leads to.
    fn successors(&self, node: &Self::Node) -> (next: Vec<Self::Node>)
        requires
            self.space_ok(),
            self.holds(*node),
        ensures
            forall|i: int|
                0 <= i < next.len() ==> self.holds(#[trigger] next[i]) && self.step(*node, next[i]),
            forall|to: Self::Node|
                self.holds(to) && #[trigger] self.step(*node, to) ==> exists|i: int|
                    0 <= i < next.len() && Self::same(#[trigger] next[i], to),
    ;
}

/// Whether the states are a series of steps through the space.
pub open spec fn trail<S: SearchSpace>(space: &S, path: Seq<S::Node>) -> bool {
    &&& path.len() >= 1
    &&& forall|i: int| 0 <= i < path.len() ==> space.holds(#[trigger] path[i])
    &&& forall|i: int| #![trigger path[i]] 0 <= i < path.len() - 1 ==> space.step(path[i], path[i + 1])
}

/// Whether a series of steps leads from `start` to `to`.
pub open spec fn reachable<S: SearchSpace>(space: &S, start: S::Node, to: S::Node) -> bool {
    exists|path: Seq<S::Node>|
        #[trigger] trail(space, path) && S::same(path[0], start) && S::same(path.last(), to)
}

/// What a search that stops after `limit` states has found from `start`:
/// states of the space that steps lead to, each once, and all of them if the
/// search stopped before the limit.
pub open spec fn explored<S: SearchSpace>(
    space: &S,
    start: S::Node,
    limit: usize,
    found: Seq<S::Node>,
) -> bool {
    &&& found.len() <= limit
    &&& forall|i: int|
        0 <= i < found.len() ==> space.holds(#[trigger] found[i]) && reachable(
            space,
            start,
            found[i],
        )
    &&& forall|i: int, j: int|
        0 <= i < j < found.len() ==> !S::same(#[trigger] found[i], #[trigger] found[j])
    &&& found.len() < limit ==> forall|to: S::Node|
        space.holds(to) && #[trigger] reachable(space, start, to) ==> exists|i: int|
            0 <= i < found.len() && S::same(#[trigger] found[i], to)
}

/// The first `limit` states that a depth-first search over the steps of the
/// space visits from `start`. This is `dfs_reach` of the crate pathfinding,
/// which visits the start and then every state that the steps lead to, each
/// once, and ends when no state is left. The search tells states apart by
/// their `==`, which the space proves to be `same`, and by a hash that goes
/// by the fields that `==` compares.
#[verifier::external_body]
pub(crate) fn reach<S: SearchSpace>(space: &S, start: S::Node, limit: usize) -> (found: Vec<S::Node>)
    requires
        space.space_ok(),
        space.holds(start),
    ensures
        explored(space, start, limit, found@),
{
    pathfinding::directed::dfs::dfs_reach(start, |node| space.successors(node)).take(limit).collect()
}

} // verus!
