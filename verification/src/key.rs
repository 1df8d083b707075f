//! Keys of the trie levels and the per-depth constraints of a pattern.

use crate::symbol::Symbol;
use vstd::prelude::*;

verus! {

/// The key of one node. `Start` exists only at the root and `End` marks that
/// a complete sequence ends at the node's parent.
#[derive(Debug, Clone, Copy, PartialEq, Eq)]
pub enum Key<K> {
    Start,
    Internal(K),
    End,
}

/// The constraint a pattern puts on the key at one depth.
#[derive(Debug, Clone, Copy, PartialEq, Eq)]
pub enum Query<K> {
    Matches(Key<K>),
    Any,
}

impl<K: Symbol> Key<K> {
    /// A copy of this key.
    pub fn duplicate(&self) -> (c: Self)
        ensures
            c == *self,
    {
        match self {
            Key::Start => Key::Start,
            Key::Internal(k) => Key::Internal(k.duplicate()),
            Key::End => Key::End,
        }
    }

    /// Whether the two keys are the same.
    pub fn same(&self, other: &Self) -> (b: bool)
        ensures
            b == (*self == *other),
    {
        match (self, other) {
            (Key::Start, Key::Start) => true,
            (Key::End, Key::End) => true,
            (Key::Internal(a), Key::Internal(b)) => a.same(b),
            _ => false,
        }
    }
}

impl<K> vstd::std_specs::convert::FromSpecImpl<K> for Key<K> {
    open spec fn obeys_from_spec() -> bool {
        true
    }

    open spec fn from_spec(value: K) -> Key<K> {
        Key::Internal(value)
    }
}

impl<K> From<K> for Key<K> {
    /// The key that carries the symbol.
    fn from(value: K) -> (key: Self) {
        Key::Internal(value)
    }
}

/// Whether a query admits a key. A wildcard admits every symbol, and no
/// sentinel.
pub open spec fn query_admits<K>(query: Query<K>, key: Key<K>) -> bool {
    match query {
        Query::Any => key is Internal,
        Query::Matches(k) => k == key,
    }
}

/// The constraint list that a fixed-length sequence of optional symbols
/// stands for: the start sentinel, one constraint per position, and the end
/// sentinel.
pub open spec fn compiled<K>(positions: Seq<Option<K>>) -> Seq<Query<K>> {
    Seq::new(
        positions.len() + 2,
        |i: int|
            if i == 0 {
                Query::Matches(Key::Start)
            } else if i == positions.len() + 1 {
                Query::Matches(Key::End)
            } else {
                match positions[i - 1] {
                    Some(s) => Query::Matches(Key::Internal(s)),
                    None => Query::Any,
                }
            },
    )
}

/// Compiles a fixed-length sequence of positions, each a required symbol or a
/// wildcard (`None`), into a pattern aligned to trie depth.
pub fn compile_pattern<K: Symbol>(positions: &Vec<Option<K>>) -> (pattern: Vec<Query<K>>)
    ensures
        pattern@ == compiled(positions@),
{
    let mut pattern: Vec<Query<K>> = Vec::new();
    pattern.push(Query::Matches(Key::Start));
    let mut i: usize = 0;
    while i < positions.len()
        invariant
            i <= positions.len(),
            pattern.len() == i + 1,
            forall|j: int| 0 <= j < pattern.len() ==> pattern[j] == compiled(positions@)[j],
        decreases positions.len() - i,
    {
        let q = match &positions[i] {
            Some(s) => Query::Matches(Key::Internal(s.duplicate())),
            None => Query::Any,
        };
        pattern.push(q);
        i += 1;
    }
    pattern.push(Query::Matches(Key::End));
    assert(pattern@ =~= compiled(positions@));
    pattern
}

} // verus!
