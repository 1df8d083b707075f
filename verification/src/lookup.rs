//! The three-way answer of an exact query, stated over the stored sequences.

use crate::arena::is_prefix;
use vstd::prelude::*;

verus! {

/// The result of querying a vocabulary for a sequence.
#[derive(Debug, PartialEq, Eq)]
pub enum QueryResult<V> {
    /// The sequence is stored, with this value.
    Value(V),
    /// Neither the sequence nor any extension of it is stored.
    NotFound,
    /// The sequence itself is not stored, but it begins a stored one.
    Prefix,
}

/// Whether some stored sequence begins with `prefix`.
pub open spec fn has_extension<K, V>(m: Map<Seq<K>, V>, prefix: Seq<K>) -> bool {
    exists|w: Seq<K>| m.contains_key(w) && is_prefix(prefix, w)
}

/// The answer that the stored sequences `m` give for `word`.
pub open spec fn lookup<K, V>(m: Map<Seq<K>, V>, word: Seq<K>) -> QueryResult<V> {
    if m.contains_key(word) {
        QueryResult::Value(m[word])
    } else if has_extension(m, word) {
        QueryResult::Prefix
    } else {
        QueryResult::NotFound
    }
}

/// The answer for `word` with the value taken by reference.
pub open spec fn lookup_ref<'a, K, V>(m: Map<Seq<K>, V>, word: Seq<K>) -> QueryResult<&'a V> {
    match lookup(m, word) {
        QueryResult::Value(v) => QueryResult::Value(&v),
        QueryResult::NotFound => QueryResult::NotFound,
        QueryResult::Prefix => QueryResult::Prefix,
    }
}

} // verus!
