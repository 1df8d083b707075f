//! A weighted, pattern-queryable trie over symbol sequences, together with
//! the word-puzzle models that consume it.
//!
//! The index stores symbol sequences with a cost, answers exact and prefix
//! queries, and enumerates the stored sequences that fit a fixed-length
//! wildcard pattern, either depth-first or cheapest-first.

pub mod arena;
pub mod crossword;
pub mod frontier;
pub mod insertion;
pub mod key;
pub mod laws;
pub mod letter_boxed;
pub mod lookup;
pub mod matching;
pub mod node;
pub mod order;
pub mod prefix_tree;
pub mod search;
pub mod symbol;
pub mod text;
pub mod traversal;
pub mod traversal_inorder;
pub mod traversals;
pub mod trie;

pub use key::{Key, Query};
pub use lookup::QueryResult;
pub use prefix_tree::{PrefixTree, StringPrefixTree};
pub use symbol::{Cost, Symbol};
pub use trie::Trie;
