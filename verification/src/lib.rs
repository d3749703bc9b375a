//! A trie that maps sequences of byte labels to values, stored as a
//! LOUDS-style succinct encoding: four flat arrays instead of pointers.
//!
//! Keys are inserted into a mutable construction trie, which one `build`
//! call converts into the immutable succinct form; every search runs over
//! that form.

pub mod bits;
pub mod inc_search;
pub mod laws;
pub mod louds;
pub mod map_trie;
pub mod naive_trie;
pub mod trie;

pub use crate::trie::Trie;
pub use crate::trie::TrieBuilder;
