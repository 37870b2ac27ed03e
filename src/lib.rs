//! An adaptive radix tree: an ordered in-memory index from byte-string keys to values.
//!
//! Inner nodes come in four layouts (4, 16, 48 and 256 children) and grow or shrink between
//! them as children come and go; each inner node keeps its compressed path, of which it
//! stores up to `MAX_PREFIX_LEN` bytes. Keys are handed in through `ArtKey`, which gives
//! their bytes (big-endian for integers). The stored keys must be prefix-free: `Art::insert`
//! requires that no stored key is a proper prefix of the new one, nor the other way round,
//! which fixed-width keys always meet.

use vstd::prelude::*;

pub mod key;
pub mod node;
pub mod counting;
pub mod inner;
pub mod insert;
pub mod delete;
pub mod art;
pub mod trie;
pub mod laws;

pub use art::Art;
pub use key::ArtKey;
pub use trie::TrieNode;

verus! {

} // verus!
