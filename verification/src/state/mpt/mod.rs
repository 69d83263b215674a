//! Merkle Patricia Trie: nibble paths, nodes and Merkle proofs.
use vstd::prelude::*;

pub mod codec;
pub mod lib;
pub mod listing;
pub mod node;
pub mod read_write;
pub mod merkle_proof;
pub mod trie;

verus! {
} // verus!
