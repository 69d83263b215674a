//! State management: contract versioning, storage layout, diffs and the Merkle Patricia Trie.
use vstd::prelude::*;

pub mod db_interface;
pub mod diff;
pub mod dot_storage_layout;
pub mod mpt;
pub mod pruning;
pub mod snapshot;
pub mod versioning;

verus! {
} // verus!
