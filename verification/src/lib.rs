//! Storage engine and state management core for DotDB: page formats, the
//! write-ahead log record format, multi-version concurrency control, locking,
//! deadlock detection, contract state versioning, storage layouts, state diffs
//! and Merkle Patricia Trie nodes and proofs.
use vstd::prelude::*;

pub mod assoc_list;
pub mod seq_util;
pub mod state;
pub mod statistics;
pub mod storage_engine;

verus! {
} // verus!
