//! Persistent storage engine: page format, write-ahead log, concurrency control.
use vstd::prelude::*;

pub mod buffer_manager;
pub mod deadlock_detector;
pub mod file_format;
pub mod isolation;
pub mod lib;
pub mod mvcc;
pub mod occ;
pub mod page_manager;
pub mod transaction;
pub mod wal;

verus! {
} // verus!
