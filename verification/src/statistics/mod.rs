//! Workload statistics: the access history of keys.
use vstd::prelude::*;

pub mod access_patterns;
pub mod cardinality;

verus! {
} // verus!
