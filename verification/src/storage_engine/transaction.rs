//! Transaction vocabulary shared by the concurrency-control modules:
//! isolation levels, transaction states and identifiers.
use vstd::prelude::*;

verus! {

/// Transaction isolation levels
#[derive(Debug, Clone, Copy, PartialEq, Eq, Structural)]
pub enum IsolationLevel {
    /// Read uncommitted allows dirty reads but prevents dirty writes
    ReadUncommitted,
    /// Read committed prevents dirty reads and dirty writes
    ReadCommitted,
    /// Repeatable read prevents dirty reads, dirty writes, and non-repeatable reads
    RepeatableRead,
    /// Serializable prevents all concurrency anomalies
    Serializable,
}

/// Transaction state
#[derive(Debug, Clone, Copy, PartialEq, Eq, Structural)]
pub enum TransactionState {
    /// Transaction is active and can perform operations
    Active,
    /// Transaction is committed but not yet durably persisted
    Committing,
    /// Transaction is successfully committed and persisted
    Committed,
    /// Transaction is aborted and being rolled back
    Aborting,
    /// Transaction is successfully aborted and rolled back
    Aborted,
}

/// Transaction identifier type
pub type TransactionId = u64;

} // verus!
