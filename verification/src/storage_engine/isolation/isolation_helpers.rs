//! Helper functions for isolation level behavior.
use vstd::prelude::*;

use crate::storage_engine::transaction::IsolationLevel;

verus! {

/// The description of each isolation level.
pub open spec fn level_description(level: IsolationLevel) -> Seq<char> {
    match level {
        IsolationLevel::ReadUncommitted => "Allows dirty reads, prevents dirty writes. Lowest isolation, highest concurrency."@,
        IsolationLevel::ReadCommitted => "Prevents dirty reads and dirty writes. Each statement sees committed data."@,
        IsolationLevel::RepeatableRead => "Prevents dirty reads, dirty writes, and non-repeatable reads. Consistent snapshot."@,
        IsolationLevel::Serializable => "Prevents all concurrency anomalies. Transactions appear to execute serially."@,
    }
}

/// Get the description of an isolation level
pub fn get_isolation_level_description(level: IsolationLevel) -> (r: &'static str)
    ensures
        r@ == level_description(level),
{
    match level {
        IsolationLevel::ReadUncommitted => "Allows dirty reads, prevents dirty writes. Lowest isolation, highest concurrency.",
        IsolationLevel::ReadCommitted => "Prevents dirty reads and dirty writes. Each statement sees committed data.",
        IsolationLevel::RepeatableRead => "Prevents dirty reads, dirty writes, and non-repeatable reads. Consistent snapshot.",
        IsolationLevel::Serializable => "Prevents all concurrency anomalies. Transactions appear to execute serially.",
    }
}

/// Check if an isolation level requires locking
pub fn requires_locking(level: IsolationLevel) -> (r: bool)
    ensures
        r == (level == IsolationLevel::RepeatableRead || level == IsolationLevel::Serializable),
{
    match level {
        IsolationLevel::RepeatableRead => true,
        IsolationLevel::Serializable => true,
        _ => false,
    }
}

/// Check if an isolation level uses MVCC
pub fn uses_mvcc(level: IsolationLevel) -> (r: bool)
    ensures
        r == (level != IsolationLevel::ReadUncommitted),
{
    match level {
        IsolationLevel::ReadUncommitted => false,
        _ => true,
    }
}

/// The lower-case form of a string, as `str::to_lowercase` computes it.
pub uninterp spec fn lowercase(s: Seq<char>) -> Seq<char>;

/// `str::to_lowercase`: the string mapped through Unicode lower-casing.
/// Its result is named, not stated: it depends on the string alone.
#[verifier::external_body]
fn to_lowercase(s: &str) -> (r: String)
    ensures
        r@ == lowercase(s@),
{
    s.to_lowercase()
}

/// The isolation level recommended for a lower-case use-case name: reading
/// workloads and web applications get read committed, financial work
/// serializable, high-throughput work and migrations read uncommitted, and
/// anything else read committed.
pub open spec fn recommended_level(use_case: Seq<char>) -> IsolationLevel {
    if use_case == "analytics"@ || use_case == "reporting"@ {
        IsolationLevel::ReadCommitted
    } else if use_case == "financial"@ || use_case == "accounting"@ {
        IsolationLevel::Serializable
    } else if use_case == "web_application"@ {
        IsolationLevel::ReadCommitted
    } else if use_case == "high_throughput"@ || use_case == "data_migration"@ {
        IsolationLevel::ReadUncommitted
    } else {
        IsolationLevel::ReadCommitted
    }
}

/// Whether `s` holds exactly the characters of literal `lit`.
fn is_word(s: &String, lit: &str) -> (r: bool)
    ensures
        r == (s@ == lit@),
{
    let w = lit.to_owned();
    *s == w
}

/// The isolation level recommended for an already lower-cased use-case name.
pub fn recommended_isolation_level_for(use_case: &String) -> (r: IsolationLevel)
    ensures
        r == recommended_level(use_case@),
{
    if is_word(use_case, "analytics") || is_word(use_case, "reporting") {
        IsolationLevel::ReadCommitted
    } else if is_word(use_case, "financial") || is_word(use_case, "accounting") {
        IsolationLevel::Serializable
    } else if is_word(use_case, "web_application") {
        IsolationLevel::ReadCommitted
    } else if is_word(use_case, "high_throughput") || is_word(use_case, "data_migration") {
        IsolationLevel::ReadUncommitted
    } else {
        IsolationLevel::ReadCommitted
    }
}

/// Get the recommended isolation level for different use cases; the name is
/// matched case-insensitively.
pub fn get_recommended_isolation_level(use_case: &str) -> (r: IsolationLevel)
    ensures
        r == recommended_level(lowercase(use_case@)),
{
    let lc = to_lowercase(use_case);
    recommended_isolation_level_for(&lc)
}

} // verus!
