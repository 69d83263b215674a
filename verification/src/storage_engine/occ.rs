//! Optimistic concurrency control: the conflicts of a transaction that
//! wants to commit with the transactions that committed after it started,
//! the record of committed transactions, and the choice of what to do about
//! conflicts under a resolution strategy.
use vstd::prelude::*;

use std::time::{Duration, Instant};

use crate::seq_util::lemma_filter_take;
use crate::storage_engine::file_format::PageId;
use crate::storage_engine::lib::{duration_from_millis, duration_micros, duration_nanos, generate_timestamp, instant_elapsed, instant_now, StorageResult};
use crate::storage_engine::transaction::TransactionId;
use crate::assoc_list::AssocList;
use crate::state::snapshot::decimal_text;
use crate::storage_engine::lib::StorageError;

verus! {

/// Types of conflicts that can occur between transactions
#[derive(Debug, Clone, Copy, PartialEq, Eq, Structural)]
pub enum ConflictType {
    /// Read-Write conflict: transaction read data that was later modified
    ReadWrite {
        /// Page that was read and then written
        page_id: PageId,
        /// Transaction that did the reading
        reader_txn: TransactionId,
        /// Transaction that did the writing
        writer_txn: TransactionId,
    },
    /// Write-Write conflict: two transactions wrote to the same page
    WriteWrite {
        /// Page that was written by both transactions
        page_id: PageId,
        /// First transaction that wrote
        first_txn: TransactionId,
        /// Second transaction that wrote
        second_txn: TransactionId,
    },
    /// Write-Read conflict: transaction wrote data that was later read
    WriteRead {
        /// Page that was written and then read
        page_id: PageId,
        /// Transaction that did the writing
        writer_txn: TransactionId,
        /// Transaction that did the reading
        reader_txn: TransactionId,
    },
}

/// Resolution strategy for handling conflicts
#[derive(Debug, Clone, Copy, PartialEq, Eq, Structural)]
pub enum ConflictResolutionStrategy {
    /// Abort the conflicting transaction
    AbortConflicting,
    /// Abort the transaction with lower priority (based on timestamp)
    AbortLowerPriority,
    /// Abort the transaction with higher priority (wound-wait)
    AbortHigherPriority,
    /// Retry the transaction with exponential backoff
    RetryWithBackoff,
    /// Intelligent strategy based on access patterns and conflict types
    Adaptive,
    /// No-wait strategy for hot pages
    NoWaitHotPages,
}

/// Statistics for OCC performance monitoring
#[derive(Debug, Clone, Copy, PartialEq, Eq, Structural)]
pub struct OCCStatistics {
    /// Total number of validations performed
    pub total_validations: u64,
    /// Number of successful validations
    pub successful_validations: u64,
    /// Number of failed validations (conflicts detected)
    pub failed_validations: u64,
    /// Number of transactions aborted due to conflicts
    pub aborted_transactions: u64,
    /// Number of read-write conflicts detected
    pub read_write_conflicts: u64,
    /// Number of write-write conflicts detected
    pub write_write_conflicts: u64,
    /// Average validation time in microseconds
    pub average_validation_time_us: u64,
    /// Number of retry attempts
    pub retry_attempts: u64,
}

impl Default for OCCStatistics {
    fn default() -> (r: Self)
        ensures
            r == OCCStatistics::zero(),
    {
        OCCStatistics {
            total_validations: 0,
            successful_validations: 0,
            failed_validations: 0,
            aborted_transactions: 0,
            read_write_conflicts: 0,
            write_write_conflicts: 0,
            average_validation_time_us: 0,
            retry_attempts: 0,
        }
    }
}

impl OCCStatistics {
    /// All counters at zero.
    pub open spec fn zero() -> OCCStatistics {
        OCCStatistics {
            total_validations: 0,
            successful_validations: 0,
            failed_validations: 0,
            aborted_transactions: 0,
            read_write_conflicts: 0,
            write_write_conflicts: 0,
            average_validation_time_us: 0,
            retry_attempts: 0,
        }
    }
}

/// Transaction validation context for OCC; the read and write sets hold
/// each page once.
#[derive(Debug, Clone)]
pub struct ValidationContext {
    /// Transaction being validated
    pub transaction_id: TransactionId,
    /// Read set of the transaction
    pub read_set: Vec<PageId>,
    /// Write set of the transaction
    pub write_set: Vec<PageId>,
    /// Transaction start timestamp
    pub start_timestamp: u64,
    /// Transaction validation timestamp
    pub validation_timestamp: u64,
}

/// Represents a committed transaction for validation purposes
#[derive(Debug, Clone)]
pub struct CommittedTransaction {
    /// Transaction ID
    pub id: TransactionId,
    /// Commit timestamp
    pub commit_timestamp: u64,
    /// Pages written by this transaction
    pub write_set: Vec<PageId>,
    /// Pages read by this transaction
    pub read_set: Vec<PageId>,
}

/// Result of conflict resolution
#[derive(Debug)]
pub enum ConflictResolution {
    /// Transaction can proceed with commit
    Proceed,
    /// Transaction should be aborted
    Abort {
        /// Reason for abort
        reason: String,
        /// Whether the transaction should be retried
        should_retry: bool,
    },
    /// Transaction should be retried after a delay
    Retry {
        /// Duration to wait before retry
        backoff_duration: Duration,
        /// Maximum number of retries allowed
        max_retries: u32,
    },
}

/// Whether page `p` is in `s`.
fn page_in(s: &Vec<PageId>, p: PageId) -> (r: bool)
    ensures
        r == s@.contains(p),
{
    let mut i: usize = 0;
    while i < s.len()
        invariant
            i <= s@.len(),
            forall|j: int| 0 <= j < i ==> s@[j] != p,
        decreases s@.len() - i,
    {
        if s[i].0 == p.0 {
            assert(s@[i as int] == p);
            return true;
        }
        i = i + 1;
    }
    false
}

/// Whether transaction `t` is in `s`.
fn txn_in(s: &Vec<TransactionId>, t: TransactionId) -> (r: bool)
    ensures
        r == s@.contains(t),
{
    let mut i: usize = 0;
    while i < s.len()
        invariant
            i <= s@.len(),
            forall|j: int| 0 <= j < i ==> s@[j] != t,
        decreases s@.len() - i,
    {
        if s[i] == t {
            return true;
        }
        i = i + 1;
    }
    false
}

/// The read-write conflicts of the first `n` pages read by transaction
/// `txn` with committed transaction `c`: each read page that `c` wrote.
pub open spec fn read_write_conflicts(reads: Seq<PageId>, c_writes: Seq<PageId>, writer: TransactionId, txn: TransactionId, n: int) -> Seq<ConflictType>
    decreases n,
{
    if n <= 0 {
        Seq::empty()
    } else {
        let rest = read_write_conflicts(reads, c_writes, writer, txn, n - 1);
        if c_writes.contains(reads[n - 1]) {
            rest.push(ConflictType::ReadWrite { page_id: reads[n - 1], reader_txn: txn, writer_txn: writer })
        } else {
            rest
        }
    }
}

/// The write-write conflicts of the first `n` pages written by transaction
/// `txn` with committed transaction `c`: each written page that `c` wrote.
pub open spec fn write_write_conflicts(writes: Seq<PageId>, c_writes: Seq<PageId>, first: TransactionId, txn: TransactionId, n: int) -> Seq<ConflictType>
    decreases n,
{
    if n <= 0 {
        Seq::empty()
    } else {
        let rest = write_write_conflicts(writes, c_writes, first, txn, n - 1);
        if c_writes.contains(writes[n - 1]) {
            rest.push(ConflictType::WriteWrite { page_id: writes[n - 1], first_txn: first, second_txn: txn })
        } else {
            rest
        }
    }
}

/// The write-read conflicts of the first `n` pages written by transaction
/// `txn` with committed transaction `c`: each written page that `c` read.
pub open spec fn write_read_conflicts(writes: Seq<PageId>, c_reads: Seq<PageId>, reader: TransactionId, txn: TransactionId, n: int) -> Seq<ConflictType>
    decreases n,
{
    if n <= 0 {
        Seq::empty()
    } else {
        let rest = write_read_conflicts(writes, c_reads, reader, txn, n - 1);
        if c_reads.contains(writes[n - 1]) {
            rest.push(ConflictType::WriteRead { page_id: writes[n - 1], writer_txn: txn, reader_txn: reader })
        } else {
            rest
        }
    }
}

/// The conflicts of the transaction of `ctx` with committed transaction
/// `c`: none when `c` committed no later than the transaction started;
/// otherwise its read-write, then write-write, then write-read conflicts.
pub open spec fn conflicts_with(c: CommittedTransaction, ctx: ValidationContext) -> Seq<ConflictType> {
    if c.commit_timestamp > ctx.start_timestamp {
        read_write_conflicts(ctx.read_set@, c.write_set@, c.id, ctx.transaction_id, ctx.read_set@.len() as int)
            + write_write_conflicts(ctx.write_set@, c.write_set@, c.id, ctx.transaction_id, ctx.write_set@.len() as int)
            + write_read_conflicts(ctx.write_set@, c.read_set@, c.id, ctx.transaction_id, ctx.write_set@.len() as int)
    } else {
        Seq::empty()
    }
}

/// The conflicts of the transaction of `ctx` with the first `n` committed
/// transactions of `cs`, in their order.
pub open spec fn all_conflicts(cs: Seq<CommittedTransaction>, ctx: ValidationContext, n: int) -> Seq<ConflictType>
    decreases n,
{
    if n <= 0 {
        Seq::empty()
    } else {
        all_conflicts(cs, ctx, n - 1) + conflicts_with(cs[n - 1], ctx)
    }
}

/// The conflicts of the transaction of `ctx` with committed transaction `c`.
fn conflicts_with_committed(c: &CommittedTransaction, ctx: &ValidationContext) -> (r: Vec<ConflictType>)
    ensures
        r@ == conflicts_with(*c, *ctx),
{
    let mut out: Vec<ConflictType> = Vec::new();
    if c.commit_timestamp <= ctx.start_timestamp {
        return out;
    }
    let mut i: usize = 0;
    while i < ctx.read_set.len()
        invariant
            i <= ctx.read_set@.len(),
            out@ == read_write_conflicts(ctx.read_set@, c.write_set@, c.id, ctx.transaction_id, i as int),
        decreases ctx.read_set@.len() - i,
    {
        let p = ctx.read_set[i];
        if page_in(&c.write_set, p) {
            out.push(ConflictType::ReadWrite { page_id: p, reader_txn: ctx.transaction_id, writer_txn: c.id });
        }
        i = i + 1;
    }
    let ghost rw = out@;
    let mut ww: Vec<ConflictType> = Vec::new();
    let mut wr: Vec<ConflictType> = Vec::new();
    let mut j: usize = 0;
    while j < ctx.write_set.len()
        invariant
            j <= ctx.write_set@.len(),
            ww@ == write_write_conflicts(ctx.write_set@, c.write_set@, c.id, ctx.transaction_id, j as int),
            wr@ == write_read_conflicts(ctx.write_set@, c.read_set@, c.id, ctx.transaction_id, j as int),
        decreases ctx.write_set@.len() - j,
    {
        let p = ctx.write_set[j];
        if page_in(&c.write_set, p) {
            ww.push(ConflictType::WriteWrite { page_id: p, first_txn: c.id, second_txn: ctx.transaction_id });
        }
        if page_in(&c.read_set, p) {
            wr.push(ConflictType::WriteRead { page_id: p, writer_txn: ctx.transaction_id, reader_txn: c.id });
        }
        j = j + 1;
    }
    out.append(&mut ww);
    out.append(&mut wr);
    out
}

/// The conflicts of the transaction of `ctx` with every committed
/// transaction of `committed`, in order (see `conflicts_with`).
pub fn traditional_conflicts(committed: &Vec<CommittedTransaction>, ctx: &ValidationContext) -> (r: Vec<ConflictType>)
    ensures
        r@ == all_conflicts(committed@, *ctx, committed@.len() as int),
{
    let mut out: Vec<ConflictType> = Vec::new();
    let mut i: usize = 0;
    while i < committed.len()
        invariant
            i <= committed@.len(),
            out@ == all_conflicts(committed@, *ctx, i as int),
        decreases committed@.len() - i,
    {
        let mut more = conflicts_with_committed(&committed[i], ctx);
        out.append(&mut more);
        i = i + 1;
    }
    out
}

/// The conflicts found through the page index for page `p` of transaction
/// `txn`: one per index entry for `p` among the first `n` whose committed
/// transaction is relevant, read-write for a read page and write-write for
/// a written one.
pub open spec fn index_hits(index: Seq<(PageId, TransactionId)>, relevant: Seq<TransactionId>, p: PageId, txn: TransactionId, reading: bool, n: int) -> Seq<ConflictType>
    decreases n,
{
    if n <= 0 {
        Seq::empty()
    } else {
        let rest = index_hits(index, relevant, p, txn, reading, n - 1);
        let e = index[n - 1];
        if e.0 == p && relevant.contains(e.1) {
            rest.push(
                if reading {
                    ConflictType::ReadWrite { page_id: p, reader_txn: txn, writer_txn: e.1 }
                } else {
                    ConflictType::WriteWrite { page_id: p, first_txn: e.1, second_txn: txn }
                },
            )
        } else {
            rest
        }
    }
}

/// The conflicts found through the page index for the first `n` pages of
/// `pages`; when reading, hot pages are skipped.
pub open spec fn indexed_conflicts_of(index: Seq<(PageId, TransactionId)>, relevant: Seq<TransactionId>, hot: Seq<PageId>, pages: Seq<PageId>, txn: TransactionId, reading: bool, n: int) -> Seq<ConflictType>
    decreases n,
{
    if n <= 0 {
        Seq::empty()
    } else {
        let rest = indexed_conflicts_of(index, relevant, hot, pages, txn, reading, n - 1);
        let p = pages[n - 1];
        if reading && hot.contains(p) {
            rest
        } else {
            rest + index_hits(index, relevant, p, txn, reading, index.len() as int)
        }
    }
}

/// The conflicts that the page index shows for a page.
fn page_index_hits(index: &Vec<(PageId, TransactionId)>, relevant: &Vec<TransactionId>, p: PageId, txn: TransactionId, reading: bool) -> (r: Vec<ConflictType>)
    ensures
        r@ == index_hits(index@, relevant@, p, txn, reading, index@.len() as int),
{
    let mut out: Vec<ConflictType> = Vec::new();
    let mut i: usize = 0;
    while i < index.len()
        invariant
            i <= index@.len(),
            out@ == index_hits(index@, relevant@, p, txn, reading, i as int),
        decreases index@.len() - i,
    {
        let e = index[i];
        if e.0.0 == p.0 && txn_in(relevant, e.1) {
            assert(e.0 == p);
            if reading {
                out.push(ConflictType::ReadWrite { page_id: p, reader_txn: txn, writer_txn: e.1 });
            } else {
                out.push(ConflictType::WriteWrite { page_id: p, first_txn: e.1, second_txn: txn });
            }
        } else {
            assert(!(e.0 == p && relevant@.contains(e.1)));
        }
        i = i + 1;
    }
    out
}

/// The conflicts of the transaction of `ctx` that the page index shows with
/// the relevant committed transactions: read-write conflicts for its read
/// pages that are not hot, then write-write conflicts for its written pages.
pub fn indexed_conflicts(index: &Vec<(PageId, TransactionId)>, relevant: &Vec<TransactionId>, hot: &Vec<PageId>, ctx: &ValidationContext) -> (r: Vec<ConflictType>)
    ensures
        r@ == indexed_conflicts_of(index@, relevant@, hot@, ctx.read_set@, ctx.transaction_id, true, ctx.read_set@.len() as int)
            + indexed_conflicts_of(index@, relevant@, hot@, ctx.write_set@, ctx.transaction_id, false, ctx.write_set@.len() as int),
{
    let mut reads: Vec<ConflictType> = Vec::new();
    let mut i: usize = 0;
    while i < ctx.read_set.len()
        invariant
            i <= ctx.read_set@.len(),
            reads@ == indexed_conflicts_of(index@, relevant@, hot@, ctx.read_set@, ctx.transaction_id, true, i as int),
        decreases ctx.read_set@.len() - i,
    {
        let p = ctx.read_set[i];
        if !page_in(hot, p) {
            let mut more = page_index_hits(index, relevant, p, ctx.transaction_id, true);
            reads.append(&mut more);
        }
        i = i + 1;
    }
    let mut writes: Vec<ConflictType> = Vec::new();
    let mut j: usize = 0;
    while j < ctx.write_set.len()
        invariant
            j <= ctx.write_set@.len(),
            writes@ == indexed_conflicts_of(index@, relevant@, hot@, ctx.write_set@, ctx.transaction_id, false, j as int),
        decreases ctx.write_set@.len() - j,
    {
        let p = ctx.write_set[j];
        let mut more = page_index_hits(index, relevant, p, ctx.transaction_id, false);
        writes.append(&mut more);
        j = j + 1;
    }
    reads.append(&mut writes);
    reads
}

/// What to do about conflicts, with the backoff as a count of milliseconds.
#[derive(Debug, Clone, PartialEq, Eq)]
pub enum ResolutionPlan {
    /// Transaction can proceed with commit
    Proceed,
    /// Transaction should be aborted
    Abort { reason: String, should_retry: bool },
    /// Transaction should be retried after `backoff_ms` milliseconds
    Retry { backoff_ms: u64, max_retries: u32 },
}

/// A resolution plan as plain values.
pub enum PlanView {
    Proceed,
    Abort(Seq<char>, bool),
    Retry(u64, u32),
}

/// The plain view of a resolution plan.
pub open spec fn plan_view(p: ResolutionPlan) -> PlanView {
    match p {
        ResolutionPlan::Proceed => PlanView::Proceed,
        ResolutionPlan::Abort { reason, should_retry } => PlanView::Abort(reason@, should_retry),
        ResolutionPlan::Retry { backoff_ms, max_retries } => PlanView::Retry(backoff_ms, max_retries),
    }
}

/// The page a conflict is about.
pub open spec fn conflict_page(c: ConflictType) -> PageId {
    match c {
        ConflictType::ReadWrite { page_id, .. } => page_id,
        ConflictType::WriteWrite { page_id, .. } => page_id,
        ConflictType::WriteRead { page_id, .. } => page_id,
    }
}

/// How many of the first `n` conflicts are about hot pages.
pub open spec fn hot_conflicts(cs: Seq<ConflictType>, hot: Seq<PageId>, n: int) -> nat
    decreases n,
{
    if n <= 0 {
        0
    } else {
        hot_conflicts(cs, hot, n - 1) + if hot.contains(conflict_page(cs[n - 1])) { 1nat } else { 0nat }
    }
}

/// The resolution of conflicts `cs` of a transaction that started at
/// `start` and validates at `validation`, under `strategy`, given the hot
/// pages. No conflict: proceed. Abort-conflicting aborts for good;
/// lower-priority aborts (for retry) when the transaction started after its
/// validation time, else proceeds; higher-priority aborts for retry;
/// backoff retries 3 times after 10 ms per conflict. Adaptive: when more
/// than 7 in 10 conflicts are on hot pages, 5 retries after 1 ms; else with
/// a write-write conflict, abort for retry; else 3 retries after 5 ms per
/// conflict. No-wait: a conflict on a hot page aborts for good, else 2
/// retries after 1 ms.
pub open spec fn resolution_for(strategy: ConflictResolutionStrategy, cs: Seq<ConflictType>, start: u64, validation: u64, hot: Seq<PageId>) -> PlanView {
    if cs.len() == 0 {
        PlanView::Proceed
    } else {
        match strategy {
            ConflictResolutionStrategy::AbortConflicting => PlanView::Abort("Conflict detected with committed transaction"@, false),
            ConflictResolutionStrategy::AbortLowerPriority => if start > validation {
                PlanView::Abort("Lower priority transaction aborted"@, true)
            } else {
                PlanView::Proceed
            },
            ConflictResolutionStrategy::AbortHigherPriority => PlanView::Abort("Higher priority transaction wounded"@, true),
            ConflictResolutionStrategy::RetryWithBackoff => PlanView::Retry(capped(10 * cs.len() as int), 3),
            ConflictResolutionStrategy::Adaptive => if 10 * hot_conflicts(cs, hot, cs.len() as int) > 7 * cs.len() {
                PlanView::Retry(1, 5)
            } else if exists|i: int| 0 <= i < cs.len() && #[trigger] cs[i] is WriteWrite {
                PlanView::Abort("Write-write conflict detected in adaptive mode"@, true)
            } else {
                PlanView::Retry(capped(5 * cs.len() as int), 3)
            },
            ConflictResolutionStrategy::NoWaitHotPages => if hot_conflicts(cs, hot, cs.len() as int) > 0 {
                PlanView::Abort("No-wait abort on hot page conflict"@, false)
            } else {
                PlanView::Retry(1, 2)
            },
        }
    }
}

/// `x` as a `u64`, or the largest `u64` when it does not fit.
pub open spec fn capped(x: int) -> u64 {
    if x > u64::MAX {
        u64::MAX
    } else {
        x as u64
    }
}

/// `n * f`, capped at the largest `u64`.
fn times_capped(n: usize, f: u64) -> (r: u64)
    requires
        f <= 10,
    ensures
        r == capped(n * f),
{
    let a = n as u128;
    let b = f as u128;
    assert(a * b <= 0xffff_ffff_ffff_ffffu128 * 10) by (nonlinear_arith)
        requires
            a <= 0xffff_ffff_ffff_ffffu128,
            b <= 10,
    ;
    let x: u128 = a * b;
    if x > 0xffff_ffff_ffff_ffffu128 {
        0xffff_ffff_ffff_ffffu64
    } else {
        x as u64
    }
}

/// The number of conflicts about hot pages.
fn count_hot_conflicts(cs: &Vec<ConflictType>, hot: &Vec<PageId>) -> (r: usize)
    ensures
        r == hot_conflicts(cs@, hot@, cs@.len() as int),
{
    let mut count: usize = 0;
    let mut i: usize = 0;
    while i < cs.len()
        invariant
            i <= cs@.len(),
            count == hot_conflicts(cs@, hot@, i as int),
            count <= i,
        decreases cs@.len() - i,
    {
        let page = match cs[i] {
            ConflictType::ReadWrite { page_id, .. } => page_id,
            ConflictType::WriteWrite { page_id, .. } => page_id,
            ConflictType::WriteRead { page_id, .. } => page_id,
        };
        if page_in(hot, page) {
            count = count + 1;
        }
        i = i + 1;
    }
    count
}

/// Whether some conflict is a write-write conflict.
fn has_write_write(cs: &Vec<ConflictType>) -> (r: bool)
    ensures
        r == exists|i: int| 0 <= i < cs@.len() && #[trigger] cs@[i] is WriteWrite,
{
    let mut i: usize = 0;
    while i < cs.len()
        invariant
            i <= cs@.len(),
            forall|j: int| 0 <= j < i ==> !(#[trigger] cs@[j] is WriteWrite),
        decreases cs@.len() - i,
    {
        if let ConflictType::WriteWrite { .. } = cs[i] {
            return true;
        }
        i = i + 1;
    }
    false
}

/// Choose what to do about conflicts (see `resolution_for`); `hot` lists
/// the hot pages.
pub fn resolve_plan(strategy: ConflictResolutionStrategy, conflicts: &Vec<ConflictType>, ctx: &ValidationContext, hot: &Vec<PageId>) -> (r: ResolutionPlan)
    ensures
        plan_view(r) == resolution_for(strategy, conflicts@, ctx.start_timestamp, ctx.validation_timestamp, hot@),
{
    let n = conflicts.len();
    if n == 0 {
        return ResolutionPlan::Proceed;
    }
    match strategy {
        ConflictResolutionStrategy::AbortConflicting => ResolutionPlan::Abort {
            reason: "Conflict detected with committed transaction".to_owned(),
            should_retry: false,
        },
        ConflictResolutionStrategy::AbortLowerPriority => {
            if ctx.start_timestamp > ctx.validation_timestamp {
                ResolutionPlan::Abort { reason: "Lower priority transaction aborted".to_owned(), should_retry: true }
            } else {
                ResolutionPlan::Proceed
            }
        },
        ConflictResolutionStrategy::AbortHigherPriority => ResolutionPlan::Abort {
            reason: "Higher priority transaction wounded".to_owned(),
            should_retry: true,
        },
        ConflictResolutionStrategy::RetryWithBackoff => ResolutionPlan::Retry { backoff_ms: times_capped(n, 10), max_retries: 3 },
        ConflictResolutionStrategy::Adaptive => {
            let hot_count = count_hot_conflicts(conflicts, hot);
            if 10 * (hot_count as u128) > 7 * (n as u128) {
                ResolutionPlan::Retry { backoff_ms: 1, max_retries: 5 }
            } else if has_write_write(conflicts) {
                ResolutionPlan::Abort { reason: "Write-write conflict detected in adaptive mode".to_owned(), should_retry: true }
            } else {
                ResolutionPlan::Retry { backoff_ms: times_capped(n, 5), max_retries: 3 }
            }
        },
        ConflictResolutionStrategy::NoWaitHotPages => {
            if count_hot_conflicts(conflicts, hot) > 0 {
                ResolutionPlan::Abort { reason: "No-wait abort on hot page conflict".to_owned(), should_retry: false }
            } else {
                ResolutionPlan::Retry { backoff_ms: 1, max_retries: 2 }
            }
        },
    }
}

impl ConflictResolution {
    /// The resolution a plan stands for: the backoff becomes a duration of
    /// that many milliseconds.
    pub fn from_plan(plan: ResolutionPlan) -> (r: ConflictResolution)
        ensures
            plan is Proceed <==> r is Proceed,
            plan matches ResolutionPlan::Abort { reason, should_retry } ==> (r matches ConflictResolution::Abort { reason: r2, should_retry: s2 } && r2 == reason && s2 == should_retry),
            plan matches ResolutionPlan::Retry { max_retries, .. } ==> (r matches ConflictResolution::Retry { max_retries: m2, .. } && m2 == max_retries),
    {
        match plan {
            ResolutionPlan::Proceed => ConflictResolution::Proceed,
            ResolutionPlan::Abort { reason, should_retry } => ConflictResolution::Abort { reason, should_retry },
            ResolutionPlan::Retry { backoff_ms, max_retries } => ConflictResolution::Retry {
                backoff_duration: duration_from_millis(backoff_ms),
                max_retries,
            },
        }
    }
}

/// The transactions of the first `n` timestamp-index entries that
/// committed at or after `start`, in index order.
pub open spec fn relevant_of(entries: Seq<(u64, TransactionId)>, start: u64, n: int) -> Seq<TransactionId>
    decreases n,
{
    if n <= 0 {
        Seq::empty()
    } else {
        let rest = relevant_of(entries, start, n - 1);
        if entries[n - 1].0 >= start {
            rest.push(entries[n - 1].1)
        } else {
            rest
        }
    }
}

/// Whether the committed transactions are in order of commit timestamp.
pub open spec fn sorted_by_commit(cs: Seq<CommittedTransaction>) -> bool {
    forall|i: int, j: int| 0 <= i < j < cs.len() ==> cs[i].commit_timestamp <= cs[j].commit_timestamp
}

/// How many of the first `n` conflicts are read-write conflicts.
pub open spec fn read_write_count(cs: Seq<ConflictType>, n: int) -> nat
    decreases n,
{
    if n <= 0 {
        0
    } else {
        read_write_count(cs, n - 1) + if cs[n - 1] is ReadWrite { 1nat } else { 0nat }
    }
}

/// How many of the first `n` conflicts are write-write conflicts.
pub open spec fn write_write_count(cs: Seq<ConflictType>, n: int) -> nat
    decreases n,
{
    if n <= 0 {
        0
    } else {
        write_write_count(cs, n - 1) + if cs[n - 1] is WriteWrite { 1nat } else { 0nat }
    }
}

/// `after` keeps exactly the committed transactions of `before` that
/// committed after `cutoff`: with `before` in commit order, a prefix goes.
pub open spec fn kept_after(before: Seq<CommittedTransaction>, after: Seq<CommittedTransaction>, cutoff: u64) -> bool {
    exists|k: int|
        0 <= k <= before.len() && after == before.subrange(k, before.len() as int) && (forall|i: int|
            0 <= i < k ==> #[trigger] before[i].commit_timestamp <= cutoff) && (forall|i: int|
            k <= i < before.len() ==> #[trigger] before[i].commit_timestamp > cutoff)
}

/// The statistics after a validation that found `cs` and took `elapsed_us`
/// microseconds: one more validation, successful when nothing conflicts,
/// else failed with its read-write and write-write conflicts counted; the
/// average time is recomputed over the new count. Counters saturate.
pub open spec fn stats_after_validation(s: OCCStatistics, cs: Seq<ConflictType>, elapsed_us: u64) -> OCCStatistics {
    let total = s.total_validations.saturating_add(1);
    let avg = (s.average_validation_time_us * total + elapsed_us) / (total as int);
    OCCStatistics {
        total_validations: total,
        successful_validations: if cs.len() == 0 {
            s.successful_validations.saturating_add(1)
        } else {
            s.successful_validations
        },
        failed_validations: if cs.len() == 0 {
            s.failed_validations
        } else {
            s.failed_validations.saturating_add(1)
        },
        read_write_conflicts: if cs.len() == 0 {
            s.read_write_conflicts
        } else if s.read_write_conflicts + read_write_count(cs, cs.len() as int) > u64::MAX {
            u64::MAX
        } else {
            (s.read_write_conflicts + read_write_count(cs, cs.len() as int)) as u64
        },
        write_write_conflicts: if cs.len() == 0 {
            s.write_write_conflicts
        } else if s.write_write_conflicts + write_write_count(cs, cs.len() as int) > u64::MAX {
            u64::MAX
        } else {
            (s.write_write_conflicts + write_write_count(cs, cs.len() as int)) as u64
        },
        average_validation_time_us: if avg > u64::MAX {
            u64::MAX
        } else {
            avg as u64
        },
        ..s
    }
}

/// Validates transactions optimistically against those that committed
/// recently, and chooses what to do about conflicts.
///
/// The hot pages and the choice between the page index and a scan of the
/// committed transactions come from estimates over the access history,
/// which the caller makes and hands in.
pub struct OCCManager {
    /// Recently committed transactions, in order of commit timestamp
    committed_transactions: Vec<CommittedTransaction>,
    /// One entry per page written by a committed transaction, in commit order
    page_index: Vec<(PageId, TransactionId)>,
    /// One entry per committed transaction, with its commit timestamp
    timestamp_index: Vec<(u64, TransactionId)>,
    /// Conflict resolution strategy
    resolution_strategy: ConflictResolutionStrategy,
    /// Statistics for monitoring
    statistics: OCCStatistics,
    /// Maximum number of committed transactions to keep for validation
    max_committed_transactions: usize,
    /// When old committed transactions were last dropped
    last_cleanup: Instant,
}

impl OCCManager {
    /// The committed transactions kept for validation, oldest first.
    pub closed spec fn committed(&self) -> Seq<CommittedTransaction> {
        self.committed_transactions@
    }

    /// The page index: a (page, transaction) entry for each page that a
    /// committed transaction wrote.
    pub closed spec fn page_entries(&self) -> Seq<(PageId, TransactionId)> {
        self.page_index@
    }

    /// The timestamp index: a (commit timestamp, transaction) entry per commit.
    pub closed spec fn timestamp_entries(&self) -> Seq<(u64, TransactionId)> {
        self.timestamp_index@
    }

    /// The resolution strategy.
    pub closed spec fn strategy(&self) -> ConflictResolutionStrategy {
        self.resolution_strategy
    }

    /// The statistics.
    pub closed spec fn stats(&self) -> OCCStatistics {
        self.statistics
    }

    /// How many committed transactions are kept at most.
    pub closed spec fn max_committed(&self) -> nat {
        self.max_committed_transactions as nat
    }

    /// The committed transactions are in commit order and no more than the limit.
    pub closed spec fn inv(&self) -> bool {
        &&& sorted_by_commit(self.committed_transactions@)
        &&& self.committed_transactions@.len() <= self.max_committed_transactions
    }

    /// Create a new OCC manager with the given strategy that keeps at most
    /// `max_committed_transactions` committed transactions for validation.
    pub fn new(resolution_strategy: ConflictResolutionStrategy, max_committed_transactions: usize) -> (r: Self)
        ensures
            r.inv(),
            r.committed() == Seq::<CommittedTransaction>::empty(),
            r.page_entries() == Seq::<(PageId, TransactionId)>::empty(),
            r.timestamp_entries() == Seq::<(u64, TransactionId)>::empty(),
            r.strategy() == resolution_strategy,
            r.stats() == OCCStatistics::zero(),
            r.max_committed() == max_committed_transactions,
    {
        OCCManager {
            committed_transactions: Vec::new(),
            page_index: Vec::new(),
            timestamp_index: Vec::new(),
            resolution_strategy,
            statistics: OCCStatistics::default(),
            max_committed_transactions,
            last_cleanup: instant_now(),
        }
    }

    /// The conflicts that validation finds for the transaction of `ctx`:
    /// through the page index (with the transactions that committed at or
    /// after its start, skipping hot read pages), or by a scan of the
    /// committed transactions.
    pub open spec fn conflicts_found(&self, ctx: ValidationContext, use_page_index: bool, hot: Seq<PageId>) -> Seq<ConflictType> {
        if use_page_index {
            let relevant = relevant_of(self.timestamp_entries(), ctx.start_timestamp, self.timestamp_entries().len() as int);
            indexed_conflicts_of(self.page_entries(), relevant, hot, ctx.read_set@, ctx.transaction_id, true, ctx.read_set@.len() as int)
                + indexed_conflicts_of(self.page_entries(), relevant, hot, ctx.write_set@, ctx.transaction_id, false, ctx.write_set@.len() as int)
        } else {
            all_conflicts(self.committed(), ctx, self.committed().len() as int)
        }
    }

    /// The transactions that committed at or after `start`, from the
    /// timestamp index.
    fn relevant_transactions(&self, start: u64) -> (r: Vec<TransactionId>)
        ensures
            r@ == relevant_of(self.timestamp_entries(), start, self.timestamp_entries().len() as int),
    {
        let mut out: Vec<TransactionId> = Vec::new();
        let mut i: usize = 0;
        while i < self.timestamp_index.len()
            invariant
                i <= self.timestamp_index@.len(),
                out@ == relevant_of(self.timestamp_index@, start, i as int),
            decreases self.timestamp_index@.len() - i,
        {
            let e = self.timestamp_index[i];
            if e.0 >= start {
                out.push(e.1);
            }
            i = i + 1;
        }
        out
    }

    /// Count the validation that found `cs` and took `elapsed_us` microseconds.
    fn note_validation(&mut self, cs: &Vec<ConflictType>, elapsed_us: u64)
        ensures
            final(self).statistics == stats_after_validation(old(self).statistics, cs@, elapsed_us),
            final(self).committed_transactions == old(self).committed_transactions,
            final(self).page_index == old(self).page_index,
            final(self).timestamp_index == old(self).timestamp_index,
            final(self).resolution_strategy == old(self).resolution_strategy,
            final(self).max_committed_transactions == old(self).max_committed_transactions,
            final(self).last_cleanup == old(self).last_cleanup,
    {
        let mut rw: u64 = 0;
        let mut ww: u64 = 0;
        let mut i: usize = 0;
        while i < cs.len()
            invariant
                i <= cs@.len(),
                rw == read_write_count(cs@, i as int),
                ww == write_write_count(cs@, i as int),
                rw + ww <= i,
            decreases cs@.len() - i,
        {
            match cs[i] {
                ConflictType::ReadWrite { .. } => {
                    rw = rw + 1;
                },
                ConflictType::WriteWrite { .. } => {
                    ww = ww + 1;
                },
                ConflictType::WriteRead { .. } => {},
            }
            i = i + 1;
        }
        let old_stats = self.statistics;
        let total = old_stats.total_validations.saturating_add(1);
        let mut stats = old_stats;
        stats.total_validations = total;
        if cs.len() == 0 {
            stats.successful_validations = old_stats.successful_validations.saturating_add(1);
        } else {
            stats.failed_validations = old_stats.failed_validations.saturating_add(1);
            stats.read_write_conflicts = old_stats.read_write_conflicts.saturating_add(rw);
            stats.write_write_conflicts = old_stats.write_write_conflicts.saturating_add(ww);
        }
        let a = old_stats.average_validation_time_us as u128;
        let t = total as u128;
        assert(a * t <= 0xffff_ffff_ffff_ffffu128 * 0xffff_ffff_ffff_ffffu128) by (nonlinear_arith)
            requires
                a <= 0xffff_ffff_ffff_ffffu128,
                t <= 0xffff_ffff_ffff_ffffu128,
        ;
        let total_time: u128 = a * t + (elapsed_us as u128);
        let avg = total_time / t;
        stats.average_validation_time_us = if avg > 0xffff_ffff_ffff_ffffu128 {
            0xffff_ffff_ffff_ffffu64
        } else {
            avg as u64
        };
        self.statistics = stats;
    }

    /// Drop the committed transactions that committed no later than `cutoff`.
    fn drop_committed_until(&mut self, cutoff: u64)
        requires
            old(self).inv(),
        ensures
            final(self).inv(),
            kept_after(old(self).committed(), final(self).committed(), cutoff),
            final(self).statistics == old(self).statistics,
            final(self).page_index == old(self).page_index,
            final(self).timestamp_index == old(self).timestamp_index,
            final(self).resolution_strategy == old(self).resolution_strategy,
            final(self).max_committed_transactions == old(self).max_committed_transactions,
            final(self).last_cleanup == old(self).last_cleanup,
    {
        let ghost before = self.committed_transactions@;
        let mut k: usize = 0;
        while k < self.committed_transactions.len() && self.committed_transactions[k].commit_timestamp <= cutoff
            invariant
                k <= before.len(),
                self.committed_transactions@ == before,
                forall|i: int| 0 <= i < k ==> #[trigger] before[i].commit_timestamp <= cutoff,
            decreases before.len() - k,
        {
            k = k + 1;
        }
        assert forall|i: int| k <= i < before.len() implies #[trigger] before[i].commit_timestamp > cutoff by {
            assert(before[k as int].commit_timestamp > cutoff);
        }
        let kept = self.committed_transactions.split_off(k);
        self.committed_transactions = kept;
        assert(kept_after(before, self.committed_transactions@, cutoff));
    }

    /// Every minute, drop the committed transactions older than a cutoff
    /// taken from the clock.
    fn cleanup_if_needed(&mut self)
        requires
            old(self).inv(),
        ensures
            final(self).inv(),
            final(self).committed() == old(self).committed() || exists|cutoff: u64|
                kept_after(old(self).committed(), final(self).committed(), cutoff),
            final(self).statistics == old(self).statistics,
            final(self).page_index == old(self).page_index,
            final(self).timestamp_index == old(self).timestamp_index,
            final(self).resolution_strategy == old(self).resolution_strategy,
            final(self).max_committed_transactions == old(self).max_committed_transactions,
    {
        let now = instant_now();
        let since = instant_elapsed(&self.last_cleanup);
        if duration_nanos(&since) > 60_000_000_000u128 {
            let cutoff = generate_timestamp().saturating_sub(300_000);
            self.drop_committed_until(cutoff);
            self.last_cleanup = now;
        }
    }

    /// Validate a transaction for commit: its conflicts with the
    /// transactions that committed after it started. With the page index,
    /// read pages in `hot` are skipped and write-read conflicts are not
    /// sought; otherwise every committed transaction is scanned. The
    /// statistics count the validation, and old committed transactions may
    /// be dropped afterwards (see `cleanup_if_needed`).
    pub fn validate_transaction(&mut self, context: &ValidationContext, use_page_index: bool, hot: &Vec<PageId>) -> (r: StorageResult<Vec<ConflictType>>)
        requires
            old(self).inv(),
        ensures
            final(self).inv(),
            r is Ok,
            r matches Ok(cs) && cs@ == old(self).conflicts_found(*context, use_page_index, hot@),
            r matches Ok(cs) && exists|elapsed_us: u64| final(self).stats() == stats_after_validation(old(self).stats(), cs@, elapsed_us),
            final(self).committed() == old(self).committed() || exists|cutoff: u64|
                kept_after(old(self).committed(), final(self).committed(), cutoff),
            final(self).page_entries() == old(self).page_entries(),
            final(self).timestamp_entries() == old(self).timestamp_entries(),
            final(self).strategy() == old(self).strategy(),
            final(self).max_committed() == old(self).max_committed(),
    {
        let start_time = instant_now();
        let conflicts = if use_page_index {
            let relevant = self.relevant_transactions(context.start_timestamp);
            indexed_conflicts(&self.page_index, &relevant, hot, context)
        } else {
            traditional_conflicts(&self.committed_transactions, context)
        };
        let elapsed = instant_elapsed(&start_time);
        let elapsed_us = duration_micros(&elapsed);
        self.note_validation(&conflicts, elapsed_us);
        self.cleanup_if_needed();
        assert(self.stats() == stats_after_validation(old(self).stats(), conflicts@, elapsed_us));
        assert(exists|e: u64| self.stats() == stats_after_validation(old(self).stats(), conflicts@, e));
        Ok(conflicts)
    }

    /// Record a committed transaction: it joins the committed transactions
    /// after those that committed no later than it, the oldest are dropped
    /// beyond the limit, and the page and timestamp indexes gain its entries.
    pub fn record_commit(&mut self, transaction_id: TransactionId, commit_timestamp: u64, read_set: Vec<PageId>, write_set: Vec<PageId>) -> (r: StorageResult<()>)
        requires
            old(self).inv(),
        ensures
            r is Ok,
            final(self).inv(),
            exists|k: int|
                0 <= k <= old(self).committed().len() && (forall|i: int|
                    0 <= i < k ==> #[trigger] old(self).committed()[i].commit_timestamp <= commit_timestamp) && (forall|i: int|
                    k <= i < old(self).committed().len() ==> #[trigger] old(self).committed()[i].commit_timestamp > commit_timestamp)
                    && final(self).committed() == keep_newest(
                    old(self).committed().insert(k, CommittedTransaction { id: transaction_id, commit_timestamp, write_set, read_set }),
                    old(self).max_committed(),
                ),
            final(self).page_entries() == old(self).page_entries() + write_set@.map_values(|p: PageId| (p, transaction_id)),
            final(self).timestamp_entries() == old(self).timestamp_entries().push((commit_timestamp, transaction_id)),
            final(self).stats() == old(self).stats(),
            final(self).strategy() == old(self).strategy(),
            final(self).max_committed() == old(self).max_committed(),
    {
        let ghost index0 = self.page_index@;
        let mut j: usize = 0;
        while j < write_set.len()
            invariant
                j <= write_set@.len(),
                self.page_index@ == index0 + write_set@.take(j as int).map_values(|p: PageId| (p, transaction_id)),
                self.committed_transactions == old(self).committed_transactions,
                self.timestamp_index == old(self).timestamp_index,
                self.statistics == old(self).statistics,
                self.resolution_strategy == old(self).resolution_strategy,
                self.max_committed_transactions == old(self).max_committed_transactions,
            decreases write_set@.len() - j,
        {
            self.page_index.push((write_set[j], transaction_id));
            assert(write_set@.take(j + 1).map_values(|p: PageId| (p, transaction_id)) =~= write_set@.take(j as int).map_values(
                |p: PageId| (p, transaction_id),
            ).push((write_set@[j as int], transaction_id)));
            j = j + 1;
        }
        assert(write_set@.take(write_set@.len() as int) =~= write_set@);
        let ghost before = self.committed_transactions@;
        let mut k: usize = 0;
        while k < self.committed_transactions.len() && self.committed_transactions[k].commit_timestamp <= commit_timestamp
            invariant
                k <= before.len(),
                self.committed_transactions@ == before,
                sorted_by_commit(before),
                forall|i: int| 0 <= i < k ==> #[trigger] before[i].commit_timestamp <= commit_timestamp,
            decreases before.len() - k,
        {
            k = k + 1;
        }
        assert forall|i: int| k <= i < before.len() implies #[trigger] before[i].commit_timestamp > commit_timestamp by {
            assert(before[k as int].commit_timestamp > commit_timestamp);
        }
        let committed = CommittedTransaction { id: transaction_id, commit_timestamp, write_set, read_set };
        self.committed_transactions.insert(k, committed);
        let ghost inserted = self.committed_transactions@;
        assert(sorted_by_commit(inserted)) by {
            assert forall|a: int, b: int| 0 <= a < b < inserted.len() implies inserted[a].commit_timestamp
                <= inserted[b].commit_timestamp by {
                if a < k && b > k {
                    assert(inserted[b] == before[b - 1]);
                } else if b > k {
                    assert(inserted[b] == before[b - 1]);
                }
            }
        }
        let len = self.committed_transactions.len();
        if len > self.max_committed_transactions {
            let kept = self.committed_transactions.split_off(len - self.max_committed_transactions);
            self.committed_transactions = kept;
        }
        assert(self.committed_transactions@ == keep_newest(before.insert(k as int, committed), self.max_committed_transactions as nat));
        assert(committed == CommittedTransaction { id: transaction_id, commit_timestamp, write_set, read_set });
        assert(before == old(self).committed());
        assert(forall|i: int| k <= i < before.len() ==> #[trigger] old(self).committed()[i].commit_timestamp > commit_timestamp);
        assert(forall|i: int| 0 <= i < k ==> #[trigger] old(self).committed()[i].commit_timestamp <= commit_timestamp);
        self.timestamp_index.push((commit_timestamp, transaction_id));
        Ok(())
    }

    /// Resolve conflicts using the configured strategy (see
    /// `resolution_for`); `hot` lists the hot pages.
    pub fn resolve_conflicts(&self, conflicts: &Vec<ConflictType>, context: &ValidationContext, hot: &Vec<PageId>) -> (r: ConflictResolution)
        ensures
            resolution_matches(r, resolution_for(self.strategy(), conflicts@, context.start_timestamp, context.validation_timestamp, hot@)),
    {
        let plan = resolve_plan(self.resolution_strategy, conflicts, context, hot);
        ConflictResolution::from_plan(plan)
    }

    /// Count an aborted transaction. Writing the abort to the log is the
    /// caller's part.
    pub fn handle_abort(&mut self, transaction_id: TransactionId, reason: &str) -> (r: StorageResult<()>)
        ensures
            r is Ok,
            final(self).stats() == (OCCStatistics {
                aborted_transactions: old(self).stats().aborted_transactions.saturating_add(1),
                ..old(self).stats()
            }),
            final(self).committed() == old(self).committed(),
            final(self).page_entries() == old(self).page_entries(),
            final(self).timestamp_entries() == old(self).timestamp_entries(),
            final(self).strategy() == old(self).strategy(),
            final(self).max_committed() == old(self).max_committed(),
            final(self).inv() == old(self).inv(),
    {
        self.statistics.aborted_transactions = self.statistics.aborted_transactions.saturating_add(1);
        Ok(())
    }

    /// Get current OCC statistics
    pub fn statistics(&self) -> (r: OCCStatistics)
        ensures
            r == self.stats(),
    {
        self.statistics
    }

    /// Reset statistics
    pub fn reset_statistics(&mut self)
        ensures
            final(self).stats() == OCCStatistics::zero(),
            final(self).committed() == old(self).committed(),
            final(self).page_entries() == old(self).page_entries(),
            final(self).timestamp_entries() == old(self).timestamp_entries(),
            final(self).strategy() == old(self).strategy(),
            final(self).max_committed() == old(self).max_committed(),
            final(self).inv() == old(self).inv(),
    {
        self.statistics = OCCStatistics::default();
    }

    /// Get the number of currently tracked committed transactions
    pub fn committed_transaction_count(&self) -> (r: usize)
        ensures
            r == self.committed().len(),
    {
        self.committed_transactions.len()
    }

    /// Set the conflict resolution strategy
    pub fn set_resolution_strategy(&mut self, strategy: ConflictResolutionStrategy)
        ensures
            final(self).strategy() == strategy,
            final(self).stats() == old(self).stats(),
            final(self).committed() == old(self).committed(),
            final(self).page_entries() == old(self).page_entries(),
            final(self).timestamp_entries() == old(self).timestamp_entries(),
            final(self).max_committed() == old(self).max_committed(),
            final(self).inv() == old(self).inv(),
    {
        self.resolution_strategy = strategy;
    }

    /// Get the current conflict resolution strategy
    pub fn resolution_strategy(&self) -> (r: ConflictResolutionStrategy)
        ensures
            r == self.strategy(),
    {
        self.resolution_strategy
    }
}

/// Whether resolution `r` carries out plan `p`; the backoff of a retry is
/// a duration, of which only the plan's count of milliseconds is known.
pub open spec fn resolution_matches(r: ConflictResolution, p: PlanView) -> bool {
    match p {
        PlanView::Proceed => r is Proceed,
        PlanView::Abort(reason, retry) => r matches ConflictResolution::Abort { reason: r2, should_retry: s2 } && r2@ == reason && s2 == retry,
        PlanView::Retry(_, m) => r matches ConflictResolution::Retry { max_retries: m2, .. } && m2 == m,
    }
}

/// The newest `max` of the committed transactions `cs` (all of them when
/// there are no more than `max`).
pub open spec fn keep_newest(cs: Seq<CommittedTransaction>, max: nat) -> Seq<CommittedTransaction> {
    if cs.len() > max {
        cs.subrange(cs.len() - max, cs.len() as int)
    } else {
        cs
    }
}

/// OCC Transaction extensions for tracking read/write sets
pub trait OCCTransaction {
    /// Add a page to the read set
    fn add_to_read_set(&mut self, page_id: PageId);

    /// Add a page to the write set
    fn add_to_write_set(&mut self, page_id: PageId);

    /// Get the current read set
    fn read_set(&self) -> &Vec<PageId>;

    /// Get the current write set
    fn write_set(&self) -> &Vec<PageId>;

    /// Create validation context for OCC
    fn create_validation_context(&self) -> ValidationContext;
}

/// `s` with `p` added, when it is not there yet.
pub open spec fn set_add(s: Seq<PageId>, p: PageId) -> Seq<PageId> {
    if s.contains(p) {
        s
    } else {
        s.push(p)
    }
}

/// Whether `c` is the context of transaction `transaction_id` that has
/// just begun: nothing read or written and no validation yet.
pub open spec fn fresh_context(c: ValidationContext, transaction_id: TransactionId) -> bool {
    &&& c.transaction_id == transaction_id
    &&& c.read_set@.len() == 0
    &&& c.write_set@.len() == 0
    &&& c.validation_timestamp == 0
}

/// OCC-aware transaction manager: the contexts of the active transactions
/// and the validator they commit through.
pub struct OCCTransactionManager {
    /// Inner OCC manager
    occ_manager: OCCManager,
    /// Active transactions with their contexts
    active_transactions: AssocList<TransactionId, ValidationContext>,
}

impl OCCTransactionManager {
    /// The validator.
    pub closed spec fn manager(&self) -> OCCManager {
        self.occ_manager
    }

    /// The contexts of the active transactions.
    pub closed spec fn active(&self) -> Map<TransactionId, ValidationContext> {
        self.active_transactions.view_map()
    }

    /// The validator is consistent and the active transactions are a map.
    pub closed spec fn inv(&self) -> bool {
        &&& self.occ_manager.inv()
        &&& self.active_transactions.wf()
        &&& forall|t: TransactionId| #[trigger] self.active().contains_key(t) ==> self.active()[t].transaction_id == t
    }

    /// Create a new OCC transaction manager
    pub fn new(occ_manager: OCCManager) -> (r: Self)
        requires
            occ_manager.inv(),
        ensures
            r.inv(),
            r.manager() == occ_manager,
            r.active() == Map::<TransactionId, ValidationContext>::empty(),
    {
        OCCTransactionManager { occ_manager, active_transactions: AssocList::new() }
    }

    /// The validator.
    pub fn occ_manager(&self) -> (r: &OCCManager)
        ensures
            *r == self.manager(),
    {
        &self.occ_manager
    }

    /// Begin a new transaction with OCC tracking; its start timestamp comes
    /// from the clock.
    pub fn begin_transaction(&mut self, transaction_id: TransactionId) -> (r: StorageResult<()>)
        requires
            old(self).inv(),
        ensures
            final(self).inv(),
            r is Ok,
            exists|c: ValidationContext| fresh_context(c, transaction_id) && final(self).active() == old(self).active().insert(transaction_id, c),
            final(self).manager() == old(self).manager(),
    {
        let start = generate_timestamp();
        let context = ValidationContext {
            transaction_id,
            read_set: Vec::new(),
            write_set: Vec::new(),
            start_timestamp: start,
            validation_timestamp: 0,
        };
        let ghost c = context;
        self.active_transactions.insert(transaction_id, context);
        assert(fresh_context(c, transaction_id) && self.active() == old(self).active().insert(transaction_id, c));
        Ok(())
    }

    /// The error for a transaction that is not active.
    fn not_found(transaction_id: TransactionId) -> (r: StorageError)
        ensures
            r is NotFound,
    {
        let mut message = "Transaction ".to_owned();
        message.append(decimal_text(transaction_id).as_str());
        message.append(" not found");
        StorageError::NotFound(message)
    }

    /// Update read set for a transaction
    pub fn add_to_read_set(&mut self, transaction_id: TransactionId, page_id: PageId) -> (r: StorageResult<()>)
        requires
            old(self).inv(),
        ensures
            final(self).inv(),
            final(self).manager() == old(self).manager(),
            r is Ok <==> old(self).active().contains_key(transaction_id),
            r matches Err(e) ==> e is NotFound && final(self).active() == old(self).active(),
            r is Ok ==> final(self).active() == old(self).active().insert(
                transaction_id,
                ValidationContext { read_set: final(self).active()[transaction_id].read_set, ..old(self).active()[transaction_id] },
            ) && final(self).active()[transaction_id].read_set@ == set_add(old(self).active()[transaction_id].read_set@, page_id),
    {
        self.add_page(transaction_id, page_id, true)
    }

    /// Update write set for a transaction
    pub fn add_to_write_set(&mut self, transaction_id: TransactionId, page_id: PageId) -> (r: StorageResult<()>)
        requires
            old(self).inv(),
        ensures
            final(self).inv(),
            final(self).manager() == old(self).manager(),
            r is Ok <==> old(self).active().contains_key(transaction_id),
            r matches Err(e) ==> e is NotFound && final(self).active() == old(self).active(),
            r is Ok ==> final(self).active() == old(self).active().insert(
                transaction_id,
                ValidationContext { write_set: final(self).active()[transaction_id].write_set, ..old(self).active()[transaction_id] },
            ) && final(self).active()[transaction_id].write_set@ == set_add(old(self).active()[transaction_id].write_set@, page_id),
    {
        self.add_page(transaction_id, page_id, false)
    }

    /// Add a page to the read or the write set of an active transaction.
    fn add_page(&mut self, transaction_id: TransactionId, page_id: PageId, reading: bool) -> (r: StorageResult<()>)
        requires
            old(self).inv(),
        ensures
            final(self).inv(),
            final(self).manager() == old(self).manager(),
            r is Ok <==> old(self).active().contains_key(transaction_id),
            r matches Err(e) ==> e is NotFound && final(self).active() == old(self).active(),
            r is Ok && reading ==> final(self).active() == old(self).active().insert(
                transaction_id,
                ValidationContext { read_set: final(self).active()[transaction_id].read_set, ..old(self).active()[transaction_id] },
            ) && final(self).active()[transaction_id].read_set@ == set_add(old(self).active()[transaction_id].read_set@, page_id),
            r is Ok && !reading ==> final(self).active() == old(self).active().insert(
                transaction_id,
                ValidationContext { write_set: final(self).active()[transaction_id].write_set, ..old(self).active()[transaction_id] },
            ) && final(self).active()[transaction_id].write_set@ == set_add(old(self).active()[transaction_id].write_set@, page_id),
    {
        match self.active_transactions.remove(&transaction_id) {
            None => {
                assert(self.active() =~= old(self).active());
                Err(Self::not_found(transaction_id))
            },
            Some(mut context) => {
                assert(old(self).active().contains_key(transaction_id));
                assert(context.transaction_id == transaction_id);
                if reading {
                    if !page_in(&context.read_set, page_id) {
                        context.read_set.push(page_id);
                    }
                } else {
                    if !page_in(&context.write_set, page_id) {
                        context.write_set.push(page_id);
                    }
                }
                let ghost c = context;
                self.active_transactions.insert(transaction_id, context);
                assert(self.active()[transaction_id] == c);
                Ok(())
            },
        }
    }

    /// Validate and commit a transaction using OCC. Its validation
    /// timestamp comes from the clock; `use_page_index` and `hot` are
    /// handed to validation and resolution. A transaction that may proceed
    /// is recorded as committed, an aborted one is counted, and one to be
    /// retried stays active with its new validation timestamp. Writing an
    /// abort to the log is the caller's part.
    pub fn commit_transaction(&mut self, transaction_id: TransactionId, use_page_index: bool, hot: &Vec<PageId>) -> (r: StorageResult<ConflictResolution>)
        requires
            old(self).inv(),
        ensures
            final(self).inv(),
            r is Ok <==> old(self).active().contains_key(transaction_id),
            r matches Err(e) ==> e is NotFound && final(self).active() == old(self).active() && final(self).manager() == old(self).manager(),
            r matches Ok(res) ==> exists|vts: u64| #[trigger] committed_as(old(self).manager(), final(self).manager(), old(self).active(), final(self).active(), transaction_id, vts, use_page_index, hot@, res),
    {
        match self.active_transactions.remove(&transaction_id) {
            None => {
                assert(self.active() =~= old(self).active());
                Err(Self::not_found(transaction_id))
            },
            Some(mut context) => {
                assert(old(self).active().contains_key(transaction_id));
                let ghost original = context;
                let ghost before = self.occ_manager;
                context.validation_timestamp = generate_timestamp();
                let vts = context.validation_timestamp;
                let conflicts = match self.occ_manager.validate_transaction(&context, use_page_index, hot) {
                    Ok(c) => c,
                    Err(e) => {
                        return Err(e);
                    },
                };
                let ghost validated = self.occ_manager;
                let resolution = self.occ_manager.resolve_conflicts(&conflicts, &context, hot);
                match resolution {
                    ConflictResolution::Proceed => {
                        let _ = self.occ_manager.record_commit(transaction_id, vts, context.read_set, context.write_set);
                    },
                    ConflictResolution::Abort { .. } => {
                        let _ = self.occ_manager.handle_abort(transaction_id, "");
                        assert(self.active() =~= old(self).active().remove(transaction_id));
                    },
                    ConflictResolution::Retry { .. } => {
                        let ghost c = context;
                        self.active_transactions.insert(transaction_id, context);
                        assert(self.active() =~= old(self).active().insert(transaction_id, c));
                    },
                }
                assert(committed_as(before, self.occ_manager, old(self).active(), self.active(), transaction_id, vts, use_page_index, hot@, resolution));
                Ok(resolution)
            },
        }
    }

    /// Abort a transaction: it is no longer active, and the abort is
    /// counted. Writing the abort to the log is the caller's part.
    pub fn abort_transaction(&mut self, transaction_id: TransactionId, reason: &str) -> (r: StorageResult<()>)
        requires
            old(self).inv(),
        ensures
            final(self).inv(),
            r is Ok,
            final(self).active() == old(self).active().remove(transaction_id),
            final(self).manager().stats() == (OCCStatistics {
                aborted_transactions: old(self).manager().stats().aborted_transactions.saturating_add(1),
                ..old(self).manager().stats()
            }),
            final(self).manager().committed() == old(self).manager().committed(),
            final(self).manager().page_entries() == old(self).manager().page_entries(),
            final(self).manager().timestamp_entries() == old(self).manager().timestamp_entries(),
            final(self).manager().strategy() == old(self).manager().strategy(),
    {
        let _ = self.active_transactions.remove(&transaction_id);
        let r = self.occ_manager.handle_abort(transaction_id, reason);
        assert forall|t: TransactionId| #[trigger] self.active().contains_key(t) implies self.active()[t].transaction_id == t by {
            assert(old(self).active().contains_key(t));
        }
        r
    }

    /// The context of an active transaction.
    pub fn context(&self, transaction_id: TransactionId) -> (r: Option<&ValidationContext>)
        requires
            self.inv(),
        ensures
            r is None <==> !self.active().contains_key(transaction_id),
            r matches Some(c) ==> *c == self.active()[transaction_id],
    {
        self.active_transactions.get(&transaction_id)
    }

    /// Get active transaction count
    pub fn active_transaction_count(&self) -> (r: usize)
        requires
            self.inv(),
        ensures
            r == self.active().len(),
    {
        self.active_transactions.len()
    }
}

/// What committing transaction `t` with validation timestamp `vts` did
/// when it was answered `res`: the context validated is the active one with
/// that timestamp, and `res` resolves its conflicts under the strategy. It
/// stays active only for a retry; when it proceeds its commit is indexed;
/// an abort is counted; and the validation itself is counted.
pub open spec fn committed_as(
    m0: OCCManager,
    m1: OCCManager,
    a0: Map<TransactionId, ValidationContext>,
    a1: Map<TransactionId, ValidationContext>,
    t: TransactionId,
    vts: u64,
    use_page_index: bool,
    hot: Seq<PageId>,
    res: ConflictResolution,
) -> bool {
    let ctx = ValidationContext { validation_timestamp: vts, ..a0[t] };
    let cs = m0.conflicts_found(ctx, use_page_index, hot);
    &&& resolution_matches(res, resolution_for(m0.strategy(), cs, ctx.start_timestamp, vts, hot))
    &&& if res is Retry {
        a1 == a0.insert(t, ctx)
    } else {
        a1 == a0.remove(t)
    }
    &&& if res is Proceed {
        &&& m1.timestamp_entries() == m0.timestamp_entries().push((vts, t))
        &&& m1.page_entries() == m0.page_entries() + ctx.write_set@.map_values(|p: PageId| (p, t))
    } else {
        &&& m1.timestamp_entries() == m0.timestamp_entries()
        &&& m1.page_entries() == m0.page_entries()
    }
    &&& m1.stats().total_validations == m0.stats().total_validations.saturating_add(1)
    &&& m1.stats().aborted_transactions == if res is Abort {
        m0.stats().aborted_transactions.saturating_add(1)
    } else {
        m0.stats().aborted_transactions
    }
    &&& m1.strategy() == m0.strategy()
    &&& m1.max_committed() == m0.max_committed()
}

/// Whether the transaction of `ctx` touches nothing that committed
/// transaction `c` touched in a conflicting way: no page it read was written
/// by `c`, and no page it wrote was read or written by `c`.
pub open spec fn disjoint_from(c: CommittedTransaction, ctx: ValidationContext) -> bool {
    &&& forall|i: int| 0 <= i < ctx.read_set@.len() ==> !c.write_set@.contains(#[trigger] ctx.read_set@[i])
    &&& forall|i: int| 0 <= i < ctx.write_set@.len() ==> !c.write_set@.contains(#[trigger] ctx.write_set@[i])
    &&& forall|i: int| 0 <= i < ctx.write_set@.len() ==> !c.read_set@.contains(#[trigger] ctx.write_set@[i])
}

proof fn lemma_reads_clear(ctx: ValidationContext, c: CommittedTransaction, n: int)
    requires
        disjoint_from(c, ctx),
        n <= ctx.read_set@.len(),
    ensures
        read_write_conflicts(ctx.read_set@, c.write_set@, c.id, ctx.transaction_id, n).len() == 0,
    decreases n,
{
    if n > 0 {
        lemma_reads_clear(ctx, c, n - 1);
        assert(!c.write_set@.contains(ctx.read_set@[n - 1]));
    }
}

proof fn lemma_writes_clear(ctx: ValidationContext, c: CommittedTransaction, m: int)
    requires
        disjoint_from(c, ctx),
        m <= ctx.write_set@.len(),
    ensures
        write_write_conflicts(ctx.write_set@, c.write_set@, c.id, ctx.transaction_id, m).len() == 0,
        write_read_conflicts(ctx.write_set@, c.read_set@, c.id, ctx.transaction_id, m).len() == 0,
    decreases m,
{
    if m > 0 {
        lemma_writes_clear(ctx, c, m - 1);
        assert(!c.write_set@.contains(ctx.write_set@[m - 1]));
        assert(!c.read_set@.contains(ctx.write_set@[m - 1]));
    }
}

/// A transaction that overlaps none of the transactions that committed
/// after it started (see `disjoint_from`) passes validation by scanning:
/// no conflict is found.
pub proof fn lemma_disjoint_validates(cs: Seq<CommittedTransaction>, ctx: ValidationContext, n: int)
    requires
        0 <= n <= cs.len(),
        forall|i: int| 0 <= i < n && #[trigger] cs[i].commit_timestamp > ctx.start_timestamp ==> disjoint_from(cs[i], ctx),
    ensures
        all_conflicts(cs, ctx, n).len() == 0,
    decreases n,
{
    if n > 0 {
        lemma_disjoint_validates(cs, ctx, n - 1);
        if cs[n - 1].commit_timestamp > ctx.start_timestamp {
            lemma_reads_clear(ctx, cs[n - 1], ctx.read_set@.len() as int);
            lemma_writes_clear(ctx, cs[n - 1], ctx.write_set@.len() as int);
        }
    }
}

/// Conflict `x` is witnessed among the first `n` committed transactions of
/// `cs`: it names the validating transaction and a transaction of `cs` that
/// committed after the validating one started, and a page the first read or
/// wrote and the second wrote or read as the kind says.
pub open spec fn conflict_witnessed(cs: Seq<CommittedTransaction>, ctx: ValidationContext, n: int, x: ConflictType) -> bool {
    match x {
        ConflictType::ReadWrite { page_id, reader_txn, writer_txn } => reader_txn == ctx.transaction_id && exists|i: int|
            0 <= i < n && (#[trigger] cs[i]).id == writer_txn && cs[i].commit_timestamp > ctx.start_timestamp
                && ctx.read_set@.contains(page_id) && cs[i].write_set@.contains(page_id),
        ConflictType::WriteWrite { page_id, first_txn, second_txn } => second_txn == ctx.transaction_id && exists|i: int|
            0 <= i < n && (#[trigger] cs[i]).id == first_txn && cs[i].commit_timestamp > ctx.start_timestamp
                && ctx.write_set@.contains(page_id) && cs[i].write_set@.contains(page_id),
        ConflictType::WriteRead { page_id, writer_txn, reader_txn } => writer_txn == ctx.transaction_id && exists|i: int|
            0 <= i < n && (#[trigger] cs[i]).id == reader_txn && cs[i].commit_timestamp > ctx.start_timestamp
                && ctx.write_set@.contains(page_id) && cs[i].read_set@.contains(page_id),
    }
}

proof fn lemma_contains_push<T>(s: Seq<T>, x: T, y: T)
    ensures
        s.contains(y) ==> s.push(x).contains(y),
        s.push(x).contains(x),
        s.push(x).contains(y) ==> s.contains(y) || y == x,
{
    if s.contains(y) {
        let j = choose|j: int| 0 <= j < s.len() && s[j] == y;
        assert(s.push(x)[j] == y);
    }
    assert(s.push(x)[s.len() as int] == x);
    if s.push(x).contains(y) && y != x {
        let j = choose|j: int| 0 <= j < s.push(x).len() && s.push(x)[j] == y;
        assert(s[j] == y);
    }
}

proof fn lemma_contains_concat<T>(a: Seq<T>, b: Seq<T>, y: T)
    ensures
        (a + b).contains(y) <==> a.contains(y) || b.contains(y),
{
    if a.contains(y) {
        let j = choose|j: int| 0 <= j < a.len() && a[j] == y;
        assert((a + b)[j] == y);
    }
    if b.contains(y) {
        let j = choose|j: int| 0 <= j < b.len() && b[j] == y;
        assert((a + b)[a.len() + j] == y);
    }
    if (a + b).contains(y) {
        let j = choose|j: int| 0 <= j < (a + b).len() && (a + b)[j] == y;
        if j < a.len() {
            assert(a[j] == y);
        } else {
            assert(b[j - a.len()] == y);
        }
    }
}

proof fn lemma_read_write_conflicts(reads: Seq<PageId>, cw: Seq<PageId>, writer: TransactionId, txn: TransactionId, m: int)
    requires
        0 <= m <= reads.len(),
    ensures
        forall|x: ConflictType|
            #[trigger] read_write_conflicts(reads, cw, writer, txn, m).contains(x) <==> exists|j: int|
                0 <= j < m && cw.contains(reads[j]) && x == (ConflictType::ReadWrite {
                    page_id: #[trigger] reads[j],
                    reader_txn: txn,
                    writer_txn: writer,
                }),
    decreases m,
{
    if m > 0 {
        lemma_read_write_conflicts(reads, cw, writer, txn, m - 1);
        let rest = read_write_conflicts(reads, cw, writer, txn, m - 1);
        let y = ConflictType::ReadWrite { page_id: reads[m - 1], reader_txn: txn, writer_txn: writer };
        assert forall|x: ConflictType|
            #[trigger] read_write_conflicts(reads, cw, writer, txn, m).contains(x) <==> exists|j: int|
                0 <= j < m && cw.contains(reads[j]) && x == (ConflictType::ReadWrite {
                    page_id: #[trigger] reads[j],
                    reader_txn: txn,
                    writer_txn: writer,
                }) by {
            lemma_contains_push(rest, y, x);
            if exists|j: int|
                0 <= j < m && cw.contains(reads[j]) && x == (ConflictType::ReadWrite {
                    page_id: #[trigger] reads[j],
                    reader_txn: txn,
                    writer_txn: writer,
                }) {
                let j = choose|j: int|
                    0 <= j < m && cw.contains(reads[j]) && x == (ConflictType::ReadWrite {
                        page_id: #[trigger] reads[j],
                        reader_txn: txn,
                        writer_txn: writer,
                    });
                if j < m - 1 {
                    assert(rest.contains(x));
                }
            }
        }
    }
}

proof fn lemma_write_write_conflicts(writes: Seq<PageId>, cw: Seq<PageId>, first: TransactionId, txn: TransactionId, m: int)
    requires
        0 <= m <= writes.len(),
    ensures
        forall|x: ConflictType|
            #[trigger] write_write_conflicts(writes, cw, first, txn, m).contains(x) <==> exists|j: int|
                0 <= j < m && cw.contains(writes[j]) && x == (ConflictType::WriteWrite {
                    page_id: #[trigger] writes[j],
                    first_txn: first,
                    second_txn: txn,
                }),
    decreases m,
{
    if m > 0 {
        lemma_write_write_conflicts(writes, cw, first, txn, m - 1);
        let rest = write_write_conflicts(writes, cw, first, txn, m - 1);
        let y = ConflictType::WriteWrite { page_id: writes[m - 1], first_txn: first, second_txn: txn };
        assert forall|x: ConflictType|
            #[trigger] write_write_conflicts(writes, cw, first, txn, m).contains(x) <==> exists|j: int|
                0 <= j < m && cw.contains(writes[j]) && x == (ConflictType::WriteWrite {
                    page_id: #[trigger] writes[j],
                    first_txn: first,
                    second_txn: txn,
                }) by {
            lemma_contains_push(rest, y, x);
            if exists|j: int|
                0 <= j < m && cw.contains(writes[j]) && x == (ConflictType::WriteWrite {
                    page_id: #[trigger] writes[j],
                    first_txn: first,
                    second_txn: txn,
                }) {
                let j = choose|j: int|
                    0 <= j < m && cw.contains(writes[j]) && x == (ConflictType::WriteWrite {
                        page_id: #[trigger] writes[j],
                        first_txn: first,
                        second_txn: txn,
                    });
                if j < m - 1 {
                    assert(rest.contains(x));
                }
            }
        }
    }
}

proof fn lemma_write_read_conflicts(writes: Seq<PageId>, cr: Seq<PageId>, reader: TransactionId, txn: TransactionId, m: int)
    requires
        0 <= m <= writes.len(),
    ensures
        forall|x: ConflictType|
            #[trigger] write_read_conflicts(writes, cr, reader, txn, m).contains(x) <==> exists|j: int|
                0 <= j < m && cr.contains(writes[j]) && x == (ConflictType::WriteRead {
                    page_id: #[trigger] writes[j],
                    writer_txn: txn,
                    reader_txn: reader,
                }),
    decreases m,
{
    if m > 0 {
        lemma_write_read_conflicts(writes, cr, reader, txn, m - 1);
        let rest = write_read_conflicts(writes, cr, reader, txn, m - 1);
        let y = ConflictType::WriteRead { page_id: writes[m - 1], writer_txn: txn, reader_txn: reader };
        assert forall|x: ConflictType|
            #[trigger] write_read_conflicts(writes, cr, reader, txn, m).contains(x) <==> exists|j: int|
                0 <= j < m && cr.contains(writes[j]) && x == (ConflictType::WriteRead {
                    page_id: #[trigger] writes[j],
                    writer_txn: txn,
                    reader_txn: reader,
                }) by {
            lemma_contains_push(rest, y, x);
            if exists|j: int|
                0 <= j < m && cr.contains(writes[j]) && x == (ConflictType::WriteRead {
                    page_id: #[trigger] writes[j],
                    writer_txn: txn,
                    reader_txn: reader,
                }) {
                let j = choose|j: int|
                    0 <= j < m && cr.contains(writes[j]) && x == (ConflictType::WriteRead {
                        page_id: #[trigger] writes[j],
                        writer_txn: txn,
                        reader_txn: reader,
                    });
                if j < m - 1 {
                    assert(rest.contains(x));
                }
            }
        }
    }
}

/// OCC validation finds exactly the real conflicts: every conflict found
/// with the first `n` committed transactions is witnessed by one of them
/// that committed after the validating transaction started; and for each
/// such transaction, every page the validating one read and it wrote, both
/// wrote, or the validating one wrote and it read gives a conflict.
pub proof fn lemma_conflicts_exact(cs: Seq<CommittedTransaction>, ctx: ValidationContext, n: int)
    requires
        0 <= n <= cs.len(),
    ensures
        forall|x: ConflictType| #[trigger] all_conflicts(cs, ctx, n).contains(x) ==> conflict_witnessed(cs, ctx, n, x),
        forall|i: int, p: PageId|
            #![trigger ctx.read_set@.contains(p), cs[i].write_set@.contains(p)]
            0 <= i < n && cs[i].commit_timestamp > ctx.start_timestamp && ctx.read_set@.contains(p)
                && cs[i].write_set@.contains(p) ==> all_conflicts(cs, ctx, n).contains(
                ConflictType::ReadWrite { page_id: p, reader_txn: ctx.transaction_id, writer_txn: cs[i].id },
            ),
        forall|i: int, p: PageId|
            #![trigger ctx.write_set@.contains(p), cs[i].write_set@.contains(p)]
            0 <= i < n && cs[i].commit_timestamp > ctx.start_timestamp && ctx.write_set@.contains(p)
                && cs[i].write_set@.contains(p) ==> all_conflicts(cs, ctx, n).contains(
                ConflictType::WriteWrite { page_id: p, first_txn: cs[i].id, second_txn: ctx.transaction_id },
            ),
        forall|i: int, p: PageId|
            #![trigger ctx.write_set@.contains(p), cs[i].read_set@.contains(p)]
            0 <= i < n && cs[i].commit_timestamp > ctx.start_timestamp && ctx.write_set@.contains(p)
                && cs[i].read_set@.contains(p) ==> all_conflicts(cs, ctx, n).contains(
                ConflictType::WriteRead { page_id: p, writer_txn: ctx.transaction_id, reader_txn: cs[i].id },
            ),
    decreases n,
{
    if n > 0 {
        lemma_conflicts_exact(cs, ctx, n - 1);
        let c = cs[n - 1];
        let prev = all_conflicts(cs, ctx, n - 1);
        let here = conflicts_with(c, ctx);
        let rs = ctx.read_set@;
        let ws = ctx.write_set@;
        let txn = ctx.transaction_id;
        lemma_read_write_conflicts(rs, c.write_set@, c.id, txn, rs.len() as int);
        lemma_write_write_conflicts(ws, c.write_set@, c.id, txn, ws.len() as int);
        lemma_write_read_conflicts(ws, c.read_set@, c.id, txn, ws.len() as int);
        let rw = read_write_conflicts(rs, c.write_set@, c.id, txn, rs.len() as int);
        let ww = write_write_conflicts(ws, c.write_set@, c.id, txn, ws.len() as int);
        let wr = write_read_conflicts(ws, c.read_set@, c.id, txn, ws.len() as int);
        assert forall|x: ConflictType| #[trigger] all_conflicts(cs, ctx, n).contains(x) implies conflict_witnessed(cs, ctx, n, x) by {
            lemma_contains_concat(prev, here, x);
            if prev.contains(x) {
                assert(conflict_witnessed(cs, ctx, n - 1, x));
                match x {
                    ConflictType::ReadWrite { page_id, reader_txn, writer_txn } => {
                        let i = choose|i: int|
                            0 <= i < n - 1 && (#[trigger] cs[i]).id == writer_txn && cs[i].commit_timestamp > ctx.start_timestamp
                                && ctx.read_set@.contains(page_id) && cs[i].write_set@.contains(page_id);
                    },
                    ConflictType::WriteWrite { page_id, first_txn, second_txn } => {
                        let i = choose|i: int|
                            0 <= i < n - 1 && (#[trigger] cs[i]).id == first_txn && cs[i].commit_timestamp > ctx.start_timestamp
                                && ctx.write_set@.contains(page_id) && cs[i].write_set@.contains(page_id);
                    },
                    ConflictType::WriteRead { page_id, writer_txn, reader_txn } => {
                        let i = choose|i: int|
                            0 <= i < n - 1 && (#[trigger] cs[i]).id == reader_txn && cs[i].commit_timestamp > ctx.start_timestamp
                                && ctx.write_set@.contains(page_id) && cs[i].read_set@.contains(page_id);
                    },
                }
            } else {
                assert(c.commit_timestamp > ctx.start_timestamp);
                lemma_contains_concat(rw + ww, wr, x);
                lemma_contains_concat(rw, ww, x);
                if rw.contains(x) {
                    let j = choose|j: int|
                        0 <= j < rs.len() && c.write_set@.contains(rs[j]) && x == (ConflictType::ReadWrite {
                            page_id: #[trigger] rs[j],
                            reader_txn: txn,
                            writer_txn: c.id,
                        });
                    assert(rs.contains(rs[j]));
                    assert(cs[n - 1].id == c.id);
                } else if ww.contains(x) {
                    let j = choose|j: int|
                        0 <= j < ws.len() && c.write_set@.contains(ws[j]) && x == (ConflictType::WriteWrite {
                            page_id: #[trigger] ws[j],
                            first_txn: c.id,
                            second_txn: txn,
                        });
                    assert(ws.contains(ws[j]));
                    assert(cs[n - 1].id == c.id);
                } else {
                    let j = choose|j: int|
                        0 <= j < ws.len() && c.read_set@.contains(ws[j]) && x == (ConflictType::WriteRead {
                            page_id: #[trigger] ws[j],
                            writer_txn: txn,
                            reader_txn: c.id,
                        });
                    assert(ws.contains(ws[j]));
                    assert(cs[n - 1].id == c.id);
                }
            }
        }
        assert forall|i: int, p: PageId|
            #![trigger ctx.read_set@.contains(p), cs[i].write_set@.contains(p)]
            0 <= i < n && cs[i].commit_timestamp > ctx.start_timestamp && ctx.read_set@.contains(p)
                && cs[i].write_set@.contains(p) implies all_conflicts(cs, ctx, n).contains(
            ConflictType::ReadWrite { page_id: p, reader_txn: ctx.transaction_id, writer_txn: cs[i].id },
        ) by {
            let x = ConflictType::ReadWrite { page_id: p, reader_txn: ctx.transaction_id, writer_txn: cs[i].id };
            lemma_contains_concat(prev, here, x);
            if i == n - 1 {
                let j = choose|j: int| 0 <= j < rs.len() && rs[j] == p;
                assert(rw.contains(x));
                lemma_contains_concat(rw, ww, x);
                lemma_contains_concat(rw + ww, wr, x);
            }
        }
        assert forall|i: int, p: PageId|
            #![trigger ctx.write_set@.contains(p), cs[i].write_set@.contains(p)]
            0 <= i < n && cs[i].commit_timestamp > ctx.start_timestamp && ctx.write_set@.contains(p)
                && cs[i].write_set@.contains(p) implies all_conflicts(cs, ctx, n).contains(
            ConflictType::WriteWrite { page_id: p, first_txn: cs[i].id, second_txn: ctx.transaction_id },
        ) by {
            let x = ConflictType::WriteWrite { page_id: p, first_txn: cs[i].id, second_txn: ctx.transaction_id };
            lemma_contains_concat(prev, here, x);
            if i == n - 1 {
                let j = choose|j: int| 0 <= j < ws.len() && ws[j] == p;
                assert(ww.contains(x));
                lemma_contains_concat(rw, ww, x);
                lemma_contains_concat(rw + ww, wr, x);
            }
        }
        assert forall|i: int, p: PageId|
            #![trigger ctx.write_set@.contains(p), cs[i].read_set@.contains(p)]
            0 <= i < n && cs[i].commit_timestamp > ctx.start_timestamp && ctx.write_set@.contains(p)
                && cs[i].read_set@.contains(p) implies all_conflicts(cs, ctx, n).contains(
            ConflictType::WriteRead { page_id: p, writer_txn: ctx.transaction_id, reader_txn: cs[i].id },
        ) by {
            let x = ConflictType::WriteRead { page_id: p, writer_txn: ctx.transaction_id, reader_txn: cs[i].id };
            lemma_contains_concat(prev, here, x);
            if i == n - 1 {
                let j = choose|j: int| 0 <= j < ws.len() && ws[j] == p;
                assert(wr.contains(x));
                lemma_contains_concat(rw, ww, x);
                lemma_contains_concat(rw + ww, wr, x);
            }
        }
    }
}

} // verus!
