//! Deadlock detection and resolution: a wait-for graph between
//! transactions, cycle detection by depth-first search, and victim choice by
//! a resolution policy.
use vstd::prelude::*;

use std::time::{Duration, Instant};

use crate::assoc_list::{AssocList, lemma_map_of_contains};
use crate::storage_engine::file_format::PageId;
use crate::storage_engine::lib::{
    StorageError, StorageResult, duration_from_millis, duration_from_secs, duration_micros, duration_millis,
    duration_nanos, instant_elapsed, instant_now,
};
use crate::storage_engine::transaction::TransactionId;

verus! {

/// Represents a wait-for relationship between transactions
#[derive(Debug, Clone, Copy, PartialEq, Eq)]
pub struct WaitForEdge {
    /// Transaction that is waiting
    pub waiter: TransactionId,
    /// Transaction that is being waited for
    pub holder: TransactionId,
    /// Resource being waited for
    pub resource: PageId,
    /// When this wait relationship was established
    pub wait_start_time: Instant,
}

impl WaitForEdge {
    /// Create a new wait-for edge, starting now.
    pub fn new(waiter: TransactionId, holder: TransactionId, resource: PageId) -> (r: Self)
        ensures
            r.waiter == waiter,
            r.holder == holder,
            r.resource == resource,
    {
        Self { waiter, holder, resource, wait_start_time: instant_now() }
    }

    /// Get the duration this transaction has been waiting
    pub fn wait_duration(&self) -> Duration {
        instant_elapsed(&self.wait_start_time)
    }
}

/// An edge as the graph rules see it: waiter, holder, resource.
pub type EdgeView = (TransactionId, TransactionId, PageId);

/// The rule-level view of an edge.
pub open spec fn edge_view(e: WaitForEdge) -> EdgeView {
    (e.waiter, e.holder, e.resource)
}

/// The rule-level view of a list of edges.
pub open spec fn edge_views(s: Seq<WaitForEdge>) -> Seq<EdgeView> {
    s.map_values(|e: WaitForEdge| edge_view(e))
}

/// Edges whose holder is not `h`.
pub open spec fn holder_not(h: TransactionId) -> spec_fn(EdgeView) -> bool {
    |e: EdgeView| e.1 != h
}

/// A cycle in the wait-for graph representing a deadlock
#[derive(Debug)]
pub struct DeadlockCycle {
    /// Transactions involved in the deadlock
    pub transactions: Vec<TransactionId>,
    /// Resources involved in the deadlock
    pub resources: Vec<PageId>,
    /// When this deadlock was detected
    pub detection_time: Instant,
}

/// The largest identifier of `s`, 0 for an empty sequence.
pub open spec fn max_id(s: Seq<TransactionId>) -> TransactionId
    decreases s.len(),
{
    if s.len() == 0 {
        0
    } else {
        let m = max_id(s.drop_last());
        if s.len() == 1 || s.last() > m {
            s.last()
        } else {
            m
        }
    }
}

/// The smallest identifier of `s`, 0 for an empty sequence.
pub open spec fn min_id(s: Seq<TransactionId>) -> TransactionId
    decreases s.len(),
{
    if s.len() == 0 {
        0
    } else {
        let m = min_id(s.drop_last());
        if s.len() == 1 || s.last() < m {
            s.last()
        } else {
            m
        }
    }
}

/// The largest identifier of a non-empty sequence is one of its elements,
/// and no element is larger: the youngest transaction of a cycle.
pub proof fn lemma_max_id_is_maximum(s: Seq<TransactionId>)
    requires
        s.len() > 0,
    ensures
        s.contains(max_id(s)),
        forall|i: int| 0 <= i < s.len() ==> s[i] <= max_id(s),
    decreases s.len(),
{
    if s.len() == 1 {
        assert(s[0] == s.last());
    } else {
        let t = s.drop_last();
        lemma_max_id_is_maximum(t);
        assert forall|i: int| 0 <= i < s.len() implies s[i] <= max_id(s) by {
            if i < s.len() - 1 {
                assert(s[i] == t[i]);
            }
        }
        if max_id(s) == max_id(t) {
            let j = choose|j: int| 0 <= j < t.len() && t[j] == max_id(t);
            assert(s[j] == t[j]);
        } else {
            assert(s[s.len() - 1] == max_id(s));
        }
    }
}

/// The smallest identifier of a non-empty sequence is one of its elements,
/// and no element is smaller: the oldest transaction of a cycle.
pub proof fn lemma_min_id_is_minimum(s: Seq<TransactionId>)
    requires
        s.len() > 0,
    ensures
        s.contains(min_id(s)),
        forall|i: int| 0 <= i < s.len() ==> min_id(s) <= s[i],
    decreases s.len(),
{
    if s.len() == 1 {
        assert(s[0] == s.last());
    } else {
        let t = s.drop_last();
        lemma_min_id_is_minimum(t);
        assert forall|i: int| 0 <= i < s.len() implies min_id(s) <= s[i] by {
            if i < s.len() - 1 {
                assert(s[i] == t[i]);
            }
        }
        if min_id(s) == min_id(t) {
            let j = choose|j: int| 0 <= j < t.len() && t[j] == min_id(t);
            assert(s[j] == t[j]);
        } else {
            assert(s[s.len() - 1] == min_id(s));
        }
    }
}

impl Clone for DeadlockCycle {
    fn clone(&self) -> (r: Self)
        ensures
            r.transactions@ == self.transactions@,
            r.resources@ == self.resources@,
    {
        DeadlockCycle {
            transactions: self.transactions.clone(),
            resources: self.resources.clone(),
            detection_time: self.detection_time,
        }
    }
}

impl DeadlockCycle {
    /// Get the youngest transaction in the cycle (highest transaction ID), 0 when empty
    pub fn youngest_transaction(&self) -> (r: TransactionId)
        ensures
            r == max_id(self.transactions@),
            self.transactions@.len() > 0 ==> self.transactions@.contains(r) && forall|i: int|
                0 <= i < self.transactions@.len() ==> self.transactions@[i] <= r,
    {
        proof {
            if self.transactions@.len() > 0 {
                lemma_max_id_is_maximum(self.transactions@);
            }
        }
        let ghost s = self.transactions@;
        let mut best: TransactionId = 0;
        let mut i: usize = 0;
        while i < self.transactions.len()
            invariant
                i <= s.len(),
                s == self.transactions@,
                best == max_id(s.take(i as int)),
            decreases s.len() - i,
        {
            assert(s.take(i + 1).drop_last() =~= s.take(i as int));
            let t = self.transactions[i];
            if i == 0 || t > best {
                best = t;
            }
            i = i + 1;
        }
        assert(s.take(s.len() as int) =~= s);
        best
    }

    /// Get the oldest transaction in the cycle (lowest transaction ID), 0 when empty
    pub fn oldest_transaction(&self) -> (r: TransactionId)
        ensures
            r == min_id(self.transactions@),
            self.transactions@.len() > 0 ==> self.transactions@.contains(r) && forall|i: int|
                0 <= i < self.transactions@.len() ==> r <= self.transactions@[i],
    {
        proof {
            if self.transactions@.len() > 0 {
                lemma_min_id_is_minimum(self.transactions@);
            }
        }
        let ghost s = self.transactions@;
        let mut best: TransactionId = 0;
        let mut i: usize = 0;
        while i < self.transactions.len()
            invariant
                i <= s.len(),
                s == self.transactions@,
                best == min_id(s.take(i as int)),
            decreases s.len() - i,
        {
            assert(s.take(i + 1).drop_last() =~= s.take(i as int));
            let t = self.transactions[i];
            if i == 0 || t < best {
                best = t;
            }
            i = i + 1;
        }
        assert(s.take(s.len() as int) =~= s);
        best
    }

    /// Check if a transaction is part of this deadlock
    pub fn contains_transaction(&self, txn_id: TransactionId) -> (r: bool)
        ensures
            r == self.transactions@.contains(txn_id),
    {
        let mut i: usize = 0;
        while i < self.transactions.len()
            invariant
                i <= self.transactions@.len(),
                forall|j: int| 0 <= j < i ==> self.transactions@[j] != txn_id,
            decreases self.transactions@.len() - i,
        {
            if self.transactions[i] == txn_id {
                return true;
            }
            i = i + 1;
        }
        false
    }
}

/// Policy for resolving deadlocks
#[derive(Debug, Clone, Copy, PartialEq, Eq, Structural)]
pub enum DeadlockResolutionPolicy {
    /// Abort the youngest transaction (highest ID)
    AbortYoungest,
    /// Abort the oldest transaction (lowest ID)
    AbortOldest,
    /// Abort the transaction with the least resources
    AbortLeastResources,
    /// Abort the transaction that has waited the longest
    AbortLongestWaiting,
}

/// Statistics about deadlock detection
#[derive(Debug, Clone, Copy)]
pub struct DeadlockStatistics {
    /// Total number of deadlocks detected
    pub total_deadlocks_detected: u64,
    /// Total number of transactions aborted due to deadlocks
    pub total_transactions_aborted: u64,
    /// Number of currently active wait-for edges
    pub active_wait_edges: usize,
    /// Average deadlock detection time in microseconds
    pub average_detection_time_us: u64,
    /// Maximum wait time before deadlock detection
    pub max_wait_time_ms: u64,
}

impl Default for DeadlockStatistics {
    fn default() -> (r: Self)
        ensures
            r.total_deadlocks_detected == 0,
            r.total_transactions_aborted == 0,
            r.active_wait_edges == 0,
            r.average_detection_time_us == 0,
            r.max_wait_time_ms == 0,
    {
        DeadlockStatistics {
            total_deadlocks_detected: 0,
            total_transactions_aborted: 0,
            active_wait_edges: 0,
            average_detection_time_us: 0,
            max_wait_time_ms: 0,
        }
    }
}

/// Metadata about a transaction for deadlock resolution
#[derive(Debug, Clone, Copy)]
struct TransactionMetadata {
    /// Number of resources held by this transaction
    resources_held: usize,
    /// Total wait time for this transaction, in nanoseconds
    total_wait_nanos: u128,
}

/// Wait-for graph for deadlock detection
pub struct WaitForGraph {
    /// Edges in the wait-for graph, by waiter
    edges: AssocList<TransactionId, Vec<WaitForEdge>>,
    /// Reverse mapping: transaction -> distinct transactions waiting for it
    waiting_for: AssocList<TransactionId, Vec<TransactionId>>,
    /// Transaction metadata for deadlock resolution
    transaction_metadata: AssocList<TransactionId, TransactionMetadata>,
}

/// Sum of the lengths of the edge lists.
pub open spec fn sum_edge_lens(s: Seq<(TransactionId, Vec<WaitForEdge>)>) -> int
    decreases s.len(),
{
    if s.len() == 0 {
        0
    } else {
        sum_edge_lens(s.drop_last()) + s.last().1@.len()
    }
}

impl WaitForGraph {
    /// Outgoing edges of each waiting transaction.
    pub closed spec fn edge_map(&self) -> Map<TransactionId, Seq<EdgeView>> {
        Map::new(
            |t: TransactionId| self.edges.view_map().contains_key(t),
            |t: TransactionId| edge_views(self.edges.view_map()[t]@),
        )
    }

    /// Transactions waiting for each transaction that is waited for.
    pub closed spec fn waiter_map(&self) -> Map<TransactionId, Set<TransactionId>> {
        Map::new(
            |t: TransactionId| self.waiting_for.view_map().contains_key(t),
            |t: TransactionId| self.waiting_for.view_map()[t]@.to_set(),
        )
    }

    /// Resources held and total wait (nanoseconds) of each known waiter.
    pub closed spec fn meta_map(&self) -> Map<TransactionId, (usize, u128)> {
        Map::new(
            |t: TransactionId| self.transaction_metadata.view_map().contains_key(t),
            |t: TransactionId|
                (
                    self.transaction_metadata.view_map()[t].resources_held,
                    self.transaction_metadata.view_map()[t].total_wait_nanos,
                ),
        )
    }

    /// Total number of edges.
    pub closed spec fn edge_total(&self) -> int {
        sum_edge_lens(self.edges.entries@)
    }

    /// Outgoing edges of `t` (empty when it waits for nobody).
    pub open spec fn edges_of(&self, t: TransactionId) -> Seq<EdgeView> {
        if self.edge_map().contains_key(t) {
            self.edge_map()[t]
        } else {
            Seq::empty()
        }
    }

    /// Transactions waiting for `t`.
    pub open spec fn waiters_of(&self, t: TransactionId) -> Set<TransactionId> {
        if self.waiter_map().contains_key(t) {
            self.waiter_map()[t]
        } else {
            Set::empty()
        }
    }

    /// Whether `w` waits for `h`.
    pub open spec fn has_edge(&self, w: TransactionId, h: TransactionId) -> bool {
        exists|i: int| 0 <= i < self.edges_of(w).len() && #[trigger] self.edges_of(w)[i].1 == h
    }

    /// Well-formedness: edge lists and waiter sets are non-empty, every edge
    /// is filed under its waiter, and `w` is among the waiters of `h`
    /// exactly when `w` has an edge to `h`.
    pub closed spec fn inv(&self) -> bool {
        &&& self.edges.wf()
        &&& self.waiting_for.wf()
        &&& self.transaction_metadata.wf()
        &&& forall|t: TransactionId| #[trigger] self.edges.view_map().contains_key(t) ==> self.edges.view_map()[t]@.len() > 0
        &&& forall|t: TransactionId| #[trigger] self.waiting_for.view_map().contains_key(t)
            ==> self.waiting_for.view_map()[t]@.len() > 0 && self.waiting_for.view_map()[t]@.no_duplicates()
        &&& forall|t: TransactionId, i: int| 0 <= i < self.edges_of(t).len() ==> (#[trigger] self.edges_of(t)[i]).0 == t
        &&& forall|w: TransactionId, h: TransactionId| #[trigger] self.waiters_of(h).contains(w) == self.has_edge(w, h)
    }

    /// Create a new wait-for graph
    pub fn new() -> (r: Self)
        ensures
            r.inv(),
            r.edge_map() == Map::<TransactionId, Seq<EdgeView>>::empty(),
            r.waiter_map() == Map::<TransactionId, Set<TransactionId>>::empty(),
            r.meta_map() == Map::<TransactionId, (usize, u128)>::empty(),
            r.edge_total() == 0,
    {
        let r = Self { edges: AssocList::new(), waiting_for: AssocList::new(), transaction_metadata: AssocList::new() };
        assert(r.edge_map() =~= Map::<TransactionId, Seq<EdgeView>>::empty());
        assert(r.waiter_map() =~= Map::<TransactionId, Set<TransactionId>>::empty());
        assert(r.meta_map() =~= Map::<TransactionId, (usize, u128)>::empty());
        r
    }
}

/// Whether a set has an element.
pub open spec fn set_nonempty(s: Set<TransactionId>) -> bool {
    exists|x: TransactionId| s.contains(x)
}

impl WaitForGraph {
    /// Add `w` to the waiters of `h`.
    fn add_waiter(&mut self, h: TransactionId, w: TransactionId)
        requires
            old(self).waiting_for.wf(),
            forall|t: TransactionId| #[trigger] old(self).waiting_for.view_map().contains_key(t)
                ==> old(self).waiting_for.view_map()[t]@.len() > 0 && old(self).waiting_for.view_map()[t]@.no_duplicates(),
        ensures
            final(self).waiting_for.wf(),
            forall|t: TransactionId| #[trigger] final(self).waiting_for.view_map().contains_key(t)
                ==> final(self).waiting_for.view_map()[t]@.len() > 0 && final(self).waiting_for.view_map()[t]@.no_duplicates(),
            final(self).edges == old(self).edges,
            final(self).transaction_metadata == old(self).transaction_metadata,
            final(self).waiter_map() == old(self).waiter_map().insert(h, old(self).waiters_of(h).insert(w)),
    {
        let mut ws = match self.waiting_for.remove(&h) {
            Some(v) => v,
            None => Vec::new(),
        };
        let ghost before = ws@;
        let mut found = false;
        let mut i: usize = 0;
        while i < ws.len()
            invariant
                i <= ws@.len(),
                found == exists|j: int| 0 <= j < i && #[trigger] ws@[j] == w,
            decreases ws@.len() - i,
        {
            if ws[i] == w {
                found = true;
            }
            i = i + 1;
        }
        if !found {
            ws.push(w);
        }
        proof {
            if !found {
                assert forall|a: int, b: int| 0 <= a < ws@.len() && 0 <= b < ws@.len() && a != b implies ws@[a] != ws@[b] by {
                    if a < before.len() && b < before.len() {
                        assert(before[a] != before[b]);
                    }
                }
            }
            assert forall|x: TransactionId| ws@.to_set().contains(x) == before.to_set().insert(w).contains(x) by {
                if x == w {
                    if found {
                        let j = choose|j: int| 0 <= j < before.len() && #[trigger] before[j] == w;
                        assert(before.contains(w));
                    } else {
                        assert(ws@[ws@.len() - 1] == w);
                    }
                } else {
                    if ws@.contains(x) {
                        let j = choose|j: int| 0 <= j < ws@.len() && ws@[j] == x;
                        if !found {
                            assert(j < before.len());
                        }
                        assert(before[j] == x);
                    }
                    if before.contains(x) {
                        let j = choose|j: int| 0 <= j < before.len() && before[j] == x;
                        assert(ws@[j] == x);
                    }
                }
            }
            assert(ws@.to_set() =~= before.to_set().insert(w));
        }
        self.waiting_for.insert(h, ws);
        proof {
            assert(self.waiting_for.view_map() =~= old(self).waiting_for.view_map().insert(h, ws));
            if !old(self).waiting_for.view_map().contains_key(h) {
                assert(before.to_set() =~= Set::<TransactionId>::empty());
            }
            assert(self.waiter_map() =~= old(self).waiter_map().insert(h, old(self).waiters_of(h).insert(w)));
        }
    }

    /// Remove `w` from the waiters of `h`, dropping an emptied entry.
    fn remove_waiter(&mut self, h: TransactionId, w: TransactionId)
        requires
            old(self).waiting_for.wf(),
            forall|t: TransactionId| #[trigger] old(self).waiting_for.view_map().contains_key(t)
                ==> old(self).waiting_for.view_map()[t]@.len() > 0 && old(self).waiting_for.view_map()[t]@.no_duplicates(),
        ensures
            final(self).waiting_for.wf(),
            forall|t: TransactionId| #[trigger] final(self).waiting_for.view_map().contains_key(t)
                ==> final(self).waiting_for.view_map()[t]@.len() > 0 && final(self).waiting_for.view_map()[t]@.no_duplicates(),
            final(self).edges == old(self).edges,
            final(self).transaction_metadata == old(self).transaction_metadata,
            final(self).waiter_map() == if set_nonempty(old(self).waiters_of(h).remove(w)) {
                old(self).waiter_map().insert(h, old(self).waiters_of(h).remove(w))
            } else {
                old(self).waiter_map().remove(h)
            },
            final(self).waiters_of(h) == old(self).waiters_of(h).remove(w),
            final(self).waiter_map().contains_key(h) == set_nonempty(old(self).waiters_of(h).remove(w)),
            forall|x: TransactionId| x != h ==> #[trigger] final(self).waiters_of(x) == old(self).waiters_of(x)
                && final(self).waiter_map().contains_key(x) == old(self).waiter_map().contains_key(x),
    {
        let ghost rs = old(self).waiters_of(h).remove(w);
        match self.waiting_for.remove(&h) {
            Some(ws) => {
                let ghost before = ws@;
                let mut kept: Vec<TransactionId> = Vec::new();
                let mut i: usize = 0;
                while i < ws.len()
                    invariant
                        i <= ws@.len(),
                        before == ws@,
                        before.no_duplicates(),
                        kept@.no_duplicates(),
                        forall|x: TransactionId| kept@.contains(x) == (x != w && exists|j: int| 0 <= j < i && #[trigger] before[j] == x),
                    decreases ws@.len() - i,
                {
                    let x = ws[i];
                    let ghost k0 = kept@;
                    if x != w {
                        proof {
                            if k0.contains(x) {
                                let j = choose|j: int| 0 <= j < i && #[trigger] before[j] == x;
                                assert(before[j] == before[i as int]);
                            }
                        }
                        kept.push(x);
                        proof {
                            assert forall|a: int, b: int| 0 <= a < kept@.len() && 0 <= b < kept@.len() && a != b implies kept@[a] != kept@[b] by {
                                if a == k0.len() {
                                    assert(k0.contains(kept@[b]));
                                } else if b == k0.len() {
                                    assert(k0.contains(kept@[a]));
                                } else {
                                    assert(k0[a] != k0[b]);
                                }
                            }
                        }
                    }
                    proof {
                        assert forall|y: TransactionId| kept@.contains(y) == (y != w && exists|j: int| 0 <= j < i + 1 && #[trigger] before[j] == y) by {
                            if kept@.contains(y) && !k0.contains(y) {
                                let q = choose|q: int| 0 <= q < kept@.len() && kept@[q] == y;
                                assert(q == k0.len());
                                assert(before[i as int] == y);
                            }
                            if k0.contains(y) {
                                let q = choose|q: int| 0 <= q < k0.len() && k0[q] == y;
                                assert(kept@[q] == y);
                            }
                            if y != w && before[i as int] == y {
                                assert(kept@[kept@.len() - 1] == y);
                            }
                        }
                    }
                    i = i + 1;
                }
                proof {
                    assert forall|x: TransactionId| kept@.to_set().contains(x) == before.to_set().remove(w).contains(x) by {
                        if before.contains(x) {
                            let j = choose|j: int| 0 <= j < before.len() && before[j] == x;
                        }
                    }
                    assert(kept@.to_set() =~= before.to_set().remove(w));
                    if kept@.len() > 0 {
                        assert(kept@.to_set().contains(kept@[0]));
                    } else {
                        assert(!set_nonempty(kept@.to_set()));
                    }
                }
                if kept.len() > 0 {
                    self.waiting_for.insert(h, kept);
                    assert(self.waiter_map() =~= old(self).waiter_map().insert(h, old(self).waiters_of(h).remove(w)));
                } else {
                    assert(self.waiter_map() =~= old(self).waiter_map().remove(h));
                    assert(rs =~= Set::<TransactionId>::empty());
                }
            },
            None => {
                assert(old(self).waiters_of(h).remove(w) =~= Set::<TransactionId>::empty());
                assert(self.waiter_map() =~= old(self).waiter_map().remove(h));
            },
        }
    }

    /// Remove the edges of `w` that point at `h`, dropping an emptied entry.
    fn drop_edges_to(&mut self, w: TransactionId, h: TransactionId)
        requires
            old(self).edges.wf(),
            forall|t: TransactionId| #[trigger] old(self).edges.view_map().contains_key(t) ==> old(self).edges.view_map()[t]@.len() > 0,
        ensures
            final(self).edges.wf(),
            forall|t: TransactionId| #[trigger] final(self).edges.view_map().contains_key(t) ==> final(self).edges.view_map()[t]@.len() > 0,
            final(self).waiting_for == old(self).waiting_for,
            final(self).transaction_metadata == old(self).transaction_metadata,
            final(self).edge_map() == if old(self).edges_of(w).filter(holder_not(h)).len() > 0 {
                old(self).edge_map().insert(w, old(self).edges_of(w).filter(holder_not(h)))
            } else {
                old(self).edge_map().remove(w)
            },
            final(self).edges_of(w) == old(self).edges_of(w).filter(holder_not(h)),
            final(self).edge_map().contains_key(w) == (old(self).edges_of(w).filter(holder_not(h)).len() > 0),
            forall|x: TransactionId| x != w ==> #[trigger] final(self).edges_of(x) == old(self).edges_of(x)
                && final(self).edge_map().contains_key(x) == old(self).edge_map().contains_key(x),
    {
        let ghost f = old(self).edges_of(w).filter(holder_not(h));
        match self.edges.remove(&w) {
            Some(es) => {
                let ghost ev = edge_views(es@);
                let ghost p = holder_not(h);
                let mut kept: Vec<WaitForEdge> = Vec::new();
                let mut i: usize = 0;
                while i < es.len()
                    invariant
                        i <= es@.len(),
                        ev == edge_views(es@),
                        p == holder_not(h),
                        edge_views(kept@) == ev.take(i as int).filter(p),
                    decreases es@.len() - i,
                {
                    proof {
                        crate::seq_util::lemma_filter_take(ev, i as int, p);
                    }
                    assert(ev[i as int] == edge_view(es@[i as int]));
                    if es[i].holder != h {
                        kept.push(es[i]);
                        assert(edge_views(kept@) =~= ev.take(i + 1).filter(p));
                    }
                    i = i + 1;
                }
                assert(ev.take(ev.len() as int) =~= ev);
                if kept.len() > 0 {
                    self.edges.insert(w, kept);
                    assert(self.edge_map() =~= old(self).edge_map().insert(w, old(self).edges_of(w).filter(holder_not(h))));
                } else {
                    assert(self.edge_map() =~= old(self).edge_map().remove(w));
                    assert(f =~= Seq::<EdgeView>::empty());
                }
            },
            None => {
                assert(old(self).edges_of(w).filter(holder_not(h)) =~= Seq::<EdgeView>::empty());
                assert(self.edge_map() =~= old(self).edge_map().remove(w));
            },
        }
    }
}


/// Holders of the first `k` edges of `lv`.
pub open spec fn holders_upto(lv: Seq<EdgeView>, k: int) -> Set<TransactionId> {
    Set::new(|h: TransactionId| exists|j: int| 0 <= j < k && #[trigger] lv[j].1 == h)
}

proof fn lemma_holders_upto_step(lv: Seq<EdgeView>, k: int)
    requires
        0 <= k < lv.len(),
    ensures
        holders_upto(lv, k + 1) == holders_upto(lv, k).insert(lv[k].1),
{
    assert forall|h: TransactionId| holders_upto(lv, k + 1).contains(h) == holders_upto(lv, k).insert(lv[k].1).contains(h) by {
        if holders_upto(lv, k + 1).contains(h) {
            let j = choose|j: int| 0 <= j < k + 1 && #[trigger] lv[j].1 == h;
            if j < k {
                assert(holders_upto(lv, k).contains(h));
            }
        }
        if holders_upto(lv, k).contains(h) {
            let j = choose|j: int| 0 <= j < k && #[trigger] lv[j].1 == h;
            assert(lv[j].1 == h);
        }
        if h == lv[k].1 {
            assert(lv[k].1 == h);
        }
    }
    assert(holders_upto(lv, k + 1) =~= holders_upto(lv, k).insert(lv[k].1));
}

/// Edges left after dropping those to `t` reach `h` exactly when `h` is not
/// `t` and some edge reached it; every kept edge was an edge before.
proof fn lemma_filter_holder(s: Seq<EdgeView>, t: TransactionId, h: TransactionId)
    ensures
        (exists|i: int| 0 <= i < s.filter(holder_not(t)).len() && #[trigger] s.filter(holder_not(t))[i].1 == h) == (h
            != t && exists|i: int| 0 <= i < s.len() && #[trigger] s[i].1 == h),
        forall|i: int| 0 <= i < s.filter(holder_not(t)).len() ==> s.contains(#[trigger] s.filter(holder_not(t))[i]),
{
    let f = s.filter(holder_not(t));
    crate::seq_util::lemma_filter_sub(s, holder_not(t));
    s.filter_lemma(holder_not(t));
    if exists|i: int| 0 <= i < f.len() && #[trigger] f[i].1 == h {
        let i = choose|i: int| 0 <= i < f.len() && #[trigger] f[i].1 == h;
        assert(s.contains(f[i]));
        let j = choose|j: int| 0 <= j < s.len() && s[j] == f[i];
        assert(s[j].1 == h);
    }
    if h != t && exists|i: int| 0 <= i < s.len() && #[trigger] s[i].1 == h {
        let i = choose|i: int| 0 <= i < s.len() && #[trigger] s[i].1 == h;
        assert(holder_not(t)(s[i]));
        assert(f.contains(s[i]));
        let j = choose|j: int| 0 <= j < f.len() && f[j] == s[i];
        assert(f[j].1 == h);
    }
}

impl WaitForGraph {
    /// Add a wait-for edge to the graph; its waiter gets metadata if it had none.
    pub fn add_edge(&mut self, edge: WaitForEdge)
        requires
            old(self).inv(),
        ensures
            final(self).inv(),
            final(self).edge_map() == old(self).edge_map().insert(edge.waiter, old(self).edges_of(edge.waiter).push(edge_view(edge))),
            final(self).waiter_map() == old(self).waiter_map().insert(edge.holder, old(self).waiters_of(edge.holder).insert(edge.waiter)),
            final(self).meta_map() == if old(self).meta_map().contains_key(edge.waiter) {
                old(self).meta_map()
            } else {
                old(self).meta_map().insert(edge.waiter, (0usize, 0u128))
            },
    {
        let ghost g0 = *self;
        let w = edge.waiter;
        let h = edge.holder;
        let mut es = match self.edges.remove(&w) {
            Some(v) => v,
            None => Vec::new(),
        };
        assert(edge_views(es@) =~= g0.edges_of(w));
        es.push(edge);
        assert(edge_views(es@) =~= g0.edges_of(w).push(edge_view(edge)));
        self.edges.insert(w, es);
        assert(self.edge_map() =~= g0.edge_map().insert(w, g0.edges_of(w).push(edge_view(edge))));
        self.add_waiter(h, w);
        if !self.transaction_metadata.contains_key(&w) {
            self.transaction_metadata.insert(w, TransactionMetadata { resources_held: 0, total_wait_nanos: 0 });
            assert(self.meta_map() =~= g0.meta_map().insert(w, (0usize, 0u128)));
        } else {
            assert(self.meta_map() =~= g0.meta_map());
        }
        proof {
            assert forall|x: TransactionId, i: int| 0 <= i < self.edges_of(x).len() implies (#[trigger] self.edges_of(x)[i]).0 == x by {
                if x != w {
                    assert(self.edges_of(x) == g0.edges_of(x));
                } else if i < g0.edges_of(w).len() {
                    assert(self.edges_of(x)[i] == g0.edges_of(w)[i]);
                }
            }
            assert forall|a: TransactionId, b: TransactionId| #[trigger] self.waiters_of(b).contains(a) == self.has_edge(a, b) by {
                let s0 = g0.edges_of(a);
                let s1 = self.edges_of(a);
                if a == w {
                    assert(s1 == s0.push(edge_view(edge)));
                    if g0.has_edge(a, b) {
                        let i = choose|i: int| 0 <= i < s0.len() && #[trigger] s0[i].1 == b;
                        assert(s1[i].1 == b);
                    }
                    if b == h {
                        assert(s1[s0.len() as int].1 == b);
                    }
                    if self.has_edge(a, b) {
                        let i = choose|i: int| 0 <= i < s1.len() && #[trigger] s1[i].1 == b;
                        if i < s0.len() {
                            assert(s0[i].1 == b);
                        }
                    }
                } else {
                    assert(s1 == s0);
                }
                assert(g0.waiters_of(b).contains(a) == g0.has_edge(a, b));
            }
        }
    }

    /// Remove the edges from `waiter` to `holder`.
    pub fn remove_edge(&mut self, waiter: TransactionId, holder: TransactionId)
        requires
            old(self).inv(),
        ensures
            final(self).inv(),
            final(self).edge_map() == if old(self).edges_of(waiter).filter(holder_not(holder)).len() > 0 {
                old(self).edge_map().insert(waiter, old(self).edges_of(waiter).filter(holder_not(holder)))
            } else {
                old(self).edge_map().remove(waiter)
            },
            final(self).waiter_map() == if set_nonempty(old(self).waiters_of(holder).remove(waiter)) {
                old(self).waiter_map().insert(holder, old(self).waiters_of(holder).remove(waiter))
            } else {
                old(self).waiter_map().remove(holder)
            },
            final(self).meta_map() == old(self).meta_map(),
    {
        let ghost g0 = *self;
        self.drop_edges_to(waiter, holder);
        self.remove_waiter(holder, waiter);
        proof {
            assert forall|x: TransactionId, i: int| 0 <= i < self.edges_of(x).len() implies (#[trigger] self.edges_of(x)[i]).0 == x by {
                if x == waiter {
                    lemma_filter_holder(g0.edges_of(x), holder, holder);
                    let e = self.edges_of(x)[i];
                    assert(g0.edges_of(x).contains(e));
                } else {
                    assert(self.edges_of(x) == g0.edges_of(x));
                }
            }
            assert forall|a: TransactionId, b: TransactionId| #[trigger] self.waiters_of(b).contains(a) == self.has_edge(a, b) by {
                assert(g0.waiters_of(b).contains(a) == g0.has_edge(a, b));
                if a == waiter {
                    lemma_filter_holder(g0.edges_of(a), holder, b);
                    if self.edge_map().contains_key(a) {
                        assert(self.edges_of(a) == g0.edges_of(a).filter(holder_not(holder)));
                    } else {
                        assert(g0.edges_of(a).filter(holder_not(holder)).len() == 0);
                    }
                } else {
                    assert(self.edges_of(a) == g0.edges_of(a));
                }
                if b == holder {
                    if !self.waiter_map().contains_key(b) {
                        assert(!g0.waiters_of(b).remove(a).contains(a));
                        if g0.waiters_of(b).contains(a) && a != waiter {
                            assert(g0.waiters_of(b).remove(waiter).contains(a));
                        }
                    }
                }
            }
        }
    }

    /// Remove all edges involving a transaction, and its metadata.
    pub fn remove_transaction(&mut self, txn_id: TransactionId)
        requires
            old(self).inv(),
        ensures
            final(self).inv(),
            forall|w: TransactionId| #[trigger] final(self).edges_of(w) == if w == txn_id {
                Seq::<EdgeView>::empty()
            } else {
                old(self).edges_of(w).filter(holder_not(txn_id))
            },
            forall|w: TransactionId| #[trigger] final(self).edge_map().contains_key(w) == (w != txn_id
                && old(self).edges_of(w).filter(holder_not(txn_id)).len() > 0),
            forall|h: TransactionId| #[trigger] final(self).waiters_of(h) == if h == txn_id {
                Set::<TransactionId>::empty()
            } else {
                old(self).waiters_of(h).remove(txn_id)
            },
            forall|h: TransactionId| #[trigger] final(self).waiter_map().contains_key(h) == (h != txn_id && set_nonempty(
                old(self).waiters_of(h).remove(txn_id),
            )),
            final(self).meta_map() == old(self).meta_map().remove(txn_id),
    {
        let ghost g0 = *self;
        let t = txn_id;
        let es = match self.edges.remove(&t) {
            Some(v) => v,
            None => Vec::new(),
        };
        let ghost lv = edge_views(es@);
        assert(lv =~= g0.edges_of(t));
        assert(self.edge_map() =~= g0.edge_map().remove(t));
        let ghost p1_edges = self.edge_map();
        let mut k: usize = 0;
        while k < es.len()
            invariant
                k <= es@.len(),
                lv == edge_views(es@),
                self.edges.wf(),
                forall|x: TransactionId| #[trigger] self.edges.view_map().contains_key(x) ==> self.edges.view_map()[x]@.len() > 0,
                self.waiting_for.wf(),
                forall|x: TransactionId| #[trigger] self.waiting_for.view_map().contains_key(x)
                    ==> self.waiting_for.view_map()[x]@.len() > 0 && self.waiting_for.view_map()[x]@.no_duplicates(),
                self.edge_map() == p1_edges,
                self.transaction_metadata == g0.transaction_metadata,
                forall|h: TransactionId| #[trigger] self.waiters_of(h) == if holders_upto(lv, k as int).contains(h) {
                    g0.waiters_of(h).remove(t)
                } else {
                    g0.waiters_of(h)
                },
                forall|h: TransactionId| #[trigger] self.waiter_map().contains_key(h) == if holders_upto(lv, k as int).contains(h) {
                    set_nonempty(g0.waiters_of(h).remove(t))
                } else {
                    g0.waiter_map().contains_key(h)
                },
            decreases es@.len() - k,
        {
            let h = es[k].holder;
            assert(lv[k as int].1 == h);
            proof {
                lemma_holders_upto_step(lv, k as int);
            }
            let ghost before = *self;
            self.remove_waiter(h, t);
            proof {
                assert(before.waiters_of(h).remove(t) =~= g0.waiters_of(h).remove(t));
            }
            k = k + 1;
        }
        proof {
            assert forall|h: TransactionId| #[trigger] self.waiters_of(h) == g0.waiters_of(h).remove(t) by {
                assert(g0.waiters_of(h).contains(t) == g0.has_edge(t, h));
                if !holders_upto(lv, es@.len() as int).contains(h) {
                    if g0.has_edge(t, h) {
                        let i = choose|i: int| 0 <= i < g0.edges_of(t).len() && #[trigger] g0.edges_of(t)[i].1 == h;
                        assert(lv[i].1 == h);
                    }
                    assert(g0.waiters_of(h).remove(t) =~= g0.waiters_of(h));
                }
            }
            assert forall|h: TransactionId| #[trigger] self.waiter_map().contains_key(h) == set_nonempty(g0.waiters_of(h).remove(t)) by {
                assert(g0.waiters_of(h).contains(t) == g0.has_edge(t, h));
                if !holders_upto(lv, es@.len() as int).contains(h) {
                    if g0.has_edge(t, h) {
                        let i = choose|i: int| 0 <= i < g0.edges_of(t).len() && #[trigger] g0.edges_of(t)[i].1 == h;
                        assert(lv[i].1 == h);
                    }
                    assert(g0.waiters_of(h).remove(t) =~= g0.waiters_of(h));
                    if g0.waiter_map().contains_key(h) {
                        let v = g0.waiting_for.view_map()[h]@;
                        assert(v.to_set().contains(v[0]));
                    }
                }
            }
        }
        let ghost p1 = *self;
        let ws = match self.waiting_for.remove(&t) {
            Some(v) => v,
            None => Vec::new(),
        };
        let ghost wv = ws@;
        proof {
            if p1.waiting_for.view_map().contains_key(t) {
                assert(wv.to_set() == p1.waiters_of(t));
                assert(wv.no_duplicates());
            } else {
                assert(wv.to_set() =~= p1.waiters_of(t));
            }
            assert(self.waiter_map() =~= p1.waiter_map().remove(t));
        }
        let ghost p2_waiters = self.waiter_map();
        assert(wv.no_duplicates());
        let mut k: usize = 0;
        while k < ws.len()
            invariant
                k <= wv.len(),
                wv == ws@,
                wv.no_duplicates(),
                self.edges.wf(),
                forall|x: TransactionId| #[trigger] self.edges.view_map().contains_key(x) ==> self.edges.view_map()[x]@.len() > 0,
                self.waiting_for.wf(),
                forall|x: TransactionId| #[trigger] self.waiting_for.view_map().contains_key(x)
                    ==> self.waiting_for.view_map()[x]@.len() > 0 && self.waiting_for.view_map()[x]@.no_duplicates(),
                self.waiter_map() == p2_waiters,
                self.transaction_metadata == g0.transaction_metadata,
                forall|w: TransactionId| #[trigger] self.edges_of(w) == if wv.take(k as int).contains(w) {
                    p1.edges_of(w).filter(holder_not(t))
                } else {
                    p1.edges_of(w)
                },
                forall|w: TransactionId| #[trigger] self.edge_map().contains_key(w) == if wv.take(k as int).contains(w) {
                    p1.edges_of(w).filter(holder_not(t)).len() > 0
                } else {
                    p1.edge_map().contains_key(w)
                },
            decreases wv.len() - k,
        {
            let w = ws[k];
            let ghost before = *self;
            proof {
                if wv.take(k as int).contains(w) {
                    let j = choose|j: int| 0 <= j < k && #[trigger] wv.take(k as int)[j] == w;
                    assert(wv[j] == wv[k as int]);
                }
            }
            self.drop_edges_to(w, t);
            proof {
                assert forall|x: TransactionId| wv.take(k + 1).contains(x) == (wv.take(k as int).contains(x) || x == w) by {
                    if wv.take(k + 1).contains(x) {
                        let j = choose|j: int| 0 <= j < k + 1 && #[trigger] wv.take(k + 1)[j] == x;
                        if j < k {
                            assert(wv.take(k as int)[j] == x);
                        }
                    }
                    if wv.take(k as int).contains(x) {
                        let j = choose|j: int| 0 <= j < k && #[trigger] wv.take(k as int)[j] == x;
                        assert(wv.take(k + 1)[j] == x);
                    }
                    if x == w {
                        assert(wv.take(k + 1)[k as int] == x);
                    }
                }
            }
            k = k + 1;
        }
        let ghost p3 = *self;
        self.transaction_metadata.remove(&t);
        proof {
            assert(wv.take(wv.len() as int) =~= wv);
            assert(self.edge_map() == p3.edge_map());
            assert(self.waiter_map() == p3.waiter_map());
            assert(wv.to_set() == g0.waiters_of(t).remove(t));
            assert(self.meta_map() =~= g0.meta_map().remove(t));
            assert forall|w: TransactionId| #[trigger] self.edges_of(w) == if w == t {
                Seq::<EdgeView>::empty()
            } else {
                g0.edges_of(w).filter(holder_not(t))
            } by {
                assert(g0.waiters_of(t).contains(w) == g0.has_edge(w, t));
                assert(self.edges_of(w) == p3.edges_of(w));
                if w == t {
                    assert(!wv.to_set().contains(t));
                    assert(!wv.contains(t));
                    assert(p1.edges_of(t) =~= Seq::<EdgeView>::empty());
                } else {
                    assert(p1.edges_of(w) == g0.edges_of(w));
                    if !wv.contains(w) {
                        assert(!wv.to_set().contains(w));
                        assert(!g0.has_edge(w, t));
                        assert forall|i: int| 0 <= i < g0.edges_of(w).len() implies #[trigger] holder_not(t)(g0.edges_of(w)[i]) by {
                            if g0.edges_of(w)[i].1 == t {
                                assert(g0.has_edge(w, t));
                            }
                        }
                        crate::seq_util::lemma_filter_all(g0.edges_of(w), holder_not(t));
                    }
                }
            }
            assert forall|w: TransactionId| #[trigger] self.edge_map().contains_key(w) == (w != t
                && g0.edges_of(w).filter(holder_not(t)).len() > 0) by {
                assert(g0.waiters_of(t).contains(w) == g0.has_edge(w, t));
                assert(self.edge_map().contains_key(w) == p3.edge_map().contains_key(w));
                if w == t {
                    assert(!wv.to_set().contains(t));
                    assert(!wv.contains(t));
                    assert(!p1.edge_map().contains_key(t));
                } else {
                    assert(p1.edges_of(w) == g0.edges_of(w));
                    if !wv.contains(w) {
                        assert(!wv.to_set().contains(w));
                        assert(!g0.has_edge(w, t));
                        assert forall|i: int| 0 <= i < g0.edges_of(w).len() implies #[trigger] holder_not(t)(g0.edges_of(w)[i]) by {
                            if g0.edges_of(w)[i].1 == t {
                                assert(g0.has_edge(w, t));
                            }
                        }
                        crate::seq_util::lemma_filter_all(g0.edges_of(w), holder_not(t));
                        assert(p1.edge_map().contains_key(w) == g0.edge_map().contains_key(w));
                        if g0.edge_map().contains_key(w) {
                            assert(g0.edges.view_map()[w]@.len() > 0);
                        }
                    }
                }
            }
            assert forall|h: TransactionId| #[trigger] self.waiters_of(h) == if h == t {
                Set::<TransactionId>::empty()
            } else {
                g0.waiters_of(h).remove(t)
            } by {
                assert(p1.waiters_of(h) == g0.waiters_of(h).remove(t));
            }
            assert forall|h: TransactionId| #[trigger] self.waiter_map().contains_key(h) == (h != t && set_nonempty(
                g0.waiters_of(h).remove(t),
            )) by {
                assert(p1.waiter_map().contains_key(h) == set_nonempty(g0.waiters_of(h).remove(t)));
            }
            assert forall|x: TransactionId, i: int| 0 <= i < self.edges_of(x).len() implies (#[trigger] self.edges_of(x)[i]).0 == x by {
                if x != t {
                    lemma_filter_holder(g0.edges_of(x), t, t);
                    let e = self.edges_of(x)[i];
                    assert(g0.edges_of(x).contains(e));
                }
            }
            assert forall|a: TransactionId, b: TransactionId| #[trigger] self.waiters_of(b).contains(a) == self.has_edge(a, b) by {
                assert(g0.waiters_of(b).contains(a) == g0.has_edge(a, b));
                if a != t {
                    lemma_filter_holder(g0.edges_of(a), t, b);
                }
            }
        }
    }
}

/// Each transaction of `p` waits for the next one.
pub open spec fn graph_path(g: WaitForGraph, p: Seq<TransactionId>) -> bool {
    forall|k: int| 0 <= k < p.len() - 1 ==> #[trigger] g.has_edge(p[k], p[k + 1])
}

/// `c` is a cycle of the graph: each transaction waits for the next and the
/// last waits for the first.
pub open spec fn is_cycle(g: WaitForGraph, c: Seq<TransactionId>) -> bool {
    c.len() > 0 && graph_path(g, c) && g.has_edge(c.last(), c[0])
}

/// Resources of the edges between transactions of `c`.
pub open spec fn cycle_resources(g: WaitForGraph, c: Seq<TransactionId>) -> Set<PageId> {
    Set::new(
        |r: PageId|
            exists|k: int, j: int|
                0 <= k < c.len() && 0 <= j < g.edges_of(c[k]).len() && c.contains(g.edges_of(c[k])[j].1) && #[trigger] g.edges_of(
                    c[k],
                )[j].2 == r,
    )
}

/// A reported deadlock is a cycle of the graph with the resources of its edges.
pub open spec fn deadlock_ok(g: WaitForGraph, d: DeadlockCycle) -> bool {
    &&& is_cycle(g, d.transactions@)
    &&& d.resources@.no_duplicates()
    &&& d.resources@.to_set() == cycle_resources(g, d.transactions@)
}

/// Resources held by `t` as recorded in the metadata (0 when unknown).
pub open spec fn resources_key(g: WaitForGraph, t: TransactionId) -> int {
    if g.meta_map().contains_key(t) {
        g.meta_map()[t].0 as int
    } else {
        0
    }
}

/// Total wait of `t` as recorded in the metadata (0 when unknown).
pub open spec fn wait_key(g: WaitForGraph, t: TransactionId) -> int {
    if g.meta_map().contains_key(t) {
        g.meta_map()[t].1 as int
    } else {
        0
    }
}

/// The first transaction of `c` with the fewest resources.
pub open spec fn least_resources_in(g: WaitForGraph, c: Seq<TransactionId>) -> TransactionId
    decreases c.len(),
{
    if c.len() <= 1 {
        c[0]
    } else {
        let b = least_resources_in(g, c.drop_last());
        if resources_key(g, c.last()) < resources_key(g, b) {
            c.last()
        } else {
            b
        }
    }
}

/// The last transaction of `c` with the longest total wait.
pub open spec fn longest_waiting_in(g: WaitForGraph, c: Seq<TransactionId>) -> TransactionId
    decreases c.len(),
{
    if c.len() <= 1 {
        c[0]
    } else {
        let b = longest_waiting_in(g, c.drop_last());
        if wait_key(g, c.last()) >= wait_key(g, b) {
            c.last()
        } else {
            b
        }
    }
}

/// `p` is a path of the graph from `x` to `y`.
pub open spec fn reach_path(g: WaitForGraph, p: Seq<TransactionId>, x: TransactionId, y: TransactionId) -> bool {
    p.len() > 0 && graph_path(g, p) && p[0] == x && p.last() == y
}

/// `x` reaches `y` by following wait-for edges (possibly none).
pub open spec fn reaches(g: WaitForGraph, x: TransactionId, y: TransactionId) -> bool {
    exists|p: Seq<TransactionId>| #[trigger] reach_path(g, p, x, y)
}

/// Every transaction of `c` lies in the strongly connected group of `x`:
/// `x` reaches it and it reaches `x`.
pub open spec fn within_scc(g: WaitForGraph, c: Seq<TransactionId>, x: TransactionId) -> bool {
    forall|i: int| 0 <= i < c.len() ==> reaches(g, x, #[trigger] c[i]) && reaches(g, c[i], x)
}

/// Some deadlock of `ds` lies in the strongly connected group of `x`.
pub open spec fn covered(g: WaitForGraph, ds: Seq<DeadlockCycle>, x: TransactionId) -> bool {
    exists|i: int| 0 <= i < ds.len() && #[trigger] within_scc(g, ds[i].transactions@, x)
}

/// `a` is `b` read from position `k` onward, wrapping around at its end.
pub open spec fn shifted(a: Seq<TransactionId>, b: Seq<TransactionId>, k: int) -> bool {
    forall|i: int|
        0 <= i < a.len() ==> #[trigger] a[i] == b[if i + k < b.len() {
            i + k
        } else {
            i + k - b.len()
        }]
}

/// `a` and `b` are the same cycle, possibly started at different points.
pub open spec fn same_cycle(a: Seq<TransactionId>, b: Seq<TransactionId>) -> bool {
    a.len() == b.len() && exists|k: int| 0 <= k < a.len() && #[trigger] shifted(a, b, k)
}

/// No two deadlocks of `ds` are the same cycle.
pub open spec fn cycles_distinct(ds: Seq<DeadlockCycle>) -> bool {
    forall|i: int, j: int|
        0 <= i < ds.len() && 0 <= j < ds.len() && i != j ==> !#[trigger] same_cycle(ds[i].transactions@, ds[j].transactions@)
}

/// Each deadlock of `ds` is a cycle of `g` that passes no transaction twice,
/// and no cycle is reported twice.
pub open spec fn reports_ok(g: WaitForGraph, ds: Seq<DeadlockCycle>) -> bool {
    &&& forall|i: int| 0 <= i < ds.len() ==> deadlock_ok(g, #[trigger] ds[i]) && ds[i].transactions@.no_duplicates()
    &&& cycles_distinct(ds)
}

/// What detection reports of `g`: sound deadlocks, none twice, and within
/// every strongly connected group of transactions that holds a cycle, some
/// reported deadlock.
pub open spec fn detection_report(g: WaitForGraph, ds: Seq<DeadlockCycle>) -> bool {
    &&& reports_ok(g, ds)
    &&& forall|c: Seq<TransactionId>| #[trigger] is_cycle(g, c) ==> covered(g, ds, c[0])
}

/// `ds2` keeps the deadlocks of `ds1` in front.
pub open spec fn extends_reports(ds1: Seq<DeadlockCycle>, ds2: Seq<DeadlockCycle>) -> bool {
    ds1.len() <= ds2.len() && forall|i: int| 0 <= i < ds1.len() ==> #[trigger] ds2[i] == ds1[i]
}

/// Whether `f` lists transactions so that each waits only for transactions
/// listed before it, unless some deadlock of `ds` lies in its strongly
/// connected group: the order in which depth-first search finishes them.
pub open spec fn finish_covered(g: WaitForGraph, f: Seq<TransactionId>, ds: Seq<DeadlockCycle>) -> bool {
    forall|a: int, v: TransactionId|
        0 <= a < f.len() && #[trigger] g.has_edge(f[a], v) ==> (exists|b: int| 0 <= b < a && #[trigger] f[b] == v) || covered(
            g,
            ds,
            f[a],
        )
}

/// A path followed by an edge and another path is a path.
proof fn lemma_path_concat(g: WaitForGraph, p: Seq<TransactionId>, q: Seq<TransactionId>)
    requires
        graph_path(g, p),
        graph_path(g, q),
        p.len() > 0,
        q.len() > 0,
        g.has_edge(p.last(), q[0]),
    ensures
        graph_path(g, p + q),
{
    let s = p + q;
    assert forall|k: int| 0 <= k < s.len() - 1 implies #[trigger] g.has_edge(s[k], s[k + 1]) by {
        if k < p.len() - 1 {
            assert(s[k] == p[k] && s[k + 1] == p[k + 1]);
        } else if k == p.len() - 1 {
            assert(s[k] == p.last() && s[k + 1] == q[0]);
        } else {
            assert(s[k] == q[k - p.len()] && s[k + 1] == q[k - p.len() + 1]);
        }
    }
}

/// Reaching is transitive.
proof fn lemma_reach_trans(g: WaitForGraph, x: TransactionId, y: TransactionId, z: TransactionId)
    requires
        reaches(g, x, y),
        reaches(g, y, z),
    ensures
        reaches(g, x, z),
{
    let p = choose|p: Seq<TransactionId>| #[trigger] reach_path(g, p, x, y);
    let q = choose|q: Seq<TransactionId>| #[trigger] reach_path(g, q, y, z);
    if q.len() == 1 {
        assert(reach_path(g, p, x, z));
    } else {
        let q1 = q.subrange(1, q.len() as int);
        assert forall|k: int| 0 <= k < q1.len() - 1 implies #[trigger] g.has_edge(q1[k], q1[k + 1]) by {
            assert(q1[k] == q[k + 1] && q1[k + 1] == q[k + 2]);
        }
        let k0: int = 0;
        assert(g.has_edge(q[k0], q[k0 + 1]));
        assert(q1[0] == q[1]);
        lemma_path_concat(g, p, q1);
        let s = p + q1;
        assert(s[0] == x);
        assert(s.last() == q1.last());
        assert(reach_path(g, s, x, z));
    }
}

/// Any transaction of a cycle reaches any other.
proof fn lemma_cycle_reach(g: WaitForGraph, c: Seq<TransactionId>, i: int, j: int)
    requires
        is_cycle(g, c),
        0 <= i < c.len(),
        0 <= j < c.len(),
    ensures
        reaches(g, c[i], c[j]),
{
    if i <= j {
        let p = c.subrange(i, j + 1);
        assert forall|k: int| 0 <= k < p.len() - 1 implies #[trigger] g.has_edge(p[k], p[k + 1]) by {
            assert(p[k] == c[i + k] && p[k + 1] == c[i + k + 1]);
        }
        assert(reach_path(g, p, c[i], c[j]));
    } else {
        let p = c.subrange(i, c.len() as int);
        let q = c.subrange(0, j + 1);
        assert forall|k: int| 0 <= k < p.len() - 1 implies #[trigger] g.has_edge(p[k], p[k + 1]) by {
            assert(p[k] == c[i + k] && p[k + 1] == c[i + k + 1]);
        }
        assert forall|k: int| 0 <= k < q.len() - 1 implies #[trigger] g.has_edge(q[k], q[k + 1]) by {
            assert(q[k] == c[k] && q[k + 1] == c[k + 1]);
        }
        assert(p.last() == c.last());
        assert(q[0] == c[0]);
        lemma_path_concat(g, p, q);
        let s = p + q;
        assert(s[0] == c[i]);
        assert(s.last() == c[j]);
        assert(reach_path(g, s, c[i], c[j]));
    }
}

/// A cycle lies in the strongly connected group of each of its transactions.
proof fn lemma_cycle_within_scc(g: WaitForGraph, c: Seq<TransactionId>, x: TransactionId)
    requires
        is_cycle(g, c),
        c.contains(x),
    ensures
        within_scc(g, c, x),
{
    let m = choose|m: int| 0 <= m < c.len() && c[m] == x;
    assert forall|i: int| 0 <= i < c.len() implies reaches(g, x, #[trigger] c[i]) && reaches(g, c[i], x) by {
        lemma_cycle_reach(g, c, m, i);
        lemma_cycle_reach(g, c, i, m);
    }
}

/// A strongly connected group is the same seen from any of its transactions.
proof fn lemma_scc_move(g: WaitForGraph, c: Seq<TransactionId>, x: TransactionId, y: TransactionId)
    requires
        within_scc(g, c, x),
        reaches(g, x, y),
        reaches(g, y, x),
    ensures
        within_scc(g, c, y),
{
    assert forall|i: int| 0 <= i < c.len() implies reaches(g, y, #[trigger] c[i]) && reaches(g, c[i], y) by {
        lemma_reach_trans(g, y, x, c[i]);
        lemma_reach_trans(g, c[i], x, y);
    }
}

proof fn lemma_covered_grow(g: WaitForGraph, ds1: Seq<DeadlockCycle>, ds2: Seq<DeadlockCycle>, x: TransactionId)
    requires
        extends_reports(ds1, ds2),
        covered(g, ds1, x),
    ensures
        covered(g, ds2, x),
{
    let i = choose|i: int| 0 <= i < ds1.len() && #[trigger] within_scc(g, ds1[i].transactions@, x);
    assert(ds2[i] == ds1[i]);
    assert(within_scc(g, ds2[i].transactions@, x));
}

proof fn lemma_finish_covered_grow(g: WaitForGraph, f: Seq<TransactionId>, ds1: Seq<DeadlockCycle>, ds2: Seq<DeadlockCycle>)
    requires
        extends_reports(ds1, ds2),
        finish_covered(g, f, ds1),
    ensures
        finish_covered(g, f, ds2),
{
    assert forall|a: int, v: TransactionId| 0 <= a < f.len() && #[trigger] g.has_edge(f[a], v) implies (exists|b: int|
        0 <= b < a && #[trigger] f[b] == v) || covered(g, ds2, f[a]) by {
        if covered(g, ds1, f[a]) {
            lemma_covered_grow(g, ds1, ds2, f[a]);
        }
    }
}

/// Where a transaction of a cycle is listed in a finish order, some deadlock
/// lies in the strongly connected group of the cycle.
proof fn lemma_finish_covered_cycle(g: WaitForGraph, f: Seq<TransactionId>, ds: Seq<DeadlockCycle>, c: Seq<TransactionId>, a: int)
    requires
        finish_covered(g, f, ds),
        is_cycle(g, c),
        0 <= a < f.len(),
        c.contains(f[a]),
    ensures
        covered(g, ds, c[0]),
    decreases a,
{
    let k = choose|k: int| 0 <= k < c.len() && c[k] == f[a];
    let w = if k < c.len() - 1 {
        c[k + 1]
    } else {
        c[0]
    };
    if k < c.len() - 1 {
        assert(g.has_edge(c[k], c[k + 1]));
    } else {
        assert(c[k] == c.last());
    }
    assert(g.has_edge(f[a], w));
    if covered(g, ds, f[a]) {
        let i = choose|i: int| 0 <= i < ds.len() && #[trigger] within_scc(g, ds[i].transactions@, f[a]);
        lemma_cycle_reach(g, c, k, 0);
        lemma_cycle_reach(g, c, 0, k);
        lemma_scc_move(g, ds[i].transactions@, f[a], c[0]);
        assert(within_scc(g, ds[i].transactions@, c[0]));
    } else {
        let b = choose|b: int| 0 <= b < a && #[trigger] f[b] == w;
        if k < c.len() - 1 {
            assert(c[k + 1] == w);
        } else {
            assert(c[0] == w);
        }
        lemma_finish_covered_cycle(g, f, ds, c, b);
    }
}

/// Whether `a` is `b` started at some point.
fn is_rotation(a: &Vec<TransactionId>, b: &Vec<TransactionId>) -> (r: bool)
    ensures
        r == same_cycle(a@, b@),
{
    let n = a.len();
    if n != b.len() {
        return false;
    }
    let mut k: usize = 0;
    while k < n
        invariant
            n == a@.len(),
            n == b@.len(),
            k <= n,
            forall|k2: int| 0 <= k2 < k ==> !#[trigger] shifted(a@, b@, k2),
        decreases n - k,
    {
        let mut i: usize = 0;
        let mut ok = true;
        while i < n && ok
            invariant
                n == a@.len(),
                n == b@.len(),
                k < n,
                i <= n,
                ok ==> forall|i2: int| 0 <= i2 < i ==> #[trigger] a@[i2] == b@[if i2 + k < n {
                    i2 + k
                } else {
                    i2 + k - n
                }],
                !ok ==> !shifted(a@, b@, k as int),
            decreases n - i,
        {
            let idx = if k < n - i {
                i + k
            } else {
                k - (n - i)
            };
            if a[i] != b[idx] {
                ok = false;
                assert(a@[i as int] != b@[idx as int]);
            }
            i = i + 1;
        }
        if ok {
            assert(shifted(a@, b@, k as int));
            return true;
        }
        k = k + 1;
    }
    false
}

/// Whether the cycle `c` is, from some starting point, a deadlock of `ds`.
fn reported_already(ds: &Vec<DeadlockCycle>, c: &Vec<TransactionId>) -> (r: bool)
    ensures
        r == exists|i: int|
            #![trigger ds@[i]]
            0 <= i < ds@.len() && (same_cycle(ds@[i].transactions@, c@) || same_cycle(c@, ds@[i].transactions@)),
{
    let mut i: usize = 0;
    while i < ds.len()
        invariant
            i <= ds@.len(),
            forall|z: int|
                #![trigger ds@[z]]
                0 <= z < i ==> !(same_cycle(ds@[z].transactions@, c@) || same_cycle(c@, ds@[z].transactions@)),
        decreases ds@.len() - i,
    {
        if is_rotation(&ds[i].transactions, c) || is_rotation(c, &ds[i].transactions) {
            return true;
        }
        i = i + 1;
    }
    false
}

/// The transaction with the fewest resources in a non-empty `c` is the
/// transaction at some position `k` whose resource count is no larger than
/// any other's, and smaller than that of every transaction before it (the
/// first of the least).
pub proof fn lemma_least_resources_is_first_minimum(g: WaitForGraph, c: Seq<TransactionId>) -> (k: int)
    requires
        c.len() > 0,
    ensures
        0 <= k < c.len(),
        least_resources_in(g, c) == c[k],
        forall|j: int| 0 <= j < c.len() ==> resources_key(g, c[k]) <= resources_key(g, #[trigger] c[j]),
        forall|j: int| 0 <= j < k ==> resources_key(g, c[k]) < resources_key(g, #[trigger] c[j]),
    decreases c.len(),
{
    if c.len() == 1 {
        0
    } else {
        let t = c.drop_last();
        let k0 = lemma_least_resources_is_first_minimum(g, t);
        assert forall|j: int| 0 <= j < t.len() implies #[trigger] c[j] == t[j] by {}
        if resources_key(g, c.last()) < resources_key(g, least_resources_in(g, t)) {
            c.len() - 1
        } else {
            k0
        }
    }
}

/// The transaction waiting longest in a non-empty `c` is the transaction at
/// some position `k` whose total wait is no shorter than any other's, and
/// longer than that of every transaction after it (the last of the longest).
pub proof fn lemma_longest_waiting_is_last_maximum(g: WaitForGraph, c: Seq<TransactionId>) -> (k: int)
    requires
        c.len() > 0,
    ensures
        0 <= k < c.len(),
        longest_waiting_in(g, c) == c[k],
        forall|j: int| 0 <= j < c.len() ==> wait_key(g, #[trigger] c[j]) <= wait_key(g, c[k]),
        forall|j: int| k < j < c.len() ==> wait_key(g, #[trigger] c[j]) < wait_key(g, c[k]),
    decreases c.len(),
{
    if c.len() == 1 {
        0
    } else {
        let t = c.drop_last();
        let k0 = lemma_longest_waiting_is_last_maximum(g, t);
        assert forall|j: int| 0 <= j < t.len() implies #[trigger] c[j] == t[j] by {}
        if wait_key(g, c.last()) >= wait_key(g, longest_waiting_in(g, t)) {
            c.len() - 1
        } else {
            k0
        }
    }
}

/// Whether `v` holds `x`.
fn vec_contains(v: &Vec<TransactionId>, x: TransactionId) -> (r: bool)
    ensures
        r == v@.contains(x),
{
    let mut i: usize = 0;
    while i < v.len()
        invariant
            i <= v@.len(),
            forall|j: int| 0 <= j < i ==> v@[j] != x,
        decreases v@.len() - i,
    {
        if v[i] == x {
            assert(v@[i as int] == x);
            return true;
        }
        i = i + 1;
    }
    false
}

impl WaitForGraph {
    /// Get resources involved in a cycle: those of the edges between its
    /// transactions, each once.
    fn get_resources_in_cycle(&self, transactions: &Vec<TransactionId>) -> (r: Vec<PageId>)
        requires
            self.inv(),
        ensures
            r@.no_duplicates(),
            r@.to_set() == cycle_resources(*self, transactions@),
    {
        let ghost c = transactions@;
        let mut res: Vec<PageId> = Vec::new();
        let mut k: usize = 0;
        while k < transactions.len()
            invariant
                k <= c.len(),
                c == transactions@,
                self.inv(),
                res@.no_duplicates(),
                forall|r: PageId| #[trigger] res@.contains(r) <==> exists|a: int, j: int|
                    0 <= a < k && 0 <= j < self.edges_of(c[a]).len() && c.contains(self.edges_of(c[a])[j].1) && #[trigger] self.edges_of(
                        c[a],
                    )[j].2 == r,
            decreases c.len() - k,
        {
            let t = transactions[k];
            match self.edges.get(&t) {
                Some(es) => {
                    let ghost ev = edge_views(es@);
                    assert(ev == self.edges_of(t));
                    let mut j: usize = 0;
                    while j < es.len()
                        invariant
                            k < c.len(),
                            c == transactions@,
                            t == c[k as int],
                            j <= es@.len(),
                            ev == edge_views(es@),
                            ev == self.edges_of(t),
                            res@.no_duplicates(),
                            forall|r: PageId| #[trigger] res@.contains(r) <==> (exists|a: int, l: int|
                                0 <= a < k && 0 <= l < self.edges_of(c[a]).len() && c.contains(self.edges_of(c[a])[l].1)
                                    && #[trigger] self.edges_of(c[a])[l].2 == r) || (exists|l: int|
                                0 <= l < j && c.contains(ev[l].1) && #[trigger] ev[l].2 == r),
                        decreases es@.len() - j,
                    {
                        let e = es[j];
                        assert(ev[j as int] == edge_view(e));
                        let ghost r0 = res@;
                        if vec_contains(transactions, e.holder) {
                            let mut seen = false;
                            let mut q: usize = 0;
                            while q < res.len()
                                invariant
                                    q <= res@.len(),
                                    seen == exists|z: int| 0 <= z < q && res@[z] == e.resource,
                                decreases res@.len() - q,
                            {
                                if res[q].0 == e.resource.0 {
                                    seen = true;
                                }
                                q = q + 1;
                            }
                            if !seen {
                                res.push(e.resource);
                                proof {
                                    assert forall|a: int, b: int| 0 <= a < res@.len() && 0 <= b < res@.len() && a != b implies res@[a] != res@[b] by {
                                        if a < r0.len() && b < r0.len() {
                                            assert(r0[a] != r0[b]);
                                        }
                                    }
                                }
                            }
                        }
                        proof {
                            assert forall|r: PageId| #[trigger] res@.contains(r) == (r0.contains(r) || (c.contains(ev[j as int].1)
                                && ev[j as int].2 == r)) by {
                                if res@.contains(r) && !r0.contains(r) {
                                    let z = choose|z: int| 0 <= z < res@.len() && res@[z] == r;
                                    if z < r0.len() {
                                        assert(r0[z] == r);
                                    }
                                }
                                if r0.contains(r) {
                                    let z = choose|z: int| 0 <= z < r0.len() && r0[z] == r;
                                    assert(res@[z] == r);
                                }
                                if c.contains(ev[j as int].1) && ev[j as int].2 == r && r0 != res@ {
                                    assert(res@[r0.len() as int] == r);
                                }
                            }
                            assert forall|r: PageId| #[trigger] res@.contains(r) <==> (exists|a: int, l: int|
                                0 <= a < k && 0 <= l < self.edges_of(c[a]).len() && c.contains(self.edges_of(c[a])[l].1)
                                    && #[trigger] self.edges_of(c[a])[l].2 == r) || (exists|l: int|
                                0 <= l < j + 1 && c.contains(ev[l].1) && #[trigger] ev[l].2 == r) by {
                                if exists|l: int| 0 <= l < j + 1 && c.contains(ev[l].1) && #[trigger] ev[l].2 == r {
                                    let l = choose|l: int| 0 <= l < j + 1 && c.contains(ev[l].1) && #[trigger] ev[l].2 == r;
                                    if l < j {
                                        assert(exists|l: int| 0 <= l < j && c.contains(ev[l].1) && #[trigger] ev[l].2 == r);
                                    }
                                }
                            }
                        }
                        j = j + 1;
                    }
                },
                None => {
                    assert(self.edges_of(t) =~= Seq::<EdgeView>::empty());
                },
            }
            proof {
                assert forall|r: PageId| #[trigger] res@.contains(r) <==> exists|a: int, j: int|
                    0 <= a < k + 1 && 0 <= j < self.edges_of(c[a]).len() && c.contains(self.edges_of(c[a])[j].1) && #[trigger] self.edges_of(
                        c[a],
                    )[j].2 == r by {
                    if exists|a: int, j: int|
                        0 <= a < k + 1 && 0 <= j < self.edges_of(c[a]).len() && c.contains(self.edges_of(c[a])[j].1) && #[trigger] self.edges_of(
                            c[a],
                        )[j].2 == r {
                        let (a, j) = choose|a: int, j: int|
                            0 <= a < k + 1 && 0 <= j < self.edges_of(c[a]).len() && c.contains(self.edges_of(c[a])[j].1) && #[trigger] self.edges_of(
                                c[a],
                            )[j].2 == r;
                        if a == k {
                            assert(self.edges_of(t)[j].2 == r);
                        }
                    }
                }
            }
            k = k + 1;
        }
        assert(res@.to_set() =~= cycle_resources(*self, c));
        res
    }

    /// Depth-first search from `t` (not yet visited), reporting a cycle for
    /// every edge back into the current path.
    fn dfs_detect_cycle(
        &self,
        t: TransactionId,
        visited: &mut Vec<TransactionId>,
        current_path: &mut Vec<TransactionId>,
        deadlocks: &mut Vec<DeadlockCycle>,
        budget: Ghost<nat>,
        fin: Ghost<Seq<TransactionId>>,
    ) -> (fin_out: Ghost<Seq<TransactionId>>)
        requires
            self.inv(),
            budget@ == usize::MAX - old(visited)@.len(),
            forall|x: TransactionId| #[trigger] old(visited)@.contains(x) <==> (fin@.contains(x) || old(current_path)@.contains(x)),
            finish_covered(*self, fin@, old(deadlocks)@),
            !old(visited)@.contains(t),
            old(current_path)@.no_duplicates(),
            graph_path(*self, old(current_path)@),
            old(current_path)@.len() > 0 ==> self.has_edge(old(current_path)@.last(), t),
            reports_ok(*self, old(deadlocks)@),
        ensures
            final(current_path)@ == old(current_path)@,
            final(visited)@.len() > old(visited)@.len(),
            final(visited)@.contains(t),
            forall|x: TransactionId| old(visited)@.contains(x) ==> #[trigger] final(visited)@.contains(x),
            reports_ok(*self, final(deadlocks)@),
            forall|x: TransactionId| #[trigger] final(visited)@.contains(x) <==> (fin_out@.contains(x) || final(current_path)@.contains(x)),
            extends_reports(old(deadlocks)@, final(deadlocks)@),
            finish_covered(*self, fin_out@, final(deadlocks)@),
            fin_out@.len() >= fin@.len(),
            fin_out@.subrange(0, fin@.len() as int) == fin@,
            fin_out@.contains(t),
        decreases budget@,
    {
        let ghost v0 = visited@;
        let ghost p0 = current_path@;
        let ghost d_start = deadlocks@;
        let ghost mut f = fin@;
        visited.push(t);
        current_path.push(t);
        proof {
            assert(visited@[visited@.len() - 1] == t);
            assert forall|x: TransactionId| v0.contains(x) implies #[trigger] visited@.contains(x) by {
                let z = choose|z: int| 0 <= z < v0.len() && v0[z] == x;
                assert(visited@[z] == x);
            }
            assert forall|k: int| 0 <= k < current_path@.len() - 1 implies #[trigger] self.has_edge(current_path@[k], current_path@[k + 1]) by {
                if k < p0.len() - 1 {
                    assert(current_path@[k] == p0[k] && current_path@[k + 1] == p0[k + 1]);
                } else {
                    assert(current_path@[k] == p0.last());
                }
            }
        }
        proof {
            assert(f.subrange(0, fin@.len() as int) =~= fin@);
            assert forall|x: TransactionId| #[trigger] visited@.contains(x) <==> (f.contains(x) || current_path@.contains(x)) by {
                assert(old(visited)@.contains(x) <==> (fin@.contains(x) || old(current_path)@.contains(x)));
                assert(visited@ == v0.push(t));
                assert(current_path@ == p0.push(t));
                if visited@.contains(x) && x != t {
                    let z = choose|z: int| 0 <= z < visited@.len() && visited@[z] == x;
                    assert(v0[z] == x);
                }
                if v0.contains(x) {
                    let z = choose|z: int| 0 <= z < v0.len() && v0[z] == x;
                    assert(visited@[z] == x);
                }
                if current_path@.contains(x) && x != t {
                    let z = choose|z: int| 0 <= z < current_path@.len() && current_path@[z] == x;
                    assert(p0[z] == x);
                }
                if p0.contains(x) {
                    let z = choose|z: int| 0 <= z < p0.len() && p0[z] == x;
                    assert(current_path@[z] == x);
                }
                assert(current_path@[current_path@.len() - 1] == t);
            }
            assert(!p0.contains(t)) by {
                if p0.contains(t) {
                    assert(old(visited)@.contains(t));
                }
            }
            assert(current_path@.no_duplicates()) by {
                assert forall|a: int, b: int| 0 <= a < current_path@.len() && 0 <= b < current_path@.len() && a != b implies current_path@[a]
                    != current_path@[b] by {
                    if a < p0.len() && b < p0.len() {
                        assert(current_path@[a] == p0[a] && current_path@[b] == p0[b]);
                    } else if a < p0.len() {
                        assert(current_path@[a] == p0[a]);
                    } else if b < p0.len() {
                        assert(current_path@[b] == p0[b]);
                    }
                }
            }
        }
        match self.edges.get(&t) {
            Some(es) => {
                let ghost ev = edge_views(es@);
                assert(ev == self.edges_of(t));
                let mut j: usize = 0;
                while j < es.len()
                    invariant
                        self.inv(),
                        j <= es@.len(),
                        ev == edge_views(es@),
                        ev == self.edges_of(t),
                        current_path@ == p0.push(t),
                        budget@ == usize::MAX - v0.len(),
                        graph_path(*self, current_path@),
                        visited@.len() > v0.len(),
                        visited@.contains(t),
                        forall|x: TransactionId| v0.contains(x) ==> #[trigger] visited@.contains(x),
                        reports_ok(*self, deadlocks@),
                        forall|x: TransactionId| #[trigger] visited@.contains(x) <==> (f.contains(x) || current_path@.contains(x)),
                        extends_reports(d_start, deadlocks@),
                        finish_covered(*self, f, deadlocks@),
                        forall|k: int| 0 <= k < j ==> f.contains(#[trigger] ev[k].1) || covered(*self, deadlocks@, t),
                        current_path@.no_duplicates(),
                        f.len() >= fin@.len(),
                        f.subrange(0, fin@.len() as int) == fin@,
                    decreases es@.len() - j,
                {
                    let h = es[j].holder;
                    assert(ev[j as int] == edge_view(es@[j as int]));
                    assert(self.edges_of(t)[j as int].1 == h);
                    assert(self.has_edge(t, h));
                    if !vec_contains(visited, h) {
                        let ghost vb = visited@;
                        let vl = visited.len();
                        assert(vl == visited@.len());
                        assert(usize::MAX - visited@.len() >= 0);
                        assert(usize::MAX - visited@.len() < usize::MAX - v0.len());
                        assert(current_path@.last() == t);
                        let ghost b = (usize::MAX - visited@.len()) as nat;
                        let ghost f_before = f;
                        let ghost d_before = deadlocks@;
                        let sub = self.dfs_detect_cycle(h, visited, current_path, deadlocks, Ghost(b), Ghost(f));
                        proof {
                            f = sub@;
                            assert(f.subrange(0, fin@.len() as int) =~= f_before.subrange(0, fin@.len() as int)) by {
                                assert forall|z: int| 0 <= z < fin@.len() implies f[z] == f_before[z] by {
                                    assert(f.subrange(0, f_before.len() as int)[z] == f_before[z]);
                                }
                            }
                            assert forall|k: int| 0 <= k <= j implies f.contains(#[trigger] ev[k].1) || covered(*self, deadlocks@, t) by {
                                if k < j {
                                    if f_before.contains(ev[k].1) {
                                        let z = choose|z: int| 0 <= z < f_before.len() && f_before[z] == ev[k].1;
                                        assert(f.subrange(0, f_before.len() as int)[z] == f_before[z]);
                                    } else {
                                        lemma_covered_grow(*self, d_before, deadlocks@, t);
                                    }
                                } else {
                                    assert(ev[k].1 == h);
                                }
                            }
                            assert forall|i: int| 0 <= i < d_start.len() implies #[trigger] deadlocks@[i] == d_start[i] by {
                                assert(deadlocks@[i] == d_before[i]);
                            }
                        }
                        assert forall|x: TransactionId| v0.contains(x) implies #[trigger] visited@.contains(x) by {
                            assert(vb.contains(x));
                        }
                    } else if vec_contains(current_path, h) {
                        let mut pos: usize = 0;
                        while pos < current_path.len() && current_path[pos] != h
                            invariant
                                pos <= current_path@.len(),
                                current_path@.contains(h),
                                forall|z: int| 0 <= z < pos ==> current_path@[z] != h,
                            decreases current_path@.len() - pos,
                        {
                            pos = pos + 1;
                        }
                        proof {
                            if pos == current_path@.len() {
                                let z = choose|z: int| 0 <= z < current_path@.len() && current_path@[z] == h;
                            }
                        }
                        let mut cycle: Vec<TransactionId> = Vec::new();
                        let mut q: usize = pos;
                        while q < current_path.len()
                            invariant
                                pos <= q <= current_path@.len(),
                                cycle@ == current_path@.subrange(pos as int, q as int),
                            decreases current_path@.len() - q,
                        {
                            cycle.push(current_path[q]);
                            q = q + 1;
                        }
                        let resources = self.get_resources_in_cycle(&cycle);
                        proof {
                            let c = cycle@;
                            let p = current_path@;
                            assert(c.len() > 0);
                            assert(c[0] == h);
                            assert(c.last() == t);
                            assert forall|k: int| 0 <= k < c.len() - 1 implies #[trigger] self.has_edge(c[k], c[k + 1]) by {
                                assert(c[k] == p[pos + k] && c[k + 1] == p[pos + k + 1]);
                            }
                        }
                        proof {
                            let c = cycle@;
                            let p = current_path@;
                            assert(c.no_duplicates()) by {
                                assert forall|a: int, b: int| 0 <= a < c.len() && 0 <= b < c.len() && a != b implies c[a] != c[b] by {
                                    assert(c[a] == p[pos + a] && c[b] == p[pos + b]);
                                }
                            }
                            assert(c.contains(t)) by {
                                assert(c[c.len() - 1] == t);
                            }
                        }
                        let ghost d0 = deadlocks@;
                        if !reported_already(deadlocks, &cycle) {
                            let ghost c = cycle@;
                            deadlocks.push(DeadlockCycle { transactions: cycle, resources, detection_time: instant_now() });
                            proof {
                                let n = d0.len() as int;
                                assert(deadlocks@[n].transactions@ == c);
                                assert forall|i: int| 0 <= i < deadlocks@.len() implies deadlock_ok(*self, #[trigger] deadlocks@[i])
                                    && deadlocks@[i].transactions@.no_duplicates() by {
                                    if i < n {
                                        assert(deadlocks@[i] == d0[i]);
                                    }
                                }
                                assert forall|i: int, j2: int|
                                    0 <= i < deadlocks@.len() && 0 <= j2 < deadlocks@.len() && i != j2 implies !#[trigger] same_cycle(
                                    deadlocks@[i].transactions@,
                                    deadlocks@[j2].transactions@,
                                ) by {
                                    if i < n && j2 < n {
                                        assert(deadlocks@[i] == d0[i] && deadlocks@[j2] == d0[j2]);
                                    } else if i < n {
                                        assert(deadlocks@[i] == d0[i]);
                                    } else if j2 < n {
                                        assert(deadlocks@[j2] == d0[j2]);
                                    }
                                }
                                lemma_cycle_within_scc(*self, c, t);
                                assert(within_scc(*self, deadlocks@[n].transactions@, t));
                                assert(covered(*self, deadlocks@, t));
                                assert forall|i: int| 0 <= i < d0.len() implies #[trigger] deadlocks@[i] == d0[i] by {}
                                lemma_finish_covered_grow(*self, f, d0, deadlocks@);
                                assert forall|i: int| 0 <= i < d_start.len() implies #[trigger] deadlocks@[i] == d_start[i] by {
                                    assert(deadlocks@[i] == d0[i]);
                                }
                            }
                        } else {
                            proof {
                                let c = cycle@;
                                let n = c.len() as int;
                                let i = choose|i: int|
                                    #![trigger d0[i]]
                                    0 <= i < d0.len() && (same_cycle(d0[i].transactions@, c) || same_cycle(c, d0[i].transactions@));
                                let d = d0[i].transactions@;
                                assert(deadlock_ok(*self, d0[i]));
                                if same_cycle(d, c) {
                                    let k = choose|k: int| 0 <= k < d.len() && #[trigger] shifted(d, c, k);
                                    assert(d[n - 1 - k] == c[n - 1]);
                                    assert(d.contains(t));
                                } else {
                                    let k = choose|k: int| 0 <= k < c.len() && #[trigger] shifted(c, d, k);
                                    let z = if n - 1 + k < n {
                                        n - 1 + k
                                    } else {
                                        n - 1 + k - n
                                    };
                                    assert(c[n - 1] == d[z]);
                                    assert(d.contains(t));
                                }
                                lemma_cycle_within_scc(*self, d, t);
                                assert(within_scc(*self, deadlocks@[i].transactions@, t));
                                assert(covered(*self, deadlocks@, t));
                            }
                        }
                    }
                    j = j + 1;
                }
            },
            None => {
                assert(self.edges_of(t).len() == 0);
            },
        }
        current_path.pop();
        assert(current_path@ =~= p0);
        proof {
            let f0 = f;
            f = f.push(t);
            assert(f.subrange(0, fin@.len() as int) =~= f0.subrange(0, fin@.len() as int));
            assert(f[f.len() - 1] == t);
            assert forall|x: TransactionId| #[trigger] visited@.contains(x) <==> (f.contains(x) || current_path@.contains(x)) by {
                if f0.contains(x) {
                    let z = choose|z: int| 0 <= z < f0.len() && f0[z] == x;
                    assert(f[z] == x);
                }
                if f.contains(x) && x != t {
                    let z = choose|z: int| 0 <= z < f.len() && f[z] == x;
                    assert(f0[z] == x);
                }
            }
            assert forall|a: int, v: TransactionId| 0 <= a < f.len() && #[trigger] self.has_edge(f[a], v) implies (exists|b: int|
                0 <= b < a && #[trigger] f[b] == v) || covered(*self, deadlocks@, f[a]) by {
                if a < f0.len() {
                    assert(f[a] == f0[a]);
                    if !covered(*self, deadlocks@, f0[a]) {
                        let b = choose|b: int| 0 <= b < a && f0[b] == v;
                        assert(f[b] == f0[b]);
                    }
                } else {
                    assert(f[a] == t);
                    let i = choose|i: int| 0 <= i < self.edges_of(t).len() && #[trigger] self.edges_of(t)[i].1 == v;
                    if !covered(*self, deadlocks@, t) {
                        assert(f0.contains(self.edges_of(t)[i].1));
                        let b = choose|b: int| 0 <= b < f0.len() && f0[b] == v;
                        assert(f[b] == f0[b]);
                    }
                }
            }
        }
        Ghost(f)
    }

    /// Detect cycles in the wait-for graph by depth-first search from every
    /// waiting transaction. Each reported deadlock is a cycle of the graph
    /// that passes no transaction twice; no cycle is reported twice (a cycle
    /// met again through a second edge between the same transactions is
    /// skipped); and every strongly connected group of transactions that
    /// holds a cycle holds a reported deadlock, so separate deadlocks are all
    /// found.
    pub fn detect_deadlocks(&self) -> (r: Vec<DeadlockCycle>)
        requires
            self.inv(),
        ensures
            detection_report(*self, r@),
            r@.len() == 0 ==> forall|c: Seq<TransactionId>| !#[trigger] is_cycle(*self, c),
    {
        let mut visited: Vec<TransactionId> = Vec::new();
        let mut current_path: Vec<TransactionId> = Vec::new();
        let mut deadlocks: Vec<DeadlockCycle> = Vec::new();
        let ghost mut f: Seq<TransactionId> = Seq::empty();
        let mut i: usize = 0;
        while i < self.edges.entries.len()
            invariant
                self.inv(),
                i <= self.edges.entries@.len(),
                current_path@ == Seq::<TransactionId>::empty(),
                reports_ok(*self, deadlocks@),
                forall|x: TransactionId| #[trigger] visited@.contains(x) <==> f.contains(x),
                finish_covered(*self, f, deadlocks@),
                forall|k: int| 0 <= k < i ==> visited@.contains(#[trigger] self.edges.entries@[k].0),
            decreases self.edges.entries@.len() - i,
        {
            let t = self.edges.entries[i].0;
            if !vec_contains(&visited, t) {
                let vl = visited.len();
                assert(vl == visited@.len());
                let ghost b = (usize::MAX - visited@.len()) as nat;
                let ghost v_before = visited@;
                let sub = self.dfs_detect_cycle(t, &mut visited, &mut current_path, &mut deadlocks, Ghost(b), Ghost(f));
                proof {
                    f = sub@;
                    assert forall|k: int| 0 <= k <= i implies visited@.contains(#[trigger] self.edges.entries@[k].0) by {
                        if k < i {
                            assert(v_before.contains(self.edges.entries@[k].0));
                        }
                    }
                }
            }
            i = i + 1;
        }
        proof {
            assert forall|c: Seq<TransactionId>| #[trigger] is_cycle(*self, c) implies covered(*self, deadlocks@, c[0]) by {
                let w = if c.len() > 1 {
                    c[1]
                } else {
                    c[0]
                };
                if c.len() > 1 {
                    let k0: int = 0;
                    assert(self.has_edge(c[k0], c[k0 + 1]));
                } else {
                    assert(c.last() == c[0]);
                }
                assert(self.has_edge(c[0], w));
                assert(self.edges_of(c[0]).len() > 0);
                assert(self.edges.view_map().contains_key(c[0]));
                crate::assoc_list::lemma_map_of(self.edges.entries@, c[0]);
                crate::assoc_list::lemma_last_index(self.edges.entries@, c[0]);
                let li = crate::assoc_list::last_index(self.edges.entries@, c[0]);
                assert(visited@.contains(self.edges.entries@[li].0));
                assert(f.contains(c[0]));
                let a = choose|a: int| 0 <= a < f.len() && f[a] == c[0];
                assert(c.contains(f[a])) by {
                    assert(c[0] == f[a]);
                }
                lemma_finish_covered_cycle(*self, f, deadlocks@, c, a);
            }
        }
        deadlocks
    }

    /// Update the resource count of a transaction that has metadata.
    pub fn update_transaction_metadata(&mut self, txn_id: TransactionId, resources_held: usize)
        requires
            old(self).inv(),
        ensures
            final(self).inv(),
            final(self).edge_map() == old(self).edge_map(),
            final(self).waiter_map() == old(self).waiter_map(),
            final(self).meta_map() == if old(self).meta_map().contains_key(txn_id) {
                old(self).meta_map().insert(txn_id, (resources_held, old(self).meta_map()[txn_id].1))
            } else {
                old(self).meta_map()
            },
    {
        match self.transaction_metadata.find(&txn_id) {
            Some(i) => {
                let m = self.transaction_metadata.entries[i].1;
                self.transaction_metadata.set_value(i, TransactionMetadata { resources_held, total_wait_nanos: m.total_wait_nanos });
                assert(self.edge_map() == old(self).edge_map());
                assert(self.waiter_map() == old(self).waiter_map());
                assert forall|x: TransactionId, k: int| 0 <= k < self.edges_of(x).len() implies (#[trigger] self.edges_of(x)[k]).0 == x by {
                    assert(self.edges_of(x) == old(self).edges_of(x));
                }
                assert forall|a: TransactionId, b: TransactionId| #[trigger] self.waiters_of(b).contains(a) == self.has_edge(a, b) by {
                    assert(self.edges_of(a) == old(self).edges_of(a));
                    assert(self.waiters_of(b) == old(self).waiters_of(b));
                    assert(old(self).waiters_of(b).contains(a) == old(self).has_edge(a, b));
                }
                assert(self.meta_map() =~= old(self).meta_map().insert(txn_id, (resources_held, old(self).meta_map()[txn_id].1)));
            },
            None => {},
        }
    }

    /// Get the transaction with the least resources in a cycle (the first
    /// of equals); transactions without metadata count as holding none.
    pub fn get_least_resources_transaction(&self, transactions: &[TransactionId]) -> (r: TransactionId)
        requires
            self.inv(),
            transactions@.len() > 0,
        ensures
            r == least_resources_in(*self, transactions@),
            transactions@.contains(r),
            forall|j: int| 0 <= j < transactions@.len() ==> resources_key(*self, r) <= resources_key(*self, #[trigger] transactions@[j]),
    {
        proof {
            let k = lemma_least_resources_is_first_minimum(*self, transactions@);
            assert(transactions@[k] == least_resources_in(*self, transactions@));
        }
        let ghost c = transactions@;
        let mut best: TransactionId = transactions[0];
        let mut best_key: usize = self.resources_of(best);
        let mut i: usize = 1;
        while i < transactions.len()
            invariant
                1 <= i <= c.len(),
                c == transactions@,
                self.inv(),
                best == least_resources_in(*self, c.take(i as int)),
                best_key == resources_key(*self, best),
            decreases c.len() - i,
        {
            assert(c.take(i + 1).drop_last() =~= c.take(i as int));
            let t = transactions[i];
            let k = self.resources_of(t);
            if k < best_key {
                best = t;
                best_key = k;
            }
            i = i + 1;
        }
        assert(c.take(c.len() as int) =~= c);
        best
    }

    /// Get the transaction with the longest wait in a cycle (the last of
    /// equals); transactions without metadata count as not waiting.
    pub fn get_longest_waiting_transaction(&self, transactions: &[TransactionId]) -> (r: TransactionId)
        requires
            self.inv(),
            transactions@.len() > 0,
        ensures
            r == longest_waiting_in(*self, transactions@),
            transactions@.contains(r),
            forall|j: int| 0 <= j < transactions@.len() ==> wait_key(*self, #[trigger] transactions@[j]) <= wait_key(*self, r),
    {
        proof {
            let k = lemma_longest_waiting_is_last_maximum(*self, transactions@);
            assert(transactions@[k] == longest_waiting_in(*self, transactions@));
        }
        let ghost c = transactions@;
        let mut best: TransactionId = transactions[0];
        let mut best_key: u128 = self.wait_of(best);
        let mut i: usize = 1;
        while i < transactions.len()
            invariant
                1 <= i <= c.len(),
                c == transactions@,
                self.inv(),
                best == longest_waiting_in(*self, c.take(i as int)),
                best_key == wait_key(*self, best),
            decreases c.len() - i,
        {
            assert(c.take(i + 1).drop_last() =~= c.take(i as int));
            let t = transactions[i];
            let k = self.wait_of(t);
            if k >= best_key {
                best = t;
                best_key = k;
            }
            i = i + 1;
        }
        assert(c.take(c.len() as int) =~= c);
        best
    }

    /// Resources recorded for `t`.
    fn resources_of(&self, t: TransactionId) -> (r: usize)
        requires
            self.inv(),
        ensures
            r == resources_key(*self, t),
    {
        match self.transaction_metadata.get(&t) {
            Some(m) => m.resources_held,
            None => 0,
        }
    }

    /// Total wait recorded for `t`.
    fn wait_of(&self, t: TransactionId) -> (r: u128)
        requires
            self.inv(),
        ensures
            r == wait_key(*self, t),
    {
        match self.transaction_metadata.get(&t) {
            Some(m) => m.total_wait_nanos,
            None => 0,
        }
    }

    /// Get number of active edges
    pub fn edge_count(&self) -> (r: usize)
        requires
            self.inv(),
            self.edge_total() <= usize::MAX,
        ensures
            r == self.edge_total(),
    {
        let ghost s = self.edges.entries@;
        proof {
            lemma_sum_edge_prefix(s);
        }
        let mut total: usize = 0;
        let mut i: usize = 0;
        while i < self.edges.entries.len()
            invariant
                i <= s.len(),
                s == self.edges.entries@,
                sum_edge_lens(s) <= usize::MAX,
                forall|k: int| 0 <= k <= s.len() ==> sum_edge_lens(#[trigger] s.take(k)) <= sum_edge_lens(s),
                total == sum_edge_lens(s.take(i as int)),
            decreases s.len() - i,
        {
            assert(s.take(i + 1).drop_last() =~= s.take(i as int));
            assert(s.take(i + 1).last() == s[i as int]);
            total = total + self.edges.entries[i].1.len();
            i = i + 1;
        }
        assert(s.take(s.len() as int) =~= s);
        total
    }

    /// Check if the graph has any edges
    pub fn is_empty(&self) -> (r: bool)
        requires
            self.inv(),
        ensures
            r == (forall|w: TransactionId| !#[trigger] self.edge_map().contains_key(w)),
    {
        let r = self.edges.entries.len() == 0;
        proof {
            if !r {
                let w = self.edges.entries@[0].0;
                lemma_map_of_contains(self.edges.entries@, w);
                assert(self.edge_map().contains_key(w));
            } else {
                assert forall|w: TransactionId| !#[trigger] self.edge_map().contains_key(w) by {
                    lemma_map_of_contains(self.edges.entries@, w);
                }
            }
        }
        r
    }
}

impl Default for WaitForGraph {
    fn default() -> (r: Self)
        ensures
            r.inv(),
            r.edge_map() == Map::<TransactionId, Seq<EdgeView>>::empty(),
            r.waiter_map() == Map::<TransactionId, Set<TransactionId>>::empty(),
            r.meta_map() == Map::<TransactionId, (usize, u128)>::empty(),
            r.edge_total() == 0,
    {
        Self::new()
    }
}

proof fn lemma_sum_edge_prefix(s: Seq<(TransactionId, Vec<WaitForEdge>)>)
    ensures
        forall|k: int| 0 <= k <= s.len() ==> sum_edge_lens(#[trigger] s.take(k)) <= sum_edge_lens(s),
    decreases s.len(),
{
    if s.len() > 0 {
        lemma_sum_edge_prefix(s.drop_last());
        assert forall|k: int| 0 <= k <= s.len() implies sum_edge_lens(#[trigger] s.take(k)) <= sum_edge_lens(s) by {
            if k == s.len() {
                assert(s.take(k) =~= s);
            } else {
                assert(s.take(k) =~= s.drop_last().take(k));
            }
        }
    }
}

/// The victim chosen in deadlock `c` under a policy.
pub open spec fn victim(policy: DeadlockResolutionPolicy, g: WaitForGraph, c: Seq<TransactionId>) -> TransactionId {
    match policy {
        DeadlockResolutionPolicy::AbortYoungest => max_id(c),
        DeadlockResolutionPolicy::AbortOldest => min_id(c),
        DeadlockResolutionPolicy::AbortLeastResources => least_resources_in(g, c),
        DeadlockResolutionPolicy::AbortLongestWaiting => longest_waiting_in(g, c),
    }
}

/// The running mean of detection times after one more detection taking `t`
/// microseconds: the first sets it, later ones average with it.
pub open spec fn next_average(avg: u64, t: u64) -> u64 {
    if avg == 0 {
        t
    } else {
        ((avg + t) / 2) as u64
    }
}

/// Deadlock detector that monitors the wait-for graph
pub struct DeadlockDetector {
    /// Wait-for graph
    wait_for_graph: WaitForGraph,
    /// Detection policy
    resolution_policy: DeadlockResolutionPolicy,
    /// Statistics
    statistics: DeadlockStatistics,
    /// Detection interval
    detection_interval: Duration,
    /// Maximum wait time before forced deadlock check
    max_wait_time: Duration,
}

impl DeadlockDetector {
    /// The wait-for graph.
    pub closed spec fn graph(&self) -> WaitForGraph {
        self.wait_for_graph
    }

    /// The resolution policy.
    pub closed spec fn policy(&self) -> DeadlockResolutionPolicy {
        self.resolution_policy
    }

    /// The detection counters.
    pub closed spec fn stats(&self) -> DeadlockStatistics {
        self.statistics
    }

    /// The configured detection interval.
    pub closed spec fn interval(&self) -> Duration {
        self.detection_interval
    }

    /// The configured maximum wait.
    pub closed spec fn max_wait(&self) -> Duration {
        self.max_wait_time
    }

    /// The graph is well-formed.
    pub open spec fn inv(&self) -> bool {
        self.graph().inv()
    }

    /// Create a new deadlock detector
    pub fn new(resolution_policy: DeadlockResolutionPolicy, detection_interval: Duration, max_wait_time: Duration) -> (r: Self)
        ensures
            r.inv(),
            r.graph().edge_map() == Map::<TransactionId, Seq<EdgeView>>::empty(),
            r.graph().waiter_map() == Map::<TransactionId, Set<TransactionId>>::empty(),
            r.graph().meta_map() == Map::<TransactionId, (usize, u128)>::empty(),
            r.graph().edge_total() == 0,
            r.policy() == resolution_policy,
            r.stats().total_deadlocks_detected == 0,
            r.stats().total_transactions_aborted == 0,
            r.stats().average_detection_time_us == 0,
            r.interval() == detection_interval,
            r.max_wait() == max_wait_time,
    {
        Self {
            wait_for_graph: WaitForGraph::new(),
            resolution_policy,
            statistics: DeadlockStatistics::default(),
            detection_interval,
            max_wait_time,
        }
    }

    /// Add a wait-for relationship starting now.
    pub fn add_wait_edge(&mut self, waiter: TransactionId, holder: TransactionId, resource: PageId)
        requires
            old(self).inv(),
        ensures
            final(self).inv(),
            final(self).graph().edge_map() == old(self).graph().edge_map().insert(
                waiter,
                old(self).graph().edges_of(waiter).push((waiter, holder, resource)),
            ),
            final(self).graph().waiter_map() == old(self).graph().waiter_map().insert(
                holder,
                old(self).graph().waiters_of(holder).insert(waiter),
            ),
            final(self).graph().meta_map() == if old(self).graph().meta_map().contains_key(waiter) {
                old(self).graph().meta_map()
            } else {
                old(self).graph().meta_map().insert(waiter, (0usize, 0u128))
            },
            final(self).stats() == old(self).stats(),
            final(self).policy() == old(self).policy(),
    {
        let edge = WaitForEdge::new(waiter, holder, resource);
        self.wait_for_graph.add_edge(edge);
    }

    /// Remove a wait-for relationship
    pub fn remove_wait_edge(&mut self, waiter: TransactionId, holder: TransactionId)
        requires
            old(self).inv(),
        ensures
            final(self).inv(),
            final(self).graph().edge_map() == if old(self).graph().edges_of(waiter).filter(holder_not(holder)).len() > 0 {
                old(self).graph().edge_map().insert(waiter, old(self).graph().edges_of(waiter).filter(holder_not(holder)))
            } else {
                old(self).graph().edge_map().remove(waiter)
            },
            final(self).graph().waiter_map() == if set_nonempty(old(self).graph().waiters_of(holder).remove(waiter)) {
                old(self).graph().waiter_map().insert(holder, old(self).graph().waiters_of(holder).remove(waiter))
            } else {
                old(self).graph().waiter_map().remove(holder)
            },
            final(self).graph().meta_map() == old(self).graph().meta_map(),
            final(self).stats() == old(self).stats(),
            final(self).policy() == old(self).policy(),
    {
        self.wait_for_graph.remove_edge(waiter, holder);
    }

    /// Remove all wait relationships for a transaction
    pub fn remove_transaction(&mut self, txn_id: TransactionId)
        requires
            old(self).inv(),
        ensures
            final(self).inv(),
            forall|w: TransactionId| #[trigger] final(self).graph().edges_of(w) == if w == txn_id {
                Seq::<EdgeView>::empty()
            } else {
                old(self).graph().edges_of(w).filter(holder_not(txn_id))
            },
            forall|h: TransactionId| #[trigger] final(self).graph().waiters_of(h) == if h == txn_id {
                Set::<TransactionId>::empty()
            } else {
                old(self).graph().waiters_of(h).remove(txn_id)
            },
            final(self).graph().meta_map() == old(self).graph().meta_map().remove(txn_id),
            final(self).stats() == old(self).stats(),
            final(self).policy() == old(self).policy(),
    {
        self.wait_for_graph.remove_transaction(txn_id);
    }

    /// Run deadlock detection and return transactions to abort: one victim
    /// per detected deadlock, chosen by the policy. The counters grow by the
    /// number of deadlocks (stopping at `u64::MAX`) and the detection time
    /// enters the running mean. There are victims exactly when the graph
    /// has a cycle.
    pub fn detect_and_resolve_deadlocks(&mut self) -> (r: StorageResult<Vec<TransactionId>>)
        requires
            old(self).inv(),
        ensures
            final(self).inv(),
            final(self).graph() == old(self).graph(),
            final(self).policy() == old(self).policy(),
            r is Ok,
            r matches Ok(v) && resolved_some(*old(self), *final(self), v@),
            r matches Ok(v) && (v@.len() > 0 <==> exists|c: Seq<TransactionId>| #[trigger] is_cycle(old(self).graph(), c)),
    {
        let detection_start = instant_now();
        let deadlocks = self.wait_for_graph.detect_deadlocks();
        let elapsed = instant_elapsed(&detection_start);
        let detection_time_us = duration_micros(&elapsed);
        if deadlocks.len() == 0 {
            let r: Vec<TransactionId> = Vec::new();
            assert(resolved_some(*old(self), *self, r@)) by {
                assert(resolved(*old(self), *self, deadlocks@, r@));
            }
            return Ok(r);
        }
        proof {
            assert(deadlock_ok(self.graph(), deadlocks@[0]));
            assert(is_cycle(old(self).graph(), deadlocks@[0].transactions@));
        }
        let n = deadlocks.len() as u64;
        let mut victims: Vec<TransactionId> = Vec::new();
        let mut i: usize = 0;
        while i < deadlocks.len()
            invariant
                i <= deadlocks@.len(),
                self.inv(),
                self.wait_for_graph == old(self).wait_for_graph,
                self.resolution_policy == old(self).resolution_policy,
                forall|k: int| 0 <= k < deadlocks@.len() ==> deadlock_ok(self.graph(), #[trigger] deadlocks@[k]),
                victims@.len() == i,
                forall|k: int| 0 <= k < i ==> #[trigger] victims@[k] == victim(self.policy(), self.graph(), deadlocks@[k].transactions@),
            decreases deadlocks@.len() - i,
        {
            let v = self.choose_victim(&deadlocks[i]);
            victims.push(v);
            i = i + 1;
        }
        self.statistics.total_deadlocks_detected = self.statistics.total_deadlocks_detected.saturating_add(n);
        self.statistics.total_transactions_aborted = self.statistics.total_transactions_aborted.saturating_add(n);
        let avg = self.statistics.average_detection_time_us;
        let sum: u128 = avg as u128 + detection_time_us as u128;
        assert(sum / 2 <= u64::MAX);
        self.statistics.average_detection_time_us = if avg == 0 {
            detection_time_us
        } else {
            (sum / 2) as u64
        };
        assert(self.statistics.average_detection_time_us == next_average(avg, detection_time_us));
        let ghost ds = deadlocks@;
        assert(forall|k: int| 0 <= k < ds.len() ==> deadlock_ok(old(self).graph(), #[trigger] ds[k]));
        assert(victims@.len() == ds.len());
        assert(forall|k: int| 0 <= k < ds.len() ==> #[trigger] victims@[k] == victim(old(self).policy(), old(self).graph(), ds[k].transactions@));

        assert(self.stats().average_detection_time_us == next_average(old(self).stats().average_detection_time_us, detection_time_us));
        assert(resolved_some(*old(self), *self, victims@)) by {
            assert(resolved(*old(self), *self, deadlocks@, victims@));
        }
        Ok(victims)
    }

    /// Choose victim transaction based on resolution policy
    fn choose_victim(&self, deadlock: &DeadlockCycle) -> (r: TransactionId)
        requires
            self.inv(),
            deadlock_ok(self.graph(), *deadlock),
        ensures
            r == victim(self.policy(), self.graph(), deadlock.transactions@),
    {
        match self.resolution_policy {
            DeadlockResolutionPolicy::AbortYoungest => deadlock.youngest_transaction(),
            DeadlockResolutionPolicy::AbortOldest => deadlock.oldest_transaction(),
            DeadlockResolutionPolicy::AbortLeastResources => self.wait_for_graph.get_least_resources_transaction(
                deadlock.transactions.as_slice(),
            ),
            DeadlockResolutionPolicy::AbortLongestWaiting => self.wait_for_graph.get_longest_waiting_transaction(
                deadlock.transactions.as_slice(),
            ),
        }
    }

    /// Check for deadlocks when some transaction has waited longer than the
    /// maximum wait: then detection runs, otherwise nothing happens.
    pub fn check_long_waiting_transactions(&mut self) -> (r: StorageResult<Vec<TransactionId>>)
        requires
            old(self).inv(),
        ensures
            final(self).inv(),
            final(self).graph() == old(self).graph(),
            final(self).policy() == old(self).policy(),
            r is Ok,
            r matches Ok(v) && ((v@.len() == 0 && final(self).stats() == old(self).stats()) || resolved_some(*old(self), *final(self), v@)),
            r matches Ok(v) && (v@.len() > 0 ==> exists|c: Seq<TransactionId>| #[trigger] is_cycle(old(self).graph(), c)),
            (forall|c: Seq<TransactionId>| !#[trigger] is_cycle(old(self).graph(), c)) ==> (r matches Ok(v) && v@.len() == 0
                && final(self).stats() == old(self).stats()),
    {
        let limit = duration_nanos(&self.max_wait_time);
        let mut any_long = false;
        let mut i: usize = 0;
        while i < self.wait_for_graph.edges.entries.len()
            invariant
                self.inv(),
                self.wait_for_graph == old(self).wait_for_graph,
                self.statistics == old(self).statistics,
                self.resolution_policy == old(self).resolution_policy,
            decreases self.wait_for_graph.edges.entries@.len() - i,
        {
            let es = &self.wait_for_graph.edges.entries[i].1;
            let mut j: usize = 0;
            while j < es.len()
                invariant
                    j <= es@.len(),
                decreases es@.len() - j,
            {
                let waited = es[j].wait_duration();
                if duration_nanos(&waited) > limit {
                    any_long = true;
                }
                j = j + 1;
            }
            i = i + 1;
        }
        if any_long {
            self.detect_and_resolve_deadlocks()
        } else {
            Ok(Vec::new())
        }
    }

    /// Update transaction metadata for better deadlock resolution
    pub fn update_transaction_metadata(&mut self, txn_id: TransactionId, resources_held: usize)
        requires
            old(self).inv(),
        ensures
            final(self).inv(),
            final(self).graph().edge_map() == old(self).graph().edge_map(),
            final(self).graph().waiter_map() == old(self).graph().waiter_map(),
            final(self).graph().meta_map() == if old(self).graph().meta_map().contains_key(txn_id) {
                old(self).graph().meta_map().insert(txn_id, (resources_held, old(self).graph().meta_map()[txn_id].1))
            } else {
                old(self).graph().meta_map()
            },
            final(self).stats() == old(self).stats(),
            final(self).policy() == old(self).policy(),
    {
        self.wait_for_graph.update_transaction_metadata(txn_id, resources_held);
    }

    /// Get current deadlock statistics: the counters, the current number of
    /// wait-for edges and the longest current wait in milliseconds.
    pub fn get_statistics(&self) -> (r: DeadlockStatistics)
        requires
            self.inv(),
            self.graph().edge_total() <= usize::MAX,
        ensures
            r.total_deadlocks_detected == self.stats().total_deadlocks_detected,
            r.total_transactions_aborted == self.stats().total_transactions_aborted,
            r.average_detection_time_us == self.stats().average_detection_time_us,
            r.active_wait_edges == self.graph().edge_total(),
    {
        let mut max_wait_ms: u64 = 0;
        let mut i: usize = 0;
        while i < self.wait_for_graph.edges.entries.len()
            invariant
                self.inv(),
            decreases self.wait_for_graph.edges.entries@.len() - i,
        {
            let es = &self.wait_for_graph.edges.entries[i].1;
            let mut j: usize = 0;
            while j < es.len()
                invariant
                    j <= es@.len(),
                decreases es@.len() - j,
            {
                let waited = es[j].wait_duration();
                let ms = duration_millis(&waited);
                if ms > max_wait_ms {
                    max_wait_ms = ms;
                }
                j = j + 1;
            }
            i = i + 1;
        }
        DeadlockStatistics {
            total_deadlocks_detected: self.statistics.total_deadlocks_detected,
            total_transactions_aborted: self.statistics.total_transactions_aborted,
            active_wait_edges: self.wait_for_graph.edge_count(),
            average_detection_time_us: self.statistics.average_detection_time_us,
            max_wait_time_ms: max_wait_ms,
        }
    }

    /// Get detection interval
    pub fn detection_interval(&self) -> (r: Duration)
        ensures
            r == self.interval(),
    {
        self.detection_interval
    }

    /// Get maximum wait time
    pub fn max_wait_time(&self) -> (r: Duration)
        ensures
            r == self.max_wait(),
    {
        self.max_wait_time
    }

    /// Check if deadlock detection is needed: some transaction waits.
    pub fn should_detect_deadlocks(&self) -> (r: bool)
        requires
            self.inv(),
        ensures
            r == exists|w: TransactionId| #[trigger] self.graph().edge_map().contains_key(w),
    {
        !self.wait_for_graph.is_empty()
    }
}

/// `new` is `old` after resolving the deadlocks `ds` that detection reports
/// of its graph: `victims` holds the policy's victim of each, in order, one
/// per deadlock; the counters grew by their number and, when there was one,
/// the mean detection time took in some detection time.
pub open spec fn resolved(old: DeadlockDetector, new: DeadlockDetector, ds: Seq<DeadlockCycle>, victims: Seq<TransactionId>) -> bool {
    &&& detection_report(old.graph(), ds)
    &&& victims.len() == ds.len()
    &&& forall|k: int| 0 <= k < ds.len() ==> #[trigger] victims[k] == victim(old.policy(), old.graph(), ds[k].transactions@)
    &&& new.stats().total_deadlocks_detected == counter_plus(old.stats().total_deadlocks_detected, ds.len())
    &&& new.stats().total_transactions_aborted == counter_plus(old.stats().total_transactions_aborted, ds.len())
    &&& ds.len() == 0 ==> new.stats() == old.stats()
    &&& ds.len() > 0 ==> exists|t: u64| new.stats().average_detection_time_us == #[trigger] next_average(
        old.stats().average_detection_time_us,
        t,
    )
}

/// Counter `c` grown by `n`, stopping at `u64::MAX`.
pub open spec fn counter_plus(c: u64, n: nat) -> u64 {
    if c + n > u64::MAX {
        u64::MAX
    } else {
        (c + n) as u64
    }
}

/// `new` is `old` after resolving, with victims `victims`, the deadlocks
/// that one run of detection reports of its graph.
pub open spec fn resolved_some(old: DeadlockDetector, new: DeadlockDetector, victims: Seq<TransactionId>) -> bool {
    exists|ds: Seq<DeadlockCycle>| #[trigger] resolved(old, new, ds, victims)
}

impl Default for DeadlockDetector {
    fn default() -> (r: Self)
        ensures
            r.inv(),
            r.graph().edge_map() == Map::<TransactionId, Seq<EdgeView>>::empty(),
            r.policy() == DeadlockResolutionPolicy::AbortYoungest,
            r.stats().total_deadlocks_detected == 0,
            r.stats().total_transactions_aborted == 0,
            r.stats().average_detection_time_us == 0,
    {
        Self::new(DeadlockResolutionPolicy::AbortYoungest, duration_from_millis(100), duration_from_secs(5))
    }
}

} // verus!
