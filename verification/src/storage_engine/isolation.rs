//! Transaction isolation levels: a page lock manager with shared and
//! exclusive locks and first-come waiting queues, and an enforcer that
//! combines locking with MVCC conflict checks per isolation level.
use vstd::prelude::*;

use crate::assoc_list::AssocList;
use crate::storage_engine::file_format::PageId;
use crate::storage_engine::lib::StorageResult;
use crate::storage_engine::mvcc::{MVCCManager, MVCCStatistics, Timestamp, has_write_conflict};
use crate::storage_engine::transaction::{IsolationLevel, TransactionId};

pub mod isolation_helpers;

verus! {

/// Lock type for concurrency control
#[derive(Debug, Clone, Copy, PartialEq, Eq, Structural)]
pub enum LockType {
    /// Shared lock for reading
    Shared,
    /// Exclusive lock for writing
    Exclusive,
}

/// Lock request information
#[derive(Debug, Clone, Copy)]
pub struct LockRequest {
    /// Transaction requesting the lock
    pub transaction_id: TransactionId,
    /// Type of lock requested
    pub lock_type: LockType,
    /// Page being locked
    pub page_id: PageId,
    /// Timestamp when lock was requested
    pub requested_at: Timestamp,
}

/// Lock grant information
#[derive(Debug, Clone, Copy)]
pub struct LockGrant {
    /// Transaction holding the lock
    pub transaction_id: TransactionId,
    /// Type of lock held
    pub lock_type: LockType,
    /// Timestamp when lock was granted
    pub granted_at: Timestamp,
}

/// A lock as the rules see it: who holds or wants it, and of which type.
pub type LockEntry = (TransactionId, LockType);

/// The rule for granting a lock of type `lt` to `txn` given the locks held
/// on the page: always when none is held; to a holder, a shared lock always
/// and an exclusive one only when it is the page's single holder; to others,
/// a shared lock when every held lock is shared, an exclusive one never.
pub open spec fn can_grant(cur: Seq<LockEntry>, txn: TransactionId, lt: LockType) -> bool {
    if cur.len() == 0 {
        true
    } else if exists|i: int| 0 <= i < cur.len() && #[trigger] cur[i].0 == txn {
        if lt == LockType::Exclusive {
            cur.len() == 1 && cur[0].0 == txn
        } else {
            true
        }
    } else {
        match lt {
            LockType::Shared => forall|i: int| 0 <= i < cur.len() ==> #[trigger] cur[i].1 == LockType::Shared,
            LockType::Exclusive => false,
        }
    }
}

/// Whether `txn` holds a lock on the page that covers `lt` (an exclusive
/// lock covers a shared one).
pub open spec fn holds(cur: Seq<LockEntry>, txn: TransactionId, lt: LockType) -> bool {
    exists|i: int|
        0 <= i < cur.len() && #[trigger] cur[i].0 == txn && (cur[i].1 == lt || (lt == LockType::Shared && cur[i].1
            == LockType::Exclusive))
}

/// Requests grantable against the locks `cur`.
pub open spec fn grantable_under(cur: Seq<LockEntry>) -> spec_fn(LockEntry) -> bool {
    |r: LockEntry| can_grant(cur, r.0, r.1)
}

/// Requests not grantable against the locks `cur`.
pub open spec fn blocked_under(cur: Seq<LockEntry>) -> spec_fn(LockEntry) -> bool {
    |r: LockEntry| !can_grant(cur, r.0, r.1)
}

/// Locks not held by `txn`.
pub open spec fn not_held_by(txn: TransactionId) -> spec_fn(LockEntry) -> bool {
    |g: LockEntry| g.0 != txn
}

/// The rule-level view of a grant.
pub open spec fn grant_view(g: LockGrant) -> LockEntry {
    (g.transaction_id, g.lock_type)
}

/// The rule-level view of a request.
pub open spec fn request_view(r: LockRequest) -> LockEntry {
    (r.transaction_id, r.lock_type)
}

/// The rule-level view of a list of grants.
pub open spec fn grant_views(s: Seq<LockGrant>) -> Seq<LockEntry> {
    s.map_values(|g: LockGrant| grant_view(g))
}

/// The rule-level view of a queue of requests.
pub open spec fn request_views(s: Seq<LockRequest>) -> Seq<LockEntry> {
    s.map_values(|r: LockRequest| request_view(r))
}

/// Lock manager for concurrency control
pub struct LockManager {
    /// Granted locks per page
    granted_locks: AssocList<PageId, Vec<LockGrant>>,
    /// Waiting lock requests
    waiting_requests: AssocList<PageId, Vec<LockRequest>>,
    /// Locks held by each transaction, as a list of distinct pages
    transaction_locks: AssocList<TransactionId, Vec<PageId>>,
}

impl LockManager {
    /// Granted locks of each page that has some.
    pub closed spec fn grant_map(&self) -> Map<PageId, Seq<LockEntry>> {
        Map::new(
            |p: PageId| self.granted_locks.view_map().contains_key(p),
            |p: PageId| grant_views(self.granted_locks.view_map()[p]@),
        )
    }

    /// Waiting requests of each page that has a queue, oldest first.
    pub closed spec fn wait_map(&self) -> Map<PageId, Seq<LockEntry>> {
        Map::new(
            |p: PageId| self.waiting_requests.view_map().contains_key(p),
            |p: PageId| request_views(self.waiting_requests.view_map()[p]@),
        )
    }

    /// Pages on which each lock-holding transaction holds locks.
    pub closed spec fn held_map(&self) -> Map<TransactionId, Set<PageId>> {
        Map::new(
            |t: TransactionId| self.transaction_locks.view_map().contains_key(t),
            |t: TransactionId| self.transaction_locks.view_map()[t]@.to_set(),
        )
    }

    /// Granted locks of page `p`.
    pub open spec fn grants_of(&self, p: PageId) -> Seq<LockEntry> {
        if self.grant_map().contains_key(p) {
            self.grant_map()[p]
        } else {
            Seq::empty()
        }
    }

    /// Waiting requests of page `p`.
    pub open spec fn waits_of(&self, p: PageId) -> Seq<LockEntry> {
        if self.wait_map().contains_key(p) {
            self.wait_map()[p]
        } else {
            Seq::empty()
        }
    }

    /// Pages locked by transaction `t`.
    pub open spec fn held_of(&self, t: TransactionId) -> Set<PageId> {
        if self.held_map().contains_key(t) {
            self.held_map()[t]
        } else {
            Set::empty()
        }
    }

    /// Well-formedness: keys are distinct and every holder's page list is
    /// non-empty and without repetition.
    pub closed spec fn inv(&self) -> bool {
        &&& self.granted_locks.wf()
        &&& self.waiting_requests.wf()
        &&& self.transaction_locks.wf()
        &&& forall|t: TransactionId| #[trigger] self.transaction_locks.view_map().contains_key(t)
            ==> self.transaction_locks.view_map()[t]@.len() > 0 && self.transaction_locks.view_map()[t]@.no_duplicates()
    }

    /// Create a new lock manager
    pub fn new() -> (r: Self)
        ensures
            r.inv(),
            r.grant_map() == Map::<PageId, Seq<LockEntry>>::empty(),
            r.wait_map() == Map::<PageId, Seq<LockEntry>>::empty(),
            r.held_map() == Map::<TransactionId, Set<PageId>>::empty(),
    {
        let r = Self {
            granted_locks: AssocList::new(),
            waiting_requests: AssocList::new(),
            transaction_locks: AssocList::new(),
        };
        assert(r.grant_map() =~= Map::<PageId, Seq<LockEntry>>::empty());
        assert(r.wait_map() =~= Map::<PageId, Seq<LockEntry>>::empty());
        assert(r.held_map() =~= Map::<TransactionId, Set<PageId>>::empty());
        r
    }

    /// Whether a lock can be granted against the locks `current_locks`.
    fn can_grant_lock(current_locks: &Vec<LockGrant>, txn_id: TransactionId, lock_type: LockType) -> (r: bool)
        ensures
            r == can_grant(grant_views(current_locks@), txn_id, lock_type),
    {
        let ghost cur = grant_views(current_locks@);
        if current_locks.len() == 0 {
            return true;
        }
        let mut held = false;
        let mut i: usize = 0;
        while i < current_locks.len()
            invariant
                i <= current_locks@.len(),
                cur == grant_views(current_locks@),
                held == exists|j: int| 0 <= j < i && #[trigger] cur[j].0 == txn_id,
            decreases current_locks@.len() - i,
        {
            assert(cur[i as int] == grant_view(current_locks@[i as int]));
            if current_locks[i].transaction_id == txn_id {
                held = true;
                assert(cur[i as int].0 == txn_id);
            } else {
                assert(cur[i as int].0 != txn_id);
            }
            i = i + 1;
        }
        if held {
            assert(cur[0] == grant_view(current_locks@[0]));
            if lock_type == LockType::Exclusive {
                return current_locks.len() == 1 && current_locks[0].transaction_id == txn_id;
            }
            return true;
        }
        match lock_type {
            LockType::Shared => {
                let mut all_shared = true;
                let mut i: usize = 0;
                while i < current_locks.len()
                    invariant
                        i <= current_locks@.len(),
                        cur == grant_views(current_locks@),
                        all_shared == forall|j: int| 0 <= j < i ==> #[trigger] cur[j].1 == LockType::Shared,
                    decreases current_locks@.len() - i,
                {
                    assert(cur[i as int] == grant_view(current_locks@[i as int]));
                    if current_locks[i].lock_type == LockType::Exclusive {
                        all_shared = false;
                        assert(cur[i as int].1 != LockType::Shared);
                    } else {
                        assert(cur[i as int].1 == LockType::Shared);
                    }
                    i = i + 1;
                }
                all_shared
            },
            LockType::Exclusive => false,
        }
    }

    /// Record that transaction `t` holds a lock on page `p`.
    fn add_held(&mut self, t: TransactionId, p: PageId)
        requires
            old(self).inv(),
        ensures
            final(self).inv(),
            final(self).granted_locks == old(self).granted_locks,
            final(self).waiting_requests == old(self).waiting_requests,
            final(self).grant_map() == old(self).grant_map(),
            final(self).wait_map() == old(self).wait_map(),
            final(self).held_map() == old(self).held_map().insert(t, old(self).held_of(t).insert(p)),
    {
        let mut pages = match self.transaction_locks.remove(&t) {
            Some(v) => v,
            None => Vec::new(),
        };
        let ghost before = pages@;
        let mut found = false;
        let mut i: usize = 0;
        while i < pages.len()
            invariant
                i <= pages@.len(),
                found == exists|j: int| 0 <= j < i && #[trigger] pages@[j] == p,
            decreases pages@.len() - i,
        {
            if pages[i].0 == p.0 {
                found = true;
            }
            i = i + 1;
        }
        if !found {
            pages.push(p);
        }
        proof {
            if !found {
                assert forall|a: int, b: int| 0 <= a < pages@.len() && 0 <= b < pages@.len() && a != b implies pages@[a]
                    != pages@[b] by {
                    if a < before.len() && b < before.len() {
                        assert(before[a] != before[b]);
                    }
                }
            }
            assert forall|x: PageId| pages@.to_set().contains(x) == before.to_set().insert(p).contains(x) by {
                if x == p {
                    if found {
                        let j = choose|j: int| 0 <= j < before.len() && #[trigger] before[j] == p;
                        assert(before.contains(p));
                    } else {
                        assert(pages@[pages@.len() - 1] == p);
                    }
                } else {
                    if pages@.contains(x) {
                        let j = choose|j: int| 0 <= j < pages@.len() && pages@[j] == x;
                        if !found {
                            assert(j < before.len());
                        }
                        assert(before[j] == x);
                    }
                    if before.contains(x) {
                        let j = choose|j: int| 0 <= j < before.len() && before[j] == x;
                        assert(pages@[j] == x);
                    }
                }
            }
            assert(pages@.to_set() =~= before.to_set().insert(p));
        }
        self.transaction_locks.insert(t, pages);
        proof {
            assert(self.transaction_locks.view_map() =~= old(self).transaction_locks.view_map().insert(t, pages));
            if !old(self).transaction_locks.view_map().contains_key(t) {
                assert(before.to_set() =~= Set::<PageId>::empty());
            }
            assert(self.held_map() =~= old(self).held_map().insert(t, old(self).held_of(t).insert(p)));
        }
    }

    /// Request a lock on a page: granted at once when the rule allows it,
    /// queued otherwise.
    pub fn request_lock(&mut self, txn_id: TransactionId, page_id: PageId, lock_type: LockType) -> (r: StorageResult<bool>)
        requires
            old(self).inv(),
        ensures
            final(self).inv(),
            r is Ok,
            r->Ok_0 == can_grant(old(self).grants_of(page_id), txn_id, lock_type),
            lock_requested(*old(self), *final(self), txn_id, page_id, lock_type),
    {
        let grantable = match self.granted_locks.get(&page_id) {
            Some(v) => {
                assert(grant_views(v@) =~= old(self).grants_of(page_id));
                Self::can_grant_lock(v, txn_id, lock_type)
            },
            None => true,
        };
        if grantable {
            let mut current = match self.granted_locks.remove(&page_id) {
                Some(v) => v,
                None => Vec::new(),
            };
            assert(grant_views(current@) =~= old(self).grants_of(page_id));
            let grant = LockGrant { transaction_id: txn_id, lock_type, granted_at: MVCCManager::current_timestamp() };
            current.push(grant);
            assert(grant_views(current@) =~= old(self).grants_of(page_id).push((txn_id, lock_type)));
            self.granted_locks.insert(page_id, current);
            proof {
                assert(self.grant_map() =~= old(self).grant_map().insert(
                    page_id,
                    old(self).grants_of(page_id).push((txn_id, lock_type)),
                ));
            }
            self.add_held(txn_id, page_id);
            Ok(true)
        } else {
            let request = LockRequest {
                transaction_id: txn_id,
                lock_type,
                page_id,
                requested_at: MVCCManager::current_timestamp(),
            };
            let mut queue = match self.waiting_requests.remove(&page_id) {
                Some(v) => v,
                None => Vec::new(),
            };
            assert(request_views(queue@) =~= old(self).waits_of(page_id));
            queue.push(request);
            assert(request_views(queue@) =~= old(self).waits_of(page_id).push((txn_id, lock_type)));
            self.waiting_requests.insert(page_id, queue);
            proof {
                assert(self.wait_map() =~= old(self).wait_map().insert(
                    page_id,
                    old(self).waits_of(page_id).push((txn_id, lock_type)),
                ));
            }
            Ok(false)
        }
    }

    /// Check if a transaction holds a specific type of lock on a page
    pub fn holds_lock(&self, txn_id: TransactionId, page_id: PageId, lock_type: LockType) -> (r: bool)
        requires
            self.inv(),
        ensures
            r == holds(self.grants_of(page_id), txn_id, lock_type),
    {
        match self.granted_locks.get(&page_id) {
            Some(locks) => {
                let ghost cur = grant_views(locks@);
                assert(cur == self.grants_of(page_id));
                let mut i: usize = 0;
                while i < locks.len()
                    invariant
                        i <= locks@.len(),
                        cur == grant_views(locks@),
                        cur == self.grants_of(page_id),
                        forall|j: int| 0 <= j < i ==> !(#[trigger] cur[j].0 == txn_id && (cur[j].1 == lock_type || (lock_type
                            == LockType::Shared && cur[j].1 == LockType::Exclusive))),
                    decreases locks@.len() - i,
                {
                    let l = &locks[i];
                    assert(cur[i as int] == grant_view(locks@[i as int]));
                    if l.transaction_id == txn_id && (l.lock_type == lock_type || (lock_type == LockType::Shared
                        && l.lock_type == LockType::Exclusive)) {
                        assert(cur[i as int].0 == txn_id);
                        return true;
                    }
                    i = i + 1;
                }
                false
            },
            None => false,
        }
    }
}

/// Locks of page `p` in `m` that remain when `txn` releases its own.
pub open spec fn remaining_grants(m: LockManager, p: PageId, txn: TransactionId) -> Seq<LockEntry> {
    m.grants_of(p).filter(not_held_by(txn))
}

/// The queued requests `q` taken in order against the locks `cur`: each is
/// granted when it is compatible with `cur` and the requests granted before
/// it, and otherwise keeps waiting. Gives the granted and the waiting ones.
pub open spec fn queue_outcome(cur: Seq<LockEntry>, q: Seq<LockEntry>) -> (Seq<LockEntry>, Seq<LockEntry>)
    decreases q.len(),
{
    if q.len() == 0 {
        (Seq::empty(), Seq::empty())
    } else {
        let (g, w) = queue_outcome(cur, q.drop_last());
        let r = q.last();
        if can_grant(cur + g, r.0, r.1) {
            (g.push(r), w)
        } else {
            (g, w.push(r))
        }
    }
}

/// Waiting requests of page `p` granted when `txn` releases its locks, in
/// queue order, each checked against the remaining locks and those granted
/// before it.
pub open spec fn newly_granted(m: LockManager, p: PageId, txn: TransactionId) -> Seq<LockEntry> {
    queue_outcome(remaining_grants(m, p, txn), m.waits_of(p)).0
}

/// Waiting requests of page `p` still waiting after `txn` releases its locks.
pub open spec fn still_waiting(m: LockManager, p: PageId, txn: TransactionId) -> Seq<LockEntry> {
    queue_outcome(remaining_grants(m, p, txn), m.waits_of(p)).1
}

/// Locks of page `p` after `txn` releases its locks.
pub open spec fn released_grants(m: LockManager, p: PageId, txn: TransactionId) -> Seq<LockEntry> {
    remaining_grants(m, p, txn) + newly_granted(m, p, txn)
}

/// Whether an exclusive lock in `s` is held alone: every lock on the page
/// belongs to the transaction that holds it exclusively.
pub open spec fn exclusive_alone(s: Seq<LockEntry>) -> bool {
    forall|i: int, j: int|
        0 <= i < s.len() && 0 <= j < s.len() && s[i].1 == LockType::Exclusive ==> (#[trigger] s[j]).0 == (#[trigger] s[i]).0
}

/// Lock compatibility: with no lock held anything is granted; an exclusive
/// lock is never granted while another transaction holds a lock on the page,
/// and is granted to the page's single holder; a shared lock is granted
/// when every held lock is shared, and (where an exclusive lock is held
/// alone) never while another transaction holds an exclusive lock.
pub proof fn lemma_lock_compatibility(cur: Seq<LockEntry>, txn: TransactionId, lt: LockType)
    ensures
        cur.len() == 0 ==> can_grant(cur, txn, lt),
        (exists|i: int| 0 <= i < cur.len() && (#[trigger] cur[i]).0 != txn) ==> !can_grant(cur, txn, LockType::Exclusive),
        cur.len() == 1 && cur[0].0 == txn ==> can_grant(cur, txn, lt),
        (forall|i: int| 0 <= i < cur.len() ==> (#[trigger] cur[i]).1 == LockType::Shared) ==> can_grant(
            cur,
            txn,
            LockType::Shared,
        ),
        exclusive_alone(cur) && can_grant(cur, txn, LockType::Shared) ==> forall|i: int|
            0 <= i < cur.len() && (#[trigger] cur[i]).0 != txn ==> cur[i].1 == LockType::Shared,
{
    if exists|i: int| 0 <= i < cur.len() && (#[trigger] cur[i]).0 != txn {
        let i = choose|i: int| 0 <= i < cur.len() && (#[trigger] cur[i]).0 != txn;
        if can_grant(cur, txn, LockType::Exclusive) {
            assert(cur.len() == 1 && cur[0].0 == txn);
            assert(i == 0);
        }
    }
    if cur.len() == 1 && cur[0].0 == txn {
        let z: int = 0;
        assert(cur[z].0 == txn);
    }
    if exclusive_alone(cur) && can_grant(cur, txn, LockType::Shared) {
        assert forall|i: int| 0 <= i < cur.len() && (#[trigger] cur[i]).0 != txn implies cur[i].1 == LockType::Shared by {
            if cur[i].1 == LockType::Exclusive {
                if exists|h: int| 0 <= h < cur.len() && #[trigger] cur[h].0 == txn {
                    let h = choose|h: int| 0 <= h < cur.len() && #[trigger] cur[h].0 == txn;
                    assert(cur[h].0 == cur[i].0);
                }
            }
        }
    }
}

/// Granting a lock by the rule keeps an exclusive lock alone.
pub proof fn lemma_grant_keeps_exclusive_alone(cur: Seq<LockEntry>, t: TransactionId, lt: LockType)
    requires
        exclusive_alone(cur),
        can_grant(cur, t, lt),
    ensures
        exclusive_alone(cur.push((t, lt))),
{
    let s = cur.push((t, lt));
    assert forall|i: int, j: int| 0 <= i < s.len() && 0 <= j < s.len() && s[i].1 == LockType::Exclusive implies (#[trigger] s[j]).0
        == (#[trigger] s[i]).0 by {
        if cur.len() > 0 {
            if lt == LockType::Exclusive && exists|k: int| 0 <= k < cur.len() && #[trigger] cur[k].0 == t {
                assert(cur.len() == 1 && cur[0].0 == t);
            }
            if i < cur.len() && j == cur.len() {
                if exists|k: int| 0 <= k < cur.len() && #[trigger] cur[k].0 == t {
                    let k = choose|k: int| 0 <= k < cur.len() && #[trigger] cur[k].0 == t;
                    assert(cur[k].0 == cur[i].0);
                } else {
                    assert(cur[i].1 == LockType::Shared);
                }
            }
            if i == cur.len() && j < cur.len() {
                assert(lt == LockType::Exclusive);
                assert(exists|k: int| 0 <= k < cur.len() && #[trigger] cur[k].0 == t);
            }
        }
    }
}

/// Taking queued requests by the rule keeps an exclusive lock alone.
proof fn lemma_queue_keeps_exclusive_alone(cur: Seq<LockEntry>, q: Seq<LockEntry>)
    requires
        exclusive_alone(cur),
    ensures
        exclusive_alone(cur + queue_outcome(cur, q).0),
    decreases q.len(),
{
    if q.len() > 0 {
        lemma_queue_keeps_exclusive_alone(cur, q.drop_last());
        let g = queue_outcome(cur, q.drop_last()).0;
        let r = q.last();
        if can_grant(cur + g, r.0, r.1) {
            lemma_grant_keeps_exclusive_alone(cur + g, r.0, r.1);
            assert(cur + g.push(r) =~= (cur + g).push((r.0, r.1)));
        }
    }
}

/// Dropping locks keeps an exclusive lock alone.
proof fn lemma_filter_keeps_exclusive_alone(s: Seq<LockEntry>, p: spec_fn(LockEntry) -> bool)
    requires
        exclusive_alone(s),
    ensures
        exclusive_alone(s.filter(p)),
{
    let t = s.filter(p);
    crate::seq_util::lemma_filter_sub(s, p);
    assert forall|i: int, j: int| 0 <= i < t.len() && 0 <= j < t.len() && t[i].1 == LockType::Exclusive implies (#[trigger] t[j]).0
        == (#[trigger] t[i]).0 by {
        assert(s.contains(t[i]));
        assert(s.contains(t[j]));
        let a = choose|a: int| 0 <= a < s.len() && s[a] == t[i];
        let b = choose|b: int| 0 <= b < s.len() && s[b] == t[j];
        assert(s[b].0 == s[a].0);
    }
}

/// Releasing a transaction's locks on a page keeps an exclusive lock held
/// alone: when it was so before the release, it is so for the locks that
/// remain together with those granted from the queue.
pub proof fn lemma_release_keeps_exclusive_alone(m: LockManager, p: PageId, txn: TransactionId)
    requires
        exclusive_alone(m.grants_of(p)),
    ensures
        exclusive_alone(released_grants(m, p, txn)),
{
    lemma_filter_keeps_exclusive_alone(m.grants_of(p), not_held_by(txn));
    lemma_queue_keeps_exclusive_alone(remaining_grants(m, p, txn), m.waits_of(p));
}

/// Whether transaction `t` has an entry in `s`.
pub open spec fn granted_to(s: Seq<LockEntry>, t: TransactionId) -> bool {
    exists|i: int| 0 <= i < s.len() && #[trigger] s[i].0 == t
}

/// Sum of the lengths of the grant lists.
pub open spec fn sum_grant_lens(s: Seq<(PageId, Vec<LockGrant>)>) -> int
    decreases s.len(),
{
    if s.len() == 0 {
        0
    } else {
        sum_grant_lens(s.drop_last()) + s.last().1@.len()
    }
}

/// Sum of the lengths of the request queues.
pub open spec fn sum_queue_lens(s: Seq<(PageId, Vec<LockRequest>)>) -> int
    decreases s.len(),
{
    if s.len() == 0 {
        0
    } else {
        sum_queue_lens(s.drop_last()) + s.last().1@.len()
    }
}

/// `new` is `old` after transaction `txn` released all its locks: on every
/// page it held, its locks are gone and the waiting requests that the
/// remaining locks allow are granted in queue order; elsewhere nothing changed.
pub open spec fn locks_released(old: LockManager, new: LockManager, txn_id: TransactionId) -> bool {
    let pages = old.held_of(txn_id);
    &&& forall|p: PageId| #[trigger] new.grant_map().contains_key(p) == if pages.contains(p) {
        released_grants(old, p, txn_id).len() > 0
    } else {
        old.grant_map().contains_key(p)
    }
    &&& forall|p: PageId| #[trigger] new.grants_of(p) == if pages.contains(p) {
        released_grants(old, p, txn_id)
    } else {
        old.grants_of(p)
    }
    &&& forall|p: PageId| #[trigger] new.wait_map().contains_key(p) == if pages.contains(p) {
        old.wait_map().contains_key(p) && !(newly_granted(old, p, txn_id).len() > 0 && still_waiting(old, p, txn_id).len() == 0)
    } else {
        old.wait_map().contains_key(p)
    }
    &&& forall|p: PageId| #[trigger] new.waits_of(p) == if pages.contains(p) {
        still_waiting(old, p, txn_id)
    } else {
        old.waits_of(p)
    }
    &&& forall|t: TransactionId| #[trigger] new.held_map().contains_key(t) == ((t != txn_id && old.held_map().contains_key(t))
        || exists|p: PageId| pages.contains(p) && #[trigger] granted_to(newly_granted(old, p, txn_id), t))
    &&& forall|t: TransactionId| #[trigger] new.held_of(t) == (if t == txn_id {
        Set::<PageId>::empty()
    } else {
        old.held_of(t)
    }).union(Set::new(|p: PageId| pages.contains(p) && granted_to(newly_granted(old, p, txn_id), t)))
}

/// `new` is `old` after `txn` requested a lock of type `lt` on page `p`:
/// granted and recorded when the rule allows it, queued otherwise.
pub open spec fn lock_requested(old: LockManager, new: LockManager, txn: TransactionId, p: PageId, lt: LockType) -> bool {
    if can_grant(old.grants_of(p), txn, lt) {
        &&& new.grant_map() == old.grant_map().insert(p, old.grants_of(p).push((txn, lt)))
        &&& new.wait_map() == old.wait_map()
        &&& new.held_map() == old.held_map().insert(txn, old.held_of(txn).insert(p))
    } else {
        &&& new.wait_map() == old.wait_map().insert(p, old.waits_of(p).push((txn, lt)))
        &&& new.grant_map() == old.grant_map()
        &&& new.held_map() == old.held_map()
    }
}

/// Statistics about the lock manager
#[derive(Debug, Clone, Copy)]
pub struct LockStatistics {
    /// Total number of granted locks
    pub total_granted_locks: usize,
    /// Total number of waiting lock requests
    pub total_waiting_requests: usize,
    /// Number of pages with locks
    pub pages_with_locks: usize,
    /// Number of transactions holding locks
    pub active_lock_holders: usize,
}

impl LockManager {
    /// Release the locks of `txn_id` on one page and grant, in queue order,
    /// the waiting requests that the remaining locks allow.
    fn release_page(&mut self, page_id: PageId, txn_id: TransactionId)
        requires
            old(self).inv(),
        ensures
            final(self).inv(),
            ({
                let rg = released_grants(*old(self), page_id, txn_id);
                let ng = newly_granted(*old(self), page_id, txn_id);
                let sw = still_waiting(*old(self), page_id, txn_id);
                &&& final(self).grant_map() == if rg.len() > 0 {
                    old(self).grant_map().insert(page_id, rg)
                } else {
                    old(self).grant_map().remove(page_id)
                }
                &&& final(self).wait_map() == if !old(self).wait_map().contains_key(page_id) {
                    old(self).wait_map()
                } else if ng.len() > 0 && sw.len() == 0 {
                    old(self).wait_map().remove(page_id)
                } else {
                    old(self).wait_map().insert(page_id, sw)
                }
                &&& forall|t: TransactionId| #[trigger] final(self).held_map().contains_key(t) == (old(self).held_map().contains_key(t)
                    || granted_to(ng, t))
                &&& forall|t: TransactionId| #[trigger] final(self).held_of(t) == if granted_to(ng, t) {
                    old(self).held_of(t).insert(page_id)
                } else {
                    old(self).held_of(t)
                }
            }),
    {
        let ghost m0 = *self;
        let ghost p_rem = not_held_by(txn_id);
        let mut rem: Vec<LockGrant> = Vec::new();
        match self.granted_locks.remove(&page_id) {
            Some(v) => {
                let ghost gv = grant_views(v@);
                assert(gv == m0.grants_of(page_id));
                let mut i: usize = 0;
                while i < v.len()
                    invariant
                        i <= v@.len(),
                        gv == grant_views(v@),
                        grant_views(rem@) == gv.take(i as int).filter(p_rem),
                        p_rem == not_held_by(txn_id),
                    decreases v@.len() - i,
                {
                    proof {
                        crate::seq_util::lemma_filter_take(gv, i as int, p_rem);
                    }
                    assert(gv[i as int] == grant_view(v@[i as int]));
                    if v[i].transaction_id != txn_id {
                        rem.push(v[i]);
                        assert(grant_views(rem@) =~= gv.take(i + 1).filter(p_rem));
                    }
                    i = i + 1;
                }
                assert(gv.take(gv.len() as int) =~= gv);
            },
            None => {
                assert(grant_views(rem@) =~= Seq::<LockEntry>::empty().filter(p_rem));
            },
        }
        let ghost rv_rem = grant_views(rem@);
        assert(rv_rem == remaining_grants(m0, page_id, txn_id));
        let had_queue = self.waiting_requests.contains_key(&page_id);
        let queue = match self.waiting_requests.remove(&page_id) {
            Some(q) => q,
            None => Vec::new(),
        };
        let ghost qv = request_views(queue@);
        assert(qv =~= m0.waits_of(page_id));
        let ghost m1 = *self;
        let mut added: Vec<LockGrant> = Vec::new();
        let mut still: Vec<LockRequest> = Vec::new();
        let mut all_grants = rem;
        let mut i: usize = 0;
        while i < queue.len()
            invariant
                i <= queue@.len(),
                self.inv(),
                qv == request_views(queue@),
                grant_views(added@) == queue_outcome(rv_rem, qv.take(i as int)).0,
                request_views(still@) == queue_outcome(rv_rem, qv.take(i as int)).1,
                grant_views(all_grants@) == rv_rem + grant_views(added@),
                self.granted_locks == m1.granted_locks,
                self.waiting_requests == m1.waiting_requests,
                forall|t: TransactionId| #[trigger] self.held_map().contains_key(t) == (m1.held_map().contains_key(t)
                    || granted_to(queue_outcome(rv_rem, qv.take(i as int)).0, t)),
                forall|t: TransactionId| #[trigger] self.held_of(t) == if granted_to(queue_outcome(rv_rem, qv.take(i as int)).0, t) {
                    m1.held_of(t).insert(page_id)
                } else {
                    m1.held_of(t)
                },
            decreases queue@.len() - i,
        {
            proof {
                assert(qv.take(i + 1).drop_last() =~= qv.take(i as int));
                assert(qv.take(i + 1).last() == qv[i as int]);
            }
            let r = queue[i];
            assert(qv[i as int] == request_view(r));
            let ghost before_f = queue_outcome(rv_rem, qv.take(i as int)).0;
            let ghost h = *self;
            if Self::can_grant_lock(&all_grants, r.transaction_id, r.lock_type) {
                let g = LockGrant { transaction_id: r.transaction_id, lock_type: r.lock_type, granted_at: MVCCManager::current_timestamp() };
                let ghost pa = added@;
                let ghost pall = all_grants@;
                added.push(g);
                all_grants.push(g);
                assert(grant_views(added@) =~= grant_views(pa).push(grant_view(g)));
                assert(grant_views(all_grants@) =~= grant_views(pall).push(grant_view(g)));
                assert(grant_views(all_grants@) =~= rv_rem + grant_views(added@));
                self.add_held(r.transaction_id, page_id);
                proof {
                    let after_f = queue_outcome(rv_rem, qv.take(i + 1)).0;
                    assert(after_f == before_f.push(request_view(r)));
                    assert forall|t: TransactionId| granted_to(after_f, t) == (granted_to(before_f, t) || t == r.transaction_id) by {
                        if granted_to(before_f, t) {
                            let j = choose|j: int| 0 <= j < before_f.len() && #[trigger] before_f[j].0 == t;
                            assert(after_f[j] == before_f[j]);
                        }
                        if t == r.transaction_id {
                            assert(after_f[before_f.len() as int].0 == t);
                        }
                        if granted_to(after_f, t) {
                            let j = choose|j: int| 0 <= j < after_f.len() && #[trigger] after_f[j].0 == t;
                            if j < before_f.len() {
                                assert(before_f[j] == after_f[j]);
                            }
                        }
                    }
                    assert forall|t: TransactionId| #[trigger] self.held_of(t) == if granted_to(after_f, t) {
                        m1.held_of(t).insert(page_id)
                    } else {
                        m1.held_of(t)
                    } by {
                        if t == r.transaction_id {
                            assert(self.held_map().contains_key(t));
                            assert(self.held_of(t) == h.held_of(t).insert(page_id));
                            if granted_to(before_f, t) {
                                assert(m1.held_of(t).insert(page_id).insert(page_id) =~= m1.held_of(t).insert(page_id));
                            }
                        } else {
                            if h.held_map().contains_key(t) {
                                assert(self.held_of(t) == h.held_of(t));
                            } else {
                                assert(!self.held_map().contains_key(t));
                            }
                        }
                    }
                }
            } else {
                let ghost ps = still@;
                still.push(r);
                assert(request_views(still@) =~= request_views(ps).push(request_view(r)));
            }
            i = i + 1;
        }
        assert(qv.take(qv.len() as int) =~= qv);
        let any_granted = added.len() > 0;
        let ghost m2 = *self;
        if all_grants.len() > 0 {
            self.granted_locks.insert(page_id, all_grants);
        }
        proof {
            if grant_views(all_grants@).len() > 0 {
                assert(self.grant_map() =~= m0.grant_map().insert(page_id, released_grants(m0, page_id, txn_id)));
            } else {
                assert(self.grant_map() =~= m0.grant_map().remove(page_id));
            }
        }
        if had_queue {
            if any_granted && still.len() == 0 {
            } else {
                self.waiting_requests.insert(page_id, still);
            }
        }
        proof {
            assert(newly_granted(m0, page_id, txn_id) == grant_views(added@));
            assert(still_waiting(m0, page_id, txn_id) == request_views(still@));
            if !had_queue {
                assert(self.wait_map() =~= m0.wait_map());
            } else if any_granted && still@.len() == 0 {
                assert(self.wait_map() =~= m0.wait_map().remove(page_id));
            } else {
                assert(self.wait_map() =~= m0.wait_map().insert(page_id, still_waiting(m0, page_id, txn_id)));
            }
            assert forall|t: TransactionId| #[trigger] self.held_map().contains_key(t) == (m0.held_map().contains_key(t)
                || granted_to(newly_granted(m0, page_id, txn_id), t)) by {
                assert(self.held_map().contains_key(t) == m2.held_map().contains_key(t));
            }
            assert forall|t: TransactionId| #[trigger] self.held_of(t) == if granted_to(newly_granted(m0, page_id, txn_id), t) {
                m0.held_of(t).insert(page_id)
            } else {
                m0.held_of(t)
            } by {
                assert(self.held_of(t) == m2.held_of(t));
            }
        }
    }
}

impl LockManager {
    /// Release all locks held by a transaction; on each page it held, the
    /// waiting requests that the remaining locks allow are granted.
    pub fn release_transaction_locks(&mut self, txn_id: TransactionId) -> (r: StorageResult<()>)
        requires
            old(self).inv(),
        ensures
            final(self).inv(),
            r is Ok,
            locks_released(*old(self), *final(self), txn_id),
    {
        let ghost m = *self;
        let pages = match self.transaction_locks.remove(&txn_id) {
            Some(v) => v,
            None => Vec::new(),
        };
        let ghost ps = pages@;
        proof {
            if m.transaction_locks.view_map().contains_key(txn_id) {
                assert(ps.no_duplicates());
            }
            assert(ps.to_set() =~= m.held_of(txn_id));
            assert(ps.take(0).to_set() =~= Set::<PageId>::empty());
            assert forall|t: TransactionId| #[trigger] self.held_of(t) == (if t == txn_id {
                Set::<PageId>::empty()
            } else {
                m.held_of(t)
            }).union(Set::new(|p: PageId| ps.take(0).to_set().contains(p) && granted_to(newly_granted(m, p, txn_id), t))) by {
                assert((if t == txn_id {
                    Set::<PageId>::empty()
                } else {
                    m.held_of(t)
                }).union(Set::new(|p: PageId| ps.take(0).to_set().contains(p) && granted_to(newly_granted(m, p, txn_id), t)))
                    =~= (if t == txn_id {
                    Set::<PageId>::empty()
                } else {
                    m.held_of(t)
                }));
            }
        }
        let mut i: usize = 0;
        while i < pages.len()
            invariant
                i <= ps.len(),
                ps == pages@,
                ps.no_duplicates(),
                self.inv(),
                forall|p: PageId| #[trigger] self.grant_map().contains_key(p) == if ps.take(i as int).to_set().contains(p) {
                    released_grants(m, p, txn_id).len() > 0
                } else {
                    m.grant_map().contains_key(p)
                },
                forall|p: PageId| #[trigger] self.grants_of(p) == if ps.take(i as int).to_set().contains(p) {
                    released_grants(m, p, txn_id)
                } else {
                    m.grants_of(p)
                },
                forall|p: PageId| #[trigger] self.wait_map().contains_key(p) == if ps.take(i as int).to_set().contains(p) {
                    m.wait_map().contains_key(p) && !(newly_granted(m, p, txn_id).len() > 0 && still_waiting(m, p, txn_id).len() == 0)
                } else {
                    m.wait_map().contains_key(p)
                },
                forall|p: PageId| #[trigger] self.waits_of(p) == if ps.take(i as int).to_set().contains(p) {
                    still_waiting(m, p, txn_id)
                } else {
                    m.waits_of(p)
                },
                forall|t: TransactionId| #[trigger] self.held_map().contains_key(t) == ((t != txn_id && m.held_map().contains_key(t))
                    || exists|p: PageId| ps.take(i as int).to_set().contains(p) && #[trigger] granted_to(newly_granted(m, p, txn_id), t)),
                forall|t: TransactionId| #[trigger] self.held_of(t) == (if t == txn_id {
                    Set::<PageId>::empty()
                } else {
                    m.held_of(t)
                }).union(Set::new(|p: PageId| ps.take(i as int).to_set().contains(p) && granted_to(newly_granted(m, p, txn_id), t))),
            decreases ps.len() - i,
        {
            let p = pages[i];
            let ghost before = *self;
            let ghost q0 = ps.take(i as int).to_set();
            let ghost q1 = ps.take(i + 1).to_set();
            proof {
                assert(q1 =~= q0.insert(p)) by {
                    assert forall|x: PageId| q1.contains(x) == q0.insert(p).contains(x) by {
                        if q1.contains(x) {
                            let j = choose|j: int| 0 <= j < ps.take(i + 1).len() && #[trigger] ps.take(i + 1)[j] == x;
                            if j < i {
                                assert(ps.take(i as int)[j] == x);
                            }
                        }
                        if q0.contains(x) {
                            let j = choose|j: int| 0 <= j < ps.take(i as int).len() && #[trigger] ps.take(i as int)[j] == x;
                            assert(ps.take(i + 1)[j] == x);
                        }
                        if x == p {
                            assert(ps.take(i + 1)[i as int] == x);
                        }
                    }
                }
                assert(!q0.contains(p)) by {
                    if q0.contains(p) {
                        let j = choose|j: int| 0 <= j < ps.take(i as int).len() && #[trigger] ps.take(i as int)[j] == p;
                        assert(ps[j] == ps[i as int]);
                    }
                }
                assert(remaining_grants(before, p, txn_id) == remaining_grants(m, p, txn_id));
                assert(before.waits_of(p) == m.waits_of(p));
                assert(newly_granted(before, p, txn_id) == newly_granted(m, p, txn_id));
                assert(still_waiting(before, p, txn_id) == still_waiting(m, p, txn_id));
            }
            self.release_page(p, txn_id);
            proof {
                let ng = newly_granted(m, p, txn_id);
                assert forall|x: PageId| #[trigger] self.grant_map().contains_key(x) == if q1.contains(x) {
                    released_grants(m, x, txn_id).len() > 0
                } else {
                    m.grant_map().contains_key(x)
                } by {
                    if x != p {
                        assert(self.grant_map().contains_key(x) == before.grant_map().contains_key(x));
                    }
                }
                assert forall|x: PageId| #[trigger] self.grants_of(x) == if q1.contains(x) {
                    released_grants(m, x, txn_id)
                } else {
                    m.grants_of(x)
                } by {
                    if x != p {
                        assert(self.grant_map().contains_key(x) == before.grant_map().contains_key(x));
                        assert(self.grants_of(x) == before.grants_of(x));
                    }
                }
                assert forall|x: PageId| #[trigger] self.wait_map().contains_key(x) == if q1.contains(x) {
                    m.wait_map().contains_key(x) && !(newly_granted(m, x, txn_id).len() > 0 && still_waiting(m, x, txn_id).len() == 0)
                } else {
                    m.wait_map().contains_key(x)
                } by {
                    if x != p {
                        assert(self.wait_map().contains_key(x) == before.wait_map().contains_key(x));
                    } else {
                        assert(before.wait_map().contains_key(p) == m.wait_map().contains_key(p));
                    }
                }
                assert forall|x: PageId| #[trigger] self.waits_of(x) == if q1.contains(x) {
                    still_waiting(m, x, txn_id)
                } else {
                    m.waits_of(x)
                } by {
                    if x != p {
                        assert(self.wait_map().contains_key(x) == before.wait_map().contains_key(x));
                        assert(self.waits_of(x) == before.waits_of(x));
                    } else {
                        if !before.wait_map().contains_key(p) {
                            assert(m.waits_of(p) =~= Seq::<LockEntry>::empty());
                            assert(still_waiting(m, p, txn_id) =~= Seq::<LockEntry>::empty());
                        }
                    }
                }
                assert forall|t: TransactionId| #[trigger] self.held_map().contains_key(t) == ((t != txn_id && m.held_map().contains_key(t))
                    || exists|y: PageId| q1.contains(y) && #[trigger] granted_to(newly_granted(m, y, txn_id), t)) by {
                    if granted_to(ng, t) {
                        assert(q1.contains(p));
                    }
                    if exists|y: PageId| q1.contains(y) && #[trigger] granted_to(newly_granted(m, y, txn_id), t) {
                        let y = choose|y: PageId| q1.contains(y) && #[trigger] granted_to(newly_granted(m, y, txn_id), t);
                        if y != p {
                            assert(q0.contains(y));
                        }
                    }
                    if exists|y: PageId| q0.contains(y) && #[trigger] granted_to(newly_granted(m, y, txn_id), t) {
                        let y = choose|y: PageId| q0.contains(y) && #[trigger] granted_to(newly_granted(m, y, txn_id), t);
                        assert(q1.contains(y));
                    }
                }
                assert forall|t: TransactionId| #[trigger] self.held_of(t) == (if t == txn_id {
                    Set::<PageId>::empty()
                } else {
                    m.held_of(t)
                }).union(Set::new(|y: PageId| q1.contains(y) && granted_to(newly_granted(m, y, txn_id), t))) by {
                    let base = if t == txn_id {
                        Set::<PageId>::empty()
                    } else {
                        m.held_of(t)
                    };
                    let s0 = Set::new(|y: PageId| q0.contains(y) && granted_to(newly_granted(m, y, txn_id), t));
                    let s1 = Set::new(|y: PageId| q1.contains(y) && granted_to(newly_granted(m, y, txn_id), t));
                    assert(before.held_of(t) == base.union(s0));
                    if granted_to(ng, t) {
                        assert(s1 =~= s0.insert(p));
                        assert(base.union(s0).insert(p) =~= base.union(s1));
                    } else {
                        assert(s1 =~= s0);
                    }
                }
            }
            i = i + 1;
        }
        assert(ps.take(ps.len() as int) =~= ps);
        Ok(())
    }

    /// Get all transactions waiting for locks, each once.
    pub fn get_waiting_transactions(&self) -> (r: Vec<TransactionId>)
        requires
            self.inv(),
        ensures
            r@.no_duplicates(),
            forall|t: TransactionId| #[trigger] r@.contains(t) <==> exists|p: PageId|
                #[trigger] self.wait_map().contains_key(p) && granted_to(self.wait_map()[p], t),
    {
        let ghost es = self.waiting_requests.entries@;
        let mut r: Vec<TransactionId> = Vec::new();
        let mut i: usize = 0;
        while i < self.waiting_requests.entries.len()
            invariant
                i <= es.len(),
                es == self.waiting_requests.entries@,
                r@.no_duplicates(),
                forall|t: TransactionId| #[trigger] r@.contains(t) <==> exists|k: int, j: int|
                    0 <= k < i && 0 <= j < es[k].1@.len() && #[trigger] es[k].1@[j].transaction_id == t,
            decreases es.len() - i,
        {
            let queue = &self.waiting_requests.entries[i].1;
            let mut j: usize = 0;
            while j < queue.len()
                invariant
                    i < es.len(),
                    j <= queue@.len(),
                    queue@ == es[i as int].1@,
                    r@.no_duplicates(),
                    forall|t: TransactionId| #[trigger] r@.contains(t) <==> (exists|k: int, l: int|
                        0 <= k < i && 0 <= l < es[k].1@.len() && #[trigger] es[k].1@[l].transaction_id == t) || (exists|l: int|
                        0 <= l < j && #[trigger] queue@[l].transaction_id == t),
                decreases queue@.len() - j,
            {
                let t = queue[j].transaction_id;
                let mut seen = false;
                let mut k: usize = 0;
                while k < r.len()
                    invariant
                        k <= r@.len(),
                        seen == r@.take(k as int).contains(t),
                    decreases r@.len() - k,
                {
                    assert(r@.take(k + 1) =~= r@.take(k as int).push(r@[k as int]));
                    proof {
                        let a = r@.take(k as int);
                        let b = r@.take(k + 1);
                        if b.contains(t) {
                            let q = choose|q: int| 0 <= q < b.len() && #[trigger] b[q] == t;
                            if q < k {
                                assert(a[q] == t);
                            }
                        }
                        if a.contains(t) {
                            let q = choose|q: int| 0 <= q < a.len() && #[trigger] a[q] == t;
                            assert(b[q] == t);
                        }
                        if r@[k as int] == t {
                            assert(b[k as int] == t);
                        }
                    }
                    if r[k] == t {
                        seen = true;
                    }
                    k = k + 1;
                }
                assert(r@.take(r@.len() as int) =~= r@);
                let ghost r0 = r@;
                if !seen {
                    r.push(t);
                }
                proof {
                    assert forall|x: TransactionId| r@.contains(x) == (r0.contains(x) || x == t) by {
                        if seen {
                            assert(r@ == r0);
                        } else {
                            if r@.contains(x) {
                                let q = choose|q: int| 0 <= q < r@.len() && #[trigger] r@[q] == x;
                                if q < r0.len() {
                                    assert(r0[q] == x);
                                }
                            }
                            if r0.contains(x) {
                                let q = choose|q: int| 0 <= q < r0.len() && #[trigger] r0[q] == x;
                                assert(r@[q] == x);
                            }
                            if x == t {
                                assert(r@[r0.len() as int] == x);
                            }
                        }
                    }
                    assert forall|x: TransactionId| #[trigger] r@.contains(x) <==> (exists|k: int, l: int|
                        0 <= k < i && 0 <= l < es[k].1@.len() && #[trigger] es[k].1@[l].transaction_id == x) || (exists|l: int|
                        0 <= l < j + 1 && #[trigger] queue@[l].transaction_id == x) by {
                        assert(r0.contains(x) <==> (exists|k: int, l: int|
                            0 <= k < i && 0 <= l < es[k].1@.len() && #[trigger] es[k].1@[l].transaction_id == x) || (exists|l: int|
                            0 <= l < j && #[trigger] queue@[l].transaction_id == x));
                        if x == t {
                            assert(queue@[j as int].transaction_id == x);
                        }
                        if exists|l: int| 0 <= l < j + 1 && #[trigger] queue@[l].transaction_id == x {
                            let l = choose|l: int| 0 <= l < j + 1 && #[trigger] queue@[l].transaction_id == x;
                            if l < j {
                                assert(exists|l: int| 0 <= l < j && #[trigger] queue@[l].transaction_id == x);
                            }
                        }
                    }
                }
                j = j + 1;
            }
            proof {
                assert forall|x: TransactionId| #[trigger] r@.contains(x) <==> exists|k: int, l: int|
                    0 <= k < i + 1 && 0 <= l < es[k].1@.len() && #[trigger] es[k].1@[l].transaction_id == x by {
                    if exists|l: int| 0 <= l < queue@.len() && #[trigger] queue@[l].transaction_id == x {
                        let l = choose|l: int| 0 <= l < queue@.len() && #[trigger] queue@[l].transaction_id == x;
                        assert(es[i as int].1@[l].transaction_id == x);
                    }
                    if exists|k: int, l: int| 0 <= k < i + 1 && 0 <= l < es[k].1@.len() && #[trigger] es[k].1@[l].transaction_id == x {
                        let (k, l) = choose|k: int, l: int| 0 <= k < i + 1 && 0 <= l < es[k].1@.len() && #[trigger] es[k].1@[l].transaction_id == x;
                        if k == i {
                            assert(queue@[l].transaction_id == x);
                        }
                    }
                }
            }
            i = i + 1;
        }
        proof {
            assert forall|t: TransactionId| #[trigger] r@.contains(t) <==> exists|p: PageId|
                #[trigger] self.wait_map().contains_key(p) && granted_to(self.wait_map()[p], t) by {
                if r@.contains(t) {
                    let (k, l) = choose|k: int, l: int| 0 <= k < es.len() && 0 <= l < es[k].1@.len() && #[trigger] es[k].1@[l].transaction_id == t;
                    crate::assoc_list::lemma_distinct_last_index(es, k);
                    let p = es[k].0;
                    assert(self.wait_map().contains_key(p));
                    assert(self.wait_map()[p][l].0 == t);
                }
                if exists|p: PageId| #[trigger] self.wait_map().contains_key(p) && granted_to(self.wait_map()[p], t) {
                    let p = choose|p: PageId| #[trigger] self.wait_map().contains_key(p) && granted_to(self.wait_map()[p], t);
                    crate::assoc_list::lemma_map_of_contains(es, p);
                    let k = choose|k: int| 0 <= k < es.len() && #[trigger] es[k].0@ == p;
                    crate::assoc_list::lemma_distinct_last_index(es, k);
                    let l = choose|l: int| 0 <= l < self.wait_map()[p].len() && #[trigger] self.wait_map()[p][l].0 == t;
                    assert(es[k].1@[l].transaction_id == t);
                }
            }
        }
        r
    }

    /// Total number of granted locks.
    pub closed spec fn total_granted(&self) -> int {
        sum_grant_lens(self.granted_locks.entries@)
    }

    /// Total number of waiting requests.
    pub closed spec fn total_waiting(&self) -> int {
        sum_queue_lens(self.waiting_requests.entries@)
    }

    /// Get lock statistics
    pub fn get_statistics(&self) -> (r: LockStatistics)
        requires
            self.inv(),
            self.total_granted() <= usize::MAX,
            self.total_waiting() <= usize::MAX,
        ensures
            r.total_granted_locks == self.total_granted(),
            r.total_waiting_requests == self.total_waiting(),
            r.pages_with_locks == self.grant_map().len(),
            r.active_lock_holders == self.held_map().len(),
    {
        let ghost gs = self.granted_locks.entries@;
        let ghost ws = self.waiting_requests.entries@;
        proof {
            lemma_sum_grant_prefix(gs);
            lemma_sum_queue_prefix(ws);
        }
        let mut granted: usize = 0;
        let mut i: usize = 0;
        while i < self.granted_locks.entries.len()
            invariant
                i <= gs.len(),
                gs == self.granted_locks.entries@,
                sum_grant_lens(gs) <= usize::MAX,
                forall|k: int| 0 <= k <= gs.len() ==> sum_grant_lens(#[trigger] gs.take(k)) <= sum_grant_lens(gs),
                granted == sum_grant_lens(gs.take(i as int)),
            decreases gs.len() - i,
        {
            assert(gs.take(i + 1).drop_last() =~= gs.take(i as int));
            assert(gs.take(i + 1).last() == gs[i as int]);
            granted = granted + self.granted_locks.entries[i].1.len();
            i = i + 1;
        }
        assert(gs.take(gs.len() as int) =~= gs);
        let mut waiting: usize = 0;
        let mut i: usize = 0;
        while i < self.waiting_requests.entries.len()
            invariant
                i <= ws.len(),
                ws == self.waiting_requests.entries@,
                sum_queue_lens(ws) <= usize::MAX,
                forall|k: int| 0 <= k <= ws.len() ==> sum_queue_lens(#[trigger] ws.take(k)) <= sum_queue_lens(ws),
                waiting == sum_queue_lens(ws.take(i as int)),
            decreases ws.len() - i,
        {
            assert(ws.take(i + 1).drop_last() =~= ws.take(i as int));
            assert(ws.take(i + 1).last() == ws[i as int]);
            waiting = waiting + self.waiting_requests.entries[i].1.len();
            i = i + 1;
        }
        assert(ws.take(ws.len() as int) =~= ws);
        assert(self.grant_map().dom() =~= self.granted_locks.view_map().dom());
        assert(self.held_map().dom() =~= self.transaction_locks.view_map().dom());
        LockStatistics {
            total_granted_locks: granted,
            total_waiting_requests: waiting,
            pages_with_locks: self.granted_locks.len(),
            active_lock_holders: self.transaction_locks.len(),
        }
    }
}

impl Default for LockManager {
    fn default() -> (r: Self)
        ensures
            r.inv(),
            r.grant_map() == Map::<PageId, Seq<LockEntry>>::empty(),
            r.wait_map() == Map::<PageId, Seq<LockEntry>>::empty(),
            r.held_map() == Map::<TransactionId, Set<PageId>>::empty(),
    {
        Self::new()
    }
}

proof fn lemma_sum_grant_prefix(s: Seq<(PageId, Vec<LockGrant>)>)
    ensures
        forall|k: int| 0 <= k <= s.len() ==> sum_grant_lens(#[trigger] s.take(k)) <= sum_grant_lens(s),
    decreases s.len(),
{
    if s.len() > 0 {
        lemma_sum_grant_prefix(s.drop_last());
        assert forall|k: int| 0 <= k <= s.len() implies sum_grant_lens(#[trigger] s.take(k)) <= sum_grant_lens(s) by {
            if k == s.len() {
                assert(s.take(k) =~= s);
            } else {
                assert(s.take(k) =~= s.drop_last().take(k));
            }
        }
    }
}

proof fn lemma_sum_queue_prefix(s: Seq<(PageId, Vec<LockRequest>)>)
    ensures
        forall|k: int| 0 <= k <= s.len() ==> sum_queue_lens(#[trigger] s.take(k)) <= sum_queue_lens(s),
    decreases s.len(),
{
    if s.len() > 0 {
        lemma_sum_queue_prefix(s.drop_last());
        assert forall|k: int| 0 <= k <= s.len() implies sum_queue_lens(#[trigger] s.take(k)) <= sum_queue_lens(s) by {
            if k == s.len() {
                assert(s.take(k) =~= s);
            } else {
                assert(s.take(k) =~= s.drop_last().take(k));
            }
        }
    }
}

/// Isolation level enforcer
pub struct IsolationLevelEnforcer {
    /// MVCC manager for version control
    mvcc_manager: MVCCManager,
    /// Lock manager for concurrency control
    lock_manager: LockManager,
}

/// Combined statistics for isolation levels
#[derive(Debug, Clone, Copy)]
pub struct IsolationStatistics {
    /// MVCC system statistics
    pub mvcc_statistics: MVCCStatistics,
    /// Lock manager statistics
    pub lock_statistics: LockStatistics,
}

impl IsolationLevelEnforcer {
    /// The MVCC manager.
    pub closed spec fn mvcc(&self) -> MVCCManager {
        self.mvcc_manager
    }

    /// The lock manager.
    pub closed spec fn locks(&self) -> LockManager {
        self.lock_manager
    }

    /// Both managers are well-formed.
    pub open spec fn inv(&self) -> bool {
        self.mvcc().inv() && self.locks().inv()
    }

    /// Create a new isolation level enforcer
    pub fn new(mvcc_manager: MVCCManager, lock_manager: LockManager) -> (r: Self)
        requires
            mvcc_manager.inv(),
            lock_manager.inv(),
        ensures
            r.inv(),
            r.mvcc() == mvcc_manager,
            r.locks() == lock_manager,
    {
        Self { mvcc_manager, lock_manager }
    }

    /// The MVCC manager.
    pub fn mvcc_manager(&self) -> (r: &MVCCManager)
        ensures
            *r == self.mvcc(),
    {
        &self.mvcc_manager
    }

    /// The lock manager.
    pub fn lock_manager(&self) -> (r: &LockManager)
        ensures
            *r == self.locks(),
    {
        &self.lock_manager
    }

    /// Check read operation according to isolation level: read uncommitted
    /// and read committed read freely; repeatable read and serializable need
    /// a shared lock, requested when not yet held.
    pub fn check_read(&mut self, txn_id: TransactionId, page_id: PageId, isolation_level: IsolationLevel) -> (r: StorageResult<bool>)
        requires
            old(self).inv(),
        ensures
            final(self).inv(),
            final(self).mvcc() == old(self).mvcc(),
            r is Ok,
            ({
                let held = holds(old(self).locks().grants_of(page_id), txn_id, LockType::Shared);
                if isolation_level == IsolationLevel::ReadUncommitted || isolation_level == IsolationLevel::ReadCommitted || held {
                    r->Ok_0 && final(self).locks() == old(self).locks()
                } else {
                    &&& r->Ok_0 == can_grant(old(self).locks().grants_of(page_id), txn_id, LockType::Shared)
                    &&& lock_requested(old(self).locks(), final(self).locks(), txn_id, page_id, LockType::Shared)
                }
            }),
    {
        match isolation_level {
            IsolationLevel::ReadUncommitted => Ok(true),
            IsolationLevel::ReadCommitted => Ok(true),
            IsolationLevel::RepeatableRead => {
                if !self.lock_manager.holds_lock(txn_id, page_id, LockType::Shared) {
                    self.lock_manager.request_lock(txn_id, page_id, LockType::Shared)
                } else {
                    Ok(true)
                }
            },
            IsolationLevel::Serializable => {
                if !self.lock_manager.holds_lock(txn_id, page_id, LockType::Shared) {
                    let can_lock = match self.lock_manager.request_lock(txn_id, page_id, LockType::Shared) {
                        Ok(b) => b,
                        Err(e) => {
                            return Err(e);
                        },
                    };
                    if can_lock {
                        self.check_serialization_conflict(txn_id, page_id)
                    } else {
                        Ok(false)
                    }
                } else {
                    Ok(true)
                }
            },
        }
    }

    /// Check write operation according to isolation level: an exclusive lock
    /// is needed; from read committed up, a write conflict refuses the write,
    /// and under repeatable read and serializable it also releases all the
    /// transaction's locks.
    pub fn check_write(&mut self, txn_id: TransactionId, page_id: PageId, isolation_level: IsolationLevel) -> (r: StorageResult<bool>)
        requires
            old(self).inv(),
        ensures
            final(self).inv(),
            final(self).mvcc() == old(self).mvcc(),
            r is Ok,
            ({
                let granted = can_grant(old(self).locks().grants_of(page_id), txn_id, LockType::Exclusive);
                let conflict = has_write_conflict(old(self).mvcc(), page_id, txn_id);
                if isolation_level == IsolationLevel::ReadUncommitted {
                    &&& r->Ok_0 == granted
                    &&& lock_requested(old(self).locks(), final(self).locks(), txn_id, page_id, LockType::Exclusive)
                } else if isolation_level == IsolationLevel::ReadCommitted || !(granted && conflict) {
                    &&& r->Ok_0 == (granted && !conflict)
                    &&& lock_requested(old(self).locks(), final(self).locks(), txn_id, page_id, LockType::Exclusive)
                } else {
                    &&& !r->Ok_0
                    &&& exists|mid: LockManager| #[trigger] lock_requested(old(self).locks(), mid, txn_id, page_id, LockType::Exclusive)
                        && locks_released(mid, final(self).locks(), txn_id)
                }
            }),
    {
        match isolation_level {
            IsolationLevel::ReadUncommitted => self.lock_manager.request_lock(txn_id, page_id, LockType::Exclusive),
            IsolationLevel::ReadCommitted => {
                let can_lock = match self.lock_manager.request_lock(txn_id, page_id, LockType::Exclusive) {
                    Ok(b) => b,
                    Err(e) => {
                        return Err(e);
                    },
                };
                if can_lock {
                    let has_conflict = match self.mvcc_manager.check_write_conflict(page_id, txn_id) {
                        Ok(b) => b,
                        Err(e) => {
                            return Err(e);
                        },
                    };
                    Ok(!has_conflict)
                } else {
                    Ok(false)
                }
            },
            _ => {
                let can_lock = match self.lock_manager.request_lock(txn_id, page_id, LockType::Exclusive) {
                    Ok(b) => b,
                    Err(e) => {
                        return Err(e);
                    },
                };
                if can_lock {
                    let has_conflict = match self.mvcc_manager.check_write_conflict(page_id, txn_id) {
                        Ok(b) => b,
                        Err(e) => {
                            return Err(e);
                        },
                    };
                    if has_conflict {
                        let ghost mid = self.lock_manager;
                        match self.lock_manager.release_transaction_locks(txn_id) {
                            Ok(()) => {},
                            Err(e) => {
                                return Err(e);
                            },
                        }
                        assert(lock_requested(old(self).locks(), mid, txn_id, page_id, LockType::Exclusive));
                        Ok(false)
                    } else {
                        Ok(true)
                    }
                } else {
                    Ok(false)
                }
            },
        }
    }

    /// Serialization conflicts beyond locking (phantoms, predicate locks)
    /// are not tracked: every read that got its lock passes.
    fn check_serialization_conflict(&self, _txn_id: TransactionId, _page_id: PageId) -> (r: StorageResult<bool>)
        ensures
            r == Ok::<bool, crate::storage_engine::lib::StorageError>(true),
    {
        Ok(true)
    }

    /// Handle transaction commit: commit in MVCC, then release all locks.
    pub fn handle_commit(&mut self, txn_id: TransactionId) -> (r: StorageResult<()>)
        requires
            old(self).inv(),
            old(self).mvcc().counter() < u64::MAX,
        ensures
            final(self).inv(),
            r is Ok,
            crate::storage_engine::mvcc::txn_committed(old(self).mvcc(), final(self).mvcc(), txn_id),
            locks_released(old(self).locks(), final(self).locks(), txn_id),
    {
        match self.mvcc_manager.commit_transaction(txn_id) {
            Ok(()) => {},
            Err(e) => {
                return Err(e);
            },
        }
        self.lock_manager.release_transaction_locks(txn_id)
    }

    /// Handle transaction abort: abort in MVCC, then release all locks.
    pub fn handle_abort(&mut self, txn_id: TransactionId) -> (r: StorageResult<()>)
        requires
            old(self).inv(),
        ensures
            final(self).inv(),
            r is Ok,
            crate::storage_engine::mvcc::txn_aborted(old(self).mvcc(), final(self).mvcc(), txn_id),
            locks_released(old(self).locks(), final(self).locks(), txn_id),
    {
        match self.mvcc_manager.abort_transaction(txn_id) {
            Ok(()) => {},
            Err(e) => {
                return Err(e);
            },
        }
        self.lock_manager.release_transaction_locks(txn_id)
    }

    /// Get isolation level statistics
    pub fn get_isolation_statistics(&self) -> (r: IsolationStatistics)
        requires
            self.inv(),
            self.mvcc().total_versions() <= usize::MAX,
            self.locks().total_granted() <= usize::MAX,
            self.locks().total_waiting() <= usize::MAX,
        ensures
            r.mvcc_statistics.total_versions == self.mvcc().total_versions(),
            r.mvcc_statistics.total_pages == self.mvcc().chains_map().len(),
            r.mvcc_statistics.active_transactions == self.mvcc().snapshots_map().len(),
            r.lock_statistics.total_granted_locks == self.locks().total_granted(),
            r.lock_statistics.total_waiting_requests == self.locks().total_waiting(),
            r.lock_statistics.pages_with_locks == self.locks().grant_map().len(),
            r.lock_statistics.active_lock_holders == self.locks().held_map().len(),
    {
        IsolationStatistics {
            mvcc_statistics: self.mvcc_manager.get_statistics(),
            lock_statistics: self.lock_manager.get_statistics(),
        }
    }
}

} // verus!
