//! Multi-version concurrency control: every page keeps a chain of versions
//! ordered by creation timestamp, and each transaction reads the versions
//! its snapshot makes visible. Contract state versions created by a
//! transaction are finalized when it commits.
use vstd::prelude::*;

use std::collections::HashSet;
use std::sync::Arc;

use crate::assoc_list::{AssocList, distinct_keys, lemma_map_of_contains, lemma_map_of_pointwise, map_of};
use crate::seq_util::{last_match, lemma_filter_take, lemma_last_match_take};
use crate::state::dot_storage_layout::DotAddress;

use crate::state::versioning::{
    finalized_version, fresh_manager, has_id, map_version, version_created, DotStateVersion, DotVersionManager,
    StateVersionId,
};
use crate::storage_engine::file_format::{Page, PageId};
use crate::storage_engine::lib::{StorageError, StorageResult, unix_time_nanos};
use crate::storage_engine::transaction::{IsolationLevel, TransactionId};

verus! {

broadcast use vstd::std_specs::hash::group_hash_axioms;

/// Timestamp type for versioning
pub type Timestamp = u64;

/// `Arc::clone`: another pointer to the same allocation, so the same value.
#[verifier::external_body]
fn share_page(p: &Arc<Page>) -> (r: Arc<Page>)
    ensures
        r == *p,
{
    Arc::clone(p)
}

/// Version information for a data item
#[derive(Debug, Clone)]
pub struct VersionInfo {
    /// The data content
    pub data: Arc<Page>,
    /// Transaction that created this version
    pub created_by: TransactionId,
    /// Transaction that deleted this version (None if active)
    pub deleted_by: Option<TransactionId>,
    /// Creation timestamp
    pub created_at: Timestamp,
    /// Deletion timestamp (None if not deleted)
    pub deleted_at: Option<Timestamp>,
    /// Whether this version is committed
    pub is_committed: bool,
}

/// A new, uncommitted, undeleted version.
pub open spec fn new_version(data: Arc<Page>, created_by: TransactionId, created_at: Timestamp) -> VersionInfo {
    VersionInfo { data, created_by, deleted_by: None, created_at, deleted_at: None, is_committed: false }
}

/// A version marked committed.
pub open spec fn committed(v: VersionInfo) -> VersionInfo {
    VersionInfo { is_committed: true, ..v }
}

/// Whether version `v` is visible to transaction `txn` reading at snapshot
/// timestamp `ts` while the transactions in `active` were running: it must
/// be committed or the reader's own, created no later than the snapshot, and
/// not deleted by the reader nor by a finished transaction no later than the
/// snapshot.
pub open spec fn version_visible(v: VersionInfo, txn: TransactionId, ts: Timestamp, active: Set<TransactionId>) -> bool {
    &&& (v.is_committed || v.created_by == txn)
    &&& v.created_at <= ts
    &&& !(v.deleted_by is Some && v.deleted_at is Some && (v.deleted_by->0 == txn || (!active.contains(
        v.deleted_by->0,
    ) && v.deleted_at->0 <= ts)))
}

impl VersionInfo {
    /// Create a new version
    pub fn new(data: Arc<Page>, created_by: TransactionId, created_at: Timestamp) -> (r: Self)
        ensures
            r == new_version(data, created_by, created_at),
    {
        Self { data, created_by, deleted_by: None, created_at, deleted_at: None, is_committed: false }
    }

    /// Mark version as committed
    pub fn commit(&mut self)
        ensures
            *final(self) == committed(*old(self)),
    {
        self.is_committed = true;
    }

    /// Mark version as deleted by a transaction
    pub fn mark_deleted(&mut self, deleted_by: TransactionId, deleted_at: Timestamp)
        ensures
            *final(self) == (VersionInfo { deleted_by: Some(deleted_by), deleted_at: Some(deleted_at), ..*old(self) }),
    {
        self.deleted_by = Some(deleted_by);
        self.deleted_at = Some(deleted_at);
    }

    /// Check if version is visible to a transaction at given timestamp
    pub fn is_visible(&self, txn_id: TransactionId, snapshot_timestamp: Timestamp, active_txns: &HashSet<TransactionId>) -> (r: bool)
        ensures
            r == version_visible(*self, txn_id, snapshot_timestamp, active_txns@),
    {
        if !self.is_committed && self.created_by != txn_id {
            return false;
        }
        if self.created_at > snapshot_timestamp {
            return false;
        }
        match (self.deleted_by, self.deleted_at) {
            (Some(deleted_by), Some(deleted_at)) => {
                if deleted_by == txn_id {
                    return false;
                }
                if !active_txns.contains(&deleted_by) && deleted_at <= snapshot_timestamp {
                    return false;
                }
            },
            _ => {},
        }
        true
    }
}

/// Versions ordered by strictly increasing creation timestamp.
pub open spec fn chain_sorted(s: Seq<VersionInfo>) -> bool {
    forall|i: int, j: int| 0 <= i < j < s.len() ==> s[i].created_at < s[j].created_at
}

/// Index of the first version created at or after `t`.
pub open spec fn lower_bound(s: Seq<VersionInfo>, t: Timestamp) -> int
    decreases s.len(),
{
    if s.len() == 0 {
        0
    } else if s[0].created_at >= t {
        0
    } else {
        1 + lower_bound(s.subrange(1, s.len() as int), t)
    }
}

/// The chain after adding `v`: it takes its timestamp's place in the order,
/// replacing a version with the same timestamp.
pub open spec fn chain_insert(s: Seq<VersionInfo>, v: VersionInfo) -> Seq<VersionInfo> {
    let k = lower_bound(s, v.created_at);
    if k < s.len() && s[k].created_at == v.created_at {
        s.update(k, v)
    } else {
        s.insert(k, v)
    }
}

/// Versions created by transaction `txn`.
pub open spec fn created_by_txn(txn: TransactionId) -> spec_fn(VersionInfo) -> bool {
    |v: VersionInfo| v.created_by == txn
}

/// Versions of other transactions visible to `txn` at `ts`.
pub open spec fn visible_from_others(txn: TransactionId, ts: Timestamp, active: Set<TransactionId>) -> spec_fn(
    VersionInfo,
) -> bool {
    |v: VersionInfo| v.created_at <= ts && v.created_by != txn && version_visible(v, txn, ts, active)
}

/// The version of a chain that `txn` reads at `ts`: its own latest version
/// unless it deleted it, otherwise the newest visible version of another
/// transaction.
pub open spec fn visible_version(
    s: Seq<VersionInfo>,
    txn: TransactionId,
    ts: Timestamp,
    active: Set<TransactionId>,
) -> Option<VersionInfo> {
    let own = last_match(s, created_by_txn(txn));
    if own is Some && own->0.deleted_by != Some(txn) {
        own
    } else {
        last_match(s, visible_from_others(txn, ts, active))
    }
}

/// Version visibility to a reader `txn` at snapshot time `ts`: a version
/// created after the snapshot is not visible; another transaction's version
/// is not visible until committed; a version deleted by the reader, or by a
/// transaction that had finished by then at or before the snapshot, is not
/// visible; a committed version created no later than the snapshot and not
/// deleted is visible.
pub proof fn lemma_version_visibility(v: VersionInfo, txn: TransactionId, ts: Timestamp, active: Set<TransactionId>)
    ensures
        v.created_at > ts ==> !version_visible(v, txn, ts, active),
        v.created_by != txn && !v.is_committed ==> !version_visible(v, txn, ts, active),
        v.deleted_by == Some(txn) && v.deleted_at is Some ==> !version_visible(v, txn, ts, active),
        v.deleted_by is Some && !active.contains(v.deleted_by->0) && v.deleted_at is Some && v.deleted_at->0 <= ts
            ==> !version_visible(v, txn, ts, active),
        (v.is_committed || v.created_by == txn) && v.created_at <= ts && v.deleted_by is None ==> version_visible(
            v,
            txn,
            ts,
            active,
        ),
{
}

/// Position `k` holds the latest version that `txn` created in `s`.
pub open spec fn latest_own_at(s: Seq<VersionInfo>, txn: TransactionId, k: int) -> bool {
    &&& 0 <= k < s.len()
    &&& s[k].created_by == txn
    &&& forall|j: int| k < j < s.len() ==> (#[trigger] s[j]).created_by != txn
}

/// Version `v` is another transaction's, created no later than `ts` and
/// visible to `txn`.
pub open spec fn seen_from_others(v: VersionInfo, txn: TransactionId, ts: Timestamp, active: Set<TransactionId>) -> bool {
    v.created_by != txn && v.created_at <= ts && version_visible(v, txn, ts, active)
}

/// Position `k` holds the newest version of `s` that `txn` sees from others.
pub open spec fn newest_seen_at(s: Seq<VersionInfo>, txn: TransactionId, ts: Timestamp, active: Set<TransactionId>, k: int) -> bool {
    &&& 0 <= k < s.len()
    &&& seen_from_others(s[k], txn, ts, active)
    &&& forall|j: int| k < j < s.len() ==> !seen_from_others(#[trigger] s[j], txn, ts, active)
}

/// What a reader sees of a version chain: where its own latest version is
/// not deleted by it, that version; otherwise the newest version of another
/// transaction that it sees; nothing where there is none.
pub proof fn lemma_visible_version(s: Seq<VersionInfo>, txn: TransactionId, ts: Timestamp, active: Set<TransactionId>, k: int)
    ensures
        latest_own_at(s, txn, k) && s[k].deleted_by != Some(txn) ==> visible_version(s, txn, ts, active) == Some(s[k]),
        visible_version(s, txn, ts, active) is Some && visible_version(s, txn, ts, active)->0.created_by != txn
            ==> exists|m: int| #[trigger] newest_seen_at(s, txn, ts, active, m) && visible_version(s, txn, ts, active) == Some(s[m]),
        visible_version(s, txn, ts, active) is None ==> forall|j: int|
            0 <= j < s.len() ==> !seen_from_others(#[trigger] s[j], txn, ts, active),
{
    let own = crate::seq_util::lemma_last_match_is_last(s, created_by_txn(txn));
    let other = crate::seq_util::lemma_last_match_is_last(s, visible_from_others(txn, ts, active));
    if latest_own_at(s, txn, k) {
        assert(created_by_txn(txn)(s[k]));
        if own < k {
            assert(!created_by_txn(txn)(s[k]));
        } else if own > k {
            assert(s[own].created_by != txn);
        }
    }
    if visible_version(s, txn, ts, active) is Some && visible_version(s, txn, ts, active)->0.created_by != txn {
        assert forall|j: int| other < j < s.len() implies !seen_from_others(#[trigger] s[j], txn, ts, active) by {
            assert(!visible_from_others(txn, ts, active)(s[j]));
        }
        assert(newest_seen_at(s, txn, ts, active, other));
    }
    if visible_version(s, txn, ts, active) is None {
        assert forall|j: int| 0 <= j < s.len() implies !seen_from_others(#[trigger] s[j], txn, ts, active) by {
            assert(!visible_from_others(txn, ts, active)(s[j]));
        }
    }
}

/// Whether garbage collection below `oldest` removes a version: it is
/// committed, older than `oldest`, and a newer version was committed.
pub open spec fn collectable(oldest: Timestamp, latest: Option<Timestamp>) -> spec_fn(VersionInfo) -> bool {
    |v: VersionInfo| v.created_at < oldest && v.is_committed && latest is Some && latest->0 > v.created_at
}

/// The negation of `collectable`.
pub open spec fn survives_gc(oldest: Timestamp, latest: Option<Timestamp>) -> spec_fn(VersionInfo) -> bool {
    |v: VersionInfo| !collectable(oldest, latest)(v)
}

/// A version committed when `txn` created it, unchanged otherwise.
pub open spec fn commit_if_by(txn: TransactionId) -> spec_fn(VersionInfo) -> VersionInfo {
    |v: VersionInfo| if v.created_by == txn { committed(v) } else { v }
}

/// Versions not created by `txn`.
pub open spec fn not_created_by(txn: TransactionId) -> spec_fn(VersionInfo) -> bool {
    |v: VersionInfo| v.created_by != txn
}

/// Properties of `lower_bound`.
pub proof fn lemma_lower_bound(s: Seq<VersionInfo>, t: Timestamp)
    ensures
        0 <= lower_bound(s, t) <= s.len(),
        forall|j: int| 0 <= j < lower_bound(s, t) ==> #[trigger] s[j].created_at < t,
        lower_bound(s, t) < s.len() ==> s[lower_bound(s, t)].created_at >= t,
    decreases s.len(),
{
    if s.len() > 0 && s[0].created_at < t {
        let r = s.subrange(1, s.len() as int);
        lemma_lower_bound(r, t);
        assert forall|j: int| 0 <= j < lower_bound(s, t) implies #[trigger] s[j].created_at < t by {
            if j > 0 {
                assert(s[j] == r[j - 1]);
            }
        }
    }
}

/// Version chain for a single data item
#[derive(Debug)]
pub struct VersionChain {
    /// All versions ordered by creation timestamp
    versions: Vec<VersionInfo>,
    /// Latest committed version timestamp
    latest_committed: Option<Timestamp>,
}

impl Default for VersionChain {
    fn default() -> (r: Self)
        ensures
            r.wf(),
            r.versions_seq() == Seq::<VersionInfo>::empty(),
            r.latest() is None,
    {
        VersionChain { versions: Vec::new(), latest_committed: None }
    }
}

impl VersionChain {
    /// The versions, ordered by creation timestamp.
    pub closed spec fn versions_seq(&self) -> Seq<VersionInfo> {
        self.versions@
    }

    /// Timestamp of the version committed last through `commit_version`.
    pub closed spec fn latest(&self) -> Option<Timestamp> {
        self.latest_committed
    }

    /// Versions are strictly ordered by creation timestamp.
    pub closed spec fn wf(&self) -> bool {
        chain_sorted(self.versions@)
    }

    /// Add a new version to the chain
    pub fn add_version(&mut self, version: VersionInfo)
        requires
            old(self).wf(),
        ensures
            final(self).wf(),
            final(self).versions_seq() == chain_insert(old(self).versions_seq(), version),
            final(self).latest() == old(self).latest(),
    {
        let ghost s = self.versions@;
        let t = version.created_at;
        let mut i: usize = 0;
        assert(s.subrange(0, s.len() as int) =~= s);
        while i < self.versions.len() && self.versions[i].created_at < t
            invariant
                i <= s.len(),
                self.versions@ == s,
                lower_bound(s, t) == i + lower_bound(s.subrange(i as int, s.len() as int), t),
            decreases s.len() - i,
        {
            proof {
                let r = s.subrange(i as int, s.len() as int);
                assert(r[0] == s[i as int]);
                assert(r.subrange(1, r.len() as int) =~= s.subrange(i + 1, s.len() as int));
            }
            i = i + 1;
        }
        proof {
            let r = s.subrange(i as int, s.len() as int);
            if i < s.len() {
                assert(r[0] == s[i as int]);
            }
            assert(lower_bound(s, t) == i);
            lemma_lower_bound(s, t);
        }
        if i < self.versions.len() && self.versions[i].created_at == t {
            self.versions.set(i, version);
        } else {
            self.versions.insert(i, version);
        }
        proof {
            let n = self.versions@;
            assert forall|a: int, b: int| 0 <= a < b < n.len() implies n[a].created_at < n[b].created_at by {
                if i < s.len() && s[i as int].created_at == t {
                    if a == i {
                        assert(s[i as int].created_at < s[b].created_at);
                    } else if b == i {
                    }
                } else {
                    if a < i && b == i {
                    } else if a == i {
                        assert(n[b] == s[b - 1]);
                        if b - 1 > i {
                            assert(s[i as int].created_at < s[b - 1].created_at);
                        }
                    } else if b > i {
                        assert(n[b] == s[b - 1]);
                        if a > i {
                            assert(n[a] == s[a - 1]);
                        }
                    }
                }
            }
        }
    }

    /// The latest version of `txn`, searched from the newest.
    fn own_latest(&self, txn_id: TransactionId) -> (r: Option<usize>)
        ensures
            r is None ==> last_match(self.versions@, created_by_txn(txn_id)) is None,
            r is Some ==> r->0 < self.versions@.len() && last_match(self.versions@, created_by_txn(txn_id)) == Some(
                self.versions@[r->0 as int],
            ),
    {
        let ghost s = self.versions@;
        let mut i: usize = self.versions.len();
        assert(s.take(s.len() as int) =~= s);
        while i > 0
            invariant
                i <= s.len(),
                s == self.versions@,
                last_match(s, created_by_txn(txn_id)) == last_match(s.take(i as int), created_by_txn(txn_id)),
            decreases i,
        {
            proof {
                lemma_last_match_take(s, i - 1, created_by_txn(txn_id));
            }
            if self.versions[i - 1].created_by == txn_id {
                return Some(i - 1);
            }
            i = i - 1;
        }
        assert(s.take(0) =~= Seq::<VersionInfo>::empty());
        None
    }

    /// Get the visible version for a transaction
    pub fn get_visible_version(
        &self,
        txn_id: TransactionId,
        snapshot_timestamp: Timestamp,
        active_txns: &HashSet<TransactionId>,
    ) -> (r: Option<&VersionInfo>)
        ensures
            r is Some <==> visible_version(self.versions_seq(), txn_id, snapshot_timestamp, active_txns@) is Some,
            r is Some ==> *r->0 == visible_version(self.versions_seq(), txn_id, snapshot_timestamp, active_txns@)->0,
    {
        let ghost s = self.versions@;
        match self.own_latest(txn_id) {
            Some(k) => {
                let own_deleted = match self.versions[k].deleted_by {
                    Some(d) => d == txn_id,
                    None => false,
                };
                if !own_deleted {
                    return Some(&self.versions[k]);
                }
            },
            None => {},
        }
        let ghost p = visible_from_others(txn_id, snapshot_timestamp, active_txns@);
        let ghost own = last_match(s, created_by_txn(txn_id));
        assert(!(own is Some && own->0.deleted_by != Some(txn_id)));
        let mut i: usize = self.versions.len();
        assert(s.take(s.len() as int) =~= s);
        while i > 0
            invariant
                i <= s.len(),
                s == self.versions@,
                own == last_match(s, created_by_txn(txn_id)),
                !(own is Some && own->0.deleted_by != Some(txn_id)),
                p == visible_from_others(txn_id, snapshot_timestamp, active_txns@),
                last_match(s, p) == last_match(s.take(i as int), p),
            decreases i,
        {
            proof {
                lemma_last_match_take(s, i - 1, p);
            }
            let v = &self.versions[i - 1];
            if v.created_at <= snapshot_timestamp && v.created_by != txn_id && v.is_visible(
                txn_id,
                snapshot_timestamp,
                active_txns,
            ) {
                return Some(v);
            }
            i = i - 1;
        }
        assert(s.take(0) =~= Seq::<VersionInfo>::empty());
        None
    }

    /// Get all versions created by a specific transaction
    pub fn get_versions_by_transaction(&self, txn_id: TransactionId) -> (r: Vec<&VersionInfo>)
        ensures
            r@.len() == self.versions_seq().filter(created_by_txn(txn_id)).len(),
            forall|i: int| 0 <= i < r@.len() ==> *#[trigger] r@[i] == self.versions_seq().filter(created_by_txn(txn_id))[i],
    {
        let ghost s = self.versions@;
        let ghost p = created_by_txn(txn_id);
        let mut r: Vec<&VersionInfo> = Vec::new();
        let mut i: usize = 0;
        while i < self.versions.len()
            invariant
                i <= s.len(),
                s == self.versions@,
                p == created_by_txn(txn_id),
                r@.len() == s.take(i as int).filter(p).len(),
                forall|j: int| 0 <= j < r@.len() ==> *#[trigger] r@[j] == s.take(i as int).filter(p)[j],
            decreases s.len() - i,
        {
            proof {
                lemma_filter_take(s, i as int, p);
            }
            if self.versions[i].created_by == txn_id {
                r.push(&self.versions[i]);
            }
            i = i + 1;
        }
        assert(s.take(s.len() as int) =~= s);
        r
    }

    /// Mark a version as committed
    pub fn commit_version(&mut self, timestamp: Timestamp) -> (r: StorageResult<()>)
        requires
            old(self).wf(),
        ensures
            final(self).wf(),
            (exists|i: int| 0 <= i < old(self).versions_seq().len() && old(self).versions_seq()[i].created_at == timestamp)
                ==> r is Ok && final(self).versions_seq() == old(self).versions_seq().map_values(
                |v: VersionInfo| if v.created_at == timestamp { committed(v) } else { v },
            ) && final(self).latest() == Some(timestamp),
            !(exists|i: int| 0 <= i < old(self).versions_seq().len() && old(self).versions_seq()[i].created_at == timestamp)
                ==> (r matches Err(StorageError::Corruption(_))) && final(self).versions_seq() == old(self).versions_seq()
                && final(self).latest() == old(self).latest(),
    {
        let ghost s = self.versions@;
        let mut i: usize = 0;
        while i < self.versions.len()
            invariant
                i <= s.len(),
                s == self.versions@,
                s == old(self).versions@,
                chain_sorted(s),
                self.latest_committed == old(self).latest_committed,
                forall|j: int| 0 <= j < i ==> s[j].created_at != timestamp,
            decreases s.len() - i,
        {
            if self.versions[i].created_at == timestamp {
                let mut v = self.versions.remove(i);
                v.commit();
                self.versions.insert(i, v);
                self.latest_committed = Some(timestamp);
                proof {
                    assert forall|j: int| 0 <= j < s.len() implies #[trigger] self.versions@[j] == (if s[j].created_at
                        == timestamp {
                        committed(s[j])
                    } else {
                        s[j]
                    }) by {
                        if j != i {
                            if j < i {
                                assert(s[j].created_at < s[i as int].created_at);
                            } else {
                                assert(s[i as int].created_at < s[j].created_at);
                            }
                        }
                    }
                    assert(self.versions@ =~= s.map_values(
                        |v: VersionInfo| if v.created_at == timestamp { committed(v) } else { v },
                    ));
                }
                return Ok(());
            }
            i = i + 1;
        }
        Err(StorageError::Corruption("Version not found for commit".to_string()))
    }

    /// Remove old versions that are no longer needed: committed versions
    /// older than `oldest_active_timestamp` with a newer committed version.
    pub fn garbage_collect(&mut self, oldest_active_timestamp: Timestamp) -> (r: Vec<VersionInfo>)
        requires
            old(self).wf(),
        ensures
            final(self).wf(),
            r@ == old(self).versions_seq().filter(collectable(oldest_active_timestamp, old(self).latest())),
            final(self).versions_seq() == old(self).versions_seq().filter(
                survives_gc(oldest_active_timestamp, old(self).latest()),
            ),
            final(self).latest() == old(self).latest(),
    {
        let ghost s = self.versions@;
        let ghost p = collectable(oldest_active_timestamp, self.latest_committed);
        let ghost q = survives_gc(oldest_active_timestamp, self.latest_committed);
        let mut rest: Vec<VersionInfo> = Vec::new();
        std::mem::swap(&mut rest, &mut self.versions);
        let mut kept: Vec<VersionInfo> = Vec::new();
        let mut removed: Vec<VersionInfo> = Vec::new();
        let mut i: usize = 0;
        assert(rest@ =~= s);
        assert(s.len() == rest.len());
        while rest.len() > 0
            invariant
                i <= s.len(),
                s.len() <= usize::MAX,
                chain_sorted(s),
                rest@ == s.subrange(i as int, s.len() as int),
                p == collectable(oldest_active_timestamp, self.latest_committed),
                q == survives_gc(oldest_active_timestamp, self.latest_committed),
                kept@ == s.take(i as int).filter(q),
                removed@ == s.take(i as int).filter(p),
                chain_sorted(kept@),
                kept@.len() > 0 && i < s.len() ==> kept@.last().created_at < s[i as int].created_at,
            decreases rest@.len(),
        {
            proof {
                lemma_filter_take(s, i as int, p);
                lemma_filter_take(s, i as int, q);
            }
            let v = rest.remove(0);
            assert(v == s[i as int]);
            let collect = v.created_at < oldest_active_timestamp && v.is_committed && match self.latest_committed {
                Some(l) => l > v.created_at,
                None => false,
            };
            assert(collect == p(s[i as int]));
            if collect {
                removed.push(v);
            } else {
                kept.push(v);
            }
            proof {
                if i + 1 < s.len() {
                    assert(s[i as int].created_at < s[i + 1].created_at);
                }
            }
            i = i + 1;
            assert(rest@ =~= s.subrange(i as int, s.len() as int));
        }
        assert(s.take(s.len() as int) =~= s);
        self.versions = kept;
        removed
    }

    /// Commit every version created by `txn_id`.
    fn commit_by(&mut self, txn_id: TransactionId)
        requires
            old(self).wf(),
        ensures
            final(self).wf(),
            final(self).versions_seq() == old(self).versions_seq().map_values(commit_if_by(txn_id)),
            final(self).latest() == old(self).latest(),
    {
        let ghost s = self.versions@;
        let mut i: usize = 0;
        while i < self.versions.len()
            invariant
                i <= s.len(),
                self.versions@.len() == s.len(),
                self.latest_committed == old(self).latest_committed,
                s == old(self).versions@,
                forall|j: int| 0 <= j < i ==> #[trigger] self.versions@[j] == commit_if_by(txn_id)(s[j]),
                forall|j: int| i <= j < s.len() ==> #[trigger] self.versions@[j] == s[j],
            decreases s.len() - i,
        {
            if self.versions[i].created_by == txn_id {
                let mut v = self.versions.remove(i);
                v.commit();
                self.versions.insert(i, v);
            }
            i = i + 1;
        }
        assert(self.versions@ =~= s.map_values(commit_if_by(txn_id)));
        assert forall|a: int, b: int| 0 <= a < b < self.versions@.len() implies self.versions@[a].created_at
            < self.versions@[b].created_at by {
            assert(self.versions@[a].created_at == s[a].created_at);
            assert(self.versions@[b].created_at == s[b].created_at);
        }
    }

    /// Remove every version created by `txn_id`.
    fn remove_by(&mut self, txn_id: TransactionId)
        requires
            old(self).wf(),
        ensures
            final(self).wf(),
            final(self).versions_seq() == old(self).versions_seq().filter(not_created_by(txn_id)),
            final(self).latest() == old(self).latest(),
    {
        let ghost s = self.versions@;
        let ghost q = not_created_by(txn_id);
        let mut rest: Vec<VersionInfo> = Vec::new();
        std::mem::swap(&mut rest, &mut self.versions);
        let mut kept: Vec<VersionInfo> = Vec::new();
        let mut i: usize = 0;
        assert(rest@ =~= s);
        assert(s.len() == rest.len());
        while rest.len() > 0
            invariant
                i <= s.len(),
                s.len() <= usize::MAX,
                chain_sorted(s),
                rest@ == s.subrange(i as int, s.len() as int),
                q == not_created_by(txn_id),
                kept@ == s.take(i as int).filter(q),
                chain_sorted(kept@),
                kept@.len() > 0 && i < s.len() ==> kept@.last().created_at < s[i as int].created_at,
            decreases rest@.len(),
        {
            proof {
                lemma_filter_take(s, i as int, q);
            }
            let v = rest.remove(0);
            assert(v == s[i as int]);
            if v.created_by != txn_id {
                kept.push(v);
            }
            proof {
                if i + 1 < s.len() {
                    assert(s[i as int].created_at < s[i + 1].created_at);
                }
            }
            i = i + 1;
            assert(rest@ =~= s.subrange(i as int, s.len() as int));
        }
        assert(s.take(s.len() as int) =~= s);
        self.versions = kept;
    }

    /// Get the number of versions in the chain
    pub fn version_count(&self) -> (r: usize)
        ensures
            r == self.versions_seq().len(),
    {
        self.versions.len()
    }
}

/// `HashSet::clone`: a set holding the same transactions.
#[verifier::external_body]
fn copy_txn_set(s: &HashSet<TransactionId>) -> (r: HashSet<TransactionId>)
    ensures
        r@ == s@,
{
    s.clone()
}

/// Transaction snapshot information
#[derive(Debug)]
pub struct TransactionSnapshot {
    /// Transaction ID
    pub txn_id: TransactionId,
    /// Snapshot timestamp
    pub timestamp: Timestamp,
    /// Set of active transactions at snapshot time
    pub active_transactions: HashSet<TransactionId>,
    /// Isolation level
    pub isolation_level: IsolationLevel,
}

/// Whether a transaction committed at `commit_ts` is visible to snapshot `s`:
/// the snapshot's own transaction always is; one that was active when the
/// snapshot was taken never is; others are when they committed no later than
/// the snapshot.
pub open spec fn transaction_visible(
    s: TransactionSnapshot,
    other: TransactionId,
    commit_ts: Option<Timestamp>,
) -> bool {
    if other == s.txn_id {
        true
    } else if s.active_transactions@.contains(other) {
        false
    } else {
        commit_ts matches Some(c) && c <= s.timestamp
    }
}

/// Visibility to a snapshot: the snapshot's own transaction is visible;
/// another transaction is visible exactly when it was not active when the
/// snapshot was taken and has committed, no later than the snapshot's time.
/// So one that committed after the snapshot, or has not committed, is not.
pub proof fn lemma_visibility(s: TransactionSnapshot, other: TransactionId, commit_ts: Option<Timestamp>)
    ensures
        other == s.txn_id ==> transaction_visible(s, other, commit_ts),
        other != s.txn_id && transaction_visible(s, other, commit_ts) ==> !s.active_transactions@.contains(other)
            && commit_ts is Some && commit_ts->0 <= s.timestamp,
        other != s.txn_id && !s.active_transactions@.contains(other) && commit_ts is Some && commit_ts->0 <= s.timestamp
            ==> transaction_visible(s, other, commit_ts),
        other != s.txn_id && commit_ts is Some && commit_ts->0 > s.timestamp ==> !transaction_visible(s, other, commit_ts),
        other != s.txn_id && commit_ts is None ==> !transaction_visible(s, other, commit_ts),
{
}

/// Two snapshots describe the same transaction, time, active set and level.
pub open spec fn same_snapshot(a: TransactionSnapshot, b: TransactionSnapshot) -> bool {
    &&& a.txn_id == b.txn_id
    &&& a.timestamp == b.timestamp
    &&& a.active_transactions@ == b.active_transactions@
    &&& a.isolation_level == b.isolation_level
}

impl Clone for TransactionSnapshot {
    fn clone(&self) -> (r: Self)
        ensures
            same_snapshot(r, *self),
    {
        TransactionSnapshot {
            txn_id: self.txn_id,
            timestamp: self.timestamp,
            active_transactions: copy_txn_set(&self.active_transactions),
            isolation_level: self.isolation_level,
        }
    }
}

impl TransactionSnapshot {
    /// Create a new transaction snapshot
    pub fn new(
        txn_id: TransactionId,
        timestamp: Timestamp,
        active_transactions: HashSet<TransactionId>,
        isolation_level: IsolationLevel,
    ) -> (r: Self)
        ensures
            r == (TransactionSnapshot { txn_id, timestamp, active_transactions, isolation_level }),
    {
        Self { txn_id, timestamp, active_transactions, isolation_level }
    }

    /// Check if a transaction is visible in this snapshot
    pub fn is_transaction_visible(&self, other_txn_id: TransactionId, commit_timestamp: Option<Timestamp>) -> (r: bool)
        ensures
            r == transaction_visible(*self, other_txn_id, commit_timestamp),
            other_txn_id == self.txn_id ==> r,
            other_txn_id != self.txn_id && r ==> !self.active_transactions@.contains(other_txn_id)
                && commit_timestamp is Some && commit_timestamp->0 <= self.timestamp,
            other_txn_id != self.txn_id && !self.active_transactions@.contains(other_txn_id) && commit_timestamp is Some
                && commit_timestamp->0 <= self.timestamp ==> r,
    {
        proof {
            lemma_visibility(*self, other_txn_id, commit_timestamp);
        }
        if other_txn_id == self.txn_id {
            return true;
        }
        if self.active_transactions.contains(&other_txn_id) {
            return false;
        }
        match commit_timestamp {
            Some(commit_ts) => commit_ts <= self.timestamp,
            None => false,
        }
    }
}

/// The smallest timestamp of a list of snapshot entries.
pub open spec fn min_snapshot_ts(s: Seq<(TransactionId, TransactionSnapshot)>) -> Option<Timestamp>
    decreases s.len(),
{
    if s.len() == 0 {
        None
    } else {
        let r = min_snapshot_ts(s.drop_last());
        let t = s.last().1.timestamp;
        if r is Some && r->0 <= t {
            r
        } else {
            Some(t)
        }
    }
}

/// The version of contract state last finalized at or before `ts` (the
/// earliest of equal creation times).
pub open spec fn latest_finalized_before(s: Seq<DotStateVersion>, ts: Timestamp) -> Option<DotStateVersion>
    decreases s.len(),
{
    if s.len() == 0 {
        None
    } else {
        let r = latest_finalized_before(s.drop_last(), ts);
        let v = s.last();
        if v.created_at <= ts && v.is_finalized && (r is None || v.created_at > r->0.created_at) {
            Some(v)
        } else {
            r
        }
    }
}

/// The latest finalized version at or before `ts` is a finalized version of
/// `s` created no later than `ts`, and no such version was created later
/// (the first of equal creation times); there is none exactly when no
/// version is finalized at or before `ts`.
pub proof fn lemma_latest_finalized_before(s: Seq<DotStateVersion>, ts: Timestamp) -> (k: int)
    ensures
        latest_finalized_before(s, ts) is Some ==> {
            &&& 0 <= k < s.len()
            &&& latest_finalized_before(s, ts) == Some(s[k])
            &&& s[k].is_finalized && s[k].created_at <= ts
            &&& forall|j: int|
                0 <= j < s.len() && (#[trigger] s[j]).is_finalized && s[j].created_at <= ts ==> s[j].created_at
                    <= s[k].created_at
            &&& forall|j: int|
                0 <= j < k && (#[trigger] s[j]).is_finalized && s[j].created_at <= ts ==> s[j].created_at
                    < s[k].created_at
        },
        latest_finalized_before(s, ts) is None ==> forall|j: int|
            0 <= j < s.len() ==> !((#[trigger] s[j]).is_finalized && s[j].created_at <= ts),
    decreases s.len(),
{
    if s.len() == 0 {
        0
    } else {
        let t = s.drop_last();
        let k0 = lemma_latest_finalized_before(t, ts);
        assert forall|j: int| 0 <= j < t.len() implies #[trigger] s[j] == t[j] by {}
        let r = latest_finalized_before(t, ts);
        let v = s.last();
        if v.created_at <= ts && v.is_finalized && (r is None || v.created_at > r->0.created_at) {
            s.len() - 1
        } else {
            k0
        }
    }
}

/// Whether the contract version `e` is stored in `m`.
pub open spec fn entry_present(m: DotVersionManager, e: (DotAddress, StateVersionId)) -> bool {
    m.has_dot(e.0@) && last_match(m.dot_versions(e.0@), has_id(e.1)) is Some
}

/// Whether `list` names version `id` of contract `b`.
pub open spec fn listed(list: Seq<(DotAddress, StateVersionId)>, b: Seq<u8>, id: StateVersionId) -> bool {
    exists|i: int| 0 <= i < list.len() && #[trigger] list[i].0@ == b && list[i].1 == id
}

/// The history of contract `b` with the versions named by `list` finalized.
pub open spec fn finalize_listed(
    s: Seq<DotStateVersion>,
    list: Seq<(DotAddress, StateVersionId)>,
    b: Seq<u8>,
) -> Seq<DotStateVersion> {
    s.map_values(|v: DotStateVersion| if listed(list, b, v.version_id) { finalized_version()(v) } else { v })
}

/// `new` is `old` with the versions named by `list` finalized.
pub open spec fn finalized_all(old: DotVersionManager, new: DotVersionManager, list: Seq<(DotAddress, StateVersionId)>) -> bool {
    &&& new.inv()
    &&& forall|b: Seq<u8>| #[trigger] new.dot_versions(b) == finalize_listed(old.dot_versions(b), list, b)
    &&& forall|b: Seq<u8>| #[trigger] new.has_dot(b) == old.has_dot(b)
    &&& new.current_map() == old.current_map()
    &&& new.active_map() == old.active_map()
    &&& new.counter() == old.counter()
    &&& new.max_versions() == old.max_versions()
}

/// MVCC Manager handles version control and visibility
pub struct MVCCManager {
    /// Version chains for each page
    version_chains: AssocList<PageId, VersionChain>,
    /// Active transaction snapshots
    transaction_snapshots: AssocList<TransactionId, TransactionSnapshot>,
    /// Transaction commit timestamps
    commit_timestamps: AssocList<TransactionId, Timestamp>,
    /// Current timestamp counter
    timestamp_counter: Timestamp,
    /// Garbage collection threshold
    gc_threshold: usize,
    /// Contract version manager for contract state versioning integration
    dot_version_manager: DotVersionManager,
    /// Transaction to contract state mapping
    transaction_dot_states: AssocList<TransactionId, Vec<(DotAddress, StateVersionId)>>,
}

impl MVCCManager {
    /// Version chain of each page.
    pub closed spec fn chains_map(&self) -> Map<PageId, VersionChain> {
        self.version_chains.view_map()
    }

    /// The versions of page `p`, oldest first (empty without a chain).
    pub open spec fn page_versions(&self, p: PageId) -> Seq<VersionInfo> {
        if self.chains_map().contains_key(p) {
            self.chains_map()[p].versions_seq()
        } else {
            Seq::empty()
        }
    }

    /// The latest committed timestamp recorded by the chain of page `p`.
    pub open spec fn page_latest(&self, p: PageId) -> Option<Timestamp> {
        if self.chains_map().contains_key(p) {
            self.chains_map()[p].latest()
        } else {
            None
        }
    }

    /// Snapshot of each running transaction.
    pub closed spec fn snapshots_map(&self) -> Map<TransactionId, TransactionSnapshot> {
        self.transaction_snapshots.view_map()
    }

    /// The smallest timestamp of a running transaction's snapshot.
    pub closed spec fn oldest_active(&self) -> Option<Timestamp> {
        min_snapshot_ts(self.transaction_snapshots.entries@)
    }

    /// Commit timestamp of each committed transaction.
    pub closed spec fn commits_map(&self) -> Map<TransactionId, Timestamp> {
        self.commit_timestamps.view_map()
    }

    /// The timestamp counter.
    pub closed spec fn counter(&self) -> Timestamp {
        self.timestamp_counter
    }

    /// Chain length above which a page is garbage collected.
    pub closed spec fn gc_limit(&self) -> usize {
        self.gc_threshold
    }

    /// The contract version manager.
    pub closed spec fn dot_manager(&self) -> DotVersionManager {
        self.dot_version_manager
    }

    /// Contract versions created by each transaction.
    pub closed spec fn dot_states_map(&self) -> Map<TransactionId, Vec<(DotAddress, StateVersionId)>> {
        self.transaction_dot_states.view_map()
    }

    /// Contract versions created by transaction `t`, in creation order.
    pub open spec fn dot_states_of(&self, t: TransactionId) -> Seq<(DotAddress, StateVersionId)> {
        if self.dot_states_map().contains_key(t) {
            self.dot_states_map()[t]@
        } else {
            Seq::empty()
        }
    }

    /// Well-formedness: every chain is ordered and no version is newer than the counter.
    pub closed spec fn inv(&self) -> bool {
        &&& self.version_chains.wf()
        &&& self.transaction_snapshots.wf()
        &&& self.commit_timestamps.wf()
        &&& self.transaction_dot_states.wf()
        &&& self.dot_version_manager.inv()
        &&& forall|p: PageId| #[trigger] self.version_chains.view_map().contains_key(p) ==> self.version_chains.view_map()[p].wf()
        &&& forall|p: PageId, i: int| #[trigger] self.version_chains.view_map().contains_key(p) && 0 <= i < self.version_chains.view_map()[p].versions@.len()
            ==> #[trigger] self.version_chains.view_map()[p].versions@[i].created_at <= self.timestamp_counter
    }

    /// The smallest snapshot timestamp is that of some running transaction
    /// and no larger than any other; there is none without snapshots.
    pub proof fn lemma_oldest_active(&self)
        requires
            self.inv(),
        ensures
            self.oldest_active() is None <==> self.snapshots_map().dom().is_empty(),
            self.oldest_active() matches Some(o) ==> (exists|t: TransactionId| #[trigger]
                self.snapshots_map().contains_key(t) && self.snapshots_map()[t].timestamp == o),
            self.oldest_active() matches Some(o) ==> (forall|t: TransactionId| #[trigger]
                self.snapshots_map().contains_key(t) ==> o <= self.snapshots_map()[t].timestamp),
    {
        let s = self.transaction_snapshots.entries@;
        lemma_min_snapshot_ts(s);
        if s.len() > 0 {
            lemma_map_of_contains(s, s[0].0@);
        } else {
            assert(self.snapshots_map().dom() =~= Set::<TransactionId>::empty());
        }
        assert forall|t: TransactionId| #[trigger] self.snapshots_map().contains_key(t) implies self.oldest_active()->0
            <= self.snapshots_map()[t].timestamp by {
            lemma_map_of_contains(s, t);
            let i = choose|i: int| 0 <= i < s.len() && #[trigger] s[i].0@ == t;
            crate::assoc_list::lemma_distinct_last_index(s, i);
        }
        if self.oldest_active() is Some {
            let i = choose|i: int| 0 <= i < s.len() && #[trigger] s[i].1.timestamp == self.oldest_active()->0;
            crate::assoc_list::lemma_distinct_last_index(s, i);
            assert(self.snapshots_map().contains_key(s[i].0));
        }
        if self.snapshots_map().dom().is_empty() && s.len() > 0 {
            assert(self.snapshots_map().contains_key(s[0].0));
        }
    }

    /// Create a new MVCC manager
    pub fn new() -> (r: Self)
        ensures
            r.inv(),
            r.chains_map() == Map::<PageId, VersionChain>::empty(),
            r.snapshots_map() == Map::<TransactionId, TransactionSnapshot>::empty(),
            r.commits_map() == Map::<TransactionId, Timestamp>::empty(),
            r.dot_states_map() == Map::<TransactionId, Vec<(DotAddress, StateVersionId)>>::empty(),
            r.gc_limit() == 1000,
            fresh_manager(r.dot_manager(), 100),
    {
        Self::new_with_contract_manager(DotVersionManager::default())
    }

    /// Create a new MVCC manager with custom contract version manager
    pub fn new_with_contract_manager(contract_manager: DotVersionManager) -> (r: Self)
        requires
            contract_manager.inv(),
        ensures
            r.inv(),
            r.chains_map() == Map::<PageId, VersionChain>::empty(),
            r.snapshots_map() == Map::<TransactionId, TransactionSnapshot>::empty(),
            r.commits_map() == Map::<TransactionId, Timestamp>::empty(),
            r.dot_states_map() == Map::<TransactionId, Vec<(DotAddress, StateVersionId)>>::empty(),
            r.gc_limit() == 1000,
            r.dot_manager() == contract_manager,
    {
        Self {
            version_chains: AssocList::new(),
            transaction_snapshots: AssocList::new(),
            commit_timestamps: AssocList::new(),
            timestamp_counter: Self::current_timestamp(),
            gc_threshold: 1000,
            dot_version_manager: contract_manager,
            transaction_dot_states: AssocList::new(),
        }
    }

    /// Get current system timestamp (nanoseconds since the Unix epoch).
    pub fn current_timestamp() -> Timestamp {
        unix_time_nanos()
    }

    /// Generate next timestamp
    pub fn next_timestamp(&mut self) -> (r: Timestamp)
        requires
            old(self).inv(),
            old(self).counter() < u64::MAX,
        ensures
            final(self).inv(),
            r == old(self).counter() + 1,
            final(self).counter() == r,
            final(self).chains_map() == old(self).chains_map(),
            final(self).snapshots_map() == old(self).snapshots_map(),
            final(self).oldest_active() == old(self).oldest_active(),
            final(self).commits_map() == old(self).commits_map(),
            final(self).dot_states_map() == old(self).dot_states_map(),
            final(self).dot_manager() == old(self).dot_manager(),
            final(self).gc_limit() == old(self).gc_limit(),
    {
        self.timestamp_counter = self.timestamp_counter + 1;
        self.timestamp_counter
    }

    /// The identifiers of the running transactions.
    fn active_set(&self) -> (r: HashSet<TransactionId>)
        requires
            self.inv(),
        ensures
            r@ == self.snapshots_map().dom(),
    {
        let ghost s = self.transaction_snapshots.entries@;
        let mut r: HashSet<TransactionId> = HashSet::new();
        let mut i: usize = 0;
        while i < self.transaction_snapshots.entries.len()
            invariant
                i <= s.len(),
                s == self.transaction_snapshots.entries@,
                forall|t: TransactionId| r@.contains(t) <==> exists|j: int| 0 <= j < i && #[trigger] s[j].0@ == t,
            decreases s.len() - i,
        {
            let t = self.transaction_snapshots.entries[i].0;
            r.insert(t);
            proof {
                assert forall|x: TransactionId| r@.contains(x) <==> exists|j: int| 0 <= j < i + 1 && #[trigger] s[j].0@ == x by {
                    if x == t {
                        assert(s[i as int].0@ == x);
                    }
                }
            }
            i = i + 1;
        }
        proof {
            assert forall|t: TransactionId| r@.contains(t) == self.snapshots_map().contains_key(t) by {
                lemma_map_of_contains(s, t);
            }
            assert(r@ =~= self.snapshots_map().dom());
        }
        r
    }

    /// Create a snapshot for a transaction
    pub fn create_snapshot(&mut self, txn_id: TransactionId, isolation_level: IsolationLevel) -> (r: StorageResult<TransactionSnapshot>)
        requires
            old(self).inv(),
            old(self).counter() < u64::MAX,
        ensures
            final(self).inv(),
            r is Ok,
            r->Ok_0.txn_id == txn_id,
            r->Ok_0.timestamp == old(self).counter() + 1,
            r->Ok_0.active_transactions@ == old(self).snapshots_map().dom(),
            r->Ok_0.isolation_level == isolation_level,
            final(self).counter() == old(self).counter() + 1,
            final(self).snapshots_map().contains_key(txn_id),
            same_snapshot(final(self).snapshots_map()[txn_id], r->Ok_0),
            final(self).snapshots_map().remove(txn_id) == old(self).snapshots_map().remove(txn_id),
            final(self).chains_map() == old(self).chains_map(),
            final(self).commits_map() == old(self).commits_map(),
            final(self).dot_states_map() == old(self).dot_states_map(),
            final(self).dot_manager() == old(self).dot_manager(),
            final(self).gc_limit() == old(self).gc_limit(),
    {
        let timestamp = self.next_timestamp();
        let active_transactions = self.active_set();
        let stored = self.active_set();
        let snapshot = TransactionSnapshot::new(txn_id, timestamp, active_transactions, isolation_level);
        self.transaction_snapshots.insert(txn_id, TransactionSnapshot::new(txn_id, timestamp, stored, isolation_level));
        proof {
            assert(self.snapshots_map().remove(txn_id) =~= old(self).snapshots_map().remove(txn_id));
        }
        Ok(snapshot)
    }

    /// Get the oldest active transaction timestamp, or the next timestamp
    /// when no transaction is running.
    fn get_oldest_active_timestamp(&mut self) -> (r: Timestamp)
        requires
            old(self).inv(),
            old(self).counter() < u64::MAX,
        ensures
            final(self).inv(),
            r == (match old(self).oldest_active() {
                Some(o) => o,
                None => (old(self).counter() + 1) as u64,
            }),
            final(self).counter() == (if old(self).oldest_active() is None {
                (old(self).counter() + 1) as u64
            } else {
                old(self).counter()
            }),
            final(self).chains_map() == old(self).chains_map(),
            final(self).snapshots_map() == old(self).snapshots_map(),
            final(self).oldest_active() == old(self).oldest_active(),
            final(self).commits_map() == old(self).commits_map(),
            final(self).dot_states_map() == old(self).dot_states_map(),
            final(self).dot_manager() == old(self).dot_manager(),
            final(self).gc_limit() == old(self).gc_limit(),
    {
        let ghost s = self.transaction_snapshots.entries@;
        let mut best: Option<Timestamp> = None;
        let mut i: usize = 0;
        while i < self.transaction_snapshots.entries.len()
            invariant
                i <= s.len(),
                s == self.transaction_snapshots.entries@,
                best == min_snapshot_ts(s.take(i as int)),
            decreases s.len() - i,
        {
            assert(s.take(i + 1).drop_last() =~= s.take(i as int));
            assert(s.take(i + 1).last() == s[i as int]);
            let t = self.transaction_snapshots.entries[i].1.timestamp;
            best = match best {
                Some(b) => if b <= t {
                    Some(b)
                } else {
                    Some(t)
                },
                None => Some(t),
            };
            i = i + 1;
        }
        assert(s.take(s.len() as int) =~= s);
        match best {
            Some(b) => b,
            None => self.next_timestamp(),
        }
    }

    /// Add a new version for a page; a chain that grows beyond the
    /// garbage-collection threshold is collected below the oldest running
    /// transaction's snapshot.
    pub fn add_version(&mut self, page_id: PageId, data: Arc<Page>, txn_id: TransactionId) -> (r: StorageResult<()>)
        requires
            old(self).inv(),
            old(self).counter() < u64::MAX - 1,
        ensures
            final(self).inv(),
            r is Ok,
            ({
                let t = (old(self).counter() + 1) as u64;
                let pushed = old(self).page_versions(page_id).push(new_version(data, txn_id, t));
                let bound = match old(self).oldest_active() {
                    Some(o) => o,
                    None => (t + 1) as u64,
                };
                let collected = pushed.len() > old(self).gc_limit();
                &&& final(self).chains_map().contains_key(page_id)
                &&& final(self).page_versions(page_id) == if collected {
                    pushed.filter(survives_gc(bound, old(self).page_latest(page_id)))
                } else {
                    pushed
                }
                &&& final(self).page_latest(page_id) == old(self).page_latest(page_id)
                &&& final(self).counter() == if collected && old(self).oldest_active() is None {
                    (t + 1) as u64
                } else {
                    t
                }
            }),
            final(self).chains_map().remove(page_id) == old(self).chains_map().remove(page_id),
            final(self).snapshots_map() == old(self).snapshots_map(),
            final(self).oldest_active() == old(self).oldest_active(),
            final(self).commits_map() == old(self).commits_map(),
            final(self).dot_states_map() == old(self).dot_states_map(),
            final(self).dot_manager() == old(self).dot_manager(),
            final(self).gc_limit() == old(self).gc_limit(),
    {
        let timestamp = self.next_timestamp();
        let version = VersionInfo::new(data, txn_id, timestamp);
        let mut chain = match self.version_chains.remove(&page_id) {
            Some(c) => c,
            None => VersionChain::default(),
        };
        let ghost s = chain.versions@;
        proof {
            assert forall|j: int| 0 <= j < s.len() implies #[trigger] s[j].created_at < timestamp by {
                if old(self).version_chains.view_map().contains_key(page_id) {
                    assert(old(self).version_chains.view_map()[page_id].versions@[j].created_at <= old(self).timestamp_counter);
                }
            }
            lemma_lower_bound(s, timestamp);
            assert(lower_bound(s, timestamp) == s.len());
            assert(s.insert(s.len() as int, version) =~= s.push(version));
        }
        chain.add_version(version);
        let ghost pushed = chain.versions@;
        assert(pushed =~= s.push(version));
        let collected = chain.version_count() > self.gc_threshold;
        let ghost mut gq: spec_fn(VersionInfo) -> bool = survives_gc(0, None);
        if collected {
            let oldest = self.get_oldest_active_timestamp();
            proof {
                gq = survives_gc(oldest, chain.latest_committed);
            }
            let _removed = chain.garbage_collect(oldest);
        }
        assert forall|k: int| 0 <= k < chain.versions@.len() implies pushed.contains(#[trigger] chain.versions@[k]) by {
            if collected {
                crate::seq_util::lemma_filter_sub(pushed, gq);
                assert(chain.versions@[k] == pushed.filter(gq)[k]);
            } else {
                assert(chain.versions@[k] == pushed[k]);
            }
        }
        let ghost c = chain;
        self.version_chains.insert(page_id, chain);
        proof {
            assert(self.chains_map().remove(page_id) =~= old(self).chains_map().remove(page_id));
            assert forall|p: PageId, i: int| #[trigger] self.version_chains.view_map().contains_key(p) && 0 <= i < self.version_chains.view_map()[p].versions@.len()
                implies #[trigger] self.version_chains.view_map()[p].versions@[i].created_at <= self.timestamp_counter by {
                if p == page_id {
                    let v = c.versions@[i];
                    assert(pushed.contains(v));
                    let k = choose|k: int| 0 <= k < s.push(version).len() && s.push(version)[k] == v;
                    if k < s.len() {
                        assert(s[k].created_at < timestamp);
                    }
                } else {
                    assert(old(self).version_chains.view_map().contains_key(p));
                    assert(old(self).version_chains.view_map()[p] == self.version_chains.view_map()[p]);
                }
            }
        }
        Ok(())
    }

    /// Get visible version for a transaction
    pub fn get_visible_version(&self, page_id: PageId, txn_id: TransactionId) -> (r: StorageResult<Option<Arc<Page>>>)
        requires
            self.inv(),
        ensures
            r is Ok,
            ({
                let vis = if self.snapshots_map().contains_key(txn_id) {
                    visible_version(
                        self.page_versions(page_id),
                        txn_id,
                        self.snapshots_map()[txn_id].timestamp,
                        self.snapshots_map()[txn_id].active_transactions@,
                    )
                } else {
                    None
                };
                &&& r->Ok_0 is Some <==> vis is Some
                &&& r->Ok_0 is Some ==> r->Ok_0->0 == vis->0.data
            }),
    {
        match self.transaction_snapshots.get(&txn_id) {
            Some(snapshot) => match self.version_chains.get(&page_id) {
                Some(chain) => match chain.get_visible_version(txn_id, snapshot.timestamp, &snapshot.active_transactions) {
                    Some(version) => Ok(Some(share_page(&version.data))),
                    None => Ok(None),
                },
                None => {
                    proof {
                        assert(last_match(Seq::<VersionInfo>::empty(), created_by_txn(txn_id)) is None);
                    }
                    Ok(None)
                },
            },
            None => Ok(None),
        }
    }

    /// Apply a per-chain change to every chain: commit (`abort == false`) or
    /// remove (`abort == true`) the versions of `txn_id`.
    fn update_chains(&mut self, txn_id: TransactionId, abort: bool)
        requires
            old(self).inv(),
        ensures
            final(self).inv(),
            final(self).chains_map().dom() == old(self).chains_map().dom(),
            forall|p: PageId| #[trigger] final(self).page_versions(p) == if abort {
                old(self).page_versions(p).filter(not_created_by(txn_id))
            } else {
                old(self).page_versions(p).map_values(commit_if_by(txn_id))
            },
            forall|p: PageId| #[trigger] final(self).page_latest(p) == old(self).page_latest(p),
            final(self).counter() == old(self).counter(),
            final(self).snapshots_map() == old(self).snapshots_map(),
            final(self).oldest_active() == old(self).oldest_active(),
            final(self).commits_map() == old(self).commits_map(),
            final(self).dot_states_map() == old(self).dot_states_map(),
            final(self).dot_manager() == old(self).dot_manager(),
            final(self).gc_limit() == old(self).gc_limit(),
    {
        let ghost s = self.version_chains.entries@;
        proof {
            assert forall|i: int| 0 <= i < s.len() implies (#[trigger] s[i]).1.wf() by {
                crate::assoc_list::lemma_distinct_last_index(s, i);
            }
        }
        let mut i: usize = 0;
        while i < self.version_chains.entries.len()
            invariant
                i <= s.len(),
                self.version_chains.wf(),
                self.version_chains.entries@.len() == s.len(),
                distinct_keys(s),
                forall|j: int| 0 <= j < s.len() ==> (#[trigger] s[j]).1.wf(),
                forall|j: int| 0 <= j < i ==> #[trigger] self.version_chains.entries@[j].0@ == s[j].0@ && chain_updated(s[j].1, self.version_chains.entries@[j].1, txn_id, abort),
                forall|j: int| i <= j < s.len() ==> #[trigger] self.version_chains.entries@[j] == s[j],
                self.timestamp_counter == old(self).timestamp_counter,
                self.transaction_snapshots == old(self).transaction_snapshots,
                self.commit_timestamps == old(self).commit_timestamps,
                self.transaction_dot_states == old(self).transaction_dot_states,
                self.dot_version_manager == old(self).dot_version_manager,
                self.gc_threshold == old(self).gc_threshold,
                s == old(self).version_chains.entries@,
            decreases s.len() - i,
        {
            let mut c = self.version_chains.replace_value(i, VersionChain::default());
            assert(c == s[i as int].1);
            if abort {
                c.remove_by(txn_id);
            } else {
                c.commit_by(txn_id);
            }
            self.version_chains.set_value(i, c);
            assert(self.version_chains.entries@[i as int].1 == c);
            assert(c.wf());
            assert(c.latest() == s[i as int].1.latest());
            if abort {
                assert(c.versions_seq() == s[i as int].1.versions_seq().filter(not_created_by(txn_id)));
            } else {
                assert(c.versions_seq() == s[i as int].1.versions_seq().map_values(commit_if_by(txn_id)));
            }
            assert(chain_updated(s[i as int].1, self.version_chains.entries@[i as int].1, txn_id, abort));
            i = i + 1;
        }
        proof {
            let t = self.version_chains.entries@;
            assert forall|j: int| 0 <= j < s.len() implies #[trigger] t[j].0@ == s[j].0@ && chain_updated(s[j].1, t[j].1, txn_id, abort) by {}
            lemma_map_of_pointwise(s, t, |a: VersionChain, b: VersionChain| chain_updated(a, b, txn_id, abort));
            assert forall|p: PageId, k: int| #[trigger] self.version_chains.view_map().contains_key(p) && 0 <= k < self.version_chains.view_map()[p].versions@.len()
                implies #[trigger] self.version_chains.view_map()[p].versions@[k].created_at <= self.timestamp_counter by {
                let a = old(self).version_chains.view_map()[p];
                let b = self.version_chains.view_map()[p];
                assert(chain_updated(a, b, txn_id, abort));
                let v = b.versions@[k];
                if abort {
                    crate::seq_util::lemma_filter_sub(a.versions@, not_created_by(txn_id));
                    assert(b.versions@ == a.versions@.filter(not_created_by(txn_id)));
                    assert(v == a.versions@.filter(not_created_by(txn_id))[k]);
                    assert(a.versions@.contains(v));
                    let m = choose|m: int| 0 <= m < a.versions@.len() && a.versions@[m] == v;
                    assert(a.versions@[m].created_at <= old(self).timestamp_counter);
                } else {
                    assert(a.versions@[k].created_at <= old(self).timestamp_counter);
                }
            }
            assert forall|p: PageId| #[trigger] self.version_chains.view_map().contains_key(p) implies self.version_chains.view_map()[p].wf() by {
                assert(chain_updated(old(self).version_chains.view_map()[p], self.version_chains.view_map()[p], txn_id, abort));
            }
            assert forall|p: PageId| #[trigger] self.page_versions(p) == if abort {
                old(self).page_versions(p).filter(not_created_by(txn_id))
            } else {
                old(self).page_versions(p).map_values(commit_if_by(txn_id))
            } by {
                if self.chains_map().contains_key(p) {
                    assert(chain_updated(old(self).version_chains.view_map()[p], self.version_chains.view_map()[p], txn_id, abort));
                } else {
                    assert(Seq::<VersionInfo>::empty().filter(not_created_by(txn_id)) =~= Seq::<VersionInfo>::empty());
                    assert(Seq::<VersionInfo>::empty().map_values(commit_if_by(txn_id)) =~= Seq::<VersionInfo>::empty());
                }
            }
            assert forall|p: PageId| #[trigger] self.page_latest(p) == old(self).page_latest(p) by {
                if self.chains_map().contains_key(p) {
                    assert(chain_updated(old(self).version_chains.view_map()[p], self.version_chains.view_map()[p], txn_id, abort));
                }
            }
        }
    }

    /// Commit a transaction
    pub fn commit_transaction(&mut self, txn_id: TransactionId) -> (r: StorageResult<()>)
        requires
            old(self).inv(),
            old(self).counter() < u64::MAX,
        ensures
            final(self).inv(),
            r is Ok,
            txn_committed(*old(self), *final(self), txn_id),
    {
        let commit_timestamp = self.next_timestamp();
        self.commit_timestamps.insert(txn_id, commit_timestamp);
        self.transaction_snapshots.remove(&txn_id);
        self.update_chains(txn_id, false);
        Ok(())
    }

    /// Abort a transaction
    pub fn abort_transaction(&mut self, txn_id: TransactionId) -> (r: StorageResult<()>)
        requires
            old(self).inv(),
        ensures
            final(self).inv(),
            r is Ok,
            txn_aborted(*old(self), *final(self), txn_id),
    {
        self.transaction_snapshots.remove(&txn_id);
        self.update_chains(txn_id, true);
        Ok(())
    }

    /// Get transaction commit timestamp
    pub fn get_commit_timestamp(&self, txn_id: TransactionId) -> (r: Option<Timestamp>)
        requires
            self.inv(),
        ensures
            r == (if self.commits_map().contains_key(txn_id) {
                Some(self.commits_map()[txn_id])
            } else {
                None
            }),
    {
        match self.commit_timestamps.get(&txn_id) {
            Some(t) => Some(*t),
            None => None,
        }
    }

    /// Check for write-write conflicts: a version of the page committed by a
    /// transaction that was running when `txn_id` took its snapshot.
    pub fn check_write_conflict(&self, page_id: PageId, txn_id: TransactionId) -> (r: StorageResult<bool>)
        requires
            self.inv(),
        ensures
            r == Ok::<bool, StorageError>(has_write_conflict(*self, page_id, txn_id)),
    {
        match self.transaction_snapshots.get(&txn_id) {
            Some(snapshot) => match self.version_chains.get(&page_id) {
                Some(chain) => {
                    let ghost s = chain.versions@;
                    let mut i: usize = 0;
                    while i < chain.versions.len()
                        invariant
                            i <= s.len(),
                            s == chain.versions@,
                            s == self.page_versions(page_id),
                            self.snapshots_map().contains_key(txn_id),
                            snapshot.active_transactions@ == self.snapshots_map()[txn_id].active_transactions@,
                            forall|j: int| 0 <= j < i ==> !#[trigger] write_conflicts(s[j], txn_id, snapshot.active_transactions@),
                        decreases s.len() - i,
                    {
                        let v = &chain.versions[i];
                        if v.created_by != txn_id && snapshot.active_transactions.contains(&v.created_by) && v.is_committed {
                            assert(write_conflicts(s[i as int], txn_id, snapshot.active_transactions@));
                            return Ok(true);
                        }
                        i = i + 1;
                    }
                    Ok(false)
                },
                None => Ok(false),
            },
            None => Ok(false),
        }
    }

    /// Create contract state version for a transaction
    pub fn create_contract_state_version(
        &mut self,
        txn_id: TransactionId,
        dot_address: DotAddress,
        mpt_root_hash: crate::state::mpt::lib::Hash,
        description: String,
    ) -> (r: StorageResult<StateVersionId>)
        requires
            old(self).inv(),
            old(self).dot_manager().counter() < u64::MAX,
        ensures
            final(self).inv(),
            r is Ok,
            version_created(old(self).dot_manager(), final(self).dot_manager(), dot_address, mpt_root_hash, description, r->Ok_0),
            final(self).dot_states_map().contains_key(txn_id),
            final(self).dot_states_of(txn_id) == old(self).dot_states_of(txn_id).push((dot_address, r->Ok_0)),
            final(self).dot_states_map().remove(txn_id) == old(self).dot_states_map().remove(txn_id),
            final(self).chains_map() == old(self).chains_map(),
            final(self).snapshots_map() == old(self).snapshots_map(),
            final(self).commits_map() == old(self).commits_map(),
            final(self).counter() == old(self).counter(),
            final(self).gc_limit() == old(self).gc_limit(),
    {
        let version_id = match self.dot_version_manager.create_version(dot_address, mpt_root_hash, description) {
            Ok(v) => v,
            Err(_) => {
                return Err(StorageError::Corruption("Failed to create contract version".to_string()));
            },
        };
        let mut states = match self.transaction_dot_states.remove(&txn_id) {
            Some(l) => l,
            None => Vec::new(),
        };
        states.push((dot_address, version_id));
        self.transaction_dot_states.insert(txn_id, states);
        proof {
            assert(self.dot_states_map().remove(txn_id) =~= old(self).dot_states_map().remove(txn_id));
        }
        Ok(version_id)
    }

    /// Get the contract state version visible at the transaction's snapshot:
    /// the finalized version created last at or before the snapshot.
    pub fn get_contract_state_at_snapshot(&self, txn_id: TransactionId, dot_address: DotAddress) -> (r: StorageResult<Option<&DotStateVersion>>)
        requires
            self.inv(),
        ensures
            !self.snapshots_map().contains_key(txn_id) ==> r matches Err(StorageError::InvalidOperation(_)),
            self.snapshots_map().contains_key(txn_id) ==> ({
                let best = latest_finalized_before(
                    self.dot_manager().dot_versions(dot_address@),
                    self.snapshots_map()[txn_id].timestamp,
                );
                &&& r is Ok
                &&& r->Ok_0 is Some <==> best is Some
                &&& r->Ok_0 is Some ==> *r->Ok_0->0 == best->0
            }),
    {
        match self.transaction_snapshots.get(&txn_id) {
            Some(snapshot) => {
                let all_versions = self.dot_version_manager.get_all_versions(dot_address);
                let ghost s = self.dot_version_manager.dot_versions(dot_address@);
                let ts = snapshot.timestamp;
                let mut visible: Option<&DotStateVersion> = None;
                let mut i: usize = 0;
                while i < all_versions.len()
                    invariant
                        i <= s.len(),
                        crate::state::versioning::refs_to(all_versions@, s),
                        visible is Some <==> latest_finalized_before(s.take(i as int), ts) is Some,
                        visible is Some ==> *visible->0 == latest_finalized_before(s.take(i as int), ts)->0,
                    decreases s.len() - i,
                {
                    assert(s.take(i + 1).drop_last() =~= s.take(i as int));
                    assert(s.take(i + 1).last() == s[i as int]);
                    let v: &DotStateVersion = all_versions[i];
                    if v.created_at <= ts && v.is_finalized {
                        let better = match visible {
                            None => true,
                            Some(cur) => v.created_at > cur.created_at,
                        };
                        if better {
                            visible = Some(v);
                        }
                    }
                    i = i + 1;
                }
                assert(s.take(s.len() as int) =~= s);
                Ok(visible)
            },
            None => Err(StorageError::InvalidOperation("Transaction not found".to_string())),
        }
    }

    /// Commit contract state changes for a transaction: finalize, in order,
    /// each contract version the transaction created; the first one that is
    /// no longer stored stops the commit with an error.
    pub fn commit_contract_states(&mut self, txn_id: TransactionId) -> (r: StorageResult<()>)
        requires
            old(self).inv(),
        ensures
            final(self).inv(),
            final(self).dot_states_map() == old(self).dot_states_map().remove(txn_id),
            ({
                let list = old(self).dot_states_of(txn_id);
                let m0 = old(self).dot_manager();
                let m1 = final(self).dot_manager();
                &&& (forall|j: int| 0 <= j < list.len() ==> #[trigger] entry_present(m0, list[j])) ==> r is Ok
                    && finalized_all(m0, m1, list)
                &&& !(forall|j: int| 0 <= j < list.len() ==> #[trigger] entry_present(m0, list[j])) ==> (r matches Err(
                    StorageError::Corruption(_),
                )) && exists|k: int|
                    0 <= k < list.len() && !entry_present(m0, #[trigger] list[k]) && (forall|j: int|
                        0 <= j < k ==> #[trigger] entry_present(m0, list[j])) && finalized_all(m0, m1, list.take(k))
            }),
            final(self).chains_map() == old(self).chains_map(),
            final(self).snapshots_map() == old(self).snapshots_map(),
            final(self).commits_map() == old(self).commits_map(),
            final(self).counter() == old(self).counter(),
            final(self).gc_limit() == old(self).gc_limit(),
    {
        let states = match self.transaction_dot_states.remove(&txn_id) {
            Some(l) => l,
            None => Vec::new(),
        };
        let ghost list = states@;
        assert(list == old(self).dot_states_of(txn_id));
        let ghost m0 = self.dot_version_manager;
        proof {
            lemma_finalized_none(m0);
            assert(list.take(0) =~= Seq::<(DotAddress, StateVersionId)>::empty());
        }
        let mut i: usize = 0;
        while i < states.len()
            invariant
                i <= list.len(),
                list == states@,
                list == old(self).dot_states_of(txn_id),
                m0 == old(self).dot_manager(),
                m0.inv(),
                forall|j: int| 0 <= j < i ==> #[trigger] entry_present(m0, list[j]),
                finalized_all(m0, self.dot_version_manager, list.take(i as int)),
                self.inv(),
                self.version_chains == old(self).version_chains,
                self.transaction_snapshots == old(self).transaction_snapshots,
                self.commit_timestamps == old(self).commit_timestamps,
                self.timestamp_counter == old(self).timestamp_counter,
                self.gc_threshold == old(self).gc_threshold,
                self.transaction_dot_states.view_map() == old(self).transaction_dot_states.view_map().remove(txn_id),
            decreases list.len() - i,
        {
            let (a, vid) = states[i];
            let ghost before = self.dot_version_manager;
            proof {
                lemma_presence_kept(m0, before, list.take(i as int), (a, vid));
            }
            match self.dot_version_manager.finalize_version(a, vid) {
                Ok(()) => {},
                Err(_) => {
                    proof {
                        assert(!entry_present(m0, list[i as int]));
                        assert(finalized_all(m0, self.dot_version_manager, list.take(i as int)));
                    }
                    return Err(StorageError::Corruption("Failed to finalize contract version".to_string()));
                },
            }
            proof {
                lemma_finalize_step(m0, before, self.dot_version_manager, list, i as int);
            }
            i = i + 1;
        }
        assert(list.take(list.len() as int) =~= list);
        Ok(())
    }

    /// Rollback contract state changes for a transaction: its versions are
    /// forgotten, not finalized.
    pub fn rollback_contract_states(&mut self, txn_id: TransactionId) -> (r: StorageResult<()>)
        requires
            old(self).inv(),
        ensures
            final(self).inv(),
            r is Ok,
            final(self).dot_states_map() == old(self).dot_states_map().remove(txn_id),
            final(self).dot_manager() == old(self).dot_manager(),
            final(self).chains_map() == old(self).chains_map(),
            final(self).snapshots_map() == old(self).snapshots_map(),
            final(self).commits_map() == old(self).commits_map(),
            final(self).counter() == old(self).counter(),
            final(self).gc_limit() == old(self).gc_limit(),
    {
        let _states = self.transaction_dot_states.remove(&txn_id);
        Ok(())
    }

    /// Total number of versions over all chains.
    pub closed spec fn total_versions(&self) -> int {
        sum_chain_lens(self.version_chains.entries@)
    }

    /// Get statistics about the MVCC system
    pub fn get_statistics(&self) -> (r: MVCCStatistics)
        requires
            self.inv(),
            self.total_versions() <= usize::MAX,
        ensures
            r.total_versions == self.total_versions(),
            r.total_pages == self.chains_map().len(),
            r.active_transactions == self.snapshots_map().len(),
    {
        let ghost s = self.version_chains.entries@;
        let mut total: usize = 0;
        let mut i: usize = 0;
        proof {
            lemma_sum_chain_lens_prefix(s);
        }
        while i < self.version_chains.entries.len()
            invariant
                i <= s.len(),
                s == self.version_chains.entries@,
                sum_chain_lens(s) <= usize::MAX,
                forall|k: int| 0 <= k <= s.len() ==> sum_chain_lens(#[trigger] s.take(k)) <= sum_chain_lens(s),
                total == sum_chain_lens(s.take(i as int)),
            decreases s.len() - i,
        {
            assert(s.take(i + 1).drop_last() =~= s.take(i as int));
            assert(s.take(i + 1).last() == s[i as int]);
            total = total + self.version_chains.entries[i].1.version_count();
            i = i + 1;
        }
        assert(s.take(s.len() as int) =~= s);
        MVCCStatistics {
            total_versions: total,
            total_pages: self.version_chains.len(),
            active_transactions: self.transaction_snapshots.len(),
        }
    }
}

impl Default for MVCCManager {
    fn default() -> (r: Self)
        ensures
            r.inv(),
            r.chains_map() == Map::<PageId, VersionChain>::empty(),
            r.snapshots_map() == Map::<TransactionId, TransactionSnapshot>::empty(),
            r.commits_map() == Map::<TransactionId, Timestamp>::empty(),
            r.dot_states_map() == Map::<TransactionId, Vec<(DotAddress, StateVersionId)>>::empty(),
            r.gc_limit() == 1000,
            fresh_manager(r.dot_manager(), 100),
    {
        Self::new()
    }
}

/// Chain `b` is chain `a` after the versions of `txn` were removed
/// (`abort`) or committed.
pub open spec fn chain_updated(a: VersionChain, b: VersionChain, txn: TransactionId, abort: bool) -> bool {
    &&& a.wf()
    &&& b.wf()
    &&& b.latest() == a.latest()
    &&& b.versions_seq() == if abort {
        a.versions_seq().filter(not_created_by(txn))
    } else {
        a.versions_seq().map_values(commit_if_by(txn))
    }
}

/// Whether some version of page `p` was committed by a transaction that was
/// running when `txn` took its snapshot.
pub open spec fn has_write_conflict(m: MVCCManager, p: PageId, txn: TransactionId) -> bool {
    m.snapshots_map().contains_key(txn) && exists|i: int|
        0 <= i < m.page_versions(p).len() && #[trigger] write_conflicts(
            m.page_versions(p)[i],
            txn,
            m.snapshots_map()[txn].active_transactions@,
        )
}

/// `new` is `old` after transaction `txn` committed: it got the next
/// timestamp as commit timestamp, its versions are committed, its snapshot
/// is dropped; nothing else changed.
pub open spec fn txn_committed(old: MVCCManager, new: MVCCManager, txn: TransactionId) -> bool {
    &&& new.counter() == old.counter() + 1
    &&& new.commits_map() == old.commits_map().insert(txn, (old.counter() + 1) as u64)
    &&& new.snapshots_map() == old.snapshots_map().remove(txn)
    &&& new.chains_map().dom() == old.chains_map().dom()
    &&& forall|p: PageId| #[trigger] new.page_versions(p) == old.page_versions(p).map_values(commit_if_by(txn))
    &&& forall|p: PageId| #[trigger] new.page_latest(p) == old.page_latest(p)
    &&& new.dot_states_map() == old.dot_states_map()
    &&& new.dot_manager() == old.dot_manager()
    &&& new.gc_limit() == old.gc_limit()
}

/// `new` is `old` after transaction `txn` aborted: its versions are gone and
/// its snapshot is dropped; nothing else changed.
pub open spec fn txn_aborted(old: MVCCManager, new: MVCCManager, txn: TransactionId) -> bool {
    &&& new.counter() == old.counter()
    &&& new.commits_map() == old.commits_map()
    &&& new.snapshots_map() == old.snapshots_map().remove(txn)
    &&& new.chains_map().dom() == old.chains_map().dom()
    &&& forall|p: PageId| #[trigger] new.page_versions(p) == old.page_versions(p).filter(not_created_by(txn))
    &&& forall|p: PageId| #[trigger] new.page_latest(p) == old.page_latest(p)
    &&& new.dot_states_map() == old.dot_states_map()
    &&& new.dot_manager() == old.dot_manager()
    &&& new.gc_limit() == old.gc_limit()
}

/// Whether version `v` is a write of another transaction that was running
/// when `txn` took its snapshot and has committed.
pub open spec fn write_conflicts(v: VersionInfo, txn: TransactionId, active: Set<TransactionId>) -> bool {
    v.created_by != txn && active.contains(v.created_by) && v.is_committed
}

/// Sum of the chain lengths of a list of chain entries.
pub open spec fn sum_chain_lens(s: Seq<(PageId, VersionChain)>) -> int
    decreases s.len(),
{
    if s.len() == 0 {
        0
    } else {
        sum_chain_lens(s.drop_last()) + s.last().1.versions_seq().len()
    }
}

proof fn lemma_sum_chain_lens_prefix(s: Seq<(PageId, VersionChain)>)
    ensures
        forall|k: int| 0 <= k <= s.len() ==> sum_chain_lens(#[trigger] s.take(k)) <= sum_chain_lens(s),
    decreases s.len(),
{
    if s.len() > 0 {
        lemma_sum_chain_lens_prefix(s.drop_last());
        assert forall|k: int| 0 <= k <= s.len() implies sum_chain_lens(#[trigger] s.take(k)) <= sum_chain_lens(s) by {
            if k == s.len() {
                assert(s.take(k) =~= s);
            } else {
                assert(s.take(k) =~= s.drop_last().take(k));
            }
        }
    }
}

proof fn lemma_min_snapshot_ts(s: Seq<(TransactionId, TransactionSnapshot)>)
    ensures
        min_snapshot_ts(s) is None <==> s.len() == 0,
        min_snapshot_ts(s) is Some ==> exists|i: int| 0 <= i < s.len() && #[trigger] s[i].1.timestamp == min_snapshot_ts(s)->0,
        forall|i: int| 0 <= i < s.len() ==> min_snapshot_ts(s)->0 <= #[trigger] s[i].1.timestamp,
    decreases s.len(),
{
    if s.len() > 0 {
        let t = s.drop_last();
        lemma_min_snapshot_ts(t);
        assert forall|i: int| 0 <= i < s.len() implies min_snapshot_ts(s)->0 <= #[trigger] s[i].1.timestamp by {
            if i < s.len() - 1 {
                assert(t[i] == s[i]);
            }
        }
        if min_snapshot_ts(t) is Some && min_snapshot_ts(t)->0 <= s.last().1.timestamp {
            let i = choose|i: int| 0 <= i < t.len() && #[trigger] t[i].1.timestamp == min_snapshot_ts(t)->0;
            assert(s[i] == t[i]);
        } else {
            assert(s[s.len() - 1] == s.last());
        }
    }
}

/// Finalizing nothing is a no-op.
proof fn lemma_finalized_none(m: DotVersionManager)
    requires
        m.inv(),
    ensures
        finalized_all(m, m, Seq::empty()),
{
    assert forall|b: Seq<u8>| #[trigger] m.dot_versions(b) == finalize_listed(m.dot_versions(b), Seq::empty(), b) by {
        assert(m.dot_versions(b) =~= finalize_listed(m.dot_versions(b), Seq::empty(), b));
    }
}

/// Finalizing versions keeps every version present.
proof fn lemma_presence_kept(
    m0: DotVersionManager,
    m: DotVersionManager,
    done: Seq<(DotAddress, StateVersionId)>,
    e: (DotAddress, StateVersionId),
)
    requires
        finalized_all(m0, m, done),
    ensures
        entry_present(m, e) == entry_present(m0, e),
{
    let s0 = m0.dot_versions(e.0@);
    let s = m.dot_versions(e.0@);
    assert(s == finalize_listed(s0, done, e.0@));
    crate::seq_util::lemma_last_match_some(s0, has_id(e.1));
    crate::seq_util::lemma_last_match_some(s, has_id(e.1));
    if exists|i: int| 0 <= i < s0.len() && #[trigger] has_id(e.1)(s0[i]) {
        let i = choose|i: int| 0 <= i < s0.len() && #[trigger] has_id(e.1)(s0[i]);
        assert(has_id(e.1)(s[i]));
    }
    if exists|i: int| 0 <= i < s.len() && #[trigger] has_id(e.1)(s[i]) {
        let i = choose|i: int| 0 <= i < s.len() && #[trigger] has_id(e.1)(s[i]);
        assert(has_id(e.1)(s0[i]));
    }
}

/// One more finalized entry extends the finalized prefix.
proof fn lemma_finalize_step(
    m0: DotVersionManager,
    before: DotVersionManager,
    after: DotVersionManager,
    list: Seq<(DotAddress, StateVersionId)>,
    i: int,
)
    requires
        0 <= i < list.len(),
        finalized_all(m0, before, list.take(i)),
        entry_present(before, list[i]),
        after.inv(),
        after.dot_versions(list[i].0@) == map_version(before.dot_versions(list[i].0@), list[i].1, finalized_version()),
        forall|b: Seq<u8>| #[trigger] after.dot_versions(b) == before.dot_versions(b) || b == list[i].0@,
        forall|b: Seq<u8>| #[trigger] after.has_dot(b) == before.has_dot(b),
        after.current_map() == before.current_map(),
        after.active_map() == before.active_map(),
        after.counter() == before.counter(),
        after.max_versions() == before.max_versions(),
    ensures
        finalized_all(m0, after, list.take(i + 1)),
{
    let a = list[i].0@;
    let id = list[i].1;
    let d0 = list.take(i);
    let d1 = list.take(i + 1);
    assert forall|b: Seq<u8>, x: StateVersionId| #[trigger] listed(d1, b, x) == (listed(d0, b, x) || (b == a && x == id)) by {
        if listed(d0, b, x) {
            let j = choose|j: int| 0 <= j < d0.len() && #[trigger] d0[j].0@ == b && d0[j].1 == x;
            assert(d1[j] == d0[j]);
        }
        if b == a && x == id {
            assert(d1[i].0@ == b && d1[i].1 == x);
        }
        if listed(d1, b, x) {
            let j = choose|j: int| 0 <= j < d1.len() && #[trigger] d1[j].0@ == b && d1[j].1 == x;
            if j < i {
                assert(d0[j] == d1[j]);
            }
        }
    }
    assert forall|b: Seq<u8>| #[trigger] after.dot_versions(b) == finalize_listed(m0.dot_versions(b), d1, b) by {
        let s0 = m0.dot_versions(b);
        if b == a {
            assert(after.dot_versions(b) =~= finalize_listed(s0, d1, b));
        } else {
            assert(after.dot_versions(b) == before.dot_versions(b));
            assert(finalize_listed(s0, d1, b) =~= finalize_listed(s0, d0, b));
        }
    }
}

/// Statistics about the MVCC system
#[derive(Debug, Clone, Copy)]
pub struct MVCCStatistics {
    /// Total number of versions across all pages
    pub total_versions: usize,
    /// Total number of pages with versions
    pub total_pages: usize,
    /// Number of active transactions
    pub active_transactions: usize,
}

} // verus!
