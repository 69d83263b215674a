//! State pruning: a registry of state roots with their heights, timestamps
//! and sizes; strategies that choose which confirmed states to remove; and the
//! removal of a state's trie nodes from the current trie's storage.
use vstd::prelude::*;

use crate::assoc_list::{AssocList, lemma_map_of_len};
use crate::state::mpt::codec::bytes_equal;
use crate::state::mpt::lib::{MPTError, NodeId};
use crate::state::mpt::node::{Node, NodeType, NodeView, children_view, size_of};
use crate::state::mpt::trie::{NodeStorage, TrieFault, max_depth};
use crate::state::snapshot::{SnapshotManager, StateSnapshot, decimal, decimal_text, sat_sub};
use crate::storage_engine::lib::unix_time_secs;

verus! {

/// Different pruning strategies available for state cleanup
#[derive(Debug, Clone, PartialEq, Eq)]
pub enum PruningStrategy {
    /// Keep the last N states
    KeepLast(usize),
    /// Keep states newer than X seconds
    KeepRecent(u64),
    /// Keep states at specific block heights/intervals
    KeepAtIntervals(u64),
    /// Custom pruning based on multiple criteria
    Custom {
        /// Number of most recent states to keep
        keep_last: Option<usize>,
        /// Keep states newer than this many seconds
        keep_recent_seconds: Option<u64>,
        /// Keep states at these block height intervals
        keep_intervals: Option<u64>,
        /// Whether to preserve states referenced by snapshots
        keep_snapshots: bool,
    },
}

impl Default for PruningStrategy {
    fn default() -> (r: Self)
        ensures
            r == (PruningStrategy::Custom {
                keep_last: Some(100),
                keep_recent_seconds: Some(604800),
                keep_intervals: Some(1000),
                keep_snapshots: true,
            }),
    {
        PruningStrategy::Custom {
            keep_last: Some(100),
            keep_recent_seconds: Some(86400 * 7),
            keep_intervals: Some(1000),
            keep_snapshots: true,
        }
    }
}

/// Configuration for state pruning operations
#[derive(Debug, Clone)]
pub struct PruningPolicy {
    /// The pruning strategy to use
    pub strategy: PruningStrategy,
    /// Whether pruning is enabled
    pub enabled: bool,
    /// Automatic pruning interval in seconds
    pub auto_prune_interval: Option<u64>,
    /// Minimum number of confirmations before pruning (safety margin)
    pub min_confirmations: u64,
    /// Whether to keep state roots that are referenced by snapshots
    pub preserve_snapshot_roots: bool,
    /// Maximum storage size before forced pruning (in bytes)
    pub max_storage_size: Option<u64>,
}

impl Default for PruningPolicy {
    fn default() -> (r: Self)
        ensures
            r.strategy == (PruningStrategy::Custom {
                keep_last: Some(100),
                keep_recent_seconds: Some(604800),
                keep_intervals: Some(1000),
                keep_snapshots: true,
            }),
            r.enabled,
            r.auto_prune_interval == Some(3600u64),
            r.min_confirmations == 6,
            r.preserve_snapshot_roots,
            r.max_storage_size == Some(1073741824u64),
    {
        Self {
            strategy: PruningStrategy::default(),
            enabled: true,
            auto_prune_interval: Some(3600),
            min_confirmations: 6,
            preserve_snapshot_roots: true,
            max_storage_size: Some(1024 * 1024 * 1024),
        }
    }
}

/// Information about a state that can be pruned
#[derive(Debug, Clone, Copy)]
pub struct PrunableState {
    /// Root hash of the state
    pub root_hash: crate::state::mpt::lib::Hash,
    /// Block height or sequence number
    pub height: u64,
    /// Timestamp when the state was created
    pub timestamp: u64,
    /// Size of the state data in bytes
    pub size_bytes: u64,
    /// Whether this state is referenced by a snapshot
    pub is_snapshot_root: bool,
    /// Whether this state has enough confirmations
    pub has_confirmations: bool,
}

/// Result of a pruning operation
#[derive(Debug, Clone)]
pub struct PruningResult {
    /// Number of states that were pruned
    pub pruned_count: usize,
    /// Total bytes reclaimed
    pub bytes_reclaimed: u64,
    /// Root hashes of pruned states
    pub pruned_roots: Vec<crate::state::mpt::lib::Hash>,
    /// States that were preserved (with reasons)
    pub preserved_states: Vec<(crate::state::mpt::lib::Hash, String)>,
    /// Any errors encountered during pruning
    pub errors: Vec<String>,
}

impl Default for PruningResult {
    fn default() -> (r: Self)
        ensures
            r.pruned_count == 0,
            r.bytes_reclaimed == 0,
            r.pruned_roots@.len() == 0,
            r.preserved_states@.len() == 0,
            r.errors@.len() == 0,
    {
        Self {
            pruned_count: 0,
            bytes_reclaimed: 0,
            pruned_roots: Vec::new(),
            preserved_states: Vec::new(),
            errors: Vec::new(),
        }
    }
}

/// Error types for pruning operations
#[derive(Debug, Clone, PartialEq, Eq)]
pub enum PruningError {
    /// MPT operation failed
    MPTError(String),
    /// Invalid pruning configuration
    InvalidConfig(String),
    /// Pruning operation failed
    PruningFailed(String),
    /// State is protected and cannot be pruned
    StateProtected(crate::state::mpt::lib::Hash),
    /// I/O error during pruning
    IoError(String),
}

/// Type alias for pruning operation results
pub type PruningResult_<T> = Result<T, PruningError>;

/// Statistics about pruning operations
#[derive(Debug, Clone)]
pub struct PruningStats {
    /// Total number of pruning operations performed
    pub total_prune_operations: u64,
    /// Total states pruned
    pub total_states_pruned: u64,
    /// Total bytes reclaimed
    pub total_bytes_reclaimed: u64,
    /// Last pruning timestamp
    pub last_prune_timestamp: Option<u64>,
    /// Average pruning duration in milliseconds
    pub avg_prune_duration_ms: u64,
}

impl Default for PruningStats {
    fn default() -> (r: Self)
        ensures
            r.total_prune_operations == 0,
            r.total_states_pruned == 0,
            r.total_bytes_reclaimed == 0,
            r.last_prune_timestamp is None,
            r.avg_prune_duration_ms == 0,
    {
        Self {
            total_prune_operations: 0,
            total_states_pruned: 0,
            total_bytes_reclaimed: 0,
            last_prune_timestamp: None,
            avg_prune_duration_ms: 0,
        }
    }
}

/// The oldest candidates beyond the last `n`: all but the last `n` of `c`.
pub open spec fn beyond_last(c: Seq<PrunableState>, n: nat) -> Seq<PrunableState> {
    if c.len() > n {
        c.take(c.len() - n)
    } else {
        Seq::empty()
    }
}

/// Whether a state is older than `seconds` at time `now`.
pub open spec fn too_old(s: PrunableState, now: u64, seconds: u64) -> bool {
    sat_sub(now, s.timestamp) > seconds
}

/// The last kept height after an interval scan of the first `i` states of
/// `c`, starting from height 0.
pub open spec fn scan_last(c: Seq<PrunableState>, interval: u64, i: nat) -> u64
    decreases i, 0nat,
{
    if i == 0 {
        0
    } else if interval_keeps(c, interval, (i - 1) as nat) {
        c[i - 1].height
    } else {
        scan_last(c, interval, (i - 1) as nat)
    }
}

/// Whether an interval scan keeps state `i` of `c`: its height is at least
/// `interval` above the last kept one (0 before any).
pub open spec fn interval_keeps(c: Seq<PrunableState>, interval: u64, i: nat) -> bool
    decreases i, 1nat,
{
    sat_sub(c[i as int].height, scan_last(c, interval, i)) >= interval
}

/// The first `n` states of `c` that an interval scan keeps (`want`) or
/// drops (`!want`), in order.
pub open spec fn interval_select(c: Seq<PrunableState>, interval: u64, want: bool, n: nat) -> Seq<
    PrunableState,
>
    decreases n,
{
    if n == 0 {
        Seq::empty()
    } else {
        interval_select(c, interval, want, (n - 1) as nat) + if interval_keeps(
            c,
            interval,
            (n - 1) as nat,
        ) == want {
            seq![c[n - 1]]
        } else {
            Seq::empty()
        }
    }
}

/// The root hashes of `c`.
pub open spec fn roots(c: Seq<PrunableState>) -> Seq<Seq<u8>> {
    c.map_values(|s: PrunableState| s.root_hash@)
}

/// The states a strategy proposes to prune, and the roots it keeps, for
/// candidates `c` at time `now`.
pub open spec fn strategy_choice(strategy: PruningStrategy, c: Seq<PrunableState>, now: u64) -> (
    Seq<PrunableState>,
    Seq<Seq<u8>>,
) {
    match strategy {
        PruningStrategy::KeepLast(n) => (beyond_last(c, n as nat), Seq::empty()),
        PruningStrategy::KeepRecent(seconds) => (
            c.filter(|s: PrunableState| too_old(s, now, seconds)),
            roots(c.filter(|s: PrunableState| !too_old(s, now, seconds))),
        ),
        PruningStrategy::KeepAtIntervals(interval) => (
            interval_select(c, interval, false, c.len()),
            roots(interval_select(c, interval, true, c.len())),
        ),
        PruningStrategy::Custom { keep_last, keep_recent_seconds, keep_intervals, keep_snapshots } => (
            match keep_last {
                Some(n) => beyond_last(c, n as nat),
                None => Seq::empty(),
            },
            match keep_recent_seconds {
                Some(seconds) => roots(c.filter(|s: PrunableState| !too_old(s, now, seconds))),
                None => Seq::empty(),
            } + match keep_intervals {
                Some(interval) => roots(interval_select(c, interval, true, c.len())),
                None => Seq::empty(),
            } + if keep_snapshots {
                roots(c.filter(|s: PrunableState| s.is_snapshot_root))
            } else {
                Seq::empty()
            },
        ),
    }
}

/// The states a strategy prunes among candidates `c` at time `now`: those
/// it proposes whose root it does not keep.
pub open spec fn strategy_prunes(strategy: PruningStrategy, c: Seq<PrunableState>, now: u64) -> Seq<
    PrunableState,
> {
    let (to_prune, to_keep) = strategy_choice(strategy, c, now);
    to_prune.filter(|s: PrunableState| !to_keep.contains(s.root_hash@))
}

/// The byte sequences of a list of hashes.
pub open spec fn hash_views(v: Seq<crate::state::mpt::lib::Hash>) -> Seq<Seq<u8>> {
    v.map_values(|h: crate::state::mpt::lib::Hash| h@)
}

/// Every state that a scan selects among the first `n` candidates is one of them.
proof fn lemma_interval_select_from(c: Seq<PrunableState>, interval: u64, want: bool, n: nat)
    requires
        n <= c.len(),
    ensures
        forall|k: int|
            0 <= k < interval_select(c, interval, want, n).len() ==> exists|i: int|
                0 <= i < n && #[trigger] interval_select(c, interval, want, n)[k] == #[trigger] c[i],
    decreases n,
{
    if n > 0 {
        lemma_interval_select_from(c, interval, want, (n - 1) as nat);
        let prev = interval_select(c, interval, want, (n - 1) as nat);
        let cur = interval_select(c, interval, want, n);
        assert forall|k: int| 0 <= k < cur.len() implies exists|i: int| 0 <= i < n && #[trigger] cur[k] == #[trigger] c[i] by {
            if k < prev.len() {
                assert(cur[k] == prev[k]);
                let i = choose|i: int| 0 <= i < n - 1 && prev[k] == #[trigger] c[i];
                assert(cur[k] == c[i]);
            } else {
                assert(cur[k] == c[n - 1]);
            }
        }
    }
}

/// A filter whose predicate holds of every element keeps the sequence whole.
proof fn lemma_filter_keeps_all(x: Seq<PrunableState>, p: spec_fn(PrunableState) -> bool)
    requires
        forall|i: int| 0 <= i < x.len() ==> p(#[trigger] x[i]),
    ensures
        x.filter(p) == x,
    decreases x.len(),
{
    reveal_with_fuel(Seq::<_>::filter, 1);
    if x.len() > 0 {
        lemma_filter_keeps_all(x.drop_last(), p);
        assert(x.drop_last().push(x.last()) =~= x);
    }
}

/// A state among `x` has its root among the roots of `x`.
proof fn lemma_root_listed(x: Seq<PrunableState>, s: PrunableState)
    requires
        x.contains(s),
    ensures
        roots(x).contains(s.root_hash@),
{
    let m = choose|m: int| 0 <= m < x.len() && x[m] == s;
    assert(roots(x)[m] == s.root_hash@);
}

/// A candidate that meets a filter's predicate is among what the filter keeps.
proof fn lemma_filter_has(c: Seq<PrunableState>, p: spec_fn(PrunableState) -> bool, s: PrunableState)
    requires
        c.contains(s),
        p(s),
    ensures
        c.filter(p).contains(s),
{
    let i = choose|i: int| 0 <= i < c.len() && c[i] == s;
    c.lemma_filter_contains(p, i);
}

/// A state that a filter keeps is among the input and meets the predicate.
proof fn lemma_filter_gives(c: Seq<PrunableState>, p: spec_fn(PrunableState) -> bool, s: PrunableState)
    requires
        c.filter(p).contains(s),
    ensures
        c.contains(s),
        p(s),
{
    c.lemma_filter_contains_rev(p, s);
    let k = choose|k: int| 0 <= k < c.filter(p).len() && c.filter(p)[k] == s;
    c.lemma_filter_pred(p, k);
}

/// What each strategy prunes, stated over the candidates themselves. Only
/// candidates are pruned. `KeepLast(n)` prunes exactly the candidates before
/// the last `n`, in order. `KeepRecent(secs)` prunes only states older than
/// `secs` at `now`, and every older one whose root no newer candidate shares.
/// Under `Custom`, nothing is pruned without `keep_last`; only candidates
/// before the last `keep_last` are pruned; none newer than
/// `keep_recent_seconds`; and with `keep_snapshots`, no snapshot root.
pub proof fn lemma_strategy_prunes(strategy: PruningStrategy, c: Seq<PrunableState>, now: u64)
    ensures
        forall|s: PrunableState| #[trigger] strategy_prunes(strategy, c, now).contains(s) ==> c.contains(s),
        strategy matches PruningStrategy::KeepLast(n) ==> {
            &&& strategy_prunes(strategy, c, now).len() == if c.len() > n { c.len() - n } else { 0 }
            &&& forall|i: int|
                0 <= i < strategy_prunes(strategy, c, now).len() ==> #[trigger] strategy_prunes(strategy, c, now)[i]
                    == c[i]
        },
        strategy matches PruningStrategy::KeepRecent(secs) ==> {
            &&& forall|s: PrunableState| #[trigger]
                strategy_prunes(strategy, c, now).contains(s) ==> now > s.timestamp + secs
            &&& forall|i: int|
                0 <= i < c.len() && now > c[i].timestamp + secs && (forall|j: int|
                    0 <= j < c.len() && c[j].root_hash@ == c[i].root_hash@ ==> now > #[trigger] c[j].timestamp + secs)
                    ==> strategy_prunes(strategy, c, now).contains(#[trigger] c[i])
        },
        strategy matches PruningStrategy::Custom { keep_last, keep_recent_seconds, keep_snapshots, .. } ==> {
            &&& keep_last is None ==> strategy_prunes(strategy, c, now).len() == 0
            &&& keep_last matches Some(n) ==> forall|s: PrunableState| #[trigger]
                strategy_prunes(strategy, c, now).contains(s) ==> exists|i: int|
                    0 <= i < c.len() - n && #[trigger] c[i] == s
            &&& keep_recent_seconds matches Some(secs) ==> forall|s: PrunableState| #[trigger]
                strategy_prunes(strategy, c, now).contains(s) ==> now > s.timestamp + secs
            &&& keep_snapshots ==> forall|s: PrunableState| #[trigger]
                strategy_prunes(strategy, c, now).contains(s) ==> !s.is_snapshot_root
        },
{
    let (tp, tk) = strategy_choice(strategy, c, now);
    let q = |s: PrunableState| !tk.contains(s.root_hash@);
    let r = strategy_prunes(strategy, c, now);
    assert(r == tp.filter(q));
    // Each pruned state is proposed and its root is not kept.
    assert forall|s: PrunableState| r.contains(s) implies tp.contains(s) && !tk.contains(s.root_hash@) by {
        lemma_filter_gives(tp, q, s);
    }
    match strategy {
        PruningStrategy::KeepLast(n) => {
            assert forall|i: int| 0 <= i < tp.len() implies q(#[trigger] tp[i]) by {}
            lemma_filter_keeps_all(tp, q);
            assert forall|s: PrunableState| r.contains(s) implies c.contains(s) by {
                let k = choose|k: int| 0 <= k < r.len() && r[k] == s;
                assert(c[k] == s);
            }
        },
        PruningStrategy::KeepRecent(secs) => {
            let p = |s: PrunableState| too_old(s, now, secs);
            let np = |s: PrunableState| !too_old(s, now, secs);
            assert(tp == c.filter(p));
            assert(tk == roots(c.filter(np)));
            assert forall|s: PrunableState| r.contains(s) implies c.contains(s) && now > s.timestamp + secs by {
                lemma_filter_gives(c, p, s);
            }
            assert forall|i: int|
                0 <= i < c.len() && now > c[i].timestamp + secs && (forall|j: int|
                    0 <= j < c.len() && c[j].root_hash@ == c[i].root_hash@ ==> now > #[trigger] c[j].timestamp + secs)
                    implies r.contains(#[trigger] c[i]) by {
                let s = c[i];
                c.lemma_filter_contains(p, i);
                if tk.contains(s.root_hash@) {
                    let m = choose|m: int| 0 <= m < tk.len() && tk[m] == s.root_hash@;
                    let t = c.filter(np)[m];
                    assert(t.root_hash@ == s.root_hash@);
                    lemma_filter_gives(c, np, t);
                    let j = choose|j: int| 0 <= j < c.len() && c[j] == t;
                    assert(now > c[j].timestamp + secs);
                    assert(false);
                }
                lemma_filter_has(tp, q, s);
            }
        },
        PruningStrategy::KeepAtIntervals(interval) => {
            lemma_interval_select_from(c, interval, false, c.len());
            assert forall|s: PrunableState| r.contains(s) implies c.contains(s) by {
                let k = choose|k: int| 0 <= k < tp.len() && tp[k] == s;
                let i = choose|i: int| 0 <= i < c.len() && tp[k] == #[trigger] c[i];
                assert(c[i] == s);
            }
        },
        PruningStrategy::Custom { keep_last, keep_recent_seconds, keep_intervals, keep_snapshots } => {
            let a = match keep_recent_seconds {
                Some(secs) => roots(c.filter(|s: PrunableState| !too_old(s, now, secs))),
                None => Seq::empty(),
            };
            let b = match keep_intervals {
                Some(interval) => roots(interval_select(c, interval, true, c.len())),
                None => Seq::empty(),
            };
            let d = if keep_snapshots {
                roots(c.filter(|s: PrunableState| s.is_snapshot_root))
            } else {
                Seq::empty()
            };
            assert(tk == a + b + d);
            match keep_last {
                Some(n) => {
                    assert forall|s: PrunableState| r.contains(s) implies c.contains(s) && exists|i: int|
                        0 <= i < c.len() - n && #[trigger] c[i] == s by {
                        let k = choose|k: int| 0 <= k < tp.len() && tp[k] == s;
                        assert(c[k] == s);
                    }
                },
                None => {
                    assert(tp.len() == 0);
                    assert(r.len() == 0) by {
                        tp.lemma_filter_len(q);
                    }
                    assert forall|s: PrunableState| r.contains(s) implies c.contains(s) by {}
                },
            }
            match keep_recent_seconds {
                Some(secs) => {
                    let np = |s: PrunableState| !too_old(s, now, secs);
                    assert forall|s: PrunableState| r.contains(s) implies now > s.timestamp + secs by {
                        if !too_old(s, now, secs) {
                            lemma_filter_has(c, np, s);
                            lemma_root_listed(c.filter(np), s);
                            let m = choose|m: int| 0 <= m < a.len() && a[m] == s.root_hash@;
                            assert(tk[m] == s.root_hash@);
                        }
                    }
                },
                None => {},
            }
            if keep_snapshots {
                let sp = |s: PrunableState| s.is_snapshot_root;
                assert forall|s: PrunableState| r.contains(s) implies !s.is_snapshot_root by {
                    if s.is_snapshot_root {
                        lemma_filter_has(c, sp, s);
                        lemma_root_listed(c.filter(sp), s);
                        let m = choose|m: int| 0 <= m < d.len() && d[m] == s.root_hash@;
                        assert(tk[a.len() + b.len() + m] == s.root_hash@);
                    }
                }
            }
        },
    }
}

/// Whether `h` is among `keep`.
fn holds_root(keep: &Vec<crate::state::mpt::lib::Hash>, h: &crate::state::mpt::lib::Hash) -> (r: bool)
    ensures
        r == hash_views(keep@).contains(h@),
{
    let mut i: usize = 0;
    while i < keep.len()
        invariant
            i <= keep@.len(),
            forall|j: int| 0 <= j < i ==> keep@[j]@ != h@,
        decreases keep.len() - i,
    {
        if bytes_equal(keep[i].as_slice(), h.as_slice()) {
            assert(hash_views(keep@)[i as int] == h@);
            return true;
        }
        i = i + 1;
    }
    assert forall|j: int| 0 <= j < hash_views(keep@).len() implies hash_views(keep@)[j] != h@ by {
        assert(hash_views(keep@)[j] == keep@[j]@);
    }
    false
}

/// All but the last `n` candidates.
fn beyond_last_exec(c: &Vec<PrunableState>, n: usize) -> (r: Vec<PrunableState>)
    ensures
        r@ == beyond_last(c@, n as nat),
{
    let mut r: Vec<PrunableState> = Vec::new();
    if c.len() > n {
        let m = c.len() - n;
        let mut i: usize = 0;
        while i < m
            invariant
                i <= m,
                m == c@.len() - n,
                r@ == c@.take(i as int),
            decreases m - i,
        {
            r.push(c[i]);
            i = i + 1;
            assert(r@ =~= c@.take(i as int));
        }
    } else {
        assert(r@ =~= beyond_last(c@, n as nat));
    }
    r
}

/// The candidates older than `seconds` at `now`, and the roots of the others.
fn split_recent(c: &Vec<PrunableState>, now: u64, seconds: u64) -> (r: (Vec<PrunableState>, Vec<crate::state::mpt::lib::Hash>))
    ensures
        r.0@ == c@.filter(|s: PrunableState| too_old(s, now, seconds)),
        hash_views(r.1@) == roots(c@.filter(|s: PrunableState| !too_old(s, now, seconds))),
{
    let ghost p = |s: PrunableState| too_old(s, now, seconds);
    let ghost q = |s: PrunableState| !too_old(s, now, seconds);
    let mut old: Vec<PrunableState> = Vec::new();
    let mut keep: Vec<crate::state::mpt::lib::Hash> = Vec::new();
    let mut i: usize = 0;
    while i < c.len()
        invariant
            i <= c@.len(),
            p == (|s: PrunableState| too_old(s, now, seconds)),
            q == (|s: PrunableState| !too_old(s, now, seconds)),
            old@ == c@.take(i as int).filter(p),
            hash_views(keep@) == roots(c@.take(i as int).filter(q)),
        decreases c.len() - i,
    {
        let s = c[i];
        proof {
            assert(c@.take(i + 1).drop_last() =~= c@.take(i as int));
            reveal_with_fuel(Seq::<_>::filter, 1);
        }
        if now.saturating_sub(s.timestamp) > seconds {
            old.push(s);
            assert(old@ =~= c@.take(i + 1).filter(p));
            assert(hash_views(keep@) =~= roots(c@.take(i + 1).filter(q)));
        } else {
            let ghost before = keep@;
            keep.push(s.root_hash);
            assert(old@ =~= c@.take(i + 1).filter(p));
            assert(c@.take(i + 1).filter(q) =~= c@.take(i as int).filter(q).push(s));
            assert(hash_views(keep@) =~= hash_views(before).push(s.root_hash@));
            assert(hash_views(keep@) =~= roots(c@.take(i + 1).filter(q)));
        }
        i = i + 1;
    }
    assert(c@.take(i as int) =~= c@);
    (old, keep)
}

/// An interval scan of the candidates: the ones it drops, and the roots of
/// the ones it keeps.
fn split_intervals(c: &Vec<PrunableState>, interval: u64) -> (r: (Vec<PrunableState>, Vec<crate::state::mpt::lib::Hash>))
    ensures
        r.0@ == interval_select(c@, interval, false, c@.len()),
        hash_views(r.1@) == roots(interval_select(c@, interval, true, c@.len())),
{
    let mut dropped: Vec<PrunableState> = Vec::new();
    let mut keep: Vec<crate::state::mpt::lib::Hash> = Vec::new();
    let mut last_kept_height: u64 = 0;
    let mut i: usize = 0;
    while i < c.len()
        invariant
            i <= c@.len(),
            last_kept_height == scan_last(c@, interval, i as nat),
            dropped@ == interval_select(c@, interval, false, i as nat),
            hash_views(keep@) == roots(interval_select(c@, interval, true, i as nat)),
        decreases c.len() - i,
    {
        let s = c[i];
        let ghost kept_before = interval_select(c@, interval, true, i as nat);
        if s.height.saturating_sub(last_kept_height) >= interval {
            let ghost before = keep@;
            keep.push(s.root_hash);
            last_kept_height = s.height;
            assert(interval_select(c@, interval, true, (i + 1) as nat) =~= kept_before.push(s));
            assert(hash_views(keep@) =~= hash_views(before).push(s.root_hash@));
            assert(roots(kept_before.push(s)) =~= roots(kept_before).push(s.root_hash@));
            assert(dropped@ =~= interval_select(c@, interval, false, (i + 1) as nat));
        } else {
            let ghost before = dropped@;
            dropped.push(s);
            assert(dropped@ =~= interval_select(c@, interval, false, (i + 1) as nat));
            assert(interval_select(c@, interval, true, (i + 1) as nat) =~= kept_before);
        }
        i = i + 1;
    }
    (dropped, keep)
}

/// The roots of the candidates that snapshots reference.
fn snapshot_roots(c: &Vec<PrunableState>) -> (r: Vec<crate::state::mpt::lib::Hash>)
    ensures
        hash_views(r@) == roots(c@.filter(|s: PrunableState| s.is_snapshot_root)),
{
    let ghost p = |s: PrunableState| s.is_snapshot_root;
    let mut keep: Vec<crate::state::mpt::lib::Hash> = Vec::new();
    let mut i: usize = 0;
    while i < c.len()
        invariant
            i <= c@.len(),
            p == (|s: PrunableState| s.is_snapshot_root),
            hash_views(keep@) == roots(c@.take(i as int).filter(p)),
        decreases c.len() - i,
    {
        let s = c[i];
        proof {
            assert(c@.take(i + 1).drop_last() =~= c@.take(i as int));
            reveal_with_fuel(Seq::<_>::filter, 1);
        }
        if s.is_snapshot_root {
            let ghost before = keep@;
            keep.push(s.root_hash);
            assert(c@.take(i + 1).filter(p) =~= c@.take(i as int).filter(p).push(s));
            assert(hash_views(keep@) =~= hash_views(before).push(s.root_hash@));
            assert(hash_views(keep@) =~= roots(c@.take(i + 1).filter(p)));
        } else {
            assert(hash_views(keep@) =~= roots(c@.take(i + 1).filter(p)));
        }
        i = i + 1;
    }
    assert(c@.take(i as int) =~= c@);
    keep
}

/// The states a strategy prunes among the candidates at time `now`.
pub fn apply_strategy(strategy: &PruningStrategy, candidates: &Vec<PrunableState>, now: u64) -> (r: Vec<PrunableState>)
    ensures
        r@ == strategy_prunes(*strategy, candidates@, now),
{
    let ghost c = candidates@;
    let (to_prune, to_keep): (Vec<PrunableState>, Vec<crate::state::mpt::lib::Hash>) = match strategy {
        PruningStrategy::KeepLast(n) => (beyond_last_exec(candidates, *n), Vec::new()),
        PruningStrategy::KeepRecent(seconds) => split_recent(candidates, now, *seconds),
        PruningStrategy::KeepAtIntervals(interval) => split_intervals(candidates, *interval),
        PruningStrategy::Custom { keep_last, keep_recent_seconds, keep_intervals, keep_snapshots } => {
            let to_prune = match keep_last {
                Some(n) => beyond_last_exec(candidates, *n),
                None => Vec::new(),
            };
            let mut to_keep: Vec<crate::state::mpt::lib::Hash> = Vec::new();
            match keep_recent_seconds {
                Some(seconds) => {
                    let (_, mut recent) = split_recent(candidates, now, *seconds);
                    to_keep.append(&mut recent);
                },
                None => {},
            }
            let ghost k1 = hash_views(to_keep@);
            match keep_intervals {
                Some(interval) => {
                    let (_, mut kept) = split_intervals(candidates, *interval);
                    let ghost before = to_keep@;
                    let ghost kv = kept@;
                    to_keep.append(&mut kept);
                    assert(hash_views(to_keep@) =~= hash_views(before) + hash_views(kv));
                },
                None => {},
            }
            let ghost k2 = hash_views(to_keep@);
            if *keep_snapshots {
                let mut snaps = snapshot_roots(candidates);
                let ghost before = to_keep@;
                let ghost sv = snaps@;
                to_keep.append(&mut snaps);
                assert(hash_views(to_keep@) =~= hash_views(before) + hash_views(sv));
            }
            proof {
                let want = strategy_choice(*strategy, c, now).1;
                let a = match *keep_recent_seconds {
                    Some(seconds) => roots(c.filter(|s: PrunableState| !too_old(s, now, seconds))),
                    None => Seq::empty(),
                };
                assert(k1 =~= a);
                let b = match *keep_intervals {
                    Some(interval) => roots(interval_select(c, interval, true, c.len())),
                    None => Seq::empty(),
                };
                assert(k2 =~= a + b);
                assert(hash_views(to_keep@) =~= want);
            }
            (to_prune, to_keep)
        },
    };
    let ghost keep = hash_views(to_keep@);
    assert(keep == strategy_choice(*strategy, c, now).1);
    assert(to_prune@ == strategy_choice(*strategy, c, now).0);
    let ghost p = |s: PrunableState| !keep.contains(s.root_hash@);
    let mut r: Vec<PrunableState> = Vec::new();
    let mut i: usize = 0;
    while i < to_prune.len()
        invariant
            i <= to_prune@.len(),
            keep == hash_views(to_keep@),
            p == (|s: PrunableState| !keep.contains(s.root_hash@)),
            r@ == to_prune@.take(i as int).filter(p),
        decreases to_prune.len() - i,
    {
        let s = to_prune[i];
        proof {
            assert(to_prune@.take(i + 1).drop_last() =~= to_prune@.take(i as int));
            reveal_with_fuel(Seq::<_>::filter, 1);
        }
        if !holds_root(&to_keep, &s.root_hash) {
            r.push(s);
        }
        assert(r@ =~= to_prune@.take(i + 1).filter(p));
        i = i + 1;
    }
    assert(to_prune@.take(i as int) =~= to_prune@);
    r
}

/// Whether a registered state may be pruned: confirmed, and not a snapshot
/// root that the policy preserves.
pub open spec fn is_candidate(s: PrunableState, preserve_snapshot_roots: bool) -> bool {
    s.has_confirmations && (!s.is_snapshot_root || !preserve_snapshot_roots)
}

/// Whether `vals` holds the states of `list`, each once, in some order.
pub open spec fn rearranges(vals: Seq<PrunableState>, list: Seq<PrunableState>) -> bool {
    exists|order: Seq<int>|
        #![trigger order.len()]
        order.len() == list.len() && vals.len() == list.len() && (forall|j: int|
            0 <= j < order.len() ==> 0 <= #[trigger] order[j] < list.len() && vals[j] == list[order[j]])
            && (forall|a: int, b: int|
            0 <= a < order.len() && 0 <= b < order.len() && a != b ==> order[a] != order[b])
}

/// The trie nodes below node `id`, in depth-first order (a node before its
/// children, children by nibble); absent nodes contribute nothing.
pub open spec fn nodes_under(nodes: Map<Seq<u8>, NodeView>, id: Seq<u8>, fuel: nat) -> Result<
    Seq<Seq<u8>>,
    TrieFault,
>
    decreases fuel, 0nat,
{
    if fuel == 0 {
        Err(TrieFault::BadPath)
    } else if !nodes.contains_key(id) {
        Ok(Seq::empty())
    } else {
        match nodes[id] {
            NodeView::Branch { children, .. } => match children_under(
                nodes,
                children,
                0,
                (fuel - 1) as nat,
            ) {
                Ok(l) => Ok(seq![id] + l),
                Err(f) => Err(f),
            },
            NodeView::Extension { child, .. } => match nodes_under(nodes, child, (fuel - 1) as nat) {
                Ok(l) => Ok(seq![id] + l),
                Err(f) => Err(f),
            },
            _ => Ok(seq![id]),
        }
    }
}

/// The trie nodes below children `i..16` of a branch.
pub open spec fn children_under(
    nodes: Map<Seq<u8>, NodeView>,
    children: Seq<Option<Seq<u8>>>,
    i: nat,
    fuel: nat,
) -> Result<Seq<Seq<u8>>, TrieFault>
    decreases fuel, 16 - i,
{
    if i >= 16 {
        Ok(Seq::empty())
    } else {
        let here = match children[i as int] {
            Some(c) => nodes_under(nodes, c, fuel),
            None => Ok(Seq::empty()),
        };
        match here {
            Ok(l) => match children_under(nodes, children, i + 1, fuel) {
                Ok(rest) => Ok(l + rest),
                Err(f) => Err(f),
            },
            Err(f) => Err(f),
        }
    }
}

/// `a + b`, at most `u64::MAX`.
pub open spec fn sat_add(a: nat, b: nat) -> nat {
    if a + b > u64::MAX {
        u64::MAX as nat
    } else {
        a + b
    }
}

/// The size of a node as counted when pruning (at most `u64::MAX`).
pub open spec fn counted_size(v: NodeView) -> nat {
    if size_of(v) <= u64::MAX {
        size_of(v) as nat
    } else {
        u64::MAX as nat
    }
}

/// The bytes reclaimed by removing nodes `ids`, added up from `start` (the
/// sum saturates at `u64::MAX`).
pub open spec fn bytes_of(nodes: Map<Seq<u8>, NodeView>, ids: Seq<Seq<u8>>, start: nat) -> nat
    decreases ids.len(),
{
    if ids.len() == 0 {
        start
    } else {
        sat_add(bytes_of(nodes, ids.drop_last(), start), counted_size(nodes[ids.last()]))
    }
}

/// The stored nodes without `ids`.
pub open spec fn without(nodes: Map<Seq<u8>, NodeView>, ids: Seq<Seq<u8>>) -> Map<Seq<u8>, NodeView> {
    nodes.remove_keys(ids.to_set())
}

/// The debug text of a trie error.
#[verifier::external_body]
fn mpt_error_text(e: &MPTError) -> String {
    format!("{:?}", e)
}

/// The decimals of the bytes `s`, separated by a comma and a space.
pub open spec fn joined_decimals(s: Seq<u8>) -> Seq<char>
    decreases s.len(),
{
    if s.len() == 0 {
        Seq::empty()
    } else if s.len() == 1 {
        decimal(s[0] as nat)
    } else {
        joined_decimals(s.drop_last()) + seq![',', ' '] + decimal(s.last() as nat)
    }
}

/// The debug text of bytes: their decimals in brackets, as `{:?}` writes
/// a byte array.
pub open spec fn bytes_text(s: Seq<u8>) -> Seq<char> {
    seq!['['] + joined_decimals(s) + seq![']']
}

/// The debug text of a hash (see `bytes_text`).
pub fn hash_text(h: &crate::state::mpt::lib::Hash) -> (r: String)
    ensures
        r@ == bytes_text(h@),
{
    proof {
        reveal_strlit("[");
        reveal_strlit("]");
    }
    let mut out = String::new();
    out.append("[");
    let mut i: usize = 0;
    while i < 32
        invariant
            i <= 32,
            h@.len() == 32,
            out@ == seq!['['] + joined_decimals(h@.take(i as int)),
        decreases 32 - i,
    {
        let ghost before = out@;
        if i > 0 {
            out.append(", ");
        }
        let digits = decimal_text(h[i] as u64);
        out.append(digits.as_str());
        proof {
            let t = h@.take(i + 1);
            assert(t.drop_last() =~= h@.take(i as int));
            assert(t.last() == h@[i as int]);
            reveal_strlit(", ");
            assert(digits@ == decimal(h@[i as int] as nat));
            if i == 0 {
                assert(joined_decimals(h@.take(0)) =~= Seq::<char>::empty());
                assert(out@ =~= seq!['['] + joined_decimals(t));
            } else {
                assert(", "@ =~= seq![',', ' ']);
                assert(out@ == before + seq![',', ' '] + digits@);
                assert(joined_decimals(t) == joined_decimals(t.drop_last()) + seq![',', ' '] + decimal(t.last() as nat));
                assert(out@ =~= seq!['['] + joined_decimals(t));
            }
        }
        i = i + 1;
    }
    out.append("]");
    assert(h@.take(32) =~= h@);
    assert(out@ =~= bytes_text(h@));
    out
}

/// The metadata a pruning records: when it ran and the bytes it reclaimed,
/// in decimal.
pub open spec fn pruning_metadata(md: AssocList<String, String>, now: u64, bytes: u64) -> bool {
    &&& md.view_map().dom() == set!["pruned_at"@, "bytes_reclaimed"@]
    &&& md.view_map()["pruned_at"@]@ == decimal(now as nat)
    &&& md.view_map()["bytes_reclaimed"@]@ == decimal(bytes as nat)
}

/// The snapshots once a pruning of `root` at time `now`, reclaiming `bytes`,
/// is recorded: the snapshot named by the debug text of `root` has its
/// metadata replaced by the pruning's; other snapshots, and all where no
/// snapshot has that name, are unchanged.
pub open spec fn pruning_recorded(
    m0: Map<Seq<char>, StateSnapshot>,
    m1: Map<Seq<char>, StateSnapshot>,
    root: Seq<u8>,
    now: u64,
    bytes: u64,
) -> bool {
    let id = bytes_text(root);
    if m0.contains_key(id) {
        &&& m1.dom() == m0.dom()
        &&& forall|k: Seq<char>| #[trigger] m1.contains_key(k) && k != id ==> m1[k] == m0[k]
        &&& m1[id].id == m0[id].id
        &&& m1[id].root_hash == m0[id].root_hash
        &&& m1[id].timestamp == m0[id].timestamp
        &&& m1[id].height == m0[id].height
        &&& m1[id].description == m0[id].description
        &&& pruning_metadata(m1[id].metadata, now, bytes)
    } else {
        m1 == m0
    }
}

/// The message recorded when a state fails to prune.
#[verifier::external_body]
fn failure_text(h: &crate::state::mpt::lib::Hash, e: &PruningError) -> String {
    format!("Failed to prune state {:?}: {:?}", h, e)
}

/// Collect the nodes below `node_id` into `nodes_to_delete`, adding their
/// sizes to `bytes_reclaimed`.
fn collect_nodes_to_delete<S: NodeStorage>(
    node_id: &NodeId,
    storage: &S,
    nodes_to_delete: &mut Vec<NodeId>,
    bytes_reclaimed: &mut u64,
    fuel: u64,
) -> (r: PruningResult_<()>)
    ensures
        !(r matches Err(PruningError::StateProtected(_))),
        match nodes_under(storage.stored(), node_id@, fuel as nat) {
            Ok(l) => (r is Ok && final(nodes_to_delete)@.map_values(|h: NodeId| h@) == old(
                nodes_to_delete,
            )@.map_values(|h: NodeId| h@) + l && *final(bytes_reclaimed) == bytes_of(
                storage.stored(),
                l,
                *old(bytes_reclaimed) as nat,
            )) || (r is Err && !storage.infallible()),
            Err(_) => r is Err,
        },
    decreases fuel,
{
    if fuel == 0 {
        return Err(PruningError::PruningFailed("trie too deep".to_string()));
    }
    let ghost nodes = storage.stored();
    let ghost start = nodes_to_delete@.map_values(|h: NodeId| h@);
    let ghost b0 = *bytes_reclaimed as nat;
    let node = match storage.get_node(node_id) {
        Ok(Some(n)) => n,
        Ok(None) => {
            assert(nodes_to_delete@.map_values(|h: NodeId| h@) =~= start + Seq::<Seq<u8>>::empty());
            return Ok(());
        },
        Err(e) => {
            return Err(PruningError::MPTError(mpt_error_text(&e)));
        },
    };
    nodes_to_delete.push(*node_id);
    *bytes_reclaimed = bytes_reclaimed.saturating_add(node.size_bytes());
    proof {
        assert(nodes_to_delete@.map_values(|h: NodeId| h@) =~= start + seq![node_id@]);
        assert(seq![node_id@].drop_last() =~= Seq::<Seq<u8>>::empty());
        assert(node.node_type@ == nodes[node_id@]);
        assert(bytes_of(nodes, Seq::<Seq<u8>>::empty(), b0) == b0);
        assert(bytes_of(nodes, seq![node_id@], b0) == sat_add(b0, counted_size(nodes[node_id@])));
        assert(*bytes_reclaimed == bytes_of(nodes, seq![node_id@], b0));
    }
    match &node.node_type {
        NodeType::Branch { children, .. } => {
            let ghost cs = children_view(*children);
            let mut i: usize = 0;
            while i < 16
                invariant
                    i <= 16,
                    fuel > 0,
                    nodes == storage.stored(),
                    cs == children_view(*children),
                    nodes.contains_key(node_id@),
                    nodes[node_id@] == node.node_type@,
                    node.node_type matches NodeType::Branch { children: c2, .. } && c2 == *children,
                    exists|done: Seq<Seq<u8>>|
                        #![trigger done.len()]
                        nodes_to_delete@.map_values(|h: NodeId| h@) == start + seq![node_id@] + done
                            && *bytes_reclaimed == bytes_of(nodes, seq![node_id@] + done, b0) && children_under(
                            nodes,
                            cs,
                            0,
                            (fuel - 1) as nat,
                        ) == match children_under(nodes, cs, i as nat, (fuel - 1) as nat) {
                            Ok(rest) => Ok(done + rest),
                            Err(f) => Err(f),
                        },
                decreases 16 - i,
            {
                assert(cs[i as int] == crate::state::mpt::codec::opt_view(children[i as int]));
                let ghost done = choose|done: Seq<Seq<u8>>|
                    #![trigger done.len()]
                    nodes_to_delete@.map_values(|h: NodeId| h@) == start + seq![node_id@] + done
                        && *bytes_reclaimed == bytes_of(nodes, seq![node_id@] + done, b0) && children_under(
                        nodes,
                        cs,
                        0,
                        (fuel - 1) as nat,
                    ) == match children_under(nodes, cs, i as nat, (fuel - 1) as nat) {
                        Ok(rest) => Ok(done + rest),
                        Err(f) => Err(f),
                    };
                match children[i] {
                    Some(child) => {
                        let ghost before = nodes_to_delete@.map_values(|h: NodeId| h@);
                        let ghost bb = *bytes_reclaimed as nat;
                        match collect_nodes_to_delete(&child, storage, nodes_to_delete, bytes_reclaimed, fuel - 1) {
                            Ok(()) => {
                                proof {
                                    let l = nodes_under(nodes, child@, (fuel - 1) as nat)->Ok_0;
                                    lemma_bytes_of_append(nodes, seq![node_id@] + done, l, b0);
                                    assert(seq![node_id@] + done + l =~= seq![node_id@] + (done + l));
                                    assert(nodes_to_delete@.map_values(|h: NodeId| h@) =~= start
                                        + seq![node_id@] + (done + l));
                                    match children_under(nodes, cs, (i + 1) as nat, (fuel - 1) as nat) {
                                        Ok(rest) => {
                                            assert(done + (l + rest) =~= (done + l) + rest);
                                        },
                                        Err(f) => {},
                                    }
                                    assert((done + l).len() == (done + l).len());
                                }
                            },
                            Err(e) => {
                                return Err(e);
                            },
                        }
                    },
                    None => {
                        proof {
                            match children_under(nodes, cs, (i + 1) as nat, (fuel - 1) as nat) {
                                Ok(rest) => {
                                    assert(Seq::<Seq<u8>>::empty() + rest =~= rest);
                                },
                                Err(f) => {},
                            }
                            assert(done.len() == done.len());
                        }
                    },
                }
                i = i + 1;
            }
            proof {
                let done = choose|done: Seq<Seq<u8>>|
                    #![trigger done.len()]
                    nodes_to_delete@.map_values(|h: NodeId| h@) == start + seq![node_id@] + done
                        && *bytes_reclaimed == bytes_of(nodes, seq![node_id@] + done, b0) && children_under(
                        nodes,
                        cs,
                        0,
                        (fuel - 1) as nat,
                    ) == match children_under(nodes, cs, 16, (fuel - 1) as nat) {
                        Ok(rest) => Ok(done + rest),
                        Err(f) => Err(f),
                    };
                assert(done + Seq::<Seq<u8>>::empty() =~= done);
                assert(start + seq![node_id@] + done =~= start + (seq![node_id@] + done));
            }
            Ok(())
        },
        NodeType::Extension { child, .. } => {
            let r = collect_nodes_to_delete(child, storage, nodes_to_delete, bytes_reclaimed, fuel - 1);
            proof {
                if let Ok(l) = nodes_under(nodes, child@, (fuel - 1) as nat) {
                    if r is Ok {
                        lemma_bytes_of_append(nodes, seq![node_id@], l, b0);
                        assert(start + seq![node_id@] + l =~= start + (seq![node_id@] + l));
                    }
                }
            }
            r
        },
        _ => {
            assert(start + seq![node_id@] =~= start + seq![node_id@]);
            Ok(())
        },
    }
}

/// Adding up the sizes of `a + b` from `start` is adding up `b` from the
/// sum over `a`.
proof fn lemma_bytes_of_append(nodes: Map<Seq<u8>, NodeView>, a: Seq<Seq<u8>>, b: Seq<Seq<u8>>, start: nat)
    ensures
        bytes_of(nodes, a + b, start) == bytes_of(nodes, b, bytes_of(nodes, a, start)),
    decreases b.len(),
{
    if b.len() == 0 {
        assert(a + b =~= a);
    } else {
        assert((a + b).drop_last() =~= a + b.drop_last());
        assert((a + b).last() == b.last());
        lemma_bytes_of_append(nodes, a, b.drop_last(), start);
    }
}

/// The registered states, keyed by root hash, with distinct roots.
pub struct StateRegistry {
    states: AssocList<crate::state::mpt::lib::Hash, PrunableState>,
}

impl StateRegistry {
    #[verifier::type_invariant]
    spec fn inv(self) -> bool {
        self.states.wf()
    }

    /// The number of registered states.
    pub closed spec fn size(&self) -> nat {
        self.states.view_map().len()
    }

    /// Whether no state is registered.
    pub fn is_empty(&self) -> (r: bool)
        ensures
            r == (self.size() == 0),
    {
        proof {
            use_type_invariant(self);
        }
        self.states.is_empty()
    }
}

/// State pruner: keeps the registry of states and prunes them by policy
pub struct StatePruner<S: NodeStorage + Clone> {
    /// Pruning policy configuration
    pub policy: PruningPolicy,
    /// State registry to track all states
    pub state_registry: StateRegistry,
    /// Snapshot manager, which holds the current trie
    pub snapshot_manager: Option<SnapshotManager<S>>,
    /// Last pruning timestamp
    pub last_prune_time: u64,
    /// Statistics about pruning operations
    stats: PruningStats,
}

/// Whether automatic pruning is due under `policy` at clock reading `now`
/// (seconds) after the last pruning at `last`: pruning is enabled, an
/// interval is set, and at least that many seconds have passed.
pub open spec fn auto_prune_due(policy: PruningPolicy, last: u64, now: u64) -> bool {
    policy.enabled && match policy.auto_prune_interval {
        Some(interval) => sat_sub(now, last) >= interval,
        None => false,
    }
}

impl<S: NodeStorage + Clone> StatePruner<S> {
    /// The registered states by root hash.
    pub closed spec fn registry(&self) -> Map<Seq<u8>, PrunableState> {
        self.state_registry.states.view_map()
    }

    /// The registered states, in registration order.
    pub closed spec fn registry_list(&self) -> Seq<PrunableState> {
        self.state_registry.states.entries@.map_values(|e: (crate::state::mpt::lib::Hash, PrunableState)| e.1)
    }

    /// The policy.
    pub closed spec fn policy_view(&self) -> PruningPolicy {
        self.policy
    }

    /// The snapshot manager, if one was set.
    pub closed spec fn manager(&self) -> Option<SnapshotManager<S>> {
        self.snapshot_manager
    }

    /// Whether there is a current trie to prune from.
    pub open spec fn available(&self) -> bool {
        self.manager() matches Some(sm) && sm.current() is Some
    }

    /// The nodes of the current trie (none when there is no current trie).
    pub open spec fn current_nodes(&self) -> Map<Seq<u8>, NodeView> {
        if self.available() {
            self.manager()->Some_0.current()->Some_0.nodes()
        } else {
            Map::empty()
        }
    }

    /// The time of the last pruning.
    pub closed spec fn last_prune(&self) -> u64 {
        self.last_prune_time
    }

    /// The statistics.
    pub closed spec fn stats_view(&self) -> PruningStats {
        self.stats
    }

    /// Create a new state pruner with the given policy
    pub fn new(policy: PruningPolicy) -> (r: Self)
        ensures
            r.policy_view() == policy,
            r.registry() == Map::<Seq<u8>, PrunableState>::empty(),
            r.registry_list().len() == 0,
            r.manager() is None,
            r.last_prune() == 0,
            r.stats_view().total_prune_operations == 0,
            r.stats_view().total_states_pruned == 0,
            r.stats_view().total_bytes_reclaimed == 0,
            r.stats_view().last_prune_timestamp is None,
            r.stats_view().avg_prune_duration_ms == 0,
    {
        let r = Self {
            policy,
            state_registry: StateRegistry { states: AssocList::new() },
            snapshot_manager: None,
            last_prune_time: 0,
            stats: PruningStats::default(),
        };
        assert(r.registry_list() =~= Seq::<PrunableState>::empty());
        r
    }

    /// Create a pruner with default policy
    pub fn with_defaults() -> (r: Self)
        ensures
            r.policy_view().enabled,
            r.policy_view().min_confirmations == 6,
            r.policy_view().preserve_snapshot_roots,
            r.policy_view().auto_prune_interval == Some(3600u64),
            r.registry() == Map::<Seq<u8>, PrunableState>::empty(),
            r.registry_list().len() == 0,
            r.manager() is None,
            r.last_prune() == 0,
    {
        Self::new(PruningPolicy::default())
    }

    /// Set the snapshot manager for coordination
    pub fn set_snapshot_manager(&mut self, manager: SnapshotManager<S>)
        ensures
            final(self).manager() == Some(manager),
            final(self).registry() == old(self).registry(),
            final(self).registry_list() == old(self).registry_list(),
            final(self).policy_view() == old(self).policy_view(),
    {
        self.snapshot_manager = Some(manager);
    }

    /// Whether a snapshot of the manager has root `root_hash`.
    fn is_snapshot_root(&self, root_hash: &crate::state::mpt::lib::Hash) -> (r: bool)
        ensures
            r == (self.manager() matches Some(sm) && exists|i: int|
                0 <= i < sm.snapshot_list().len() && (#[trigger] sm.snapshot_list()[i]).root_hash
                    == *root_hash),
    {
        match &self.snapshot_manager {
            Some(sm) => {
                let list = sm.list_snapshots();
                let ghost sl = sm.snapshot_list();
                let mut i: usize = 0;
                while i < list.len()
                    invariant
                        i <= list@.len(),
                        sl == sm.snapshot_list(),
                        self.manager() == Some(*sm),
                        crate::state::snapshot::deref_all(list@) == sl,
                        forall|j: int| 0 <= j < i ==> (#[trigger] sl[j]).root_hash != *root_hash,
                    decreases list.len() - i,
                {
                    assert(sl[i as int] == *list@[i as int]);
                    if bytes_equal(list[i].root_hash.as_slice(), root_hash.as_slice()) {
                        assert(list[i as int].root_hash =~= *root_hash);
                        assert(sm.snapshot_list()[i as int].root_hash == *root_hash);
                        assert(self.manager() == Some(*sm));
                        assert(0 <= i < sm.snapshot_list().len());
                        assert(exists|k: int|
                            0 <= k < sm.snapshot_list().len() && (#[trigger] sm.snapshot_list()[k]).root_hash
                                == *root_hash);
                        return true;
                    }
                    assert(list[i as int].root_hash@ != root_hash@);
                    i = i + 1;
                }
                false
            },
            None => false,
        }
    }

    /// Register a new state for potential pruning, stamped with the current
    /// time and unconfirmed
    pub fn register_state(&mut self, root_hash: crate::state::mpt::lib::Hash, height: u64, size_bytes: u64) -> (r: PruningResult_<()>)
        ensures
            r is Ok,
            final(self).registry().dom() == old(self).registry().dom().insert(root_hash@),
            forall|k: Seq<u8>| #[trigger] old(self).registry().contains_key(k) && k != root_hash@
                ==> final(self).registry()[k] == old(self).registry()[k],
            ({
                let s = final(self).registry()[root_hash@];
                &&& s.root_hash == root_hash
                &&& s.height == height
                &&& s.size_bytes == size_bytes
                &&& !s.has_confirmations
                &&& s.is_snapshot_root == (old(self).manager() matches Some(sm) && exists|i: int|
                    0 <= i < sm.snapshot_list().len() && (#[trigger] sm.snapshot_list()[i]).root_hash
                        == root_hash)
            }),
            final(self).policy_view() == old(self).policy_view(),
            final(self).manager() == old(self).manager(),
            final(self).last_prune() == old(self).last_prune(),
            final(self).stats_view() == old(self).stats_view(),
    {
        proof {
            use_type_invariant(&self.state_registry);
        }
        let timestamp = unix_time_secs();
        let is_snapshot_root = self.is_snapshot_root(&root_hash);
        let prunable_state = PrunableState {
            root_hash,
            height,
            timestamp,
            size_bytes,
            is_snapshot_root,
            has_confirmations: false,
        };
        let mut states = AssocList { entries: Vec::new() };
        std::mem::swap(&mut states, &mut self.state_registry.states);
        states.insert(root_hash, prunable_state);
        self.state_registry.states = states;
        Ok(())
    }

    /// Update confirmation status for states: confirmed when `current_height`
    /// is at least the minimum number of confirmations above their height
    pub fn update_confirmations(&mut self, current_height: u64)
        ensures
            final(self).registry().dom() == old(self).registry().dom(),
            forall|k: Seq<u8>| #[trigger] final(self).registry().contains_key(k) ==> {
                let s = final(self).registry()[k];
                let o = old(self).registry()[k];
                &&& s.root_hash == o.root_hash
                &&& s.height == o.height
                &&& s.timestamp == o.timestamp
                &&& s.size_bytes == o.size_bytes
                &&& s.is_snapshot_root == o.is_snapshot_root
                &&& s.has_confirmations == (sat_sub(current_height, o.height)
                    >= old(self).policy_view().min_confirmations)
            },
            final(self).policy_view() == old(self).policy_view(),
            final(self).manager() == old(self).manager(),
            final(self).last_prune() == old(self).last_prune(),
            final(self).stats_view() == old(self).stats_view(),
    {
        proof {
            use_type_invariant(&self.state_registry);
        }
        let ghost m0 = self.registry();
        let ghost e0 = self.state_registry.states.entries@;
        let min = self.policy.min_confirmations;
        let mut states = AssocList { entries: Vec::new() };
        std::mem::swap(&mut states, &mut self.state_registry.states);
        let n = states.entries.len();
        let mut i: usize = 0;
        while i < n
            invariant
                i <= n,
                n == states.entries@.len(),
                n == e0.len(),
                states.wf(),
                min == old(self).policy_view().min_confirmations,
                forall|j: int| 0 <= j < n ==> (#[trigger] states.entries@[j]).0@ == e0[j].0@,
                forall|j: int| i <= j < n ==> (#[trigger] states.entries@[j]).1 == e0[j].1,
                forall|j: int|
                    0 <= j < i ==> {
                        let s = (#[trigger] states.entries@[j]).1;
                        let o = e0[j].1;
                        &&& s.root_hash == o.root_hash
                        &&& s.height == o.height
                        &&& s.timestamp == o.timestamp
                        &&& s.size_bytes == o.size_bytes
                        &&& s.is_snapshot_root == o.is_snapshot_root
                        &&& s.has_confirmations == (sat_sub(current_height, o.height) >= min)
                    },
            decreases n - i,
        {
            let mut s = states.entries[i].1;
            s.has_confirmations = current_height.saturating_sub(s.height) >= min;
            states.set_value(i, s);
            i = i + 1;
        }
        self.state_registry.states = states;
        proof {
            crate::assoc_list::lemma_map_of_pointwise(
                e0,
                self.state_registry.states.entries@,
                |o: PrunableState, s: PrunableState|
                    s.root_hash == o.root_hash && s.height == o.height && s.timestamp == o.timestamp
                        && s.size_bytes == o.size_bytes && s.is_snapshot_root == o.is_snapshot_root
                        && s.has_confirmations == (sat_sub(current_height, o.height) >= min),
            );
        }
    }

    /// Check if automatic pruning should be triggered: pruning is enabled,
    /// an interval is set, and the clock reads at least that long after the
    /// last pruning
    pub fn should_auto_prune(&self) -> (r: bool)
        ensures
            exists|now: u64| r == #[trigger] auto_prune_due(self.policy_view(), self.last_prune(), now),
    {
        if !self.policy.enabled {
            assert(!auto_prune_due(self.policy_view(), self.last_prune(), 0));
            return false;
        }
        match self.policy.auto_prune_interval {
            Some(interval) => {
                let current_time = unix_time_secs();
                let r = current_time.saturating_sub(self.last_prune_time) >= interval;
                assert(r == auto_prune_due(self.policy_view(), self.last_prune(), current_time));
                r
            },
            None => {
                assert(!auto_prune_due(self.policy_view(), self.last_prune(), 0));
                false
            },
        }
    }

    /// Get current pruning statistics
    pub fn get_stats(&self) -> (r: &PruningStats)
        ensures
            *r == self.stats_view(),
    {
        &self.stats
    }

    /// Get information about all tracked states, in registration order
    pub fn get_state_info(&self) -> (r: Vec<&PrunableState>)
        ensures
            r@.map_values(|x: &PrunableState| *x) == self.registry_list(),
    {
        let mut r: Vec<&PrunableState> = Vec::new();
        let mut i: usize = 0;
        while i < self.state_registry.states.entries.len()
            invariant
                i <= self.state_registry.states.entries@.len(),
                r@.map_values(|x: &PrunableState| *x) == self.registry_list().take(i as int),
            decreases self.state_registry.states.entries.len() - i,
        {
            assert(self.registry_list()[i as int] == self.state_registry.states.entries@[i as int].1);
            let ghost before = r@;
            r.push(&self.state_registry.states.entries[i].1);
            assert(r@.map_values(|x: &PrunableState| *x) =~= before.map_values(|x: &PrunableState| *x).push(
                self.registry_list()[i as int],
            ));
            assert(self.registry_list().take(i + 1) =~= self.registry_list().take(i as int).push(
                self.registry_list()[i as int],
            ));
            i = i + 1;
        }
        assert(self.registry_list().take(i as int) =~= self.registry_list());
        r
    }

    /// The candidates for pruning, oldest first (equal timestamps keep
    /// registration order)
    fn get_pruning_candidates(&self) -> (r: Vec<PrunableState>)
        ensures
            rearranges(
                r@,
                self.registry_list().filter(
                    |s: PrunableState| is_candidate(s, self.policy_view().preserve_snapshot_roots),
                ),
            ),
            forall|a: int, b: int| 0 <= a < b < r@.len() ==> (#[trigger] r@[a]).timestamp <= (#[trigger] r@[b]).timestamp,
    {
        let preserve = self.policy.preserve_snapshot_roots;
        let ghost p = |s: PrunableState| is_candidate(s, preserve);
        let ghost list = self.registry_list();
        let mut filtered: Vec<PrunableState> = Vec::new();
        let mut i: usize = 0;
        while i < self.state_registry.states.entries.len()
            invariant
                i <= self.state_registry.states.entries@.len(),
                list == self.registry_list(),
                p == (|s: PrunableState| is_candidate(s, preserve)),
                filtered@ == list.take(i as int).filter(p),
            decreases self.state_registry.states.entries.len() - i,
        {
            let s = self.state_registry.states.entries[i].1;
            assert(list[i as int] == s);
            proof {
                assert(list.take(i + 1).drop_last() =~= list.take(i as int));
                reveal_with_fuel(Seq::<_>::filter, 1);
            }
            if s.has_confirmations && (!s.is_snapshot_root || !preserve) {
                filtered.push(s);
            }
            assert(filtered@ =~= list.take(i + 1).filter(p));
            i = i + 1;
        }
        assert(list.take(i as int) =~= list);
        sort_by_timestamp(&filtered)
    }
}

/// The states sorted by timestamp, oldest first; equal timestamps keep their
/// order.
fn sort_by_timestamp(c: &Vec<PrunableState>) -> (r: Vec<PrunableState>)
    ensures
        rearranges(r@, c@),
        forall|a: int, b: int| 0 <= a < b < r@.len() ==> (#[trigger] r@[a]).timestamp <= (#[trigger] r@[b]).timestamp,
{
    let n = c.len();
    let ghost list = c@;
    let mut order: Vec<usize> = Vec::new();
    let mut i: usize = 0;
    while i < n
        invariant
            i <= n,
            n == c@.len(),
            list == c@,
            order@.len() == i,
            forall|j: int| 0 <= j < i ==> #[trigger] order@[j] < i,
            forall|a: int, b: int| 0 <= a < i && 0 <= b < i && a != b ==> order@[a] != order@[b],
            forall|a: int, b: int|
                0 <= a < b < i ==> list[order@[a] as int].timestamp <= list[order@[b] as int].timestamp,
        decreases n - i,
    {
        let ts = c[i].timestamp;
        let mut p: usize = 0;
        while p < order.len() && c[order[p]].timestamp <= ts
            invariant
                p <= order@.len(),
                order@.len() == i,
                i < n,
                n == c@.len(),
                list == c@,
                ts == list[i as int].timestamp,
                forall|j: int| 0 <= j < i ==> #[trigger] order@[j] < i,
                forall|j: int| 0 <= j < p ==> list[order@[j] as int].timestamp <= ts,
            decreases order@.len() - p,
        {
            p = p + 1;
        }
        let ghost before = order@;
        order.insert(p, i);
        proof {
            assert(order@ == before.insert(p as int, i));
            assert forall|j: int| 0 <= j < i + 1 implies #[trigger] order@[j] < i + 1 by {
                if j < p {
                    assert(order@[j] == before[j]);
                } else if j > p {
                    assert(order@[j] == before[j - 1]);
                }
            }
            assert forall|a: int, b: int| 0 <= a < i + 1 && 0 <= b < i + 1 && a != b implies order@[a]
                != order@[b] by {
                if a != p && b != p {
                    let a0 = if a < p { a } else { a - 1 };
                    let b0 = if b < p { b } else { b - 1 };
                    assert(order@[a] == before[a0]);
                    assert(order@[b] == before[b0]);
                } else if a == p {
                    let b0 = if b < p { b } else { b - 1 };
                    assert(order@[b] == before[b0]);
                } else {
                    let a0 = if a < p { a } else { a - 1 };
                    assert(order@[a] == before[a0]);
                }
            }
            assert forall|a: int, b: int| 0 <= a < b < i + 1 implies list[order@[a] as int].timestamp
                <= list[order@[b] as int].timestamp by {
                if b < p {
                    assert(order@[a] == before[a]);
                    assert(order@[b] == before[b]);
                } else if b == p {
                    assert(order@[a] == before[a]);
                } else if a == p {
                    assert(order@[b] == before[b - 1]);
                    assert(list[before[p as int] as int].timestamp > ts);
                    if b - 1 > p {
                        assert(list[before[p as int] as int].timestamp <= list[before[b - 1] as int].timestamp);
                    }
                } else if a < p {
                    assert(order@[a] == before[a]);
                    assert(order@[b] == before[b - 1]);
                } else {
                    assert(order@[a] == before[a - 1]);
                    assert(order@[b] == before[b - 1]);
                }
            }
        }
        i = i + 1;
    }
    let mut r: Vec<PrunableState> = Vec::new();
    let mut k: usize = 0;
    while k < n
        invariant
            k <= n,
            n == c@.len(),
            list == c@,
            order@.len() == n,
            forall|j: int| 0 <= j < n ==> #[trigger] order@[j] < n,
            r@.len() == k,
            forall|j: int| 0 <= j < k ==> #[trigger] r@[j] == list[order@[j] as int],
        decreases n - k,
    {
        r.push(c[order[k]]);
        k = k + 1;
    }
    proof {
        let ord = order@.map_values(|x: usize| x as int);
        assert forall|j: int| 0 <= j < ord.len() implies 0 <= #[trigger] ord[j] < list.len() && r@[j]
            == list[ord[j]] by {}
        assert forall|a: int, b: int|
            0 <= a < ord.len() && 0 <= b < ord.len() && a != b implies ord[a] != ord[b] by {}
        assert(ord.len() == list.len());
        assert(rearranges(r@, list));
        assert forall|a: int, b: int| 0 <= a < b < r@.len() implies (#[trigger] r@[a]).timestamp
            <= (#[trigger] r@[b]).timestamp by {
            assert(r@[a] == list[order@[a] as int]);
            assert(r@[b] == list[order@[b] as int]);
        }
    }
    r
}

/// Record a pruning of `root_hash` that reclaimed `bytes` in the metadata
/// of the snapshot named by the root's debug text, stamped with the current
/// time; nothing else changes, and where no snapshot has that name nothing
/// changes at all.
fn record_pruning<S: NodeStorage>(sm: &mut SnapshotManager<S>, root_hash: &crate::state::mpt::lib::Hash, bytes: u64)
    ensures
        final(sm).current() == old(sm).current(),
        final(sm).config_view() == old(sm).config_view(),
        exists|now: u64| #[trigger] pruning_recorded(old(sm).snapshot_map(), final(sm).snapshot_map(), root_hash@, now, bytes),
{
    let now = unix_time_secs();
    let mut metadata: AssocList<String, String> = AssocList::new();
    let k1 = "pruned_at".to_string();
    let k2 = "bytes_reclaimed".to_string();
    proof {
        broadcast use vstd::string::to_string_from_display_ensures_for_str;
        reveal_strlit("pruned_at");
        reveal_strlit("bytes_reclaimed");
        assert(k1@ != k2@) by {
            assert(k1@.len() != k2@.len());
        }
    }
    let v1 = decimal_text(now);
    let v2 = decimal_text(bytes);
    metadata.insert(k1, v1);
    metadata.insert(k2, v2);
    proof {
        assert(metadata.view_map().dom() =~= set!["pruned_at"@, "bytes_reclaimed"@]);
        assert(pruning_metadata(metadata, now, bytes));
    }
    let name = hash_text(root_hash);
    let _ = sm.update_snapshot_metadata(&name, metadata);
    assert(pruning_recorded(old(sm).snapshot_map(), sm.snapshot_map(), root_hash@, now, bytes));
}

impl<S: NodeStorage + Clone> StatePruner<S> {
    /// Prune a state: remove its trie nodes from the current trie's storage;
    /// gives the bytes reclaimed
    #[verifier::loop_isolation(false)]
    fn prune_state(&mut self, state: PrunableState) -> (r: PruningResult_<u64>)
        ensures
            final(self).registry() == old(self).registry(),
            final(self).registry_list() == old(self).registry_list(),
            final(self).policy_view() == old(self).policy_view(),
            final(self).last_prune() == old(self).last_prune(),
            final(self).stats_view() == old(self).stats_view(),
            state.is_snapshot_root && old(self).policy_view().preserve_snapshot_roots ==> r
                == Err::<u64, PruningError>(PruningError::StateProtected(state.root_hash)),
            (r matches Err(PruningError::StateProtected(_))) <==> (state.is_snapshot_root
                && old(self).policy_view().preserve_snapshot_roots),
            r is Err && dependable(*old(self)) ==> final(self).available() == old(self).available()
                && final(self).current_nodes() == old(self).current_nodes() && dependable(*final(self)),
            !(state.is_snapshot_root && old(self).policy_view().preserve_snapshot_roots) ==> match old(self).manager() {
                None => r matches Err(PruningError::InvalidConfig(_)),
                Some(sm0) => match sm0.current() {
                    None => r matches Err(PruningError::InvalidConfig(_)),
                    Some(t0) => match nodes_under(t0.nodes(), state.root_hash@, max_depth()) {
                        Ok(l) => (r matches Ok(b) && b == bytes_of(t0.nodes(), l, 0)
                            && (final(self).manager() matches Some(sm1) && (sm1.current() matches Some(t1)
                            && t1.root_id() == t0.root_id() && t1.nodes() == without(t0.nodes(), l) && t1.reliable()
                            == t0.reliable()) && exists|now: u64| #[trigger] pruning_recorded(
                            sm0.snapshot_map(),
                            sm1.snapshot_map(),
                            state.root_hash@,
                            now,
                            b,
                        ))) || (r is Err && !t0.reliable()),
                        Err(_) => r is Err,
                    },
                },
            },
    {
        if state.is_snapshot_root && self.policy.preserve_snapshot_roots {
            return Err(PruningError::StateProtected(state.root_hash));
        }
        let root_hash = state.root_hash;
        let bytes_reclaimed: u64;
        {
            let sm = match self.snapshot_manager.as_mut() {
                Some(sm) => sm,
                None => {
                    return Err(PruningError::InvalidConfig("Storage not available".to_string()));
                },
            };
            let trie = match sm.current_mut() {
                Some(t) => t,
                None => {
                    return Err(
                        PruningError::InvalidConfig(
                            "Failed to get current trie: InvalidSnapshot(\"No current trie available\")".to_string(),
                        ),
                    );
                },
            };
            proof {
                trie.lemma_storage_parts();
            }
            let ghost t0 = *trie;
            let mut nodes_to_delete: Vec<NodeId> = Vec::new();
            let mut bytes: u64 = 0;
            match collect_nodes_to_delete(&root_hash, trie.storage_ref(), &mut nodes_to_delete, &mut bytes, u64::MAX) {
                Ok(()) => {},
                Err(e) => {
                    return Err(e);
                },
            }
            let storage = trie.get_storage_mut();
            let ghost s0 = *storage;
            let ghost ids = nodes_to_delete@.map_values(|h: NodeId| h@);
            assert(ids =~= Seq::<Seq<u8>>::empty() + ids);
            let mut i = nodes_to_delete.len();
            while i > 0
                invariant
                    i <= nodes_to_delete@.len(),
                    ids == nodes_to_delete@.map_values(|h: NodeId| h@),
                    storage.infallible() == s0.infallible(),
                    storage.stored() == s0.stored().remove_keys(ids.skip(i as int).to_set()),
                decreases i,
            {
                i = i - 1;
                let ghost before = storage.stored();
                match storage.delete_node(&nodes_to_delete[i]) {
                    Ok(()) => {},
                    Err(e) => {
                        return Err(PruningError::MPTError(mpt_error_text(&e)));
                    },
                }
                proof {
                    let a = ids.skip(i as int);
                    let b = ids.skip(i + 1);
                    assert(a =~= seq![ids[i as int]] + b);
                    assert forall|x: Seq<u8>| a.to_set().contains(x) <==> b.to_set().insert(ids[i as int]).contains(x) by {
                        if a.contains(x) {
                            let k = choose|k: int| 0 <= k < a.len() && a[k] == x;
                            if k > 0 {
                                assert(b[k - 1] == x);
                            }
                        }
                        if b.contains(x) {
                            let k = choose|k: int| 0 <= k < b.len() && b[k] == x;
                            assert(a[k + 1] == x);
                        }
                        if x == ids[i as int] {
                            assert(a[0] == x);
                        }
                    }
                    assert(a.to_set() =~= b.to_set().insert(ids[i as int]));
                    assert(storage.stored() =~= s0.stored().remove_keys(ids.skip(i as int).to_set()));
                }
            }
            assert(ids.skip(0) =~= ids);
            bytes_reclaimed = bytes;
        }
        proof {
            let t1 = self.snapshot_manager.unwrap().current().unwrap();
            t1.lemma_storage_parts();
        }
        let ghost m_before = self.snapshot_manager.unwrap().snapshot_map();
        assert(m_before == old(self).manager().unwrap().snapshot_map());
        match self.snapshot_manager.as_mut() {
            Some(sm) => {
                record_pruning(sm, &root_hash, bytes_reclaimed);
            },
            None => {},
        }
        proof {
            let m_after = self.snapshot_manager.unwrap().snapshot_map();
            assert(exists|now: u64| #[trigger] pruning_recorded(m_before, m_after, root_hash@, now, bytes_reclaimed));
            let now = choose|now: u64| #[trigger] pruning_recorded(m_before, m_after, root_hash@, now, bytes_reclaimed);
            assert(pruning_recorded(old(self).manager().unwrap().snapshot_map(), m_after, state.root_hash@, now, bytes_reclaimed));
        }
        Ok(bytes_reclaimed)
    }
}

/// The outcome of pruning the roots `hs` in turn, starting from registry
/// `reg` and the current trie's `nodes` (`avail`: there is a current trie):
/// the roots pruned, the number of failures, and the nodes left. A root no
/// longer registered is skipped; a protected root, or any root when there
/// is no current trie, fails; otherwise the nodes under it are removed when
/// they can all be found, and it fails when they cannot.
pub open spec fn prune_run(
    reg: Map<Seq<u8>, PrunableState>,
    nodes: Map<Seq<u8>, NodeView>,
    avail: bool,
    preserve: bool,
    hs: Seq<Seq<u8>>,
) -> (Seq<Seq<u8>>, nat, Map<Seq<u8>, NodeView>)
    decreases hs.len(),
{
    if hs.len() == 0 {
        (Seq::empty(), 0, nodes)
    } else {
        let prev = prune_run(reg, nodes, avail, preserve, hs.drop_last());
        let h = hs.last();
        let cur = reg.remove_keys(prev.0.to_set());
        if !cur.contains_key(h) {
            prev
        } else if (cur[h].is_snapshot_root && preserve) || !avail {
            (prev.0, prev.1 + 1, prev.2)
        } else {
            match nodes_under(prev.2, cur[h].root_hash@, max_depth()) {
                Ok(l) => (prev.0.push(h), prev.1, without(prev.2, l)),
                Err(_) => (prev.0, prev.1 + 1, prev.2),
            }
        }
    }
}

/// Whether `cands` are the candidates for pruning of `p` in the order
/// pruning takes them: the confirmed states not protected, oldest first.
pub open spec fn candidate_order<S: NodeStorage + Clone>(p: StatePruner<S>, cands: Seq<PrunableState>) -> bool {
    &&& rearranges(
        cands,
        p.registry_list().filter(|s: PrunableState| is_candidate(s, p.policy_view().preserve_snapshot_roots)),
    )
    &&& forall|a: int, b: int| 0 <= a < b < cands.len() ==> (#[trigger] cands[a]).timestamp <= (#[trigger] cands[b]).timestamp
}

/// Whether pruning can only fail for reasons stated over plain values: there
/// is no current trie, or its storage cannot fail.
pub open spec fn dependable<S: NodeStorage + Clone>(p: StatePruner<S>) -> bool {
    p.available() ==> p.manager()->Some_0.current()->Some_0.reliable()
}

/// Appending to a sequence adds the element to its set.
proof fn lemma_push_to_set(s: Seq<Seq<u8>>, a: Seq<u8>)
    ensures
        s.push(a).to_set() == s.to_set().insert(a),
{
    let t = s.push(a);
    assert forall|x: Seq<u8>| t.to_set().contains(x) <==> s.to_set().insert(a).contains(x) by {
        if t.contains(x) {
            let k = choose|k: int| 0 <= k < t.len() && t[k] == x;
            if k < s.len() {
                assert(s[k] == x);
            }
        }
        if s.contains(x) {
            let k = choose|k: int| 0 <= k < s.len() && s[k] == x;
            assert(t[k] == x);
        }
        if x == a {
            assert(t[s.len() as int] == x);
        }
    }
    assert(t.to_set() =~= s.to_set().insert(a));
}

/// `a * b`, at most `u64::MAX`.
pub open spec fn sat_mul(a: nat, b: nat) -> nat {
    if a * b > u64::MAX {
        u64::MAX as nat
    } else {
        a * b
    }
}

/// The statistics after a pruning that pruned `count` states, reclaimed
/// `bytes` and took `duration` milliseconds, ending at time `last` (counters
/// saturate at `u64::MAX`; the average is the integer mean of durations).
pub open spec fn stats_after(old: PruningStats, count: nat, bytes: nat, duration: nat, last: u64) -> PruningStats {
    let ops = sat_add(old.total_prune_operations as nat, 1);
    PruningStats {
        total_prune_operations: ops as u64,
        total_states_pruned: sat_add(old.total_states_pruned as nat, count) as u64,
        total_bytes_reclaimed: sat_add(old.total_bytes_reclaimed as nat, bytes) as u64,
        last_prune_timestamp: Some(last),
        avg_prune_duration_ms: (sat_add(
            sat_mul(old.avg_prune_duration_ms as nat, (ops - 1) as nat),
            duration,
        ) / ops) as u64,
    }
}

impl<S: NodeStorage + Clone> StatePruner<S> {
    /// Update pruning statistics
    fn update_stats(&mut self, result: &PruningResult, duration_ms: u64)
        ensures
            final(self).stats_view() == stats_after(
                old(self).stats_view(),
                result.pruned_count as nat,
                result.bytes_reclaimed as nat,
                duration_ms as nat,
                old(self).last_prune(),
            ),
            final(self).registry() == old(self).registry(),
            final(self).registry_list() == old(self).registry_list(),
            final(self).policy_view() == old(self).policy_view(),
            final(self).manager() == old(self).manager(),
            final(self).last_prune() == old(self).last_prune(),
    {
        let ops = self.stats.total_prune_operations.saturating_add(1);
        self.stats.total_prune_operations = ops;
        self.stats.total_states_pruned = self.stats.total_states_pruned.saturating_add(result.pruned_count as u64);
        self.stats.total_bytes_reclaimed = self.stats.total_bytes_reclaimed.saturating_add(result.bytes_reclaimed);
        self.stats.last_prune_timestamp = Some(self.last_prune_time);
        let total_duration: u64 = match self.stats.avg_prune_duration_ms.checked_mul(ops - 1) {
            Some(t) => t,
            None => u64::MAX,
        };
        self.stats.avg_prune_duration_ms = total_duration.saturating_add(duration_ms) / ops;
    }

    /// Execute pruning: the confirmed, unprotected states, oldest first, are
    /// filtered by the strategy at the current time, and the chosen states
    /// are pruned in turn as `force_prune` does
    #[verifier::spinoff_prover]
    #[verifier::rlimit(40)]
    pub fn prune(&mut self) -> (r: PruningResult_<PruningResult>)
        ensures
            r matches Ok(res) && ({
                let pruned = hash_views(res.pruned_roots@);
                &&& res.pruned_count == pruned.len()
                &&& final(self).registry() == old(self).registry().remove_keys(pruned.to_set())
                &&& forall|i: int| 0 <= i < pruned.len() ==> old(self).registry().contains_key(#[trigger] pruned[i])
                &&& exists|duration: u64|
                    #[trigger] stats_after(
                        old(self).stats_view(),
                        res.pruned_count as nat,
                        res.bytes_reclaimed as nat,
                        duration as nat,
                        old(self).last_prune(),
                    ) == final(self).stats_view()
                &&& exists|cands: Seq<PrunableState>, now: u64|
                    #![trigger candidate_order(*old(self), cands), strategy_prunes(old(self).policy_view().strategy, cands, now)]
                    candidate_order(*old(self), cands) && ({
                        let sel = strategy_prunes(old(self).policy_view().strategy, cands, now).map_values(
                            |s: PrunableState| s.root_hash@,
                        );
                        &&& forall|i: int| 0 <= i < pruned.len() ==> sel.contains(#[trigger] pruned[i])
                        &&& forall|i: int|
                            0 <= i < sel.len() && old(self).registry().contains_key(#[trigger] sel[i]) && !pruned.contains(sel[i])
                                ==> res.errors@.len() > 0
                        &&& dependable(*old(self)) ==> (pruned, res.errors@.len(), final(self).current_nodes()) == prune_run(
                            old(self).registry(),
                            old(self).current_nodes(),
                            old(self).available(),
                            old(self).policy_view().preserve_snapshot_roots,
                            sel,
                        )
                    })
            }),
            final(self).policy_view() == old(self).policy_view(),
    {
        let start_time = crate::storage_engine::lib::instant_now();
        let candidates = self.get_pruning_candidates();
        let to_prune = match self.apply_pruning_strategy(&candidates) {
            Ok(v) => v,
            Err(e) => {
                return Err(e);
            },
        };
        let ghost now = choose|now: u64| #[trigger] strategy_prunes(self.policy_view().strategy, candidates@, now) == to_prune@;
        let ghost sel = to_prune@.map_values(|s: PrunableState| s.root_hash@);
        let mut roots: Vec<crate::state::mpt::lib::Hash> = Vec::new();
        let mut k: usize = 0;
        while k < to_prune.len()
            invariant
                k <= to_prune@.len(),
                roots@.len() == k,
                hash_views(roots@) == to_prune@.take(k as int).map_values(|s: PrunableState| s.root_hash@),
            decreases to_prune.len() - k,
        {
            let ghost before = roots@;
            roots.push(to_prune[k].root_hash);
            assert(roots@ == before.push(to_prune@[k as int].root_hash));
            assert(hash_views(roots@) =~= hash_views(before).push(to_prune@[k as int].root_hash@));
            assert(to_prune@.take(k + 1).map_values(|s: PrunableState| s.root_hash@) =~= to_prune@.take(k as int).map_values(
                |s: PrunableState| s.root_hash@,
            ).push(to_prune@[k as int].root_hash@));
            assert(hash_views(roots@) =~= to_prune@.take(k + 1).map_values(|s: PrunableState| s.root_hash@));
            k = k + 1;
        }
        assert(to_prune@.take(to_prune@.len() as int) =~= to_prune@);
        assert(candidate_order(*old(self), candidates@));
        let result = self.prune_listed(roots.as_slice());
        proof {
            let pruned = hash_views(result.pruned_roots@);
            assert forall|i: int| 0 <= i < pruned.len() implies sel.contains(#[trigger] pruned[i]) by {
                let j = choose|j: int| 0 <= j < roots@.len() && hash_views(roots@)[j] == pruned[i];
                assert(sel[j] == pruned[i]);
            }
        }
        let elapsed = crate::storage_engine::lib::instant_elapsed(&start_time);
        let duration = crate::storage_engine::lib::duration_millis(&elapsed);
        self.update_stats(&result, duration);
        self.last_prune_time = unix_time_secs();
        assert(stats_after(
            old(self).stats_view(),
            result.pruned_count as nat,
            result.bytes_reclaimed as nat,
            duration as nat,
            old(self).last_prune(),
        ) == self.stats_view());
        Ok(result)
    }
}

impl<S: NodeStorage + Clone> StatePruner<S> {
    /// Apply the pruning strategy to the candidates at the current time
    fn apply_pruning_strategy(&self, candidates: &Vec<PrunableState>) -> (r: PruningResult_<Vec<PrunableState>>)
        ensures
            r matches Ok(v) && exists|now: u64|
                #[trigger] strategy_prunes(self.policy_view().strategy, candidates@, now) == v@,
    {
        let now = unix_time_secs();
        let v = apply_strategy(&self.policy.strategy, candidates, now);
        assert(strategy_prunes(self.policy_view().strategy, candidates@, now) == v@);
        Ok(v)
    }

    /// Force prune specific states: each registered one is handed to the
    /// node removal in turn (see `prune_run`) and removed from the registry
    /// when that succeeds; each failure is recorded in `errors`
    pub fn force_prune(&mut self, root_hashes: &[crate::state::mpt::lib::Hash]) -> (r: PruningResult_<PruningResult>)
        ensures
            r matches Ok(res) && ({
                let pruned = hash_views(res.pruned_roots@);
                &&& res.pruned_count == pruned.len()
                &&& final(self).registry() == old(self).registry().remove_keys(pruned.to_set())
                &&& forall|i: int| 0 <= i < pruned.len() ==> old(self).registry().contains_key(#[trigger] pruned[i])
                    && hash_views(root_hashes@).contains(pruned[i])
                &&& forall|i: int| 0 <= i < pruned.len() ==> !(old(self).registry()[#[trigger] pruned[i]].is_snapshot_root
                    && old(self).policy_view().preserve_snapshot_roots)
                &&& forall|i: int|
                    0 <= i < root_hashes@.len() && old(self).registry().contains_key(#[trigger] hash_views(root_hashes@)[i])
                        && !pruned.contains(hash_views(root_hashes@)[i]) ==> res.errors@.len() > 0
                &&& dependable(*old(self)) ==> (pruned, res.errors@.len(), final(self).current_nodes()) == prune_run(
                    old(self).registry(),
                    old(self).current_nodes(),
                    old(self).available(),
                    old(self).policy_view().preserve_snapshot_roots,
                    hash_views(root_hashes@),
                ) && final(self).available() == old(self).available() && dependable(*final(self))
            }),
            final(self).policy_view() == old(self).policy_view(),
            final(self).stats_view() == old(self).stats_view(),
            final(self).last_prune() == old(self).last_prune(),
    {
        Ok(self.prune_listed(root_hashes))
    }

    /// Prune the listed states in turn (see `force_prune`).
    fn prune_listed(&mut self, root_hashes: &[crate::state::mpt::lib::Hash]) -> (res: PruningResult)
        ensures
            ({
                let pruned = hash_views(res.pruned_roots@);
                &&& res.pruned_count == pruned.len()
                &&& final(self).registry() == old(self).registry().remove_keys(pruned.to_set())
                &&& forall|i: int| 0 <= i < pruned.len() ==> old(self).registry().contains_key(#[trigger] pruned[i])
                    && hash_views(root_hashes@).contains(pruned[i])
                &&& forall|i: int| 0 <= i < pruned.len() ==> !(old(self).registry()[#[trigger] pruned[i]].is_snapshot_root
                    && old(self).policy_view().preserve_snapshot_roots)
                &&& forall|i: int|
                    0 <= i < root_hashes@.len() && old(self).registry().contains_key(#[trigger] hash_views(root_hashes@)[i])
                        && !pruned.contains(hash_views(root_hashes@)[i]) ==> res.errors@.len() > 0
                &&& dependable(*old(self)) ==> (pruned, res.errors@.len(), final(self).current_nodes()) == prune_run(
                    old(self).registry(),
                    old(self).current_nodes(),
                    old(self).available(),
                    old(self).policy_view().preserve_snapshot_roots,
                    hash_views(root_hashes@),
                ) && final(self).available() == old(self).available() && dependable(*final(self))
            }),
            final(self).policy_view() == old(self).policy_view(),
            final(self).stats_view() == old(self).stats_view(),
            final(self).last_prune() == old(self).last_prune(),
    {
        let mut result = PruningResult::default();
        let ghost reg0 = self.registry();
        let mut i: usize = 0;
        while i < root_hashes.len()
            invariant
                i <= root_hashes@.len(),
                self.policy_view() == old(self).policy_view(),
                self.stats_view() == old(self).stats_view(),
                self.last_prune() == old(self).last_prune(),
                reg0 == old(self).registry(),
                result.pruned_count == hash_views(result.pruned_roots@).len(),
                result.pruned_count <= i,
                self.registry() == reg0.remove_keys(hash_views(result.pruned_roots@).to_set()),
                forall|j: int| 0 <= j < hash_views(result.pruned_roots@).len() ==> reg0.contains_key(#[trigger] hash_views(result.pruned_roots@)[j])
                    && hash_views(root_hashes@).contains(hash_views(result.pruned_roots@)[j]),
                forall|j: int| 0 <= j < hash_views(result.pruned_roots@).len() ==> !(reg0[#[trigger] hash_views(result.pruned_roots@)[j]].is_snapshot_root
                    && old(self).policy_view().preserve_snapshot_roots),
                forall|j: int|
                    0 <= j < i && reg0.contains_key(#[trigger] hash_views(root_hashes@)[j])
                        && !hash_views(result.pruned_roots@).contains(hash_views(root_hashes@)[j]) ==> result.errors@.len() > 0,
                dependable(*old(self)) ==> (hash_views(result.pruned_roots@), result.errors@.len(), self.current_nodes())
                    == prune_run(
                    reg0,
                    old(self).current_nodes(),
                    old(self).available(),
                    old(self).policy_view().preserve_snapshot_roots,
                    hash_views(root_hashes@).take(i as int),
                ) && self.available() == old(self).available() && dependable(*self),
            decreases root_hashes.len() - i,
        {
            proof {
                use_type_invariant(&self.state_registry);
            }
            let root_hash = root_hashes[i];
            assert(hash_views(root_hashes@)[i as int] == root_hash@);
            let ghost p0 = hash_views(result.pruned_roots@);
            let ghost e0 = result.errors@.len();
            let ghost reg_now = self.registry();
            let ghost prev_nodes = self.current_nodes();
            proof {
                let hs = hash_views(root_hashes@);
                assert(hs.take(i + 1).drop_last() =~= hs.take(i as int));
                assert(hs.take(i + 1).last() == root_hash@);
            }
            let found = match self.state_registry.states.get(&root_hash) {
                Some(s) => Some(*s),
                None => None,
            };
            match found {
                Some(state) => {
                    match self.prune_state(state) {
                        Ok(bytes_reclaimed) => {
                            proof {
                                use_type_invariant(&self.state_registry);
                            }
                            let ghost before = result.pruned_roots@;
                            result.pruned_count = result.pruned_count + 1;
                            result.bytes_reclaimed = result.bytes_reclaimed.saturating_add(bytes_reclaimed);
                            result.pruned_roots.push(root_hash);
                            let mut states = AssocList { entries: Vec::new() };
                            std::mem::swap(&mut states, &mut self.state_registry.states);
                            states.remove(&root_hash);
                            self.state_registry.states = states;
                            proof {
                                assert(hash_views(result.pruned_roots@) =~= hash_views(before).push(root_hash@));
                                lemma_push_to_set(hash_views(before), root_hash@);
                                assert(self.registry() =~= reg0.remove_keys(hash_views(result.pruned_roots@).to_set()));
                                assert forall|j: int| 0 <= j < hash_views(result.pruned_roots@).len() implies reg0.contains_key(#[trigger] hash_views(result.pruned_roots@)[j])
                                    && hash_views(root_hashes@).contains(hash_views(result.pruned_roots@)[j]) by {
                                    if j < hash_views(before).len() {
                                        assert(hash_views(result.pruned_roots@)[j] == hash_views(before)[j]);
                                    }
                                }
                            }
                        },
                        Err(e) => {
                            result.errors.push(failure_text(&root_hash, &e));
                        },
                    }
                },
                None => {},
            }
            proof {
                let p1 = hash_views(result.pruned_roots@);
                assert(p1.len() >= p0.len());
                assert forall|j: int| 0 <= j < p0.len() implies p1[j] == p0[j] by {
                    if p1.len() > p0.len() {
                        assert(p1 =~= p0.push(root_hash@));
                    } else {
                        assert(p1 =~= p0);
                    }
                }
                assert forall|j: int|
                    0 <= j < i + 1 && reg0.contains_key(#[trigger] hash_views(root_hashes@)[j])
                        && !p1.contains(hash_views(root_hashes@)[j]) implies result.errors@.len() > 0 by {
                    let h = hash_views(root_hashes@)[j];
                    if j < i {
                        if p0.contains(h) {
                            let m = choose|m: int| 0 <= m < p0.len() && p0[m] == h;
                            assert(p1[m] == h);
                        }
                    } else if found is None {
                        assert(!reg_now.contains_key(h));
                        assert(p0.to_set().contains(h));
                        let m = choose|m: int| 0 <= m < p0.len() && p0[m] == h;
                        assert(p1[m] == h);
                    } else if p1.len() > p0.len() {
                        assert(p1[p0.len() as int] == h);
                    }
                }
            }
            i = i + 1;
        }
        assert(hash_views(root_hashes@).take(root_hashes@.len() as int) =~= hash_views(root_hashes@));
        result
    }

    /// Get all states that can be pruned, oldest first
    pub fn get_prunable_states(&self) -> (r: PruningResult_<Vec<PrunableState>>)
        ensures
            r matches Ok(v) && rearranges(
                v@,
                self.registry_list().filter(
                    |s: PrunableState| is_candidate(s, self.policy_view().preserve_snapshot_roots),
                ),
            ) && forall|a: int, b: int| 0 <= a < b < v@.len() ==> (#[trigger] v@[a]).timestamp <= (#[trigger] v@[b]).timestamp,
    {
        Ok(self.get_pruning_candidates())
    }

    /// Update the pruning policy
    pub fn update_policy(&mut self, new_policy: PruningPolicy)
        ensures
            final(self).policy_view() == new_policy,
            final(self).registry() == old(self).registry(),
            final(self).registry_list() == old(self).registry_list(),
            final(self).manager() == old(self).manager(),
            final(self).stats_view() == old(self).stats_view(),
            final(self).last_prune() == old(self).last_prune(),
    {
        self.policy = new_policy;
    }

    /// Get the current pruning policy
    pub fn get_policy(&self) -> (r: &PruningPolicy)
        ensures
            *r == self.policy_view(),
    {
        &self.policy
    }
}

} // verus!
