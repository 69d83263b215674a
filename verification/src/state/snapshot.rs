//! State snapshots: the root hash of a state with the time it was taken, an
//! optional height and description and free-form metadata; and a manager that
//! keeps snapshots by identifier, lists and filters them, and cleans up old or
//! excess ones.
use vstd::prelude::*;

use crate::assoc_list::{AssocList, distinct_keys, lemma_distinct_last_index, lemma_map_of, lemma_map_of_len, map_of};
use crate::state::mpt::lib::nibbles_of;
use crate::state::mpt::node::NodeView;
use crate::state::mpt::trie::{MerklePatriciaTrie, NodeStorage, insert_all, max_depth, put_spec};
use vstd::utf8::encode_utf8;
use crate::storage_engine::lib::unix_time_secs;

verus! {

/// Unique identifier for snapshots
pub type SnapshotId = String;

/// A snapshot of the state at a specific point in time
#[derive(Debug)]
pub struct StateSnapshot {
    /// Unique identifier for this snapshot
    pub id: SnapshotId,
    /// Root hash of the state tree at snapshot time
    pub root_hash: crate::state::mpt::lib::Hash,
    /// Timestamp when the snapshot was created
    pub timestamp: u64,
    /// Optional metadata for the snapshot
    pub metadata: AssocList<String, String>,
    /// Block height or sequence number (if applicable)
    pub height: Option<u64>,
    /// Optional description of the snapshot
    pub description: Option<String>,
}

/// Error types for snapshot operations
#[derive(Debug, Clone, PartialEq, Eq)]
pub enum SnapshotError {
    /// Snapshot not found
    NotFound(SnapshotId),
    /// Snapshot already exists
    AlreadyExists(SnapshotId),
    /// Invalid snapshot data
    InvalidSnapshot(String),
    /// MPT operation failed
    MPTError(String),
    /// Serialization/deserialization error
    SerializationError(String),
    /// I/O error
    IoError(String),
}

/// Type alias for snapshot operation results
pub type SnapshotResult<T> = Result<T, SnapshotError>;

/// `a - b`, or 0 when `b` is larger.
pub open spec fn sat_sub(a: u64, b: u64) -> u64 {
    if a >= b {
        (a - b) as u64
    } else {
        0
    }
}

/// Two snapshots with the same fields (metadata compared as maps).
pub open spec fn same_snapshot(a: StateSnapshot, b: StateSnapshot) -> bool {
    &&& a.id@ == b.id@
    &&& a.root_hash == b.root_hash
    &&& a.timestamp == b.timestamp
    &&& a.metadata.wf() == b.metadata.wf()
    &&& a.metadata.view_map() == b.metadata.view_map()
    &&& a.height == b.height
    &&& match (a.description, b.description) {
        (Some(x), Some(y)) => x@ == y@,
        (None, None) => true,
        _ => false,
    }
}

/// The character of a decimal digit.
pub open spec fn digit_char(d: nat) -> char {
    if d == 0 {
        '0'
    } else if d == 1 {
        '1'
    } else if d == 2 {
        '2'
    } else if d == 3 {
        '3'
    } else if d == 4 {
        '4'
    } else if d == 5 {
        '5'
    } else if d == 6 {
        '6'
    } else if d == 7 {
        '7'
    } else if d == 8 {
        '8'
    } else {
        '9'
    }
}

/// The decimal digits of `n`, most significant first, with no leading zero.
pub open spec fn decimal(n: nat) -> Seq<char>
    decreases n,
{
    if n < 10 {
        seq![digit_char(n)]
    } else {
        decimal(n / 10).push(digit_char(n % 10))
    }
}

fn digit_str(d: u64) -> (r: &'static str)
    requires
        d < 10,
    ensures
        r@ == seq![digit_char(d as nat)],
{
    if d == 0 {
        proof {
            reveal_strlit("0");
        }
        "0"
    } else if d == 1 {
        proof {
            reveal_strlit("1");
        }
        "1"
    } else if d == 2 {
        proof {
            reveal_strlit("2");
        }
        "2"
    } else if d == 3 {
        proof {
            reveal_strlit("3");
        }
        "3"
    } else if d == 4 {
        proof {
            reveal_strlit("4");
        }
        "4"
    } else if d == 5 {
        proof {
            reveal_strlit("5");
        }
        "5"
    } else if d == 6 {
        proof {
            reveal_strlit("6");
        }
        "6"
    } else if d == 7 {
        proof {
            reveal_strlit("7");
        }
        "7"
    } else if d == 8 {
        proof {
            reveal_strlit("8");
        }
        "8"
    } else {
        proof {
            reveal_strlit("9");
        }
        "9"
    }
}

/// `n` written in decimal, as `to_string` writes it.
pub fn decimal_text(n: u64) -> (r: String)
    ensures
        r@ == decimal(n as nat),
    decreases n,
{
    if n < 10 {
        let mut s = String::new();
        s.append(digit_str(n));
        s
    } else {
        let mut s = decimal_text(n / 10);
        s.append(digit_str(n % 10));
        s
    }
}

/// A copy of a string.
fn copy_string(s: &String) -> (r: String)
    ensures
        r == *s,
{
    s.clone()
}

/// A copy of a string-to-string list, entry for entry.
fn copy_strings(l: &AssocList<String, String>) -> (r: AssocList<String, String>)
    ensures
        r.entries@.len() == l.entries@.len(),
        forall|i: int|
            0 <= i < l.entries@.len() ==> (#[trigger] r.entries@[i]) == l.entries@[i],
{
    let mut out: Vec<(String, String)> = Vec::new();
    let mut i: usize = 0;
    while i < l.entries.len()
        invariant
            i <= l.entries@.len(),
            out@.len() == i,
            forall|j: int|
                0 <= j < i ==> (#[trigger] out@[j]) == l.entries@[j],
        decreases l.entries.len() - i,
    {
        out.push((copy_string(&l.entries[i].0), copy_string(&l.entries[i].1)));
        i = i + 1;
    }
    AssocList { entries: out }
}

impl StateSnapshot {
    /// Create a new snapshot stamped with the current time
    pub fn new(id: SnapshotId, root_hash: crate::state::mpt::lib::Hash, height: Option<u64>, description: Option<String>) -> (r: Self)
        ensures
            r.id == id,
            r.root_hash == root_hash,
            r.height == height,
            r.description == description,
            r.metadata.wf(),
            r.metadata.view_map() == Map::<Seq<char>, String>::empty(),
    {
        let timestamp = unix_time_secs();
        Self { id, root_hash, timestamp, metadata: AssocList::new(), height, description }
    }

    /// Create a snapshot of a trie's current root
    pub fn from_trie<S: NodeStorage>(
        id: SnapshotId,
        trie: &MerklePatriciaTrie<S>,
        height: Option<u64>,
        description: Option<String>,
    ) -> (r: Self)
        ensures
            r.id == id,
            r.root_hash@ == trie.root_id(),
            r.height == height,
            r.description == description,
            r.metadata.wf(),
            r.metadata.view_map() == Map::<Seq<char>, String>::empty(),
    {
        Self::new(id, trie.root_hash(), height, description)
    }

    /// A copy with the same fields.
    pub fn copy(&self) -> (r: Self)
        requires
            self.metadata.wf(),
        ensures
            same_snapshot(r, *self),
    {
        let metadata = copy_strings(&self.metadata);
        assert(metadata.entries@ =~= self.metadata.entries@);
        let description = match &self.description {
            Some(d) => Some(copy_string(d)),
            None => None,
        };
        Self {
            id: copy_string(&self.id),
            root_hash: self.root_hash,
            timestamp: self.timestamp,
            metadata,
            height: self.height,
            description,
        }
    }

    /// Add metadata to the snapshot
    pub fn add_metadata(&mut self, key: String, value: String)
        requires
            old(self).metadata.wf(),
        ensures
            final(self).metadata.wf(),
            final(self).metadata.view_map() == old(self).metadata.view_map().insert(key@, value),
            final(self).id == old(self).id,
            final(self).root_hash == old(self).root_hash,
            final(self).timestamp == old(self).timestamp,
            final(self).height == old(self).height,
            final(self).description == old(self).description,
    {
        self.metadata.insert(key, value);
    }

    /// Get metadata value
    pub fn get_metadata(&self, key: &str) -> (r: Option<&String>)
        requires
            self.metadata.wf(),
        ensures
            r is None <==> !self.metadata.view_map().contains_key(key@),
            r matches Some(v) ==> *v == self.metadata.view_map()[key@],
    {
        let k = key.to_owned();
        self.metadata.get(&k)
    }

    /// The age of the snapshot at time `now`, in seconds (0 for a time
    /// before the snapshot).
    pub fn age_at(&self, now: u64) -> (r: u64)
        ensures
            r == sat_sub(now, self.timestamp),
    {
        now.saturating_sub(self.timestamp)
    }

    /// Check if snapshot is older than specified seconds, by the clock
    pub fn is_older_than(&self, seconds: u64) -> (r: bool)
        ensures
            exists|now: u64| r == (#[trigger] sat_sub(now, self.timestamp) > seconds),
    {
        let current_time = unix_time_secs();
        let r = self.age_at(current_time) > seconds;
        assert(r == (sat_sub(current_time, self.timestamp) > seconds));
        r
    }

    /// Get age of snapshot in seconds, by the clock
    pub fn age_seconds(&self) -> (r: u64)
        ensures
            exists|now: u64| r == #[trigger] sat_sub(now, self.timestamp),
    {
        let current_time = unix_time_secs();
        let r = self.age_at(current_time);
        assert(r == sat_sub(current_time, self.timestamp));
        r
    }
}

/// A trie state: its root and its nodes.
pub type TrieNodes = (Seq<u8>, Map<Seq<u8>, NodeView>);

/// `after` is `before` once metadata `key` with `value` has been tried
/// (see `MerklePatriciaTrie::try_add_metadata`): the root stays or becomes
/// that of the completed insertion of `"metadata:" + key`; with storage
/// that cannot fail and a key short enough, the insertion is made whenever
/// it is defined and leaves the root otherwise.
pub open spec fn metadata_added(reliable: bool, before: TrieNodes, after: TrieNodes, key: Seq<u8>, value: Seq<u8>) -> bool {
    let full = encode_utf8("metadata:"@) + key;
    let ins = put_spec(before.1, before.0, nibbles_of(full), value, max_depth());
    &&& after.0 == before.0 || (ins matches Ok((root, w)) && after.0 == root && after.1 == insert_all(before.1, w))
    &&& reliable && 2 * full.len() <= usize::MAX ==> match ins {
        Ok((root, w)) => after.0 == root && after.1 == insert_all(before.1, w),
        Err(_) => after.0 == before.0,
    }
}

/// The metadata steps of a restoration from snapshot `snap` (named `id`),
/// through the states `s1`, `s2`, `s3` to `s4`: the height in decimal (when
/// the snapshot has one), the description (when it has one), the
/// identifier, and the restoration time `now` in decimal seconds.
pub open spec fn restored_chain(
    reliable: bool,
    s0: TrieNodes,
    snap: StateSnapshot,
    id: Seq<char>,
    s1: TrieNodes,
    s2: TrieNodes,
    s3: TrieNodes,
    s4: TrieNodes,
    now: u64,
) -> bool {
    &&& match snap.height {
        Some(h) => metadata_added(reliable, s0, s1, encode_utf8("height"@), encode_utf8(decimal(h as nat))),
        None => s1 == s0,
    }
    &&& match snap.description {
        Some(d) => metadata_added(reliable, s1, s2, encode_utf8("description"@), encode_utf8(d@)),
        None => s2 == s1,
    }
    &&& metadata_added(reliable, s2, s3, encode_utf8("restored_from"@), encode_utf8(id))
    &&& metadata_added(reliable, s3, s4, encode_utf8("restored_at"@), encode_utf8(decimal(now as nat)))
}

/// The trie restored from snapshot `snap` (named `id`), starting from `s0`
/// (the base trie's nodes under the snapshot's root), ends at `s4` after
/// the metadata steps of `restored_chain`, at some restoration time.
pub open spec fn restored_as(reliable: bool, s0: TrieNodes, snap: StateSnapshot, id: Seq<char>, s4: TrieNodes) -> bool {
    exists|s1: TrieNodes, s2: TrieNodes, s3: TrieNodes, now: u64|
        #[trigger] restored_chain(reliable, s0, snap, id, s1, s2, s3, s4, now)
}

/// Configuration for snapshot management
#[derive(Debug, Clone)]
pub struct SnapshotConfig {
    /// Maximum number of snapshots to keep
    pub max_snapshots: Option<usize>,
    /// Maximum age of snapshots in seconds
    pub max_age_seconds: Option<u64>,
    /// Whether to enable automatic cleanup
    pub auto_cleanup: bool,
    /// Interval for automatic cleanup in seconds
    pub cleanup_interval_seconds: u64,
}

impl Default for SnapshotConfig {
    fn default() -> (r: Self)
        ensures
            r.max_snapshots == Some(100usize),
            r.max_age_seconds == Some(2592000u64),
            r.auto_cleanup,
            r.cleanup_interval_seconds == 3600,
    {
        Self {
            max_snapshots: Some(100),
            max_age_seconds: Some(86400 * 30),
            auto_cleanup: true,
            cleanup_interval_seconds: 3600,
        }
    }
}

/// Statistics about snapshot management
#[derive(Debug, Clone)]
pub struct SnapshotStatistics {
    /// Total number of snapshots
    pub total_snapshots: usize,
    /// Timestamp of the oldest snapshot
    pub oldest_timestamp: Option<u64>,
    /// Timestamp of the newest snapshot
    pub newest_timestamp: Option<u64>,
    /// Estimated total size of snapshots in bytes
    pub estimated_size_bytes: usize,
}

/// The snapshots that survive the age limit at time `now`.
pub open spec fn fresh_enough(s: StateSnapshot, max_age: Option<u64>, now: u64) -> bool {
    match max_age {
        Some(a) => sat_sub(now, s.timestamp) <= a,
        None => true,
    }
}

/// Snapshots by identifier, with distinct identifiers.
struct Registry {
    snapshots: AssocList<SnapshotId, StateSnapshot>,
}

impl Registry {
    #[verifier::type_invariant]
    spec fn inv(self) -> bool {
        self.snapshots.wf()
    }
}

/// Manages state snapshots
pub struct SnapshotManager<S: NodeStorage> {
    /// Configuration for snapshot management
    config: SnapshotConfig,
    /// Snapshot registry
    registry: Registry,
    /// The trie of the current state
    current_trie: Option<MerklePatriciaTrie<S>>,
}

impl<S: NodeStorage> SnapshotManager<S> {

    /// The snapshots by identifier.
    pub closed spec fn snapshot_map(&self) -> Map<Seq<char>, StateSnapshot> {
        self.registry.snapshots.view_map()
    }

    /// The snapshots in the order they are kept.
    pub closed spec fn snapshot_list(&self) -> Seq<StateSnapshot> {
        self.registry.snapshots.entries@.map_values(|e: (SnapshotId, StateSnapshot)| e.1)
    }

    /// The configuration.
    pub closed spec fn config_view(&self) -> SnapshotConfig {
        self.config
    }

    /// The current trie, if one was set.
    pub closed spec fn current(&self) -> Option<MerklePatriciaTrie<S>> {
        self.current_trie
    }

    /// Kept snapshots are exactly the mapped ones.
    proof fn lemma_list_is_map(&self)
        requires
            self.registry.snapshots.wf(),
        ensures
            self.snapshot_list().len() == self.snapshot_map().len(),
            forall|i: int|
                0 <= i < self.snapshot_list().len() ==> self.snapshot_map().contains_key(
                    #[trigger] self.registry.snapshots.entries@[i].0@,
                ) && self.snapshot_map()[self.registry.snapshots.entries@[i].0@] == self.snapshot_list()[i],
            forall|k: Seq<char>|
                #[trigger] self.snapshot_map().contains_key(k) ==> exists|i: int|
                    0 <= i < self.snapshot_list().len() && self.registry.snapshots.entries@[i].0@ == k,
    {
        lemma_map_of_len(self.registry.snapshots.entries@);
        assert forall|i: int| 0 <= i < self.snapshot_list().len() implies self.snapshot_map().contains_key(
            #[trigger] self.registry.snapshots.entries@[i].0@,
        ) && self.snapshot_map()[self.registry.snapshots.entries@[i].0@] == self.snapshot_list()[i] by {
            lemma_distinct_last_index(self.registry.snapshots.entries@, i);
        }
        assert forall|k: Seq<char>| #[trigger] self.snapshot_map().contains_key(k) implies exists|i: int|
            0 <= i < self.snapshot_list().len() && self.registry.snapshots.entries@[i].0@ == k by {
            lemma_map_of(self.registry.snapshots.entries@, k);
            crate::assoc_list::lemma_last_index(self.registry.snapshots.entries@, k);
        }
    }

    /// Create a new snapshot manager
    pub fn new(config: SnapshotConfig) -> (r: Self)
        ensures
            r.snapshot_map() == Map::<Seq<char>, StateSnapshot>::empty(),
            r.config_view() == config,
            r.current() is None,
    {
        Self { config, registry: Registry { snapshots: AssocList::new() }, current_trie: None }
    }

    /// Create a new snapshot manager with default configuration
    pub fn with_defaults() -> (r: Self)
        ensures
            r.snapshot_map() == Map::<Seq<char>, StateSnapshot>::empty(),
            r.config_view().max_snapshots == Some(100usize),
            r.config_view().max_age_seconds == Some(2592000u64),
            r.config_view().auto_cleanup,
            r.current() is None,
    {
        Self::new(SnapshotConfig::default())
    }

    /// Set the current trie
    pub fn set_current_trie(&mut self, trie: MerklePatriciaTrie<S>)
        ensures
            final(self).current() == Some(trie),
            final(self).snapshot_map() == old(self).snapshot_map(),
            final(self).config_view() == old(self).config_view(),
    {
        proof {
            use_type_invariant(&self.registry);
        }
        self.current_trie = Some(trie);
    }

    /// Snapshot the trie under a new identifier; an existing identifier is refused.
    /// With automatic cleanup, old and excess snapshots are then removed.
    pub fn create_snapshot(
        &mut self,
        id: SnapshotId,
        trie: &MerklePatriciaTrie<S>,
        height: Option<u64>,
        description: Option<String>,
    ) -> (r: SnapshotResult<StateSnapshot>)
        ensures
            final(self).config_view() == old(self).config_view(),
            final(self).current() == old(self).current(),
            old(self).snapshot_map().contains_key(id@) ==> r == Err::<StateSnapshot, SnapshotError>(
                SnapshotError::AlreadyExists(id),
            ) && final(self).snapshot_map() == old(self).snapshot_map(),
            !old(self).snapshot_map().contains_key(id@) ==> (r matches Ok(s) && s.id == id
                && s.root_hash@ == trie.root_id() && s.height == height && s.description
                == description && s.metadata.wf() && s.metadata.view_map() == Map::<
                Seq<char>,
                String,
            >::empty() && (!old(self).config_view().auto_cleanup ==> final(self).snapshot_map()
                == old(self).snapshot_map().insert(id@, final(self).snapshot_map()[id@])
                && same_snapshot(final(self).snapshot_map()[id@], s)) && (
            old(self).config_view().auto_cleanup ==> exists|now: u64, t: StateSnapshot|
                same_snapshot(t, s) && #[trigger] cleaned(
                    old(self).snapshot_map().insert(id@, t),
                    old(self).config_view(),
                    now,
                    final(self).snapshot_map(),
                ))),
    {
        proof {
            use_type_invariant(&self.registry);
        }
        if self.registry.snapshots.contains_key(&id) {
            return Err(SnapshotError::AlreadyExists(id));
        }
        let snapshot = StateSnapshot::from_trie(copy_string(&id), trie, height, description);
        let stored = snapshot.copy();
        let mut snapshots = AssocList { entries: Vec::new() };
        std::mem::swap(&mut snapshots, &mut self.registry.snapshots);
        snapshots.insert(id, stored);
        self.registry.snapshots = snapshots;
        let ghost inserted = self.snapshot_map();
        assert(inserted == old(self).snapshot_map().insert(id@, inserted[id@]));
        if self.config.auto_cleanup {
            let now = unix_time_secs();
            let _ = self.cleanup_at(now);
        }
        Ok(snapshot)
    }

    /// The identifier of a snapshot with the smallest timestamp, if any.
    fn oldest_id(&self) -> (r: Option<SnapshotId>)
        ensures
            r is None <==> self.snapshot_map().len() == 0,
            r matches Some(k) ==> self.snapshot_map().contains_key(k@) && forall|k2: Seq<char>|
                #[trigger] self.snapshot_map().contains_key(k2) ==> self.snapshot_map()[k@].timestamp
                    <= self.snapshot_map()[k2].timestamp,
    {
        proof {
            use_type_invariant(&self.registry);
            self.lemma_list_is_map();
        }
        let n = self.registry.snapshots.entries.len();
        if n == 0 {
            return None;
        }
        let mut best: usize = 0;
        let mut i: usize = 1;
        while i < n
            invariant
                1 <= i <= n,
                n == self.registry.snapshots.entries@.len(),
                best < i,
                forall|j: int| 0 <= j < i ==> self.registry.snapshots.entries@[best as int].1.timestamp
                    <= #[trigger] self.registry.snapshots.entries@[j].1.timestamp,
            decreases n - i,
        {
            if self.registry.snapshots.entries[i].1.timestamp < self.registry.snapshots.entries[best].1.timestamp {
                best = i;
            }
            i = i + 1;
        }
        proof {
            assert(self.snapshot_list()[best as int] == self.registry.snapshots.entries@[best as int].1);
            assert forall|k2: Seq<char>| #[trigger] self.snapshot_map().contains_key(k2) implies self.snapshot_map()[self.registry.snapshots.entries@[best as int].0@].timestamp
                <= self.snapshot_map()[k2].timestamp by {
                let j = choose|j: int| 0 <= j < self.snapshot_list().len() && self.registry.snapshots.entries@[j].0@ == k2;
                assert(self.snapshot_list()[j] == self.registry.snapshots.entries@[j].1);
            }
        }
        Some(copy_string(&self.registry.snapshots.entries[best].0))
    }

    /// Remove snapshot `id` from the registry.
    fn remove_entry(&mut self, id: &SnapshotId) -> (r: Option<StateSnapshot>)
        ensures
            final(self).snapshot_map() == old(self).snapshot_map().remove(id@),
            r is None <==> !old(self).snapshot_map().contains_key(id@),
            r matches Some(v) ==> v == old(self).snapshot_map()[id@],
            final(self).config_view() == old(self).config_view(),
            final(self).current() == old(self).current(),
    {
        proof {
            use_type_invariant(&self.registry);
        }
        let mut snapshots = AssocList { entries: Vec::new() };
        std::mem::swap(&mut snapshots, &mut self.registry.snapshots);
        let r = snapshots.remove(id);
        self.registry.snapshots = snapshots;
        r
    }

    /// Cleanup old snapshots at time `now`: those past the age limit, then
    /// the oldest ones beyond the maximum count; gives how many were removed
    pub fn cleanup_at(&mut self, now: u64) -> (r: usize)
        ensures
            cleaned(old(self).snapshot_map(), old(self).config_view(), now, final(self).snapshot_map()),
            r == old(self).snapshot_map().len() - final(self).snapshot_map().len(),
            final(self).config_view() == old(self).config_view(),
            final(self).current() == old(self).current(),
    {
        proof {
            use_type_invariant(&self.registry);
            self.lemma_list_is_map();
            lemma_map_of_len(self.registry.snapshots.entries@);
        }
        let ghost m0 = self.snapshot_map();
        assert(m0.len() == self.registry.snapshots.entries.len());
        let ghost config = self.config;
        let ghost fresh = m0.restrict(
            m0.dom().filter(|k: Seq<char>| fresh_enough(m0[k], config.max_age_seconds, now)),
        );
        let mut removed: usize = 0;
        match self.config.max_age_seconds {
            Some(max_age) => {
                let ids = self.registry.snapshots.keys();
                proof {
                    assert forall|k: Seq<char>| #[trigger] m0.contains_key(k) implies exists|j: int|
                        0 <= j < ids@.len() && ids@[j]@ == k by {
                        let j = choose|j: int| 0 <= j < self.snapshot_list().len() && self.registry.snapshots.entries@[j].0@ == k;
                        assert(ids@[j]@ == k);
                    }
                    assert(m0.len() == self.registry.snapshots.entries.len());
                }
                let mut i: usize = 0;
                while i < ids.len()
                    invariant
                        i <= ids@.len(),
                        ids@.len() == self.snapshot_list().len() || i <= ids@.len(),
                        config == self.config,
                        config.max_age_seconds == Some(max_age),
                        self.current() == old(self).current(),
                        m0.dom().finite(),
                        forall|j: int| 0 <= j < ids@.len() ==> m0.contains_key(#[trigger] ids@[j]@),
                        forall|k: Seq<char>| #[trigger] m0.contains_key(k) ==> exists|j: int|
                            0 <= j < ids@.len() && ids@[j]@ == k,
                        forall|k: Seq<char>| #[trigger] self.snapshot_map().contains_key(k) ==> m0.contains_key(k)
                            && self.snapshot_map()[k] == m0[k],
                        forall|k: Seq<char>|
                            #[trigger] m0.contains_key(k) && fresh_enough(m0[k], config.max_age_seconds, now)
                                ==> self.snapshot_map().contains_key(k),
                        forall|j: int|
                            0 <= j < i && !fresh_enough(m0[ids@[j]@], config.max_age_seconds, now)
                                ==> !self.snapshot_map().contains_key(#[trigger] ids@[j]@),
                        removed == m0.len() - self.snapshot_map().len(),
                        self.snapshot_map().len() <= m0.len(),
                        m0.len() <= usize::MAX,
                        self.snapshot_map().dom().finite(),
                    decreases ids@.len() - i,
                {
                    proof {
                        use_type_invariant(&self.registry);
                        lemma_map_of_len(self.registry.snapshots.entries@);
                    }
                    let too_old = match self.registry.snapshots.get(&ids[i]) {
                        Some(snap) => snap.age_at(now) > max_age,
                        None => false,
                    };
                    if too_old {
                        let ghost before = self.snapshot_map();
                        let _ = self.remove_entry(&ids[i]);
                        proof {
                            use_type_invariant(&self.registry);
                            lemma_map_of_len(self.registry.snapshots.entries@);
                        }
                        removed = removed + 1;
                    }
                    i = i + 1;
                }
                proof {
                    assert forall|k: Seq<char>| #[trigger] self.snapshot_map().contains_key(k) implies fresh.contains_key(k) by {
                        let j = choose|j: int| 0 <= j < ids@.len() && ids@[j]@ == k;
                    }
                    assert(self.snapshot_map() =~= fresh);
                }
            },
            None => {
                assert(self.snapshot_map() =~= fresh);
            },
        }
        match self.config.max_snapshots {
            Some(max_count) => {
                let ghost at_fresh = self.snapshot_map();
                proof {
                    use_type_invariant(&self.registry);
                }
                while self.registry.snapshots.len() > max_count
                    invariant
                        config == self.config,
                        self.current() == old(self).current(),
                        config.max_snapshots == Some(max_count),
                        at_fresh == fresh,
                        fresh.dom().finite(),
                        forall|k: Seq<char>| #[trigger] self.snapshot_map().contains_key(k) ==> fresh.contains_key(k)
                            && self.snapshot_map()[k] == fresh[k],
                        self.snapshot_map().dom().finite(),
                        fresh.len() > max_count ==> self.snapshot_map().len() >= max_count,
                        fresh.len() <= max_count ==> self.snapshot_map() == fresh,
                        forall|a: Seq<char>, b: Seq<char>|
                            #![trigger fresh.contains_key(a), self.snapshot_map().contains_key(b)]
                            fresh.contains_key(a) && !self.snapshot_map().contains_key(a)
                                && self.snapshot_map().contains_key(b) ==> fresh[a].timestamp
                                <= fresh[b].timestamp,
                        removed == m0.len() - self.snapshot_map().len(),
                        self.snapshot_map().len() <= m0.len(),
                        m0.len() <= usize::MAX,
                        self.registry.snapshots.wf(),
                    decreases self.snapshot_map().len(),
                {
                    proof {
                        use_type_invariant(&self.registry);
                        lemma_map_of_len(self.registry.snapshots.entries@);
                    }
                    match self.oldest_id() {
                        Some(k) => {
                            let ghost before = self.snapshot_map();
                            let _ = self.remove_entry(&k);
                            proof {
                                use_type_invariant(&self.registry);
                                lemma_map_of_len(self.registry.snapshots.entries@);
                                assert forall|a: Seq<char>, b: Seq<char>|
                                    #![trigger fresh.contains_key(a), self.snapshot_map().contains_key(b)]
                                    fresh.contains_key(a) && !self.snapshot_map().contains_key(a)
                                        && self.snapshot_map().contains_key(b) implies fresh[a].timestamp
                                        <= fresh[b].timestamp by {
                                    assert(before.contains_key(b));
                                    assert(fresh[b] == before[b]);
                                    if a == k@ {
                                        assert(fresh[k@] == before[k@]);
                                        assert(before[k@].timestamp <= before[b].timestamp);
                                    } else {
                                        assert(!before.contains_key(a));
                                    }
                                }
                            }
                            removed = removed + 1;
                        },
                        None => {
                            assert(self.snapshot_map().len() == 0);
                        },
                    }
                }
            },
            None => {},
        }
        proof {
            use_type_invariant(&self.registry);
            lemma_map_of_len(self.registry.snapshots.entries@);
            assert(self.snapshot_map().submap_of(fresh));
            assert(fresh == old(self).snapshot_map().restrict(
                old(self).snapshot_map().dom().filter(|k: Seq<char>| fresh_enough(old(self).snapshot_map()[k], old(self).config_view().max_age_seconds, now)),
            ));
            match config.max_snapshots {
                Some(m) => {
                    if fresh.len() > m {
                        assert(self.snapshot_map().len() == m);
                    } else {
                        assert(self.snapshot_map() == fresh);
                    }
                },
                None => {
                    assert(self.snapshot_map() == fresh);
                },
            }
        }
        removed
    }
}

/// Whether `after` is what cleaning `before` at time `now` under `config`
/// leaves: the snapshots past the age limit are gone; of the rest, when more
/// than the maximum remain, only that many are kept, and no removed one is
/// newer than a kept one.
pub open spec fn cleaned(
    before: Map<Seq<char>, StateSnapshot>,
    config: SnapshotConfig,
    now: u64,
    after: Map<Seq<char>, StateSnapshot>,
) -> bool {
    let fresh = before.restrict(
        before.dom().filter(|k: Seq<char>| fresh_enough(before[k], config.max_age_seconds, now)),
    );
    &&& after.submap_of(fresh)
    &&& match config.max_snapshots {
        Some(m) => if fresh.len() > m {
            after.len() == m
        } else {
            after == fresh
        },
        None => after == fresh,
    }
    &&& forall|a: Seq<char>, b: Seq<char>|
        #![trigger fresh.contains_key(a), after.contains_key(b)]
        fresh.contains_key(a) && !after.contains_key(a) && after.contains_key(b)
            ==> fresh[a].timestamp <= fresh[b].timestamp
}

/// Whether `vals` holds the snapshots of `list`, each once, in some order.
pub open spec fn arranges(vals: Seq<StateSnapshot>, list: Seq<StateSnapshot>) -> bool {
    exists|order: Seq<int>|
        #![trigger order.len()]
        order.len() == list.len() && vals.len() == list.len() && (forall|j: int|
            0 <= j < order.len() ==> 0 <= #[trigger] order[j] < list.len() && vals[j] == list[order[j]])
            && (forall|a: int, b: int|
            0 <= a < order.len() && 0 <= b < order.len() && a != b ==> order[a] != order[b])
}

/// The snapshots behind a vector of references.
pub open spec fn deref_all(v: Seq<&StateSnapshot>) -> Seq<StateSnapshot> {
    v.map_values(|x: &StateSnapshot| *x)
}

/// Whether a snapshot's height is known and within `min..=max`.
pub open spec fn height_within(s: StateSnapshot, min: u64, max: u64) -> bool {
    s.height matches Some(h) && min <= h <= max
}

/// The estimated size of the metadata of `list`, at `unit` bytes per string,
/// counting 2 strings per metadata entry; the sum saturates at `usize::MAX`.
pub open spec fn metadata_size(list: Seq<StateSnapshot>, unit: nat) -> nat
    decreases list.len(),
{
    if list.len() == 0 {
        0
    } else {
        let rest = metadata_size(list.drop_last(), unit);
        let here = list.last().metadata.entries@.len() * unit * 2;
        if rest + here > usize::MAX {
            usize::MAX as nat
        } else {
            rest + here
        }
    }
}

impl<S: NodeStorage> SnapshotManager<S> {
    /// Get a snapshot by ID
    pub fn get_snapshot(&self, id: &SnapshotId) -> (r: SnapshotResult<&StateSnapshot>)
        ensures
            self.snapshot_map().contains_key(id@) ==> (r matches Ok(s) && *s == self.snapshot_map()[id@]),
            !self.snapshot_map().contains_key(id@) ==> (r matches Err(SnapshotError::NotFound(x)) && x@
                == id@),
    {
        proof {
            use_type_invariant(&self.registry);
        }
        match self.registry.snapshots.get(id) {
            Some(s) => Ok(s),
            None => Err(SnapshotError::NotFound(copy_string(id))),
        }
    }

    /// List all snapshots, in the order they are kept
    pub fn list_snapshots(&self) -> (r: Vec<&StateSnapshot>)
        ensures
            deref_all(r@) == self.snapshot_list(),
    {
        let mut r: Vec<&StateSnapshot> = Vec::new();
        let mut i: usize = 0;
        while i < self.registry.snapshots.entries.len()
            invariant
                i <= self.registry.snapshots.entries@.len(),
                deref_all(r@) == self.snapshot_list().take(i as int),
            decreases self.registry.snapshots.entries.len() - i,
        {
            assert(self.snapshot_list()[i as int] == self.registry.snapshots.entries@[i as int].1);
            let ghost before = r@;
            r.push(&self.registry.snapshots.entries[i].1);
            assert(deref_all(r@) =~= deref_all(before).push(self.snapshot_list()[i as int]));
            assert(self.snapshot_list().take(i + 1) =~= self.snapshot_list().take(i as int).push(
                self.snapshot_list()[i as int],
            ));
            i = i + 1;
        }
        assert(self.snapshot_list().take(i as int) =~= self.snapshot_list());
        r
    }

    /// List snapshots sorted by timestamp, newest first (snapshots with equal
    /// timestamps keep their order)
    pub fn list_snapshots_by_time(&self) -> (r: Vec<&StateSnapshot>)
        ensures
            arranges(deref_all(r@), self.snapshot_list()),
            forall|a: int, b: int|
                0 <= a < b < r@.len() ==> (#[trigger] r@[a]).timestamp >= (#[trigger] r@[b]).timestamp,
    {
        let n = self.registry.snapshots.entries.len();
        let ghost list = self.snapshot_list();
        let mut order: Vec<usize> = Vec::new();
        let mut i: usize = 0;
        while i < n
            invariant
                i <= n,
                n == self.registry.snapshots.entries@.len(),
                list == self.snapshot_list(),
                order@.len() == i,
                forall|j: int| 0 <= j < i ==> #[trigger] order@[j] < i,
                forall|a: int, b: int| 0 <= a < i && 0 <= b < i && a != b ==> order@[a] != order@[b],
                forall|a: int, b: int|
                    0 <= a < b < i ==> list[order@[a] as int].timestamp >= list[order@[b] as int].timestamp,
            decreases n - i,
        {
            let ts = self.registry.snapshots.entries[i].1.timestamp;
            assert(list[i as int] == self.registry.snapshots.entries@[i as int].1);
            let mut p: usize = 0;
            while p < order.len() && self.registry.snapshots.entries[order[p]].1.timestamp >= ts
                invariant
                    p <= order@.len(),
                    order@.len() == i,
                    i < n,
                    n == self.registry.snapshots.entries@.len(),
                    list == self.snapshot_list(),
                    ts == list[i as int].timestamp,
                    forall|j: int| 0 <= j < i ==> #[trigger] order@[j] < i,
                    forall|j: int| 0 <= j < p ==> list[order@[j] as int].timestamp >= ts,
                decreases order@.len() - p,
            {
                assert(list[order@[p as int] as int] == self.registry.snapshots.entries@[order@[p as int] as int].1);
                p = p + 1;
            }
            if p < order.len() {
                assert(list[order@[p as int] as int] == self.registry.snapshots.entries@[order@[p as int] as int].1);
            }
            let ghost before = order@;
            order.insert(p, i);
            proof {
                assert(order@ == before.insert(p as int, i));
                assert forall|j: int| 0 <= j < i + 1 implies #[trigger] order@[j] < i + 1 by {
                    if j < p {
                        assert(order@[j] == before[j]);
                    } else if j > p {
                        assert(order@[j] == before[j - 1]);
                    }
                }
                assert forall|a: int, b: int| 0 <= a < i + 1 && 0 <= b < i + 1 && a != b implies order@[a]
                    != order@[b] by {
                    if a != p && b != p {
                        let a0 = if a < p { a } else { a - 1 };
                        let b0 = if b < p { b } else { b - 1 };
                        assert(order@[a] == before[a0]);
                        assert(order@[b] == before[b0]);
                    } else if a == p {
                        let b0 = if b < p { b } else { b - 1 };
                        assert(order@[b] == before[b0]);
                    } else {
                        let a0 = if a < p { a } else { a - 1 };
                        assert(order@[a] == before[a0]);
                    }
                }
                assert forall|a: int, b: int| 0 <= a < b < i + 1 implies list[order@[a] as int].timestamp
                    >= list[order@[b] as int].timestamp by {
                    if b < p {
                        assert(order@[a] == before[a]);
                        assert(order@[b] == before[b]);
                    } else if b == p {
                        assert(order@[a] == before[a]);
                    } else if a == p {
                        assert(order@[b] == before[b - 1]);
                        assert(list[before[p as int] as int].timestamp < ts);
                        if b - 1 > p {
                            assert(list[before[p as int] as int].timestamp >= list[before[b - 1] as int].timestamp);
                        }
                    } else if a < p {
                        assert(order@[a] == before[a]);
                        assert(order@[b] == before[b - 1]);
                    } else {
                        assert(order@[a] == before[a - 1]);
                        assert(order@[b] == before[b - 1]);
                    }
                }
            }
            i = i + 1;
        }
        let mut r: Vec<&StateSnapshot> = Vec::new();
        let mut k: usize = 0;
        while k < n
            invariant
                k <= n,
                n == self.registry.snapshots.entries@.len(),
                list == self.snapshot_list(),
                order@.len() == n,
                forall|j: int| 0 <= j < n ==> #[trigger] order@[j] < n,
                r@.len() == k,
                forall|j: int| 0 <= j < k ==> *(#[trigger] r@[j]) == list[order@[j] as int],
            decreases n - k,
        {
            r.push(&self.registry.snapshots.entries[order[k]].1);
            i = i;
            k = k + 1;
        }
        proof {
            let ord = order@.map_values(|x: usize| x as int);
            assert forall|j: int| 0 <= j < ord.len() implies 0 <= #[trigger] ord[j] < list.len()
                && deref_all(r@)[j] == list[ord[j]] by {}
            assert forall|a: int, b: int|
                0 <= a < ord.len() && 0 <= b < ord.len() && a != b implies ord[a] != ord[b] by {}
            assert(ord.len() == list.len());
            assert(arranges(deref_all(r@), list));
            assert forall|a: int, b: int| 0 <= a < b < r@.len() implies (#[trigger] r@[a]).timestamp
                >= (#[trigger] r@[b]).timestamp by {
                assert(*r@[a] == list[order@[a] as int]);
                assert(*r@[b] == list[order@[b] as int]);
            }
        }
        r
    }

    /// Delete a snapshot
    pub fn delete_snapshot(&mut self, id: &SnapshotId) -> (r: SnapshotResult<StateSnapshot>)
        ensures
            final(self).snapshot_map() == old(self).snapshot_map().remove(id@),
            final(self).config_view() == old(self).config_view(),
            final(self).current() == old(self).current(),
            old(self).snapshot_map().contains_key(id@) ==> (r matches Ok(s) && s == old(
                self,
            ).snapshot_map()[id@]),
            !old(self).snapshot_map().contains_key(id@) ==> (r matches Err(SnapshotError::NotFound(x))
                && x@ == id@),
    {
        match self.remove_entry(id) {
            Some(s) => Ok(s),
            None => Err(SnapshotError::NotFound(copy_string(id))),
        }
    }

    /// Get snapshots whose height is within `min_height..=max_height`, in the
    /// order they are kept
    pub fn get_snapshots_by_height(&self, min_height: u64, max_height: u64) -> (r: Vec<&StateSnapshot>)
        ensures
            deref_all(r@) == self.snapshot_list().filter(
                |s: StateSnapshot| height_within(s, min_height, max_height),
            ),
    {
        let ghost list = self.snapshot_list();
        let ghost p = |s: StateSnapshot| height_within(s, min_height, max_height);
        let mut r: Vec<&StateSnapshot> = Vec::new();
        let mut i: usize = 0;
        while i < self.registry.snapshots.entries.len()
            invariant
                i <= self.registry.snapshots.entries@.len(),
                list == self.snapshot_list(),
                p == (|s: StateSnapshot| height_within(s, min_height, max_height)),
                deref_all(r@) == list.take(i as int).filter(p),
            decreases self.registry.snapshots.entries.len() - i,
        {
            let s = &self.registry.snapshots.entries[i].1;
            proof {
                assert(list.take(i + 1).drop_last() =~= list.take(i as int));
                reveal_with_fuel(Seq::<_>::filter, 1);
            }
            let keep = match s.height {
                Some(h) => h >= min_height && h <= max_height,
                None => false,
            };
            if keep {
                r.push(s);
                assert(deref_all(r@) =~= list.take(i + 1).filter(p));
            } else {
                assert(deref_all(r@) =~= list.take(i + 1).filter(p));
            }
            i = i + 1;
        }
        assert(list.take(i as int) =~= list);
        r
    }

    /// Get the latest snapshot: among those with the largest timestamp, the
    /// last one kept
    pub fn get_latest_snapshot(&self) -> (r: Option<&StateSnapshot>)
        ensures
            r is None <==> self.snapshot_list().len() == 0,
            r matches Some(s) ==> ((exists|i: int|
                0 <= i < self.snapshot_list().len() && self.snapshot_list()[i] == *s) && forall|j: int|
                0 <= j < self.snapshot_list().len() ==> (#[trigger] self.snapshot_list()[j]).timestamp
                    <= s.timestamp),
    {
        let ghost list = self.snapshot_list();
        let n = self.registry.snapshots.entries.len();
        if n == 0 {
            return None;
        }
        let mut best: usize = 0;
        let mut i: usize = 1;
        while i < n
            invariant
                1 <= i <= n,
                n == self.registry.snapshots.entries@.len(),
                list == self.snapshot_list(),
                best < i,
                forall|j: int| 0 <= j < i ==> (#[trigger] list[j]).timestamp <= list[best as int].timestamp,
            decreases n - i,
        {
            assert(list[i as int] == self.registry.snapshots.entries@[i as int].1);
            assert(list[best as int] == self.registry.snapshots.entries@[best as int].1);
            if self.registry.snapshots.entries[i].1.timestamp >= self.registry.snapshots.entries[best].1.timestamp {
                best = i;
            }
            i = i + 1;
        }
        assert(list[best as int] == self.registry.snapshots.entries@[best as int].1);
        Some(&self.registry.snapshots.entries[best].1)
    }

    /// Get snapshots newer than the timestamp, in the order they are kept
    pub fn get_snapshots_after(&self, timestamp: u64) -> (r: Vec<&StateSnapshot>)
        ensures
            deref_all(r@) == self.snapshot_list().filter(|s: StateSnapshot| s.timestamp > timestamp),
    {
        let ghost list = self.snapshot_list();
        let ghost p = |s: StateSnapshot| s.timestamp > timestamp;
        let mut r: Vec<&StateSnapshot> = Vec::new();
        let mut i: usize = 0;
        while i < self.registry.snapshots.entries.len()
            invariant
                i <= self.registry.snapshots.entries@.len(),
                list == self.snapshot_list(),
                p == (|s: StateSnapshot| s.timestamp > timestamp),
                deref_all(r@) == list.take(i as int).filter(p),
            decreases self.registry.snapshots.entries.len() - i,
        {
            let s = &self.registry.snapshots.entries[i].1;
            proof {
                assert(list.take(i + 1).drop_last() =~= list.take(i as int));
                reveal_with_fuel(Seq::<_>::filter, 1);
            }
            if s.timestamp > timestamp {
                r.push(s);
                assert(deref_all(r@) =~= list.take(i + 1).filter(p));
            } else {
                assert(deref_all(r@) =~= list.take(i + 1).filter(p));
            }
            i = i + 1;
        }
        assert(list.take(i as int) =~= list);
        r
    }

    /// Cleanup old snapshots by the clock; gives how many were removed
    pub fn cleanup_old_snapshots(&mut self) -> (r: SnapshotResult<usize>)
        ensures
            final(self).config_view() == old(self).config_view(),
            final(self).current() == old(self).current(),
            r matches Ok(n) && n == old(self).snapshot_map().len() - final(self).snapshot_map().len(),
            exists|now: u64|
                #[trigger] cleaned(
                    old(self).snapshot_map(),
                    old(self).config_view(),
                    now,
                    final(self).snapshot_map(),
                ),
    {
        let now = unix_time_secs();
        Ok(self.cleanup_at(now))
    }

    /// Get snapshot management statistics
    pub fn get_statistics(&self) -> (r: SnapshotStatistics)
        ensures
            r.total_snapshots == self.snapshot_map().len(),
            r.oldest_timestamp is None <==> self.snapshot_list().len() == 0,
            r.newest_timestamp is None <==> self.snapshot_list().len() == 0,
            r.oldest_timestamp matches Some(t) ==> (exists|i: int|
                0 <= i < self.snapshot_list().len() && self.snapshot_list()[i].timestamp == t) && forall|
                j: int,
            | 0 <= j < self.snapshot_list().len() ==> t <= (#[trigger] self.snapshot_list()[j]).timestamp,
            r.newest_timestamp matches Some(t) ==> (exists|i: int|
                0 <= i < self.snapshot_list().len() && self.snapshot_list()[i].timestamp == t) && forall|
                j: int,
            | 0 <= j < self.snapshot_list().len() ==> (#[trigger] self.snapshot_list()[j]).timestamp <= t,
            r.estimated_size_bytes == metadata_size(
                self.snapshot_list(),
                vstd::layout::size_of::<String>(),
            ),
    {
        proof {
            use_type_invariant(&self.registry);
            lemma_map_of_len(self.registry.snapshots.entries@);
        }
        let ghost list = self.snapshot_list();
        let unit = std::mem::size_of::<String>();
        let n = self.registry.snapshots.entries.len();
        let mut oldest: Option<u64> = None;
        let mut newest: Option<u64> = None;
        let mut size: usize = 0;
        let mut i: usize = 0;
        while i < n
            invariant
                i <= n,
                n == self.registry.snapshots.entries@.len(),
                list == self.snapshot_list(),
                unit == vstd::layout::size_of::<String>(),
                size == metadata_size(list.take(i as int), unit as nat),
                (oldest is None) == (i == 0),
                (newest is None) == (i == 0),
                oldest matches Some(t) ==> (exists|k: int| 0 <= k < i && list[k].timestamp == t)
                    && forall|j: int| 0 <= j < i ==> t <= (#[trigger] list[j]).timestamp,
                newest matches Some(t) ==> (exists|k: int| 0 <= k < i && list[k].timestamp == t)
                    && forall|j: int| 0 <= j < i ==> (#[trigger] list[j]).timestamp <= t,
            decreases n - i,
        {
            let s = &self.registry.snapshots.entries[i].1;
            assert(list[i as int] == *s);
            let ts = s.timestamp;
            oldest = match oldest {
                Some(t) => if ts < t {
                    Some(ts)
                } else {
                    Some(t)
                },
                None => Some(ts),
            };
            newest = match newest {
                Some(t) => if ts > t {
                    Some(ts)
                } else {
                    Some(t)
                },
                None => Some(ts),
            };
            let here: usize = match s.metadata.entries.len().checked_mul(unit) {
                Some(x) => match x.checked_mul(2) {
                    Some(y) => y,
                    None => usize::MAX,
                },
                None => usize::MAX,
            };
            proof {
                assert(list.take(i + 1).drop_last() =~= list.take(i as int));
                assert(list.take(i + 1).last() == *s);
                if s.metadata.entries@.len() * unit <= usize::MAX {
                    if s.metadata.entries@.len() * unit * 2 > usize::MAX {
                        assert(here == usize::MAX);
                    }
                } else {
                    assert(s.metadata.entries@.len() * unit * 2 > usize::MAX) by (nonlinear_arith)
                        requires
                            s.metadata.entries@.len() * unit > usize::MAX,
                    ;
                }
            }
            size = size.saturating_add(here);
            i = i + 1;
        }
        assert(list.take(i as int) =~= list);
        SnapshotStatistics {
            total_snapshots: self.registry.snapshots.len(),
            oldest_timestamp: oldest,
            newest_timestamp: newest,
            estimated_size_bytes: size,
        }
    }

    /// Check if a snapshot exists
    pub fn snapshot_exists(&self, id: &SnapshotId) -> (r: bool)
        ensures
            r == self.snapshot_map().contains_key(id@),
    {
        proof {
            use_type_invariant(&self.registry);
        }
        self.registry.snapshots.contains_key(id)
    }

    /// Replace a snapshot's metadata
    pub fn update_snapshot_metadata(&mut self, id: &SnapshotId, metadata: AssocList<String, String>) -> (r: SnapshotResult<()>)
        ensures
            final(self).config_view() == old(self).config_view(),
            final(self).current() == old(self).current(),
            old(self).snapshot_map().contains_key(id@) ==> r is Ok && final(self).snapshot_map().dom()
                == old(self).snapshot_map().dom() && (forall|k: Seq<char>|
                #[trigger] final(self).snapshot_map().contains_key(k) && k != id@ ==> final(self).snapshot_map()[k]
                    == old(self).snapshot_map()[k]) && ({
                let s = final(self).snapshot_map()[id@];
                let o = old(self).snapshot_map()[id@];
                s.id == o.id && s.root_hash == o.root_hash && s.timestamp == o.timestamp && s.height
                    == o.height && s.description == o.description && s.metadata == metadata
            }),
            !old(self).snapshot_map().contains_key(id@) ==> (r matches Err(SnapshotError::NotFound(x))
                && x@ == id@ && final(self).snapshot_map() == old(self).snapshot_map()),
    {
        proof {
            use_type_invariant(&self.registry);
        }
        match self.registry.snapshots.find(id) {
            Some(i) => {
                let mut snapshots = AssocList { entries: Vec::new() };
                std::mem::swap(&mut snapshots, &mut self.registry.snapshots);
                let mut metadata = metadata;
                let old_snapshot = snapshots.replace_value(
                    i,
                    StateSnapshot {
                        id: String::new(),
                        root_hash: [0u8; 32],
                        timestamp: 0,
                        metadata: AssocList { entries: Vec::new() },
                        height: None,
                        description: None,
                    },
                );
                let updated = StateSnapshot {
                    id: old_snapshot.id,
                    root_hash: old_snapshot.root_hash,
                    timestamp: old_snapshot.timestamp,
                    metadata,
                    height: old_snapshot.height,
                    description: old_snapshot.description,
                };
                snapshots.set_value(i, updated);
                self.registry.snapshots = snapshots;
                Ok(())
            },
            None => Err(SnapshotError::NotFound(copy_string(id))),
        }
    }

    /// Restore state from a snapshot: the base trie with the snapshot's root,
    /// then the snapshot's height and description, its identifier and the
    /// restoration time recorded as trie metadata where those insertions are
    /// defined (their outcome is not reported)
    pub fn restore_from_snapshot(&self, snapshot_id: &SnapshotId, base_trie: MerklePatriciaTrie<S>) -> (r: SnapshotResult<MerklePatriciaTrie<S>>)
        ensures
            !self.snapshot_map().contains_key(snapshot_id@) ==> (r matches Err(SnapshotError::NotFound(x))
                && x@ == snapshot_id@),
            self.snapshot_map().contains_key(snapshot_id@) ==> (r matches Ok(t) && t.reliable()
                == base_trie.reliable() && restored_as(
                base_trie.reliable(),
                (self.snapshot_map()[snapshot_id@].root_hash@, base_trie.nodes()),
                self.snapshot_map()[snapshot_id@],
                snapshot_id@,
                (t.root_id(), t.nodes()),
            )),
    {
        let snapshot = match self.get_snapshot(snapshot_id) {
            Ok(s) => s,
            Err(e) => {
                return Err(e);
            },
        };
        let ghost rel = base_trie.reliable();
        let mut restored_trie = base_trie;
        restored_trie.set_root(snapshot.root_hash);
        let ghost s0 = (restored_trie.root_id(), restored_trie.nodes());
        match snapshot.height {
            Some(height) => {
                let text = decimal_text(height);
                restored_trie.try_add_metadata("height".as_bytes(), text.as_str().as_bytes());
            },
            None => {},
        }
        let ghost s1 = (restored_trie.root_id(), restored_trie.nodes());
        match &snapshot.description {
            Some(desc) => {
                restored_trie.try_add_metadata("description".as_bytes(), desc.as_str().as_bytes());
            },
            None => {},
        }
        let ghost s2 = (restored_trie.root_id(), restored_trie.nodes());
        restored_trie.try_add_metadata("restored_from".as_bytes(), snapshot_id.as_str().as_bytes());
        let ghost s3 = (restored_trie.root_id(), restored_trie.nodes());
        let secs = unix_time_secs();
        let now = decimal_text(secs);
        restored_trie.try_add_metadata("restored_at".as_bytes(), now.as_str().as_bytes());
        assert(restored_chain(rel, s0, *snapshot, snapshot_id@, s1, s2, s3, (restored_trie.root_id(), restored_trie.nodes()), secs));
        Ok(restored_trie)
    }

    /// Get a clone of the current trie's storage
    pub fn get_storage(&self) -> (r: SnapshotResult<S>) where S: Clone
        ensures
            self.current() is None ==> r matches Err(SnapshotError::InvalidSnapshot(_)),
            self.current() matches Some(t) ==> (r matches Ok(s) && vstd::pervasive::cloned(
                t.storage_value(),
                s,
            )),
    {
        match &self.current_trie {
            Some(trie) => Ok(trie.get_storage_clone()),
            None => Err(SnapshotError::InvalidSnapshot("No current trie available".to_string())),
        }
    }

    /// Get mutable access to the current trie, or an error if no trie is set
    pub fn get_current_trie_mut(&mut self) -> (r: SnapshotResult<&mut MerklePatriciaTrie<S>>)
        ensures
            old(self).current() is None ==> r matches Err(SnapshotError::InvalidSnapshot(_)),
            old(self).current() matches Some(t) ==> (r matches Ok(m) && *m == t),
    {
        match self.current_trie.as_mut() {
            Some(trie) => Ok(trie),
            None => Err(SnapshotError::InvalidSnapshot("No current trie available".to_string())),
        }
    }

    /// The current trie, to change in place.
    pub(crate) fn current_mut(&mut self) -> (r: Option<&mut MerklePatriciaTrie<S>>)
        ensures
            final(self).snapshot_map() == old(self).snapshot_map(),
            final(self).snapshot_list() == old(self).snapshot_list(),
            final(self).config_view() == old(self).config_view(),
            match old(self).current() {
                None => final(self).current() is None && r is None,
                Some(t) => r is Some && *r.unwrap() == t && final(self).current() == Some(
                    *final(r.unwrap()),
                ),
            },
    {
        self.current_trie.as_mut()
    }
}

} // verus!
