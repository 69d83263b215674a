//! Contract state versioning: each state change of a contract creates a
//! version tied to an MPT root hash, with parent links, upgrade information,
//! finalization, snapshot reference counts and bounded history.
use vstd::prelude::*;

use crate::assoc_list::{AssocList, KeyEq, distinct_keys, lemma_distinct_last_index, lemma_map_of, map_of};
use crate::seq_util::{count_idx, first_match, last_match, lemma_filter_take, lemma_first_match_hit, lemma_first_match_skip, lemma_last_match_take, lemma_retain_idx_all, retain_idx};
use crate::state::dot_storage_layout::DotAddress;
use crate::storage_engine::lib::unix_time_nanos;

pub mod dot_version_utils;

verus! {

/// Timestamp type for versioning.
pub type Timestamp = u64;

/// Transaction hash type.
pub type TransactionHash = crate::state::mpt::lib::Hash;

/// Root hash of the state trie.
type MptHash = crate::state::mpt::lib::Hash;

/// Block height type.
pub type BlockHeight = u64;

/// Contract state version identifier, ordered by logical version, then timestamp.
#[derive(Debug, Clone, Copy, PartialEq, Eq, Structural, PartialOrd, Ord, Hash)]
pub struct StateVersionId {
    /// Logical version number
    pub logical_version: u64,
    /// Physical timestamp when version was created
    pub timestamp: Timestamp,
}

impl View for StateVersionId {
    type V = StateVersionId;

    open spec fn view(&self) -> StateVersionId {
        *self
    }
}

impl KeyEq for StateVersionId {
    fn key_eq(&self, other: &Self) -> (r: bool) {
        self.logical_version == other.logical_version && self.timestamp == other.timestamp
    }

    fn key_clone(&self) -> (r: Self) {
        *self
    }
}

/// The order of version identifiers: logical version first, then timestamp.
pub open spec fn id_lt(a: StateVersionId, b: StateVersionId) -> bool {
    a.logical_version < b.logical_version || (a.logical_version == b.logical_version && a.timestamp < b.timestamp)
}

/// `a` comes before or is `b`.
pub open spec fn id_le(a: StateVersionId, b: StateVersionId) -> bool {
    id_lt(a, b) || a == b
}

/// Version identifiers are ordered as a strict total order: by logical
/// version first, and by timestamp between equal logical versions; no
/// identifier comes before itself, and of two different identifiers exactly
/// one comes first.
pub proof fn lemma_version_order(a: StateVersionId, b: StateVersionId, c: StateVersionId)
    ensures
        !id_lt(a, a),
        id_lt(a, b) ==> !id_lt(b, a),
        id_lt(a, b) && id_lt(b, c) ==> id_lt(a, c),
        a != b ==> id_lt(a, b) || id_lt(b, a),
        a.logical_version < b.logical_version ==> id_lt(a, b),
        a.logical_version == b.logical_version ==> (id_lt(a, b) <==> a.timestamp < b.timestamp),
{
}

impl StateVersionId {
    /// Create a new state version ID
    pub fn new(logical_version: u64, timestamp: Timestamp) -> (r: Self)
        ensures
            r.logical_version == logical_version,
            r.timestamp == timestamp,
    {
        Self { logical_version, timestamp }
    }

    /// Create a new state version ID stamped with the current clock reading.
    pub fn new_with_current_time(logical_version: u64) -> (r: Self)
        ensures
            r.logical_version == logical_version,
    {
        Self::new(logical_version, unix_time_nanos())
    }

    /// Get the logical version
    pub fn logical_version(&self) -> (r: u64)
        ensures
            r == self.logical_version,
    {
        self.logical_version
    }

    /// Get the timestamp
    pub fn timestamp(&self) -> (r: Timestamp)
        ensures
            r == self.timestamp,
    {
        self.timestamp
    }
}

impl Default for StateVersionId {
    fn default() -> (r: Self)
        ensures
            r.logical_version == 0,
            r.timestamp == 0,
    {
        Self::new(0, 0)
    }
}

/// Types of contract upgrades.
#[derive(Debug, Clone, Copy, PartialEq, Eq, Structural)]
pub enum UpgradeType {
    /// Minor upgrade with backward compatibility
    Minor,
    /// Major upgrade with potential breaking changes
    Major,
    /// Storage layout migration
    StorageMigration,
    /// Security patch
    SecurityPatch,
    /// Complete contract replacement
    Replacement,
}

/// Types of storage layout changes.
#[derive(Debug, Clone, Copy, PartialEq, Eq, Structural)]
pub enum LayoutChangeType {
    /// New variable added
    Added,
    /// Variable removed
    Removed,
    /// Variable type changed
    TypeChanged,
    /// Variable moved to different slot
    SlotChanged,
    /// Variable renamed
    Renamed,
}

/// Storage layout changes during upgrade.
#[derive(Debug)]
pub struct LayoutChange {
    /// Type of change
    pub change_type: LayoutChangeType,
    /// Variable name affected
    pub variable_name: String,
    /// Old storage slot (if applicable)
    pub old_slot: Option<u32>,
    /// New storage slot (if applicable)
    pub new_slot: Option<u32>,
    /// Migration strategy
    pub migration_strategy: String,
}

impl Clone for LayoutChange {
    fn clone(&self) -> (r: Self)
        ensures
            r == *self,
    {
        LayoutChange {
            change_type: self.change_type,
            variable_name: self.variable_name.clone(),
            old_slot: self.old_slot,
            new_slot: self.new_slot,
            migration_strategy: self.migration_strategy.clone(),
        }
    }
}

/// Contract upgrade information.
#[derive(Debug, Clone)]
pub struct DotUpgradeInfo {
    /// Previous contract version
    pub previous_version: StateVersionId,
    /// Upgrade type
    pub upgrade_type: UpgradeType,
    /// Migration description
    pub migration_description: String,
    /// Storage layout changes
    pub layout_changes: Vec<LayoutChange>,
    /// Upgrade timestamp
    pub upgrade_timestamp: Timestamp,
}

/// Contract state version metadata.
#[derive(Debug, Clone)]
pub struct DotStateVersion {
    /// Version identifier
    pub version_id: StateVersionId,
    /// MPT root hash at this version
    pub mpt_root_hash: MptHash,
    /// Contract address
    pub dot_address: DotAddress,
    /// Parent version (previous state)
    pub parent_version: Option<StateVersionId>,
    /// Transaction that created this version
    pub transaction_hash: Option<TransactionHash>,
    /// Block height when version was created
    pub block_height: Option<BlockHeight>,
    /// Contract upgrade information (if this is an upgrade)
    pub upgrade_info: Option<DotUpgradeInfo>,
    /// Creation timestamp
    pub created_at: Timestamp,
    /// Version description
    pub description: String,
    /// Whether this version is finalized
    pub is_finalized: bool,
    /// State size in bytes
    pub state_size: u64,
    /// Number of storage slots used
    pub storage_slots_count: u64,
}

/// The version `DotStateVersion::new` builds at creation time `created_at`.
pub open spec fn fresh_version(
    version_id: StateVersionId,
    mpt_root_hash: MptHash,
    dot_address: DotAddress,
    parent_version: Option<StateVersionId>,
    upgrade_info: Option<DotUpgradeInfo>,
    description: String,
    created_at: Timestamp,
) -> DotStateVersion {
    DotStateVersion {
        version_id,
        mpt_root_hash,
        dot_address,
        parent_version,
        transaction_hash: None,
        block_height: None,
        upgrade_info,
        created_at,
        description,
        is_finalized: false,
        state_size: 0,
        storage_slots_count: 0,
    }
}

impl DotStateVersion {
    /// Create a version created at `created_at`: not finalized, no transaction,
    /// block or upgrade information, zero statistics.
    pub fn new_at(
        version_id: StateVersionId,
        mpt_root_hash: MptHash,
        dot_address: DotAddress,
        parent_version: Option<StateVersionId>,
        description: String,
        created_at: Timestamp,
    ) -> (r: Self)
        ensures
            r == fresh_version(version_id, mpt_root_hash, dot_address, parent_version, None, description, created_at),
    {
        Self {
            version_id,
            mpt_root_hash,
            dot_address,
            parent_version,
            transaction_hash: None,
            block_height: None,
            upgrade_info: None,
            created_at,
            description,
            is_finalized: false,
            state_size: 0,
            storage_slots_count: 0,
        }
    }

    /// Create a new contract state version, created now.
    pub fn new(
        version_id: StateVersionId,
        mpt_root_hash: MptHash,
        dot_address: DotAddress,
        parent_version: Option<StateVersionId>,
        description: String,
    ) -> (r: Self)
        ensures
            r == fresh_version(version_id, mpt_root_hash, dot_address, parent_version, None, description, r.created_at),
    {
        Self::new_at(version_id, mpt_root_hash, dot_address, parent_version, description, unix_time_nanos())
    }

    /// Create an upgrade version created at `created_at`.
    pub fn new_upgrade_at(
        version_id: StateVersionId,
        mpt_root_hash: MptHash,
        dot_address: DotAddress,
        parent_version: StateVersionId,
        upgrade_info: DotUpgradeInfo,
        description: String,
        created_at: Timestamp,
    ) -> (r: Self)
        ensures
            r == fresh_version(
                version_id,
                mpt_root_hash,
                dot_address,
                Some(parent_version),
                Some(upgrade_info),
                description,
                created_at,
            ),
    {
        Self {
            version_id,
            mpt_root_hash,
            dot_address,
            parent_version: Some(parent_version),
            transaction_hash: None,
            block_height: None,
            upgrade_info: Some(upgrade_info),
            created_at,
            description,
            is_finalized: false,
            state_size: 0,
            storage_slots_count: 0,
        }
    }

    /// Create a new version for contract upgrade, created now.
    pub fn new_upgrade(
        version_id: StateVersionId,
        mpt_root_hash: MptHash,
        dot_address: DotAddress,
        parent_version: StateVersionId,
        upgrade_info: DotUpgradeInfo,
        description: String,
    ) -> (r: Self)
        ensures
            r == fresh_version(
                version_id,
                mpt_root_hash,
                dot_address,
                Some(parent_version),
                Some(upgrade_info),
                description,
                r.created_at,
            ),
    {
        Self::new_upgrade_at(version_id, mpt_root_hash, dot_address, parent_version, upgrade_info, description, unix_time_nanos())
    }

    /// Set transaction information
    pub fn set_transaction_info(&mut self, tx_hash: TransactionHash, block_height: BlockHeight)
        ensures
            *final(self) == (DotStateVersion {
                transaction_hash: Some(tx_hash),
                block_height: Some(block_height),
                ..*old(self)
            }),
    {
        self.transaction_hash = Some(tx_hash);
        self.block_height = Some(block_height);
    }

    /// Update state statistics
    pub fn update_stats(&mut self, state_size: u64, storage_slots_count: u64)
        ensures
            *final(self) == (DotStateVersion { state_size, storage_slots_count, ..*old(self) }),
    {
        self.state_size = state_size;
        self.storage_slots_count = storage_slots_count;
    }

    /// Mark version as finalized
    pub fn finalize(&mut self)
        ensures
            *final(self) == (DotStateVersion { is_finalized: true, ..*old(self) }),
    {
        self.is_finalized = true;
    }

    /// Check if this is an upgrade version
    pub fn is_upgrade(&self) -> (r: bool)
        ensures
            r == self.upgrade_info is Some,
    {
        self.upgrade_info.is_some()
    }

    /// Get upgrade type if this is an upgrade
    pub fn upgrade_type(&self) -> (r: Option<&UpgradeType>)
        ensures
            r is Some <==> self.upgrade_info is Some,
            r is Some ==> *r->0 == self.upgrade_info->0.upgrade_type,
    {
        match &self.upgrade_info {
            Some(info) => Some(&info.upgrade_type),
            None => None,
        }
    }
}

/// The versions of one contract are ordered by strictly increasing logical
/// version, each no newer than the counter, each belonging to the contract,
/// each with a parent older than itself.
pub open spec fn dot_history_ok(s: Seq<DotStateVersion>, a: Seq<u8>, counter: u64) -> bool {
    &&& forall|i: int, j: int|
        0 <= i < j < s.len() ==> s[i].version_id.logical_version < s[j].version_id.logical_version
    &&& forall|i: int| 0 <= i < s.len() ==> version_ok(#[trigger] s[i], a, counter)
}

/// One version's own well-formedness within the history of contract `a`.
pub open spec fn version_ok(v: DotStateVersion, a: Seq<u8>, counter: u64) -> bool {
    &&& v.version_id.logical_version <= counter
    &&& v.dot_address@ == a
    &&& (v.parent_version matches Some(p) ==> p.logical_version < v.version_id.logical_version)
}

/// Number of versions before version `i` when the history is stably sorted by
/// timestamp: older timestamps first, equal timestamps in history order.
pub open spec fn timestamp_rank(s: Seq<DotStateVersion>, i: int) -> nat {
    count_idx(s.len() as int, sorts_before(s, i))
}

/// Whether version `j` comes before version `i` in the stable sort by timestamp.
pub open spec fn sorts_before(s: Seq<DotStateVersion>, i: int) -> spec_fn(int) -> bool {
    |j: int|
        s[j].version_id.timestamp < s[i].version_id.timestamp || (s[j].version_id.timestamp
            == s[i].version_id.timestamp && j < i)
}

/// Whether cleanup keeps version `i`: only the `len - max` versions oldest by
/// timestamp are candidates, and of them finalized versions and versions with
/// an active snapshot stay.
pub open spec fn cleanup_keeps(
    s: Seq<DotStateVersion>,
    active: Map<(Seq<u8>, StateVersionId), usize>,
    max: int,
    i: int,
) -> bool {
    !(s.len() > max && timestamp_rank(s, i) < s.len() - max && !s[i].is_finalized && !active.contains_key(
        (s[i].dot_address@, s[i].version_id),
    ))
}

/// The history left after cleanup.
pub open spec fn cleaned_history(
    s: Seq<DotStateVersion>,
    active: Map<(Seq<u8>, StateVersionId), usize>,
    max: int,
) -> Seq<DotStateVersion> {
    retain_idx(s, s.len() as int, cleanup_keep_pred(s, active, max))
}

/// `cleanup_keeps` as a predicate on indices.
pub open spec fn cleanup_keep_pred(
    s: Seq<DotStateVersion>,
    active: Map<(Seq<u8>, StateVersionId), usize>,
    max: int,
) -> spec_fn(int) -> bool {
    |i: int| cleanup_keeps(s, active, max, i)
}

/// Whether version `j` comes after version `i` in the stable sort by timestamp.
pub open spec fn sorts_after(s: Seq<DotStateVersion>, i: int) -> spec_fn(int) -> bool {
    |j: int|
        s[j].version_id.timestamp > s[i].version_id.timestamp || (s[j].version_id.timestamp
            == s[i].version_id.timestamp && j > i)
}

/// Counting indices is monotone in the predicate.
proof fn lemma_count_idx_mono(k: int, f: spec_fn(int) -> bool, g: spec_fn(int) -> bool)
    requires
        forall|x: int| 0 <= x < k && #[trigger] f(x) ==> g(x),
    ensures
        count_idx(k, f) <= count_idx(k, g),
    decreases k,
{
    if k > 0 {
        lemma_count_idx_mono(k - 1, f, g);
    }
}

/// Counting indices is strictly monotone where the larger predicate holds at
/// one more index `w`.
proof fn lemma_count_idx_strict(k: int, f: spec_fn(int) -> bool, g: spec_fn(int) -> bool, w: int)
    requires
        forall|x: int| 0 <= x < k && #[trigger] f(x) ==> g(x),
        0 <= w < k,
        g(w),
        !f(w),
    ensures
        count_idx(k, f) < count_idx(k, g),
    decreases k,
{
    if k - 1 == w {
        lemma_count_idx_mono(k - 1, f, g);
    } else {
        lemma_count_idx_strict(k - 1, f, g, w);
    }
}

/// Where `g` implies `h` everywhere but at index `w`, `g` counts at most one
/// more index than `h`.
proof fn lemma_count_idx_but_one(k: int, g: spec_fn(int) -> bool, h: spec_fn(int) -> bool, w: int)
    requires
        forall|x: int| 0 <= x < k && x != w && #[trigger] g(x) ==> h(x),
    ensures
        count_idx(k, g) <= count_idx(k, h) + 1,
    decreases k,
{
    if k > 0 {
        if k - 1 == w {
            lemma_count_idx_mono(k - 1, g, h);
        } else {
            lemma_count_idx_but_one(k - 1, g, h, w);
        }
    }
}

/// An index either meets a predicate or its negation.
proof fn lemma_count_idx_complement(k: int, f: spec_fn(int) -> bool)
    requires
        k >= 0,
    ensures
        count_idx(k, f) + count_idx(k, |x: int| !f(x)) == k,
    decreases k,
{
    if k > 0 {
        lemma_count_idx_complement(k - 1, f);
    }
}

/// Cleanup removes only the oldest versions. Within the limit nothing is
/// removed; finalized versions and versions with an active snapshot always
/// stay; when a version is removed, every unprotected version with an older
/// timestamp is removed too; and a removed version has at least `max`
/// versions after it in the order by timestamp.
pub proof fn lemma_cleanup_removes_oldest(
    s: Seq<DotStateVersion>,
    active: Map<(Seq<u8>, StateVersionId), usize>,
    max: int,
    i: int,
    j: int,
)
    requires
        0 <= i < s.len(),
        0 <= j < s.len(),
    ensures
        s.len() <= max ==> cleanup_keeps(s, active, max, i),
        s[i].is_finalized || active.contains_key((s[i].dot_address@, s[i].version_id)) ==> cleanup_keeps(s, active, max, i),
        !cleanup_keeps(s, active, max, i) && s[j].version_id.timestamp < s[i].version_id.timestamp
            && !s[j].is_finalized && !active.contains_key((s[j].dot_address@, s[j].version_id))
            ==> !cleanup_keeps(s, active, max, j),
        !cleanup_keeps(s, active, max, i) ==> count_idx(s.len() as int, sorts_after(s, i)) >= max,
{
    let n = s.len() as int;
    if !cleanup_keeps(s, active, max, i) {
        if s[j].version_id.timestamp < s[i].version_id.timestamp {
            assert forall|x: int| 0 <= x < n && #[trigger] sorts_before(s, j)(x) implies sorts_before(s, i)(x) by {}
            lemma_count_idx_strict(n, sorts_before(s, j), sorts_before(s, i), j);
        }
        let nb = |x: int| !sorts_before(s, i)(x);
        lemma_count_idx_complement(n, sorts_before(s, i));
        assert forall|x: int| 0 <= x < n && x != i && #[trigger] nb(x) implies sorts_after(s, i)(x) by {}
        lemma_count_idx_but_one(n, nb, sorts_after(s, i), i);
    }
}

/// `new` is `old` after version `vid` of contract `a` was created with root
/// `root` and description `description` at some moment: the counter advanced
/// to the version's logical number, the version was appended to the
/// contract's history (then cleaned up) with the previous current version as
/// its parent, and it became current; nothing else changed.
pub open spec fn version_created(
    old: DotVersionManager,
    new: DotVersionManager,
    a: DotAddress,
    root: MptHash,
    description: String,
    vid: StateVersionId,
) -> bool {
    &&& vid.logical_version == old.counter() + 1
    &&& new.counter() == vid.logical_version
    &&& new.has_dot(a@)
    &&& exists|created_at: Timestamp| new.dot_versions(a@) == cleaned_history(
        old.dot_versions(a@).push(
            #[trigger] fresh_version(vid, root, a, old.current_of(a@), None, description, created_at),
        ),
        old.active_map(),
        old.max_versions() as int,
    )
    &&& new.current_map() == old.current_map().insert(a@, vid)
    &&& forall|b: Seq<u8>| b != a@ ==> new.dot_versions(b) == old.dot_versions(b) && new.has_dot(b) == old.has_dot(b)
    &&& new.active_map() == old.active_map()
    &&& new.max_versions() == old.max_versions()
}

/// `m` is an empty manager keeping at most `max` versions per contract.
pub open spec fn fresh_manager(m: DotVersionManager, max: usize) -> bool {
    &&& m.inv()
    &&& m.max_versions() == max
    &&& m.counter() == 0
    &&& forall|a: Seq<u8>| m.dot_versions(a) == Seq::<DotStateVersion>::empty() && !m.has_dot(a)
    &&& m.current_map() == Map::<Seq<u8>, StateVersionId>::empty()
    &&& m.active_map() == Map::<(Seq<u8>, StateVersionId), usize>::empty()
}

/// Contract versioning manager.
pub struct DotVersionManager {
    /// Contract versions by contract address, ordered by version ID
    versions: AssocList<DotAddress, Vec<DotStateVersion>>,
    /// Current version for each contract
    current_versions: AssocList<DotAddress, StateVersionId>,
    /// Version counter for generating new version IDs
    version_counter: u64,
    /// Maximum versions to keep per contract
    max_versions_per_dot: usize,
    /// Active snapshots reference counting
    active_snapshots: AssocList<(DotAddress, StateVersionId), usize>,
}

impl DotVersionManager {
    /// The versions kept for contract `a`, ordered by version ID.
    pub closed spec fn dot_versions(&self, a: Seq<u8>) -> Seq<DotStateVersion> {
        if self.versions.view_map().contains_key(a) {
            self.versions.view_map()[a]@
        } else {
            Seq::empty()
        }
    }

    /// Whether contract `a` has a version list.
    pub closed spec fn has_dot(&self, a: Seq<u8>) -> bool {
        self.versions.view_map().contains_key(a)
    }

    /// Current version of each contract.
    pub closed spec fn current_map(&self) -> Map<Seq<u8>, StateVersionId> {
        self.current_versions.view_map()
    }

    /// The current version of contract `a`, if it has one.
    pub open spec fn current_of(&self, a: Seq<u8>) -> Option<StateVersionId> {
        if self.current_map().contains_key(a) {
            Some(self.current_map()[a])
        } else {
            None
        }
    }

    /// Active snapshot reference counts.
    pub closed spec fn active_map(&self) -> Map<(Seq<u8>, StateVersionId), usize> {
        self.active_snapshots.view_map()
    }

    /// The version counter.
    pub closed spec fn counter(&self) -> u64 {
        self.version_counter
    }

    /// Maximum number of versions kept per contract.
    pub closed spec fn max_versions(&self) -> usize {
        self.max_versions_per_dot
    }

    /// Well-formedness of the manager.
    pub closed spec fn inv(&self) -> bool {
        &&& self.versions.wf()
        &&& self.current_versions.wf()
        &&& self.active_snapshots.wf()
        &&& forall|a: Seq<u8>| #[trigger]
            self.versions.view_map().contains_key(a) ==> dot_history_ok(
                self.versions.view_map()[a]@,
                a,
                self.version_counter,
            )
        &&& forall|a: Seq<u8>| #[trigger]
            self.current_versions.view_map().contains_key(a) ==> self.current_versions.view_map()[a].logical_version
                <= self.version_counter
        &&& forall|k: (Seq<u8>, StateVersionId)| #[trigger]
            self.active_snapshots.view_map().contains_key(k) ==> self.active_snapshots.view_map()[k] >= 1
    }

    /// Create a new contract version manager
    pub fn new(max_versions_per_dot: usize) -> (r: Self)
        ensures
            fresh_manager(r, max_versions_per_dot),
    {
        Self {
            versions: AssocList::new(),
            current_versions: AssocList::new(),
            version_counter: 0,
            max_versions_per_dot,
            active_snapshots: AssocList::new(),
        }
    }

    /// Stable rank by timestamp of version `i`.
    fn rank_of(s: &Vec<DotStateVersion>, i: usize) -> (r: usize)
        requires
            i < s@.len(),
        ensures
            r == timestamp_rank(s@, i as int),
    {
        let ghost f = sorts_before(s@, i as int);
        let mut count: usize = 0;
        let mut j: usize = 0;
        while j < s.len()
            invariant
                j <= s@.len(),
                i < s@.len(),
                f == sorts_before(s@, i as int),
                count == count_idx(j as int, f),
                count <= j,
            decreases s@.len() - j,
        {
            let before = s[j].version_id.timestamp < s[i].version_id.timestamp || (s[j].version_id.timestamp
                == s[i].version_id.timestamp && j < i);
            assert(before == f(j as int));
            if before {
                count = count + 1;
            }
            j = j + 1;
        }
        count
    }

    /// Clean up old versions for a contract: when the history is longer than
    /// the maximum, the oldest versions by timestamp beyond the maximum are
    /// removed unless finalized or actively referenced.
    fn cleanup_old_versions_for_dot(&self, dot_versions: Vec<DotStateVersion>) -> (r: Vec<DotStateVersion>)
        requires
            self.active_snapshots.wf(),
        ensures
            r@ == cleaned_history(dot_versions@, self.active_map(), self.max_versions_per_dot as int),
    {
        let ghost s = dot_versions@;
        let ghost f = cleanup_keep_pred(s, self.active_map(), self.max_versions_per_dot as int);
        if dot_versions.len() <= self.max_versions_per_dot {
            proof {
                lemma_retain_idx_all(s, s.len() as int, f);
                assert(s.subrange(0, s.len() as int) =~= s);
            }
            return dot_versions;
        }
        let n = dot_versions.len() - self.max_versions_per_dot;
        let mut keep: Vec<bool> = Vec::new();
        let mut i: usize = 0;
        while i < dot_versions.len()
            invariant
                i <= dot_versions@.len(),
                s == dot_versions@,
                dot_versions@.len() > self.max_versions_per_dot,
                n == dot_versions@.len() - self.max_versions_per_dot,
                self.active_snapshots.wf(),
                f == cleanup_keep_pred(s, self.active_map(), self.max_versions_per_dot as int),
                keep@.len() == i,
                forall|j: int| 0 <= j < i ==> keep@[j] == f(j),
            decreases dot_versions@.len() - i,
        {
            let rank = Self::rank_of(&dot_versions, i);
            let v = &dot_versions[i];
            let key = (v.dot_address, v.version_id);
            let remove = rank < n && !v.is_finalized && !self.active_snapshots.contains_key(&key);
            assert(remove == !f(i as int));
            keep.push(!remove);
            i = i + 1;
        }
        assert(s.len() <= usize::MAX);
        let mut rest = dot_versions;
        let mut out: Vec<DotStateVersion> = Vec::new();
        let mut i: usize = 0;
        while rest.len() > 0
            invariant
                i <= s.len(),
                s.len() <= usize::MAX,
                keep@.len() == s.len(),
                forall|j: int| 0 <= j < s.len() ==> keep@[j] == f(j),
                rest@ == s.subrange(i as int, s.len() as int),
                out@ == retain_idx(s, i as int, f),
            decreases rest@.len(),
        {
            let v = rest.remove(0);
            assert(v == s[i as int]);
            if keep[i] {
                out.push(v);
            }
            i = i + 1;
            assert(rest@ =~= s.subrange(i as int, s.len() as int));
        }
        out
    }

    /// Create a new version of contract `dot_address` with identifier
    /// timestamp `id_timestamp`, created at `created_at`: the version counter
    /// advances, the new version's parent is the contract's current version,
    /// the history is cleaned up and the new version becomes current.
    pub fn create_version_at(
        &mut self,
        dot_address: DotAddress,
        mpt_root_hash: MptHash,
        description: String,
        id_timestamp: Timestamp,
        created_at: Timestamp,
    ) -> (r: Result<StateVersionId, DotVersioningError>)
        requires
            old(self).inv(),
            old(self).counter() < u64::MAX,
        ensures
            final(self).inv(),
            ({
                let vid = StateVersionId { logical_version: (old(self).counter() + 1) as u64, timestamp: id_timestamp };
                let v = fresh_version(
                    vid,
                    mpt_root_hash,
                    dot_address,
                    old(self).current_of(dot_address@),
                    None,
                    description,
                    created_at,
                );
                &&& r == Ok::<StateVersionId, DotVersioningError>(vid)
                &&& final(self).counter() == vid.logical_version
                &&& final(self).has_dot(dot_address@)
                &&& final(self).dot_versions(dot_address@) == cleaned_history(
                    old(self).dot_versions(dot_address@).push(v),
                    old(self).active_map(),
                    old(self).max_versions() as int,
                )
                &&& final(self).current_map() == old(self).current_map().insert(dot_address@, vid)
            }),
            forall|b: Seq<u8>| b != dot_address@ ==> final(self).dot_versions(b) == old(self).dot_versions(b) && final(self).has_dot(b) == old(self).has_dot(b),
            final(self).active_map() == old(self).active_map(),
            final(self).max_versions() == old(self).max_versions(),
    {
        self.version_counter = self.version_counter + 1;
        let version_id = StateVersionId::new(self.version_counter, id_timestamp);
        let current_version = match self.current_versions.get(&dot_address) {
            Some(c) => Some(*c),
            None => None,
        };
        let version = DotStateVersion::new_at(version_id, mpt_root_hash, dot_address, current_version, description, created_at);
        let ghost old_hist = old(self).dot_versions(dot_address@);
        let mut dot_versions = match self.versions.remove(&dot_address) {
            Some(v) => v,
            None => Vec::new(),
        };
        assert(dot_versions@ == old_hist);
        dot_versions.push(version);
        let ghost pushed = dot_versions@;
        let cleaned = self.cleanup_old_versions_for_dot(dot_versions);
        proof {
            self.lemma_history_after_append(old_hist, pushed, dot_address@);
            lemma_cleaned_history_ok(pushed, dot_address@, self.version_counter, self.active_map(), self.max_versions_per_dot as int);
        }
        self.versions.insert(dot_address, cleaned);
        self.current_versions.insert(dot_address, version_id);
        proof {
            assert forall|a: Seq<u8>| #[trigger] self.current_versions.view_map().contains_key(a) implies self.current_versions.view_map()[a].logical_version <= self.version_counter by {
                if a != dot_address@ {
                    assert(old(self).current_versions.view_map().contains_key(a));
                }
            }
            assert forall|a: Seq<u8>| #[trigger] self.versions.view_map().contains_key(a) implies dot_history_ok(self.versions.view_map()[a]@, a, self.version_counter) by {
                if a != dot_address@ {
                    assert(old(self).versions.view_map().contains_key(a));
                    lemma_history_ok_counter_mono(old(self).versions.view_map()[a]@, a, old(self).version_counter, self.version_counter);
                }
            }
        }
        Ok(version_id)
    }

    /// Appending a version newer than everything keeps a history well-formed.
    proof fn lemma_history_after_append(&self, old_hist: Seq<DotStateVersion>, pushed: Seq<DotStateVersion>, a: Seq<u8>)
        requires
            dot_history_ok(old_hist, a, (self.version_counter - 1) as u64),
            self.version_counter >= 1,
            pushed.len() == old_hist.len() + 1,
            forall|i: int| 0 <= i < old_hist.len() ==> pushed[i] == old_hist[i],
            pushed.last().version_id.logical_version == self.version_counter,
            pushed.last().dot_address@ == a,
            pushed.last().parent_version matches Some(p) ==> p.logical_version < self.version_counter,
        ensures
            dot_history_ok(pushed, a, self.version_counter),
    {
        assert forall|i: int| 0 <= i < pushed.len() implies version_ok(#[trigger] pushed[i], a, self.version_counter) by {
            if i < old_hist.len() {
                assert(version_ok(old_hist[i], a, (self.version_counter - 1) as u64));
            }
        }
        assert forall|i: int, j: int| 0 <= i < j < pushed.len() implies pushed[i].version_id.logical_version < pushed[j].version_id.logical_version by {
            if j < old_hist.len() {
            } else {
                assert(version_ok(old_hist[i], a, (self.version_counter - 1) as u64));
            }
        }
    }

    /// Create a new version of contract `dot_address` now.
    pub fn create_version(&mut self, dot_address: DotAddress, mpt_root_hash: MptHash, description: String) -> (r: Result<
        StateVersionId,
        DotVersioningError,
    >)
        requires
            old(self).inv(),
            old(self).counter() < u64::MAX,
        ensures
            final(self).inv(),
            r is Ok,
            version_created(*old(self), *final(self), dot_address, mpt_root_hash, description, r->Ok_0),
    {
        let id_ts = unix_time_nanos();
        let created_at = unix_time_nanos();
        let ghost d = description;
        let r = self.create_version_at(dot_address, mpt_root_hash, description, id_ts, created_at);
        assert(self.dot_versions(dot_address@) == cleaned_history(
            old(self).dot_versions(dot_address@).push(
                fresh_version(r->Ok_0, mpt_root_hash, dot_address, old(self).current_of(dot_address@), None, d, created_at),
            ),
            old(self).active_map(),
            old(self).max_versions() as int,
        ));
        r
    }

    /// Create an upgrade version of contract `dot_address` with identifier
    /// timestamp `id_timestamp`, created at `created_at`. The contract must
    /// have a current version, which becomes the parent.
    pub fn create_upgrade_version_at(
        &mut self,
        dot_address: DotAddress,
        mpt_root_hash: MptHash,
        upgrade_info: DotUpgradeInfo,
        description: String,
        id_timestamp: Timestamp,
        created_at: Timestamp,
    ) -> (r: Result<StateVersionId, DotVersioningError>)
        requires
            old(self).inv(),
            old(self).counter() < u64::MAX,
        ensures
            final(self).inv(),
            !old(self).current_map().contains_key(dot_address@) ==> r == Err::<StateVersionId, DotVersioningError>(
                DotVersioningError::DotNotFound(dot_address),
            ) && final(self).counter() == old(self).counter() && (forall|b: Seq<u8>| final(self).dot_versions(b) == old(self).dot_versions(b))
                && final(self).current_map() == old(self).current_map(),
            old(self).current_map().contains_key(dot_address@) ==> ({
                let vid = StateVersionId { logical_version: (old(self).counter() + 1) as u64, timestamp: id_timestamp };
                let v = fresh_version(
                    vid,
                    mpt_root_hash,
                    dot_address,
                    Some(old(self).current_map()[dot_address@]),
                    Some(upgrade_info),
                    description,
                    created_at,
                );
                &&& r == Ok::<StateVersionId, DotVersioningError>(vid)
                &&& final(self).counter() == vid.logical_version
                &&& final(self).has_dot(dot_address@)
                &&& final(self).dot_versions(dot_address@) == old(self).dot_versions(dot_address@).push(v)
                &&& final(self).current_map() == old(self).current_map().insert(dot_address@, vid)
                &&& forall|b: Seq<u8>| b != dot_address@ ==> final(self).dot_versions(b) == old(self).dot_versions(b)
            }),
            forall|b: Seq<u8>| b != dot_address@ ==> final(self).has_dot(b) == old(self).has_dot(b),
            final(self).active_map() == old(self).active_map(),
            final(self).max_versions() == old(self).max_versions(),
    {
        let current_version = match self.current_versions.get(&dot_address) {
            Some(c) => *c,
            None => {
                return Err(DotVersioningError::DotNotFound(dot_address));
            },
        };
        self.version_counter = self.version_counter + 1;
        let version_id = StateVersionId::new(self.version_counter, id_timestamp);
        let version = DotStateVersion::new_upgrade_at(
            version_id,
            mpt_root_hash,
            dot_address,
            current_version,
            upgrade_info,
            description,
            created_at,
        );
        let ghost old_hist = old(self).dot_versions(dot_address@);
        let mut dot_versions = match self.versions.remove(&dot_address) {
            Some(v) => v,
            None => Vec::new(),
        };
        dot_versions.push(version);
        proof {
            self.lemma_history_after_append(old_hist, dot_versions@, dot_address@);
        }
        self.versions.insert(dot_address, dot_versions);
        self.current_versions.insert(dot_address, version_id);
        proof {
            assert forall|a: Seq<u8>| #[trigger] self.current_versions.view_map().contains_key(a) implies self.current_versions.view_map()[a].logical_version <= self.version_counter by {
                if a != dot_address@ {
                    assert(old(self).current_versions.view_map().contains_key(a));
                }
            }
            assert forall|a: Seq<u8>| #[trigger] self.versions.view_map().contains_key(a) implies dot_history_ok(self.versions.view_map()[a]@, a, self.version_counter) by {
                if a != dot_address@ {
                    assert(old(self).versions.view_map().contains_key(a));
                    lemma_history_ok_counter_mono(old(self).versions.view_map()[a]@, a, old(self).version_counter, self.version_counter);
                }
            }
        }
        Ok(version_id)
    }

    /// Create a new version for contract upgrade, now.
    pub fn create_upgrade_version(
        &mut self,
        dot_address: DotAddress,
        mpt_root_hash: MptHash,
        upgrade_info: DotUpgradeInfo,
        description: String,
    ) -> (r: Result<StateVersionId, DotVersioningError>)
        requires
            old(self).inv(),
            old(self).counter() < u64::MAX,
        ensures
            final(self).inv(),
            !old(self).current_map().contains_key(dot_address@) ==> r == Err::<StateVersionId, DotVersioningError>(
                DotVersioningError::DotNotFound(dot_address),
            ) && final(self).counter() == old(self).counter() && (forall|b: Seq<u8>| final(self).dot_versions(b) == old(self).dot_versions(b))
                && final(self).current_map() == old(self).current_map(),
            old(self).current_map().contains_key(dot_address@) ==> ({
                let vid = r->Ok_0;
                &&& r is Ok
                &&& vid.logical_version == old(self).counter() + 1
                &&& final(self).counter() == vid.logical_version
                &&& final(self).has_dot(dot_address@)
                &&& final(self).dot_versions(dot_address@) == old(self).dot_versions(dot_address@).push(
                    fresh_version(
                        vid,
                        mpt_root_hash,
                        dot_address,
                        Some(old(self).current_map()[dot_address@]),
                        Some(upgrade_info),
                        description,
                        final(self).dot_versions(dot_address@).last().created_at,
                    ),
                )
                &&& final(self).current_map() == old(self).current_map().insert(dot_address@, vid)
                &&& forall|b: Seq<u8>| b != dot_address@ ==> final(self).dot_versions(b) == old(self).dot_versions(b)
            }),
            forall|b: Seq<u8>| b != dot_address@ ==> final(self).has_dot(b) == old(self).has_dot(b),
            final(self).active_map() == old(self).active_map(),
            final(self).max_versions() == old(self).max_versions(),
    {
        let id_ts = unix_time_nanos();
        let created_at = unix_time_nanos();
        self.create_upgrade_version_at(dot_address, mpt_root_hash, upgrade_info, description, id_ts, created_at)
    }
}

/// Whether a version has identifier `vid`.
pub open spec fn has_id(vid: StateVersionId) -> spec_fn(DotStateVersion) -> bool {
    |v: DotStateVersion| v.version_id == vid
}

/// Whether a version was created within `[start, end]`.
pub open spec fn created_within(start: Timestamp, end: Timestamp) -> spec_fn(DotStateVersion) -> bool {
    |v: DotStateVersion| start <= v.created_at && v.created_at <= end
}

/// Whether a version is an upgrade.
pub open spec fn is_upgrade_version() -> spec_fn(DotStateVersion) -> bool {
    |v: DotStateVersion| v.upgrade_info is Some
}

/// Whether a version is finalized.
pub open spec fn is_finalized_version() -> spec_fn(DotStateVersion) -> bool {
    |v: DotStateVersion| v.is_finalized
}

/// Whether a version has MPT root `root`.
pub open spec fn has_root(root: Seq<u8>) -> spec_fn(DotStateVersion) -> bool {
    |v: DotStateVersion| v.mpt_root_hash@ == root
}

/// The version whose block height is the largest at most `h` (the latest of
/// equals); versions without a block height are skipped.
pub open spec fn version_at_block(s: Seq<DotStateVersion>, h: BlockHeight) -> Option<DotStateVersion>
    decreases s.len(),
{
    if s.len() == 0 {
        None
    } else {
        let r = version_at_block(s.drop_last(), h);
        let v = s.last();
        if v.block_height matches Some(b) && b <= h && (r is None || b >= r->0.block_height->0) {
            Some(v)
        } else {
            r
        }
    }
}

/// The version found at block `h` is one of the versions, at a block no
/// later than `h`, and no version of a block no later than `h` is at a later
/// block: the latest version at or below `h`. None is found exactly when no
/// version is at a block no later than `h`.
pub proof fn lemma_version_at_block_is_latest(s: Seq<DotStateVersion>, h: BlockHeight)
    ensures
        version_at_block(s, h) is Some ==> {
            let v = version_at_block(s, h)->0;
            &&& s.contains(v)
            &&& v.block_height is Some
            &&& v.block_height->0 <= h
            &&& forall|i: int|
                0 <= i < s.len() && (#[trigger] s[i]).block_height is Some && s[i].block_height->0 <= h
                    ==> s[i].block_height->0 <= v.block_height->0
        },
        version_at_block(s, h) is None ==> forall|i: int|
            0 <= i < s.len() ==> !((#[trigger] s[i]).block_height is Some && s[i].block_height->0 <= h),
    decreases s.len(),
{
    if s.len() > 0 {
        let t = s.drop_last();
        lemma_version_at_block_is_latest(t, h);
        assert forall|i: int| 0 <= i < t.len() implies #[trigger] s[i] == t[i] by {}
        let r = version_at_block(t, h);
        if version_at_block(s, h) is Some {
            let v = version_at_block(s, h)->0;
            if v == s.last() && !(r is Some && v == r->0) {
                assert(s[s.len() - 1] == v);
            } else {
                let j = choose|j: int| 0 <= j < t.len() && t[j] == r->0;
                assert(s[j] == t[j]);
            }
        }
    }
}

/// Sum of the state sizes of the versions.
pub open spec fn total_state_size(s: Seq<DotStateVersion>) -> int
    decreases s.len(),
{
    if s.len() == 0 {
        0
    } else {
        total_state_size(s.drop_last()) + s.last().state_size
    }
}

/// The references in `r` point at the elements of `s`, in order.
pub open spec fn refs_to<T>(r: Seq<&T>, s: Seq<T>) -> bool {
    r.len() == s.len() && forall|i: int| 0 <= i < r.len() ==> *#[trigger] r[i] == s[i]
}

impl DotVersionManager {
    /// The versions of contract `a`, as a vector (empty when unknown).
    fn versions_of(&self, dot_address: &DotAddress) -> (r: &[DotStateVersion])
        requires
            self.inv(),
        ensures
            r@ == self.dot_versions(dot_address@),
    {
        match self.versions.get(dot_address) {
            Some(v) => v.as_slice(),
            None => {
                let e: &[DotStateVersion] = &[];
                assert(e@ =~= Seq::<DotStateVersion>::empty());
                e
            },
        }
    }

    /// Index of the version with identifier `vid` in a history.
    fn find_version_index(list: &[DotStateVersion], vid: StateVersionId) -> (r: Option<usize>)
        ensures
            r is None ==> last_match(list@, has_id(vid)) is None,
            r is Some ==> r->0 < list@.len() && list@[r->0 as int].version_id == vid && last_match(list@, has_id(vid))
                == Some(list@[r->0 as int]),
    {
        let mut i: usize = list.len();
        assert(list@.take(list@.len() as int) =~= list@);
        while i > 0
            invariant
                i <= list@.len(),
                last_match(list@, has_id(vid)) == last_match(list@.take(i as int), has_id(vid)),
            decreases i,
        {
            proof {
                lemma_last_match_take(list@, i - 1, has_id(vid));
            }
            if list[i - 1].version_id.logical_version == vid.logical_version && list[i - 1].version_id.timestamp
                == vid.timestamp {
                return Some(i - 1);
            }
            i = i - 1;
        }
        assert(list@.take(0) =~= Seq::<DotStateVersion>::empty());
        None
    }

    /// Get a specific version of a contract
    pub fn get_version(&self, dot_address: DotAddress, version_id: StateVersionId) -> (r: Option<&DotStateVersion>)
        requires
            self.inv(),
        ensures
            r is Some <==> last_match(self.dot_versions(dot_address@), has_id(version_id)) is Some,
            r is Some ==> *r->0 == last_match(self.dot_versions(dot_address@), has_id(version_id))->0,
    {
        let list = self.versions_of(&dot_address);
        match Self::find_version_index(list, version_id) {
            Some(i) => Some(&list[i]),
            None => None,
        }
    }

    /// Get the current version of a contract
    pub fn get_current_version(&self, dot_address: DotAddress) -> (r: Option<&DotStateVersion>)
        requires
            self.inv(),
        ensures
            self.current_of(dot_address@) is None ==> r is None,
            self.current_of(dot_address@) matches Some(c) ==> (r is Some <==> last_match(
                self.dot_versions(dot_address@),
                has_id(c),
            ) is Some) && (r is Some ==> *r->0 == last_match(self.dot_versions(dot_address@), has_id(c))->0),
    {
        match self.current_versions.get(&dot_address) {
            Some(c) => self.get_version(dot_address, *c),
            None => None,
        }
    }

    /// Get all versions of a contract, ordered by version ID
    pub fn get_all_versions(&self, dot_address: DotAddress) -> (r: Vec<&DotStateVersion>)
        requires
            self.inv(),
        ensures
            refs_to(r@, self.dot_versions(dot_address@)),
    {
        let list = self.versions_of(&dot_address);
        let mut r: Vec<&DotStateVersion> = Vec::new();
        let mut i: usize = 0;
        while i < list.len()
            invariant
                i <= list@.len(),
                refs_to(r@, list@.take(i as int)),
            decreases list@.len() - i,
        {
            r.push(&list[i]);
            i = i + 1;
        }
        assert(list@.take(list@.len() as int) =~= list@);
        r
    }

    /// The versions of `list` that satisfy the predicate computed by `keep`.
    fn filter_refs(list: &[DotStateVersion], p: Ghost<spec_fn(DotStateVersion) -> bool>, start: Timestamp, end: Timestamp, mode: u8) -> (r: Vec<&DotStateVersion>)
        requires
            mode == 0 ==> p@ == created_within(start, end),
            mode == 1 ==> p@ == is_upgrade_version(),
            mode <= 1,
        ensures
            refs_to(r@, list@.filter(p@)),
    {
        let mut r: Vec<&DotStateVersion> = Vec::new();
        let mut i: usize = 0;
        while i < list.len()
            invariant
                i <= list@.len(),
                mode <= 1,
                mode == 0 ==> p@ == created_within(start, end),
                mode == 1 ==> p@ == is_upgrade_version(),
                refs_to(r@, list@.take(i as int).filter(p@)),
            decreases list@.len() - i,
        {
            proof {
                lemma_filter_take(list@, i as int, p@);
            }
            let v = &list[i];
            let hit = if mode == 0 {
                start <= v.created_at && v.created_at <= end
            } else {
                v.upgrade_info.is_some()
            };
            assert(hit == p@(list@[i as int]));
            if hit {
                r.push(v);
            }
            i = i + 1;
        }
        assert(list@.take(list@.len() as int) =~= list@);
        r
    }

    /// Get versions created within a time range (both ends included)
    pub fn get_versions_in_range(&self, dot_address: DotAddress, start_time: Timestamp, end_time: Timestamp) -> (r: Vec<
        &DotStateVersion,
    >)
        requires
            self.inv(),
        ensures
            refs_to(r@, self.dot_versions(dot_address@).filter(created_within(start_time, end_time))),
    {
        let list = self.versions_of(&dot_address);
        Self::filter_refs(list, Ghost(created_within(start_time, end_time)), start_time, end_time, 0)
    }

    /// Get all upgrade versions for a contract
    pub fn get_upgrade_versions(&self, dot_address: DotAddress) -> (r: Vec<&DotStateVersion>)
        requires
            self.inv(),
        ensures
            refs_to(r@, self.dot_versions(dot_address@).filter(is_upgrade_version())),
    {
        let list = self.versions_of(&dot_address);
        Self::filter_refs(list, Ghost(is_upgrade_version()), 0, 0, 1)
    }

    /// Get the version at a block height: the one with the largest block
    /// height not above it.
    pub fn get_version_at_block(&self, dot_address: DotAddress, block_height: BlockHeight) -> (r: Option<&DotStateVersion>)
        requires
            self.inv(),
        ensures
            r is Some <==> version_at_block(self.dot_versions(dot_address@), block_height) is Some,
            r is Some ==> *r->0 == version_at_block(self.dot_versions(dot_address@), block_height)->0,
            r is Some ==> self.dot_versions(dot_address@).contains(*r->0) && r->0.block_height is Some
                && r->0.block_height->0 <= block_height && forall|i: int|
                0 <= i < self.dot_versions(dot_address@).len() && (#[trigger] self.dot_versions(
                    dot_address@,
                )[i]).block_height is Some && self.dot_versions(dot_address@)[i].block_height->0 <= block_height
                    ==> self.dot_versions(dot_address@)[i].block_height->0 <= r->0.block_height->0,
            r is None ==> forall|i: int|
                0 <= i < self.dot_versions(dot_address@).len() ==> !((#[trigger] self.dot_versions(
                    dot_address@,
                )[i]).block_height is Some && self.dot_versions(dot_address@)[i].block_height->0 <= block_height),
    {
        proof {
            lemma_version_at_block_is_latest(self.dot_versions(dot_address@), block_height);
        }
        let list = self.versions_of(&dot_address);
        let mut best: Option<&DotStateVersion> = None;
        let mut i: usize = 0;
        while i < list.len()
            invariant
                i <= list@.len(),
                best is Some <==> version_at_block(list@.take(i as int), block_height) is Some,
                best is Some ==> *best->0 == version_at_block(list@.take(i as int), block_height)->0,
                best is Some ==> best->0.block_height is Some,
            decreases list@.len() - i,
        {
            assert(list@.take(i + 1).drop_last() =~= list@.take(i as int));
            assert(list@.take(i + 1).last() == list@[i as int]);
            let v = &list[i];
            match v.block_height {
                Some(b) => {
                    if b <= block_height {
                        let better = match best {
                            None => true,
                            Some(cur) => b >= cur.block_height.unwrap_or(0),
                        };
                        if better {
                            best = Some(v);
                        }
                    }
                },
                None => {},
            }
            i = i + 1;
        }
        assert(list@.take(list@.len() as int) =~= list@);
        best
    }

    /// Query historical state at a specific MPT root: the first version with that root.
    pub fn query_historical_state(&self, dot_address: DotAddress, mpt_root_hash: MptHash) -> (r: Option<&DotStateVersion>)
        requires
            self.inv(),
        ensures
            r is Some <==> first_match(self.dot_versions(dot_address@), has_root(mpt_root_hash@)) is Some,
            r is Some ==> *r->0 == first_match(self.dot_versions(dot_address@), has_root(mpt_root_hash@))->0,
    {
        let list = self.versions_of(&dot_address);
        let mut i: usize = 0;
        assert(list@.subrange(0, list@.len() as int) =~= list@);
        while i < list.len()
            invariant
                i <= list@.len(),
                list@ == self.dot_versions(dot_address@),
                first_match(list@, has_root(mpt_root_hash@)) == first_match(
                    list@.subrange(i as int, list@.len() as int),
                    has_root(mpt_root_hash@),
                ),
            decreases list@.len() - i,
        {
            if list[i].mpt_root_hash.key_eq(&mpt_root_hash) {
                proof {
                    lemma_first_match_hit(list@, i as int, has_root(mpt_root_hash@));
                }
                return Some(&list[i]);
            }
            proof {
                lemma_first_match_skip(list@, i as int, has_root(mpt_root_hash@));
            }
            i = i + 1;
        }
        None
    }
}

/// `f` applied to the version with identifier `vid`, the others unchanged.
pub open spec fn map_version(
    s: Seq<DotStateVersion>,
    vid: StateVersionId,
    f: spec_fn(DotStateVersion) -> DotStateVersion,
) -> Seq<DotStateVersion> {
    s.map_values(|v: DotStateVersion| if v.version_id == vid { f(v) } else { v })
}

/// A version marked finalized.
pub open spec fn finalized_version() -> spec_fn(DotStateVersion) -> DotStateVersion {
    |v: DotStateVersion| DotStateVersion { is_finalized: true, ..v }
}

/// A version with transaction information set.
pub open spec fn with_transaction_info(tx_hash: TransactionHash, block_height: BlockHeight) -> spec_fn(
    DotStateVersion,
) -> DotStateVersion {
    |v: DotStateVersion|
        DotStateVersion { transaction_hash: Some(tx_hash), block_height: Some(block_height), ..v }
}

/// The reference counts after one more reference to `k`.
pub open spec fn acquired(m: Map<(Seq<u8>, StateVersionId), usize>, k: (Seq<u8>, StateVersionId)) -> Map<
    (Seq<u8>, StateVersionId),
    usize,
> {
    if m.contains_key(k) {
        m.insert(k, (m[k] + 1) as usize)
    } else {
        m.insert(k, 1)
    }
}

/// The reference counts after one reference to `k` is dropped: a count that
/// reaches zero leaves the map; an unknown key changes nothing.
pub open spec fn released(m: Map<(Seq<u8>, StateVersionId), usize>, k: (Seq<u8>, StateVersionId)) -> Map<
    (Seq<u8>, StateVersionId),
    usize,
> {
    if !m.contains_key(k) {
        m
    } else if m[k] <= 1 {
        m.remove(k)
    } else {
        m.insert(k, (m[k] - 1) as usize)
    }
}

/// The reference counts after `n` more references to `k`.
pub open spec fn acquired_times(m: Map<(Seq<u8>, StateVersionId), usize>, k: (Seq<u8>, StateVersionId), n: nat) -> Map<
    (Seq<u8>, StateVersionId),
    usize,
>
    decreases n,
{
    if n == 0 {
        m
    } else {
        acquired(acquired_times(m, k, (n - 1) as nat), k)
    }
}

/// The reference counts after `n` references to `k` are dropped.
pub open spec fn released_times(m: Map<(Seq<u8>, StateVersionId), usize>, k: (Seq<u8>, StateVersionId), n: nat) -> Map<
    (Seq<u8>, StateVersionId),
    usize,
>
    decreases n,
{
    if n == 0 {
        m
    } else {
        released(released_times(m, k, (n - 1) as nat), k)
    }
}

/// Snapshot reference counting: from a pair with no reference, `a`
/// acquisitions then `j` releases leave it active exactly when `j < a`,
/// with `a - j` references; releasing an inactive pair changes nothing; no
/// other pair is touched.
pub proof fn lemma_snapshot_references(m: Map<(Seq<u8>, StateVersionId), usize>, k: (Seq<u8>, StateVersionId), a: nat, j: nat)
    requires
        !m.contains_key(k),
        a <= usize::MAX,
    ensures
        released_times(acquired_times(m, k, a), k, j) == if j < a {
            m.insert(k, (a - j) as usize)
        } else {
            m
        },
    decreases j,
{
    lemma_acquired_times(m, k, a);
    if j > 0 {
        lemma_snapshot_references(m, k, a, (j - 1) as nat);
        let prev = released_times(acquired_times(m, k, a), k, (j - 1) as nat);
        if j < a {
            assert(released(prev, k) =~= m.insert(k, (a - j) as usize));
        } else if j == a {
            assert(released(prev, k) =~= m);
        }
    }
}

proof fn lemma_acquired_times(m: Map<(Seq<u8>, StateVersionId), usize>, k: (Seq<u8>, StateVersionId), n: nat)
    requires
        !m.contains_key(k),
        n <= usize::MAX,
    ensures
        acquired_times(m, k, n) == if n == 0 {
            m
        } else {
            m.insert(k, n as usize)
        },
    decreases n,
{
    if n > 0 {
        lemma_acquired_times(m, k, (n - 1) as nat);
        if n == 1 {
            assert(acquired(m, k) =~= m.insert(k, 1));
        } else {
            assert(acquired(m.insert(k, (n - 1) as usize), k) =~= m.insert(k, n as usize));
        }
    }
}

/// Number of versions satisfying `p`.
pub open spec fn count_versions(s: Seq<DotStateVersion>, p: spec_fn(DotStateVersion) -> bool) -> nat {
    s.filter(p).len()
}

/// The statistics of contract `a` in manager `m`.
pub open spec fn dot_statistics_of(m: DotVersionManager, a: DotAddress) -> DotVersioningStatistics {
    let s = m.dot_versions(a@);
    DotVersioningStatistics {
        dot_address: a,
        total_versions: s.len() as usize,
        finalized_versions: count_versions(s, is_finalized_version()) as usize,
        upgrade_versions: count_versions(s, is_upgrade_version()) as usize,
        current_version: if m.has_dot(a@) {
            m.current_of(a@)
        } else {
            None
        },
        total_state_size_bytes: total_state_size(s) as u64,
        max_versions_per_dot: m.max_versions(),
    }
}

impl DotVersionManager {
    /// Apply a change to one stored version: `None` finalizes it, `Some` sets
    /// its transaction information.
    fn modify_version(
        &mut self,
        dot_address: DotAddress,
        version_id: StateVersionId,
        tx: Option<(TransactionHash, BlockHeight)>,
    ) -> (r: Result<(), DotVersioningError>)
        requires
            old(self).inv(),
        ensures
            final(self).inv(),
            !old(self).has_dot(dot_address@) ==> r == Err::<(), DotVersioningError>(
                DotVersioningError::DotNotFound(dot_address),
            ) && *final(self) == *old(self),
            old(self).has_dot(dot_address@) && last_match(old(self).dot_versions(dot_address@), has_id(version_id))
                is None ==> r == Err::<(), DotVersioningError>(DotVersioningError::VersionNotFound(version_id))
                && *final(self) == *old(self),
            old(self).has_dot(dot_address@) && last_match(old(self).dot_versions(dot_address@), has_id(version_id))
                is Some ==> {
                &&& r is Ok
                &&& final(self).dot_versions(dot_address@) == map_version(
                    old(self).dot_versions(dot_address@),
                    version_id,
                    match tx {
                        None => finalized_version(),
                        Some(t) => with_transaction_info(t.0, t.1),
                    },
                )
                &&& forall|b: Seq<u8>| #[trigger] final(self).dot_versions(b) == old(self).dot_versions(b) || b == dot_address@
                &&& forall|b: Seq<u8>| #[trigger] final(self).has_dot(b) == old(self).has_dot(b)
                &&& final(self).current_map() == old(self).current_map()
                &&& final(self).active_map() == old(self).active_map()
                &&& final(self).counter() == old(self).counter()
                &&& final(self).max_versions() == old(self).max_versions()
            },
    {
        let idx = match self.versions.find(&dot_address) {
            Some(i) => i,
            None => {
                return Err(DotVersioningError::DotNotFound(dot_address));
            },
        };
        let pos = match Self::find_version_index(self.versions.entries[idx].1.as_slice(), version_id) {
            Some(p) => p,
            None => {
                return Err(DotVersioningError::VersionNotFound(version_id));
            },
        };
        let ghost f = match tx {
            None => finalized_version(),
            Some(t) => with_transaction_info(t.0, t.1),
        };
        let ghost s = old(self).dot_versions(dot_address@);
        let mut list = match self.versions.remove(&dot_address) {
            Some(l) => l,
            None => Vec::new(),
        };
        assert(list@ == s);
        let mut v = list.remove(pos);
        match tx {
            None => v.finalize(),
            Some(t) => v.set_transaction_info(t.0, t.1),
        }
        list.insert(pos, v);
        proof {
            assert(v == f(s[pos as int]));
            assert(list@ =~= s.update(pos as int, f(s[pos as int])));
            let g = |v: DotStateVersion| if v.version_id == version_id { f(v) } else { v };
            assert forall|j: int| 0 <= j < s.len() implies #[trigger] list@[j] == g(s[j]) by {
                if j != pos {
                    assert(version_ok(s[j], dot_address@, self.version_counter));
                    if j < pos {
                        assert(s[j].version_id.logical_version < s[pos as int].version_id.logical_version);
                    } else {
                        assert(s[pos as int].version_id.logical_version < s[j].version_id.logical_version);
                    }
                }
            }
            assert(list@ =~= map_version(s, version_id, f));
            assert forall|i: int| 0 <= i < list@.len() implies version_ok(#[trigger] list@[i], dot_address@, self.version_counter) by {
                assert(version_ok(s[i], dot_address@, self.version_counter));
            }
            assert forall|i: int, j: int| 0 <= i < j < list@.len() implies list@[i].version_id.logical_version < list@[j].version_id.logical_version by {
                assert(s[i].version_id.logical_version < s[j].version_id.logical_version);
            }
        }
        self.versions.insert(dot_address, list);
        proof {
            assert forall|a: Seq<u8>| #[trigger] self.versions.view_map().contains_key(a) implies dot_history_ok(self.versions.view_map()[a]@, a, self.version_counter) by {
                if a != dot_address@ {
                    assert(old(self).versions.view_map().contains_key(a));
                }
            }
            assert forall|b: Seq<u8>| #[trigger] self.has_dot(b) == old(self).has_dot(b) by {
                if b == dot_address@ {
                    assert(self.versions.view_map().contains_key(b));
                }
            }
        }
        Ok(())
    }

    /// Finalize a version
    pub fn finalize_version(&mut self, dot_address: DotAddress, version_id: StateVersionId) -> (r: Result<
        (),
        DotVersioningError,
    >)
        requires
            old(self).inv(),
        ensures
            final(self).inv(),
            !old(self).has_dot(dot_address@) ==> r == Err::<(), DotVersioningError>(
                DotVersioningError::DotNotFound(dot_address),
            ) && *final(self) == *old(self),
            old(self).has_dot(dot_address@) && last_match(old(self).dot_versions(dot_address@), has_id(version_id))
                is None ==> r == Err::<(), DotVersioningError>(DotVersioningError::VersionNotFound(version_id))
                && *final(self) == *old(self),
            old(self).has_dot(dot_address@) && last_match(old(self).dot_versions(dot_address@), has_id(version_id))
                is Some ==> {
                &&& r is Ok
                &&& final(self).dot_versions(dot_address@) == map_version(
                    old(self).dot_versions(dot_address@),
                    version_id,
                    finalized_version(),
                )
                &&& forall|b: Seq<u8>| #[trigger] final(self).dot_versions(b) == old(self).dot_versions(b) || b == dot_address@
                &&& forall|b: Seq<u8>| #[trigger] final(self).has_dot(b) == old(self).has_dot(b)
                &&& final(self).current_map() == old(self).current_map()
                &&& final(self).active_map() == old(self).active_map()
                &&& final(self).counter() == old(self).counter()
                &&& final(self).max_versions() == old(self).max_versions()
            },
    {
        self.modify_version(dot_address, version_id, None)
    }

    /// Update version transaction information
    pub fn update_transaction_info(
        &mut self,
        dot_address: DotAddress,
        version_id: StateVersionId,
        tx_hash: TransactionHash,
        block_height: BlockHeight,
    ) -> (r: Result<(), DotVersioningError>)
        requires
            old(self).inv(),
        ensures
            final(self).inv(),
            !old(self).has_dot(dot_address@) ==> r == Err::<(), DotVersioningError>(
                DotVersioningError::DotNotFound(dot_address),
            ) && *final(self) == *old(self),
            old(self).has_dot(dot_address@) && last_match(old(self).dot_versions(dot_address@), has_id(version_id))
                is None ==> r == Err::<(), DotVersioningError>(DotVersioningError::VersionNotFound(version_id))
                && *final(self) == *old(self),
            old(self).has_dot(dot_address@) && last_match(old(self).dot_versions(dot_address@), has_id(version_id))
                is Some ==> {
                &&& r is Ok
                &&& final(self).dot_versions(dot_address@) == map_version(
                    old(self).dot_versions(dot_address@),
                    version_id,
                    with_transaction_info(tx_hash, block_height),
                )
                &&& forall|b: Seq<u8>| #[trigger] final(self).dot_versions(b) == old(self).dot_versions(b) || b == dot_address@
                &&& forall|b: Seq<u8>| #[trigger] final(self).has_dot(b) == old(self).has_dot(b)
                &&& final(self).current_map() == old(self).current_map()
                &&& final(self).active_map() == old(self).active_map()
                &&& final(self).counter() == old(self).counter()
                &&& final(self).max_versions() == old(self).max_versions()
            },
    {
        self.modify_version(dot_address, version_id, Some((tx_hash, block_height)))
    }

    /// Acquire snapshot reference
    pub fn acquire_snapshot(&mut self, dot_address: DotAddress, version_id: StateVersionId) -> (r: Result<
        (),
        DotVersioningError,
    >)
        requires
            old(self).inv(),
            old(self).active_map().contains_key((dot_address@, version_id)) ==> old(self).active_map()[(
                dot_address@,
                version_id,
            )] < usize::MAX,
        ensures
            final(self).inv(),
            r is Ok,
            final(self).active_map() == acquired(old(self).active_map(), (dot_address@, version_id)),
            forall|b: Seq<u8>| #[trigger] final(self).dot_versions(b) == old(self).dot_versions(b),
            forall|b: Seq<u8>| #[trigger] final(self).has_dot(b) == old(self).has_dot(b),
            final(self).current_map() == old(self).current_map(),
            final(self).counter() == old(self).counter(),
            final(self).max_versions() == old(self).max_versions(),
    {
        let key = (dot_address, version_id);
        let count: usize = match self.active_snapshots.get(&key) {
            Some(c) => *c,
            None => 0,
        };
        self.active_snapshots.insert(key, count + 1);
        Ok(())
    }

    /// Release snapshot reference
    pub fn release_snapshot(&mut self, dot_address: DotAddress, version_id: StateVersionId)
        requires
            old(self).inv(),
        ensures
            final(self).inv(),
            final(self).active_map() == released(old(self).active_map(), (dot_address@, version_id)),
            forall|b: Seq<u8>| #[trigger] final(self).dot_versions(b) == old(self).dot_versions(b),
            forall|b: Seq<u8>| #[trigger] final(self).has_dot(b) == old(self).has_dot(b),
            final(self).current_map() == old(self).current_map(),
            final(self).counter() == old(self).counter(),
            final(self).max_versions() == old(self).max_versions(),
    {
        let key = (dot_address, version_id);
        let count: usize = match self.active_snapshots.get(&key) {
            Some(c) => *c,
            None => {
                return;
            },
        };
        if count <= 1 {
            self.active_snapshots.remove(&key);
        } else {
            self.active_snapshots.insert(key, count - 1);
        }
    }

    /// Check if version is actively referenced
    pub fn is_version_active(&self, dot_address: DotAddress, version_id: StateVersionId) -> (r: bool)
        requires
            self.inv(),
        ensures
            r == self.active_map().contains_key((dot_address@, version_id)),
    {
        self.active_snapshots.contains_key(&(dot_address, version_id))
    }

    /// Get contract versioning statistics
    pub fn get_dot_statistics(&self, dot_address: DotAddress) -> (r: DotVersioningStatistics)
        requires
            self.inv(),
            total_state_size(self.dot_versions(dot_address@)) <= u64::MAX,
        ensures
            r == dot_statistics_of(*self, dot_address),
    {
        let list = self.versions_of(&dot_address);
        let has = self.versions.contains_key(&dot_address);
        let mut finalized: usize = 0;
        let mut upgrades: usize = 0;
        let mut total: u64 = 0;
        let mut i: usize = 0;
        proof {
            lemma_total_state_size_prefix(list@);
        }
        while i < list.len()
            invariant
                i <= list@.len(),
                list@ == self.dot_versions(dot_address@),
                total_state_size(list@) <= u64::MAX,
                forall|k: int| 0 <= k <= list@.len() ==> total_state_size(#[trigger] list@.take(k)) <= total_state_size(list@),
                finalized == count_versions(list@.take(i as int), is_finalized_version()),
                upgrades == count_versions(list@.take(i as int), is_upgrade_version()),
                total == total_state_size(list@.take(i as int)),
                finalized <= i,
                upgrades <= i,
            decreases list@.len() - i,
        {
            proof {
                lemma_filter_take(list@, i as int, is_finalized_version());
                lemma_filter_take(list@, i as int, is_upgrade_version());
                assert(list@.take(i + 1).drop_last() =~= list@.take(i as int));
                assert(list@.take(i + 1).last() == list@[i as int]);
            }
            let v = &list[i];
            if v.is_finalized {
                finalized = finalized + 1;
            }
            if v.is_upgrade() {
                upgrades = upgrades + 1;
            }
            total = total + v.state_size;
            i = i + 1;
        }
        assert(list@.take(list@.len() as int) =~= list@);
        let current_version = if has {
            match self.current_versions.get(&dot_address) {
                Some(c) => Some(*c),
                None => None,
            }
        } else {
            None
        };
        DotVersioningStatistics {
            dot_address,
            total_versions: list.len(),
            finalized_versions: finalized,
            upgrade_versions: upgrades,
            current_version,
            total_state_size_bytes: total,
            max_versions_per_dot: self.max_versions_per_dot,
        }
    }
}

impl Default for DotVersionManager {
    fn default() -> (r: Self)
        ensures
            fresh_manager(r, 100),
    {
        Self::new(100)
    }
}

/// Acquiring a snapshot reference and then releasing it leaves the reference
/// counts as they were.
pub proof fn lemma_acquire_then_release(m: Map<(Seq<u8>, StateVersionId), usize>, k: (Seq<u8>, StateVersionId))
    requires
        m.contains_key(k) ==> 1 <= m[k] < usize::MAX,
    ensures
        released(acquired(m, k), k) == m,
{
    if m.contains_key(k) {
        assert(released(acquired(m, k), k) =~= m);
    } else {
        assert(released(acquired(m, k), k) =~= m);
    }
}

/// A version is referenced exactly while acquisitions outnumber releases:
/// after an acquisition it is active, and releasing the last reference makes
/// it inactive.
pub proof fn lemma_snapshot_activity(m: Map<(Seq<u8>, StateVersionId), usize>, k: (Seq<u8>, StateVersionId))
    requires
        m.contains_key(k) ==> 1 <= m[k] < usize::MAX,
    ensures
        acquired(m, k).contains_key(k),
        !m.contains_key(k) ==> !released(acquired(m, k), k).contains_key(k),
        m.contains_key(k) && m[k] == 1 ==> !released(m, k).contains_key(k),
{
}

/// Every prefix of a history has a total state size no larger than the whole.
proof fn lemma_total_state_size_prefix(s: Seq<DotStateVersion>)
    ensures
        forall|k: int| 0 <= k <= s.len() ==> total_state_size(#[trigger] s.take(k)) <= total_state_size(s),
    decreases s.len(),
{
    if s.len() > 0 {
        lemma_total_state_size_prefix(s.drop_last());
        assert forall|k: int| 0 <= k <= s.len() implies total_state_size(#[trigger] s.take(k)) <= total_state_size(s) by {
            if k == s.len() {
                assert(s.take(k) =~= s);
            } else {
                assert(s.take(k) =~= s.drop_last().take(k));
            }
        }
    }
}

/// A well-formed history stays well-formed under a larger counter.
pub proof fn lemma_history_ok_counter_mono(s: Seq<DotStateVersion>, a: Seq<u8>, c1: u64, c2: u64)
    requires
        dot_history_ok(s, a, c1),
        c1 <= c2,
    ensures
        dot_history_ok(s, a, c2),
{
    assert forall|i: int| 0 <= i < s.len() implies version_ok(#[trigger] s[i], a, c2) by {
        assert(version_ok(s[i], a, c1));
    }
}

/// Cleanup keeps a well-formed history well-formed.
pub proof fn lemma_cleaned_history_ok(
    s: Seq<DotStateVersion>,
    a: Seq<u8>,
    counter: u64,
    active: Map<(Seq<u8>, StateVersionId), usize>,
    max: int,
)
    requires
        dot_history_ok(s, a, counter),
    ensures
        dot_history_ok(cleaned_history(s, active, max), a, counter),
{
    let f = cleanup_keep_pred(s, active, max);
    lemma_retain_history_ok(s, s.len() as int, f, a, counter);
}

proof fn lemma_retain_history_ok(s: Seq<DotStateVersion>, k: int, f: spec_fn(int) -> bool, a: Seq<u8>, counter: u64)
    requires
        dot_history_ok(s, a, counter),
        0 <= k <= s.len(),
    ensures
        dot_history_ok(retain_idx(s, k, f), a, counter),
        forall|i: int|
            0 <= i < retain_idx(s, k, f).len() ==> exists|j: int|
                0 <= j < k && #[trigger] retain_idx(s, k, f)[i] == s[j],
    decreases k,
{
    if k > 0 {
        lemma_retain_history_ok(s, k - 1, f, a, counter);
        let r0 = retain_idx(s, k - 1, f);
        let r = retain_idx(s, k, f);
        assert forall|i: int| 0 <= i < r.len() implies exists|j: int| 0 <= j < k && #[trigger] r[i] == s[j] by {
            if i < r0.len() {
                let j = choose|j: int| 0 <= j < k - 1 && #[trigger] r0[i] == s[j];
                assert(r[i] == s[j]);
            } else {
                assert(r[i] == s[k - 1]);
            }
        }
        if f(k - 1) {
            assert forall|i: int| 0 <= i < r.len() implies version_ok(#[trigger] r[i], a, counter) by {
                let j = choose|j: int| 0 <= j < k && #[trigger] r[i] == s[j];
                assert(version_ok(s[j], a, counter));
            }
            assert forall|i: int, j: int| 0 <= i < j < r.len() implies r[i].version_id.logical_version < r[j].version_id.logical_version by {
                let i2 = choose|i2: int| 0 <= i2 < k && #[trigger] r[i] == s[i2];
                if j < r0.len() {
                    assert(r[i] == r0[i] && r[j] == r0[j]);
                } else {
                    assert(r[j] == s[k - 1]);
                    if i2 == k - 1 {
                        assert(r[i] == r0[i]);
                        let i3 = choose|i3: int| 0 <= i3 < k - 1 && #[trigger] r0[i] == s[i3];
                        assert(s[i3].version_id.logical_version < s[k - 1].version_id.logical_version);
                    }
                }
            }
        }
    }
}

/// Contract versioning statistics.
#[derive(Debug, Clone, Copy)]
pub struct DotVersioningStatistics {
    /// Contract address
    pub dot_address: DotAddress,
    /// Total number of versions
    pub total_versions: usize,
    /// Number of finalized versions
    pub finalized_versions: usize,
    /// Number of upgrade versions
    pub upgrade_versions: usize,
    /// Current version ID
    pub current_version: Option<StateVersionId>,
    /// Total state size across all versions
    pub total_state_size_bytes: u64,
    /// Maximum versions to keep
    pub max_versions_per_dot: usize,
}

/// Errors that can occur during contract versioning operations.
#[derive(Debug, Clone, PartialEq, Eq)]
pub enum DotVersioningError {
    /// Contract not found
    DotNotFound(DotAddress),
    /// Version not found
    VersionNotFound(StateVersionId),
    /// Version already exists
    VersionAlreadyExists(StateVersionId),
    /// Invalid upgrade operation
    InvalidUpgrade(String),
    /// Storage layout error
    StorageLayoutError(String),
    /// MPT operation error
    MPTError(String),
    /// Serialization error
    SerializationError(String),
    /// Internal error
    InternalError(String),
}

} // verus!
