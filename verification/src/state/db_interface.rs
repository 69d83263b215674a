//! The database layer under the trie: the on-disk index of the file store
//! (a JSON object from hex-encoded keys to offset and length), the keys the
//! trie's nodes are stored under, and the statistics of database operations.
use vstd::prelude::*;

use crate::assoc_list::{AssocList, KeyEq};
use crate::state::mpt::lib::{MPTError, NodeId, TrieResult};
use crate::state::mpt::node::{Node, NodeView, lemma_decode_encoded, node_bytes, node_id_of, parse_node};
use crate::state::mpt::trie::{MerklePatriciaTrie, NodeStorage};
use crate::storage_engine::lib::{StorageConfig, StorageError, VersionId, generate_timestamp};

verus! {

/// The lowercase hexadecimal digit of a value below 16.
pub open spec fn hex_char(v: u8) -> char {
    if v < 10 {
        (('0' as u8) + v) as char
    } else {
        (('a' as u8) + (v - 10)) as char
    }
}

/// Lowercase hexadecimal text of bytes: two digits per byte, high first.
pub open spec fn hex_lower(bytes: Seq<u8>) -> Seq<char>
    decreases bytes.len(),
{
    if bytes.len() == 0 {
        Seq::empty()
    } else {
        hex_lower(bytes.drop_last()).push(hex_char(bytes.last() / 16)).push(hex_char(bytes.last() % 16))
    }
}

/// The value of a hexadecimal digit, of either case.
pub open spec fn hex_value(c: char) -> Option<u8> {
    if '0' <= c && c <= '9' {
        Some((c as u8 - '0' as u8) as u8)
    } else if 'a' <= c && c <= 'f' {
        Some((c as u8 - 'a' as u8 + 10) as u8)
    } else if 'A' <= c && c <= 'F' {
        Some((c as u8 - 'A' as u8 + 10) as u8)
    } else {
        None
    }
}

/// The bytes that hexadecimal text stands for: `None` for text of odd
/// length or with a character that is not a hexadecimal digit.
pub open spec fn hex_decoded(s: Seq<char>) -> Option<Seq<u8>>
    decreases s.len(),
{
    if s.len() % 2 != 0 {
        None
    } else if s.len() == 0 {
        Some(Seq::empty())
    } else {
        match (hex_decoded(s.subrange(0, s.len() - 2)), hex_value(s[s.len() - 2]), hex_value(s[s.len() - 1])) {
            (Some(b), Some(hi), Some(lo)) => Some(b.push((hi * 16 + lo) as u8)),
            _ => None,
        }
    }
}

/// The lowercase hexadecimal digit of a value below 16.
fn hex_digit(v: u8) -> (r: u8)
    requires
        v < 16,
    ensures
        r as char == hex_char(v),
        r == hex_byte(v),
{
    if v < 10 {
        48 + v
    } else {
        97 + (v - 10)
    }
}

/// The value of a hexadecimal digit, of either case.
fn hex_digit_value(c: char) -> (r: Option<u8>)
    ensures
        r == hex_value(c),
{
    if '0' <= c && c <= '9' {
        Some((c as u8) - 48)
    } else if 'a' <= c && c <= 'f' {
        Some((c as u8) - 97 + 10)
    } else if 'A' <= c && c <= 'F' {
        Some((c as u8) - 65 + 10)
    } else {
        None
    }
}

/// The byte of the lowercase hexadecimal digit of a value below 16.
pub open spec fn hex_byte(v: u8) -> u8 {
    if v < 10 {
        (48 + v) as u8
    } else {
        (97 + (v - 10)) as u8
    }
}

/// Lowercase hexadecimal text of bytes, as bytes: two digits per byte.
pub open spec fn hex_bytes(bytes: Seq<u8>) -> Seq<u8>
    decreases bytes.len(),
{
    if bytes.len() == 0 {
        Seq::empty()
    } else {
        hex_bytes(bytes.drop_last()).push(hex_byte(bytes.last() / 16)).push(hex_byte(bytes.last() % 16))
    }
}

/// The key a trie node with identifier `id` is stored under, as bytes.
pub open spec fn node_key_bytes(id: Seq<u8>) -> Seq<u8> {
    seq![110u8, 111u8, 100u8, 101u8, 58u8] + hex_bytes(id)
}

proof fn lemma_hex_bytes_len(a: Seq<u8>)
    ensures
        hex_bytes(a).len() == 2 * a.len(),
    decreases a.len(),
{
    if a.len() > 0 {
        lemma_hex_bytes_len(a.drop_last());
    }
}

/// Equal-length byte sequences with the same hexadecimal text are equal.
proof fn lemma_hex_bytes_injective(a: Seq<u8>, b: Seq<u8>)
    requires
        a.len() == b.len(),
        hex_bytes(a) == hex_bytes(b),
    ensures
        a == b,
    decreases a.len(),
{
    if a.len() > 0 {
        let (a0, b0) = (a.drop_last(), b.drop_last());
        lemma_hex_bytes_len(a0);
        lemma_hex_bytes_len(b0);
        let ha = hex_bytes(a);
        let n = ha.len() as int;
        assert(ha[n - 2] == hex_byte(a.last() / 16));
        assert(hex_bytes(b)[n - 2] == hex_byte(b.last() / 16));
        assert(ha[n - 1] == hex_byte(a.last() % 16));
        assert(hex_bytes(b)[n - 1] == hex_byte(b.last() % 16));
        assert(a.last() / 16 == b.last() / 16);
        assert(a.last() % 16 == b.last() % 16);
        assert(a.last() == b.last());
        assert(ha.drop_last().drop_last() =~= hex_bytes(a0));
        assert(hex_bytes(b).drop_last().drop_last() =~= hex_bytes(b0));
        lemma_hex_bytes_injective(a0, b0);
        assert(a =~= a0.push(a.last()));
        assert(b =~= b0.push(b.last()));
    }
}

/// Identifiers of the same length have the same node key only when equal.
pub proof fn lemma_node_key_injective(a: Seq<u8>, b: Seq<u8>)
    requires
        a.len() == b.len(),
        node_key_bytes(a) == node_key_bytes(b),
    ensures
        a == b,
{
    assert(node_key_bytes(a).skip(5) =~= hex_bytes(a));
    assert(node_key_bytes(b).skip(5) =~= hex_bytes(b));
    lemma_hex_bytes_injective(a, b);
}

/// The characters of a byte sequence read as Latin-1 (each byte one char).
pub open spec fn chars_of(bytes: Seq<u8>) -> Seq<char> {
    bytes.map_values(|b: u8| b as char)
}

/// The key a trie node is stored under: `"node:"` and the lowercase
/// hexadecimal text of its identifier, as bytes.
pub fn node_key(id: &NodeId) -> (r: Vec<u8>)
    ensures
        chars_of(r@) == "node:"@ + hex_lower(id@),
        r@ == node_key_bytes(id@),
{
    proof {
        reveal_strlit("node:");
    }
    let mut r: Vec<u8> = Vec::new();
    r.push(110);
    r.push(111);
    r.push(100);
    r.push(101);
    r.push(58);
    assert(chars_of(r@) =~= "node:"@);
    assert(r@ =~= node_key_bytes(id@.take(0)));
    let mut i: usize = 0;
    while i < 32
        invariant
            i <= 32,
            id@.len() == 32,
            chars_of(r@) == "node:"@ + hex_lower(id@.take(i as int)),
            r@ == node_key_bytes(id@.take(i as int)),
        decreases 32 - i,
    {
        let b = id[i];
        let hi = hex_digit(b / 16);
        let lo = hex_digit(b % 16);
        let ghost before = r@;
        r.push(hi);
        r.push(lo);
        proof {
            assert(id@.take(i + 1).drop_last() =~= id@.take(i as int));
            assert(id@.take(i + 1).last() == b);
            assert(chars_of(r@) =~= chars_of(before).push(hi as char).push(lo as char));
            assert(r@ =~= node_key_bytes(id@.take(i + 1)));
        }
        i = i + 1;
    }
    assert(id@.take(32) =~= id@);
    r
}

/// The bytes of hexadecimal text, or `None` where the text is not
/// hexadecimal (odd length or a character that is no digit).
pub fn hex_decode(s: &str) -> (r: Option<Vec<u8>>)
    ensures
        r is None <==> hex_decoded(s@) is None,
        r matches Some(v) ==> v@ == hex_decoded(s@)->Some_0,
{
    let n = s.unicode_len();
    if n % 2 != 0 {
        return None;
    }
    let mut out: Vec<u8> = Vec::new();
    let mut i: usize = 0;
    while i < n
        invariant
            n == s@.len(),
            n % 2 == 0,
            i <= n,
            i % 2 == 0,
            hex_decoded(s@.subrange(0, i as int)) == Some(out@),
        decreases n - i,
    {
        let hi = hex_digit_value(s.get_char(i));
        let lo = hex_digit_value(s.get_char(i + 1));
        let ghost t = s@.subrange(0, i + 2);
        proof {
            assert(t.subrange(0, t.len() - 2) =~= s@.subrange(0, i as int));
            assert(t[t.len() - 2] == s@[i as int]);
            assert(t[t.len() - 1] == s@[i + 1]);
        }
        match (hi, lo) {
            (Some(h), Some(l)) => {
                out.push(h * 16 + l);
            },
            _ => {
                proof {
                    lemma_hex_decoded_prefix(s@, i + 2);
                }
                return None;
            },
        }
        i = i + 2;
    }
    assert(s@.subrange(0, n as int) =~= s@);
    Some(out)
}

/// Text whose even prefix does not decode does not decode.
proof fn lemma_hex_decoded_prefix(s: Seq<char>, k: int)
    requires
        0 <= k <= s.len(),
        k % 2 == 0,
        s.len() % 2 == 0,
        hex_decoded(s.subrange(0, k)) is None,
    ensures
        hex_decoded(s) is None,
    decreases s.len() - k,
{
    if k < s.len() {
        let t = s.subrange(0, k + 2);
        assert(t.subrange(0, t.len() - 2) =~= s.subrange(0, k));
        lemma_hex_decoded_prefix(s, k + 2);
    } else {
        assert(s.subrange(0, k) =~= s);
    }
}

/// The entries of the JSON object `text` as `serde_json` reads it into a
/// map from strings to (offset, length) pairs, in ascending key order;
/// `None` where `text` is no such object.
pub uninterp spec fn json_index(text: Seq<char>) -> Option<Seq<(Seq<char>, (u64, u32))>>;

/// The plain view of parsed index entries.
pub open spec fn index_view(v: Seq<(String, (u64, u32))>) -> Seq<(Seq<char>, (u64, u32))> {
    v.map_values(|e: (String, (u64, u32))| (e.0@, e.1))
}

/// `serde_json::from_str` into a `BTreeMap<String, (u64, u32)>`, its
/// entries handed out in key order; the result is named by `json_index`.
#[verifier::external_body]
fn parse_index_json(text: &str) -> (r: Option<Vec<(String, (u64, u32))>>)
    ensures
        r is None <==> json_index(text@) is None,
        r matches Some(v) ==> index_view(v@) == json_index(text@)->Some_0,
{
    match serde_json::from_str::<std::collections::BTreeMap<String, (u64, u32)>>(text) {
        Ok(m) => Some(m.into_iter().collect()),
        Err(_) => None,
    }
}

/// The index entries that JSON text gives: each key's hexadecimal text
/// decoded (to no bytes where it is not hexadecimal) with its offset and
/// length; none where the text is not an index object.
pub open spec fn index_entries(j: Option<Seq<(Seq<char>, (u64, u32))>>) -> Seq<(Seq<u8>, u64, u32)> {
    match j {
        Some(es) => es.map_values(
            |e: (Seq<char>, (u64, u32))|
                (
                    match hex_decoded(e.0) {
                        Some(b) => b,
                        None => Seq::empty(),
                    },
                    e.1.0,
                    e.1.1,
                ),
        ),
        None => Seq::empty(),
    }
}

/// The plain view of decoded index entries.
pub open spec fn entries_view(v: Seq<(Vec<u8>, u64, u32)>) -> Seq<(Seq<u8>, u64, u32)> {
    v.map_values(|e: (Vec<u8>, u64, u32)| (e.0@, e.1, e.2))
}

/// The decoded index entries of parsed ones: each key's hexadecimal text
/// decoded (to no bytes where it is not hexadecimal), with its offset and
/// length, in order.
pub fn index_from_entries(v: &Vec<(String, (u64, u32))>) -> (r: Vec<(Vec<u8>, u64, u32)>)
    ensures
        entries_view(r@) == index_entries(Some(index_view(v@))),
{
    let ghost es = index_view(v@);
    let mut out: Vec<(Vec<u8>, u64, u32)> = Vec::new();
    let mut i: usize = 0;
    while i < v.len()
        invariant
            i <= v@.len(),
            es == index_view(v@),
            entries_view(out@) == index_entries(Some(es.take(i as int))),
        decreases v@.len() - i,
    {
        let key = match hex_decode(v[i].0.as_str()) {
            Some(b) => b,
            None => Vec::new(),
        };
        let ghost before = out@;
        out.push((key, v[i].1.0, v[i].1.1));
        proof {
            assert(es[i as int] == (v@[i as int].0@, v@[i as int].1));
            assert(es.take(i + 1) =~= es.take(i as int).push(es[i as int]));
            assert(entries_view(out@) =~= entries_view(before).push((key@, v@[i as int].1.0, v@[i as int].1.1)));
            assert(index_entries(Some(es.take(i + 1))) =~= index_entries(Some(es.take(i as int))).push(
                index_entries(Some(es.take(i + 1)))[i as int],
            ));
        }
        i = i + 1;
    }
    assert(es.take(es.len() as int) =~= es);
    out
}

/// Read the file store's index from its JSON text (see `index_entries`).
pub fn decode_index(text: &str) -> (r: Vec<(Vec<u8>, u64, u32)>)
    ensures
        entries_view(r@) == index_entries(json_index(text@)),
{
    match parse_index_json(text) {
        None => {
            let out: Vec<(Vec<u8>, u64, u32)> = Vec::new();
            assert(entries_view(out@) =~= index_entries(json_index(text@)));
            out
        },
        Some(v) => index_from_entries(&v),
    }
}

/// Database operation types for monitoring
#[derive(Debug, Clone, Copy, PartialEq, Eq, Structural)]
pub enum DbOperation {
    Get,
    Put,
    Delete,
    BatchPut,
    BatchDelete,
    Snapshot,
}

/// Database interface configuration
#[derive(Debug, Clone)]
pub struct DbConfig {
    /// Underlying storage configuration
    pub storage_config: StorageConfig,
    /// Enable compression for stored data
    pub enable_compression: bool,
    /// Cache size for frequently accessed nodes
    pub cache_size: usize,
    /// Batch size for bulk operations
    pub batch_size: usize,
    /// Enable metrics collection
    pub enable_metrics: bool,
}

impl Default for DbConfig {
    fn default() -> (r: Self)
        ensures
            r.enable_compression,
            r.cache_size == 10000,
            r.batch_size == 1000,
            r.enable_metrics,
    {
        DbConfig {
            storage_config: StorageConfig::default(),
            enable_compression: true,
            cache_size: 10000,
            batch_size: 1000,
            enable_metrics: true,
        }
    }
}

/// Database interface error types
#[derive(Debug)]
pub enum DbError {
    Storage(StorageError),
    Serialization(String),
    KeyNotFound(Vec<u8>),
    Transaction(String),
    Compression(String),
    Cache(String),
}

/// Type alias for database operation results
pub type DbResult<T> = Result<T, DbError>;

/// Batch operation for efficient bulk operations
#[derive(Debug, Clone)]
pub enum BatchOp {
    Put { key: Vec<u8>, value: Vec<u8> },
    Delete { key: Vec<u8> },
}

/// Database statistics for monitoring
#[derive(Debug, Clone, Copy, PartialEq, Eq, Structural)]
pub struct DbStats {
    pub get_count: u64,
    pub put_count: u64,
    pub delete_count: u64,
    pub batch_count: u64,
    pub cache_hits: u64,
    pub cache_misses: u64,
    pub total_size_bytes: u64,
}

impl DbStats {
    /// All counters at zero.
    pub open spec fn zero() -> DbStats {
        DbStats {
            get_count: 0,
            put_count: 0,
            delete_count: 0,
            batch_count: 0,
            cache_hits: 0,
            cache_misses: 0,
            total_size_bytes: 0,
        }
    }

    /// The statistics after operation `op` (a cache hit when `hit`), when
    /// metrics are enabled; counters stop at `u64::MAX`.
    pub open spec fn after(self, op: DbOperation, hit: bool, enabled: bool) -> DbStats {
        if !enabled {
            self
        } else {
            match op {
                DbOperation::Get => DbStats {
                    get_count: self.get_count.saturating_add(1),
                    cache_hits: if hit { self.cache_hits.saturating_add(1) } else { self.cache_hits },
                    cache_misses: if hit { self.cache_misses } else { self.cache_misses.saturating_add(1) },
                    ..self
                },
                DbOperation::Put => DbStats { put_count: self.put_count.saturating_add(1), ..self },
                DbOperation::Delete => DbStats { delete_count: self.delete_count.saturating_add(1), ..self },
                DbOperation::BatchPut | DbOperation::BatchDelete => DbStats {
                    batch_count: self.batch_count.saturating_add(1),
                    ..self
                },
                DbOperation::Snapshot => self,
            }
        }
    }

    /// Count an operation (see `after`).
    pub fn record(&mut self, op: DbOperation, hit: bool, enabled: bool)
        ensures
            *final(self) == old(self).after(op, hit, enabled),
    {
        if enabled {
            match op {
                DbOperation::Get => {
                    self.get_count = self.get_count.saturating_add(1);
                    if hit {
                        self.cache_hits = self.cache_hits.saturating_add(1);
                    } else {
                        self.cache_misses = self.cache_misses.saturating_add(1);
                    }
                },
                DbOperation::Put => self.put_count = self.put_count.saturating_add(1),
                DbOperation::Delete => self.delete_count = self.delete_count.saturating_add(1),
                DbOperation::BatchPut | DbOperation::BatchDelete => self.batch_count = self.batch_count.saturating_add(1),
                DbOperation::Snapshot => {},
            }
        }
    }
}

impl Default for DbStats {
    fn default() -> (r: Self)
        ensures
            r == DbStats::zero(),
    {
        DbStats {
            get_count: 0,
            put_count: 0,
            delete_count: 0,
            batch_count: 0,
            cache_hits: 0,
            cache_misses: 0,
            total_size_bytes: 0,
        }
    }
}

/// The contents after a batch: each put stores, each delete removes, in order.
pub open spec fn batch_result(m: Map<Seq<u8>, Vec<u8>>, ops: Seq<BatchOp>) -> Map<Seq<u8>, Vec<u8>>
    decreases ops.len(),
{
    if ops.len() == 0 {
        m
    } else {
        let prev = batch_result(m, ops.drop_last());
        match ops.last() {
            BatchOp::Put { key, value } => prev.insert(key@, value),
            BatchOp::Delete { key } => prev.remove(key@),
        }
    }
}

/// The byte views of a map of byte vectors.
pub open spec fn bytes_map(m: Map<Seq<u8>, Vec<u8>>) -> Map<Seq<u8>, Seq<u8>> {
    m.map_values(|v: Vec<u8>| v@)
}

/// A key-value database held in memory, with a cache of recently read or
/// written values in front of the store and operation statistics.
pub struct Database {
    /// Database configuration
    config: DbConfig,
    /// Cache for frequently accessed data
    cache: AssocList<Vec<u8>, Vec<u8>>,
    /// Database statistics
    stats: DbStats,
    /// The stored key-value pairs
    storage: AssocList<Vec<u8>, Vec<u8>>,
}

/// A copy of a byte vector.
fn copy_vec(v: &Vec<u8>) -> (r: Vec<u8>)
    ensures
        r@ == v@,
{
    let r = v.clone();
    assert(r@ =~= v@);
    r
}

impl Database {
    /// The stored contents.
    pub closed spec fn contents(&self) -> Map<Seq<u8>, Vec<u8>> {
        self.storage.view_map()
    }

    /// The cached entries.
    pub closed spec fn cached(&self) -> Map<Seq<u8>, Vec<u8>> {
        self.cache.view_map()
    }

    /// The statistics.
    pub closed spec fn stats_view(&self) -> DbStats {
        self.stats
    }

    /// The configuration.
    pub closed spec fn config_view(&self) -> DbConfig {
        self.config
    }

    /// The maps are well formed and every cached entry is the stored one.
    pub closed spec fn inv(&self) -> bool {
        &&& self.cache.wf()
        &&& self.storage.wf()
        &&& forall|k: Seq<u8>| #[trigger] self.cached().contains_key(k) ==> self.contents().contains_key(k)
            && self.contents()[k]@ == self.cached()[k]@
    }

    /// Create a new in-memory database with the default configuration
    pub fn new_in_memory() -> (r: DbResult<Self>)
        ensures
            r matches Ok(db) && db.inv() && db.contents() == Map::<Seq<u8>, Vec<u8>>::empty()
                && db.cached() == Map::<Seq<u8>, Vec<u8>>::empty() && db.stats_view() == DbStats::zero()
                && db.config_view().cache_size == 10000 && db.config_view().enable_metrics,
    {
        Ok(Database { config: DbConfig::default(), cache: AssocList::new(), stats: DbStats::default(), storage: AssocList::new() })
    }

    /// Put a value in the cache: when the cache is full its oldest entry
    /// makes room first.
    fn update_cache(&mut self, key: Vec<u8>, value: Vec<u8>)
        requires
            old(self).cache.wf(),
            old(self).storage.wf(),
            forall|k: Seq<u8>| #[trigger] old(self).cached().contains_key(k) && k != key@ ==> old(self).contents().contains_key(k)
                && old(self).contents()[k]@ == old(self).cached()[k]@,
            old(self).contents().contains_key(key@),
            old(self).contents()[key@]@ == value@,
        ensures
            final(self).inv(),
            final(self).contents() == old(self).contents(),
            final(self).stats_view() == old(self).stats_view(),
            final(self).config_view() == old(self).config_view(),
            final(self).cached().contains_key(key@) && final(self).cached()[key@] == value,
            forall|k: Seq<u8>| #[trigger] final(self).cached().contains_key(k) ==> k == key@ || old(self).cached().contains_key(k),
    {
        let ghost c0 = self.cached();
        if self.cache.len() >= self.config.cache_size && self.cache.entries.len() > 0 {
            let first = self.cache.entries[0].0.key_clone();
            let _ = self.cache.remove(&first);
        }
        let ghost c1 = self.cached();
        let ghost kv = key@;
        let ghost vv = value;
        self.cache.insert(key, value);
        proof {
            assert forall|k: Seq<u8>| #[trigger] self.cached().contains_key(k) implies self.contents().contains_key(k)
                && self.contents()[k]@ == self.cached()[k]@ by {
                if k != kv {
                    assert(c1.contains_key(k));
                    assert(c0.contains_key(k));
                }
            }
            assert forall|k: Seq<u8>| #[trigger] self.cached().contains_key(k) implies k == kv || c0.contains_key(k) by {
                if k != kv {
                    assert(c1.contains_key(k));
                }
            }
        }
    }

    /// Get a value: from the cache when it is there, otherwise from the
    /// store (and then cached)
    pub fn get(&mut self, key: &[u8]) -> (r: DbResult<Option<Vec<u8>>>)
        requires
            old(self).inv(),
        ensures
            final(self).inv(),
            final(self).contents() == old(self).contents(),
            r matches Ok(v) && match v {
                Some(x) => old(self).contents().contains_key(key@) && x@ == old(self).contents()[key@]@,
                None => !old(self).contents().contains_key(key@),
            },
            final(self).stats_view() == old(self).stats_view().after(
                DbOperation::Get,
                old(self).cached().contains_key(key@),
                old(self).config_view().enable_metrics,
            ),
            final(self).config_view() == old(self).config_view(),
    {
        let k = vstd::slice::slice_to_vec(key);
        match self.cache.get(&k) {
            Some(v) => {
                assert(self.cached().contains_key(key@));
                let out = copy_vec(v);
                let ghost m1 = *self;
                self.stats.record(DbOperation::Get, true, self.config.enable_metrics);
                assert forall|x: Seq<u8>| #[trigger] self.cached().contains_key(x) implies self.contents().contains_key(x)
                    && self.contents()[x]@ == self.cached()[x]@ by {
                    assert(m1.cached().contains_key(x));
                }
                return Ok(Some(out));
            },
            None => {},
        }
        match self.storage.get(&k) {
            Some(v) => {
                let out = copy_vec(v);
                let c = copy_vec(v);
                self.update_cache(k, c);
                let ghost m1 = *self;
                self.stats.record(DbOperation::Get, false, self.config.enable_metrics);
                assert forall|x: Seq<u8>| #[trigger] self.cached().contains_key(x) implies self.contents().contains_key(x)
                    && self.contents()[x]@ == self.cached()[x]@ by {
                    assert(m1.cached().contains_key(x));
                }
                Ok(Some(out))
            },
            None => {
                let ghost m1 = *self;
                self.stats.record(DbOperation::Get, false, self.config.enable_metrics);
                assert forall|x: Seq<u8>| #[trigger] self.cached().contains_key(x) implies self.contents().contains_key(x)
                    && self.contents()[x]@ == self.cached()[x]@ by {
                    assert(m1.cached().contains_key(x));
                }
                Ok(None)
            },
        }
    }

    /// Store a value under a key (also in the cache)
    pub fn put(&mut self, key: Vec<u8>, value: Vec<u8>) -> (r: DbResult<()>)
        requires
            old(self).inv(),
        ensures
            final(self).inv(),
            r is Ok,
            bytes_map(final(self).contents()) == bytes_map(old(self).contents()).insert(key@, value@),
            final(self).stats_view() == old(self).stats_view().after(DbOperation::Put, false, old(self).config_view().enable_metrics),
            final(self).config_view() == old(self).config_view(),
    {
        let stored = copy_vec(&value);
        let kc = copy_vec(&key);
        let ghost m0 = *self;
        self.storage.insert(kc, stored);
        assert forall|k: Seq<u8>| #[trigger] self.cached().contains_key(k) && k != key@ implies self.contents().contains_key(k)
            && self.contents()[k]@ == self.cached()[k]@ by {
            assert(m0.cached().contains_key(k));
        }
        self.update_cache(key, value);
        self.stats.record(DbOperation::Put, false, self.config.enable_metrics);
        assert(bytes_map(self.contents()) =~= bytes_map(old(self).contents()).insert(key@, value@));
        Ok(())
    }

    /// Delete a key; tells whether it was stored
    pub fn delete(&mut self, key: &[u8]) -> (r: DbResult<bool>)
        requires
            old(self).inv(),
        ensures
            final(self).inv(),
            r == Ok::<bool, DbError>(old(self).contents().contains_key(key@)),
            final(self).contents() == old(self).contents().remove(key@),
            final(self).stats_view() == old(self).stats_view().after(DbOperation::Delete, false, old(self).config_view().enable_metrics),
            final(self).config_view() == old(self).config_view(),
    {
        let k = vstd::slice::slice_to_vec(key);
        let ghost m0 = *self;
        let _ = self.cache.remove(&k);
        let existed = self.storage.remove(&k).is_some();
        self.stats.record(DbOperation::Delete, false, self.config.enable_metrics);
        assert forall|x: Seq<u8>| #[trigger] self.cached().contains_key(x) implies self.contents().contains_key(x)
            && self.contents()[x]@ == self.cached()[x]@ by {
            assert(m0.cached().contains_key(x));
        }
        Ok(existed)
    }

    /// Whether a key is stored (a read, counted as one)
    pub fn contains(&mut self, key: &[u8]) -> (r: DbResult<bool>)
        requires
            old(self).inv(),
        ensures
            final(self).inv(),
            r == Ok::<bool, DbError>(old(self).contents().contains_key(key@)),
            final(self).contents() == old(self).contents(),
            final(self).config_view() == old(self).config_view(),
    {
        match self.get(key) {
            Ok(v) => Ok(v.is_some()),
            Err(e) => Err(e),
        }
    }

    /// Apply a batch of puts and deletes in order
    pub fn batch(&mut self, ops: Vec<BatchOp>) -> (r: DbResult<()>)
        requires
            old(self).inv(),
        ensures
            final(self).inv(),
            r is Ok,
            bytes_map(final(self).contents()) == bytes_map(batch_result(old(self).contents(), ops@)),
            final(self).config_view() == old(self).config_view(),
    {
        let ghost c0 = self.contents();
        let mut i: usize = 0;
        while i < ops.len()
            invariant
                i <= ops@.len(),
                self.inv(),
                self.config_view() == old(self).config_view(),
                c0 == old(self).contents(),
                bytes_map(self.contents()) == bytes_map(batch_result(c0, ops@.take(i as int))),
            decreases ops@.len() - i,
        {
            proof {
                assert(ops@.take(i + 1).drop_last() =~= ops@.take(i as int));
                assert(ops@.take(i + 1).last() == ops@[i as int]);
            }
            let ghost before = bytes_map(self.contents());
            match &ops[i] {
                BatchOp::Put { key, value } => {
                    let _ = self.put(copy_vec(key), copy_vec(value));
                    assert(bytes_map(batch_result(c0, ops@.take(i + 1))) =~= before.insert(key@, value@));
                },
                BatchOp::Delete { key } => {
                    let _ = self.delete(key.as_slice());
                    assert(bytes_map(self.contents()) =~= before.remove(key@));
                    assert(bytes_map(batch_result(c0, ops@.take(i + 1))) =~= before.remove(key@));
                },
            }
            i = i + 1;
        }
        assert(ops@.take(ops@.len() as int) =~= ops@);
        let ghost m1 = *self;
        self.stats.record(DbOperation::BatchPut, false, self.config.enable_metrics);
        assert forall|x: Seq<u8>| #[trigger] self.cached().contains_key(x) implies self.contents().contains_key(x)
            && self.contents()[x]@ == self.cached()[x]@ by {
            assert(m1.cached().contains_key(x));
        }
        Ok(())
    }

    /// A snapshot of the cached entries, versioned by the clock
    pub fn snapshot(&self) -> (r: DbResult<DatabaseSnapshotImpl>)
        requires
            self.inv(),
        ensures
            r matches Ok(snap) && bytes_map(snap.data.view_map()) == bytes_map(self.cached()),
    {
        let version = VersionId(generate_timestamp());
        let mut data: AssocList<Vec<u8>, Vec<u8>> = AssocList::new();
        let mut i: usize = 0;
        while i < self.cache.entries.len()
            invariant
                i <= self.cache.entries@.len(),
                self.inv(),
                data.wf(),
                bytes_map(data.view_map()) == bytes_map(crate::assoc_list::map_of(self.cache.entries@.take(i as int))),
            decreases self.cache.entries@.len() - i,
        {
            let ghost before = data.view_map();
            let k = copy_vec(&self.cache.entries[i].0);
            let v = copy_vec(&self.cache.entries[i].1);
            data.insert(k, v);
            proof {
                let t = self.cache.entries@.take(i + 1);
                assert(t.drop_last() =~= self.cache.entries@.take(i as int));
                assert(crate::assoc_list::map_of(t) == crate::assoc_list::map_of(t.drop_last()).insert(t.last().0@, t.last().1));
                assert(bytes_map(data.view_map()) =~= bytes_map(before).insert(t.last().0@, t.last().1@));
                assert(bytes_map(crate::assoc_list::map_of(t)) =~= bytes_map(crate::assoc_list::map_of(t.drop_last())).insert(
                    t.last().0@,
                    t.last().1@,
                ));
            }
            i = i + 1;
        }
        assert(self.cache.entries@.take(self.cache.entries@.len() as int) =~= self.cache.entries@);
        Ok(DatabaseSnapshotImpl { data, version })
    }

    /// Current statistics
    pub fn stats(&self) -> (r: DbStats)
        ensures
            r == self.stats_view(),
    {
        self.stats
    }

    /// Flush: nothing is pending in memory
    pub fn flush(&self) -> (r: DbResult<()>)
        ensures
            r is Ok,
    {
        Ok(())
    }

    /// Close the database
    pub fn close(&mut self) -> (r: DbResult<()>)
        ensures
            r is Ok,
            *final(self) == *old(self),
    {
        Ok(())
    }
}

/// A database snapshot: the entries it was taken with, and its version
pub struct DatabaseSnapshotImpl {
    pub data: AssocList<Vec<u8>, Vec<u8>>,
    pub version: VersionId,
}

impl DatabaseSnapshotImpl {
    /// The value a key had in the snapshot
    pub fn get(&self, key: &[u8]) -> (r: DbResult<Option<Vec<u8>>>)
        requires
            self.data.wf(),
        ensures
            r matches Ok(v) && match v {
                Some(x) => self.data.view_map().contains_key(key@) && x@ == self.data.view_map()[key@]@,
                None => !self.data.view_map().contains_key(key@),
            },
    {
        let k = vstd::slice::slice_to_vec(key);
        match self.data.get(&k) {
            Some(v) => Ok(Some(copy_vec(v))),
            None => Ok(None),
        }
    }

    /// Whether a key was in the snapshot
    pub fn contains(&self, key: &[u8]) -> (r: DbResult<bool>)
        requires
            self.data.wf(),
        ensures
            r == Ok::<bool, DbError>(self.data.view_map().contains_key(key@)),
    {
        let k = vstd::slice::slice_to_vec(key);
        Ok(self.data.contains_key(&k))
    }

    /// The snapshot's version
    pub fn version(&self) -> (r: VersionId)
        ensures
            r == self.version,
    {
        self.version
    }
}

/// The node stored in `bytes`: its decoding, or the empty node where the
/// bytes are not a node's encoding.
pub open spec fn stored_node(bytes: Seq<u8>) -> NodeView {
    match parse_node(bytes) {
        Some(v) => v,
        None => NodeView::Empty,
    }
}

/// An empty database, to stand in while the adapter's own is updated.
fn placeholder_db() -> (r: Database)
    ensures
        r.inv(),
{
    Database { config: DbConfig::default(), cache: AssocList::new(), stats: DbStats::default(), storage: AssocList::new() }
}

/// Storage of trie nodes in a database: each node's encoding is kept under
/// `node:` and its identifier in lowercase hexadecimal.
pub struct MptStorageAdapter {
    db: Database,
}

impl MptStorageAdapter {
    #[verifier::type_invariant]
    spec fn wf(self) -> bool {
        self.db.inv()
    }

    /// The database the nodes are kept in.
    pub closed spec fn database(&self) -> Database {
        self.db
    }

    /// An adapter over `db`.
    pub fn new(db: Database) -> (r: Self)
        requires
            db.inv(),
        ensures
            r.database() == db,
    {
        MptStorageAdapter { db }
    }
}

impl NodeStorage for MptStorageAdapter {
    /// The node identifiers (32 bytes) whose keys the database holds, each
    /// with the node its bytes decode to.
    closed spec fn stored(&self) -> Map<Seq<u8>, NodeView> {
        Map::new(
            |id: Seq<u8>| id.len() == 32 && self.db.contents().contains_key(node_key_bytes(id)),
            |id: Seq<u8>| stored_node(self.db.contents()[node_key_bytes(id)]@),
        )
    }

    /// Stored bytes may fail to decode.
    open spec fn infallible(&self) -> bool {
        false
    }

    fn get_node(&self, id: &NodeId) -> (r: TrieResult<Option<Node>>) {
        proof {
            use_type_invariant(self);
        }
        let key = node_key(id);
        match self.db.storage.get(&key) {
            Some(bytes) => match Node::decode(bytes.as_slice()) {
                Ok(n) => Ok(Some(Node { id: *id, node_type: n.node_type })),
                Err(_) => Err(MPTError::StorageError("Serialization error: malformed node encoding".to_string())),
            },
            None => Ok(None),
        }
    }

    fn put_node(&mut self, node: &Node) -> (r: TrieResult<()>) {
        proof {
            use_type_invariant(&*self);
        }
        let key = node_key(&node.id);
        let data = node.encode();
        let ghost c0 = self.db.contents();
        let ghost kv = key@;
        let ghost dv = data@;
        let mut db = placeholder_db();
        std::mem::swap(&mut db, &mut self.db);
        let _ = db.put(key, data);
        self.db = db;
        proof {
            lemma_decode_encoded(node.node_type, Seq::empty());
            assert(node_bytes(node.node_type@) + Seq::<u8>::empty() =~= node_bytes(node.node_type@));
            let c1 = self.db.contents();
            assert(bytes_map(c1) == bytes_map(c0).insert(kv, dv));
            assert forall|id2: Seq<u8>| #![auto] id2.len() == 32 implies (c1.contains_key(node_key_bytes(id2)) == (id2
                == node.id@ || c0.contains_key(node_key_bytes(id2)))) && (c1.contains_key(node_key_bytes(id2)) ==> c1[node_key_bytes(
                id2,
            )]@ == if id2 == node.id@ {
                dv
            } else {
                c0[node_key_bytes(id2)]@
            }) by {
                if node_key_bytes(id2) == kv {
                    lemma_node_key_injective(id2, node.id@);
                }
                assert(bytes_map(c1).contains_key(node_key_bytes(id2)) == c1.contains_key(node_key_bytes(id2)));
                assert(bytes_map(c0).contains_key(node_key_bytes(id2)) == c0.contains_key(node_key_bytes(id2)));
                if c1.contains_key(node_key_bytes(id2)) {
                    assert(bytes_map(c1)[node_key_bytes(id2)] == c1[node_key_bytes(id2)]@);
                    if id2 != node.id@ {
                        assert(bytes_map(c0)[node_key_bytes(id2)] == c0[node_key_bytes(id2)]@);
                    }
                }
            }
            assert(self.stored() =~= old(self).stored().insert(node.id@, node.node_type@));
        }
        Ok(())
    }

    fn delete_node(&mut self, id: &NodeId) -> (r: TrieResult<()>) {
        proof {
            use_type_invariant(&*self);
        }
        let key = node_key(id);
        let ghost c0 = self.db.contents();
        let mut db = placeholder_db();
        std::mem::swap(&mut db, &mut self.db);
        let _ = db.delete(key.as_slice());
        self.db = db;
        proof {
            assert forall|id2: Seq<u8>| id2.len() == 32 && node_key_bytes(id2) == key@ implies id2 == id@ by {
                lemma_node_key_injective(id2, id@);
            }
            assert(self.stored() =~= old(self).stored().remove(id@));
        }
        Ok(())
    }

    fn contains_node(&self, id: &NodeId) -> (r: bool) {
        proof {
            use_type_invariant(self);
        }
        let key = node_key(id);
        self.db.storage.contains_key(&key)
    }
}

/// Create a trie whose nodes are kept in a new in-memory database.
pub fn create_in_memory_mpt() -> (r: DbResult<MerklePatriciaTrie<MptStorageAdapter>>)
    ensures
        r matches Ok(t) && t.root_id() == node_id_of(NodeView::Empty) && !t.reliable(),
{
    let database = match Database::new_in_memory() {
        Ok(db) => db,
        Err(e) => {
            return Err(e);
        },
    };
    Ok(MerklePatriciaTrie::new(MptStorageAdapter::new(database)))
}

} // verus!
