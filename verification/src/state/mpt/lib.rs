//! Core types and utilities of the Merkle Patricia Trie: Keccak-256 hashing,
//! nibble paths and the compact path encoding.
use vstd::prelude::*;

use sha3::{Digest, Keccak256};

verus! {

/// 32-byte hash used throughout the MPT.
pub type Hash = [u8; 32];

/// Key type for the trie.
pub type Key = Vec<u8>;

/// Value type for the trie.
pub type Value = Vec<u8>;

/// Node identifier (hash of the node).
pub type NodeId = Hash;

/// Result type for trie operations.
pub type TrieResult<T> = Result<T, MPTError>;

/// Errors that can occur in MPT operations
#[derive(Debug, Clone, PartialEq)]
pub enum MPTError {
    /// Node with the specified ID was not found in storage
    NodeNotFound(NodeId),
    /// Key was not found in the trie
    KeyNotFound(Key),
    /// Invalid or corrupted proof
    InvalidProof,
    /// Error during serialization/deserialization
    SerializationError(String),
    /// Error during storage operations
    StorageError(String),
    /// Invalid node type encountered
    InvalidNodeType,
    /// Error during path traversal
    PathTraversalError,
}

/// The Keccak-256 digest of a byte sequence.
pub uninterp spec fn keccak(data: Seq<u8>) -> Seq<u8>;

/// `sha3::Keccak256` over `data`: the digest is named by `keccak`.
#[verifier::external_body]
pub fn keccak256(data: &[u8]) -> (r: Hash)
    ensures
        r@ == keccak(data@),
{
    let mut hasher = Keccak256::new();
    hasher.update(data);
    hasher.finalize().into()
}

/// The nibbles of a key: high then low half of each byte.
pub open spec fn nibbles_of(key: Seq<u8>) -> Seq<u8> {
    Seq::new(
        2 * key.len(),
        |i: int|
            if i % 2 == 0 {
                key[i / 2] >> 4
            } else {
                key[i / 2] & 0x0f
            },
    )
}

/// The bytes packed from a nibble sequence, two nibbles per byte; an odd
/// last nibble fills the high half of a last byte.
pub open spec fn key_of_nibbles(n: Seq<u8>) -> Seq<u8> {
    Seq::new(
        (n.len() + 1) / 2,
        |j: int|
            if 2 * j + 1 < n.len() {
                ((n[2 * j] << 4u8) | n[2 * j + 1]) as u8
            } else {
                (n[2 * j] << 4u8) as u8
            },
    )
}

/// Every element is a nibble (below 16).
pub open spec fn valid_nibbles(n: Seq<u8>) -> bool {
    forall|i: int| 0 <= i < n.len() ==> #[trigger] n[i] < 16
}

/// Convert a key to nibbles (4-bit values)
pub fn key_to_nibbles(key: &[u8]) -> (r: Vec<u8>)
    requires
        2 * key@.len() <= usize::MAX,
    ensures
        r@ == nibbles_of(key@),
{
    let mut nibbles: Vec<u8> = Vec::new();
    let mut i: usize = 0;
    while i < key.len()
        invariant
            i <= key@.len(),
            nibbles@ =~= nibbles_of(key@.take(i as int)),
        decreases key@.len() - i,
    {
        let b = key[i];
        nibbles.push(b >> 4);
        nibbles.push(b & 0x0f);
        assert(nibbles@ =~= nibbles_of(key@.take(i + 1)));
        i = i + 1;
    }
    assert(key@.take(key@.len() as int) =~= key@);
    nibbles
}

/// Convert nibbles back to bytes
pub fn nibbles_to_key(nibbles: &[u8]) -> (r: Vec<u8>)
    ensures
        r@ == key_of_nibbles(nibbles@),
{
    let ghost n = nibbles@;
    let mut key: Vec<u8> = Vec::new();
    let nl = nibbles.len();
    assert(nl == n.len());
    let count = nibbles.len() / 2 + nibbles.len() % 2;
    assert(count == (n.len() + 1) / 2);
    let mut j: usize = 0;
    while j < count
        invariant
            count == (n.len() + 1) / 2,
            n.len() <= usize::MAX,
            n == nibbles@,
            j <= (n.len() + 1) / 2,
            key@.len() == j,
            forall|k: int| 0 <= k < j ==> #[trigger] key@[k] == key_of_nibbles(n)[k],
        decreases (n.len() + 1) / 2 - j,
    {
        if 2 * j + 1 < nibbles.len() {
            key.push((nibbles[2 * j] << 4u8) | nibbles[2 * j + 1]);
        } else {
            key.push(nibbles[2 * j] << 4u8);
        }
        j = j + 1;
    }
    assert(key@ =~= key_of_nibbles(n));
    key
}

/// The length of the longest common prefix of two sequences.
pub open spec fn common_len(a: Seq<u8>, b: Seq<u8>) -> nat
    decreases a.len(),
{
    if a.len() == 0 || b.len() == 0 || a[0] != b[0] {
        0
    } else {
        1 + common_len(a.skip(1), b.skip(1))
    }
}

/// The common prefix is no longer than either sequence.
pub proof fn lemma_common_len_bound(a: Seq<u8>, b: Seq<u8>)
    ensures
        common_len(a, b) <= a.len(),
        common_len(a, b) <= b.len(),
        forall|i: int| 0 <= i < common_len(a, b) ==> a[i] == b[i],
        common_len(a, b) < a.len() && common_len(a, b) < b.len() ==> a[common_len(a, b) as int]
            != b[common_len(a, b) as int],
    decreases a.len(),
{
    if !(a.len() == 0 || b.len() == 0 || a[0] != b[0]) {
        lemma_common_len_bound(a.skip(1), b.skip(1));
        let c = common_len(a, b);
        assert forall|i: int| 0 <= i < c implies a[i] == b[i] by {
            if i > 0 {
                assert(a.skip(1)[i - 1] == b.skip(1)[i - 1]);
            }
        }
    }
}

/// A length at which two sequences agree before and differ (or one ends) is
/// their common prefix length.
proof fn lemma_common_len(a: Seq<u8>, b: Seq<u8>, r: nat)
    requires
        r <= a.len(),
        r <= b.len(),
        forall|i: int| 0 <= i < r ==> a[i] == b[i],
        r < a.len() && r < b.len() ==> a[r as int] != b[r as int],
    ensures
        common_len(a, b) == r,
    decreases r,
{
    if r > 0 {
        assert(a[0] == b[0]);
        assert forall|i: int| 0 <= i < r - 1 implies a.skip(1)[i] == b.skip(1)[i] by {
            assert(a[i + 1] == b[i + 1]);
        }
        lemma_common_len(a.skip(1), b.skip(1), (r - 1) as nat);
    }
}

/// Find common prefix between two nibble slices: its length
pub fn common_prefix(a: &[u8], b: &[u8]) -> (r: usize)
    ensures
        r == common_len(a@, b@),
        r <= a@.len(),
        r <= b@.len(),
        forall|i: int| 0 <= i < r ==> a@[i] == b@[i],
        r < a@.len() && r < b@.len() ==> a@[r as int] != b@[r as int],
{
    let mut i: usize = 0;
    while i < a.len() && i < b.len() && a[i] == b[i]
        invariant
            i <= a@.len(),
            i <= b@.len(),
            forall|k: int| 0 <= k < i ==> a@[k] == b@[k],
        decreases a@.len() - i,
    {
        i = i + 1;
    }
    proof {
        lemma_common_len(a@, b@, i as nat);
    }
    i
}

/// Unpacking the nibbles of a key gives the key back.
pub proof fn lemma_nibbles_roundtrip(key: Seq<u8>)
    ensures
        key_of_nibbles(nibbles_of(key)) == key,
        valid_nibbles(nibbles_of(key)),
{
    let n = nibbles_of(key);
    assert forall|j: int| 0 <= j < key.len() implies #[trigger] key_of_nibbles(n)[j] == key[j] by {
        let b = key[j];
        assert(n[2 * j] == b >> 4);
        assert(n[2 * j + 1] == b & 0x0f);
        assert(((b >> 4) << 4u8) | (b & 0x0f) == b) by (bit_vector);
    }
    assert forall|i: int| 0 <= i < n.len() implies #[trigger] n[i] < 16 by {
        let b = key[i / 2];
        assert(b >> 4 < 16) by (bit_vector);
        assert(b & 0x0f < 16) by (bit_vector);
    }
    assert(key_of_nibbles(n) =~= key);
}

/// Compact encoding for path compression in the trie
#[derive(Debug, Clone, PartialEq)]
pub struct CompactPath {
    /// The nibbles representing the path
    pub nibbles: Vec<u8>,
    /// Whether this path leads to a leaf node
    pub is_leaf: bool,
}

/// Pairs of nibbles packed into bytes (a trailing single nibble is dropped).
pub open spec fn pack_pairs(m: Seq<u8>) -> Seq<u8> {
    Seq::new(m.len() / 2, |j: int| ((m[2 * j] << 4u8) | m[2 * j + 1]) as u8)
}

/// The leaf flag bit of the first byte.
pub open spec fn leaf_flag(is_leaf: bool) -> u8 {
    if is_leaf {
        0x20
    } else {
        0x00
    }
}

/// The compact encoding of a path: a flag byte (leaf bit, odd-length bit
/// and, for odd lengths, the first nibble), then the remaining nibbles in pairs.
pub open spec fn compact_encode(n: Seq<u8>, is_leaf: bool) -> Seq<u8> {
    if n.len() == 0 {
        seq![leaf_flag(is_leaf)]
    } else if n.len() % 2 == 1 {
        seq![(leaf_flag(is_leaf) | 0x10u8 | n[0]) as u8] + pack_pairs(n.skip(1))
    } else {
        seq![leaf_flag(is_leaf)] + pack_pairs(n)
    }
}

/// The path a compact encoding decodes to: the leaf and odd-length bits of
/// the flag byte, the flag's low nibble for odd lengths, then the nibbles of
/// the remaining bytes.
pub open spec fn compact_decode(data: Seq<u8>) -> (Seq<u8>, bool) {
    if data.len() == 0 {
        (Seq::empty(), false)
    } else {
        let flags = data[0];
        let head = if flags & 0x10u8 != 0 {
            seq![flags & 0x0fu8]
        } else {
            Seq::empty()
        };
        (head + nibbles_of(data.skip(1)), flags & 0x20u8 != 0)
    }
}

impl CompactPath {
    /// Create a new compact path
    pub fn new(nibbles: Vec<u8>, is_leaf: bool) -> (r: Self)
        ensures
            r.nibbles@ == nibbles@,
            r.is_leaf == is_leaf,
    {
        Self { nibbles, is_leaf }
    }

    /// Encode the path into a compact byte representation
    pub fn encode(&self) -> (r: Vec<u8>)
        ensures
            r@ == compact_encode(self.nibbles@, self.is_leaf),
    {
        let n = &self.nibbles;
        let flag: u8 = if self.is_leaf {
            0x20
        } else {
            0x00
        };
        if n.len() == 0 {
            let mut r: Vec<u8> = Vec::new();
            r.push(flag);
            assert(r@ =~= seq![leaf_flag(self.is_leaf)]);
            return r;
        }
        let odd = n.len() % 2 == 1;
        let start: usize = if odd {
            1
        } else {
            0
        };
        let mut encoded: Vec<u8> = Vec::new();
        if odd {
            encoded.push(flag | 0x10u8 | n[0]);
        } else {
            encoded.push(flag);
        }
        let ghost m = n@.skip(start as int);
        let ghost first = if odd {
            (leaf_flag(self.is_leaf) | 0x10u8 | n@[0]) as u8
        } else {
            leaf_flag(self.is_leaf)
        };
        assert(encoded@[0] == first);
        let pairs = (n.len() - start) / 2;
        let nl = n.len();
        assert(nl == n@.len());
        let mut j: usize = 0;
        while j < pairs
            invariant
                start <= 1,
                odd ==> start == 1,
                !odd ==> start == 0,
                n@.len() >= start,
                n@.len() <= usize::MAX,
                m == n@.skip(start as int),
                pairs == m.len() / 2,
                j <= pairs,
                encoded@.len() == 1 + j,
                encoded@[0] == first,
                forall|k: int| 0 <= k < j ==> #[trigger] encoded@[1 + k] == pack_pairs(m)[k],
            decreases pairs - j,
        {
            assert(m[2 * j as int] == n@[start + 2 * j]);
            assert(m[2 * j + 1] == n@[start + 2 * j + 1]);
            encoded.push((n[start + 2 * j] << 4u8) | n[start + 2 * j + 1]);
            j = j + 1;
        }
        assert forall|i: int| 1 <= i < encoded@.len() implies encoded@[i] == pack_pairs(m)[i - 1] by {
            assert(encoded@[1 + (i - 1)] == pack_pairs(m)[i - 1]);
        }
        assert(encoded@ =~= seq![first] + pack_pairs(m));
        encoded
    }

    /// Decode a compact byte representation into a path
    pub fn decode(data: &[u8]) -> (r: TrieResult<Self>)
        requires
            2 * data@.len() <= usize::MAX,
        ensures
            r is Ok,
            (r->Ok_0.nibbles@, r->Ok_0.is_leaf) == compact_decode(data@),
    {
        if data.len() == 0 {
            return Ok(CompactPath::new(Vec::new(), false));
        }
        let flags = data[0];
        let is_leaf = (flags & 0x20u8) != 0;
        let odd_len = (flags & 0x10u8) != 0;
        let mut nibbles: Vec<u8> = Vec::new();
        if odd_len {
            nibbles.push(flags & 0x0fu8);
        }
        let ghost head = nibbles@;
        let ghost rest = data@.skip(1);
        let mut i: usize = 1;
        while i < data.len()
            invariant
                1 <= i <= data@.len(),
                rest == data@.skip(1),
                nibbles@ =~= head + nibbles_of(rest.take(i - 1)),
            decreases data@.len() - i,
        {
            let b = data[i];
            assert(rest[i - 1] == b);
            nibbles.push(b >> 4);
            nibbles.push(b & 0x0f);
            assert(nibbles@ =~= head + nibbles_of(rest.take(i as int)));
            i = i + 1;
        }
        assert(rest.take(rest.len() as int) =~= rest);
        Ok(CompactPath::new(nibbles, is_leaf))
    }
}

/// Decoding the compact encoding of a path of nibbles gives the path back.
pub proof fn lemma_compact_roundtrip(n: Seq<u8>, is_leaf: bool)
    requires
        valid_nibbles(n),
    ensures
        compact_decode(compact_encode(n, is_leaf)) == (n, is_leaf),
{
    let e = compact_encode(n, is_leaf);
    let lf = leaf_flag(is_leaf);
    assert(lf == 0x20u8 || lf == 0u8);
    if n.len() == 0 {
        assert(lf & 0x10u8 == 0) by (bit_vector)
            requires
                lf == 0x20u8 || lf == 0u8,
        ;
        assert((lf & 0x20u8 != 0) == is_leaf) by (bit_vector)
            requires
                lf == 0x20u8 || lf == 0u8,
                is_leaf == (lf == 0x20u8),
        ;
        assert(nibbles_of(e.skip(1)) =~= Seq::<u8>::empty());
        assert(Seq::<u8>::empty() + Seq::<u8>::empty() =~= n);
    } else {
        let odd = n.len() % 2 == 1;
        let m = if odd {
            n.skip(1)
        } else {
            n
        };
        let p = pack_pairs(m);
        assert(e.skip(1) =~= p);
        assert forall|i: int| 0 <= i < m.len() implies #[trigger] nibbles_of(p)[i] == m[i] by {
            let j = i / 2;
            let x = m[2 * j];
            let y = m[2 * j + 1];
            assert(x < 16 && y < 16);
            assert((((x << 4u8) | y) as u8) >> 4 == x) by (bit_vector)
                requires
                    x < 16,
                    y < 16,
            ;
            assert((((x << 4u8) | y) as u8) & 0x0f == y) by (bit_vector)
                requires
                    x < 16,
                    y < 16,
            ;
        }
        assert(nibbles_of(p) =~= m);
        let f = e[0];
        if odd {
            let x = n[0];
            assert(x < 16);
            assert(f == (lf | 0x10u8 | x) as u8);
            assert(f & 0x10u8 != 0) by (bit_vector)
                requires
                    f == (lf | 0x10u8 | x) as u8,
            ;
            assert(f & 0x0fu8 == x) by (bit_vector)
                requires
                    f == (lf | 0x10u8 | x) as u8,
                    x < 16,
                    lf == 0x20u8 || lf == 0u8,
            ;
            assert((f & 0x20u8 != 0) == is_leaf) by (bit_vector)
                requires
                    f == (lf | 0x10u8 | x) as u8,
                    x < 16,
                    lf == 0x20u8 || lf == 0u8,
                    is_leaf == (lf == 0x20u8),
            ;
            assert(seq![x] + m =~= n);
        } else {
            assert(f == lf);
            assert(f & 0x10u8 == 0) by (bit_vector)
                requires
                    f == lf,
                    lf == 0x20u8 || lf == 0u8,
            ;
            assert((f & 0x20u8 != 0) == is_leaf) by (bit_vector)
                requires
                    f == lf,
                    lf == 0x20u8 || lf == 0u8,
                    is_leaf == (lf == 0x20u8),
            ;
            assert(Seq::<u8>::empty() + m =~= n);
        }
    }
}

} // verus!
