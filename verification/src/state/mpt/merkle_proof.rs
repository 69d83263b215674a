//! Merkle proofs for the Merkle Patricia Trie: the encoded nodes on the path
//! from a root to a key, their verification against the root hash, and their
//! byte encoding.
use vstd::prelude::*;

use crate::state::mpt::codec::{
    bytes_equal, bytes_field, lemma_bytes_roundtrip, lemma_opt_bytes_roundtrip,
    lemma_varint_roundtrip, opt_bytes_bytes, opt_vec_view, parse_bytes, parse_opt_bytes,
    parse_varint, put_bytes, put_opt_bytes, put_raw, put_varint, read_bytes, read_hash,
    read_opt_bytes, read_varint,
};
use crate::state::mpt::lib::{
    Key, MPTError, NodeId, TrieResult, Value, keccak, keccak256, key_to_nibbles, nibbles_of,
};
use crate::state::mpt::node::{Node, NodeType, NodeView, parse_node};
use vstd::slice::{slice_subrange, slice_to_vec};
use crate::state::mpt::trie::{TrieFault, lookup};

verus! {

/// Proof element in a Merkle proof
#[derive(Debug, Clone, PartialEq)]
pub struct ProofElement {
    /// The hash of the node
    pub node_id: NodeId,
    /// The encoded node data
    pub node_data: Vec<u8>,
}

/// State proof for a key-value pair
#[derive(Debug, Clone, PartialEq)]
pub struct StateProof {
    /// The key being proven
    pub key: Key,
    /// The value (if it exists) being proven
    pub value: Option<Value>,
    /// The sequence of nodes in the proof
    pub proof_elements: Vec<ProofElement>,
    /// The root hash of the trie
    pub root_hash: crate::state::mpt::lib::Hash,
}

/// A proof element as plain sequences: the claimed node identifier and the
/// node's bytes.
pub open spec fn element_view(e: ProofElement) -> (Seq<u8>, Seq<u8>) {
    (e.node_id@, e.node_data@)
}

/// The proof elements as plain sequences.
pub open spec fn elements_view(es: Seq<ProofElement>) -> Seq<(Seq<u8>, Seq<u8>)> {
    es.map_values(|e: ProofElement| element_view(e))
}

/// A state proof as plain sequences.
pub struct ProofView {
    pub key: Seq<u8>,
    pub value: Option<Seq<u8>>,
    pub elements: Seq<(Seq<u8>, Seq<u8>)>,
    pub root: Seq<u8>,
}

impl View for StateProof {
    type V = ProofView;

    open spec fn view(&self) -> ProofView {
        ProofView {
            key: self.key@,
            value: opt_vec_view(self.value),
            elements: elements_view(self.proof_elements@),
            root: self.root_hash@,
        }
    }
}

/// Whether `p` is a prefix of `k`.
pub open spec fn is_prefix(p: Seq<u8>, k: Seq<u8>) -> bool {
    p.len() <= k.len() && k.take(p.len() as int) == p
}

/// The outcome of checking elements `i..` of a proof, where `current` is the
/// identifier the next element must carry, `key` the nibbles still to follow
/// and `value` the value the proof claims: `Some(valid)`, or `None` where an
/// element's bytes are not a node.
///
/// Each element must carry the expected identifier, and that identifier must
/// be the digest of its bytes. A leaf ends the walk: valid exactly when its
/// path is the rest of the key and its value is the claimed one. An extension
/// must be a prefix of the rest of the key, which it consumes; its child is
/// expected next. A branch at the end of the key ends the walk when a value is
/// claimed (valid exactly when the branch holds it) and refuses a value that
/// is not claimed; otherwise a branch follows the child at the key's next
/// nibble, which must be present. An empty node refuses a claimed value.
/// Elements that consume nothing leave the expectation unchanged. When the
/// elements run out, the proof is valid exactly when the whole key was
/// followed and no value is claimed.
pub open spec fn walk(
    current: Seq<u8>,
    key: Seq<u8>,
    value: Option<Seq<u8>>,
    elems: Seq<(Seq<u8>, Seq<u8>)>,
    i: int,
) -> Option<bool>
    decreases elems.len() - i,
{
    if i < 0 || i >= elems.len() {
        Some(key.len() == 0 && value is None)
    } else {
        let (id, data) = elems[i];
        if current != id || keccak(data) != id {
            Some(false)
        } else {
            match parse_node(data) {
                None => None,
                Some(NodeView::Empty) => if value is Some {
                    Some(false)
                } else {
                    walk(current, key, value, elems, i + 1)
                },
                Some(NodeView::Leaf { path, value: v, .. }) => Some(path == key && value == Some(v)),
                Some(NodeView::Extension { path, child, .. }) => if !is_prefix(path, key) {
                    Some(false)
                } else {
                    walk(child, key.skip(path.len() as int), value, elems, i + 1)
                },
                Some(NodeView::Branch { children, value: bv }) => if key.len() == 0 {
                    match value {
                        Some(ev) => Some(bv == Some(ev)),
                        None => if bv is Some {
                            Some(false)
                        } else {
                            walk(current, key, value, elems, i + 1)
                        },
                    }
                } else if key[0] >= 16 || children[key[0] as int] is None {
                    Some(false)
                } else {
                    walk(children[key[0] as int]->0, key.skip(1), value, elems, i + 1)
                },
            }
        }
    }
}

/// The outcome of verifying a proof: a proof without elements is invalid;
/// otherwise the walk starts at the root with the whole key's nibbles.
pub open spec fn proof_outcome(p: ProofView) -> Option<bool> {
    if p.elements.len() == 0 {
        Some(false)
    } else {
        walk(p.root, nibbles_of(p.key), p.value, p.elements, 0)
    }
}

/// Elements `i..` of a proof are nodes of `nodes`: each element whose bytes
/// decode is the node stored under its identifier.
pub open spec fn elements_in(nodes: Map<Seq<u8>, NodeView>, elems: Seq<(Seq<u8>, Seq<u8>)>, i: int) -> bool {
    forall|k: int|
        i <= k < elems.len() ==> (parse_node((#[trigger] elems[k]).1) matches Some(v) ==> nodes.contains_key(elems[k].0)
            && nodes[elems[k].0] == v)
}

/// A walk that accepts a claimed value is sound: where the elements are
/// nodes of a trie, looking the key up from `current` in that trie finds
/// the claimed value.
pub proof fn lemma_walk_sound(
    nodes: Map<Seq<u8>, NodeView>,
    current: Seq<u8>,
    key: Seq<u8>,
    value: Option<Seq<u8>>,
    elems: Seq<(Seq<u8>, Seq<u8>)>,
    i: int,
    fuel: nat,
)
    requires
        walk(current, key, value, elems, i) == Some(true),
        value is Some,
        elements_in(nodes, elems, i),
        0 <= i,
        fuel > elems.len() - i,
    ensures
        lookup(nodes, current, key, fuel) == Ok::<Option<Seq<u8>>, TrieFault>(value),
    decreases elems.len() - i,
{
    let (id, data) = elems[i];
    assert(elements_in(nodes, elems, i + 1));
    let v = parse_node(data)->0;
    assert(nodes.contains_key(current) && nodes[current] == v);
    match v {
        NodeView::Extension { path, child, .. } => {
            lemma_walk_sound(nodes, child, key.skip(path.len() as int), value, elems, i + 1, (fuel - 1) as nat);
        },
        NodeView::Branch { children, .. } => {
            if key.len() > 0 {
                lemma_walk_sound(nodes, children[key[0] as int]->0, key.skip(1), value, elems, i + 1, (fuel - 1) as nat);
            }
        },
        _ => {},
    }
}

/// A proof of a value that verifies is sound: where its elements are nodes
/// of a trie, looking its key up from its root in that trie (with more
/// steps than the proof has elements) finds the claimed value.
pub proof fn lemma_proof_sound(p: ProofView, nodes: Map<Seq<u8>, NodeView>, fuel: nat)
    requires
        proof_outcome(p) == Some(true),
        p.value is Some,
        elements_in(nodes, p.elements, 0),
        fuel > p.elements.len(),
    ensures
        lookup(nodes, p.root, nibbles_of(p.key), fuel) == Ok::<Option<Seq<u8>>, TrieFault>(p.value),
{
    lemma_walk_sound(nodes, p.root, nibbles_of(p.key), p.value, p.elements, 0, fuel);
}

/// The bytes of the proof elements, in order: each is its identifier's 32
/// bytes, then its length-prefixed node bytes.
pub open spec fn elements_bytes(es: Seq<(Seq<u8>, Seq<u8>)>) -> Seq<u8>
    decreases es.len(),
{
    if es.len() == 0 {
        Seq::empty()
    } else {
        elements_bytes(es.drop_last()) + es.last().0 + bytes_field(es.last().1)
    }
}

/// The encoding of a proof: the key, the optional value, the number of
/// elements and the elements, then the root hash.
pub open spec fn proof_bytes(p: ProofView) -> Seq<u8> {
    bytes_field(p.key) + opt_bytes_bytes(p.value) + varint_len(p.elements.len()) + elements_bytes(
        p.elements,
    ) + p.root
}

/// The bytes of an element count.
pub open spec fn varint_len(n: nat) -> Seq<u8> {
    crate::state::mpt::codec::varint_bytes(n as u64)
}

/// The first `k` elements at the start of `s`, and the bytes they take.
pub open spec fn parse_elements(s: Seq<u8>, k: nat) -> Option<(Seq<(Seq<u8>, Seq<u8>)>, int)>
    decreases k,
{
    if k == 0 {
        Some((Seq::empty(), 0int))
    } else {
        match parse_elements(s, (k - 1) as nat) {
            Some((es, c)) => if s.len() - c >= 32 {
                match parse_bytes(s.skip(c + 32)) {
                    Some((d, e)) => Some((es.push((s.subrange(c, c + 32), d)), c + 32 + e)),
                    None => None,
                }
            } else {
                None
            },
            None => None,
        }
    }
}

/// The proof at the start of `s`; what follows it is ignored.
pub open spec fn parse_proof(s: Seq<u8>) -> Option<ProofView> {
    match parse_bytes(s) {
        Some((key, c1)) => match parse_opt_bytes(s.skip(c1)) {
            Some((value, c2)) => match parse_varint(s.skip(c1 + c2)) {
                Some((n, c3)) => match parse_elements(s.skip(c1 + c2 + c3), n as nat) {
                    Some((es, c4)) => {
                        let c = c1 + c2 + c3 + c4;
                        if s.len() - c >= 32 {
                            Some(ProofView { key, value, elements: es, root: s.subrange(c, c + 32) })
                        } else {
                            None
                        }
                    },
                    None => None,
                },
                None => None,
            },
            None => None,
        },
        None => None,
    }
}

/// A proof view that some proof value has: 32-byte hashes and lengths that
/// fit in 64 bits.
pub open spec fn proof_encodable(p: ProofView) -> bool {
    &&& p.key.len() <= u64::MAX
    &&& (p.value is Some ==> p.value->0.len() <= u64::MAX)
    &&& p.elements.len() <= u64::MAX
    &&& forall|i: int|
        0 <= i < p.elements.len() ==> (#[trigger] p.elements[i]).0.len() == 32
            && p.elements[i].1.len() <= u64::MAX
    &&& p.root.len() == 32
}

/// Once reading elements fails, reading more of them fails too.
proof fn lemma_elements_fail(s: Seq<u8>, k: nat, m: nat)
    requires
        k <= m,
        parse_elements(s, k) is None,
    ensures
        parse_elements(s, m) is None,
    decreases m - k,
{
    if k < m {
        lemma_elements_fail(s, k, (m - 1) as nat);
    }
}

/// Reading elements back from their encoding, whatever follows them.
proof fn lemma_elements_roundtrip(es: Seq<(Seq<u8>, Seq<u8>)>, rest: Seq<u8>)
    requires
        forall|i: int|
            0 <= i < es.len() ==> (#[trigger] es[i]).0.len() == 32 && es[i].1.len() <= u64::MAX,
    ensures
        parse_elements(elements_bytes(es) + rest, es.len()) == Some(
            (es, elements_bytes(es).len() as int),
        ),
    decreases es.len(),
{
    if es.len() > 0 {
        let init = es.drop_last();
        let (h, d) = es.last();
        assert(es[es.len() - 1] == (h, d));
        let tail = h + bytes_field(d) + rest;
        let s = elements_bytes(es) + rest;
        assert(s =~= elements_bytes(init) + tail);
        assert forall|i: int| 0 <= i < init.len() implies (#[trigger] init[i]).0.len() == 32
            && init[i].1.len() <= u64::MAX by {
            assert(init[i] == es[i]);
        }
        lemma_elements_roundtrip(init, tail);
        let c = elements_bytes(init).len() as int;
        assert(s.subrange(c, c + 32) =~= h);
        lemma_bytes_roundtrip(d, rest);
        assert(s.skip(c + 32) =~= bytes_field(d) + rest);
        assert(init.push((h, d)) =~= es);
    }
}

/// Reading a proof back from its encoding gives the proof, whatever follows.
pub proof fn lemma_proof_roundtrip(p: ProofView, rest: Seq<u8>)
    requires
        proof_encodable(p),
    ensures
        parse_proof(proof_bytes(p) + rest) == Some(p),
{
    let s = proof_bytes(p) + rest;
    let b1 = bytes_field(p.key);
    let b2 = opt_bytes_bytes(p.value);
    let b3 = varint_len(p.elements.len());
    let b4 = elements_bytes(p.elements);
    assert(s =~= b1 + (b2 + b3 + b4 + p.root + rest));
    lemma_bytes_roundtrip(p.key, b2 + b3 + b4 + p.root + rest);
    let c1 = b1.len() as int;
    assert(s.skip(c1) =~= b2 + (b3 + b4 + p.root + rest));
    lemma_opt_bytes_roundtrip(p.value, b3 + b4 + p.root + rest);
    let c2 = b2.len() as int;
    assert(s.skip(c1 + c2) =~= b3 + (b4 + p.root + rest));
    lemma_varint_roundtrip(p.elements.len() as u64, b4 + p.root + rest);
    let c3 = b3.len() as int;
    assert(s.skip(c1 + c2 + c3) =~= b4 + (p.root + rest));
    lemma_elements_roundtrip(p.elements, p.root + rest);
    let c4 = b4.len() as int;
    let c = c1 + c2 + c3 + c4;
    assert(s.subrange(c, c + 32) =~= p.root);
}

/// Whether two hashes are equal.
fn hash_eq(a: &crate::state::mpt::lib::Hash, b: &crate::state::mpt::lib::Hash) -> (r: bool)
    ensures
        r == (a@ == b@),
{
    bytes_equal(a.as_slice(), b.as_slice())
}

impl StateProof {
    /// Create a new state proof
    pub fn new(key: Key, value: Option<Value>, proof_elements: Vec<ProofElement>, root_hash: crate::state::mpt::lib::Hash) -> (r: Self)
        ensures
            r.key == key,
            r.value == value,
            r.proof_elements == proof_elements,
            r.root_hash == root_hash,
    {
        Self { key, value, proof_elements, root_hash }
    }

    /// Verify the proof against its root hash: `Ok` with the outcome of the
    /// walk, or a serialization error where an element's bytes are not a node.
    pub fn verify(&self) -> (r: TrieResult<bool>)
        requires
            2 * self.key@.len() <= usize::MAX,
        ensures
            match proof_outcome(self@) {
                Some(b) => r matches Ok(x) && x == b,
                None => r matches Err(MPTError::SerializationError(_)),
            },
            r matches Ok(true) && self@.value is Some ==> forall|nodes: Map<Seq<u8>, NodeView>, fuel: nat|
                elements_in(nodes, self@.elements, 0) && fuel > self@.elements.len() ==> #[trigger] lookup(
                    nodes,
                    self@.root,
                    nibbles_of(self@.key),
                    fuel,
                ) == Ok::<Option<Seq<u8>>, TrieFault>(self@.value),
    {
        let r = self.verify_walk();
        proof {
            if proof_outcome(self@) == Some(true) && self@.value is Some {
                assert forall|nodes: Map<Seq<u8>, NodeView>, fuel: nat|
                    elements_in(nodes, self@.elements, 0) && fuel > self@.elements.len() implies #[trigger] lookup(
                    nodes,
                    self@.root,
                    nibbles_of(self@.key),
                    fuel,
                ) == Ok::<Option<Seq<u8>>, TrieFault>(self@.value) by {
                    lemma_proof_sound(self@, nodes, fuel);
                }
            }
        }
        r
    }

    /// Walk the proof's elements from the root along the key.
    fn verify_walk(&self) -> (r: TrieResult<bool>)
        requires
            2 * self.key@.len() <= usize::MAX,
        ensures
            match proof_outcome(self@) {
                Some(b) => r matches Ok(x) && x == b,
                None => r matches Err(MPTError::SerializationError(_)),
            },
    {
        if self.proof_elements.len() == 0 {
            return Ok(false);
        }
        let ghost value = opt_vec_view(self.value);
        let ghost elems = elements_view(self.proof_elements@);
        let mut current_hash = self.root_hash;
        let mut key_nibbles = key_to_nibbles(self.key.as_slice());
        let mut i: usize = 0;
        while i < self.proof_elements.len()
            invariant
                i <= self.proof_elements@.len(),
                value == opt_vec_view(self.value),
                elems == elements_view(self.proof_elements@),
                proof_outcome(self@) == walk(current_hash@, key_nibbles@, value, elems, i as int),
            decreases self.proof_elements.len() - i,
        {
            let element = &self.proof_elements[i];
            assert(elems[i as int] == element_view(*element));
            if !hash_eq(&current_hash, &element.node_id) {
                return Ok(false);
            }
            let computed_hash = keccak256(element.node_data.as_slice());
            if !hash_eq(&computed_hash, &element.node_id) {
                return Ok(false);
            }
            let node = match Node::decode(element.node_data.as_slice()) {
                Ok(n) => n,
                Err(e) => {
                    return Err(e);
                },
            };
            match &node.node_type {
                NodeType::Empty => {
                    if self.value.is_some() {
                        return Ok(false);
                    }
                },
                NodeType::Leaf { path, value } => {
                    if !bytes_equal(path.nibbles.as_slice(), key_nibbles.as_slice()) {
                        return Ok(false);
                    }
                    match &self.value {
                        Some(v) => {
                            return Ok(bytes_equal(v.as_slice(), value.as_slice()));
                        },
                        None => {
                            return Ok(false);
                        },
                    }
                },
                NodeType::Extension { path, child } => {
                    let plen = path.nibbles.len();
                    if plen > key_nibbles.len() || !bytes_equal(
                        slice_subrange(key_nibbles.as_slice(), 0, plen),
                        path.nibbles.as_slice(),
                    ) {
                        return Ok(false);
                    }
                    key_nibbles = slice_to_vec(
                        slice_subrange(key_nibbles.as_slice(), plen, key_nibbles.len()),
                    );
                    current_hash = *child;
                },
                NodeType::Branch { children, value } => {
                    if key_nibbles.len() == 0 {
                        match &self.value {
                            Some(expected) => {
                                match value {
                                    Some(v) => {
                                        return Ok(bytes_equal(v.as_slice(), expected.as_slice()));
                                    },
                                    None => {
                                        return Ok(false);
                                    },
                                }
                            },
                            None => {
                                if value.is_some() {
                                    return Ok(false);
                                }
                            },
                        }
                    } else {
                        let nibble = key_nibbles[0] as usize;
                        if nibble >= 16 {
                            return Ok(false);
                        }
                        match children[nibble] {
                            Some(c) => {
                                current_hash = c;
                            },
                            None => {
                                return Ok(false);
                            },
                        }
                        key_nibbles = slice_to_vec(
                            slice_subrange(key_nibbles.as_slice(), 1, key_nibbles.len()),
                        );
                    }
                },
            }
            i = i + 1;
        }
        if key_nibbles.len() != 0 || self.value.is_some() {
            return Ok(false);
        }
        Ok(true)
    }

    /// Encode proof for serialization
    pub fn encode(&self) -> (r: Vec<u8>)
        ensures
            r@ == proof_bytes(self@),
    {
        let mut out: Vec<u8> = Vec::new();
        put_bytes(&mut out, self.key.as_slice());
        put_opt_bytes(&mut out, &self.value);
        put_varint(&mut out, self.proof_elements.len() as u64);
        let ghost es = elements_view(self.proof_elements@);
        let ghost head = out@;
        let mut i: usize = 0;
        while i < self.proof_elements.len()
            invariant
                i <= self.proof_elements@.len(),
                es == elements_view(self.proof_elements@),
                out@ == head + elements_bytes(es.take(i as int)),
            decreases self.proof_elements.len() - i,
        {
            let e = &self.proof_elements[i];
            put_raw(&mut out, e.node_id.as_slice());
            put_bytes(&mut out, e.node_data.as_slice());
            proof {
                assert(es.take(i + 1).drop_last() =~= es.take(i as int));
                assert(es.take(i + 1).last() == element_view(*e));
                assert(out@ =~= head + elements_bytes(es.take(i + 1)));
            }
            i = i + 1;
        }
        assert(es.take(i as int) =~= es);
        put_raw(&mut out, self.root_hash.as_slice());
        assert(out@ =~= proof_bytes(self@));
        out
    }

    /// Read `n` proof elements at `pos`.
    fn decode_elements(data: &[u8], pos: usize, n: u64) -> (r: Option<(Vec<ProofElement>, usize)>)
        requires
            pos <= data@.len(),
        ensures
            match parse_elements(data@.skip(pos as int), n as nat) {
                Some((es, c)) => r matches Some((v, p)) && elements_view(v@) == es && p == pos + c,
                None => r is None,
            },
            r matches Some((_, p)) ==> pos <= p <= data@.len(),
    {
        let ghost s = data@;
        let ghost t = s.skip(pos as int);
        let mut elements: Vec<ProofElement> = Vec::new();
        let mut p = pos;
        let mut i: u64 = 0;
        while i < n
            invariant
                i <= n,
                pos <= p <= data@.len(),
                s == data@,
                t == s.skip(pos as int),
                parse_elements(t, i as nat) == Some((elements_view(elements@), (p - pos) as int)),
            decreases n - i,
        {
            let ghost before = elements_view(elements@);
            let node_id = match read_hash(data, p) {
                Some(h) => h,
                None => {
                    proof {
                        lemma_elements_fail(t, (i + 1) as nat, n as nat);
                    }
                    return None;
                },
            };
            assert(p + 32 <= data.len());
            assert(t.subrange(p - pos, p - pos + 32) =~= s.subrange(p as int, p + 32));
            assert(t.skip(p - pos + 32) =~= s.skip(p + 32));
            let (node_data, q) = match read_bytes(data, p + 32) {
                Some(x) => x,
                None => {
                    proof {
                        lemma_elements_fail(t, (i + 1) as nat, n as nat);
                    }
                    return None;
                },
            };
            let e = ProofElement { node_id, node_data };
            elements.push(e);
            assert(elements_view(elements@) =~= before.push(element_view(e)));
            p = q;
            i = i + 1;
        }
        Some((elements, p))
    }

    /// Decode proof from bytes; what follows the proof is ignored.
    pub fn decode(data: &[u8]) -> (r: TrieResult<Self>)
        ensures
            match parse_proof(data@) {
                Some(v) => r matches Ok(p) && p@ == v,
                None => r matches Err(MPTError::SerializationError(_)),
            },
    {
        let ghost s = data@;
        assert(data@.skip(0) =~= s);
        let (key, p1) = match read_bytes(data, 0) {
            Some(x) => x,
            None => {
                return Err(MPTError::SerializationError("malformed proof key".to_string()));
            },
        };
        let (value, p2) = match read_opt_bytes(data, p1) {
            Some(x) => x,
            None => {
                return Err(MPTError::SerializationError("malformed proof value".to_string()));
            },
        };
        assert(s.skip(p1 as int).skip(p2 - p1) =~= s.skip(p2 as int));
        let (n, p3) = match read_varint(data, p2) {
            Some(x) => x,
            None => {
                return Err(MPTError::SerializationError("malformed element count".to_string()));
            },
        };
        assert(s.skip(p2 as int).skip(p3 - p2) =~= s.skip(p3 as int));
        proof {
            let pv = parse_varint(s.skip(p2 as int));
            assert(pv is Some);
            let (nn, c) = pv->0;
            assert(p2 + c <= data.len());
            assert(nn == n);
        }
        assert(parse_varint(s.skip(p2 as int)) == Some((n, (p3 - p2) as int)));
        assert(parse_opt_bytes(s.skip(p1 as int)) == Some((opt_vec_view(value), (p2 - p1) as int)));
        assert(parse_bytes(s) == Some((key@, p1 as int)));
        let (proof_elements, p4) = match Self::decode_elements(data, p3, n) {
            Some(x) => x,
            None => {
                return Err(MPTError::SerializationError("malformed proof element".to_string()));
            },
        };
        let root_hash = match read_hash(data, p4) {
            Some(h) => h,
            None => {
                return Err(MPTError::SerializationError("missing root hash".to_string()));
            },
        };
        Ok(StateProof { key, value, proof_elements, root_hash })
    }

    /// Get proof size in bytes
    pub fn size(&self) -> (r: usize)
        ensures
            r == proof_bytes(self@).len(),
    {
        self.encode().len()
    }
}

/// Proof builder for constructing state proofs during trie traversal
pub struct ProofBuilder {
    elements: Vec<ProofElement>,
}

impl ProofBuilder {
    /// The elements added so far, as plain sequences.
    pub closed spec fn elements(&self) -> Seq<(Seq<u8>, Seq<u8>)> {
        elements_view(self.elements@)
    }

    /// Create a new proof builder
    pub fn new() -> (r: Self)
        ensures
            r.elements() == Seq::<(Seq<u8>, Seq<u8>)>::empty(),
    {
        let r = Self { elements: Vec::new() };
        assert(r.elements() =~= Seq::<(Seq<u8>, Seq<u8>)>::empty());
        r
    }

    /// Add a node to the proof: its identifier and its encoding.
    pub fn add_node(&mut self, node: &Node)
        ensures
            final(self).elements() == old(self).elements().push(
                (node.id@, crate::state::mpt::node::node_bytes(node.node_type@)),
            ),
    {
        let element = ProofElement { node_id: node.id, node_data: node.encode() };
        self.elements.push(element);
        assert(elements_view(self.elements@) =~= elements_view(old(self).elements@).push(
            element_view(element),
        ));
    }

    /// Build the final proof
    pub fn build(self, key: Key, value: Option<Value>, root_hash: crate::state::mpt::lib::Hash) -> (r: StateProof)
        ensures
            r.key == key,
            r.value == value,
            elements_view(r.proof_elements@) == self.elements(),
            r.root_hash == root_hash,
    {
        StateProof::new(key, value, self.elements, root_hash)
    }

    /// Get current number of elements
    pub fn len(&self) -> (r: usize)
        ensures
            r == self.elements().len(),
    {
        self.elements.len()
    }

    /// Check if builder is empty
    pub fn is_empty(&self) -> (r: bool)
        ensures
            r == (self.elements().len() == 0),
    {
        self.elements.len() == 0
    }
}

impl Default for ProofBuilder {
    fn default() -> (r: Self)
        ensures
            r.elements() == Seq::<(Seq<u8>, Seq<u8>)>::empty(),
    {
        Self::new()
    }
}

} // verus!
