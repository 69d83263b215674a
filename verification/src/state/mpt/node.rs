//! Nodes of the Merkle Patricia Trie: empty, leaf, extension and branch
//! nodes, their byte encoding, and node identifiers (the Keccak-256 digest of
//! the encoding).
use vstd::prelude::*;

use crate::state::mpt::codec::{
    at, bool_byte, bytes_field, lemma_bytes_roundtrip, lemma_opt_bytes_roundtrip,
    lemma_opt_hash_roundtrip, lemma_varint_roundtrip, opt_bytes_bytes, opt_hash_bytes, opt_vec_view,
    opt_view, parse_bool, parse_bytes, parse_opt_bytes, parse_opt_hash, parse_varint_u32, put_bytes,
    put_opt_bytes, put_opt_hash, put_raw, put_varint, read_bool, read_bytes, read_hash,
    read_opt_bytes, read_opt_hash, read_varint_u32,
};
use crate::state::mpt::lib::{CompactPath, MPTError, NodeId, TrieResult, Value, keccak, keccak256};

verus! {

/// Types of nodes in the MPT
#[derive(Debug, Clone, PartialEq)]
pub enum NodeType {
    /// Leaf node: contains a key-value pair
    Leaf { path: CompactPath, value: Value },
    /// Extension node: path compression for single-child branches
    Extension { path: CompactPath, child: NodeId },
    /// Branch node: up to 16 children (for each nibble)
    Branch { children: [Option<NodeId>; 16], value: Option<Value> },
    /// Empty node
    Empty,
}

/// A node's content as plain sequences.
pub enum NodeView {
    Leaf { path: Seq<u8>, leaf: bool, value: Seq<u8> },
    Extension { path: Seq<u8>, leaf: bool, child: Seq<u8> },
    Branch { children: Seq<Option<Seq<u8>>>, value: Option<Seq<u8>> },
    Empty,
}

impl View for NodeType {
    type V = NodeView;

    open spec fn view(&self) -> NodeView {
        match *self {
            NodeType::Leaf { path, value } => NodeView::Leaf {
                path: path.nibbles@,
                leaf: path.is_leaf,
                value: value@,
            },
            NodeType::Extension { path, child } => NodeView::Extension {
                path: path.nibbles@,
                leaf: path.is_leaf,
                child: child@,
            },
            NodeType::Branch { children, value } => NodeView::Branch {
                children: children_view(children),
                value: opt_vec_view(value),
            },
            NodeType::Empty => NodeView::Empty,
        }
    }
}

/// The children of a branch as optional byte sequences.
pub open spec fn children_view(children: [Option<NodeId>; 16]) -> Seq<Option<Seq<u8>>> {
    children@.map_values(|c: Option<NodeId>| opt_view(c))
}

/// The bytes of a branch's children, in order.
pub open spec fn children_bytes(cs: Seq<Option<Seq<u8>>>) -> Seq<u8>
    decreases cs.len(),
{
    if cs.len() == 0 {
        Seq::empty()
    } else {
        children_bytes(cs.drop_last()) + opt_hash_bytes(cs.last())
    }
}

/// The encoding of a node: a variant tag (leaf 0, extension 1, branch 2,
/// empty 3), then the variant's fields in order.
pub open spec fn node_bytes(v: NodeView) -> Seq<u8> {
    match v {
        NodeView::Leaf { path, leaf, value } => seq![0u8] + bytes_field(path) + seq![
            bool_byte(leaf),
        ] + bytes_field(value),
        NodeView::Extension { path, leaf, child } => seq![1u8] + bytes_field(path) + seq![
            bool_byte(leaf),
        ] + child,
        NodeView::Branch { children, value } => seq![2u8] + children_bytes(children)
            + opt_bytes_bytes(value),
        NodeView::Empty => seq![3u8],
    }
}

/// The first `k` children at the start of `s`, and the bytes they take.
pub open spec fn parse_children(s: Seq<u8>, k: nat) -> Option<(Seq<Option<Seq<u8>>>, int)>
    decreases k,
{
    if k == 0 {
        Some((Seq::empty(), 0int))
    } else {
        match parse_children(s, (k - 1) as nat) {
            Some((cs, c)) => match parse_opt_hash(s.skip(c)) {
                Some((o, d)) => Some((cs.push(o), c + d)),
                None => None,
            },
            None => None,
        }
    }
}

/// A path (length-prefixed nibbles, then the leaf flag) at the start of `s`,
/// and the bytes it takes.
pub open spec fn parse_path(s: Seq<u8>) -> Option<(Seq<u8>, bool, int)> {
    match parse_bytes(s) {
        Some((p, c)) => match parse_bool(s.skip(c)) {
            Some(l) => Some((p, l, c + 1)),
            None => None,
        },
        None => None,
    }
}

/// A leaf's fields at the start of `t`.
pub open spec fn parse_leaf(t: Seq<u8>) -> Option<NodeView> {
    match parse_path(t) {
        Some((p, l, d)) => match parse_bytes(t.skip(d)) {
            Some((v, _)) => Some(NodeView::Leaf { path: p, leaf: l, value: v }),
            None => None,
        },
        None => None,
    }
}

/// An extension's fields at the start of `t`.
pub open spec fn parse_extension(t: Seq<u8>) -> Option<NodeView> {
    match parse_path(t) {
        Some((p, l, d)) => if t.len() - d >= 32 {
            Some(NodeView::Extension { path: p, leaf: l, child: t.subrange(d, d + 32) })
        } else {
            None
        },
        None => None,
    }
}

/// A branch's fields at the start of `t`.
pub open spec fn parse_branch(t: Seq<u8>) -> Option<NodeView> {
    match parse_children(t, 16) {
        Some((cs, d)) => match parse_opt_bytes(t.skip(d)) {
            Some((v, _)) => Some(NodeView::Branch { children: cs, value: v }),
            None => None,
        },
        None => None,
    }
}

/// The node at the start of `s`; what follows it is ignored.
pub open spec fn parse_node(s: Seq<u8>) -> Option<NodeView> {
    match parse_varint_u32(s) {
        Some((tag, c)) => if tag == 0 {
            parse_leaf(s.skip(c))
        } else if tag == 1 {
            parse_extension(s.skip(c))
        } else if tag == 2 {
            parse_branch(s.skip(c))
        } else if tag == 3 {
            Some(NodeView::Empty)
        } else {
            None
        },
        None => None,
    }
}

/// A node view that some node value has: 16 children of 32 bytes each, and
/// lengths that fit in 64 bits.
pub open spec fn encodable(v: NodeView) -> bool {
    match v {
        NodeView::Leaf { path, leaf, value } => path.len() <= u64::MAX && value.len() <= u64::MAX,
        NodeView::Extension { path, leaf, child } => path.len() <= u64::MAX && child.len() == 32,
        NodeView::Branch { children, value } => children.len() == 16 && (forall|i: int|
            0 <= i < 16 ==> (#[trigger] children[i] is Some ==> children[i]->0.len() == 32)) && (
        value is Some ==> value->0.len() <= u64::MAX),
        NodeView::Empty => true,
    }
}

/// The value held by a node view: a leaf's value, or a branch's optional value.
pub open spec fn value_of(v: NodeView) -> Option<Seq<u8>> {
    match v {
        NodeView::Leaf { value, .. } => Some(value),
        NodeView::Branch { value, .. } => value,
        _ => None,
    }
}

/// How many children of a branch are present.
pub open spec fn present_children(cs: Seq<Option<Seq<u8>>>) -> nat
    decreases cs.len(),
{
    if cs.len() == 0 {
        0
    } else {
        present_children(cs.drop_last()) + if cs.last() is Some {
            1nat
        } else {
            0nat
        }
    }
}

/// The payload size of a node view: path and value bytes, 32 bytes per child
/// hash.
pub open spec fn size_of(v: NodeView) -> int {
    match v {
        NodeView::Empty => 0,
        NodeView::Leaf { path, value, .. } => (path.len() + value.len()) as int,
        NodeView::Extension { path, child, .. } => (path.len() + child.len()) as int,
        NodeView::Branch { children, value } => (32 * present_children(children)) as int + match value {
            Some(b) => b.len() as int,
            None => 0,
        },
    }
}

/// Once reading children fails, reading more of them fails too.
proof fn lemma_children_fail(s: Seq<u8>, k: nat, m: nat)
    requires
        k <= m,
        parse_children(s, k) is None,
    ensures
        parse_children(s, m) is None,
    decreases m - k,
{
    if k < m {
        lemma_children_fail(s, k, (m - 1) as nat);
    }
}

/// Reading the first children back from their encoding, whatever follows.
proof fn lemma_children_roundtrip(cs: Seq<Option<Seq<u8>>>, rest: Seq<u8>)
    requires
        forall|i: int| 0 <= i < cs.len() ==> (#[trigger] cs[i] is Some ==> cs[i]->0.len() == 32),
    ensures
        parse_children(children_bytes(cs) + rest, cs.len()) == Some(
            (cs, children_bytes(cs).len() as int),
        ),
    decreases cs.len(),
{
    if cs.len() > 0 {
        let init = cs.drop_last();
        let last = cs.last();
        let s = children_bytes(cs) + rest;
        assert(s =~= children_bytes(init) + (opt_hash_bytes(last) + rest));
        assert forall|i: int| 0 <= i < init.len() implies (#[trigger] init[i] is Some
            ==> init[i]->0.len() == 32) by {
            assert(init[i] == cs[i]);
        }
        lemma_children_roundtrip(init, opt_hash_bytes(last) + rest);
        assert(cs[cs.len() - 1] == last);
        lemma_opt_hash_roundtrip(last, rest);
        assert(s.skip(children_bytes(init).len() as int) =~= opt_hash_bytes(last) + rest);
        assert(init.push(last) =~= cs);
    }
}

proof fn lemma_leaf_roundtrip(path: Seq<u8>, leaf: bool, value: Seq<u8>, rest: Seq<u8>)
    requires
        path.len() <= u64::MAX,
        value.len() <= u64::MAX,
    ensures
        parse_leaf(bytes_field(path) + seq![bool_byte(leaf)] + bytes_field(value) + rest) == Some(
            NodeView::Leaf { path, leaf, value },
        ),
{
    let t = bytes_field(path) + seq![bool_byte(leaf)] + bytes_field(value) + rest;
    lemma_bytes_roundtrip(path, seq![bool_byte(leaf)] + bytes_field(value) + rest);
    assert(t =~= bytes_field(path) + (seq![bool_byte(leaf)] + bytes_field(value) + rest));
    let d = bytes_field(path).len() as int;
    assert(t.skip(d) =~= seq![bool_byte(leaf)] + bytes_field(value) + rest);
    lemma_bytes_roundtrip(value, rest);
    assert(t.skip(d + 1) =~= bytes_field(value) + rest);
}

proof fn lemma_extension_roundtrip(path: Seq<u8>, leaf: bool, child: Seq<u8>, rest: Seq<u8>)
    requires
        path.len() <= u64::MAX,
        child.len() == 32,
    ensures
        parse_extension(bytes_field(path) + seq![bool_byte(leaf)] + child + rest) == Some(
            NodeView::Extension { path, leaf, child },
        ),
{
    let t = bytes_field(path) + seq![bool_byte(leaf)] + child + rest;
    lemma_bytes_roundtrip(path, seq![bool_byte(leaf)] + child + rest);
    assert(t =~= bytes_field(path) + (seq![bool_byte(leaf)] + child + rest));
    let d = bytes_field(path).len() as int;
    assert(t.skip(d) =~= seq![bool_byte(leaf)] + child + rest);
    assert(t.subrange(d + 1, d + 1 + 32) =~= child);
}

proof fn lemma_branch_roundtrip(children: Seq<Option<Seq<u8>>>, value: Option<Seq<u8>>, rest: Seq<u8>)
    requires
        encodable(NodeView::Branch { children, value }),
    ensures
        parse_branch(children_bytes(children) + opt_bytes_bytes(value) + rest) == Some(
            NodeView::Branch { children, value },
        ),
{
    let t = children_bytes(children) + opt_bytes_bytes(value) + rest;
    assert(t =~= children_bytes(children) + (opt_bytes_bytes(value) + rest));
    lemma_children_roundtrip(children, opt_bytes_bytes(value) + rest);
    let d = children_bytes(children).len() as int;
    assert(t.skip(d) =~= opt_bytes_bytes(value) + rest);
    lemma_opt_bytes_roundtrip(value, rest);
}

/// Reading a node back from its encoding gives the node, whatever follows.
pub proof fn lemma_node_roundtrip(v: NodeView, rest: Seq<u8>)
    requires
        encodable(v),
    ensures
        parse_node(node_bytes(v) + rest) == Some(v),
{
    let s = node_bytes(v) + rest;
    match v {
        NodeView::Leaf { path, leaf, value } => {
            let t = bytes_field(path) + seq![bool_byte(leaf)] + bytes_field(value) + rest;
            lemma_varint_roundtrip(0, t);
            assert(s =~= seq![0u8] + t);
            assert(s.skip(1) =~= t);
            lemma_leaf_roundtrip(path, leaf, value, rest);
        },
        NodeView::Extension { path, leaf, child } => {
            let t = bytes_field(path) + seq![bool_byte(leaf)] + child + rest;
            lemma_varint_roundtrip(1, t);
            assert(s =~= seq![1u8] + t);
            assert(s.skip(1) =~= t);
            lemma_extension_roundtrip(path, leaf, child, rest);
        },
        NodeView::Branch { children, value } => {
            let t = children_bytes(children) + opt_bytes_bytes(value) + rest;
            lemma_varint_roundtrip(2, t);
            assert(s =~= seq![2u8] + t);
            assert(s.skip(1) =~= t);
            lemma_branch_roundtrip(children, value, rest);
        },
        NodeView::Empty => {
            lemma_varint_roundtrip(3, rest);
        },
    }
}

/// Every node content can be encoded: children are 32-byte hashes, and
/// lengths of vectors fit in 64 bits.
pub proof fn lemma_node_type_encodable(nt: NodeType)
    ensures
        encodable(nt@),
{
    match nt {
        NodeType::Leaf { path, value } => {
            assert(path.nibbles.len() == path.nibbles@.len());
            assert(value.len() == value@.len());
        },
        NodeType::Extension { path, child } => {
            assert(path.nibbles.len() == path.nibbles@.len());
        },
        NodeType::Branch { children, value } => {
            if let Some(v) = value {
                assert(v.len() == v@.len());
            }
        },
        NodeType::Empty => {},
    }
    if let NodeType::Branch { children, value } = nt {
        let cs = children_view(children);
        assert forall|i: int| 0 <= i < 16 implies (#[trigger] cs[i] is Some ==> cs[i]->0.len()
            == 32) by {
            if let Some(h) = children[i] {
                assert(cs[i] == Some(h@));
            }
        }
    }
}

/// Decoding the encoding of a node gives back its content, whatever bytes
/// follow the encoding.
pub proof fn lemma_decode_encoded(nt: NodeType, rest: Seq<u8>)
    ensures
        parse_node(node_bytes(nt@) + rest) == Some(nt@),
{
    lemma_node_type_encodable(nt);
    lemma_node_roundtrip(nt@, rest);
}

/// Node in the MPT
#[derive(Debug, Clone, PartialEq)]
pub struct Node {
    /// Unique identifier (hash) of the node
    pub id: NodeId,
    /// Type-specific data of the node
    pub node_type: NodeType,
}

/// The identifier of a node with this content: the digest of its encoding.
pub open spec fn node_id_of(v: NodeView) -> Seq<u8> {
    keccak(node_bytes(v))
}

/// A copy of an optional value.
fn copy_opt_value(o: &Option<Value>) -> (r: Option<Value>)
    ensures
        opt_vec_view(r) == opt_vec_view(*o),
{
    match o {
        Some(v) => {
            let c = v.clone();
            assert(c@ =~= v@);
            Some(c)
        },
        None => None,
    }
}

impl Node {
    /// Whether the identifier is the digest of the node's encoding.
    pub open spec fn wf(&self) -> bool {
        self.id@ == node_id_of(self.node_type@)
    }

    /// Create a new empty node
    pub fn new_empty() -> (r: Self)
        ensures
            r.node_type@ == NodeView::Empty,
            r.wf(),
    {
        let node_type = NodeType::Empty;
        let id = Self::calculate_id(&node_type);
        Self { id, node_type }
    }

    /// Create a new leaf node
    pub fn new_leaf(path: CompactPath, value: Value) -> (r: Self)
        ensures
            r.node_type@ == (NodeView::Leaf {
                path: path.nibbles@,
                leaf: path.is_leaf,
                value: value@,
            }),
            r.wf(),
    {
        let node_type = NodeType::Leaf { path, value };
        let id = Self::calculate_id(&node_type);
        Self { id, node_type }
    }

    /// Create a new extension node
    pub fn new_extension(path: CompactPath, child: NodeId) -> (r: Self)
        ensures
            r.node_type@ == (NodeView::Extension {
                path: path.nibbles@,
                leaf: path.is_leaf,
                child: child@,
            }),
            r.wf(),
    {
        let node_type = NodeType::Extension { path, child };
        let id = Self::calculate_id(&node_type);
        Self { id, node_type }
    }

    /// Create a new branch node
    pub fn new_branch(children: [Option<NodeId>; 16], value: Option<Value>) -> (r: Self)
        ensures
            r.node_type@ == (NodeView::Branch {
                children: children_view(children),
                value: opt_vec_view(value),
            }),
            r.wf(),
    {
        let node_type = NodeType::Branch { children, value };
        let id = Self::calculate_id(&node_type);
        Self { id, node_type }
    }

    /// Calculate node ID based on its content
    fn calculate_id(node_type: &NodeType) -> (r: NodeId)
        ensures
            r@ == node_id_of(node_type@),
    {
        let encoded = Self::encode_node_type(node_type);
        keccak256(encoded.as_slice())
    }

    /// Encode node for hashing and storage
    pub fn encode(&self) -> (r: Vec<u8>)
        ensures
            r@ == node_bytes(self.node_type@),
    {
        Self::encode_node_type(&self.node_type)
    }

    /// Encode node type for hashing and storage
    fn encode_node_type(node_type: &NodeType) -> (r: Vec<u8>)
        ensures
            r@ == node_bytes(node_type@),
    {
        let mut out: Vec<u8> = Vec::new();
        match node_type {
            NodeType::Leaf { path, value } => {
                out.push(0u8);
                put_bytes(&mut out, path.nibbles.as_slice());
                out.push(if path.is_leaf { 1u8 } else { 0u8 });
                put_bytes(&mut out, value.as_slice());
            },
            NodeType::Extension { path, child } => {
                out.push(1u8);
                put_bytes(&mut out, path.nibbles.as_slice());
                out.push(if path.is_leaf { 1u8 } else { 0u8 });
                put_raw(&mut out, child.as_slice());
            },
            NodeType::Branch { children, value } => {
                out.push(2u8);
                let ghost cv = children_view(*children);
                let mut i: usize = 0;
                while i < 16
                    invariant
                        i <= 16,
                        cv == children_view(*children),
                        out@ == seq![2u8] + children_bytes(cv.take(i as int)),
                    decreases 16 - i,
                {
                    put_opt_hash(&mut out, &children[i]);
                    proof {
                        assert(cv.take(i + 1).drop_last() =~= cv.take(i as int));
                        assert(cv.take(i + 1).last() == opt_view(children[i as int]));
                    }
                    i = i + 1;
                }
                assert(cv.take(16) =~= cv);
                put_opt_bytes(&mut out, value);
            },
            NodeType::Empty => {
                out.push(3u8);
            },
        }
        assert(out@ =~= node_bytes(node_type@));
        out
    }

    /// Decode a leaf's or an extension's fields at `pos`.
    fn decode_path_node(data: &[u8], pos: usize, leaf_node: bool) -> (r: Option<NodeType>)
        requires
            pos <= data@.len(),
        ensures
            match (if leaf_node {
                parse_leaf(data@.skip(pos as int))
            } else {
                parse_extension(data@.skip(pos as int))
            }) {
                Some(v) => r matches Some(nt) && nt@ == v,
                None => r is None,
            },
    {
        let ghost s = data@;
        let ghost t = s.skip(pos as int);
        let (nibbles, p1) = match read_bytes(data, pos) {
            Some(x) => x,
            None => {
                return None;
            },
        };
        assert(t.skip(p1 - pos) =~= s.skip(p1 as int));
        let is_leaf = match read_bool(data, p1) {
            Some(b) => b,
            None => {
                return None;
            },
        };
        let path = CompactPath { nibbles, is_leaf };
        assert(p1 < data.len());
        let p2 = p1 + 1;
        assert(t.skip(p2 - pos) =~= s.skip(p2 as int));
        if leaf_node {
            match read_bytes(data, p2) {
                Some((value, _)) => Some(NodeType::Leaf { path, value }),
                None => None,
            }
        } else {
            match read_hash(data, p2) {
                Some(child) => {
                    assert(t.subrange(p2 - pos, p2 - pos + 32) =~= s.subrange(p2 as int, p2 + 32));
                    Some(NodeType::Extension { path, child })
                },
                None => None,
            }
        }
    }

    /// Decode a branch's fields at `pos`.
    fn decode_branch(data: &[u8], pos: usize) -> (r: Option<NodeType>)
        requires
            pos <= data@.len(),
        ensures
            match parse_branch(data@.skip(pos as int)) {
                Some(v) => r matches Some(nt) && nt@ == v,
                None => r is None,
            },
    {
        let ghost s = data@;
        let ghost t = s.skip(pos as int);
        let mut children: [Option<NodeId>; 16] = [None; 16];
        let mut p = pos;
        let mut i: usize = 0;
        while i < 16
            invariant
                i <= 16,
                pos <= p <= data@.len(),
                t == s.skip(pos as int),
                s == data@,
                parse_children(t, i as nat) == Some(
                    (children_view(children).take(i as int), (p - pos) as int),
                ),
            decreases 16 - i,
        {
            assert(t.skip(p - pos) =~= s.skip(p as int));
            match read_opt_hash(data, p) {
                Some((c, q)) => {
                    let ghost before = children_view(children).take(i as int);
                    children[i] = c;
                    proof {
                        assert(children_view(children).take(i + 1) =~= before.push(opt_view(c)));
                    }
                    p = q;
                },
                None => {
                    proof {
                        lemma_children_fail(t, (i + 1) as nat, 16);
                    }
                    return None;
                },
            }
            i = i + 1;
        }
        assert(children_view(children).take(16) =~= children_view(children));
        assert(t.skip(p - pos) =~= s.skip(p as int));
        match read_opt_bytes(data, p) {
            Some((value, _)) => Some(NodeType::Branch { children, value }),
            None => None,
        }
    }

    /// Decode the node content at the start of `data`.
    fn decode_node_type(data: &[u8]) -> (r: Option<NodeType>)
        ensures
            match parse_node(data@) {
                Some(v) => r matches Some(nt) && nt@ == v,
                None => r is None,
            },
    {
        assert(data@.skip(0) =~= data@);
        match read_varint_u32(data, 0) {
            Some((tag, pos)) => {
                if tag == 0 {
                    Self::decode_path_node(data, pos, true)
                } else if tag == 1 {
                    Self::decode_path_node(data, pos, false)
                } else if tag == 2 {
                    Self::decode_branch(data, pos)
                } else if tag == 3 {
                    Some(NodeType::Empty)
                } else {
                    None
                }
            },
            None => None,
        }
    }

    /// Decode node from bytes; what follows the node is ignored.
    pub fn decode(data: &[u8]) -> (r: TrieResult<Node>)
        ensures
            match parse_node(data@) {
                Some(v) => r matches Ok(n) && n.node_type@ == v && n.wf(),
                None => r matches Err(MPTError::SerializationError(_)),
            },
    {
        match Self::decode_node_type(data) {
            Some(node_type) => {
                let id = Self::calculate_id(&node_type);
                Ok(Node { id, node_type })
            },
            None => Err(MPTError::SerializationError("malformed node encoding".to_string())),
        }
    }

    /// Check if node is empty
    pub fn is_empty(&self) -> (r: bool)
        ensures
            r == (self.node_type@ is Empty),
    {
        matches!(self.node_type, NodeType::Empty)
    }

    /// Check if node is leaf
    pub fn is_leaf(&self) -> (r: bool)
        ensures
            r == (self.node_type@ is Leaf),
    {
        matches!(self.node_type, NodeType::Leaf { .. })
    }

    /// Check if node is extension
    pub fn is_extension(&self) -> (r: bool)
        ensures
            r == (self.node_type@ is Extension),
    {
        matches!(self.node_type, NodeType::Extension { .. })
    }

    /// Check if node is branch
    pub fn is_branch(&self) -> (r: bool)
        ensures
            r == (self.node_type@ is Branch),
    {
        matches!(self.node_type, NodeType::Branch { .. })
    }

    /// Get value from leaf or branch node
    pub fn get_value(&self) -> (r: Option<&Value>)
        ensures
            match r {
                Some(v) => value_of(self.node_type@) == Some(v@),
                None => value_of(self.node_type@) is None,
            },
    {
        match &self.node_type {
            NodeType::Leaf { value, .. } => Some(value),
            NodeType::Branch { value, .. } => value.as_ref(),
            _ => None,
        }
    }

    /// Get path from leaf or extension node
    pub fn get_path(&self) -> (r: Option<&CompactPath>)
        ensures
            match self.node_type {
                NodeType::Leaf { path, .. } => r == Some(&path),
                NodeType::Extension { path, .. } => r == Some(&path),
                _ => r is None,
            },
    {
        match &self.node_type {
            NodeType::Leaf { path, .. } => Some(path),
            NodeType::Extension { path, .. } => Some(path),
            _ => None,
        }
    }

    /// Get child from extension node
    pub fn get_extension_child(&self) -> (r: Option<NodeId>)
        ensures
            match self.node_type {
                NodeType::Extension { child, .. } => r == Some(child),
                _ => r is None,
            },
    {
        match &self.node_type {
            NodeType::Extension { child, .. } => Some(*child),
            _ => None,
        }
    }

    /// Get children from branch node
    pub fn get_branch_children(&self) -> (r: Option<&[Option<NodeId>; 16]>)
        ensures
            match self.node_type {
                NodeType::Branch { children, .. } => r == Some(&children),
                _ => r is None,
            },
    {
        match &self.node_type {
            NodeType::Branch { children, .. } => Some(children),
            _ => None,
        }
    }

    /// Clone node with new value (for branch nodes)
    pub fn with_branch_value(&self, new_value: Option<Value>) -> (r: TrieResult<Node>)
        ensures
            match self.node_type {
                NodeType::Branch { children, .. } => r matches Ok(n) && n.wf() && n.node_type@
                    == (NodeView::Branch {
                    children: children_view(children),
                    value: opt_vec_view(new_value),
                }),
                _ => r matches Err(MPTError::InvalidNodeType),
            },
    {
        match &self.node_type {
            NodeType::Branch { children, .. } => Ok(Node::new_branch(*children, new_value)),
            _ => Err(MPTError::InvalidNodeType),
        }
    }

    /// Clone node with updated child (for branch nodes)
    pub fn with_branch_child(&self, index: usize, child: Option<NodeId>) -> (r: TrieResult<Node>)
        ensures
            index >= 16 ==> r matches Err(MPTError::InvalidNodeType),
            index < 16 ==> match self.node_type@ {
                NodeView::Branch { children, value } => r matches Ok(n) && n.wf()
                    && n.node_type@ == (NodeView::Branch {
                    children: children.update(index as int, opt_view(child)),
                    value,
                }),
                _ => r matches Err(MPTError::InvalidNodeType),
            },
    {
        if index >= 16 {
            return Err(MPTError::InvalidNodeType);
        }
        match &self.node_type {
            NodeType::Branch { children, value } => {
                let mut new_children = *children;
                new_children[index] = child;
                assert(children_view(new_children) =~= children_view(*children).update(
                    index as int,
                    opt_view(child),
                ));
                Ok(Node::new_branch(new_children, copy_opt_value(value)))
            },
            _ => Err(MPTError::InvalidNodeType),
        }
    }

    /// Calculate the size of the node in bytes (at most `u64::MAX`)
    pub fn size_bytes(&self) -> (r: u64)
        ensures
            r == if size_of(self.node_type@) <= u64::MAX {
                size_of(self.node_type@)
            } else {
                u64::MAX as int
            },
    {
        match &self.node_type {
            NodeType::Empty => 0,
            NodeType::Leaf { path, value } => (path.nibbles.len() as u64).saturating_add(value.len() as u64),
            NodeType::Extension { path, child } => (path.nibbles.len() as u64).saturating_add(32),
            NodeType::Branch { children, value } => {
                let ghost cv = children_view(*children);
                let vlen: u64 = match value {
                    Some(v) => v.len() as u64,
                    None => 0,
                };
                let mut present: u64 = 0;
                let mut i: usize = 0;
                while i < 16
                    invariant
                        i <= 16,
                        cv == children_view(*children),
                        present == present_children(cv.take(i as int)),
                        present <= i,
                    decreases 16 - i,
                {
                    proof {
                        assert(cv.take(i + 1).drop_last() =~= cv.take(i as int));
                    }
                    if children[i].is_some() {
                        present = present + 1;
                    }
                    i = i + 1;
                }
                assert(cv.take(16) =~= cv);
                (32 * present).saturating_add(vlen)
            },
        }
    }
}

} // verus!
