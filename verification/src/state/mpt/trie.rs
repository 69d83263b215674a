//! The Merkle Patricia Trie: a content-addressed node storage, and lookups,
//! insertions, deletions, proofs and key listings that walk it from a root.
//!
//! Every walk is bounded by a depth of `u64::MAX` nodes; a deeper walk, which
//! only a storage whose nodes refer to one another in a cycle can make, ends
//! with `PathTraversalError`.
use vstd::prelude::*;

use crate::assoc_list::AssocList;
use crate::state::mpt::codec::opt_vec_view;
use crate::state::mpt::lib::{
    CompactPath, Key, MPTError, NodeId, TrieResult, Value, common_len, common_prefix,
    key_of_nibbles, key_to_nibbles, lemma_common_len_bound, nibbles_of, nibbles_to_key,
};
use crate::state::mpt::merkle_proof::{
    ProofBuilder, StateProof, elements_view, is_prefix, proof_outcome, walk,
};
use crate::state::mpt::node::{
    Node, NodeType, NodeView, children_view, encodable, lemma_node_roundtrip, node_bytes, node_id_of,
};
use vstd::slice::{slice_subrange, slice_to_vec};
use crate::state::mpt::read_write::{
    branches_full, empty_stored, lemma_read_after_delete, lemma_read_after_write, lemma_write_keeps_other_keys, nibbles_valid,
    writes_consistent,
};

verus! {

/// Storage interface for MPT nodes
pub trait NodeStorage {
    /// The stored nodes: identifier to content.
    spec fn stored(&self) -> Map<Seq<u8>, NodeView>;

    /// Whether reads and writes of this storage always succeed.
    spec fn infallible(&self) -> bool;

    /// Get a node by its ID
    fn get_node(&self, id: &NodeId) -> (r: TrieResult<Option<Node>>)
        ensures
            self.infallible() ==> r is Ok,
            r matches Err(e) ==> e is StorageError,
            r matches Ok(Some(n)) ==> self.stored().contains_key(id@) && n.id == *id
                && n.node_type@ == self.stored()[id@],
            r matches Ok(None) ==> !self.stored().contains_key(id@),
    ;

    /// Store a node under its identifier
    fn put_node(&mut self, node: &Node) -> (r: TrieResult<()>)
        ensures
            final(self).infallible() == old(self).infallible(),
            old(self).infallible() ==> r is Ok,
            r matches Err(e) ==> e is StorageError,
            r is Ok ==> final(self).stored() == old(self).stored().insert(node.id@, node.node_type@),
    ;

    /// Delete a node by its ID
    fn delete_node(&mut self, id: &NodeId) -> (r: TrieResult<()>)
        ensures
            final(self).infallible() == old(self).infallible(),
            old(self).infallible() ==> r is Ok,
            r matches Err(e) ==> e is StorageError,
            r is Ok ==> final(self).stored() == old(self).stored().remove(id@),
    ;

    /// Check if a node exists
    fn contains_node(&self, id: &NodeId) -> (r: bool)
        ensures
            r == self.stored().contains_key(id@),
    ;
}

/// A copy of a node's content.
fn copy_node_type(nt: &NodeType) -> (r: NodeType)
    ensures
        r@ == nt@,
{
    match nt {
        NodeType::Leaf { path, value } => {
            let nibbles = path.nibbles.clone();
            let v = value.clone();
            assert(nibbles@ =~= path.nibbles@);
            assert(v@ =~= value@);
            NodeType::Leaf { path: CompactPath { nibbles, is_leaf: path.is_leaf }, value: v }
        },
        NodeType::Extension { path, child } => {
            let nibbles = path.nibbles.clone();
            assert(nibbles@ =~= path.nibbles@);
            NodeType::Extension {
                path: CompactPath { nibbles, is_leaf: path.is_leaf },
                child: *child,
            }
        },
        NodeType::Branch { children, value } => {
            let v = match value {
                Some(b) => {
                    let c = b.clone();
                    assert(c@ =~= b@);
                    Some(c)
                },
                None => None,
            };
            NodeType::Branch { children: *children, value: v }
        },
        NodeType::Empty => NodeType::Empty,
    }
}

/// In-memory storage implementation
pub struct InMemoryStorage {
    nodes: AssocList<NodeId, Node>,
}

impl InMemoryStorage {
    #[verifier::type_invariant]
    spec fn inv(self) -> bool {
        self.nodes.wf()
    }

    /// Create a new in-memory storage
    pub fn new() -> (r: Self)
        ensures
            r.stored() == Map::<Seq<u8>, NodeView>::empty(),
    {
        let r = Self { nodes: AssocList::new() };
        assert(r.stored() =~= Map::<Seq<u8>, NodeView>::empty());
        r
    }

    /// Get the number of stored nodes
    pub fn len(&self) -> (r: usize)
        ensures
            r == self.stored().len(),
    {
        proof {
            use_type_invariant(self);
            assert(self.stored().dom() =~= self.nodes.view_map().dom());
        }
        self.nodes.len()
    }

    /// Check if storage is empty
    pub fn is_empty(&self) -> (r: bool)
        ensures
            r == (self.stored().len() == 0),
    {
        self.len() == 0
    }

    /// Clear all stored nodes
    pub fn clear(&mut self)
        ensures
            final(self).stored() == Map::<Seq<u8>, NodeView>::empty(),
    {
        *self = Self::new();
    }
}

impl Default for InMemoryStorage {
    fn default() -> (r: Self)
        ensures
            r.stored() == Map::<Seq<u8>, NodeView>::empty(),
    {
        Self::new()
    }
}

impl Clone for InMemoryStorage {
    fn clone(&self) -> (r: Self)
        ensures
            r.stored() == self.stored(),
    {
        Self { nodes: self.copy_entries() }
    }
}

impl InMemoryStorage {
    /// A copy of the entries, node for node.
    fn copy_entries(&self) -> (r: AssocList<NodeId, Node>)
        ensures
            r.wf(),
            r.view_map().map_values(|n: Node| n.node_type@) == self.stored(),
    {
        proof {
            use_type_invariant(self);
        }
        let mut out: Vec<(NodeId, Node)> = Vec::new();
        let mut i: usize = 0;
        while i < self.nodes.entries.len()
            invariant
                i <= self.nodes.entries@.len(),
                self.nodes.wf(),
                out@.len() == i,
                forall|j: int|
                    0 <= j < i ==> (#[trigger] out@[j]).0@ == self.nodes.entries@[j].0@
                        && out@[j].1.node_type@ == self.nodes.entries@[j].1.node_type@,
            decreases self.nodes.entries.len() - i,
        {
            let e = &self.nodes.entries[i];
            out.push((e.0, Node { id: e.1.id, node_type: copy_node_type(&e.1.node_type) }));
            i = i + 1;
        }
        let r = AssocList { entries: out };
        proof {
            crate::assoc_list::lemma_map_of_pointwise(
                self.nodes.entries@,
                r.entries@,
                |a: Node, b: Node| a.node_type@ == b.node_type@,
            );
            assert forall|k: Seq<u8>| #[trigger] r.view_map().contains_key(k) implies r.view_map()[k].node_type@
                == self.nodes.view_map()[k].node_type@ by {
                assert(self.nodes.view_map().contains_key(k));
            }
            assert(r.view_map().map_values(|n: Node| n.node_type@) =~= self.stored());
        }
        r
    }
}

impl NodeStorage for InMemoryStorage {
    closed spec fn stored(&self) -> Map<Seq<u8>, NodeView> {
        self.nodes.view_map().map_values(|n: Node| n.node_type@)
    }

    open spec fn infallible(&self) -> bool {
        true
    }

    fn get_node(&self, id: &NodeId) -> (r: TrieResult<Option<Node>>) {
        proof {
            use_type_invariant(self);
        }
        match self.nodes.get(id) {
            Some(n) => Ok(Some(Node { id: *id, node_type: copy_node_type(&n.node_type) })),
            None => Ok(None),
        }
    }

    fn put_node(&mut self, node: &Node) -> (r: TrieResult<()>) {
        proof {
            use_type_invariant(&*self);
        }
        let copy = Node { id: node.id, node_type: copy_node_type(&node.node_type) };
        let mut nodes = AssocList { entries: Vec::new() };
        std::mem::swap(&mut nodes, &mut self.nodes);
        nodes.insert(node.id, copy);
        self.nodes = nodes;
        assert(self.stored() =~= old(self).stored().insert(node.id@, node.node_type@));
        Ok(())
    }

    fn delete_node(&mut self, id: &NodeId) -> (r: TrieResult<()>) {
        proof {
            use_type_invariant(&*self);
        }
        let mut nodes = AssocList { entries: Vec::new() };
        std::mem::swap(&mut nodes, &mut self.nodes);
        nodes.remove(id);
        self.nodes = nodes;
        assert(self.stored() =~= old(self).stored().remove(id@));
        Ok(())
    }

    fn contains_node(&self, id: &NodeId) -> (r: bool) {
        proof {
            use_type_invariant(self);
        }
        self.nodes.contains_key(id)
    }
}

/// Why a walk of the trie failed: a missing node, or a path the walk cannot
/// follow (a nibble of 16 or more, or the depth bound reached).
pub enum TrieFault {
    Missing(Seq<u8>),
    BadPath,
    /// An insertion the trie cannot make: a path nibble of 16 or more where
    /// a branch must be made for it.
    Undefined,
}

/// Whether an error reports a fault.
pub open spec fn reports(e: MPTError, f: TrieFault) -> bool {
    match f {
        TrieFault::Missing(id) => e matches MPTError::NodeNotFound(x) && x@ == id,
        TrieFault::BadPath => e is PathTraversalError,
        TrieFault::Undefined => false,
    }
}

/// Whether `p` is a prefix of `k`.
pub open spec fn starts_with(k: Seq<u8>, p: Seq<u8>) -> bool {
    p.len() <= k.len() && k.take(p.len() as int) == p
}

/// The value stored for the nibble path `key` below node `id`.
pub open spec fn lookup(nodes: Map<Seq<u8>, NodeView>, id: Seq<u8>, key: Seq<u8>, fuel: nat) -> Result<
    Option<Seq<u8>>,
    TrieFault,
>
    decreases fuel,
{
    if fuel == 0 {
        Err(TrieFault::BadPath)
    } else if !nodes.contains_key(id) {
        Err(TrieFault::Missing(id))
    } else {
        match nodes[id] {
            NodeView::Empty => Ok(None),
            NodeView::Leaf { path, value, .. } => Ok(
                if path == key {
                    Some(value)
                } else {
                    None
                },
            ),
            NodeView::Extension { path, child, .. } => if !starts_with(key, path) {
                Ok(None)
            } else {
                lookup(nodes, child, key.skip(path.len() as int), (fuel - 1) as nat)
            },
            NodeView::Branch { children, value } => if key.len() == 0 {
                Ok(value)
            } else if key[0] >= 16 {
                Err(TrieFault::BadPath)
            } else {
                match children[key[0] as int] {
                    Some(c) => lookup(nodes, c, key.skip(1), (fuel - 1) as nat),
                    None => Ok(None),
                }
            },
        }
    }
}

/// The identifiers of the nodes a lookup of `key` below `id` reads, in order.
pub open spec fn visited(nodes: Map<Seq<u8>, NodeView>, id: Seq<u8>, key: Seq<u8>, fuel: nat) -> Seq<
    Seq<u8>,
>
    decreases fuel,
{
    if fuel == 0 || !nodes.contains_key(id) {
        Seq::empty()
    } else {
        seq![id] + match nodes[id] {
            NodeView::Extension { path, child, .. } => if !starts_with(key, path) {
                Seq::empty()
            } else {
                visited(nodes, child, key.skip(path.len() as int), (fuel - 1) as nat)
            },
            NodeView::Branch { children, value } => if key.len() == 0 || key[0] >= 16 {
                Seq::empty()
            } else {
                match children[key[0] as int] {
                    Some(c) => visited(nodes, c, key.skip(1), (fuel - 1) as nat),
                    None => Seq::empty(),
                }
            },
            _ => Seq::empty(),
        }
    }
}

/// The keys stored below node `id`, whose path so far is `prefix`, in the
/// order of a depth-first walk that visits a branch's own value first and
/// then its children by nibble.
pub open spec fn keys_below(nodes: Map<Seq<u8>, NodeView>, id: Seq<u8>, prefix: Seq<u8>, fuel: nat) -> Result<
    Seq<Seq<u8>>,
    TrieFault,
>
    decreases fuel, 0nat,
{
    if fuel == 0 {
        Err(TrieFault::BadPath)
    } else if !nodes.contains_key(id) {
        Err(TrieFault::Missing(id))
    } else {
        match nodes[id] {
            NodeView::Empty => Ok(Seq::empty()),
            NodeView::Leaf { path, .. } => Ok(seq![key_of_nibbles(prefix + path)]),
            NodeView::Extension { path, child, .. } => keys_below(
                nodes,
                child,
                prefix + path,
                (fuel - 1) as nat,
            ),
            NodeView::Branch { children, value } => {
                let own = if value is Some {
                    seq![key_of_nibbles(prefix)]
                } else {
                    Seq::empty()
                };
                match children_keys(nodes, children, prefix, 0, (fuel - 1) as nat) {
                    Ok(ks) => Ok(own + ks),
                    Err(f) => Err(f),
                }
            },
        }
    }
}

/// The keys below children `i..16` of a branch whose path is `prefix`.
pub open spec fn children_keys(
    nodes: Map<Seq<u8>, NodeView>,
    children: Seq<Option<Seq<u8>>>,
    prefix: Seq<u8>,
    i: nat,
    fuel: nat,
) -> Result<Seq<Seq<u8>>, TrieFault>
    decreases fuel, 16 - i,
{
    if i >= 16 {
        Ok(Seq::empty())
    } else {
        let here = match children[i as int] {
            Some(c) => keys_below(nodes, c, prefix.push(i as u8), fuel),
            None => Ok(Seq::empty()),
        };
        match here {
            Ok(ks) => match children_keys(nodes, children, prefix, i + 1, fuel) {
                Ok(rest) => Ok(ks + rest),
                Err(f) => Err(f),
            },
            Err(f) => Err(f),
        }
    }
}

/// A branch without children.
pub open spec fn no_children() -> Seq<Option<Seq<u8>>> {
    Seq::new(16, |i: int| None::<Seq<u8>>)
}

/// A leaf with a leaf path.
pub open spec fn leaf_view(path: Seq<u8>, value: Seq<u8>) -> NodeView {
    NodeView::Leaf { path, leaf: true, value }
}

/// An extension with a plain path.
pub open spec fn extension_view(path: Seq<u8>, child: Seq<u8>) -> NodeView {
    NodeView::Extension { path, leaf: false, child }
}

/// The nodes written, in order, and the new subtree root, when a leaf with
/// path `op` and value `ov` meets a new key `np` with value `nv`: a branch
/// where the paths part (holding the old value itself when its path ends
/// there), under an extension over their common prefix when there is one.
pub open spec fn split_leaf_spec(op: Seq<u8>, ov: Seq<u8>, np: Seq<u8>, nv: Seq<u8>) -> Result<
    (Seq<u8>, Seq<NodeView>),
    TrieFault,
>
    decreases op.len(),
{
    let c = common_len(op, np);
    if c == 0 {
        if op.len() == 0 {
            if np.len() != 0 {
                if np[0] >= 16 {
                    Err(TrieFault::Undefined)
                } else {
                    let nl = leaf_view(np.skip(1), nv);
                    let b = NodeView::Branch {
                        children: no_children().update(np[0] as int, Some(node_id_of(nl))),
                        value: Some(ov),
                    };
                    Ok((node_id_of(b), seq![nl, b]))
                }
            } else {
                let b = NodeView::Branch { children: no_children(), value: Some(ov) };
                Ok((node_id_of(b), seq![b]))
            }
        } else if op[0] >= 16 || (np.len() != 0 && np[0] >= 16) {
            Err(TrieFault::Undefined)
        } else if np.len() == 0 {
            let ol = leaf_view(op.skip(1), ov);
            let b = NodeView::Branch {
                children: no_children().update(op[0] as int, Some(node_id_of(ol))),
                value: Some(nv),
            };
            Ok((node_id_of(b), seq![ol, b]))
        } else {
            let ol = leaf_view(op.skip(1), ov);
            let nl = leaf_view(np.skip(1), nv);
            let b = NodeView::Branch {
                children: no_children().update(op[0] as int, Some(node_id_of(ol))).update(
                    np[0] as int,
                    Some(node_id_of(nl)),
                ),
                value: None,
            };
            Ok((node_id_of(b), seq![ol, nl, b]))
        }
    } else {
        proof {
            lemma_common_len_bound(op, np);
        }
        match split_leaf_spec(op.skip(c as int), ov, np.skip(c as int), nv) {
            Ok((bid, w)) => {
                let e = extension_view(op.take(c as int), bid);
                Ok((node_id_of(e), w.push(e)))
            },
            Err(f) => Err(f),
        }
    }
}

/// Splitting a leaf fails only where it is undefined.
proof fn lemma_split_leaf_err(op: Seq<u8>, ov: Seq<u8>, np: Seq<u8>, nv: Seq<u8>)
    ensures
        split_leaf_spec(op, ov, np, nv) is Err ==> split_leaf_spec(op, ov, np, nv) == Err::<
            (Seq<u8>, Seq<NodeView>),
            TrieFault,
        >(TrieFault::Undefined),
    decreases op.len(),
{
    let c = common_len(op, np);
    if c != 0 {
        lemma_common_len_bound(op, np);
        lemma_split_leaf_err(op.skip(c as int), ov, np.skip(c as int), nv);
    }
}

/// Whether splitting a leaf with path `op` by a key `np` is defined: where
/// the paths part, each path that continues does so with a nibble below 16.
pub open spec fn split_leaf_defined(op: Seq<u8>, np: Seq<u8>) -> bool {
    let c = common_len(op, np);
    (op.len() == c || op[c as int] < 16) && (np.len() == c || np[c as int] < 16)
}

proof fn lemma_split_leaf_defined(op: Seq<u8>, ov: Seq<u8>, np: Seq<u8>, nv: Seq<u8>)
    ensures
        split_leaf_spec(op, ov, np, nv) is Ok <==> split_leaf_defined(op, np),
{
    lemma_common_len_bound(op, np);
    let c = common_len(op, np);
    if c > 0 {
        let a = op.skip(c as int);
        let b = np.skip(c as int);
        assert(common_len(a, b) == 0);
        lemma_common_len_bound(a, b);
        assert(a.len() == op.len() - c);
        assert(b.len() == np.len() - c);
        if a.len() > 0 {
            assert(a[0] == op[c as int]);
        }
        if b.len() > 0 {
            assert(b[0] == np[c as int]);
        }
        assert(split_leaf_spec(a, ov, b, nv) is Ok <==> split_leaf_defined(op, np));
    }
}

/// The nodes written, in order, and the new subtree root, when an extension
/// over `path` to `child` meets a key `key` that leaves it after `c` nibbles:
/// a branch holding the rest of the extension and the new leaf (or the value
/// itself when the key ends there), under an extension over the common part
/// when there is one.
pub open spec fn split_extension_spec(path: Seq<u8>, child: Seq<u8>, key: Seq<u8>, value: Seq<u8>, c: nat) -> Result<
    (Seq<u8>, Seq<NodeView>),
    TrieFault,
> {
    if path[c as int] >= 16 {
        Err(TrieFault::Undefined)
    } else {
        let ne = extension_view(path.skip((c + 1) as int), child);
        let slot = if c + 1 == path.len() {
            child
        } else {
            node_id_of(ne)
        };
        let w0 = if c + 1 == path.len() {
            Seq::<NodeView>::empty()
        } else {
            seq![ne]
        };
        let cs = no_children().update(path[c as int] as int, Some(slot));
        if c == key.len() {
            let b = NodeView::Branch { children: cs, value: Some(value) };
            if c == 0 {
                Ok((node_id_of(b), w0.push(b)))
            } else {
                let e = extension_view(key.take(c as int), node_id_of(b));
                Ok((node_id_of(e), w0.push(b).push(e)))
            }
        } else if key[c as int] >= 16 {
            Err(TrieFault::Undefined)
        } else {
            let nl = leaf_view(key.skip((c + 1) as int), value);
            let b = NodeView::Branch {
                children: cs.update(key[c as int] as int, Some(node_id_of(nl))),
                value: None,
            };
            if c == 0 {
                Ok((node_id_of(b), w0.push(nl).push(b)))
            } else {
                let e = extension_view(key.take(c as int), node_id_of(b));
                Ok((node_id_of(e), w0.push(nl).push(b).push(e)))
            }
        }
    }
}

/// Where the read-after-delete law of a removal applies: branches hold
/// their sixteen slots, the empty node is stored under its identifier, the
/// removal's walk ends within the depth bound, and the nodes it writes do
/// not clash with stored nodes of the same identifier.
pub open spec fn delete_laws_apply(nodes: Map<Seq<u8>, NodeView>, root: Seq<u8>, key: Seq<u8>) -> bool {
    &&& branches_full(nodes)
    &&& nodes.contains_key(node_id_of(NodeView::Empty)) && nodes[node_id_of(NodeView::Empty)] == NodeView::Empty
    &&& delete_spec(nodes, root, key, max_depth()) is Ok
    &&& delete_spec(nodes, root, key, max_depth()) matches Ok(Some((r, w))) ==> writes_consistent(nodes, w)
}

/// Where the read-after-write laws of an insertion apply: branches hold
/// their sixteen slots, the empty node's identifier holds the empty node,
/// the insertion fits two steps below the depth bound, and the nodes it
/// writes do not clash with stored nodes of the same identifier.
pub open spec fn put_laws_apply(nodes: Map<Seq<u8>, NodeView>, root: Seq<u8>, key: Seq<u8>, value: Seq<u8>) -> bool {
    &&& branches_full(nodes)
    &&& empty_stored(nodes)
    &&& put_spec(nodes, root, key, value, (max_depth() - 2) as nat) is Ok
    &&& put_spec(nodes, root, key, value, max_depth()) matches Ok((r, w)) && writes_consistent(nodes, w)
}

/// The nodes written, in order, and the new subtree root, when `key` is set
/// to `value` below node `id`.
pub open spec fn put_spec(nodes: Map<Seq<u8>, NodeView>, id: Seq<u8>, key: Seq<u8>, value: Seq<u8>, fuel: nat) -> Result<
    (Seq<u8>, Seq<NodeView>),
    TrieFault,
>
    decreases fuel,
{
    if fuel == 0 {
        Err(TrieFault::BadPath)
    } else if !nodes.contains_key(id) {
        Err(TrieFault::Missing(id))
    } else {
        match nodes[id] {
            NodeView::Empty => {
                let n = leaf_view(key, value);
                Ok((node_id_of(n), seq![n]))
            },
            NodeView::Leaf { path, leaf, value: ov } => if path == key {
                let n = NodeView::Leaf { path, leaf, value };
                Ok((node_id_of(n), seq![n]))
            } else {
                split_leaf_spec(path, ov, key, value)
            },
            NodeView::Extension { path, leaf, child } => {
                let c = common_len(path, key);
                if c == path.len() {
                    match put_spec(nodes, child, key.skip(c as int), value, (fuel - 1) as nat) {
                        Ok((nc, w)) => {
                            let n = NodeView::Extension { path, leaf, child: nc };
                            Ok((node_id_of(n), w.push(n)))
                        },
                        Err(f) => Err(f),
                    }
                } else {
                    split_extension_spec(path, child, key, value, c)
                }
            },
            NodeView::Branch { children, value: bv } => if key.len() == 0 {
                let n = NodeView::Branch { children, value: Some(value) };
                Ok((node_id_of(n), seq![n]))
            } else if key[0] >= 16 {
                Err(TrieFault::BadPath)
            } else {
                let cid = match children[key[0] as int] {
                    Some(c) => c,
                    None => node_id_of(NodeView::Empty),
                };
                match put_spec(nodes, cid, key.skip(1), value, (fuel - 1) as nat) {
                    Ok((nc, w)) => {
                        let n = NodeView::Branch {
                            children: children.update(key[0] as int, Some(nc)),
                            value: bv,
                        };
                        Ok((node_id_of(n), w.push(n)))
                    },
                    Err(f) => Err(f),
                }
            },
        }
    }
}

/// The nodes written, in order, and the new subtree root when `key` was
/// removed below node `id`; `None` when there was nothing to remove. A
/// branch whose child had nothing to remove drops that child.
pub open spec fn delete_spec(nodes: Map<Seq<u8>, NodeView>, id: Seq<u8>, key: Seq<u8>, fuel: nat) -> Result<
    Option<(Seq<u8>, Seq<NodeView>)>,
    TrieFault,
>
    decreases fuel,
{
    if fuel == 0 {
        Err(TrieFault::BadPath)
    } else if !nodes.contains_key(id) {
        Err(TrieFault::Missing(id))
    } else {
        match nodes[id] {
            NodeView::Empty => Ok(None),
            NodeView::Leaf { path, .. } => if path == key {
                Ok(Some((node_id_of(NodeView::Empty), Seq::empty())))
            } else {
                Ok(None)
            },
            NodeView::Extension { path, leaf, child } => if !starts_with(key, path) {
                Ok(None)
            } else {
                match delete_spec(nodes, child, key.skip(path.len() as int), (fuel - 1) as nat) {
                    Ok(Some((nc, w))) => {
                        let n = NodeView::Extension { path, leaf, child: nc };
                        Ok(Some((node_id_of(n), w.push(n))))
                    },
                    Ok(None) => Ok(None),
                    Err(f) => Err(f),
                }
            },
            NodeView::Branch { children, value } => if key.len() == 0 {
                if value is Some {
                    let n = NodeView::Branch { children, value: None };
                    Ok(Some((node_id_of(n), seq![n])))
                } else {
                    Ok(None)
                }
            } else if key[0] >= 16 {
                Err(TrieFault::BadPath)
            } else {
                match children[key[0] as int] {
                    Some(c) => match delete_spec(nodes, c, key.skip(1), (fuel - 1) as nat) {
                        Ok(Some((nc, w))) => {
                            let n = NodeView::Branch {
                                children: children.update(key[0] as int, Some(nc)),
                                value,
                            };
                            Ok(Some((node_id_of(n), w.push(n))))
                        },
                        Ok(None) => {
                            let n = NodeView::Branch {
                                children: children.update(key[0] as int, None),
                                value,
                            };
                            Ok(Some((node_id_of(n), seq![n])))
                        },
                        Err(f) => Err(f),
                    },
                    None => Ok(None),
                }
            },
        }
    }
}

/// The stored nodes after writing `ws` in order, each under its identifier.
pub open spec fn insert_all(m: Map<Seq<u8>, NodeView>, ws: Seq<NodeView>) -> Map<Seq<u8>, NodeView>
    decreases ws.len(),
{
    if ws.len() == 0 {
        m
    } else {
        insert_all(m, ws.drop_last()).insert(node_id_of(ws.last()), ws.last())
    }
}

/// The depth bound of every walk.
pub open spec fn max_depth() -> nat {
    u64::MAX as nat
}

/// A failure reported by a storage that can fail.
pub open spec fn storage_failure(e: MPTError, reliable: bool) -> bool {
    !reliable && e is StorageError
}

/// The proof elements for the nodes `ids`: each identifier with its node's
/// encoding.
pub open spec fn proof_nodes(nodes: Map<Seq<u8>, NodeView>, ids: Seq<Seq<u8>>) -> Seq<(Seq<u8>, Seq<u8>)> {
    ids.map_values(|id: Seq<u8>| (id, node_bytes(nodes[id])))
}

/// The key under which metadata `key` is stored.
pub open spec fn metadata_key(key: Seq<char>) -> Seq<u8> {
    vstd::utf8::encode_utf8("metadata:"@) + vstd::utf8::encode_utf8(key)
}

/// Every stored node is stored under the digest of its encoding, and is the
/// content of some node value.
pub open spec fn content_addressed(nodes: Map<Seq<u8>, NodeView>) -> bool {
    forall|id: Seq<u8>| #[trigger] nodes.contains_key(id) ==> id == node_id_of(nodes[id]) && encodable(
        nodes[id],
    )
}

proof fn lemma_walk_follows_lookup(
    nodes: Map<Seq<u8>, NodeView>,
    id: Seq<u8>,
    key: Seq<u8>,
    v: Seq<u8>,
    fuel: nat,
    elems: Seq<(Seq<u8>, Seq<u8>)>,
    i: int,
)
    requires
        content_addressed(nodes),
        lookup(nodes, id, key, fuel) == Ok::<Option<Seq<u8>>, TrieFault>(Some(v)),
        0 <= i <= elems.len(),
        elems.skip(i) == proof_nodes(nodes, visited(nodes, id, key, fuel)),
    ensures
        walk(id, key, Some(v), elems, i) == Some(true),
    decreases fuel,
{
    let n = nodes[id];
    let vis = visited(nodes, id, key, fuel);
    assert(vis[0] == id);
    assert(vis.len() >= 1);
    assert(elems.skip(i).len() == vis.len());
    assert(elems.skip(i)[0] == elems[i]);
    assert(elems[i] == (id, node_bytes(n)));
    lemma_node_roundtrip(n, Seq::empty());
    assert(node_bytes(n) + Seq::<u8>::empty() =~= node_bytes(n));
    match n {
        NodeView::Extension { path, child, .. } => {
            let rest = visited(nodes, child, key.skip(path.len() as int), (fuel - 1) as nat);
            assert(vis =~= seq![id] + rest);
            assert(elems.skip(i + 1) =~= elems.skip(i).skip(1));
            assert(proof_nodes(nodes, vis).skip(1) =~= proof_nodes(nodes, rest));
            lemma_walk_follows_lookup(
                nodes,
                child,
                key.skip(path.len() as int),
                v,
                (fuel - 1) as nat,
                elems,
                i + 1,
            );
        },
        NodeView::Branch { children, value } => {
            if key.len() != 0 {
                let c = children[key[0] as int]->0;
                let rest = visited(nodes, c, key.skip(1), (fuel - 1) as nat);
                assert(vis =~= seq![id] + rest);
                assert(elems.skip(i + 1) =~= elems.skip(i).skip(1));
                assert(proof_nodes(nodes, vis).skip(1) =~= proof_nodes(nodes, rest));
                lemma_walk_follows_lookup(nodes, c, key.skip(1), v, (fuel - 1) as nat, elems, i + 1);
            }
        },
        _ => {},
    }
}

/// A proof made of the nodes that a lookup of a present key reads is valid:
/// where every stored node is stored under the digest of its encoding, the
/// walk over those nodes, claiming the value found, succeeds.
pub proof fn lemma_present_key_proof_verifies(
    nodes: Map<Seq<u8>, NodeView>,
    root: Seq<u8>,
    key: Seq<u8>,
    v: Seq<u8>,
    fuel: nat,
)
    requires
        content_addressed(nodes),
        lookup(nodes, root, key, fuel) == Ok::<Option<Seq<u8>>, TrieFault>(Some(v)),
    ensures
        walk(root, key, Some(v), proof_nodes(nodes, visited(nodes, root, key, fuel)), 0) == Some(true),
        proof_nodes(nodes, visited(nodes, root, key, fuel)).len() > 0,
{
    let elems = proof_nodes(nodes, visited(nodes, root, key, fuel));
    assert(elems.skip(0) =~= elems);
    lemma_walk_follows_lookup(nodes, root, key, v, fuel, elems, 0);
}

/// A copy of a byte vector.
fn copy_bytes(v: &Vec<u8>) -> (r: Vec<u8>)
    ensures
        r@ == v@,
{
    let c = v.clone();
    assert(c@ =~= v@);
    c
}

/// Whether two hashes are equal.
fn same_id(a: &NodeId, b: &NodeId) -> (r: bool)
    ensures
        r == (a@ == b@),
{
    crate::state::mpt::codec::bytes_equal(a.as_slice(), b.as_slice())
}

/// Merkle Patricia Trie implementation
pub struct MerklePatriciaTrie<S: NodeStorage> {
    storage: S,
    root: NodeId,
}

impl<S: NodeStorage> MerklePatriciaTrie<S> {
    /// The stored nodes.
    pub closed spec fn nodes(&self) -> Map<Seq<u8>, NodeView> {
        self.storage.stored()
    }

    /// The identifier of the root node.
    pub closed spec fn root_id(&self) -> Seq<u8> {
        self.root@
    }

    /// Whether the storage never fails.
    pub closed spec fn reliable(&self) -> bool {
        self.storage.infallible()
    }

    /// The storage.
    pub closed spec fn storage_value(&self) -> S {
        self.storage
    }

    /// The stored nodes are those of the storage, and the trie is reliable
    /// exactly when its storage never fails.
    pub proof fn lemma_storage_parts(&self)
        ensures
            self.nodes() == self.storage_value().stored(),
            self.reliable() == self.storage_value().infallible(),
    {
    }

    /// Create a new MPT with given storage, storing the empty root node
    pub fn new(storage: S) -> (r: Self)
        ensures
            r.root_id() == node_id_of(NodeView::Empty),
            r.reliable() == storage.infallible(),
            storage.infallible() ==> r.nodes() == storage.stored().insert(
                node_id_of(NodeView::Empty),
                NodeView::Empty,
            ),
    {
        let empty_node = Node::new_empty();
        let root_id = empty_node.id;
        let mut storage = storage;
        let _ = storage.put_node(&empty_node);
        Self { storage, root: root_id }
    }

    /// Get the root hash
    pub fn root_hash(&self) -> (r: crate::state::mpt::lib::Hash)
        ensures
            r@ == self.root_id(),
    {
        self.root
    }

    /// Read the node `id` from storage.
    fn fetch(&self, id: &NodeId) -> (r: TrieResult<Node>)
        ensures
            r matches Ok(n) ==> self.nodes().contains_key(id@) && n.node_type@ == self.nodes()[id@],
            r matches Err(e) ==> (!self.nodes().contains_key(id@) && e == MPTError::NodeNotFound(*id))
                || storage_failure(e, self.reliable()),
            self.reliable() ==> (r is Ok <==> self.nodes().contains_key(id@)),
    {
        match self.storage.get_node(id) {
            Ok(Some(n)) => Ok(n),
            Ok(None) => Err(MPTError::NodeNotFound(*id)),
            Err(e) => Err(e),
        }
    }

    /// Write a node to storage.
    fn store(&mut self, node: &Node) -> (r: TrieResult<()>)
        requires
            node.wf(),
        ensures
            final(self).reliable() == old(self).reliable(),
            final(self).root_id() == old(self).root_id(),
            r matches Err(e) ==> storage_failure(e, old(self).reliable()),
            r is Ok ==> final(self).nodes() == old(self).nodes().insert(
                node_id_of(node.node_type@),
                node.node_type@,
            ),
    {
        self.storage.put_node(node)
    }

    /// Get value for a key
    pub fn get(&self, key: &Key) -> (r: TrieResult<Option<Value>>)
        requires
            2 * key@.len() <= usize::MAX,
        ensures
            match lookup(self.nodes(), self.root_id(), nibbles_of(key@), max_depth()) {
                Ok(v) => (r matches Ok(x) && opt_vec_view(x) == v) || (r matches Err(e)
                    && storage_failure(e, self.reliable())),
                Err(f) => r matches Err(e) && (reports(e, f) || storage_failure(e, self.reliable())),
            },
    {
        let key_nibbles = key_to_nibbles(key.as_slice());
        self.get_recursive(self.root, key_nibbles.as_slice(), u64::MAX)
    }

    fn get_recursive(&self, node_id: NodeId, key_nibbles: &[u8], fuel: u64) -> (r: TrieResult<Option<Value>>)
        ensures
            match lookup(self.nodes(), node_id@, key_nibbles@, fuel as nat) {
                Ok(v) => (r matches Ok(x) && opt_vec_view(x) == v) || (r matches Err(e)
                    && storage_failure(e, self.reliable())),
                Err(f) => r matches Err(e) && (reports(e, f) || storage_failure(e, self.reliable())),
            },
        decreases fuel,
    {
        if fuel == 0 {
            return Err(MPTError::PathTraversalError);
        }
        let node = match self.fetch(&node_id) {
            Ok(n) => n,
            Err(e) => {
                return Err(e);
            },
        };
        let ghost key = key_nibbles@;
        match &node.node_type {
            NodeType::Empty => Ok(None),
            NodeType::Leaf { path, value } => {
                if crate::state::mpt::codec::bytes_equal(path.nibbles.as_slice(), key_nibbles) {
                    Ok(Some(copy_bytes(value)))
                } else {
                    Ok(None)
                }
            },
            NodeType::Extension { path, child } => {
                let plen = path.nibbles.len();
                if key_nibbles.len() < plen {
                    return Ok(None);
                }
                if crate::state::mpt::codec::bytes_equal(
                    slice_subrange(key_nibbles, 0, plen),
                    path.nibbles.as_slice(),
                ) {
                    self.get_recursive(*child, slice_subrange(key_nibbles, plen, key_nibbles.len()), fuel - 1)
                } else {
                    Ok(None)
                }
            },
            NodeType::Branch { children, value } => {
                if key_nibbles.len() == 0 {
                    match value {
                        Some(v) => Ok(Some(copy_bytes(v))),
                        None => Ok(None),
                    }
                } else {
                    let nibble = key_nibbles[0] as usize;
                    if nibble >= 16 {
                        return Err(MPTError::PathTraversalError);
                    }
                    match children[nibble] {
                        Some(child_id) => {
                            assert(children_view(*children)[nibble as int] == Some(child_id@));
                            self.get_recursive(
                                child_id,
                                slice_subrange(key_nibbles, 1, key_nibbles.len()),
                                fuel - 1,
                            )
                        },
                        None => {
                            assert(children_view(*children)[nibble as int] is None);
                            Ok(None)
                        },
                    }
                }
            },
        }
    }

    /// Whether inserting `key` below `node_id` is defined for every value;
    /// `false` also where the storage fails to answer.
    fn insertion_defined(&self, node_id: NodeId, key_nibbles: &[u8], fuel: u64) -> (r: bool)
        ensures
            r ==> forall|v: Seq<u8>|
                !(#[trigger] put_spec(self.nodes(), node_id@, key_nibbles@, v, fuel as nat) matches Err(
                    TrieFault::Undefined,
                )),
            self.reliable() ==> forall|v: Seq<u8>|
                r <==> !(#[trigger] put_spec(self.nodes(), node_id@, key_nibbles@, v, fuel as nat) matches Err(
                    TrieFault::Undefined,
                )),
        decreases fuel,
    {
        if fuel == 0 {
            return true;
        }
        let node = match self.storage.get_node(&node_id) {
            Ok(Some(n)) => n,
            Ok(None) => {
                return true;
            },
            Err(_) => {
                return false;
            },
        };
        match &node.node_type {
            NodeType::Empty => true,
            NodeType::Leaf { path, .. } => {
                if crate::state::mpt::codec::bytes_equal(path.nibbles.as_slice(), key_nibbles) {
                    return true;
                }
                let op = path.nibbles.as_slice();
                let c = common_prefix(op, key_nibbles);
                let ok = (op.len() == c || op[c] < 16) && (key_nibbles.len() == c || key_nibbles[c] < 16);
                proof {
                    lemma_common_len_bound(path.nibbles@, key_nibbles@);
                    assert forall|v: Seq<u8>|
                        ok <==> !(#[trigger] put_spec(self.nodes(), node_id@, key_nibbles@, v, fuel as nat) matches Err(
                            TrieFault::Undefined,
                        )) by {
                        if let NodeView::Leaf { value: ov, .. } = self.nodes()[node_id@] {
                            lemma_split_leaf_defined(path.nibbles@, ov, key_nibbles@, v);
                            lemma_split_leaf_err(path.nibbles@, ov, key_nibbles@, v);
                        }
                    }
                }
                ok
            },
            NodeType::Extension { path, child } => {
                let c = common_prefix(path.nibbles.as_slice(), key_nibbles);
                if c == path.nibbles.len() {
                    let r = self.insertion_defined(*child, slice_subrange(key_nibbles, c, key_nibbles.len()), fuel - 1);
                    proof {
                        assert forall|v: Seq<u8>|
                            r implies !(#[trigger] put_spec(self.nodes(), node_id@, key_nibbles@, v, fuel as nat) matches Err(
                                TrieFault::Undefined,
                            )) by {
                            assert(!(put_spec(self.nodes(), child@, key_nibbles@.skip(c as int), v, (fuel - 1) as nat) matches Err(
                                TrieFault::Undefined,
                            )));
                        }
                        assert forall|v: Seq<u8>|
                            self.reliable() implies (r <==> !(#[trigger] put_spec(self.nodes(), node_id@, key_nibbles@, v, fuel as nat) matches Err(
                                TrieFault::Undefined,
                            ))) by {
                            assert(r <==> !(put_spec(self.nodes(), child@, key_nibbles@.skip(c as int), v, (fuel - 1) as nat) matches Err(
                                TrieFault::Undefined,
                            )));
                        }
                    }
                    r
                } else {
                    proof {
                        lemma_common_len_bound(path.nibbles@, key_nibbles@);
                    }
                    path.nibbles[c] < 16 && (c == key_nibbles.len() || key_nibbles[c] < 16)
                }
            },
            NodeType::Branch { children, .. } => {
                if key_nibbles.len() == 0 {
                    return true;
                }
                let nibble = key_nibbles[0] as usize;
                if nibble >= 16 {
                    return true;
                }
                let child_id = match children[nibble] {
                    Some(c) => c,
                    None => Node::new_empty().id,
                };
                assert(children_view(*children)[nibble as int] == crate::state::mpt::codec::opt_view(children[nibble as int]));
                let r = self.insertion_defined(child_id, slice_subrange(key_nibbles, 1, key_nibbles.len()), fuel - 1);
                proof {
                    assert forall|v: Seq<u8>|
                        r implies !(#[trigger] put_spec(self.nodes(), node_id@, key_nibbles@, v, fuel as nat) matches Err(
                            TrieFault::Undefined,
                        )) by {
                        assert(!(put_spec(self.nodes(), child_id@, key_nibbles@.skip(1), v, (fuel - 1) as nat) matches Err(
                            TrieFault::Undefined,
                        )));
                    }
                    assert forall|v: Seq<u8>|
                        self.reliable() implies (r <==> !(#[trigger] put_spec(self.nodes(), node_id@, key_nibbles@, v, fuel as nat) matches Err(
                            TrieFault::Undefined,
                        ))) by {
                        assert(r <==> !(put_spec(self.nodes(), child_id@, key_nibbles@.skip(1), v, (fuel - 1) as nat) matches Err(
                            TrieFault::Undefined,
                        )));
                    }
                }
                r
            },
        }
    }

    /// Insert or update a key-value pair. The insertion must be defined: no
    /// stored path nibble of 16 or more where a branch is to be made for it
    /// (`put_checked` tests this first). Where the laws of `put_laws_apply`
    /// hold, the key then reads back the value and other keys read as before.
    pub fn put(&mut self, key: Key, value: Value) -> (r: TrieResult<()>)
        requires
            2 * key@.len() <= usize::MAX,
            !(put_spec(old(self).nodes(), old(self).root_id(), nibbles_of(key@), value@, max_depth())
                matches Err(TrieFault::Undefined)),
        ensures
            final(self).reliable() == old(self).reliable(),
            r is Err ==> final(self).root_id() == old(self).root_id(),
            match put_spec(old(self).nodes(), old(self).root_id(), nibbles_of(key@), value@, max_depth()) {
                Ok((root, w)) => (r is Ok && final(self).root_id() == root && final(self).nodes()
                    == insert_all(old(self).nodes(), w)) || (r matches Err(e) && storage_failure(
                    e,
                    old(self).reliable(),
                )),
                Err(f) => r matches Err(e) && (reports(e, f) || storage_failure(e, old(self).reliable())),
            },
            r is Ok && put_laws_apply(old(self).nodes(), old(self).root_id(), nibbles_of(key@), value@) ==> lookup(
                final(self).nodes(),
                final(self).root_id(),
                nibbles_of(key@),
                max_depth(),
            ) == Ok::<Option<Seq<u8>>, TrieFault>(Some(value@)),
            r is Ok && put_laws_apply(old(self).nodes(), old(self).root_id(), nibbles_of(key@), value@) ==> forall|k2: Seq<u8>|
                k2 != nibbles_of(key@) && nibbles_valid(k2) && lookup(old(self).nodes(), old(self).root_id(), k2, (max_depth() - 2) as nat)
                    is Ok ==> #[trigger] lookup(final(self).nodes(), final(self).root_id(), k2, max_depth()) == lookup(
                    old(self).nodes(),
                    old(self).root_id(),
                    k2,
                    max_depth(),
                ),
    {
        let key_nibbles = key_to_nibbles(key.as_slice());
        let root_id = self.root;
        let ghost n0 = self.nodes();
        let ghost v0 = value@;
        match self.put_recursive(root_id, key_nibbles.as_slice(), value, u64::MAX) {
            Ok(new_root) => {
                self.root = new_root;
                proof {
                    let k = nibbles_of(key@);
                    if put_laws_apply(n0, root_id@, k, v0) {
                        lemma_read_after_write(n0, root_id@, k, v0);
                        assert forall|k2: Seq<u8>|
                            k2 != k && nibbles_valid(k2) && lookup(n0, root_id@, k2, (max_depth() - 2) as nat) is Ok implies #[trigger] lookup(
                            self.nodes(),
                            self.root_id(),
                            k2,
                            max_depth(),
                        ) == lookup(n0, root_id@, k2, max_depth()) by {
                            lemma_write_keeps_other_keys(n0, root_id@, k, v0, k2);
                        }
                    }
                }
                Ok(())
            },
            Err(e) => Err(e),
        }
    }

    fn put_recursive(&mut self, node_id: NodeId, key_nibbles: &[u8], value: Value, fuel: u64) -> (r: TrieResult<NodeId>)
        requires
            !(put_spec(old(self).nodes(), node_id@, key_nibbles@, value@, fuel as nat) matches Err(
                TrieFault::Undefined,
            )),
        ensures
            final(self).reliable() == old(self).reliable(),
            final(self).root_id() == old(self).root_id(),
            match put_spec(old(self).nodes(), node_id@, key_nibbles@, value@, fuel as nat) {
                Ok((root, w)) => (r matches Ok(x) && x@ == root && final(self).nodes() == insert_all(
                    old(self).nodes(),
                    w,
                )) || (r matches Err(e) && storage_failure(e, old(self).reliable())),
                Err(f) => r matches Err(e) && (reports(e, f) || storage_failure(e, old(self).reliable())),
            },
        decreases fuel,
    {
        if fuel == 0 {
            return Err(MPTError::PathTraversalError);
        }
        let node = match self.fetch(&node_id) {
            Ok(n) => n,
            Err(e) => {
                return Err(e);
            },
        };
        let ghost nodes = self.nodes();
        match &node.node_type {
            NodeType::Empty => {
                let path = CompactPath::new(slice_to_vec(key_nibbles), true);
                let new_node = Node::new_leaf(path, value);
                let new_id = new_node.id;
                match self.store(&new_node) {
                    Ok(()) => {},
                    Err(e) => {
                        return Err(e);
                    },
                }
                proof {
                    reveal_with_fuel(insert_all, 2);
                }
                Ok(new_id)
            },
            NodeType::Leaf { path, value: old_value } => {
                if crate::state::mpt::codec::bytes_equal(path.nibbles.as_slice(), key_nibbles) {
                    let p = CompactPath::new(copy_bytes(&path.nibbles), path.is_leaf);
                    let new_node = Node::new_leaf(p, value);
                    let new_id = new_node.id;
                    match self.store(&new_node) {
                        Ok(()) => {},
                        Err(e) => {
                            return Err(e);
                        },
                    }
                    proof {
                        reveal_with_fuel(insert_all, 2);
                    }
                    Ok(new_id)
                } else {
                    proof {
                        lemma_split_leaf_err(path.nibbles@, old_value@, key_nibbles@, value@);
                    }
                    self.split_leaf_node(path.nibbles.as_slice(), old_value, key_nibbles, value)
                }
            },
            NodeType::Extension { path, child } => {
                let common_len = common_prefix(path.nibbles.as_slice(), key_nibbles);
                if common_len == path.nibbles.len() {
                    let new_child = match self.put_recursive(
                        *child,
                        slice_subrange(key_nibbles, common_len, key_nibbles.len()),
                        value,
                        fuel - 1,
                    ) {
                        Ok(c) => c,
                        Err(e) => {
                            return Err(e);
                        },
                    };
                    let ghost mid = self.nodes();
                    let p = CompactPath::new(copy_bytes(&path.nibbles), path.is_leaf);
                    let new_node = Node::new_extension(p, new_child);
                    let new_id = new_node.id;
                    match self.store(&new_node) {
                        Ok(()) => {},
                        Err(e) => {
                            return Err(e);
                        },
                    }
                    proof {
                        if let Ok((nc, w)) = put_spec(
                            nodes,
                            child@,
                            key_nibbles@.skip(common_len as int),
                            value@,
                            (fuel - 1) as nat,
                        ) {
                            assert(w.push(new_node.node_type@).drop_last() =~= w);
                        }
                    }
                    Ok(new_id)
                } else {
                    self.split_extension_node(path, *child, key_nibbles, value, common_len)
                }
            },
            NodeType::Branch { children, value: branch_value } => {
                if key_nibbles.len() == 0 {
                    let new_node = Node::new_branch(*children, Some(value));
                    let new_id = new_node.id;
                    match self.store(&new_node) {
                        Ok(()) => {},
                        Err(e) => {
                            return Err(e);
                        },
                    }
                    proof {
                        reveal_with_fuel(insert_all, 2);
                    }
                    Ok(new_id)
                } else {
                    let nibble = key_nibbles[0] as usize;
                    if nibble >= 16 {
                        return Err(MPTError::PathTraversalError);
                    }
                    let child_id = match children[nibble] {
                        Some(c) => c,
                        None => Node::new_empty().id,
                    };
                    assert(children_view(*children)[nibble as int] == crate::state::mpt::codec::opt_view(children[nibble as int]));
                    let new_child = match self.put_recursive(
                        child_id,
                        slice_subrange(key_nibbles, 1, key_nibbles.len()),
                        value,
                        fuel - 1,
                    ) {
                        Ok(c) => c,
                        Err(e) => {
                            return Err(e);
                        },
                    };
                    let new_node = match node.with_branch_child(nibble, Some(new_child)) {
                        Ok(n) => n,
                        Err(e) => {
                            return Err(e);
                        },
                    };
                    let new_id = new_node.id;
                    match self.store(&new_node) {
                        Ok(()) => {},
                        Err(e) => {
                            return Err(e);
                        },
                    }
                    proof {
                        if let Ok((nc, w)) = put_spec(
                            nodes,
                            child_id@,
                            key_nibbles@.skip(1),
                            value@,
                            (fuel - 1) as nat,
                        ) {
                            assert(w.push(new_node.node_type@).drop_last() =~= w);
                        }
                    }
                    Ok(new_id)
                }
            },
        }
    }

    fn split_leaf_node(&mut self, old_path: &[u8], old_value: &Value, new_path: &[u8], new_value: Value) -> (r: TrieResult<NodeId>)
        requires
            split_leaf_spec(old_path@, old_value@, new_path@, new_value@) is Ok,
        ensures
            final(self).reliable() == old(self).reliable(),
            final(self).root_id() == old(self).root_id(),
            match split_leaf_spec(old_path@, old_value@, new_path@, new_value@) {
                Ok((root, w)) => (r matches Ok(x) && x@ == root && final(self).nodes() == insert_all(
                    old(self).nodes(),
                    w,
                )) || (r matches Err(e) && storage_failure(e, old(self).reliable())),
                Err(_) => false,
            },
        decreases old_path@.len(),
    {
        let ghost start = self.nodes();
        let common_len = common_prefix(old_path, new_path);
        proof {
            lemma_common_len_bound(old_path@, new_path@);
        }
        if common_len == 0 {
            let mut children: [Option<NodeId>; 16] = [None; 16];
            assert(children_view(children) =~= no_children());
            if old_path.len() == 0 {
                if new_path.len() != 0 {
                    let nibble = new_path[0] as usize;
                    let leaf_path = CompactPath::new(
                        slice_to_vec(slice_subrange(new_path, 1, new_path.len())),
                        true,
                    );
                    let new_leaf = Node::new_leaf(leaf_path, new_value);
                    let ghost before = children_view(children);
                    children[nibble] = Some(new_leaf.id);
                    assert(children_view(children) =~= before.update(
                        nibble as int,
                        Some(new_leaf.id@),
                    ));
                    match self.store(&new_leaf) {
                        Ok(()) => {},
                        Err(e) => {
                            return Err(e);
                        },
                    }
                }
                let branch = Node::new_branch(children, Some(copy_bytes(old_value)));
                let branch_id = branch.id;
                match self.store(&branch) {
                    Ok(()) => {},
                    Err(e) => {
                        return Err(e);
                    },
                }
                proof {
                    reveal_with_fuel(insert_all, 3);
                }
                Ok(branch_id)
            } else if new_path.len() == 0 {
                let old_nibble = old_path[0] as usize;
                let old_leaf_path = CompactPath::new(
                    slice_to_vec(slice_subrange(old_path, 1, old_path.len())),
                    true,
                );
                let old_leaf = Node::new_leaf(old_leaf_path, copy_bytes(old_value));
                let ghost c0 = children_view(children);
                children[old_nibble] = Some(old_leaf.id);
                assert(children_view(children) =~= c0.update(old_nibble as int, Some(old_leaf.id@)));
                match self.store(&old_leaf) {
                    Ok(()) => {},
                    Err(e) => {
                        return Err(e);
                    },
                }
                let branch = Node::new_branch(children, Some(new_value));
                let branch_id = branch.id;
                match self.store(&branch) {
                    Ok(()) => {},
                    Err(e) => {
                        return Err(e);
                    },
                }
                proof {
                    reveal_with_fuel(insert_all, 3);
                }
                Ok(branch_id)
            } else {
                let old_nibble = old_path[0] as usize;
                let new_nibble = new_path[0] as usize;
                let old_leaf_path = CompactPath::new(
                    slice_to_vec(slice_subrange(old_path, 1, old_path.len())),
                    true,
                );
                let old_leaf = Node::new_leaf(old_leaf_path, copy_bytes(old_value));
                let ghost c0 = children_view(children);
                children[old_nibble] = Some(old_leaf.id);
                assert(children_view(children) =~= c0.update(old_nibble as int, Some(old_leaf.id@)));
                match self.store(&old_leaf) {
                    Ok(()) => {},
                    Err(e) => {
                        return Err(e);
                    },
                }
                let new_leaf_path = CompactPath::new(
                    slice_to_vec(slice_subrange(new_path, 1, new_path.len())),
                    true,
                );
                let new_leaf = Node::new_leaf(new_leaf_path, new_value);
                let ghost c1 = children_view(children);
                children[new_nibble] = Some(new_leaf.id);
                assert(children_view(children) =~= c1.update(new_nibble as int, Some(new_leaf.id@)));
                match self.store(&new_leaf) {
                    Ok(()) => {},
                    Err(e) => {
                        return Err(e);
                    },
                }
                let branch = Node::new_branch(children, None);
                let branch_id = branch.id;
                match self.store(&branch) {
                    Ok(()) => {},
                    Err(e) => {
                        return Err(e);
                    },
                }
                proof {
                    reveal_with_fuel(insert_all, 4);
                }
                Ok(branch_id)
            }
        } else {
            let common_path = CompactPath::new(slice_to_vec(slice_subrange(old_path, 0, common_len)), false);
            let branch_id = match self.split_leaf_node(
                slice_subrange(old_path, common_len, old_path.len()),
                old_value,
                slice_subrange(new_path, common_len, new_path.len()),
                new_value,
            ) {
                Ok(b) => b,
                Err(e) => {
                    return Err(e);
                },
            };
            let extension = Node::new_extension(common_path, branch_id);
            let extension_id = extension.id;
            match self.store(&extension) {
                Ok(()) => {},
                Err(e) => {
                    return Err(e);
                },
            }
            proof {
                if let Ok((bid, w)) = split_leaf_spec(
                    old_path@.skip(common_len as int),
                    old_value@,
                    new_path@.skip(common_len as int),
                    new_value@,
                ) {
                    assert(w.push(extension.node_type@).drop_last() =~= w);
                }
            }
            Ok(extension_id)
        }
    }

    fn split_extension_node(
        &mut self,
        path: &CompactPath,
        child: NodeId,
        key_nibbles: &[u8],
        value: Value,
        common_len: usize,
    ) -> (r: TrieResult<NodeId>)
        requires
            common_len == crate::state::mpt::lib::common_len(path.nibbles@, key_nibbles@),
            common_len < path.nibbles@.len(),
            split_extension_spec(path.nibbles@, child@, key_nibbles@, value@, common_len as nat) is Ok,
        ensures
            final(self).reliable() == old(self).reliable(),
            final(self).root_id() == old(self).root_id(),
            match split_extension_spec(path.nibbles@, child@, key_nibbles@, value@, common_len as nat) {
                Ok((root, w)) => (r matches Ok(x) && x@ == root && final(self).nodes() == insert_all(
                    old(self).nodes(),
                    w,
                )) || (r matches Err(e) && storage_failure(e, old(self).reliable())),
                Err(_) => false,
            },
    {
        proof {
            lemma_common_len_bound(path.nibbles@, key_nibbles@);
            reveal_with_fuel(insert_all, 5);
        }
        let ghost p = path.nibbles@;
        let ghost key = key_nibbles@;
        assert(p.len() == path.nibbles.len());
        let mut children: [Option<NodeId>; 16] = [None; 16];
        assert(children_view(children) =~= no_children());
        let slot_nibble = path.nibbles[common_len] as usize;
        let ghost ne = extension_view(p.skip(common_len + 1), child@);
        let ghost mut written: Seq<NodeView> = Seq::empty();
        if common_len + 1 == path.nibbles.len() {
            children[slot_nibble] = Some(child);
            assert(children_view(children) =~= no_children().update(slot_nibble as int, Some(child@)));
        } else {
            let remaining_path = CompactPath::new(
                slice_to_vec(slice_subrange(path.nibbles.as_slice(), common_len + 1, path.nibbles.len())),
                false,
            );
            let new_extension = Node::new_extension(remaining_path, child);
            children[slot_nibble] = Some(new_extension.id);
            assert(children_view(children) =~= no_children().update(
                slot_nibble as int,
                Some(new_extension.id@),
            ));
            match self.store(&new_extension) {
                Ok(()) => {},
                Err(e) => {
                    return Err(e);
                },
            }
            proof {
                written = seq![ne];
            }
        }
        assert(self.nodes() == insert_all(old(self).nodes(), written));
        if common_len == key_nibbles.len() {
            let branch = Node::new_branch(children, Some(value));
            let branch_id = branch.id;
            match self.store(&branch) {
                Ok(()) => {},
                Err(e) => {
                    return Err(e);
                },
            }
            proof {
                assert(written.push(branch.node_type@).drop_last() =~= written);
                written = written.push(branch.node_type@);
            }
            if common_len == 0 {
                Ok(branch_id)
            } else {
                let common_path = CompactPath::new(
                    slice_to_vec(slice_subrange(key_nibbles, 0, common_len)),
                    false,
                );
                let extension = Node::new_extension(common_path, branch_id);
                let extension_id = extension.id;
                match self.store(&extension) {
                    Ok(()) => {},
                    Err(e) => {
                        return Err(e);
                    },
                }
                proof {
                    assert(written.push(extension.node_type@).drop_last() =~= written);
                }
                Ok(extension_id)
            }
        } else {
            let key_nibble = key_nibbles[common_len] as usize;
            let new_leaf_path = CompactPath::new(
                slice_to_vec(slice_subrange(key_nibbles, common_len + 1, key_nibbles.len())),
                true,
            );
            let new_leaf = Node::new_leaf(new_leaf_path, value);
            let ghost before = children_view(children);
            children[key_nibble] = Some(new_leaf.id);
            assert(children_view(children) =~= before.update(key_nibble as int, Some(new_leaf.id@)));
            match self.store(&new_leaf) {
                Ok(()) => {},
                Err(e) => {
                    return Err(e);
                },
            }
            proof {
                assert(written.push(new_leaf.node_type@).drop_last() =~= written);
                written = written.push(new_leaf.node_type@);
            }
            let branch = Node::new_branch(children, None);
            let branch_id = branch.id;
            match self.store(&branch) {
                Ok(()) => {},
                Err(e) => {
                    return Err(e);
                },
            }
            proof {
                assert(written.push(branch.node_type@).drop_last() =~= written);
                written = written.push(branch.node_type@);
            }
            if common_len == 0 {
                Ok(branch_id)
            } else {
                let common_path = CompactPath::new(
                    slice_to_vec(slice_subrange(key_nibbles, 0, common_len)),
                    false,
                );
                let extension = Node::new_extension(common_path, branch_id);
                let extension_id = extension.id;
                match self.store(&extension) {
                    Ok(()) => {},
                    Err(e) => {
                        return Err(e);
                    },
                }
                proof {
                    assert(written.push(extension.node_type@).drop_last() =~= written);
                }
                Ok(extension_id)
            }
        }
    }

    /// Delete a key from the trie: `true` when it was stored
    pub fn delete(&mut self, key: &Key) -> (r: TrieResult<bool>)
        requires
            2 * key@.len() <= usize::MAX,
        ensures
            final(self).reliable() == old(self).reliable(),
            match delete_spec(old(self).nodes(), old(self).root_id(), nibbles_of(key@), max_depth()) {
                Ok(Some((root, w))) => (r matches Ok(b) && b && final(self).root_id() == root
                    && final(self).nodes() == insert_all(old(self).nodes(), w)) || (r matches Err(e)
                    && storage_failure(e, old(self).reliable())),
                Ok(None) => (r matches Ok(b) && !b && final(self).root_id() == old(self).root_id()
                    && final(self).nodes() == old(self).nodes()) || (r matches Err(e) && storage_failure(
                    e,
                    old(self).reliable(),
                )),
                Err(f) => r matches Err(e) && (reports(e, f) || storage_failure(e, old(self).reliable())),
            },
            r is Ok && delete_laws_apply(old(self).nodes(), old(self).root_id(), nibbles_of(key@)) ==> lookup(
                final(self).nodes(),
                final(self).root_id(),
                nibbles_of(key@),
                max_depth(),
            ) == Ok::<Option<Seq<u8>>, TrieFault>(None),
    {
        let key_nibbles = key_to_nibbles(key.as_slice());
        let root_id = self.root;
        let ghost n0 = self.nodes();
        match self.delete_recursive(root_id, key_nibbles.as_slice(), u64::MAX) {
            Ok(Some(new_root)) => {
                self.root = new_root;
                proof {
                    if delete_laws_apply(n0, root_id@, nibbles_of(key@)) {
                        lemma_read_after_delete(n0, root_id@, nibbles_of(key@));
                    }
                }
                Ok(true)
            },
            Ok(None) => {
                proof {
                    if delete_laws_apply(n0, root_id@, nibbles_of(key@)) {
                        lemma_read_after_delete(n0, root_id@, nibbles_of(key@));
                    }
                }
                Ok(false)
            },
            Err(e) => Err(e),
        }
    }

    fn delete_recursive(&mut self, node_id: NodeId, key_nibbles: &[u8], fuel: u64) -> (r: TrieResult<Option<NodeId>>)
        ensures
            final(self).reliable() == old(self).reliable(),
            final(self).root_id() == old(self).root_id(),
            match delete_spec(old(self).nodes(), node_id@, key_nibbles@, fuel as nat) {
                Ok(Some((root, w))) => (r matches Ok(Some(x)) && x@ == root && final(self).nodes()
                    == insert_all(old(self).nodes(), w)) || (r matches Err(e) && storage_failure(
                    e,
                    old(self).reliable(),
                )),
                Ok(None) => (r matches Ok(None) && final(self).nodes() == old(self).nodes()) || (
                r matches Err(e) && storage_failure(e, old(self).reliable())),
                Err(f) => r matches Err(e) && (reports(e, f) || storage_failure(e, old(self).reliable())),
            },
        decreases fuel,
    {
        if fuel == 0 {
            return Err(MPTError::PathTraversalError);
        }
        let node = match self.fetch(&node_id) {
            Ok(n) => n,
            Err(e) => {
                return Err(e);
            },
        };
        let ghost nodes = self.nodes();
        match &node.node_type {
            NodeType::Empty => Ok(None),
            NodeType::Leaf { path, .. } => {
                if crate::state::mpt::codec::bytes_equal(path.nibbles.as_slice(), key_nibbles) {
                    Ok(Some(Node::new_empty().id))
                } else {
                    Ok(None)
                }
            },
            NodeType::Extension { path, child } => {
                let plen = path.nibbles.len();
                if key_nibbles.len() < plen || !crate::state::mpt::codec::bytes_equal(
                    slice_subrange(key_nibbles, 0, plen),
                    path.nibbles.as_slice(),
                ) {
                    return Ok(None);
                }
                match self.delete_recursive(*child, slice_subrange(key_nibbles, plen, key_nibbles.len()), fuel - 1) {
                    Ok(Some(new_child)) => {
                        let p = CompactPath::new(copy_bytes(&path.nibbles), path.is_leaf);
                        let new_node = Node::new_extension(p, new_child);
                        let new_id = new_node.id;
                        match self.store(&new_node) {
                            Ok(()) => {},
                            Err(e) => {
                                return Err(e);
                            },
                        }
                        proof {
                            if let Ok(Some((nc, w))) = delete_spec(
                                nodes,
                                child@,
                                key_nibbles@.skip(plen as int),
                                (fuel - 1) as nat,
                            ) {
                                assert(w.push(new_node.node_type@).drop_last() =~= w);
                            }
                        }
                        Ok(Some(new_id))
                    },
                    Ok(None) => Ok(None),
                    Err(e) => Err(e),
                }
            },
            NodeType::Branch { children, value } => {
                if key_nibbles.len() == 0 {
                    if value.is_some() {
                        let new_node = Node::new_branch(*children, None);
                        let new_id = new_node.id;
                        match self.store(&new_node) {
                            Ok(()) => {},
                            Err(e) => {
                                return Err(e);
                            },
                        }
                        proof {
                            reveal_with_fuel(insert_all, 2);
                        }
                        Ok(Some(new_id))
                    } else {
                        Ok(None)
                    }
                } else {
                    let nibble = key_nibbles[0] as usize;
                    if nibble >= 16 {
                        return Err(MPTError::PathTraversalError);
                    }
                    assert(children_view(*children)[nibble as int] == crate::state::mpt::codec::opt_view(children[nibble as int]));
                    match children[nibble] {
                        Some(child_id) => {
                            match self.delete_recursive(child_id, slice_subrange(key_nibbles, 1, key_nibbles.len()), fuel - 1) {
                                Ok(Some(new_child)) => {
                                    let new_node = match node.with_branch_child(nibble, Some(new_child)) {
                                        Ok(n) => n,
                                        Err(e) => {
                                            return Err(e);
                                        },
                                    };
                                    let new_id = new_node.id;
                                    match self.store(&new_node) {
                                        Ok(()) => {},
                                        Err(e) => {
                                            return Err(e);
                                        },
                                    }
                                    proof {
                                        if let Ok(Some((nc, w))) = delete_spec(
                                            nodes,
                                            child_id@,
                                            key_nibbles@.skip(1),
                                            (fuel - 1) as nat,
                                        ) {
                                            assert(w.push(new_node.node_type@).drop_last() =~= w);
                                        }
                                    }
                                    Ok(Some(new_id))
                                },
                                Ok(None) => {
                                    let new_node = match node.with_branch_child(nibble, None) {
                                        Ok(n) => n,
                                        Err(e) => {
                                            return Err(e);
                                        },
                                    };
                                    let new_id = new_node.id;
                                    match self.store(&new_node) {
                                        Ok(()) => {},
                                        Err(e) => {
                                            return Err(e);
                                        },
                                    }
                                    proof {
                                        reveal_with_fuel(insert_all, 2);
                                    }
                                    Ok(Some(new_id))
                                },
                                Err(e) => Err(e),
                            }
                        },
                        None => Ok(None),
                    }
                }
            },
        }
    }

    /// Generate a proof for a key: the nodes a lookup reads, with the value found
    pub fn get_proof(&self, key: &Key) -> (r: TrieResult<StateProof>)
        requires
            2 * key@.len() <= usize::MAX,
        ensures
            match lookup(self.nodes(), self.root_id(), nibbles_of(key@), max_depth()) {
                Ok(v) => (r matches Ok(p) && p.key@ == key@ && opt_vec_view(p.value) == v
                    && p.root_hash@ == self.root_id() && elements_view(p.proof_elements@) == proof_nodes(
                    self.nodes(),
                    visited(self.nodes(), self.root_id(), nibbles_of(key@), max_depth()),
                )) || (r matches Err(e) && storage_failure(e, self.reliable())),
                Err(f) => r matches Err(e) && (reports(e, f) || storage_failure(e, self.reliable())),
            },
    {
        let root_id = self.root;
        let key_nibbles = key_to_nibbles(key.as_slice());
        let mut proof_builder = ProofBuilder::new();
        let value = match self.get_proof_recursive(root_id, key_nibbles.as_slice(), &mut proof_builder, u64::MAX) {
            Ok(v) => v,
            Err(e) => {
                return Err(e);
            },
        };
        assert(proof_builder.elements() =~= Seq::<(Seq<u8>, Seq<u8>)>::empty() + proof_nodes(
            self.nodes(),
            visited(self.nodes(), root_id@, key_nibbles@, u64::MAX as nat),
        ));
        Ok(proof_builder.build(copy_bytes(key), value, root_id))
    }

    fn get_proof_recursive(
        &self,
        node_id: NodeId,
        key_nibbles: &[u8],
        proof_builder: &mut ProofBuilder,
        fuel: u64,
    ) -> (r: TrieResult<Option<Value>>)
        ensures
            match lookup(self.nodes(), node_id@, key_nibbles@, fuel as nat) {
                Ok(v) => (r matches Ok(x) && opt_vec_view(x) == v && final(proof_builder).elements()
                    == old(proof_builder).elements() + proof_nodes(
                    self.nodes(),
                    visited(self.nodes(), node_id@, key_nibbles@, fuel as nat),
                )) || (r matches Err(e) && storage_failure(e, self.reliable())),
                Err(f) => r matches Err(e) && (reports(e, f) || storage_failure(e, self.reliable())),
            },
        decreases fuel,
    {
        if fuel == 0 {
            return Err(MPTError::PathTraversalError);
        }
        let node = match self.fetch(&node_id) {
            Ok(n) => n,
            Err(e) => {
                return Err(e);
            },
        };
        let ghost before = proof_builder.elements();
        let ghost nodes = self.nodes();
        let stored = Node { id: node_id, node_type: node.node_type };
        proof_builder.add_node(&stored);
        let node = stored;
        let ghost here = proof_builder.elements();
        assert(here == before + proof_nodes(nodes, seq![node_id@]));
        match &node.node_type {
            NodeType::Empty => {
                assert(visited(nodes, node_id@, key_nibbles@, fuel as nat) =~= seq![node_id@]);
                Ok(None)
            },
            NodeType::Leaf { path, value } => {
                assert(visited(nodes, node_id@, key_nibbles@, fuel as nat) =~= seq![node_id@]);
                if crate::state::mpt::codec::bytes_equal(path.nibbles.as_slice(), key_nibbles) {
                    Ok(Some(copy_bytes(value)))
                } else {
                    Ok(None)
                }
            },
            NodeType::Extension { path, child } => {
                let plen = path.nibbles.len();
                if key_nibbles.len() < plen || !crate::state::mpt::codec::bytes_equal(
                    slice_subrange(key_nibbles, 0, plen),
                    path.nibbles.as_slice(),
                ) {
                    assert(visited(nodes, node_id@, key_nibbles@, fuel as nat) =~= seq![node_id@]);
                    return Ok(None);
                }
                let r = self.get_proof_recursive(
                    *child,
                    slice_subrange(key_nibbles, plen, key_nibbles.len()),
                    proof_builder,
                    fuel - 1,
                );
                proof {
                    let sub = visited(nodes, child@, key_nibbles@.skip(plen as int), (fuel - 1) as nat);
                    assert(proof_nodes(nodes, seq![node_id@] + sub) =~= proof_nodes(nodes, seq![node_id@])
                        + proof_nodes(nodes, sub));
                }
                r
            },
            NodeType::Branch { children, value } => {
                if key_nibbles.len() == 0 {
                    assert(visited(nodes, node_id@, key_nibbles@, fuel as nat) =~= seq![node_id@]);
                    match value {
                        Some(v) => Ok(Some(copy_bytes(v))),
                        None => Ok(None),
                    }
                } else {
                    let nibble = key_nibbles[0] as usize;
                    if nibble >= 16 {
                        return Err(MPTError::PathTraversalError);
                    }
                    assert(children_view(*children)[nibble as int] == crate::state::mpt::codec::opt_view(children[nibble as int]));
                    match children[nibble] {
                        Some(child_id) => {
                            let r = self.get_proof_recursive(
                                child_id,
                                slice_subrange(key_nibbles, 1, key_nibbles.len()),
                                proof_builder,
                                fuel - 1,
                            );
                            proof {
                                let sub = visited(nodes, child_id@, key_nibbles@.skip(1), (fuel - 1) as nat);
                                assert(proof_nodes(nodes, seq![node_id@] + sub) =~= proof_nodes(
                                    nodes,
                                    seq![node_id@],
                                ) + proof_nodes(nodes, sub));
                            }
                            r
                        },
                        None => {
                            assert(visited(nodes, node_id@, key_nibbles@, fuel as nat) =~= seq![node_id@]);
                            Ok(None)
                        },
                    }
                }
            },
        }
    }

    /// Verify a proof against this trie's root: invalid for another root,
    /// otherwise the proof's own verification
    pub fn verify_proof(&self, proof: &StateProof) -> (r: TrieResult<bool>)
        requires
            2 * proof.key@.len() <= usize::MAX,
        ensures
            proof.root_hash@ != self.root_id() ==> (r matches Ok(b) && !b),
            proof.root_hash@ == self.root_id() ==> match proof_outcome(proof@) {
                Some(b) => r matches Ok(x) && x == b,
                None => r matches Err(MPTError::SerializationError(_)),
            },
    {
        if !same_id(&proof.root_hash, &self.root) {
            return Ok(false);
        }
        proof.verify()
    }

    /// Get all keys in the trie, in the order of a depth-first walk
    pub fn get_all_keys(&self) -> (r: TrieResult<Vec<Key>>)
        ensures
            match keys_below(self.nodes(), self.root_id(), Seq::empty(), max_depth()) {
                Ok(ks) => (r matches Ok(v) && v@.map_values(|k: Key| k@) == ks) || (r matches Err(e)
                    && storage_failure(e, self.reliable())),
                Err(f) => r matches Err(e) && (reports(e, f) || storage_failure(e, self.reliable())),
            },
    {
        let mut keys: Vec<Key> = Vec::new();
        let root_id = self.root;
        match self.collect_keys_recursive(root_id, Vec::new(), &mut keys, u64::MAX) {
            Ok(()) => {
                assert(keys@.map_values(|k: Key| k@) =~= Seq::<Seq<u8>>::empty() + keys_below(
                    self.nodes(),
                    root_id@,
                    Seq::empty(),
                    u64::MAX as nat,
                )->Ok_0);
                Ok(keys)
            },
            Err(e) => Err(e),
        }
    }

    fn collect_keys_recursive(&self, node_id: NodeId, prefix: Vec<u8>, keys: &mut Vec<Key>, fuel: u64) -> (r: TrieResult<()>)
        ensures
            match keys_below(self.nodes(), node_id@, prefix@, fuel as nat) {
                Ok(ks) => (r is Ok && final(keys)@.map_values(|k: Key| k@) == old(keys)@.map_values(
                    |k: Key| k@,
                ) + ks) || (r matches Err(e) && storage_failure(e, self.reliable())),
                Err(f) => r matches Err(e) && (reports(e, f) || storage_failure(e, self.reliable())),
            },
        decreases fuel, 0nat,
    {
        if fuel == 0 {
            return Err(MPTError::PathTraversalError);
        }
        let node = match self.fetch(&node_id) {
            Ok(n) => n,
            Err(e) => {
                return Err(e);
            },
        };
        let ghost nodes = self.nodes();
        let ghost old_keys = keys@.map_values(|k: Key| k@);
        match &node.node_type {
            NodeType::Empty => {
                assert(keys@.map_values(|k: Key| k@) =~= old_keys + Seq::<Seq<u8>>::empty());
                Ok(())
            },
            NodeType::Leaf { path, .. } => {
                let mut full_key = prefix;
                crate::state::mpt::codec::put_raw(&mut full_key, path.nibbles.as_slice());
                let k = nibbles_to_key(full_key.as_slice());
                keys.push(k);
                assert(keys@.map_values(|k: Key| k@) =~= old_keys + seq![k@]);
                Ok(())
            },
            NodeType::Extension { path, child } => {
                let mut new_prefix = prefix;
                crate::state::mpt::codec::put_raw(&mut new_prefix, path.nibbles.as_slice());
                self.collect_keys_recursive(*child, new_prefix, keys, fuel - 1)
            },
            NodeType::Branch { children, value } => {
                let ghost own: Seq<Seq<u8>> = if value is Some {
                    seq![key_of_nibbles(prefix@)]
                } else {
                    Seq::empty()
                };
                if value.is_some() {
                    let k = nibbles_to_key(prefix.as_slice());
                    keys.push(k);
                }
                assert(keys@.map_values(|k: Key| k@) =~= old_keys + own);
                let ghost cs = children_view(*children);
                let mut i: usize = 0;
                while i < 16
                    invariant
                        i <= 16,
                        fuel > 0,
                        nodes == self.nodes(),
                        cs == children_view(*children),
                        self.nodes().contains_key(node_id@),
                        self.nodes()[node_id@] == node.node_type@,
                        node.node_type matches NodeType::Branch { children: c2, .. } && c2 == *children,
                        children_keys(nodes, cs, prefix@, 0, (fuel - 1) as nat) == match children_keys(
                            nodes,
                            cs,
                            prefix@,
                            i as nat,
                            (fuel - 1) as nat,
                        ) {
                            Ok(rest) => Ok(keys@.map_values(|k: Key| k@).skip((old_keys + own).len() as int)
                                + rest),
                            Err(f) => Err(f),
                        },
                        keys@.map_values(|k: Key| k@).take((old_keys + own).len() as int) == old_keys + own,
                        keys@.len() >= (old_keys + own).len(),
                    decreases 16 - i,
                {
                    assert(cs[i as int] == crate::state::mpt::codec::opt_view(children[i as int]));
                    match children[i] {
                        Some(child_id) => {
                            let mut new_prefix = copy_bytes(&prefix);
                            new_prefix.push(i as u8);
                            let ghost pre = keys@.map_values(|k: Key| k@);
                            match self.collect_keys_recursive(child_id, new_prefix, keys, fuel - 1) {
                                Ok(()) => {
                                    proof {
                                        let ks = keys_below(nodes, child_id@, prefix@.push(i as u8), (fuel - 1) as nat)->Ok_0;
                                        let base = (old_keys + own).len() as int;
                                        assert(keys@.map_values(|k: Key| k@) == pre + ks);
                                        assert((pre + ks).take(base) =~= pre.take(base));
                                        assert((pre + ks).skip(base) =~= pre.skip(base) + ks);
                                        match children_keys(nodes, cs, prefix@, (i + 1) as nat, (fuel - 1) as nat) {
                                            Ok(rest) => {
                                                assert(pre.skip(base) + (ks + rest) =~= (pre.skip(base) + ks) + rest);
                                            },
                                            Err(f) => {},
                                        }
                                    }
                                },
                                Err(e) => {
                                    return Err(e);
                                },
                            }
                        },
                        None => {
                            proof {
                                match children_keys(nodes, cs, prefix@, (i + 1) as nat, (fuel - 1) as nat) {
                                    Ok(rest) => {
                                        assert(Seq::<Seq<u8>>::empty() + rest =~= rest);
                                    },
                                    Err(f) => {},
                                }
                            }
                        },
                    }
                    i = i + 1;
                }
                proof {
                    let base = (old_keys + own).len() as int;
                    let all = keys@.map_values(|k: Key| k@);
                    assert(all.skip(base) + Seq::<Seq<u8>>::empty() =~= all.skip(base));
                    assert(all =~= all.take(base) + all.skip(base));
                    assert(all =~= old_keys + (own + all.skip(base)));
                }
                Ok(())
            },
        }
    }

    /// Get the number of key-value pairs in the trie
    pub fn len(&self) -> (r: TrieResult<usize>)
        ensures
            match keys_below(self.nodes(), self.root_id(), Seq::empty(), max_depth()) {
                Ok(ks) => (r matches Ok(n) && n == ks.len()) || (r matches Err(e) && storage_failure(
                    e,
                    self.reliable(),
                )),
                Err(f) => r matches Err(e) && (reports(e, f) || storage_failure(e, self.reliable())),
            },
    {
        match self.get_all_keys() {
            Ok(keys) => Ok(keys.len()),
            Err(e) => Err(e),
        }
    }

    /// Check if the trie is empty: its root is the empty node
    pub fn is_empty(&self) -> (r: bool)
        ensures
            r == (self.root_id() == node_id_of(NodeView::Empty)),
    {
        let empty = Node::new_empty();
        same_id(&self.root, &empty.id)
    }

    /// Set the root node of the trie
    pub fn set_root(&mut self, root_hash: crate::state::mpt::lib::Hash)
        ensures
            final(self).root_id() == root_hash@,
            final(self).nodes() == old(self).nodes(),
            final(self).reliable() == old(self).reliable(),
    {
        self.root = root_hash;
    }

    /// Add metadata to the trie: the value stored under `metadata:` and the key
    pub fn add_metadata(&mut self, key: String, value: String) -> (r: TrieResult<()>)
        requires
            2 * metadata_key(key@).len() <= usize::MAX,
            !(put_spec(
                old(self).nodes(),
                old(self).root_id(),
                nibbles_of(metadata_key(key@)),
                vstd::utf8::encode_utf8(value@),
                max_depth(),
            ) matches Err(TrieFault::Undefined)),
        ensures
            final(self).reliable() == old(self).reliable(),
            match put_spec(
                old(self).nodes(),
                old(self).root_id(),
                nibbles_of(metadata_key(key@)),
                vstd::utf8::encode_utf8(value@),
                max_depth(),
            ) {
                Ok((root, w)) => (r is Ok && final(self).root_id() == root && final(self).nodes()
                    == insert_all(old(self).nodes(), w)) || (r matches Err(e) && storage_failure(
                    e,
                    old(self).reliable(),
                )),
                Err(f) => r matches Err(e) && (reports(e, f) || storage_failure(e, old(self).reliable())),
            },
    {
        let mut metadata_key: Vec<u8> = Vec::new();
        crate::state::mpt::codec::put_raw(&mut metadata_key, "metadata:".as_bytes());
        crate::state::mpt::codec::put_raw(&mut metadata_key, key.as_str().as_bytes());
        let mut v: Vec<u8> = Vec::new();
        crate::state::mpt::codec::put_raw(&mut v, value.as_str().as_bytes());
        self.put(metadata_key, v)
    }

    /// Insert `key` with `value` where the insertion is defined; otherwise
    /// (a key too long to split into nibbles, or an insertion that is not
    /// defined) nothing changes and `PathTraversalError` is returned.
    pub fn put_checked(&mut self, key: Key, value: Value) -> (r: TrieResult<()>)
        ensures
            final(self).reliable() == old(self).reliable(),
            r matches Err(MPTError::PathTraversalError) && (2 * key@.len() > usize::MAX || put_spec(
                old(self).nodes(),
                old(self).root_id(),
                nibbles_of(key@),
                value@,
                max_depth(),
            ) matches Err(TrieFault::Undefined)) ==> final(self).root_id() == old(self).root_id()
                && final(self).nodes() == old(self).nodes(),
            (2 * key@.len() > usize::MAX || (put_spec(
                old(self).nodes(),
                old(self).root_id(),
                nibbles_of(key@),
                value@,
                max_depth(),
            ) matches Err(TrieFault::Undefined))) ==> (r matches Err(MPTError::PathTraversalError)),
            2 * key@.len() <= usize::MAX && !(put_spec(
                old(self).nodes(),
                old(self).root_id(),
                nibbles_of(key@),
                value@,
                max_depth(),
            ) matches Err(TrieFault::Undefined)) ==> match put_spec(
                old(self).nodes(),
                old(self).root_id(),
                nibbles_of(key@),
                value@,
                max_depth(),
            ) {
                Ok((root, w)) => (r is Ok && final(self).root_id() == root && final(self).nodes()
                    == insert_all(old(self).nodes(), w)) || (r is Err && !old(self).reliable()),
                Err(f) => r matches Err(e) && (reports(e, f) || !old(self).reliable()),
            },
    {
        if key.len() > usize::MAX / 2 {
            return Err(MPTError::PathTraversalError);
        }
        let nibbles = key_to_nibbles(key.as_slice());
        if !self.insertion_defined(self.root, nibbles.as_slice(), u64::MAX) {
            return Err(MPTError::PathTraversalError);
        }
        self.put(key, value)
    }

    /// Store metadata `key` with `value` (both as bytes) where the insertion
    /// is defined; the outcome is not reported. The root changes only to the
    /// root of a completed insertion.
    pub(crate) fn try_add_metadata(&mut self, key: &[u8], value: &[u8])
        ensures
            final(self).reliable() == old(self).reliable(),
            final(self).root_id() == old(self).root_id() || (put_spec(
                old(self).nodes(),
                old(self).root_id(),
                nibbles_of(vstd::utf8::encode_utf8("metadata:"@) + key@),
                value@,
                max_depth(),
            ) matches Ok((root, w)) && final(self).root_id() == root && final(self).nodes()
                == insert_all(old(self).nodes(), w)),
            old(self).reliable() && 2 * (vstd::utf8::encode_utf8("metadata:"@) + key@).len() <= usize::MAX ==> match put_spec(
                old(self).nodes(),
                old(self).root_id(),
                nibbles_of(vstd::utf8::encode_utf8("metadata:"@) + key@),
                value@,
                max_depth(),
            ) {
                Ok((root, w)) => final(self).root_id() == root && final(self).nodes() == insert_all(old(self).nodes(), w),
                Err(_) => final(self).root_id() == old(self).root_id(),
            },
    {
        let mut metadata_key: Vec<u8> = Vec::new();
        crate::state::mpt::codec::put_raw(&mut metadata_key, "metadata:".as_bytes());
        crate::state::mpt::codec::put_raw(&mut metadata_key, key);
        if metadata_key.len() > usize::MAX / 2 {
            return;
        }
        let nibbles = key_to_nibbles(metadata_key.as_slice());
        if self.insertion_defined(self.root, nibbles.as_slice(), u64::MAX) {
            let mut v: Vec<u8> = Vec::new();
            crate::state::mpt::codec::put_raw(&mut v, value);
            let _ = self.put(metadata_key, v);
        }
    }

    /// Get a clone of the underlying storage
    pub fn get_storage_clone(&self) -> (r: S) where S: Clone
        ensures
            vstd::pervasive::cloned(self.storage_value(), r),
    {
        self.storage.clone()
    }

    /// Read access to the underlying storage.
    pub(crate) fn storage_ref(&self) -> (r: &S)
        ensures
            *r == self.storage_value(),
    {
        &self.storage
    }

    /// Get mutable access to the underlying storage for direct operations
    pub fn get_storage_mut(&mut self) -> (r: &mut S)
        ensures
            *r == old(self).storage_value(),
            final(self).storage_value() == *final(r),
            final(self).root_id() == old(self).root_id(),
    {
        &mut self.storage
    }
}

impl MerklePatriciaTrie<InMemoryStorage> {
    /// Create a new in-memory MPT holding only the empty root node
    pub fn new_in_memory() -> (r: Self)
        ensures
            r.root_id() == node_id_of(NodeView::Empty),
            r.reliable(),
            r.nodes() == Map::<Seq<u8>, NodeView>::empty().insert(
                node_id_of(NodeView::Empty),
                NodeView::Empty,
            ),
    {
        Self::new(InMemoryStorage::new())
    }
}

} // verus!
