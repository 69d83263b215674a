//! What a read gives back after a write: the value stored under a key can
//! be read back under it, as long as the written nodes do not clash with
//! stored nodes of the same identifier.
use vstd::prelude::*;

use crate::state::mpt::lib::{common_len, lemma_common_len_bound};
use crate::state::mpt::node::{NodeView, node_id_of};
use crate::state::mpt::trie::{
    delete_spec, extension_view, insert_all, leaf_view, lookup, max_depth, no_children, put_spec, split_extension_spec, split_leaf_spec,
    starts_with,
};

verus! {

/// Whether writing `w` in order over `m` never replaces a stored node by a
/// different one: each node written is new under its identifier or equal to
/// the node already there (as content addressing gives).
pub open spec fn writes_consistent(m: Map<Seq<u8>, NodeView>, w: Seq<NodeView>) -> bool
    decreases w.len(),
{
    if w.len() == 0 {
        true
    } else {
        let prev = insert_all(m, w.drop_last());
        &&& writes_consistent(m, w.drop_last())
        &&& prev.contains_key(node_id_of(w.last())) ==> prev[node_id_of(w.last())] == w.last()
    }
}

/// Whether every branch node stored in `m` has its sixteen child slots.
pub open spec fn branches_full(m: Map<Seq<u8>, NodeView>) -> bool {
    forall|id: Seq<u8>| #[trigger] m.contains_key(id) ==> (m[id] matches NodeView::Branch { children, .. } ==> children.len() == 16)
}

/// Whether `m2` keeps every node of `m1`.
pub open spec fn extends(m1: Map<Seq<u8>, NodeView>, m2: Map<Seq<u8>, NodeView>) -> bool {
    forall|id: Seq<u8>| #[trigger] m1.contains_key(id) ==> m2.contains_key(id) && m2[id] == m1[id]
}

/// Consistent writes keep the stored nodes and hold every written node under
/// its identifier.
proof fn lemma_insert_all_consistent(m: Map<Seq<u8>, NodeView>, w: Seq<NodeView>)
    requires
        writes_consistent(m, w),
    ensures
        extends(m, insert_all(m, w)),
        forall|i: int| 0 <= i < w.len() ==> insert_all(m, w).contains_key(node_id_of(#[trigger] w[i]))
            && insert_all(m, w)[node_id_of(w[i])] == w[i],
    decreases w.len(),
{
    if w.len() > 0 {
        let p = w.drop_last();
        lemma_insert_all_consistent(m, p);
        let mp = insert_all(m, p);
        let n = w.last();
        assert forall|i: int| 0 <= i < w.len() implies insert_all(m, w).contains_key(node_id_of(#[trigger] w[i]))
            && insert_all(m, w)[node_id_of(w[i])] == w[i] by {
            if i < w.len() - 1 {
                assert(w[i] == p[i]);
                assert(mp.contains_key(node_id_of(p[i])));
            }
        }
    }
}

/// A prefix of consistent writes is consistent.
proof fn lemma_consistent_prefix(m: Map<Seq<u8>, NodeView>, w: Seq<NodeView>, n: NodeView)
    requires
        writes_consistent(m, w.push(n)),
    ensures
        writes_consistent(m, w),
        insert_all(m, w.push(n)) == insert_all(m, w).insert(node_id_of(n), n),
{
    assert(w.push(n).drop_last() =~= w);
}

/// A lookup that succeeds gives the same answer in a map that keeps the
/// nodes it read.
proof fn lemma_lookup_extends(m1: Map<Seq<u8>, NodeView>, m2: Map<Seq<u8>, NodeView>, id: Seq<u8>, key: Seq<u8>, f: nat)
    requires
        extends(m1, m2),
        lookup(m1, id, key, f) is Ok,
    ensures
        lookup(m2, id, key, f) == lookup(m1, id, key, f),
    decreases f,
{
    if f > 0 && m1.contains_key(id) {
        assert(m2.contains_key(id) && m2[id] == m1[id]);
        match m1[id] {
            NodeView::Extension { path, child, .. } => {
                if starts_with(key, path) {
                    lemma_lookup_extends(m1, m2, child, key.skip(path.len() as int), (f - 1) as nat);
                }
            },
            NodeView::Branch { children, .. } => {
                if key.len() > 0 && key[0] < 16 {
                    if let Some(c) = children[key[0] as int] {
                        lemma_lookup_extends(m1, m2, c, key.skip(1), (f - 1) as nat);
                    }
                }
            },
            _ => {},
        }
    }
}

/// A key starts with its first `c` nibbles.
proof fn lemma_starts_with_take(key: Seq<u8>, c: int)
    requires
        0 <= c <= key.len(),
    ensures
        starts_with(key, key.take(c)),
        key.skip(c) == key.skip(c),
{
    assert(key.take(c).len() == c);
    assert(key.take(c as int).take(c) =~= key.take(c));
}

/// A leaf split holds the new value under the new path, within three reads.
proof fn lemma_split_leaf_reads(
    m: Map<Seq<u8>, NodeView>,
    op: Seq<u8>,
    ov: Seq<u8>,
    np: Seq<u8>,
    nv: Seq<u8>,
    f: nat,
)
    requires
        op != np,
        split_leaf_spec(op, ov, np, nv) matches Ok((r, w)) && forall|i: int|
            0 <= i < w.len() ==> m.contains_key(node_id_of(#[trigger] w[i])) && m[node_id_of(w[i])] == w[i],
        f >= 2,
        common_len(op, np) > 0 ==> f >= 3,
    ensures
        split_leaf_spec(op, ov, np, nv) matches Ok((r, w)) && lookup(m, r, np, f) == Ok::<Option<Seq<u8>>, crate::state::mpt::trie::TrieFault>(Some(nv)),
    decreases op.len(),
{
    let c = common_len(op, np);
    lemma_common_len_bound(op, np);
    let (r, w) = split_leaf_spec(op, ov, np, nv)->Ok_0;
    if c == 0 {
        if op.len() == 0 {
            if np.len() != 0 {
                let nl = leaf_view(np.skip(1), nv);
                assert(w[0] == nl);
                assert(m[node_id_of(w[0])] == nl);
                assert(w[1] == m[r]);
                assert(lookup(m, node_id_of(nl), np.skip(1), (f - 1) as nat) == Ok::<Option<Seq<u8>>, crate::state::mpt::trie::TrieFault>(Some(nv)));
                if let NodeView::Branch { children, .. } = m[r] {
                    assert(children[np[0] as int] == Some(node_id_of(nl)));
                }
            } else {
                assert(op =~= np);
            }
        } else if np.len() == 0 {
            assert(w[1] == m[r]);
        } else {
            let ol = leaf_view(op.skip(1), ov);
            let nl = leaf_view(np.skip(1), nv);
            assert(w[1] == nl);
            assert(m[node_id_of(w[1])] == nl);
            assert(w[2] == m[r]);
            assert(op[0] != np[0]);
            assert(lookup(m, node_id_of(nl), np.skip(1), (f - 1) as nat) == Ok::<Option<Seq<u8>>, crate::state::mpt::trie::TrieFault>(Some(nv)));
            if let NodeView::Branch { children, .. } = m[r] {
                assert(children[np[0] as int] == Some(node_id_of(nl)));
            }
        }
    } else {
        let os = op.skip(c as int);
        let ns = np.skip(c as int);
        assert(os != ns) by {
            if os == ns {
                assert(op =~= op.take(c as int) + os);
                assert(np =~= np.take(c as int) + ns);
                assert(op.take(c as int) =~= np.take(c as int));
            }
        }
        let (bid, w1) = split_leaf_spec(os, ov, ns, nv)->Ok_0;
        assert(w == w1.push(extension_view(op.take(c as int), bid)));
        assert forall|i: int| 0 <= i < w1.len() implies m.contains_key(node_id_of(#[trigger] w1[i])) && m[node_id_of(w1[i])] == w1[i] by {
            assert(w[i] == w1[i]);
        }
        lemma_split_leaf_reads(m, os, ov, ns, nv, (f - 1) as nat);
        assert(w[w1.len() as int] == m[r]);
        assert(op.take(c as int) =~= np.take(c as int));
        lemma_starts_with_take(np, c as int);
    }
}

/// Setting `key` to `value` below node `id` (within fuel `g`) and writing
/// the nodes consistently, a lookup with at least two more steps of fuel
/// reads `value` back from the new root.
pub proof fn lemma_put_reads(m: Map<Seq<u8>, NodeView>, id: Seq<u8>, key: Seq<u8>, value: Seq<u8>, g: nat, f: nat)
    requires
        put_spec(m, id, key, value, g) matches Ok((r, w)) && writes_consistent(m, w),
        branches_full(m),
        f >= g + 2,
    ensures
        put_spec(m, id, key, value, g) matches Ok((r, w)) && lookup(insert_all(m, w), r, key, f) == Ok::<
            Option<Seq<u8>>,
            crate::state::mpt::trie::TrieFault,
        >(Some(value)),
    decreases g,
{
    let (r, w) = put_spec(m, id, key, value, g)->Ok_0;
    let mw = insert_all(m, w);
    lemma_insert_all_consistent(m, w);
    match m[id] {
        NodeView::Empty => {
            assert(w[0] == mw[r]);
            assert(mw.contains_key(node_id_of(w[0])));
            assert(lookup(mw, r, key, f) == Ok::<Option<Seq<u8>>, crate::state::mpt::trie::TrieFault>(Some(value)));
        },
        NodeView::Leaf { path, leaf, value: ov } => {
            if path == key {
                assert(w[0] == mw[r]);
            } else {
                lemma_split_leaf_reads(mw, path, ov, key, value, f);
            }
        },
        NodeView::Extension { path, leaf, child } => {
            let c = common_len(path, key);
            lemma_common_len_bound(path, key);
            if c == path.len() {
                let (nc, w1) = put_spec(m, child, key.skip(c as int), value, (g - 1) as nat)->Ok_0;
                let n = NodeView::Extension { path, leaf, child: nc };
                assert(w == w1.push(n));
                lemma_consistent_prefix(m, w1, n);
                lemma_put_reads(m, child, key.skip(c as int), value, (g - 1) as nat, (f - 1) as nat);
                lemma_insert_all_consistent(m, w);
                let m1 = insert_all(m, w1);
                assert(extends(m1, mw)) by {
                    assert(w.drop_last() =~= w1);
                    assert(seq![n].drop_last() =~= Seq::<NodeView>::empty());
                    assert(insert_all(m1, Seq::<NodeView>::empty()) == m1);
                    assert(w.last() == n);
                    assert(writes_consistent(m1, Seq::<NodeView>::empty()));
                    assert(writes_consistent(m1, seq![n]));
                    assert(insert_all(m1, seq![n]) == mw);
                    lemma_insert_all_consistent(m1, seq![n]);
                }
                lemma_lookup_extends(m1, mw, nc, key.skip(c as int), (f - 1) as nat);
                assert(w[w1.len() as int] == n);
                assert(mw.contains_key(node_id_of(w[w1.len() as int])));
                assert(mw[r] == n);
                assert(path =~= key.take(c as int));
                lemma_starts_with_take(key, c as int);
            } else {
                assert forall|i: int| 0 <= i < w.len() implies mw.contains_key(node_id_of(#[trigger] w[i])) && mw[node_id_of(w[i])] == w[i] by {}
                lemma_split_extension_reads(mw, path, child, key, value, c, f);
            }
        },
        NodeView::Branch { children, value: bv } => {
            if key.len() == 0 {
                assert(w[0] == mw[r]);
            } else {
                let cid = match children[key[0] as int] {
                    Some(x) => x,
                    None => node_id_of(NodeView::Empty),
                };
                let (nc, w1) = put_spec(m, cid, key.skip(1), value, (g - 1) as nat)->Ok_0;
                let n = NodeView::Branch { children: children.update(key[0] as int, Some(nc)), value: bv };
                assert(w == w1.push(n));
                lemma_consistent_prefix(m, w1, n);
                lemma_put_reads(m, cid, key.skip(1), value, (g - 1) as nat, (f - 1) as nat);
                let m1 = insert_all(m, w1);
                assert(extends(m1, mw)) by {
                    assert(w.drop_last() =~= w1);
                    assert(seq![n].drop_last() =~= Seq::<NodeView>::empty());
                    assert(insert_all(m1, Seq::<NodeView>::empty()) == m1);
                    assert(w.last() == n);
                    assert(writes_consistent(m1, Seq::<NodeView>::empty()));
                    assert(writes_consistent(m1, seq![n]));
                    assert(insert_all(m1, seq![n]) == mw);
                    lemma_insert_all_consistent(m1, seq![n]);
                }
                lemma_lookup_extends(m1, mw, nc, key.skip(1), (f - 1) as nat);
                assert(w[w1.len() as int] == n);
                assert(mw.contains_key(node_id_of(w[w1.len() as int])));
                assert(mw[r] == n);
                assert(key[0] < 16);
                assert(children.update(key[0] as int, Some(nc))[key[0] as int] == Some(nc));
                assert(lookup(mw, r, key, f) == Ok::<Option<Seq<u8>>, crate::state::mpt::trie::TrieFault>(Some(value)));
            }
        },
    }
}

/// An extension split holds the new value under the key, within three reads.
proof fn lemma_split_extension_reads(
    m: Map<Seq<u8>, NodeView>,
    path: Seq<u8>,
    child: Seq<u8>,
    key: Seq<u8>,
    value: Seq<u8>,
    c: nat,
    f: nat,
)
    requires
        c == common_len(path, key),
        c < path.len(),
        split_extension_spec(path, child, key, value, c) matches Ok((r, w)) && forall|i: int|
            0 <= i < w.len() ==> m.contains_key(node_id_of(#[trigger] w[i])) && m[node_id_of(w[i])] == w[i],
        f >= 3,
    ensures
        split_extension_spec(path, child, key, value, c) matches Ok((r, w)) && lookup(m, r, key, f) == Ok::<
            Option<Seq<u8>>,
            crate::state::mpt::trie::TrieFault,
        >(Some(value)),
{
    lemma_common_len_bound(path, key);
    let (r, w) = split_extension_spec(path, child, key, value, c)->Ok_0;
    let ks = key.skip(c as int);
    if c > 0 {
        lemma_starts_with_take(key, c as int);
    }
    if c == key.len() {
        let bi = w.len() - 1 - (if c > 0 { 1int } else { 0int });
        let b = w[bi];
        assert(m.contains_key(node_id_of(w[bi])));
        assert(m[node_id_of(b)] == b);
        assert(b matches NodeView::Branch { value: Some(v), .. } && v == value);
        assert(ks.len() == 0);
        assert(lookup(m, node_id_of(b), ks, (f - 1) as nat) == Ok::<Option<Seq<u8>>, crate::state::mpt::trie::TrieFault>(Some(value)));
        if c == 0 {
            assert(ks =~= key);
            assert(r == node_id_of(b));
            assert(lookup(m, node_id_of(b), key, f) == Ok::<Option<Seq<u8>>, crate::state::mpt::trie::TrieFault>(Some(value)));
        } else {
            let e = w[w.len() - 1];
            assert(e == extension_view(key.take(c as int), node_id_of(b)));
            assert(r == node_id_of(e));
            assert(m[r] == e);
            assert(key.take(c as int).len() == c);
        }
    } else {
        assert(key[c as int] != path[c as int]);
        let nl = leaf_view(key.skip((c + 1) as int), value);
        let b = w[w.len() - 1 - (if c > 0 { 1int } else { 0int })];
        let k = w.len() - 2 - (if c > 0 { 1int } else { 0int });
        assert(w[k] == nl);
        assert(m[node_id_of(w[k])] == nl);
        assert(m[node_id_of(b)] == b);
        assert(ks[0] == key[c as int]);
        assert(ks.skip(1) =~= key.skip((c + 1) as int));
        assert(lookup(m, node_id_of(nl), ks.skip(1), (f - 2) as nat) == Ok::<Option<Seq<u8>>, crate::state::mpt::trie::TrieFault>(Some(value)));
        if let NodeView::Branch { children, value: bv } = b {
            assert(children[key[c as int] as int] == Some(node_id_of(nl)));
        }
        assert(lookup(m, node_id_of(b), ks, (f - 1) as nat) == Ok::<Option<Seq<u8>>, crate::state::mpt::trie::TrieFault>(Some(value)));
        if c == 0 {
            assert(ks =~= key);
            assert(r == node_id_of(b));
            assert(lookup(m, node_id_of(nl), key.skip(1), (f - 1) as nat) == Ok::<Option<Seq<u8>>, crate::state::mpt::trie::TrieFault>(Some(value)));
            assert(lookup(m, node_id_of(b), key, f) == Ok::<Option<Seq<u8>>, crate::state::mpt::trie::TrieFault>(Some(value)));
        } else {
            let e = w[w.len() - 1];
            assert(e == extension_view(key.take(c as int), node_id_of(b)));
            assert(r == node_id_of(e));
            assert(m[r] == e);
            assert(key.take(c as int).len() == c);
        }
    }
}

/// More fuel does not change a write that succeeds.
proof fn lemma_put_fuel(m: Map<Seq<u8>, NodeView>, id: Seq<u8>, key: Seq<u8>, value: Seq<u8>, g: nat, h: nat)
    requires
        put_spec(m, id, key, value, g) is Ok,
        g <= h,
    ensures
        put_spec(m, id, key, value, h) == put_spec(m, id, key, value, g),
    decreases g,
{
    match m[id] {
        NodeView::Extension { path, child, .. } => {
            let c = common_len(path, key);
            if c == path.len() {
                lemma_put_fuel(m, child, key.skip(c as int), value, (g - 1) as nat, (h - 1) as nat);
            }
        },
        NodeView::Branch { children, .. } => {
            if key.len() > 0 && key[0] < 16 {
                let cid = match children[key[0] as int] {
                    Some(x) => x,
                    None => node_id_of(NodeView::Empty),
                };
                lemma_put_fuel(m, cid, key.skip(1), value, (g - 1) as nat, (h - 1) as nat);
            }
        },
        _ => {},
    }
}

/// Read after write: once `key` (a nibble path) is set to `value` from the
/// root `root`, a lookup of `key` from the new root gives `value` back,
/// provided the written nodes do not clash with stored ones of the same
/// identifier, every stored branch has its sixteen slots, and the write
/// succeeds two levels short of the depth bound.
pub proof fn lemma_read_after_write(nodes: Map<Seq<u8>, NodeView>, root: Seq<u8>, key: Seq<u8>, value: Seq<u8>)
    requires
        put_spec(nodes, root, key, value, (max_depth() - 2) as nat) is Ok,
        put_spec(nodes, root, key, value, max_depth()) matches Ok((r, w)) && writes_consistent(nodes, w),
        branches_full(nodes),
    ensures
        put_spec(nodes, root, key, value, max_depth()) matches Ok((r, w)) && lookup(insert_all(nodes, w), r, key, max_depth())
            == Ok::<Option<Seq<u8>>, crate::state::mpt::trie::TrieFault>(Some(value)),
{
    lemma_put_fuel(nodes, root, key, value, (max_depth() - 2) as nat, max_depth());
    lemma_put_reads(nodes, root, key, value, (max_depth() - 2) as nat, max_depth());
}

/// Removing `key` below node `id` (within fuel `g`): when something was
/// removed and the nodes are written consistently, a lookup from the new
/// root finds nothing under `key`; when nothing was removed, a lookup from
/// `id` finds nothing under it either.
pub proof fn lemma_delete_reads(m: Map<Seq<u8>, NodeView>, id: Seq<u8>, key: Seq<u8>, g: nat, f: nat)
    requires
        delete_spec(m, id, key, g) is Ok,
        delete_spec(m, id, key, g) matches Ok(Some((r, w))) ==> writes_consistent(m, w),
        branches_full(m),
        m.contains_key(node_id_of(NodeView::Empty)) && m[node_id_of(NodeView::Empty)] == NodeView::Empty,
        f >= g,
    ensures
        match delete_spec(m, id, key, g) {
            Ok(Some((r, w))) => lookup(insert_all(m, w), r, key, f) == Ok::<Option<Seq<u8>>, crate::state::mpt::trie::TrieFault>(None),
            Ok(None) => lookup(m, id, key, f) == Ok::<Option<Seq<u8>>, crate::state::mpt::trie::TrieFault>(None),
            Err(_) => true,
        },
    decreases g,
{
    match m[id] {
        NodeView::Empty => {},
        NodeView::Leaf { .. } => {},
        NodeView::Extension { path, leaf, child } => {
            if starts_with(key, path) {
                let ks = key.skip(path.len() as int);
                if let Ok(Some((nc, w1))) = delete_spec(m, child, ks, (g - 1) as nat) {
                    let n = NodeView::Extension { path, leaf, child: nc };
                    lemma_consistent_prefix(m, w1, n);
                }
                lemma_delete_reads(m, child, ks, (g - 1) as nat, (f - 1) as nat);
                if let Ok(Some((nc, w1))) = delete_spec(m, child, ks, (g - 1) as nat) {
                    let n = NodeView::Extension { path, leaf, child: nc };
                    let w = w1.push(n);
                    let mw = insert_all(m, w);
                    let m1 = insert_all(m, w1);
                    assert(w.drop_last() =~= w1);
                    lemma_consistent_prefix(m, w1, n);
                    lemma_insert_all_consistent(m, w1);
                    lemma_insert_all_consistent(m, w);
                    assert(extends(m1, mw)) by {
                        assert(seq![n].drop_last() =~= Seq::<NodeView>::empty());
                        assert(insert_all(m1, Seq::<NodeView>::empty()) == m1);
                        assert(writes_consistent(m1, Seq::<NodeView>::empty()));
                        assert(writes_consistent(m1, seq![n]));
                        assert(insert_all(m1, seq![n]) == mw);
                        lemma_insert_all_consistent(m1, seq![n]);
                    }
                    lemma_lookup_extends(m1, mw, nc, ks, (f - 1) as nat);
                    assert(w[w1.len() as int] == n);
                    assert(mw.contains_key(node_id_of(w[w1.len() as int])));
                }
            }
        },
        NodeView::Branch { children, value } => {
            if key.len() > 0 && key[0] < 16 {
                assert(m.contains_key(id));
                assert(children.len() == 16);
                if let Some(c) = children[key[0] as int] {
                    if let Ok(Some((nc, w1))) = delete_spec(m, c, key.skip(1), (g - 1) as nat) {
                        let n = NodeView::Branch { children: children.update(key[0] as int, Some(nc)), value };
                        lemma_consistent_prefix(m, w1, n);
                    }
                    lemma_delete_reads(m, c, key.skip(1), (g - 1) as nat, (f - 1) as nat);
                    match delete_spec(m, c, key.skip(1), (g - 1) as nat) {
                        Ok(Some((nc, w1))) => {
                            let n = NodeView::Branch { children: children.update(key[0] as int, Some(nc)), value };
                            let w = w1.push(n);
                            let mw = insert_all(m, w);
                            let m1 = insert_all(m, w1);
                            assert(w.drop_last() =~= w1);
                            lemma_consistent_prefix(m, w1, n);
                            lemma_insert_all_consistent(m, w1);
                            lemma_insert_all_consistent(m, w);
                            assert(extends(m1, mw)) by {
                                assert(seq![n].drop_last() =~= Seq::<NodeView>::empty());
                                assert(insert_all(m1, Seq::<NodeView>::empty()) == m1);
                                assert(writes_consistent(m1, Seq::<NodeView>::empty()));
                                assert(writes_consistent(m1, seq![n]));
                                assert(insert_all(m1, seq![n]) == mw);
                                lemma_insert_all_consistent(m1, seq![n]);
                            }
                            lemma_lookup_extends(m1, mw, nc, key.skip(1), (f - 1) as nat);
                            assert(w[w1.len() as int] == n);
                            assert(mw.contains_key(node_id_of(w[w1.len() as int])));
                            assert(children.update(key[0] as int, Some(nc))[key[0] as int] == Some(nc));
                        },
                        Ok(None) => {
                            let n = NodeView::Branch { children: children.update(key[0] as int, None), value };
                            let w = seq![n];
                            lemma_insert_all_consistent(m, w);
                            assert(w[0] == n);
                            assert(insert_all(m, w).contains_key(node_id_of(w[0])));
                            assert(children.update(key[0] as int, None)[key[0] as int] == None::<Seq<u8>>);
                        },
                        Err(_) => {},
                    }
                }
            } else if key.len() == 0 {
                if value is Some {
                    let n = NodeView::Branch { children, value: None };
                    let w = seq![n];
                    lemma_insert_all_consistent(m, w);
                    assert(w[0] == n);
                    assert(insert_all(m, w).contains_key(node_id_of(w[0])));
                }
            }
        },
    }
}

/// Read after delete: once `key` (a nibble path) is removed from the root
/// `root`, a lookup of `key` from the resulting root finds nothing, provided
/// the written nodes do not clash with stored ones, every stored branch has
/// its sixteen slots, and the empty node is stored under its identifier.
pub proof fn lemma_read_after_delete(nodes: Map<Seq<u8>, NodeView>, root: Seq<u8>, key: Seq<u8>)
    requires
        delete_spec(nodes, root, key, max_depth()) is Ok,
        delete_spec(nodes, root, key, max_depth()) matches Ok(Some((r, w))) ==> writes_consistent(nodes, w),
        branches_full(nodes),
        nodes.contains_key(node_id_of(NodeView::Empty)) && nodes[node_id_of(NodeView::Empty)] == NodeView::Empty,
    ensures
        match delete_spec(nodes, root, key, max_depth()) {
            Ok(Some((r, w))) => lookup(insert_all(nodes, w), r, key, max_depth()) == Ok::<Option<Seq<u8>>, crate::state::mpt::trie::TrieFault>(None),
            Ok(None) => lookup(nodes, root, key, max_depth()) == Ok::<Option<Seq<u8>>, crate::state::mpt::trie::TrieFault>(None),
            Err(_) => true,
        },
{
    lemma_delete_reads(nodes, root, key, max_depth(), max_depth());
}

/// Whether every nibble of `k` is below 16.
pub open spec fn nibbles_valid(k: Seq<u8>) -> bool {
    forall|i: int| 0 <= i < k.len() ==> #[trigger] k[i] < 16
}

/// Splitting `k` after `c` nibbles and joining the parts gives `k`.
proof fn lemma_take_skip(k: Seq<u8>, c: int)
    requires
        0 <= c <= k.len(),
    ensures
        k =~= k.take(c) + k.skip(c),
{
}

/// A lookup that succeeds gives the same answer with more fuel.
proof fn lemma_lookup_fuel(m: Map<Seq<u8>, NodeView>, id: Seq<u8>, key: Seq<u8>, f: nat, h: nat)
    requires
        lookup(m, id, key, f) is Ok,
        f <= h,
    ensures
        lookup(m, id, key, h) == lookup(m, id, key, f),
    decreases f,
{
    if m.contains_key(id) {
        match m[id] {
            NodeView::Extension { path, child, .. } => {
                if starts_with(key, path) {
                    lemma_lookup_fuel(m, child, key.skip(path.len() as int), (f - 1) as nat, (h - 1) as nat);
                }
            },
            NodeView::Branch { children, .. } => {
                if key.len() > 0 && key[0] < 16 {
                    if let Some(c) = children[key[0] as int] {
                        lemma_lookup_fuel(m, c, key.skip(1), (f - 1) as nat, (h - 1) as nat);
                    }
                }
            },
            _ => {},
        }
    }
}

/// A leaf split leaves every other key as the old leaf had it: the old
/// value under the old path, nothing elsewhere.
proof fn lemma_split_leaf_frame(
    m: Map<Seq<u8>, NodeView>,
    op: Seq<u8>,
    ov: Seq<u8>,
    np: Seq<u8>,
    nv: Seq<u8>,
    k2: Seq<u8>,
    f: nat,
)
    requires
        op != np,
        k2 != np,
        nibbles_valid(k2),
        split_leaf_spec(op, ov, np, nv) matches Ok((r, w)) && forall|i: int|
            0 <= i < w.len() ==> m.contains_key(node_id_of(#[trigger] w[i])) && m[node_id_of(w[i])] == w[i],
        f >= 2,
        common_len(op, np) > 0 ==> f >= 3,
    ensures
        split_leaf_spec(op, ov, np, nv) matches Ok((r, w)) && lookup(m, r, k2, f) == Ok::<Option<Seq<u8>>, crate::state::mpt::trie::TrieFault>(
            if op == k2 {
                Some(ov)
            } else {
                None
            },
        ),
    decreases op.len(),
{
    let c = common_len(op, np);
    lemma_common_len_bound(op, np);
    let (r, w) = split_leaf_spec(op, ov, np, nv)->Ok_0;
    if c == 0 {
        if op.len() == 0 {
            assert(np.len() != 0) by {
                if np.len() == 0 {
                    assert(op =~= np);
                }
            }
            let nl = leaf_view(np.skip(1), nv);
            assert(w[0] == nl);
            assert(m[node_id_of(w[0])] == nl);
            assert(w[1] == m[r]);
            if k2.len() > 0 {
                assert(k2[0] < 16);
                if k2[0] == np[0] {
                    assert(k2.skip(1) != np.skip(1)) by {
                        if k2.skip(1) == np.skip(1) {
                            assert(k2 =~= seq![k2[0]] + k2.skip(1));
                            assert(np =~= seq![np[0]] + np.skip(1));
                        }
                    }
                    assert(lookup(m, node_id_of(nl), k2.skip(1), (f - 1) as nat) == Ok::<Option<Seq<u8>>, crate::state::mpt::trie::TrieFault>(None));
                }
                assert(op != k2);
            } else {
                assert(op =~= k2);
            }
        } else if np.len() == 0 {
            let ol = leaf_view(op.skip(1), ov);
            assert(w[0] == ol);
            assert(m[node_id_of(w[0])] == ol);
            assert(w[1] == m[r]);
            assert(k2.len() > 0) by {
                if k2.len() == 0 {
                    assert(k2 =~= np);
                }
            }
            assert(k2[0] < 16);
            if k2[0] == op[0] {
                assert((op.skip(1) == k2.skip(1)) == (op == k2)) by {
                    assert(k2 =~= seq![k2[0]] + k2.skip(1));
                    assert(op =~= seq![op[0]] + op.skip(1));
                }
                assert(lookup(m, node_id_of(ol), k2.skip(1), (f - 1) as nat) == Ok::<Option<Seq<u8>>, crate::state::mpt::trie::TrieFault>(
                    if op == k2 {
                        Some(ov)
                    } else {
                        None
                    },
                ));
            } else {
                assert(op != k2);
            }
        } else {
            let ol = leaf_view(op.skip(1), ov);
            let nl = leaf_view(np.skip(1), nv);
            assert(w[0] == ol);
            assert(w[1] == nl);
            assert(m[node_id_of(w[0])] == ol);
            assert(m[node_id_of(w[1])] == nl);
            assert(w[2] == m[r]);
            assert(op[0] != np[0]);
            if k2.len() > 0 {
                assert(k2[0] < 16);
                if k2[0] == op[0] {
                    assert((op.skip(1) == k2.skip(1)) == (op == k2)) by {
                        assert(k2 =~= seq![k2[0]] + k2.skip(1));
                        assert(op =~= seq![op[0]] + op.skip(1));
                    }
                    assert(lookup(m, node_id_of(ol), k2.skip(1), (f - 1) as nat) == Ok::<Option<Seq<u8>>, crate::state::mpt::trie::TrieFault>(
                        if op == k2 {
                            Some(ov)
                        } else {
                            None
                        },
                    ));
                } else if k2[0] == np[0] {
                    assert(k2.skip(1) != np.skip(1)) by {
                        if k2.skip(1) == np.skip(1) {
                            assert(k2 =~= seq![k2[0]] + k2.skip(1));
                            assert(np =~= seq![np[0]] + np.skip(1));
                        }
                    }
                    assert(lookup(m, node_id_of(nl), k2.skip(1), (f - 1) as nat) == Ok::<Option<Seq<u8>>, crate::state::mpt::trie::TrieFault>(None));
                    assert(op != k2);
                } else {
                    assert(op != k2);
                }
            } else {
                assert(op != k2);
            }
        }
    } else {
        let os = op.skip(c as int);
        let ns = np.skip(c as int);
        let pre = op.take(c as int);
        assert(pre =~= np.take(c as int));
        lemma_take_skip(op, c as int);
        lemma_take_skip(np, c as int);
        assert(os != ns);
        let (bid, w1) = split_leaf_spec(os, ov, ns, nv)->Ok_0;
        assert(w == w1.push(extension_view(pre, bid)));
        assert forall|i: int| 0 <= i < w1.len() implies m.contains_key(node_id_of(#[trigger] w1[i])) && m[node_id_of(w1[i])] == w1[i] by {
            assert(w[i] == w1[i]);
        }
        assert(w[w1.len() as int] == m[r]);
        if starts_with(k2, pre) {
            let ks = k2.skip(c as int);
            lemma_take_skip(k2, c as int);
            assert(ks != ns);
            assert forall|i: int| 0 <= i < ks.len() implies #[trigger] ks[i] < 16 by {
                assert(ks[i] == k2[i + c]);
            }
            lemma_split_leaf_frame(m, os, ov, ns, nv, ks, (f - 1) as nat);
            assert((os == ks) == (op == k2));
        } else {
            assert(op != k2) by {
                if op == k2 {
                    assert(k2.take(c as int) =~= pre);
                }
            }
        }
    }
}

/// An extension split leaves every other key as the old extension had it.
proof fn lemma_split_extension_frame(
    m: Map<Seq<u8>, NodeView>,
    path: Seq<u8>,
    child: Seq<u8>,
    key: Seq<u8>,
    value: Seq<u8>,
    c: nat,
    k2: Seq<u8>,
    f: nat,
    h: nat,
)
    requires
        c == common_len(path, key),
        c < path.len(),
        k2 != key,
        nibbles_valid(k2),
        split_extension_spec(path, child, key, value, c) matches Ok((r, w)) && forall|i: int|
            0 <= i < w.len() ==> m.contains_key(node_id_of(#[trigger] w[i])) && m[node_id_of(w[i])] == w[i],
        starts_with(k2, path) ==> lookup(m, child, k2.skip(path.len() as int), h) is Ok,
        f >= h + 3,
    ensures
        split_extension_spec(path, child, key, value, c) matches Ok((r, w)) && lookup(m, r, k2, f) == if starts_with(
            k2,
            path,
        ) {
            lookup(m, child, k2.skip(path.len() as int), h)
        } else {
            Ok::<Option<Seq<u8>>, crate::state::mpt::trie::TrieFault>(None)
        },
{
    lemma_common_len_bound(path, key);
    let (r, w) = split_extension_spec(path, child, key, value, c)->Ok_0;
    let pre = path.take(c as int);
    let bi = w.len() - 1 - (if c > 0 { 1int } else { 0int });
    let b = w[bi];
    assert(m.contains_key(node_id_of(w[bi])));
    assert(m[node_id_of(b)] == b);
    let fb: nat = if c > 0 { (f - 1) as nat } else { f };
    let ne = extension_view(path.skip((c + 1) as int), child);
    if c + 1 < path.len() {
        assert(w[0] == ne);
        assert(m.contains_key(node_id_of(w[0])));
    }
    lemma_take_skip(path, c as int);
    let goal = if starts_with(k2, path) {
        lookup(m, child, k2.skip(path.len() as int), h)
    } else {
        Ok::<Option<Seq<u8>>, crate::state::mpt::trie::TrieFault>(None)
    };
    if c > 0 {
        let e = w[w.len() - 1];
        assert(e == extension_view(key.take(c as int), node_id_of(b)));
        assert(key.take(c as int) =~= pre);
        assert(m.contains_key(node_id_of(w[w.len() - 1])));
        assert(r == node_id_of(e));
    } else {
        assert(r == node_id_of(b));
    }
    if c > 0 && !starts_with(k2, pre) {
        assert(!starts_with(k2, path)) by {
            if starts_with(k2, path) {
                assert(k2.take(c as int) =~= path.take(c as int));
            }
        }
        assert(lookup(m, r, k2, f) == goal);
    } else {
        let ks = k2.skip(c as int);
        if c > 0 {
            assert(k2.take(c as int) == pre);
        }
        lemma_take_skip(k2, c as int);
        assert(k2.take(c as int) =~= pre);
        if ks.len() == 0 {
            assert(!starts_with(k2, path));
            if c == key.len() {
                lemma_take_skip(key, c as int);
                assert(key.take(c as int) =~= pre);
                assert(k2 =~= key);
            }
            assert(lookup(m, node_id_of(b), ks, fb) == Ok::<Option<Seq<u8>>, crate::state::mpt::trie::TrieFault>(None));
        } else {
            assert(ks[0] == k2[c as int]);
            assert(ks[0] < 16);
            if ks[0] == path[c as int] {
                assert(starts_with(k2, path) == starts_with(ks.skip(1), path.skip((c + 1) as int))) by {
                    lemma_take_skip(ks, 1);
                    if starts_with(k2, path) {
                        assert(ks.skip(1).take(path.len() - c - 1) =~= path.skip((c + 1) as int));
                    }
                    if starts_with(ks.skip(1), path.skip((c + 1) as int)) {
                        assert forall|i: int| 0 <= i < path.len() implies #[trigger] k2.take(path.len() as int)[i] == path[i] by {
                            if i < c {
                                assert(k2.take(c as int)[i] == pre[i]);
                            } else if i > c {
                                assert(ks.skip(1).take(path.len() - c - 1)[i - c - 1] == path.skip((c + 1) as int)[i - c - 1]);
                            }
                        }
                        assert(k2.take(path.len() as int) =~= path);
                    }
                }
                if starts_with(k2, path) {
                    assert(k2.skip(path.len() as int) =~= ks.skip(1).skip(path.len() - c - 1));
                    lemma_lookup_fuel(m, child, k2.skip(path.len() as int), h, (fb - 2) as nat);
                    lemma_lookup_fuel(m, child, k2.skip(path.len() as int), h, (fb - 1) as nat);
                }
                if let NodeView::Branch { children, .. } = b {
                    assert(children[path[c as int] as int] == Some(if c + 1 == path.len() { child } else { node_id_of(ne) }));
                }
                if c + 1 == path.len() {
                    assert(path.skip((c + 1) as int).len() == 0);
                    assert(ks.skip(1).take(0) =~= path.skip((c + 1) as int));
                    assert(starts_with(ks.skip(1), path.skip((c + 1) as int)));
                    assert(starts_with(k2, path));
                    assert(ks.skip(1) =~= k2.skip(path.len() as int));
                    assert(lookup(m, node_id_of(b), ks, fb) == goal);
                } else {
                    assert(lookup(m, node_id_of(ne), ks.skip(1), (fb - 1) as nat) == goal);
                    assert(lookup(m, node_id_of(b), ks, fb) == goal);
                }
            } else {
                assert(!starts_with(k2, path)) by {
                    if starts_with(k2, path) {
                        assert(k2.take(path.len() as int)[c as int] == path[c as int]);
                    }
                }
                if c < key.len() && ks[0] == key[c as int] {
                    let nl = leaf_view(key.skip((c + 1) as int), value);
                    let k = w.len() - 2 - (if c > 0 { 1int } else { 0int });
                    assert(w[k] == nl);
                    assert(m.contains_key(node_id_of(w[k])));
                    assert(ks.skip(1) != key.skip((c + 1) as int)) by {
                        if ks.skip(1) == key.skip((c + 1) as int) {
                            lemma_take_skip(key, c as int);
                            lemma_take_skip(ks, 1);
                            lemma_take_skip(key.skip(c as int), 1);
                            assert(key.take(c as int) =~= pre);
                            assert(key.skip(c as int).skip(1) =~= key.skip((c + 1) as int));
                            assert(ks =~= key.skip(c as int));
                            assert(k2 =~= key);
                        }
                    }
                    if let NodeView::Branch { children, .. } = b {
                        assert(children[key[c as int] as int] == Some(node_id_of(nl)));
                    }
                    assert(lookup(m, node_id_of(nl), ks.skip(1), (fb - 1) as nat) == Ok::<Option<Seq<u8>>, crate::state::mpt::trie::TrieFault>(None));
                } else {
                    if let NodeView::Branch { children, .. } = b {
                        assert(children[ks[0] as int] == None::<Seq<u8>>);
                    }
                }
                assert(lookup(m, node_id_of(b), ks, fb) == Ok::<Option<Seq<u8>>, crate::state::mpt::trie::TrieFault>(None));
            }
        }
        if c == 0 {
            assert(ks =~= k2);
        }
        assert(lookup(m, r, k2, f) == goal);
    }
}

/// The empty node, where one is stored under its identifier, is the empty node.
pub open spec fn empty_stored(m: Map<Seq<u8>, NodeView>) -> bool {
    m.contains_key(node_id_of(NodeView::Empty)) ==> m[node_id_of(NodeView::Empty)] == NodeView::Empty
}

/// The maps after consistent writes `w1` and then node `n` keep what the
/// first held.
proof fn lemma_extends_last(m: Map<Seq<u8>, NodeView>, w1: Seq<NodeView>, n: NodeView)
    requires
        writes_consistent(m, w1.push(n)),
    ensures
        extends(insert_all(m, w1), insert_all(m, w1.push(n))),
        extends(m, insert_all(m, w1.push(n))),
        insert_all(m, w1.push(n)).contains_key(node_id_of(n)) && insert_all(m, w1.push(n))[node_id_of(n)] == n,
{
    let w = w1.push(n);
    let m1 = insert_all(m, w1);
    let mw = insert_all(m, w);
    assert(w.drop_last() =~= w1);
    lemma_consistent_prefix(m, w1, n);
    lemma_insert_all_consistent(m, w);
    assert(w[w1.len() as int] == n);
    assert(seq![n].drop_last() =~= Seq::<NodeView>::empty());
    assert(insert_all(m1, Seq::<NodeView>::empty()) == m1);
    assert(w.last() == n);
    assert(writes_consistent(m1, Seq::<NodeView>::empty()));
    assert(writes_consistent(m1, seq![n]));
    assert(insert_all(m1, seq![n]) == mw);
    lemma_insert_all_consistent(m1, seq![n]);
}

/// Setting `key` below node `id` leaves every other key (of valid nibbles)
/// as it was: a lookup of it from the new root, with two more steps of fuel,
/// gives what a successful lookup from `id` gave.
pub proof fn lemma_put_frame(
    m: Map<Seq<u8>, NodeView>,
    id: Seq<u8>,
    key: Seq<u8>,
    value: Seq<u8>,
    g: nat,
    k2: Seq<u8>,
    f: nat,
)
    requires
        put_spec(m, id, key, value, g) matches Ok((r, w)) && writes_consistent(m, w),
        branches_full(m),
        empty_stored(m),
        k2 != key,
        nibbles_valid(k2),
        lookup(m, id, k2, g) is Ok,
        f >= g + 2,
    ensures
        put_spec(m, id, key, value, g) matches Ok((r, w)) && lookup(insert_all(m, w), r, k2, f) == lookup(m, id, k2, g),
    decreases g, 1nat,
{
    let (r, w) = put_spec(m, id, key, value, g)->Ok_0;
    let mw = insert_all(m, w);
    lemma_insert_all_consistent(m, w);
    match m[id] {
        NodeView::Empty => {
            assert(w[0] == mw[r]);
            assert(mw.contains_key(node_id_of(w[0])));
        },
        NodeView::Leaf { path, leaf, value: ov } => {
            if path == key {
                assert(w[0] == mw[r]);
                assert(mw.contains_key(node_id_of(w[0])));
            } else {
                lemma_split_leaf_frame(mw, path, ov, key, value, k2, f);
            }
        },
        NodeView::Extension { path, leaf, child } => {
            lemma_put_frame_extension(m, id, key, value, g, k2, f);
        },
        NodeView::Branch { children, value: bv } => {
            lemma_put_frame_branch(m, id, key, value, g, k2, f);
        },
    }
}

/// `lemma_put_frame` at an extension node.
proof fn lemma_put_frame_extension(
    m: Map<Seq<u8>, NodeView>,
    id: Seq<u8>,
    key: Seq<u8>,
    value: Seq<u8>,
    g: nat,
    k2: Seq<u8>,
    f: nat,
)
    requires
        put_spec(m, id, key, value, g) matches Ok((r, w)) && writes_consistent(m, w),
        branches_full(m),
        empty_stored(m),
        k2 != key,
        nibbles_valid(k2),
        lookup(m, id, k2, g) is Ok,
        f >= g + 2,
        m.contains_key(id) && m[id] is Extension,
    ensures
        put_spec(m, id, key, value, g) matches Ok((r, w)) && lookup(insert_all(m, w), r, k2, f) == lookup(m, id, k2, g),
    decreases g, 0nat,
{
    let (r, w) = put_spec(m, id, key, value, g)->Ok_0;
    let mw = insert_all(m, w);
    lemma_insert_all_consistent(m, w);
    if let NodeView::Extension { path, leaf, child } = m[id] {
        let c = common_len(path, key);
        lemma_common_len_bound(path, key);
        if c == path.len() {
            let (nc, w1) = put_spec(m, child, key.skip(c as int), value, (g - 1) as nat)->Ok_0;
            let n = NodeView::Extension { path, leaf, child: nc };
            assert(w == w1.push(n));
            lemma_extends_last(m, w1, n);
            assert(r == node_id_of(n));
            if starts_with(k2, path) {
                let ks = k2.skip(c as int);
                lemma_take_skip(k2, c as int);
                lemma_take_skip(key, c as int);
                assert(path =~= key.take(c as int));
                assert(k2.take(c as int) =~= key.take(c as int));
                assert(ks != key.skip(c as int));
                assert forall|i: int| 0 <= i < ks.len() implies #[trigger] ks[i] < 16 by {
                    assert(ks[i] == k2[i + c]);
                }
                lemma_consistent_prefix(m, w1, n);
                lemma_put_frame(m, child, key.skip(c as int), value, (g - 1) as nat, ks, (f - 1) as nat);
                lemma_lookup_extends(insert_all(m, w1), mw, nc, ks, (f - 1) as nat);
            }
        } else {
            if starts_with(k2, path) {
                lemma_lookup_extends(m, mw, child, k2.skip(path.len() as int), (g - 1) as nat);
            }
            lemma_split_extension_frame(mw, path, child, key, value, c, k2, f, (g - 1) as nat);
        }
    }
}

/// `lemma_put_frame` at a branch node.
proof fn lemma_put_frame_branch(
    m: Map<Seq<u8>, NodeView>,
    id: Seq<u8>,
    key: Seq<u8>,
    value: Seq<u8>,
    g: nat,
    k2: Seq<u8>,
    f: nat,
)
    requires
        put_spec(m, id, key, value, g) matches Ok((r, w)) && writes_consistent(m, w),
        branches_full(m),
        empty_stored(m),
        k2 != key,
        nibbles_valid(k2),
        lookup(m, id, k2, g) is Ok,
        f >= g + 2,
        m.contains_key(id) && m[id] is Branch,
    ensures
        put_spec(m, id, key, value, g) matches Ok((r, w)) && lookup(insert_all(m, w), r, k2, f) == lookup(m, id, k2, g),
    decreases g, 0nat,
{
    let (r, w) = put_spec(m, id, key, value, g)->Ok_0;
    let mw = insert_all(m, w);
    lemma_insert_all_consistent(m, w);
    if let NodeView::Branch { children, value: bv } = m[id] {
        assert(children.len() == 16);
        if key.len() == 0 {
            let n = NodeView::Branch { children, value: Some(value) };
            assert(w == seq![n]);
            assert(w[0] == n);
            assert(mw.contains_key(node_id_of(w[0])));
            assert(k2.len() > 0) by {
                if k2.len() == 0 {
                    assert(k2 =~= key);
                }
            }
            assert(k2[0] < 16);
            if let Some(cc) = children[k2[0] as int] {
                lemma_lookup_extends(m, mw, cc, k2.skip(1), (g - 1) as nat);
                lemma_lookup_fuel(mw, cc, k2.skip(1), (g - 1) as nat, (f - 1) as nat);
            }
        } else {
            let cid = match children[key[0] as int] {
                Some(x) => x,
                None => node_id_of(NodeView::Empty),
            };
            let (nc, w1) = put_spec(m, cid, key.skip(1), value, (g - 1) as nat)->Ok_0;
            let n = NodeView::Branch { children: children.update(key[0] as int, Some(nc)), value: bv };
            assert(w == w1.push(n));
            lemma_extends_last(m, w1, n);
            assert(r == node_id_of(n));
            if k2.len() > 0 {
                assert(k2[0] < 16);
                if k2[0] == key[0] {
                    let ks = k2.skip(1);
                    lemma_take_skip(k2, 1);
                    lemma_take_skip(key, 1);
                    assert(k2.take(1) =~= key.take(1));
                    assert(ks != key.skip(1));
                    assert forall|i: int| 0 <= i < ks.len() implies #[trigger] ks[i] < 16 by {
                        assert(ks[i] == k2[i + 1]);
                    }
                    assert(children.update(key[0] as int, Some(nc))[key[0] as int] == Some(nc));
                    lemma_consistent_prefix(m, w1, n);
                    if children[key[0] as int] is None {
                        assert(m.contains_key(cid));
                        assert(lookup(m, cid, ks, (g - 1) as nat) == Ok::<Option<Seq<u8>>, crate::state::mpt::trie::TrieFault>(None));
                    }
                    lemma_put_frame(m, cid, key.skip(1), value, (g - 1) as nat, ks, (f - 1) as nat);
                    lemma_lookup_extends(insert_all(m, w1), mw, nc, ks, (f - 1) as nat);
                } else {
                    assert(children.update(key[0] as int, Some(nc))[k2[0] as int] == children[k2[0] as int]);
                    if let Some(cc) = children[k2[0] as int] {
                        lemma_lookup_extends(m, mw, cc, k2.skip(1), (g - 1) as nat);
                        lemma_lookup_fuel(mw, cc, k2.skip(1), (g - 1) as nat, (f - 1) as nat);
                    }
                }
            }
        }
    }
}

/// Other keys after a write: once `key` (a nibble path) is set from the root
/// `root`, a lookup of any other valid nibble path from the new root gives
/// what it gave before, provided the written nodes do not clash with stored
/// ones, every stored branch has its sixteen slots, the empty node is stored
/// as itself, and the write and the earlier lookup succeed two levels short
/// of the depth bound.
pub proof fn lemma_write_keeps_other_keys(nodes: Map<Seq<u8>, NodeView>, root: Seq<u8>, key: Seq<u8>, value: Seq<u8>, k2: Seq<u8>)
    requires
        put_spec(nodes, root, key, value, (max_depth() - 2) as nat) is Ok,
        put_spec(nodes, root, key, value, max_depth()) matches Ok((r, w)) && writes_consistent(nodes, w),
        branches_full(nodes),
        empty_stored(nodes),
        k2 != key,
        nibbles_valid(k2),
        lookup(nodes, root, k2, (max_depth() - 2) as nat) is Ok,
    ensures
        put_spec(nodes, root, key, value, max_depth()) matches Ok((r, w)) && lookup(insert_all(nodes, w), r, k2, max_depth())
            == lookup(nodes, root, k2, max_depth()),
{
    lemma_put_fuel(nodes, root, key, value, (max_depth() - 2) as nat, max_depth());
    lemma_put_frame(nodes, root, key, value, (max_depth() - 2) as nat, k2, max_depth());
    lemma_lookup_fuel(nodes, root, k2, (max_depth() - 2) as nat, max_depth());
}

} // verus!
