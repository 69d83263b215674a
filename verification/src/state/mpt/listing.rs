//! The key listing of a trie against its lookups: every key that holds a
//! value is listed, and every listed key is the path of a value.
use vstd::prelude::*;

use crate::state::mpt::lib::{key_of_nibbles, lemma_nibbles_roundtrip, nibbles_of, valid_nibbles};
use crate::state::mpt::node::NodeView;
use crate::state::mpt::trie::{TrieFault, children_keys, keys_below, lookup, starts_with};

verus! {

/// Whether a lookup of the nibble path `k` below `id` finds a value.
pub open spec fn holds_value(nodes: Map<Seq<u8>, NodeView>, id: Seq<u8>, k: Seq<u8>, fuel: nat) -> bool {
    lookup(nodes, id, k, fuel) matches Ok(Some(_))
}

/// `x` is listed in `a`, hence in `a + b` and in `b + a`.
proof fn lemma_contains_concat(a: Seq<Seq<u8>>, b: Seq<Seq<u8>>, x: Seq<u8>)
    ensures
        a.contains(x) ==> (a + b).contains(x) && (b + a).contains(x),
        (a + b).contains(x) ==> a.contains(x) || b.contains(x),
{
    if a.contains(x) {
        let i = choose|i: int| 0 <= i < a.len() && a[i] == x;
        assert((a + b)[i] == x);
        assert((b + a)[b.len() + i] == x);
    }
    if (a + b).contains(x) {
        let i = choose|i: int| 0 <= i < (a + b).len() && (a + b)[i] == x;
        if i < a.len() {
            assert(a[i] == x);
        } else {
            assert(b[i - a.len()] == x);
        }
    }
}

/// Where the keys of a branch's children are listed, those of each child are.
proof fn lemma_child_keys_ok(
    nodes: Map<Seq<u8>, NodeView>,
    children: Seq<Option<Seq<u8>>>,
    prefix: Seq<u8>,
    i: nat,
    j: nat,
    fuel: nat,
)
    requires
        children_keys(nodes, children, prefix, i, fuel) is Ok,
        i <= j < 16,
        children[j as int] is Some,
    ensures
        keys_below(nodes, children[j as int]->Some_0, prefix.push(j as u8), fuel) is Ok,
    decreases 16 - i,
{
    if i < j {
        lemma_child_keys_ok(nodes, children, prefix, i + 1, j, fuel);
    }
}

/// The keys below child `j` of a branch are among the keys of its children.
proof fn lemma_child_keys_listed(
    nodes: Map<Seq<u8>, NodeView>,
    children: Seq<Option<Seq<u8>>>,
    prefix: Seq<u8>,
    i: nat,
    j: nat,
    fuel: nat,
    x: Seq<u8>,
)
    requires
        children_keys(nodes, children, prefix, i, fuel) is Ok,
        i <= j < 16,
        children[j as int] is Some,
        keys_below(nodes, children[j as int]->Some_0, prefix.push(j as u8), fuel) matches Ok(sub) && sub.contains(x),
    ensures
        children_keys(nodes, children, prefix, i, fuel)->Ok_0.contains(x),
    decreases 16 - i,
{
    let here = match children[i as int] {
        Some(c) => keys_below(nodes, c, prefix.push(i as u8), fuel),
        None => Ok(Seq::empty()),
    };
    let rest = children_keys(nodes, children, prefix, i + 1, fuel);
    if i == j {
        lemma_contains_concat(here->Ok_0, rest->Ok_0, x);
    } else {
        lemma_child_keys_listed(nodes, children, prefix, i + 1, j, fuel, x);
        lemma_contains_concat(rest->Ok_0, here->Ok_0, x);
    }
}

/// A key listed among the children of a branch is listed below one child.
proof fn lemma_child_keys_source(
    nodes: Map<Seq<u8>, NodeView>,
    children: Seq<Option<Seq<u8>>>,
    prefix: Seq<u8>,
    i: nat,
    fuel: nat,
    x: Seq<u8>,
) -> (j: nat)
    requires
        children_keys(nodes, children, prefix, i, fuel) matches Ok(ks) && ks.contains(x),
    ensures
        i <= j < 16,
        children[j as int] is Some,
        keys_below(nodes, children[j as int]->Some_0, prefix.push(j as u8), fuel) matches Ok(sub) && sub.contains(x),
    decreases 16 - i,
{
    let here = match children[i as int] {
        Some(c) => keys_below(nodes, c, prefix.push(i as u8), fuel),
        None => Ok(Seq::empty()),
    };
    let rest = children_keys(nodes, children, prefix, i + 1, fuel);
    lemma_contains_concat(here->Ok_0, rest->Ok_0, x);
    if here->Ok_0.contains(x) {
        if children[i as int] is None {
            assert(here->Ok_0 =~= Seq::<Seq<u8>>::empty());
        }
        i
    } else {
        lemma_child_keys_source(nodes, children, prefix, i + 1, fuel, x)
    }
}

/// Every nibble path that holds a value below `id` is listed, after
/// `prefix`, among the keys below `id`.
pub proof fn lemma_valued_keys_listed(nodes: Map<Seq<u8>, NodeView>, id: Seq<u8>, prefix: Seq<u8>, k: Seq<u8>, fuel: nat)
    requires
        keys_below(nodes, id, prefix, fuel) is Ok,
        holds_value(nodes, id, k, fuel),
    ensures
        keys_below(nodes, id, prefix, fuel)->Ok_0.contains(key_of_nibbles(prefix + k)),
    decreases fuel,
{
    let ks = keys_below(nodes, id, prefix, fuel)->Ok_0;
    match nodes[id] {
        NodeView::Empty => {},
        NodeView::Leaf { path, .. } => {
            assert(path == k);
            assert(ks[0] == key_of_nibbles(prefix + k));
        },
        NodeView::Extension { path, child, .. } => {
            let rest = k.skip(path.len() as int);
            lemma_valued_keys_listed(nodes, child, prefix + path, rest, (fuel - 1) as nat);
            assert(k =~= path + rest) by {
                assert(k.take(path.len() as int) == path);
            }
            assert((prefix + path) + rest =~= prefix + k);
        },
        NodeView::Branch { children, value } => {
            let own = if value is Some {
                seq![key_of_nibbles(prefix)]
            } else {
                Seq::empty()
            };
            let cks = children_keys(nodes, children, prefix, 0, (fuel - 1) as nat)->Ok_0;
            assert(ks == own + cks);
            if k.len() == 0 {
                assert(prefix + k =~= prefix);
                assert(own[0] == key_of_nibbles(prefix));
                lemma_contains_concat(own, cks, key_of_nibbles(prefix));
            } else {
                let j = k[0] as nat;
                let c = children[j as int]->Some_0;
                let rest = k.skip(1);
                let p2 = prefix.push(j as u8);
                lemma_child_keys_ok(nodes, children, prefix, 0, j, (fuel - 1) as nat);
                lemma_valued_keys_listed(nodes, c, p2, rest, (fuel - 1) as nat);
                assert(p2 + rest =~= prefix + k);
                lemma_child_keys_listed(nodes, children, prefix, 0, j, (fuel - 1) as nat, key_of_nibbles(prefix + k));
                lemma_contains_concat(cks, own, key_of_nibbles(prefix + k));
            }
        },
    }
}

/// Every key listed below `id` after `prefix` is `prefix` followed by a
/// nibble path that holds a value below `id`; the path is returned.
pub proof fn lemma_listed_keys_valued(nodes: Map<Seq<u8>, NodeView>, id: Seq<u8>, prefix: Seq<u8>, x: Seq<u8>, fuel: nat) -> (k:
    Seq<u8>)
    requires
        keys_below(nodes, id, prefix, fuel) matches Ok(ks) && ks.contains(x),
    ensures
        x == key_of_nibbles(prefix + k),
        holds_value(nodes, id, k, fuel),
    decreases fuel,
{
    let ks = keys_below(nodes, id, prefix, fuel)->Ok_0;
    match nodes[id] {
        NodeView::Empty => {
            assert(ks =~= Seq::<Seq<u8>>::empty());
            Seq::empty()
        },
        NodeView::Leaf { path, .. } => {
            let z = choose|z: int| 0 <= z < ks.len() && ks[z] == x;
            assert(ks[z] == key_of_nibbles(prefix + path));
            path
        },
        NodeView::Extension { path, child, .. } => {
            let rest = lemma_listed_keys_valued(nodes, child, prefix + path, x, (fuel - 1) as nat);
            let k = path + rest;
            assert(k.take(path.len() as int) =~= path);
            assert(k.skip(path.len() as int) =~= rest);
            assert(starts_with(k, path));
            assert((prefix + path) + rest =~= prefix + k);
            k
        },
        NodeView::Branch { children, value } => {
            let own = if value is Some {
                seq![key_of_nibbles(prefix)]
            } else {
                Seq::empty()
            };
            let cks = children_keys(nodes, children, prefix, 0, (fuel - 1) as nat)->Ok_0;
            assert(ks == own + cks);
            lemma_contains_concat(own, cks, x);
            if own.contains(x) {
                let z = choose|z: int| 0 <= z < own.len() && own[z] == x;
                assert(prefix + Seq::<u8>::empty() =~= prefix);
                Seq::empty()
            } else {
                let j = lemma_child_keys_source(nodes, children, prefix, 0, (fuel - 1) as nat, x);
                let c = children[j as int]->Some_0;
                let p2 = prefix.push(j as u8);
                let rest = lemma_listed_keys_valued(nodes, c, p2, x, (fuel - 1) as nat);
                let k = seq![j as u8] + rest;
                assert(k[0] == j as u8);
                assert(k.skip(1) =~= rest);
                assert(p2 + rest =~= prefix + k);
                k
            }
        },
    }
}

/// Where the keys below `id` can be listed, a lookup of a path of nibbles
/// below 16 below `id` does not fail.
pub proof fn lemma_lookup_ok(nodes: Map<Seq<u8>, NodeView>, id: Seq<u8>, prefix: Seq<u8>, k: Seq<u8>, fuel: nat)
    requires
        keys_below(nodes, id, prefix, fuel) is Ok,
        valid_nibbles(k),
    ensures
        lookup(nodes, id, k, fuel) is Ok,
    decreases fuel,
{
    match nodes[id] {
        NodeView::Extension { path, child, .. } => {
            if starts_with(k, path) {
                let rest = k.skip(path.len() as int);
                assert forall|i: int| 0 <= i < rest.len() implies #[trigger] rest[i] < 16 by {
                    assert(rest[i] == k[i + path.len()]);
                }
                lemma_lookup_ok(nodes, child, prefix + path, rest, (fuel - 1) as nat);
            }
        },
        NodeView::Branch { children, .. } => {
            if k.len() > 0 {
                assert(k[0] < 16);
                let j = k[0] as nat;
                if children[j as int] is Some {
                    let rest = k.skip(1);
                    assert forall|i: int| 0 <= i < rest.len() implies #[trigger] rest[i] < 16 by {
                        assert(rest[i] == k[i + 1]);
                    }
                    lemma_child_keys_ok(nodes, children, prefix, 0, j, (fuel - 1) as nat);
                    lemma_lookup_ok(nodes, children[j as int]->Some_0, prefix.push(j as u8), rest, (fuel - 1) as nat);
                }
            }
        },
        _ => {},
    }
}

/// For a trie at `root` whose keys can be listed: the lookup of a byte key
/// does not fail, and finds a value only where the key is listed (so a key
/// that is not listed has no value); every listed key is written by a
/// nibble path whose lookup finds a value.
pub proof fn lemma_listing_matches_lookups(nodes: Map<Seq<u8>, NodeView>, root: Seq<u8>, key: Seq<u8>, x: Seq<u8>, fuel: nat)
    requires
        keys_below(nodes, root, Seq::empty(), fuel) is Ok,
    ensures
        lookup(nodes, root, nibbles_of(key), fuel) is Ok,
        holds_value(nodes, root, nibbles_of(key), fuel) ==> keys_below(nodes, root, Seq::empty(), fuel)->Ok_0.contains(key),
        !keys_below(nodes, root, Seq::empty(), fuel)->Ok_0.contains(key) ==> lookup(nodes, root, nibbles_of(key), fuel) == Ok::<
            Option<Seq<u8>>,
            TrieFault,
        >(None),
        keys_below(nodes, root, Seq::empty(), fuel)->Ok_0.contains(x) ==> exists|k: Seq<u8>|
            x == key_of_nibbles(k) && #[trigger] holds_value(nodes, root, k, fuel),
{
    lemma_nibbles_roundtrip(key);
    lemma_lookup_ok(nodes, root, Seq::empty(), nibbles_of(key), fuel);
    if holds_value(nodes, root, nibbles_of(key), fuel) {
        lemma_valued_keys_listed(nodes, root, Seq::empty(), nibbles_of(key), fuel);
        assert(Seq::<u8>::empty() + nibbles_of(key) =~= nibbles_of(key));
        lemma_nibbles_roundtrip(key);
    }
    if keys_below(nodes, root, Seq::empty(), fuel)->Ok_0.contains(x) {
        let k = lemma_listed_keys_valued(nodes, root, Seq::empty(), x, fuel);
        assert(Seq::<u8>::empty() + k =~= k);
    }
}

} // verus!
