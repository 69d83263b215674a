//! Differences between two trie states: the list of key additions,
//! modifications and removals, with the root hashes of both states.
use vstd::prelude::*;

use crate::state::mpt::lib::{Key, MPTError, TrieResult, Value, nibbles_of};
use crate::state::mpt::listing::lemma_listing_matches_lookups;
use crate::state::mpt::node::NodeView;
use crate::state::mpt::trie::{
    MerklePatriciaTrie, NodeStorage, TrieFault, delete_spec, insert_all, keys_below, lookup, max_depth, put_spec,
};

verus! {

/// Represents different types of changes in state
#[derive(Debug, Clone, PartialEq, Eq)]
pub enum StateChange {
    /// Key was added with a new value
    Added { key: Key, value: Value },
    /// Key was modified from old_value to new_value
    Modified { key: Key, old_value: Value, new_value: Value },
    /// Key was removed with its last value
    Removed { key: Key, old_value: Value },
}

/// Kind of a change: added, modified or removed.
#[derive(Debug, Clone, Copy, PartialEq, Eq, Structural)]
pub enum ChangeKind {
    /// Key was added
    Added,
    /// Key was modified
    Modified,
    /// Key was removed
    Removed,
}

/// A change as plain sequences: kind, key, value before, value after (an
/// absent side is empty).
pub type ChangeView = (ChangeKind, Seq<u8>, Seq<u8>, Seq<u8>);

/// The plain view of a change.
pub open spec fn change_view(c: StateChange) -> ChangeView {
    match c {
        StateChange::Added { key, value } => (ChangeKind::Added, key@, Seq::empty(), value@),
        StateChange::Modified { key, old_value, new_value } => (ChangeKind::Modified, key@, old_value@, new_value@),
        StateChange::Removed { key, old_value } => (ChangeKind::Removed, key@, old_value@, Seq::empty()),
    }
}

/// The change that undoes `v`: an addition becomes a removal of the added
/// value, a modification swaps its values, a removal becomes an addition.
pub open spec fn undo_view(v: ChangeView) -> ChangeView {
    match v.0 {
        ChangeKind::Added => (ChangeKind::Removed, v.1, v.3, Seq::empty()),
        ChangeKind::Modified => (ChangeKind::Modified, v.1, v.3, v.2),
        ChangeKind::Removed => (ChangeKind::Added, v.1, Seq::empty(), v.2),
    }
}

/// The plain views of a list of changes.
pub open spec fn changes_view(s: Seq<StateChange>) -> Seq<ChangeView> {
    s.map_values(|c: StateChange| change_view(c))
}

/// Changes of kind `k`.
pub open spec fn of_kind(k: ChangeKind) -> spec_fn(ChangeView) -> bool {
    |v: ChangeView| v.0 == k
}

/// Changes of key `key`.
pub open spec fn of_key(key: Seq<u8>) -> spec_fn(ChangeView) -> bool {
    |v: ChangeView| v.1 == key
}

/// A copy of a byte vector.
fn copy_bytes(v: &Vec<u8>) -> (r: Vec<u8>)
    ensures
        r@ == v@,
{
    let r = v.clone();
    assert(r@ =~= v@);
    r
}

/// Whether two byte vectors hold the same bytes.
fn same_bytes(a: &Vec<u8>, b: &Vec<u8>) -> (r: bool)
    ensures
        r == (a@ == b@),
{
    if a.len() != b.len() {
        return false;
    }
    let mut i: usize = 0;
    while i < a.len()
        invariant
            a@.len() == b@.len(),
            i <= a@.len(),
            forall|j: int| 0 <= j < i ==> a@[j] == b@[j],
        decreases a@.len() - i,
    {
        if a[i] != b[i] {
            return false;
        }
        i = i + 1;
    }
    assert(a@ =~= b@);
    true
}

impl StateChange {
    /// Get the key associated with this change
    pub fn key(&self) -> (r: &Key)
        ensures
            r@ == change_view(*self).1,
    {
        match self {
            StateChange::Added { key, .. } => key,
            StateChange::Modified { key, .. } => key,
            StateChange::Removed { key, .. } => key,
        }
    }

    /// Get the new value if this change introduces one
    pub fn get_new_value(&self) -> (r: Option<&Value>)
        ensures
            r is Some <==> change_view(*self).0 != ChangeKind::Removed,
            r is Some ==> r->0@ == change_view(*self).3,
    {
        match self {
            StateChange::Added { value, .. } => Some(value),
            StateChange::Modified { new_value, .. } => Some(new_value),
            StateChange::Removed { .. } => None,
        }
    }

    /// Get the old value if this change removes/modifies one
    pub fn get_old_value(&self) -> (r: Option<&Value>)
        ensures
            r is Some <==> change_view(*self).0 != ChangeKind::Added,
            r is Some ==> r->0@ == change_view(*self).2,
    {
        match self {
            StateChange::Added { .. } => None,
            StateChange::Modified { old_value, .. } => Some(old_value),
            StateChange::Removed { old_value, .. } => Some(old_value),
        }
    }

    /// The kind of this change.
    pub fn kind(&self) -> (r: ChangeKind)
        ensures
            r == change_view(*self).0,
    {
        match self {
            StateChange::Added { .. } => ChangeKind::Added,
            StateChange::Modified { .. } => ChangeKind::Modified,
            StateChange::Removed { .. } => ChangeKind::Removed,
        }
    }

    /// The change that undoes this one.
    pub fn undo(&self) -> (r: StateChange)
        ensures
            change_view(r) == undo_view(change_view(*self)),
    {
        match self {
            StateChange::Added { key, value } => StateChange::Removed { key: copy_bytes(key), old_value: copy_bytes(value) },
            StateChange::Modified { key, old_value, new_value } => StateChange::Modified {
                key: copy_bytes(key),
                old_value: copy_bytes(new_value),
                new_value: copy_bytes(old_value),
            },
            StateChange::Removed { key, old_value } => StateChange::Added { key: copy_bytes(key), value: copy_bytes(old_value) },
        }
    }
}

/// Represents the difference between two state trees
#[derive(Debug, Clone)]
pub struct StateDiff {
    /// Changes organized by type for efficient querying
    pub changes: Vec<StateChange>,
    /// Root hash of the source state
    pub from_root: crate::state::mpt::lib::Hash,
    /// Root hash of the target state
    pub to_root: crate::state::mpt::lib::Hash,
}

impl Default for StateDiff {
    fn default() -> (r: Self)
        ensures
            r.changes@.len() == 0,
            r.from_root@ == Seq::new(32, |i: int| 0u8),
            r.to_root@ == Seq::new(32, |i: int| 0u8),
    {
        let r = StateDiff { changes: Vec::new(), from_root: [0u8; 32], to_root: [0u8; 32] };
        assert(r.from_root@ =~= Seq::new(32, |i: int| 0u8));
        assert(r.to_root@ =~= Seq::new(32, |i: int| 0u8));
        r
    }
}

impl StateDiff {
    /// Create a new empty state diff
    pub fn new(from_root: crate::state::mpt::lib::Hash, to_root: crate::state::mpt::lib::Hash) -> (r: Self)
        ensures
            r.changes@.len() == 0,
            r.from_root == from_root,
            r.to_root == to_root,
    {
        Self { changes: Vec::new(), from_root, to_root }
    }

    /// Add a change to the diff
    pub fn add_change(&mut self, change: StateChange)
        ensures
            final(self).changes@ == old(self).changes@.push(change),
            final(self).from_root == old(self).from_root,
            final(self).to_root == old(self).to_root,
    {
        self.changes.push(change);
    }

    /// Keys of the changes of one kind, in order.
    fn keys_of_kind(&self, k: ChangeKind) -> (r: Vec<&Key>)
        ensures
            r@.len() == changes_view(self.changes@).filter(of_kind(k)).len(),
            forall|i: int| 0 <= i < r@.len() ==> (#[trigger] r@[i])@ == changes_view(self.changes@).filter(of_kind(k))[i].1,
    {
        let ghost s = changes_view(self.changes@);
        let ghost p = of_kind(k);
        let mut r: Vec<&Key> = Vec::new();
        let mut i: usize = 0;
        while i < self.changes.len()
            invariant
                i <= s.len(),
                s == changes_view(self.changes@),
                p == of_kind(k),
                r@.len() == s.take(i as int).filter(p).len(),
                forall|j: int| 0 <= j < r@.len() ==> (#[trigger] r@[j])@ == s.take(i as int).filter(p)[j].1,
            decreases s.len() - i,
        {
            proof {
                crate::seq_util::lemma_filter_take(s, i as int, p);
            }
            let c = &self.changes[i];
            assert(s[i as int] == change_view(*c));
            if c.kind() == k {
                r.push(c.key());
            }
            i = i + 1;
        }
        assert(s.take(s.len() as int) =~= s);
        r
    }

    /// Get all added keys
    pub fn added_keys(&self) -> (r: Vec<&Key>)
        ensures
            r@.len() == changes_view(self.changes@).filter(of_kind(ChangeKind::Added)).len(),
            forall|i: int| 0 <= i < r@.len() ==> (#[trigger] r@[i])@ == changes_view(self.changes@).filter(of_kind(ChangeKind::Added))[i].1,
    {
        self.keys_of_kind(ChangeKind::Added)
    }

    /// Get all modified keys
    pub fn modified_keys(&self) -> (r: Vec<&Key>)
        ensures
            r@.len() == changes_view(self.changes@).filter(of_kind(ChangeKind::Modified)).len(),
            forall|i: int| 0 <= i < r@.len() ==> (#[trigger] r@[i])@ == changes_view(self.changes@).filter(of_kind(ChangeKind::Modified))[i].1,
    {
        self.keys_of_kind(ChangeKind::Modified)
    }

    /// Get all removed keys
    pub fn removed_keys(&self) -> (r: Vec<&Key>)
        ensures
            r@.len() == changes_view(self.changes@).filter(of_kind(ChangeKind::Removed)).len(),
            forall|i: int| 0 <= i < r@.len() ==> (#[trigger] r@[i])@ == changes_view(self.changes@).filter(of_kind(ChangeKind::Removed))[i].1,
    {
        self.keys_of_kind(ChangeKind::Removed)
    }

    /// Check if the diff is empty (no changes)
    pub fn is_empty(&self) -> (r: bool)
        ensures
            r == (self.changes@.len() == 0),
    {
        self.changes.len() == 0
    }

    /// Get the total number of changes
    pub fn change_count(&self) -> (r: usize)
        ensures
            r == self.changes@.len(),
    {
        self.changes.len()
    }

    /// Get changes by type counts: (added, modified, removed)
    pub fn change_summary(&self) -> (r: (usize, usize, usize))
        ensures
            r.0 == changes_view(self.changes@).filter(of_kind(ChangeKind::Added)).len(),
            r.1 == changes_view(self.changes@).filter(of_kind(ChangeKind::Modified)).len(),
            r.2 == changes_view(self.changes@).filter(of_kind(ChangeKind::Removed)).len(),
            r.0 + r.1 + r.2 == self.changes@.len(),
    {
        let ghost s = changes_view(self.changes@);
        let mut added: usize = 0;
        let mut modified: usize = 0;
        let mut removed: usize = 0;
        let mut i: usize = 0;
        while i < self.changes.len()
            invariant
                i <= s.len(),
                s == changes_view(self.changes@),
                added == s.take(i as int).filter(of_kind(ChangeKind::Added)).len(),
                modified == s.take(i as int).filter(of_kind(ChangeKind::Modified)).len(),
                removed == s.take(i as int).filter(of_kind(ChangeKind::Removed)).len(),
                added + modified + removed == i,
            decreases s.len() - i,
        {
            proof {
                crate::seq_util::lemma_filter_take(s, i as int, of_kind(ChangeKind::Added));
                crate::seq_util::lemma_filter_take(s, i as int, of_kind(ChangeKind::Modified));
                crate::seq_util::lemma_filter_take(s, i as int, of_kind(ChangeKind::Removed));
            }
            assert(s[i as int] == change_view(self.changes@[i as int]));
            match self.changes[i].kind() {
                ChangeKind::Added => added = added + 1,
                ChangeKind::Modified => modified = modified + 1,
                ChangeKind::Removed => removed = removed + 1,
            }
            i = i + 1;
        }
        assert(s.take(s.len() as int) =~= s);
        (added, modified, removed)
    }

    /// Apply this diff to a target trie: the source's keys that no change
    /// names are copied with their values, then each change is applied in
    /// order (additions and modifications insert, removals delete). An
    /// insertion the target trie cannot make ends with `PathTraversalError`.
    pub fn apply_to<S: NodeStorage>(&self, from_trie: &MerklePatriciaTrie<S>, trie: &mut MerklePatriciaTrie<S>) -> (r: TrieResult<()>)
        ensures
            final(trie).reliable() == old(trie).reliable(),
            r is Ok ==> (apply_ops(changes_view(self.changes@), *from_trie) matches Some(ops) && run_ops(
                (old(trie).root_id(), old(trie).nodes()),
                ops,
            ) == Some((final(trie).root_id(), final(trie).nodes()))),
            old(trie).reliable() && from_trie.reliable() && (apply_ops(changes_view(self.changes@), *from_trie) matches Some(
                ops,
            ) && run_ops((old(trie).root_id(), old(trie).nodes()), ops) is Some) ==> r is Ok,
    {
        let ghost cs = changes_view(self.changes@);
        let ghost st0: TrieState = (trie.root_id(), trie.nodes());
        let mut changed_keys: Vec<Key> = Vec::new();
        let mut i: usize = 0;
        while i < self.changes.len()
            invariant
                i <= self.changes@.len(),
                cs == changes_view(self.changes@),
                key_views(changed_keys@) == change_keys(cs.take(i as int)),
                changed_keys@.len() == i,
            decreases self.changes.len() - i,
        {
            assert(cs[i as int] == change_view(self.changes@[i as int]));
            let ghost before = changed_keys@;
            changed_keys.push(copy_bytes(self.changes[i].key()));
            assert(changed_keys@[i as int]@ == cs[i as int].1);
            assert(key_views(changed_keys@) =~= key_views(before).push(cs[i as int].1));
            assert(change_keys(cs.take(i + 1)) =~= change_keys(cs.take(i as int)).push(cs[i as int].1));
            i = i + 1;
        }
        assert(cs.take(cs.len() as int) =~= cs);
        let ghost ck = change_keys(cs);
        let ghost cops = cs.map_values(|c: ChangeView| change_op(c));
        let from_keys = match from_trie.get_all_keys() {
            Ok(k) => k,
            Err(e) => {
                return Err(e);
            },
        };
        let ghost ks = key_views(from_keys@);
        assert(keys_of(*from_trie) == Ok::<Seq<Seq<u8>>, TrieFault>(ks));
        let ghost mut ops: Seq<TrieOp> = Seq::empty();
        let mut j: usize = 0;
        while j < from_keys.len()
            invariant
                j <= from_keys@.len(),
                ks == key_views(from_keys@),
                keys_of(*from_trie) == Ok::<Seq<Seq<u8>>, TrieFault>(ks),
                key_views(changed_keys@) == ck,
                ck == change_keys(cs),
                cops == cs.map_values(|c: ChangeView| change_op(c)),
                cs == changes_view(self.changes@),
                trie.reliable() == old(trie).reliable(),
                st0 == (old(trie).root_id(), old(trie).nodes()),
                copy_ops(*from_trie, ks.take(j as int), ck) == Some(ops),
                run_ops(st0, ops) == Some((trie.root_id(), trie.nodes())),
            decreases from_keys.len() - j,
        {
            let key = &from_keys[j];
            proof {
                assert(ks.take(j + 1).drop_last() =~= ks.take(j as int));
                assert(ks.take(j + 1).last() == key@);
                lemma_copy_ops_prefix(*from_trie, ks, ck, j + 1);
            }
            if !has_key(&changed_keys, key) {
                if key.len() > usize::MAX / 2 {
                    return Err(MPTError::PathTraversalError);
                }
                match from_trie.get(key) {
                    Ok(Some(value)) => {
                        let ghost before = ops;
                        let ghost op = TrieOp::Put(key@, value@);
                        match trie.put_checked(copy_bytes(key), value) {
                            Ok(()) => {
                                proof {
                                    ops = ops.push(op);
                                    assert(ops.drop_last() =~= before);
                                }
                            },
                            Err(e) => {
                                proof {
                                    let pre = before.push(op);
                                    assert(pre.drop_last() =~= before);
                                    if apply_ops(cs, *from_trie) is Some {
                                        let all = apply_ops(cs, *from_trie)->Some_0;
                                        let o = copy_ops(*from_trie, ks, ck)->Some_0;
                                        assert(all == o + cops);
                                        assert(o.subrange(0, pre.len() as int) == pre);
                                        if old(trie).reliable() {
                                            assert(run_ops(st0, pre) is None);
                                            lemma_run_ops_prefix(st0, pre, all.subrange(pre.len() as int, all.len() as int));
                                            assert(pre + all.subrange(pre.len() as int, all.len() as int) =~= all);
                                        }
                                    }
                                }
                                return Err(e);
                            },
                        }
                    },
                    Ok(None) => {},
                    Err(e) => {
                        return Err(e);
                    },
                }
            }
            j = j + 1;
        }
        assert(ks.take(ks.len() as int) =~= ks);
        let ghost copied = ops;
        assert(apply_ops(cs, *from_trie) == Some(copied + cops));
        let mut k: usize = 0;
        while k < self.changes.len()
            invariant
                k <= self.changes@.len(),
                cs == changes_view(self.changes@),
                cops == cs.map_values(|c: ChangeView| change_op(c)),
                apply_ops(cs, *from_trie) == Some(copied + cops),
                trie.reliable() == old(trie).reliable(),
                st0 == (old(trie).root_id(), old(trie).nodes()),
                run_ops(st0, copied + cops.take(k as int)) == Some((trie.root_id(), trie.nodes())),
            decreases self.changes.len() - k,
        {
            let ghost pre = copied + cops.take(k + 1);
            proof {
                assert(pre.drop_last() =~= copied + cops.take(k as int));
                assert(pre.last() == change_op(cs[k as int]));
                assert(cs[k as int] == change_view(self.changes@[k as int]));
            }
            let step = match &self.changes[k] {
                StateChange::Added { key, value } => trie.put_checked(copy_bytes(key), copy_bytes(value)),
                StateChange::Modified { key, new_value, .. } => trie.put_checked(copy_bytes(key), copy_bytes(new_value)),
                StateChange::Removed { key, .. } => {
                    if key.len() > usize::MAX / 2 {
                        Err(MPTError::PathTraversalError)
                    } else {
                        match trie.delete(key) {
                            Ok(_) => Ok(()),
                            Err(e) => Err(e),
                        }
                    }
                },
            };
            match step {
                Ok(()) => {},
                Err(e) => {
                    proof {
                        if old(trie).reliable() {
                            assert(run_ops(st0, pre) is None);
                            lemma_run_ops_prefix(st0, pre, cops.subrange(k + 1, cops.len() as int));
                            assert(pre + cops.subrange(k + 1, cops.len() as int) =~= copied + cops);
                        }
                    }
                    return Err(e);
                },
            }
            k = k + 1;
        }
        assert(cops.take(cops.len() as int) =~= cops);
        Ok(())
    }

    /// Create reverse diff (to undo this diff): each change undone, in
    /// reverse order, between the swapped roots.
    pub fn reverse(&self) -> (r: StateDiff)
        ensures
            changes_view(r.changes@) == changes_view(self.changes@).map_values(|v: ChangeView| undo_view(v)).reverse(),
            r.from_root == self.to_root,
            r.to_root == self.from_root,
    {
        let ghost s = changes_view(self.changes@);
        let ghost u = s.map_values(|v: ChangeView| undo_view(v));
        let mut reversed: Vec<StateChange> = Vec::new();
        let mut i: usize = self.changes.len();
        while i > 0
            invariant
                i <= s.len(),
                s == changes_view(self.changes@),
                u == s.map_values(|v: ChangeView| undo_view(v)),
                changes_view(reversed@) == u.subrange(i as int, s.len() as int).reverse(),
            decreases i,
        {
            let c = self.changes[i - 1].undo();
            assert(s[i - 1] == change_view(self.changes@[i - 1]));
            let ghost before = reversed@;
            reversed.push(c);
            assert(changes_view(reversed@) =~= changes_view(before).push(change_view(c)));
            assert(u[i - 1] == undo_view(s[i - 1]));
            assert(u.subrange(i - 1, s.len() as int).reverse() =~= u.subrange(i as int, s.len() as int).reverse().push(u[i - 1]));
            assert(changes_view(reversed@) =~= u.subrange(i - 1, s.len() as int).reverse());
            i = i - 1;
        }
        assert(u.subrange(0, s.len() as int) =~= u);
        StateDiff { changes: reversed, from_root: self.to_root, to_root: self.from_root }
    }

    /// Get all changes for a specific key, in order
    pub fn changes_for_key(&self, key: &Key) -> (r: Vec<&StateChange>)
        ensures
            changes_view(r@.map_values(|c: &StateChange| *c)) == changes_view(self.changes@).filter(of_key(key@)),
    {
        let ghost s = changes_view(self.changes@);
        let ghost p = of_key(key@);
        let mut r: Vec<&StateChange> = Vec::new();
        let mut i: usize = 0;
        while i < self.changes.len()
            invariant
                i <= s.len(),
                s == changes_view(self.changes@),
                p == of_key(key@),
                changes_view(r@.map_values(|c: &StateChange| *c)) == s.take(i as int).filter(p),
            decreases s.len() - i,
        {
            proof {
                crate::seq_util::lemma_filter_take(s, i as int, p);
            }
            let c = &self.changes[i];
            assert(s[i as int] == change_view(*c));
            if same_bytes(c.key(), key) {
                let ghost before = r@;
                r.push(c);
                assert(changes_view(r@.map_values(|c: &StateChange| *c)) =~= changes_view(
                    before.map_values(|c: &StateChange| *c),
                ).push(change_view(*c)));
            }
            i = i + 1;
        }
        assert(s.take(s.len() as int) =~= s);
        r
    }

    /// Check if a key was changed in this diff
    pub fn has_change_for_key(&self, key: &Key) -> (r: bool)
        ensures
            r == exists|i: int| 0 <= i < self.changes@.len() && #[trigger] change_view(self.changes@[i]).1 == key@,
    {
        let mut i: usize = 0;
        while i < self.changes.len()
            invariant
                i <= self.changes@.len(),
                forall|j: int| 0 <= j < i ==> #[trigger] change_view(self.changes@[j]).1 != key@,
            decreases self.changes@.len() - i,
        {
            if same_bytes(self.changes[i].key(), key) {
                return true;
            }
            i = i + 1;
        }
        false
    }
}

/// State diff computer for comparing two MPT states
pub struct StateDiffComputer;

/// The value a trie holds under byte key `k`.
pub open spec fn value_in<S: NodeStorage>(t: MerklePatriciaTrie<S>, k: Seq<u8>) -> Result<Option<Seq<u8>>, TrieFault> {
    lookup(t.nodes(), t.root_id(), nibbles_of(k), max_depth())
}

/// The keys a trie lists.
pub open spec fn keys_of<S: NodeStorage>(t: MerklePatriciaTrie<S>) -> Result<Seq<Seq<u8>>, TrieFault> {
    keys_below(t.nodes(), t.root_id(), Seq::empty(), max_depth())
}

/// The byte sequences of a list of keys.
pub open spec fn key_views(v: Seq<Key>) -> Seq<Seq<u8>> {
    v.map_values(|k: Key| k@)
}

/// Whether a change agrees with the two tries, given the target's keys: an
/// addition is of a key absent from the source with the target's value; a
/// modification is of a key whose two values differ; a removal is of a key
/// the target does not list, with the source's value.
pub open spec fn justified<S: NodeStorage>(
    from: MerklePatriciaTrie<S>,
    to: MerklePatriciaTrie<S>,
    to_keys: Seq<Seq<u8>>,
    v: ChangeView,
) -> bool {
    match v.0 {
        ChangeKind::Added => value_in(from, v.1) == Ok::<Option<Seq<u8>>, TrieFault>(None) && value_in(to, v.1)
            == Ok::<Option<Seq<u8>>, TrieFault>(Some(v.3)),
        ChangeKind::Modified => value_in(from, v.1) == Ok::<Option<Seq<u8>>, TrieFault>(Some(v.2)) && value_in(
            to,
            v.1,
        ) == Ok::<Option<Seq<u8>>, TrieFault>(Some(v.3)) && v.2 != v.3,
        ChangeKind::Removed => value_in(from, v.1) == Ok::<Option<Seq<u8>>, TrieFault>(Some(v.2))
            && !to_keys.contains(v.1),
    }
}

/// Whether a lookup found a value.
pub open spec fn holds_value(r: Result<Option<Seq<u8>>, TrieFault>) -> bool {
    r matches Ok(Some(_))
}

/// A diff's changes read against the two tries' lookups: each removal is of
/// a key whose source value it carries and that has no value in the target;
/// every key whose target value differs from its source value has a change;
/// and where every key the target lists reads back a value (as in a trie
/// built from byte keys), so does every key with a source value and no
/// target value. (The clauses required are those `compute_diff` ensures of
/// its result.)
pub proof fn lemma_diff_against_lookups<S: NodeStorage>(
    from: MerklePatriciaTrie<S>,
    to: MerklePatriciaTrie<S>,
    d: Seq<ChangeView>,
    k: Seq<u8>,
)
    requires
        keys_of(from) is Ok,
        keys_of(to) is Ok,
        forall|i: int| 0 <= i < d.len() ==> justified(from, to, keys_of(to)->Ok_0, #[trigger] d[i]),
        forall|k2: Seq<u8>|
            #![trigger keys_of(to)->Ok_0.contains(k2)]
            keys_of(to)->Ok_0.contains(k2) && value_in(to, k2) is Ok && value_in(to, k2) != value_in(from, k2) && value_in(
                to,
                k2,
            )->Ok_0 is Some ==> has_change(d, k2),
        forall|k2: Seq<u8>|
            #![trigger keys_of(from)->Ok_0.contains(k2)]
            keys_of(from)->Ok_0.contains(k2) && !keys_of(to)->Ok_0.contains(k2) && holds_value(value_in(from, k2)) ==> has_change(
                d,
                k2,
            ),
    ensures
        forall|i: int|
            0 <= i < d.len() && (#[trigger] d[i]).0 is Removed ==> value_in(from, d[i].1) == Ok::<Option<Seq<u8>>, TrieFault>(
                Some(d[i].2),
            ) && value_in(to, d[i].1) == Ok::<Option<Seq<u8>>, TrieFault>(None),
        value_in(to, k) matches Ok(Some(v)) && value_in(from, k) != Ok::<Option<Seq<u8>>, TrieFault>(Some(v)) ==> has_change(d, k),
        (forall|x: Seq<u8>| #[trigger] keys_of(to)->Ok_0.contains(x) ==> holds_value(value_in(to, x))) && holds_value(
            value_in(from, k),
        ) && value_in(to, k) == Ok::<Option<Seq<u8>>, TrieFault>(None) ==> has_change(d, k),
{
    assert forall|i: int| 0 <= i < d.len() && (#[trigger] d[i]).0 is Removed implies value_in(from, d[i].1) == Ok::<
        Option<Seq<u8>>,
        TrieFault,
    >(Some(d[i].2)) && value_in(to, d[i].1) == Ok::<Option<Seq<u8>>, TrieFault>(None) by {
        assert(justified(from, to, keys_of(to)->Ok_0, d[i]));
        lemma_listing_matches_lookups(to.nodes(), to.root_id(), d[i].1, d[i].1, max_depth());
    }
    lemma_listing_matches_lookups(to.nodes(), to.root_id(), k, k, max_depth());
    lemma_listing_matches_lookups(from.nodes(), from.root_id(), k, k, max_depth());
    if value_in(to, k) is Ok && value_in(to, k)->Ok_0 is Some {
        assert(keys_of(to)->Ok_0.contains(k));
    }
    if holds_value(value_in(from, k)) {
        assert(keys_of(from)->Ok_0.contains(k));
    }
}

/// Whether `k` has a change in `d`.
pub open spec fn has_change(d: Seq<ChangeView>, k: Seq<u8>) -> bool {
    exists|i: int| 0 <= i < d.len() && (#[trigger] d[i]).1 == k
}

/// Whether `k` is among `v`.
fn has_key(v: &Vec<Key>, k: &Key) -> (r: bool)
    ensures
        r == key_views(v@).contains(k@),
{
    let mut i: usize = 0;
    while i < v.len()
        invariant
            i <= v@.len(),
            forall|j: int| 0 <= j < i ==> v@[j]@ != k@,
        decreases v.len() - i,
    {
        if same_bytes(&v[i], k) {
            assert(key_views(v@)[i as int] == k@);
            return true;
        }
        i = i + 1;
    }
    assert forall|j: int| 0 <= j < key_views(v@).len() implies key_views(v@)[j] != k@ by {
        assert(key_views(v@)[j] == v@[j]@);
    }
    false
}

/// An element is in a sequence with `a` appended exactly when it is `a` or
/// was in the sequence.
proof fn lemma_push_contains<A>(s: Seq<A>, a: A, x: A)
    ensures
        s.push(a).contains(x) <==> (s.contains(x) || x == a),
{
    if s.push(a).contains(x) {
        let k = choose|k: int| 0 <= k < s.push(a).len() && s.push(a)[k] == x;
        if k < s.len() {
            assert(s[k] == x);
        }
    }
    if s.contains(x) {
        let k = choose|k: int| 0 <= k < s.len() && s[k] == x;
        assert(s.push(a)[k] == x);
    }
    if x == a {
        assert(s.push(a)[s.len() as int] == x);
    }
}

/// The keys of `v`, each once, in the order of their first occurrence.
fn distinct_keys(v: &Vec<Key>) -> (r: Vec<Key>)
    ensures
        forall|a: int, b: int| 0 <= a < b < r@.len() ==> r@[a]@ != r@[b]@,
        forall|x: Seq<u8>| key_views(r@).contains(x) <==> key_views(v@).contains(x),
{
    let mut r: Vec<Key> = Vec::new();
    let mut i: usize = 0;
    while i < v.len()
        invariant
            i <= v@.len(),
            forall|a: int, b: int| 0 <= a < b < r@.len() ==> r@[a]@ != r@[b]@,
            forall|x: Seq<u8>| key_views(r@).contains(x) <==> key_views(v@.take(i as int)).contains(x),
        decreases v.len() - i,
    {
        let ghost before = r@;
        if !has_key(&r, &v[i]) {
            r.push(copy_bytes(&v[i]));
            proof {
                assert forall|a: int, b: int| 0 <= a < b < r@.len() implies r@[a]@ != r@[b]@ by {
                    if b == r@.len() - 1 {
                        assert(key_views(before)[a] == before[a]@);
                    }
                }
            }
        }
        proof {
            let t = key_views(v@.take(i as int));
            let u = key_views(v@.take(i + 1));
            let y = v@[i as int]@;
            assert(u =~= t.push(y));
            if key_views(before).contains(y) {
                assert(r@ == before);
                assert forall|x: Seq<u8>| key_views(r@).contains(x) <==> u.contains(x) by {
                    lemma_push_contains(t, y, x);
                }
            } else {
                assert(key_views(r@) =~= key_views(before).push(y));
                assert forall|x: Seq<u8>| key_views(r@).contains(x) <==> u.contains(x) by {
                    lemma_push_contains(t, y, x);
                    lemma_push_contains(key_views(before), y, x);
                }
            }
        }
        i = i + 1;
    }
    assert(v@.take(i as int) =~= v@);
    r
}

/// A step of applying a diff to a trie: store a value under a key, or
/// delete a key.
pub enum TrieOp {
    Put(Seq<u8>, Seq<u8>),
    Delete(Seq<u8>),
}

/// The state of a trie as its root and its nodes.
pub type TrieState = (Seq<u8>, Map<Seq<u8>, NodeView>);

/// The trie after one step, or `None` where the step fails: the key is too
/// long to turn into nibbles, or the insertion or deletion is not defined.
pub open spec fn op_step(st: TrieState, op: TrieOp) -> Option<TrieState> {
    match op {
        TrieOp::Put(k, v) => if 2 * k.len() > usize::MAX {
            None
        } else {
            match put_spec(st.1, st.0, nibbles_of(k), v, max_depth()) {
                Ok((root, w)) => Some((root, insert_all(st.1, w))),
                Err(_) => None,
            }
        },
        TrieOp::Delete(k) => if 2 * k.len() > usize::MAX {
            None
        } else {
            match delete_spec(st.1, st.0, nibbles_of(k), max_depth()) {
                Ok(Some((root, w))) => Some((root, insert_all(st.1, w))),
                Ok(None) => Some(st),
                Err(_) => None,
            }
        },
    }
}

/// The trie after the steps `ops` in order, or `None` where one fails.
pub open spec fn run_ops(st: TrieState, ops: Seq<TrieOp>) -> Option<TrieState>
    decreases ops.len(),
{
    if ops.len() == 0 {
        Some(st)
    } else {
        match run_ops(st, ops.drop_last()) {
            Some(s) => op_step(s, ops.last()),
            None => None,
        }
    }
}

/// The steps that copy the keys `keys` of `from` that `changed` does not
/// name, with their values in `from`; `None` where a key is too long or
/// cannot be looked up.
pub open spec fn copy_ops<S: NodeStorage>(from: MerklePatriciaTrie<S>, keys: Seq<Seq<u8>>, changed: Seq<Seq<u8>>) -> Option<Seq<TrieOp>>
    decreases keys.len(),
{
    if keys.len() == 0 {
        Some(Seq::empty())
    } else {
        match copy_ops(from, keys.drop_last(), changed) {
            Some(o) => {
                let k = keys.last();
                if changed.contains(k) {
                    Some(o)
                } else if 2 * k.len() > usize::MAX {
                    None
                } else {
                    match value_in(from, k) {
                        Ok(Some(v)) => Some(o.push(TrieOp::Put(k, v))),
                        Ok(None) => Some(o),
                        Err(_) => None,
                    }
                }
            },
            None => None,
        }
    }
}

/// The step of a change: additions and modifications store the new value,
/// removals delete the key.
pub open spec fn change_op(c: ChangeView) -> TrieOp {
    match c.0 {
        ChangeKind::Added => TrieOp::Put(c.1, c.3),
        ChangeKind::Modified => TrieOp::Put(c.1, c.3),
        ChangeKind::Removed => TrieOp::Delete(c.1),
    }
}

/// The keys that changes name.
pub open spec fn change_keys(cs: Seq<ChangeView>) -> Seq<Seq<u8>> {
    cs.map_values(|c: ChangeView| c.1)
}

/// The steps of applying changes `cs` with source trie `from`: the source's
/// keys that no change names are copied, then each change is made; `None`
/// where the source cannot list its keys or copying fails.
pub open spec fn apply_ops<S: NodeStorage>(cs: Seq<ChangeView>, from: MerklePatriciaTrie<S>) -> Option<Seq<TrieOp>> {
    match keys_of(from) {
        Ok(ks) => match copy_ops(from, ks, change_keys(cs)) {
            Some(o) => Some(o + cs.map_values(|c: ChangeView| change_op(c))),
            None => None,
        },
        Err(_) => None,
    }
}

/// A failing prefix makes the whole run fail.
proof fn lemma_run_ops_prefix(st: TrieState, a: Seq<TrieOp>, b: Seq<TrieOp>)
    requires
        run_ops(st, a) is None,
    ensures
        run_ops(st, a + b) is None,
    decreases b.len(),
{
    if b.len() == 0 {
        assert(a + b =~= a);
    } else {
        lemma_run_ops_prefix(st, a, b.drop_last());
        assert((a + b).drop_last() =~= a + b.drop_last());
    }
}

/// Copying a prefix of the keys: it fails when copying it fails, and
/// otherwise its steps begin the steps of the whole.
proof fn lemma_copy_ops_prefix<S: NodeStorage>(from: MerklePatriciaTrie<S>, keys: Seq<Seq<u8>>, changed: Seq<Seq<u8>>, j: int)
    requires
        0 <= j <= keys.len(),
    ensures
        copy_ops(from, keys.take(j), changed) is None ==> copy_ops(from, keys, changed) is None,
        copy_ops(from, keys, changed) matches Some(o) ==> (copy_ops(from, keys.take(j), changed) matches Some(p)
            && p.len() <= o.len() && o.subrange(0, p.len() as int) == p),
    decreases keys.len() - j,
{
    if j == keys.len() {
        assert(keys.take(j) =~= keys);
    } else {
        lemma_copy_ops_prefix(from, keys, changed, j + 1);
        assert(keys.take(j + 1).drop_last() =~= keys.take(j));
        assert(keys.take(j + 1).last() == keys[j]);
        if let Some(o) = copy_ops(from, keys, changed) {
            let q = copy_ops(from, keys.take(j + 1), changed)->Some_0;
            let p = copy_ops(from, keys.take(j), changed)->Some_0;
            assert(q.subrange(0, p.len() as int) =~= p);
            assert(o.subrange(0, p.len() as int) =~= q.subrange(0, p.len() as int));
        }
    }
}

/// Whether no two changes name the same key.
pub open spec fn keys_distinct(cs: Seq<ChangeView>) -> bool {
    forall|a: int, b: int| 0 <= a < b < cs.len() ==> (#[trigger] cs[a]).1 != (#[trigger] cs[b]).1
}

/// Whether `k` is the key of one of the first `i` entries of `v`.
pub open spec fn in_prefix(v: Seq<Key>, i: int, k: Seq<u8>) -> bool {
    exists|j: int| 0 <= j < i && #[trigger] v[j]@ == k
}

/// Whether computing the difference of two tries must succeed: both read
/// storage that cannot fail, both list their keys, every key of the target
/// can be looked up in both and every key only of the source in the source,
/// and every such key is short enough to turn into nibbles.
pub open spec fn diff_owed<S: NodeStorage>(from: MerklePatriciaTrie<S>, to: MerklePatriciaTrie<S>) -> bool {
    &&& from.reliable()
    &&& to.reliable()
    &&& keys_of(from) is Ok
    &&& keys_of(to) is Ok
    &&& forall|k: Seq<u8>|
        #![trigger keys_of(to)->Ok_0.contains(k)]
        keys_of(to)->Ok_0.contains(k) ==> k.len() <= usize::MAX / 2 && value_in(to, k) is Ok && value_in(from, k) is Ok
    &&& forall|k: Seq<u8>|
        #![trigger keys_of(from)->Ok_0.contains(k)]
        keys_of(from)->Ok_0.contains(k) && !keys_of(to)->Ok_0.contains(k) ==> k.len() <= usize::MAX / 2 && value_in(
            from,
            k,
        ) is Ok
}

impl StateDiffComputer {
    /// Compute the difference between two tries: additions and modifications
    /// for the target's keys, then removals for the source's keys that the
    /// target does not list
    pub fn compute_diff<S: NodeStorage>(from_trie: &MerklePatriciaTrie<S>, to_trie: &MerklePatriciaTrie<S>) -> (r: TrieResult<StateDiff>)
        ensures
            diff_owed(*from_trie, *to_trie) ==> r is Ok,
            r matches Ok(d) ==> keys_distinct(changes_view(d.changes@)),
            r matches Ok(d) ==> ({
                &&& keys_of(*from_trie) is Ok
                &&& keys_of(*to_trie) is Ok
                &&& d.from_root@ == from_trie.root_id()
                &&& d.to_root@ == to_trie.root_id()
                &&& forall|i: int| 0 <= i < d.changes@.len() ==> justified(
                    *from_trie,
                    *to_trie,
                    keys_of(*to_trie)->Ok_0,
                    #[trigger] changes_view(d.changes@)[i],
                )
                &&& forall|k: Seq<u8>|
                    #![trigger keys_of(*to_trie)->Ok_0.contains(k)]
                    keys_of(*to_trie)->Ok_0.contains(k) && value_in(*to_trie, k) is Ok && value_in(*to_trie, k)
                        != value_in(*from_trie, k) && value_in(*to_trie, k)->Ok_0 is Some ==> has_change(
                        changes_view(d.changes@),
                        k,
                    )
                &&& forall|k: Seq<u8>|
                    #![trigger keys_of(*from_trie)->Ok_0.contains(k)]
                    keys_of(*from_trie)->Ok_0.contains(k) && !keys_of(*to_trie)->Ok_0.contains(k)
                        && holds_value(value_in(*from_trie, k)) ==> has_change(
                        changes_view(d.changes@),
                        k,
                    )
            }),
    {
        let mut diff = StateDiff::new(from_trie.root_hash(), to_trie.root_hash());
        let from_keys = match from_trie.get_all_keys() {
            Ok(k) => k,
            Err(e) => {
                return Err(e);
            },
        };
        let to_keys = match to_trie.get_all_keys() {
            Ok(k) => k,
            Err(e) => {
                return Err(e);
            },
        };
        let ghost fk = keys_of(*from_trie)->Ok_0;
        let ghost tk = keys_of(*to_trie)->Ok_0;
        let from_key_set = distinct_keys(&from_keys);
        let to_key_set = distinct_keys(&to_keys);
        let mut i: usize = 0;
        while i < to_key_set.len()
            invariant
                i <= to_key_set@.len(),
                keys_distinct(changes_view(diff.changes@)),
                forall|a: int| 0 <= a < changes_view(diff.changes@).len() ==> in_prefix(to_key_set@, i as int, #[trigger] changes_view(diff.changes@)[a].1),
                forall|a: int, b: int| 0 <= a < b < to_key_set@.len() ==> to_key_set@[a]@ != to_key_set@[b]@,
                keys_of(*from_trie) == Ok::<Seq<Seq<u8>>, TrieFault>(fk),
                keys_of(*to_trie) == Ok::<Seq<Seq<u8>>, TrieFault>(tk),
                key_views(to_keys@) == tk,
                forall|x: Seq<u8>| key_views(to_key_set@).contains(x) <==> tk.contains(x),
                diff.from_root@ == from_trie.root_id(),
                diff.to_root@ == to_trie.root_id(),
                forall|j: int| 0 <= j < diff.changes@.len() ==> justified(
                    *from_trie,
                    *to_trie,
                    tk,
                    #[trigger] changes_view(diff.changes@)[j],
                ),
                forall|j: int|
                    0 <= j < i ==> (value_in(*to_trie, #[trigger] to_key_set@[j]@) is Ok && value_in(
                        *to_trie,
                        to_key_set@[j]@,
                    ) != value_in(*from_trie, to_key_set@[j]@) && value_in(*to_trie, to_key_set@[j]@)->Ok_0
                        is Some ==> has_change(changes_view(diff.changes@), to_key_set@[j]@)),
            decreases to_key_set.len() - i,
        {
            let key = &to_key_set[i];
            proof {
                assert(key_views(to_key_set@)[i as int] == key@);
                assert(keys_of(*to_trie)->Ok_0.contains(key@));
            }
            if key.len() > usize::MAX / 2 {
                return Err(MPTError::PathTraversalError);
            }
            let to_value = match to_trie.get(key) {
                Ok(v) => v,
                Err(e) => {
                    return Err(e);
                },
            };
            let from_value = match from_trie.get(key) {
                Ok(v) => v,
                Err(e) => {
                    return Err(e);
                },
            };
            let ghost before = changes_view(diff.changes@);
            match (from_value, to_value) {
                (None, Some(value)) => {
                    diff.add_change(StateChange::Added { key: copy_bytes(key), value });
                },
                (Some(old_value), Some(new_value)) => {
                    if !same_bytes(&old_value, &new_value) {
                        diff.add_change(StateChange::Modified { key: copy_bytes(key), old_value, new_value });
                    }
                },
                _ => {},
            }
            proof {
                let now = changes_view(diff.changes@);
                assert(now.len() >= before.len());
                assert forall|j: int| 0 <= j < before.len() implies now[j] == before[j] by {}
                assert forall|j: int| 0 <= j < i + 1 implies (value_in(*to_trie, #[trigger] to_key_set@[j]@) is Ok && value_in(
                    *to_trie,
                    to_key_set@[j]@,
                ) != value_in(*from_trie, to_key_set@[j]@) && value_in(*to_trie, to_key_set@[j]@)->Ok_0
                    is Some ==> has_change(now, to_key_set@[j]@)) by {
                    if j < i {
                        if has_change(before, to_key_set@[j]@) {
                            let k = choose|k: int| 0 <= k < before.len() && (#[trigger] before[k]).1 == to_key_set@[j]@;
                            assert(now[k] == before[k]);
                        }
                    } else {
                        if now.len() > before.len() {
                            assert(now[before.len() as int].1 == to_key_set@[j]@);
                        }
                    }
                }
                assert forall|j: int| 0 <= j < now.len() implies justified(*from_trie, *to_trie, tk, #[trigger] now[j]) by {
                    if j < before.len() {
                        assert(now[j] == before[j]);
                    }
                }
            }
            proof {
                let now = changes_view(diff.changes@);
                let ki = to_key_set@[i as int]@;
                assert forall|a: int| 0 <= a < now.len() implies in_prefix(to_key_set@, i + 1, #[trigger] now[a].1) by {
                    if a < before.len() {
                        assert(now[a] == before[a]);
                        let j = choose|j: int| 0 <= j < i && #[trigger] to_key_set@[j]@ == before[a].1;
                        assert(to_key_set@[j]@ == now[a].1);
                    } else {
                        assert(now[a].1 == ki);
                        assert(to_key_set@[i as int]@ == now[a].1);
                    }
                }
                assert forall|a: int, b: int| 0 <= a < b < now.len() implies (#[trigger] now[a]).1 != (#[trigger] now[b]).1 by {
                    if b < before.len() {
                        assert(now[a] == before[a] && now[b] == before[b]);
                    } else {
                        assert(now[a] == before[a]);
                        assert(now[b].1 == ki);
                        let j = choose|j: int| 0 <= j < i && #[trigger] to_key_set@[j]@ == before[a].1;
                    }
                }
            }
            i = i + 1;
        }
        proof {
            let now = changes_view(diff.changes@);
            assert forall|a: int| 0 <= a < now.len() implies tk.contains(#[trigger] now[a].1) by {
                let j = choose|j: int| 0 <= j < i && #[trigger] to_key_set@[j]@ == now[a].1;
                assert(key_views(to_key_set@)[j] == now[a].1);
            }
        }
        let mut k: usize = 0;
        while k < from_key_set.len()
            invariant
                k <= from_key_set@.len(),
                keys_distinct(changes_view(diff.changes@)),
                forall|a: int| 0 <= a < changes_view(diff.changes@).len() ==> tk.contains(#[trigger] changes_view(diff.changes@)[a].1)
                    || in_prefix(from_key_set@, k as int, changes_view(diff.changes@)[a].1),
                forall|a: int, b: int| 0 <= a < b < from_key_set@.len() ==> from_key_set@[a]@ != from_key_set@[b]@,
                keys_of(*from_trie) == Ok::<Seq<Seq<u8>>, TrieFault>(fk),
                keys_of(*to_trie) == Ok::<Seq<Seq<u8>>, TrieFault>(tk),
                key_views(to_keys@) == tk,
                forall|x: Seq<u8>| key_views(to_key_set@).contains(x) <==> tk.contains(x),
                forall|x: Seq<u8>| key_views(from_key_set@).contains(x) <==> fk.contains(x),
                diff.from_root@ == from_trie.root_id(),
                diff.to_root@ == to_trie.root_id(),
                forall|j: int| 0 <= j < diff.changes@.len() ==> justified(
                    *from_trie,
                    *to_trie,
                    tk,
                    #[trigger] changes_view(diff.changes@)[j],
                ),
                forall|x: Seq<u8>|
                    #![trigger tk.contains(x)]
                    tk.contains(x) && value_in(*to_trie, x) is Ok && value_in(*to_trie, x) != value_in(*from_trie, x)
                        && value_in(*to_trie, x)->Ok_0 is Some ==> has_change(changes_view(diff.changes@), x),
                forall|j: int|
                    0 <= j < k ==> (!tk.contains(#[trigger] from_key_set@[j]@) && holds_value(value_in(*from_trie, from_key_set@[j]@)) ==> has_change(changes_view(diff.changes@), from_key_set@[j]@)),
            decreases from_key_set.len() - k,
        {
            let key = &from_key_set[k];
            let ghost before = changes_view(diff.changes@);
            if !has_key(&to_key_set, key) {
                proof {
                    assert(key_views(from_key_set@)[k as int] == key@);
                    assert(keys_of(*from_trie)->Ok_0.contains(key@));
                    assert(!keys_of(*to_trie)->Ok_0.contains(key@));
                }
                if key.len() > usize::MAX / 2 {
                    return Err(MPTError::PathTraversalError);
                }
                match from_trie.get(key) {
                    Ok(Some(old_value)) => {
                        diff.add_change(StateChange::Removed { key: copy_bytes(key), old_value });
                    },
                    Ok(None) => {},
                    Err(e) => {
                        return Err(e);
                    },
                }
            }
            proof {
                let now = changes_view(diff.changes@);
                assert forall|j: int| 0 <= j < before.len() implies now[j] == before[j] by {}
                assert forall|j: int| 0 <= j < now.len() implies justified(*from_trie, *to_trie, tk, #[trigger] now[j]) by {
                    if j < before.len() {
                        assert(now[j] == before[j]);
                    }
                }
                assert forall|x: Seq<u8>|
                    #![trigger tk.contains(x)]
                    tk.contains(x) && value_in(*to_trie, x) is Ok && value_in(*to_trie, x) != value_in(*from_trie, x)
                        && value_in(*to_trie, x)->Ok_0 is Some implies has_change(now, x) by {
                    let m = choose|m: int| 0 <= m < before.len() && (#[trigger] before[m]).1 == x;
                    assert(now[m] == before[m]);
                }
                assert forall|j: int|
                    0 <= j < k + 1 implies (!tk.contains(#[trigger] from_key_set@[j]@) && holds_value(value_in(*from_trie, from_key_set@[j]@)) ==> has_change(now, from_key_set@[j]@)) by {
                    if j < k {
                        if has_change(before, from_key_set@[j]@) {
                            let m = choose|m: int| 0 <= m < before.len() && (#[trigger] before[m]).1 == from_key_set@[j]@;
                            assert(now[m] == before[m]);
                        }
                    } else {
                        if now.len() > before.len() {
                            assert(now[before.len() as int].1 == from_key_set@[j]@);
                        }
                    }
                }
            }
            proof {
                let now = changes_view(diff.changes@);
                let kk = from_key_set@[k as int]@;
                if now.len() > before.len() {
                    assert(!key_views(to_key_set@).contains(kk));
                    assert(!tk.contains(kk));
                }
                assert forall|a: int| 0 <= a < now.len() implies tk.contains(#[trigger] now[a].1)
                    || in_prefix(from_key_set@, k + 1, now[a].1) by {
                    if a < before.len() {
                        assert(now[a] == before[a]);
                        if !tk.contains(before[a].1) {
                            let j = choose|j: int| 0 <= j < k && #[trigger] from_key_set@[j]@ == before[a].1;
                            assert(from_key_set@[j]@ == now[a].1);
                        }
                    } else {
                        assert(now[a].1 == kk);
                        assert(from_key_set@[k as int]@ == now[a].1);
                    }
                }
                assert forall|a: int, b: int| 0 <= a < b < now.len() implies (#[trigger] now[a]).1 != (#[trigger] now[b]).1 by {
                    if b < before.len() {
                        assert(now[a] == before[a] && now[b] == before[b]);
                    } else {
                        assert(now[a] == before[a]);
                        assert(now[b].1 == kk);
                        if !tk.contains(before[a].1) {
                            let j = choose|j: int| 0 <= j < k && #[trigger] from_key_set@[j]@ == before[a].1;
                        }
                    }
                }
            }
            k = k + 1;
        }
        proof {
            assert forall|x: Seq<u8>|
                #![trigger tk.contains(x)]
                tk.contains(x) && value_in(*to_trie, x) is Ok && value_in(*to_trie, x) != value_in(*from_trie, x)
                    && value_in(*to_trie, x)->Ok_0 is Some implies has_change(changes_view(diff.changes@), x) by {}
            assert forall|x: Seq<u8>|
                #![trigger fk.contains(x)]
                fk.contains(x) && !tk.contains(x) && holds_value(value_in(*from_trie, x)) implies has_change(
                    changes_view(diff.changes@),
                    x,
                ) by {
                assert(key_views(from_key_set@).contains(x));
                let j = choose|j: int| 0 <= j < key_views(from_key_set@).len() && key_views(from_key_set@)[j] == x;
                assert(from_key_set@[j]@ == x);
            }
        }
        Ok(diff)
    }
}

/// Every change is of exactly one kind: the additions, modifications and
/// removals together are all the changes.
pub proof fn lemma_kinds_partition(cs: Seq<ChangeView>)
    ensures
        cs.filter(of_kind(ChangeKind::Added)).len() + cs.filter(of_kind(ChangeKind::Modified)).len() + cs.filter(
            of_kind(ChangeKind::Removed),
        ).len() == cs.len(),
    decreases cs.len(),
{
    reveal_with_fuel(Seq::<_>::filter, 1);
    if cs.len() > 0 {
        lemma_kinds_partition(cs.drop_last());
    }
}

/// Undoing a change twice gives the change back.
pub proof fn lemma_undo_twice(v: ChangeView)
    requires
        v.0 == ChangeKind::Added ==> v.2 == Seq::<u8>::empty(),
        v.0 == ChangeKind::Removed ==> v.3 == Seq::<u8>::empty(),
    ensures
        undo_view(undo_view(v)) == v,
{
}

/// Reversing a diff twice gives back its changes: the reverse of the
/// reverse of a list of changes is the list itself.
pub proof fn lemma_reverse_twice(d: StateDiff)
    ensures
        changes_view(d.changes@).map_values(|v: ChangeView| undo_view(v)).reverse().map_values(|v: ChangeView| undo_view(v)).reverse()
            == changes_view(d.changes@),
{
    let s = changes_view(d.changes@);
    let r = s.map_values(|v: ChangeView| undo_view(v)).reverse().map_values(|v: ChangeView| undo_view(v)).reverse();
    assert forall|i: int| 0 <= i < s.len() implies r[i] == s[i] by {
        let c = d.changes@[i];
        assert(s[i] == change_view(c));
        lemma_undo_twice(change_view(c));
    }
    assert(r =~= s);
}

} // verus!
