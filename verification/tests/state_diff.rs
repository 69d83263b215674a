use dotdb_core::state::diff::{StateChange, StateDiff, StateDiffComputer};
use dotdb_core::state::mpt::lib::Key;
use dotdb_core::state::mpt::trie::MerklePatriciaTrie;

#[test]
fn test_state_change_creation() {
    let key = vec![1, 2, 3];
    let value = vec![4, 5, 6];
    let old_value = vec![7, 8, 9];
    let new_value = vec![10, 11, 12];

    let added = StateChange::Added { key: key.clone(), value: value.clone() };
    assert_eq!(added.key(), &key);
    assert_eq!(added.get_new_value(), Some(&value));
    assert_eq!(added.get_old_value(), None);

    let modified = StateChange::Modified {
        key: key.clone(),
        old_value: old_value.clone(),
        new_value: new_value.clone(),
    };
    assert_eq!(modified.key(), &key);
    assert_eq!(modified.get_new_value(), Some(&new_value));
    assert_eq!(modified.get_old_value(), Some(&old_value));

    let removed = StateChange::Removed { key: key.clone(), old_value: old_value.clone() };
    assert_eq!(removed.key(), &key);
    assert_eq!(removed.get_new_value(), None);
    assert_eq!(removed.get_old_value(), Some(&old_value));
}

#[test]
fn test_state_diff_creation() {
    let mut diff = StateDiff::new([1; 32], [2; 32]);
    assert!(diff.is_empty());
    assert_eq!(diff.change_count(), 0);
    assert_eq!(diff.change_summary(), (0, 0, 0));

    diff.add_change(StateChange::Added { key: vec![1], value: vec![2] });
    assert!(!diff.is_empty());
    assert_eq!(diff.change_count(), 1);
    assert_eq!(diff.change_summary(), (1, 0, 0));
}

#[test]
fn test_state_diff_operations() {
    let mut diff = StateDiff::new([1; 32], [2; 32]);
    let key1 = vec![1];
    let key2 = vec![2];
    let value1 = vec![3];
    let value2 = vec![4];

    diff.add_change(StateChange::Added { key: key1.clone(), value: value1.clone() });
    diff.add_change(StateChange::Modified {
        key: key2.clone(),
        old_value: value1.clone(),
        new_value: value2.clone(),
    });

    assert_eq!(diff.added_keys(), vec![&key1]);
    assert_eq!(diff.modified_keys(), vec![&key2]);
    assert_eq!(diff.removed_keys(), Vec::<&Key>::new());
}

#[test]
fn test_diff_reverse() {
    let mut diff = StateDiff::new([1; 32], [2; 32]);
    let key = vec![1];
    let old_value = vec![2];
    let new_value = vec![3];

    diff.add_change(StateChange::Modified {
        key: key.clone(),
        old_value: old_value.clone(),
        new_value: new_value.clone(),
    });

    let reversed = diff.reverse();
    assert_eq!(reversed.from_root, diff.to_root);
    assert_eq!(reversed.to_root, diff.from_root);

    if let StateChange::Modified { key: reversed_key, old_value: reversed_old, new_value: reversed_new } =
        &reversed.changes[0]
    {
        assert_eq!(reversed_key, &key);
        assert_eq!(reversed_old, &new_value);
        assert_eq!(reversed_new, &old_value);
    } else {
        assert!(false, "Expected Modified change");
    }
}

#[test]
fn test_state_change_key_access() {
    let key = vec![1];
    let value = vec![2];

    let added = StateChange::Added { key: key.clone(), value: value.clone() };
    assert_eq!(added.key(), &key);

    let modified = StateChange::Modified { key: key.clone(), old_value: value.clone(), new_value: value.clone() };
    assert_eq!(modified.key(), &key);

    let removed = StateChange::Removed { key: key.clone(), old_value: value.clone() };
    assert_eq!(removed.key(), &key);
}

#[test]
fn test_diff_computation() {
    let mut from_trie = MerklePatriciaTrie::new_in_memory();
    let mut to_trie = MerklePatriciaTrie::new_in_memory();

    from_trie.put(vec![1], vec![1]).unwrap();
    from_trie.put(vec![2], vec![2]).unwrap();

    to_trie.put(vec![1], vec![1]).unwrap();
    to_trie.put(vec![2], vec![3]).unwrap();
    to_trie.put(vec![3], vec![3]).unwrap();

    let diff = StateDiffComputer::compute_diff(&from_trie, &to_trie).unwrap();
    assert_eq!(diff.change_count(), 2);
    assert_eq!(diff.change_summary(), (1, 1, 0));
}

#[test]
fn test_diff_application() {
    let mut from_trie = MerklePatriciaTrie::new_in_memory();
    let mut to_trie = MerklePatriciaTrie::new_in_memory();
    let mut target_trie = MerklePatriciaTrie::new_in_memory();

    from_trie.put(vec![1], vec![1]).unwrap();
    from_trie.put(vec![2], vec![2]).unwrap();

    to_trie.put(vec![1], vec![1]).unwrap();
    to_trie.put(vec![2], vec![3]).unwrap();
    to_trie.put(vec![3], vec![3]).unwrap();

    let diff = StateDiffComputer::compute_diff(&from_trie, &to_trie).unwrap();
    diff.apply_to(&from_trie, &mut target_trie).unwrap();

    assert_eq!(target_trie.get(&vec![1]).unwrap(), Some(vec![1]));
    assert_eq!(target_trie.get(&vec![2]).unwrap(), Some(vec![3]));
    assert_eq!(target_trie.get(&vec![3]).unwrap(), Some(vec![3]));
}

#[test]
fn test_changes_for_key() {
    let mut diff = StateDiff::new([1; 32], [2; 32]);
    let key = vec![1];
    let value1 = vec![2];
    let value2 = vec![3];

    diff.add_change(StateChange::Modified { key: key.clone(), old_value: value1.clone(), new_value: value2.clone() });

    let changes = diff.changes_for_key(&key);
    assert_eq!(changes.len(), 1);
    assert!(diff.has_change_for_key(&key));
    assert!(!diff.has_change_for_key(&vec![2]));
}

#[test]
fn test_large_state_diff() {
    let mut from_trie = MerklePatriciaTrie::new_in_memory();
    let mut to_trie = MerklePatriciaTrie::new_in_memory();

    for i in 0..1000u32 {
        let key = vec![(i >> 8) as u8, (i & 0xFF) as u8];
        from_trie.put(key.clone(), vec![i as u8]).unwrap();
        if i % 2 == 0 {
            to_trie.put(key, vec![(i + 1) as u8]).unwrap();
        } else {
            to_trie.put(key, vec![i as u8]).unwrap();
        }
    }

    let diff = StateDiffComputer::compute_diff(&from_trie, &to_trie).unwrap();
    assert_eq!(diff.change_summary().1, 500);
}

#[test]
fn diff_reverse_twice_restores_changes() {
    let mut diff = StateDiff::new([1; 32], [2; 32]);
    diff.add_change(StateChange::Added { key: vec![1], value: vec![9] });
    diff.add_change(StateChange::Removed { key: vec![2], old_value: vec![8] });
    diff.add_change(StateChange::Modified { key: vec![3], old_value: vec![7], new_value: vec![6] });
    let back = diff.reverse().reverse();
    assert_eq!(back.changes, diff.changes);
    assert_eq!(back.from_root, diff.from_root);
    assert_eq!(back.to_root, diff.to_root);
    let rev = diff.reverse();
    assert_eq!(rev.change_summary(), (1, 1, 1));
    assert_eq!(rev.changes[2], StateChange::Removed { key: vec![1], old_value: vec![9] });
    assert_eq!(rev.changes[0], StateChange::Modified { key: vec![3], old_value: vec![6], new_value: vec![7] });
}

#[test]
fn diff_of_equal_tries_is_empty_and_removals_found() {
    let mut a = MerklePatriciaTrie::new_in_memory();
    let mut b = MerklePatriciaTrie::new_in_memory();
    a.put(vec![5], vec![1]).unwrap();
    a.put(vec![6], vec![2]).unwrap();
    b.put(vec![5], vec![1]).unwrap();
    let d = StateDiffComputer::compute_diff(&a, &a).unwrap();
    assert!(d.is_empty());
    let d2 = StateDiffComputer::compute_diff(&a, &b).unwrap();
    assert_eq!(d2.change_summary(), (0, 0, 1));
    assert_eq!(d2.from_root, a.root_hash());
    assert_eq!(d2.to_root, b.root_hash());
}

#[test]
fn state_change_undo_swaps_values() {
    let c = StateChange::Modified { key: vec![1], old_value: vec![2], new_value: vec![3] };
    assert_eq!(c.undo(), StateChange::Modified { key: vec![1], old_value: vec![3], new_value: vec![2] });
    let a = StateChange::Added { key: vec![4], value: vec![5] };
    assert_eq!(a.undo().undo(), a);
}
