use dotdb_core::assoc_list::AssocList;
use dotdb_core::state::mpt::trie::{InMemoryStorage, MerklePatriciaTrie};
use dotdb_core::state::snapshot::{decimal_text, SnapshotConfig, SnapshotError, SnapshotManager, StateSnapshot};

fn create_mock_trie() -> MerklePatriciaTrie<InMemoryStorage> {
    MerklePatriciaTrie::new_in_memory()
}

#[test]
fn test_state_snapshot_creation() {
    let id = "test_snapshot".to_string();
    let root_hash = [1u8; 32];
    let height = Some(100);
    let description = Some("Test snapshot".to_string());

    let snapshot = StateSnapshot::new(id.clone(), root_hash, height, description.clone());

    assert_eq!(snapshot.id, id);
    assert_eq!(snapshot.root_hash, root_hash);
    assert_eq!(snapshot.height, height);
    assert_eq!(snapshot.description, description);
    assert!(snapshot.timestamp > 0);
    assert!(snapshot.metadata.is_empty());
}

#[test]
fn test_snapshot_metadata() {
    let mut snapshot = StateSnapshot::new("test".to_string(), [1u8; 32], None, None);

    assert!(snapshot.get_metadata("key1").is_none());

    snapshot.add_metadata("key1".to_string(), "value1".to_string());
    snapshot.add_metadata("key2".to_string(), "value2".to_string());

    assert_eq!(snapshot.get_metadata("key1"), Some(&"value1".to_string()));
    assert_eq!(snapshot.get_metadata("key2"), Some(&"value2".to_string()));
    assert!(snapshot.get_metadata("key3").is_none());
}

#[test]
fn test_snapshot_age() {
    let snapshot = StateSnapshot::new("test".to_string(), [1u8; 32], None, None);
    assert!(!snapshot.is_older_than(60));
    assert!(snapshot.age_seconds() < 5);
}

#[test]
fn test_snapshot_manager_creation() {
    let config = SnapshotConfig::default();
    let manager: SnapshotManager<InMemoryStorage> = SnapshotManager::new(config);

    assert_eq!(manager.list_snapshots().len(), 0);
    assert!(manager.get_latest_snapshot().is_none());
}

#[test]
fn test_snapshot_creation_and_retrieval() {
    let mut manager: SnapshotManager<InMemoryStorage> = SnapshotManager::with_defaults();
    let trie = create_mock_trie();
    let id = "test_snapshot".to_string();

    let result = manager.create_snapshot(id.clone(), &trie, Some(100), Some("Test description".to_string()));
    assert!(result.is_ok());

    let retrieved = manager.get_snapshot(&id);
    assert!(retrieved.is_ok());
    let snapshot = retrieved.unwrap();
    assert_eq!(snapshot.id, id);
    assert_eq!(snapshot.height, Some(100));

    let duplicate_result = manager.create_snapshot(id.clone(), &trie, Some(101), None);
    assert!(matches!(duplicate_result, Err(SnapshotError::AlreadyExists(_))));
}

#[test]
fn test_snapshot_listing() {
    let mut manager: SnapshotManager<InMemoryStorage> = SnapshotManager::with_defaults();
    let trie = create_mock_trie();

    for i in 0..5 {
        let id = format!("snapshot_{}", i);
        let height = Some(i as u64 * 10);
        manager.create_snapshot(id, &trie, height, None).unwrap();
    }

    let snapshots = manager.list_snapshots();
    assert_eq!(snapshots.len(), 5);

    let by_time = manager.list_snapshots_by_time();
    assert_eq!(by_time.len(), 5);
    for i in 0..4 {
        assert!(by_time[i].timestamp >= by_time[i + 1].timestamp);
    }
}

#[test]
fn test_snapshot_deletion() {
    let mut manager: SnapshotManager<InMemoryStorage> = SnapshotManager::with_defaults();
    let trie = create_mock_trie();
    let id = "test_snapshot".to_string();

    manager.create_snapshot(id.clone(), &trie, None, None).unwrap();
    assert!(manager.snapshot_exists(&id));

    let deleted = manager.delete_snapshot(&id);
    assert!(deleted.is_ok());
    assert!(!manager.snapshot_exists(&id));

    let not_found = manager.delete_snapshot(&id);
    assert!(matches!(not_found, Err(SnapshotError::NotFound(_))));
}

#[test]
fn test_snapshot_height_filtering() {
    let mut manager: SnapshotManager<InMemoryStorage> = SnapshotManager::with_defaults();
    let trie = create_mock_trie();

    let heights = vec![10, 20, 30, 40, 50];
    for (i, &height) in heights.iter().enumerate() {
        let id = format!("snapshot_{}", i);
        manager.create_snapshot(id, &trie, Some(height), None).unwrap();
    }

    let filtered = manager.get_snapshots_by_height(25, 45);
    assert_eq!(filtered.len(), 2);

    for snapshot in filtered {
        let height = snapshot.height.unwrap();
        assert!(height >= 25 && height <= 45);
    }
}

#[test]
fn test_snapshot_statistics() {
    let mut manager = SnapshotManager::with_defaults();
    let mut trie = create_mock_trie();

    for i in 0..5 {
        let key = format!("key_{}", i).into_bytes();
        let value = format!("value_{}", i).into_bytes();
        trie.put(key, value).unwrap();
    }

    let stats = manager.get_statistics();
    assert_eq!(stats.total_snapshots, 0);
    assert!(stats.oldest_timestamp.is_none());
    assert!(stats.newest_timestamp.is_none());
    assert_eq!(stats.estimated_size_bytes, 0);

    for i in 0..3 {
        let id = format!("snapshot_{}", i);
        let _snapshot = manager.create_snapshot(id.clone(), &trie, Some(i as u64), None).unwrap();
        let mut meta = AssocList::new();
        meta.insert("meta_key".to_string(), format!("meta_value_{}", i));
        manager.update_snapshot_metadata(&id, meta).unwrap();
    }

    let stats = manager.get_statistics();
    assert_eq!(stats.total_snapshots, 3);
    assert!(stats.oldest_timestamp.is_some());
    assert!(stats.newest_timestamp.is_some());
    assert!(stats.estimated_size_bytes > 0, "Expected non-zero estimated size");
}

#[test]
fn test_snapshot_metadata_update() {
    let mut manager: SnapshotManager<InMemoryStorage> = SnapshotManager::with_defaults();
    let trie = create_mock_trie();
    let id = "test_snapshot".to_string();

    manager.create_snapshot(id.clone(), &trie, None, None).unwrap();

    let mut metadata = AssocList::new();
    metadata.insert("version".to_string(), "1.0".to_string());
    metadata.insert("author".to_string(), "test".to_string());

    let result = manager.update_snapshot_metadata(&"nonexistent".to_string(), AssocList::new());
    assert!(matches!(result, Err(SnapshotError::NotFound(_))));
}

#[test]
fn snapshot_cleanup_keeps_newest_within_limits() {
    let config = SnapshotConfig {
        max_snapshots: Some(2),
        max_age_seconds: None,
        auto_cleanup: false,
        cleanup_interval_seconds: 3600,
    };
    let mut manager: SnapshotManager<InMemoryStorage> = SnapshotManager::new(config);
    let trie = create_mock_trie();
    for i in 0..4 {
        manager.create_snapshot(format!("s{}", i), &trie, Some(i), None).unwrap();
    }
    assert_eq!(manager.list_snapshots().len(), 4);
    let removed = manager.cleanup_old_snapshots().unwrap();
    assert_eq!(removed, 2);
    assert_eq!(manager.list_snapshots().len(), 2);
    let latest = manager.get_latest_snapshot().unwrap();
    assert!(manager.snapshot_exists(&latest.id));
}

#[test]
fn snapshot_age_limit_removes_old_entries() {
    let config = SnapshotConfig {
        max_snapshots: None,
        max_age_seconds: Some(10),
        auto_cleanup: false,
        cleanup_interval_seconds: 3600,
    };
    let mut manager: SnapshotManager<InMemoryStorage> = SnapshotManager::new(config);
    let trie = create_mock_trie();
    manager.create_snapshot("a".to_string(), &trie, None, None).unwrap();
    let ts = manager.get_snapshot(&"a".to_string()).unwrap().timestamp;
    assert_eq!(manager.cleanup_at(ts + 5), 0);
    assert_eq!(manager.cleanup_at(ts + 11), 1);
    assert!(!manager.snapshot_exists(&"a".to_string()));
}

#[test]
fn snapshot_age_at_saturates() {
    let s = StateSnapshot::new("x".to_string(), [0u8; 32], None, None);
    assert_eq!(s.age_at(s.timestamp + 7), 7);
    assert_eq!(s.age_at(0), 0);
}

#[test]
fn decimal_text_writes_digits() {
    assert_eq!(decimal_text(0), "0");
    assert_eq!(decimal_text(7), "7");
    assert_eq!(decimal_text(1234567890), "1234567890");
    assert_eq!(decimal_text(u64::MAX), u64::MAX.to_string());
}
