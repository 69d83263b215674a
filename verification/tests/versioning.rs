use dotdb_core::state::dot_storage_layout::DotAddress;
use dotdb_core::state::versioning::dot_version_utils;
use dotdb_core::state::versioning::{
    DotStateVersion, DotUpgradeInfo, DotVersionManager, DotVersioningError, StateVersionId, UpgradeType,
};

fn create_test_dot_address() -> DotAddress {
    [1u8; 20]
}

fn create_test_mpt_root() -> dotdb_core::state::mpt::lib::Hash {
    [42u8; 32]
}

#[test]
fn test_state_version_id_creation() {
    let version_id = StateVersionId::new(1, 1000);
    assert_eq!(version_id.logical_version(), 1);
    assert_eq!(version_id.timestamp(), 1000);

    let version_id_current = StateVersionId::new_with_current_time(2);
    assert_eq!(version_id_current.logical_version(), 2);
    assert!(version_id_current.timestamp() > 0);
}

#[test]
fn test_dot_state_version_creation() {
    let version_id = StateVersionId::new(1, 1000);
    let dot_addr = create_test_dot_address();
    let mpt_root = create_test_mpt_root();

    let version = DotStateVersion::new(version_id, mpt_root, dot_addr, None, "Initial version".to_string());

    assert_eq!(version.version_id, version_id);
    assert_eq!(version.mpt_root_hash, mpt_root);
    assert_eq!(version.dot_address, dot_addr);
    assert_eq!(version.parent_version, None);
    assert!(!version.is_upgrade());
    assert!(!version.is_finalized);
}

#[test]
fn test_dot_upgrade_version() {
    let version_id = StateVersionId::new(2, 2000);
    let parent_version_id = StateVersionId::new(1, 1000);
    let dot_addr = create_test_dot_address();
    let mpt_root = create_test_mpt_root();

    let upgrade_info = DotUpgradeInfo {
        previous_version: parent_version_id,
        upgrade_type: UpgradeType::Major,
        migration_description: "Added new feature".to_string(),
        layout_changes: vec![],
        upgrade_timestamp: 2000,
    };

    let version = DotStateVersion::new_upgrade(
        version_id,
        mpt_root,
        dot_addr,
        parent_version_id,
        upgrade_info,
        "Major upgrade".to_string(),
    );

    assert!(version.is_upgrade());
    assert_eq!(version.upgrade_type(), Some(&UpgradeType::Major));
    assert_eq!(version.parent_version, Some(parent_version_id));
}

#[test]
fn test_dot_version_manager_basic_operations() {
    let mut manager = DotVersionManager::new(10);
    let dot_addr = create_test_dot_address();
    let mpt_root = create_test_mpt_root();

    let version_id = manager.create_version(dot_addr, mpt_root, "Initial version".to_string()).unwrap();

    let current_version = manager.get_current_version(dot_addr).unwrap();
    assert_eq!(current_version.version_id, version_id);
    assert_eq!(current_version.mpt_root_hash, mpt_root);

    let specific_version = manager.get_version(dot_addr, version_id).unwrap();
    assert_eq!(specific_version.version_id, version_id);
}

#[test]
fn test_dot_versioning_statistics() {
    let mut manager = DotVersionManager::new(10);
    let dot_addr = create_test_dot_address();
    let mpt_root = create_test_mpt_root();

    let v1 = manager.create_version(dot_addr, mpt_root, "Version 1".to_string()).unwrap();
    let v2 = manager.create_version(dot_addr, mpt_root, "Version 2".to_string()).unwrap();

    manager.finalize_version(dot_addr, v1).unwrap();

    let stats = manager.get_dot_statistics(dot_addr);
    assert_eq!(stats.total_versions, 2);
    assert_eq!(stats.finalized_versions, 1);
    assert_eq!(stats.current_version, Some(v2));
}

#[test]
fn test_historical_state_query() {
    let mut manager = DotVersionManager::new(10);
    let dot_addr = create_test_dot_address();
    let mpt_root1 = [1u8; 32];
    let mpt_root2 = [2u8; 32];

    manager.create_version(dot_addr, mpt_root1, "Version 1".to_string()).unwrap();
    manager.create_version(dot_addr, mpt_root2, "Version 2".to_string()).unwrap();

    let historical_version = manager.query_historical_state(dot_addr, mpt_root1).unwrap();
    assert_eq!(historical_version.mpt_root_hash, mpt_root1);
    assert_eq!(historical_version.description, "Version 1");
}

#[test]
fn test_version_snapshot_reference_counting() {
    let mut manager = DotVersionManager::new(10);
    let dot_addr = create_test_dot_address();
    let mpt_root = create_test_mpt_root();

    let version_id = manager.create_version(dot_addr, mpt_root, "Test version".to_string()).unwrap();

    manager.acquire_snapshot(dot_addr, version_id).unwrap();
    assert!(manager.is_version_active(dot_addr, version_id));

    manager.release_snapshot(dot_addr, version_id);
    assert!(!manager.is_version_active(dot_addr, version_id));
}

#[test]
fn test_version_utils() {
    let v1 = StateVersionId::new(1, 1000);
    let v2 = StateVersionId::new(2, 2000);

    assert!(dot_version_utils::is_newer(v2, v1));
    assert_eq!(dot_version_utils::version_time_diff(v1, v2), 1000);
    assert_eq!(dot_version_utils::compare_versions(v1, v2), std::cmp::Ordering::Less);
}

#[test]
fn test_upgrade_compatibility() {
    let version_id = StateVersionId::new(1, 1000);
    let dot_addr = create_test_dot_address();
    let mpt_root = create_test_mpt_root();

    let non_upgrade_version = DotStateVersion::new(version_id, mpt_root, dot_addr, None, "Regular version".to_string());

    let upgrade_info = DotUpgradeInfo {
        previous_version: version_id,
        upgrade_type: UpgradeType::Minor,
        migration_description: "Minor upgrade".to_string(),
        layout_changes: vec![],
        upgrade_timestamp: 2000,
    };

    let upgrade_version = DotStateVersion::new_upgrade(
        StateVersionId::new(2, 2000),
        mpt_root,
        dot_addr,
        version_id,
        upgrade_info,
        "Minor upgrade".to_string(),
    );

    assert!(dot_version_utils::is_upgrade_compatible(&non_upgrade_version, &upgrade_version));
}

#[test]
fn versioning_history_is_bounded_and_parents_chain() {
    let mut manager = DotVersionManager::new(2);
    let dot_addr = create_test_dot_address();
    let v1 = manager.create_version_at(dot_addr, [1u8; 32], "a".to_string(), 10, 10).unwrap();
    let v2 = manager.create_version_at(dot_addr, [2u8; 32], "b".to_string(), 20, 20).unwrap();
    let v3 = manager.create_version_at(dot_addr, [3u8; 32], "c".to_string(), 30, 30).unwrap();
    assert_eq!(v1, StateVersionId::new(1, 10));
    assert_eq!(v2, StateVersionId::new(2, 20));
    assert_eq!(v3, StateVersionId::new(3, 30));
    assert_eq!(manager.get_version(dot_addr, v3).unwrap().parent_version, Some(v2));
    assert!(manager.get_version(dot_addr, v1).is_none());
    assert_eq!(manager.get_all_versions(dot_addr).len(), 2);
    assert_eq!(manager.get_current_version(dot_addr).unwrap().version_id, v3);
}

#[test]
fn versioning_errors_on_unknown_versions() {
    let mut manager = DotVersionManager::new(4);
    let dot_addr = create_test_dot_address();
    let missing = StateVersionId::new(9, 9);
    assert!(manager.finalize_version(dot_addr, missing).is_err());
    let info = DotUpgradeInfo {
        previous_version: missing,
        upgrade_type: UpgradeType::Minor,
        migration_description: String::new(),
        layout_changes: vec![],
        upgrade_timestamp: 0,
    };
    assert_eq!(
        manager.create_upgrade_version(dot_addr, [0u8; 32], info, "u".to_string()),
        Err(DotVersioningError::DotNotFound(dot_addr))
    );
    assert_eq!(manager.acquire_snapshot(dot_addr, missing), Ok(()));
    assert!(manager.is_version_active(dot_addr, missing));
    manager.acquire_snapshot(dot_addr, missing).unwrap();
    manager.release_snapshot(dot_addr, missing);
    assert!(manager.is_version_active(dot_addr, missing));
    manager.release_snapshot(dot_addr, missing);
    assert!(!manager.is_version_active(dot_addr, missing));
}

#[test]
fn snapshot_references_count_down() {
    let mut manager = DotVersionManager::new(10);
    let dot_addr = create_test_dot_address();
    let mpt_root = create_test_mpt_root();
    let version_id = manager.create_version(dot_addr, mpt_root, "Counted".to_string()).unwrap();

    manager.release_snapshot(dot_addr, version_id);
    assert!(!manager.is_version_active(dot_addr, version_id));

    for _ in 0..3 {
        manager.acquire_snapshot(dot_addr, version_id).unwrap();
    }
    manager.release_snapshot(dot_addr, version_id);
    manager.release_snapshot(dot_addr, version_id);
    assert!(manager.is_version_active(dot_addr, version_id));
    manager.release_snapshot(dot_addr, version_id);
    assert!(!manager.is_version_active(dot_addr, version_id));
    manager.release_snapshot(dot_addr, version_id);
    assert!(!manager.is_version_active(dot_addr, version_id));
}
