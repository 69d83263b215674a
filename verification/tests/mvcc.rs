use std::collections::HashSet;
use std::sync::Arc;

use dotdb_core::storage_engine::file_format::{Page, PageId, PageType};
use dotdb_core::storage_engine::lib::VersionId;
use dotdb_core::storage_engine::mvcc::{MVCCManager, VersionChain, VersionInfo};
use dotdb_core::storage_engine::transaction::IsolationLevel;

fn create_test_page(data: &[u8]) -> Arc<Page> {
    let mut page_data = vec![0u8; 4096];
    if !data.is_empty() {
        page_data[..data.len().min(4096)].copy_from_slice(data);
    }
    Arc::new(Page::new(PageId(1), PageType::Data, VersionId(0), page_data.len()))
}

#[test]
fn test_version_info_visibility() {
    let page = create_test_page(b"test data");
    let mut version = VersionInfo::new(page, 1, 100);
    version.commit();

    let active_txns = HashSet::new();

    assert!(version.is_visible(1, 150, &active_txns));

    let mut uncommitted_version = VersionInfo::new(create_test_page(b"uncommitted"), 2, 110);
    assert!(!uncommitted_version.is_visible(1, 150, &active_txns));

    uncommitted_version.commit();
    assert!(uncommitted_version.is_visible(1, 150, &active_txns));

    assert!(!uncommitted_version.is_visible(1, 105, &active_txns));
}

#[test]
fn test_version_chain() {
    let mut chain = VersionChain::default();

    let v1 = VersionInfo::new(create_test_page(b"version 1"), 1, 100);
    let mut v2 = VersionInfo::new(create_test_page(b"version 2"), 2, 200);
    v2.commit();

    chain.add_version(v1);
    chain.add_version(v2);

    let active_txns = HashSet::new();

    let visible = chain.get_visible_version(3, 250, &active_txns);
    assert!(visible.is_some());
    assert_eq!(visible.unwrap().created_by, 2);

    let visible = chain.get_visible_version(3, 150, &active_txns);
    assert!(visible.is_none());
}

#[test]
fn test_mvcc_manager_basic_operations() {
    let mut mvcc = MVCCManager::new();
    let page_id = PageId(1);
    let txn_id = 1;

    let snapshot = mvcc.create_snapshot(txn_id, IsolationLevel::ReadCommitted).unwrap();
    assert_eq!(snapshot.txn_id, txn_id);

    let page = create_test_page(b"test data");
    mvcc.add_version(page_id, page.clone(), txn_id).unwrap();

    let visible = mvcc.get_visible_version(page_id, txn_id).unwrap();
    assert!(visible.is_some());

    mvcc.commit_transaction(txn_id).unwrap();

    let visible = mvcc.get_visible_version(page_id, txn_id);
    assert!(visible.is_ok());
}

#[test]
fn test_mvcc_transaction_isolation() {
    let mut mvcc = MVCCManager::new();
    let page_id = PageId(1);

    let txn1 = 1;
    mvcc.create_snapshot(txn1, IsolationLevel::ReadCommitted).unwrap();
    mvcc.add_version(page_id, create_test_page(b"initial"), txn1).unwrap();
    mvcc.commit_transaction(txn1).unwrap();

    let txn2 = 2;
    mvcc.create_snapshot(txn2, IsolationLevel::ReadCommitted).unwrap();
    let visible = mvcc.get_visible_version(page_id, txn2).unwrap();
    assert!(visible.is_some());

    let txn3 = 3;
    mvcc.create_snapshot(txn3, IsolationLevel::ReadCommitted).unwrap();
    mvcc.add_version(page_id, create_test_page(b"modified"), txn3).unwrap();

    let visible = mvcc.get_visible_version(page_id, txn2).unwrap();
    assert!(visible.is_some());

    let visible = mvcc.get_visible_version(page_id, txn3).unwrap();
    assert!(visible.is_some());
}

#[test]
fn test_write_conflict_detection() {
    let mut mvcc = MVCCManager::new();
    let page_id = PageId(1);

    let txn1 = 1;
    mvcc.create_snapshot(txn1, IsolationLevel::ReadCommitted).unwrap();
    mvcc.add_version(page_id, create_test_page(b"initial"), txn1).unwrap();

    let txn2 = 2;
    mvcc.create_snapshot(txn2, IsolationLevel::ReadCommitted).unwrap();

    mvcc.commit_transaction(txn1).unwrap();

    let has_conflict = mvcc.check_write_conflict(page_id, txn2).unwrap();
    assert!(has_conflict);
}

#[test]
fn test_garbage_collection() {
    let mut mvcc = MVCCManager::new();
    let page_id = PageId(1);

    for i in 1..=5 {
        let txn_id = i;
        mvcc.create_snapshot(txn_id, IsolationLevel::ReadCommitted).unwrap();
        mvcc.add_version(page_id, create_test_page(&format!("version {}", i).into_bytes()), txn_id).unwrap();
        mvcc.commit_transaction(txn_id).unwrap();
    }

    let stats_before = mvcc.get_statistics();
    assert!(stats_before.total_versions >= 5);

    let stats_after = mvcc.get_statistics();
    assert!(stats_after.total_versions <= stats_before.total_versions);
}

#[test]
fn mvcc_test_transaction_abort() {
    let mut mvcc = MVCCManager::new();
    let page_id = PageId(1);
    let txn_id = 1;

    mvcc.create_snapshot(txn_id, IsolationLevel::ReadCommitted).unwrap();
    mvcc.add_version(page_id, create_test_page(b"test data"), txn_id).unwrap();

    let visible = mvcc.get_visible_version(page_id, txn_id).unwrap();
    assert!(visible.is_some());

    mvcc.abort_transaction(txn_id).unwrap();

    let visible = mvcc.get_visible_version(page_id, txn_id).unwrap();
    assert!(visible.is_none());
}

#[test]
fn test_mvcc_statistics() {
    let mut mvcc = MVCCManager::new();

    let initial_stats = mvcc.get_statistics();
    assert_eq!(initial_stats.total_versions, 0);
    assert_eq!(initial_stats.total_pages, 0);
    assert_eq!(initial_stats.active_transactions, 0);

    let txn_id = 1;
    mvcc.create_snapshot(txn_id, IsolationLevel::ReadCommitted).unwrap();
    mvcc.add_version(PageId(1), create_test_page(b"data1"), txn_id).unwrap();
    mvcc.add_version(PageId(2), create_test_page(b"data2"), txn_id).unwrap();

    let stats = mvcc.get_statistics();
    assert!(stats.total_versions >= 2);
    assert!(stats.total_pages >= 2);
    assert_eq!(stats.active_transactions, 1);
    let average_versions_per_page = stats.total_versions as f64 / stats.total_pages as f64;
    assert!(average_versions_per_page > 0.0);
}

#[test]
fn mvcc_version_chain_garbage_collects_old_committed_versions() {
    let mut chain = VersionChain::default();
    for (txn, ts) in [(1u64, 10u64), (2, 20), (3, 30)] {
        let mut v = VersionInfo::new(create_test_page(b"x"), txn, ts);
        v.commit();
        chain.add_version(v);
    }
    assert_eq!(chain.version_count(), 3);
    let removed = chain.garbage_collect(25);
    assert_eq!(chain.version_count() + removed.len(), 3);
    let active = HashSet::new();
    let newest = chain.get_visible_version(9, 100, &active).unwrap();
    assert_eq!(newest.created_by, 3);
}

#[test]
fn mvcc_commit_timestamp_and_unknown_transaction() {
    let mut mvcc = MVCCManager::new();
    mvcc.create_snapshot(5, IsolationLevel::Serializable).unwrap();
    assert!(mvcc.get_commit_timestamp(5).is_none());
    mvcc.commit_transaction(5).unwrap();
    assert!(mvcc.get_commit_timestamp(5).is_some());
    assert_eq!(mvcc.get_statistics().active_transactions, 0);
}
