use std::sync::Arc;

use dotdb_core::storage_engine::file_format::{Page, PageId, PageType};
use dotdb_core::storage_engine::isolation::isolation_helpers::{
    get_isolation_level_description, get_recommended_isolation_level, requires_locking, uses_mvcc,
};
use dotdb_core::storage_engine::isolation::{IsolationLevelEnforcer, LockManager, LockType};
use dotdb_core::storage_engine::lib::VersionId;
use dotdb_core::storage_engine::mvcc::MVCCManager;
use dotdb_core::storage_engine::transaction::IsolationLevel;

fn create_test_page() -> Arc<Page> {
    let data = vec![0u8; 4096];
    Arc::new(Page::new(PageId(1), PageType::Data, VersionId(0), data.len()))
}

#[test]
fn test_lock_manager_basic_operations() {
    let mut lock_manager = LockManager::new();
    let txn_id = 1;
    let page_id = PageId(1);

    let granted = lock_manager.request_lock(txn_id, page_id, LockType::Shared).unwrap();
    assert!(granted);

    assert!(lock_manager.holds_lock(txn_id, page_id, LockType::Shared));

    lock_manager.release_transaction_locks(txn_id).unwrap();
    assert!(!lock_manager.holds_lock(txn_id, page_id, LockType::Shared));
}

#[test]
fn test_lock_compatibility() {
    let mut lock_manager = LockManager::new();
    let page_id = PageId(1);

    assert!(lock_manager.request_lock(1, page_id, LockType::Shared).unwrap());
    assert!(lock_manager.request_lock(2, page_id, LockType::Shared).unwrap());

    assert!(!lock_manager.request_lock(3, page_id, LockType::Exclusive).unwrap());

    lock_manager.release_transaction_locks(1).unwrap();
    lock_manager.release_transaction_locks(2).unwrap();

    assert!(lock_manager.request_lock(3, page_id, LockType::Exclusive).unwrap());

    assert!(!lock_manager.request_lock(4, page_id, LockType::Shared).unwrap());
    assert!(!lock_manager.request_lock(5, page_id, LockType::Exclusive).unwrap());
}

#[test]
fn test_lock_upgrade() {
    let mut lock_manager = LockManager::new();
    let txn_id = 1;
    let page_id = PageId(1);

    assert!(lock_manager.request_lock(txn_id, page_id, LockType::Shared).unwrap());
    assert!(lock_manager.request_lock(txn_id, page_id, LockType::Exclusive).unwrap());
    assert!(lock_manager.holds_lock(txn_id, page_id, LockType::Exclusive));
}

#[test]
fn test_isolation_level_enforcer() {
    let txn_id = 1;
    let page_id = PageId(1);

    let mut mvcc = MVCCManager::new();
    mvcc.create_snapshot(txn_id, IsolationLevel::ReadCommitted).unwrap();
    let mut enforcer = IsolationLevelEnforcer::new(mvcc, LockManager::new());

    assert!(enforcer.check_read(txn_id, page_id, IsolationLevel::ReadUncommitted).unwrap());
    assert!(enforcer.check_write(txn_id, page_id, IsolationLevel::ReadCommitted).unwrap());
    enforcer.handle_commit(txn_id).unwrap();
}

#[test]
fn test_read_committed_isolation() {
    let txn1 = 1;
    let txn2 = 2;
    let page_id = PageId(1);

    let mut mvcc = MVCCManager::new();
    mvcc.create_snapshot(txn1, IsolationLevel::ReadCommitted).unwrap();
    mvcc.add_version(page_id, create_test_page(), txn1).unwrap();
    mvcc.commit_transaction(txn1).unwrap();
    mvcc.create_snapshot(txn2, IsolationLevel::ReadCommitted).unwrap();
    let mut enforcer = IsolationLevelEnforcer::new(mvcc, LockManager::new());

    assert!(enforcer.check_read(txn2, page_id, IsolationLevel::ReadCommitted).unwrap());
}

#[test]
fn test_repeatable_read_isolation() {
    let txn_id = 1;
    let page_id = PageId(1);

    let mut mvcc = MVCCManager::new();
    mvcc.create_snapshot(txn_id, IsolationLevel::RepeatableRead).unwrap();
    let mut enforcer = IsolationLevelEnforcer::new(mvcc, LockManager::new());

    assert!(enforcer.check_read(txn_id, page_id, IsolationLevel::RepeatableRead).unwrap());
    assert!(enforcer.lock_manager().holds_lock(txn_id, page_id, LockType::Shared));

    assert!(enforcer.check_read(txn_id, page_id, IsolationLevel::RepeatableRead).unwrap());
}

#[test]
fn test_serializable_isolation() {
    let txn_id = 1;
    let page_id = PageId(1);

    let mut mvcc = MVCCManager::new();
    mvcc.create_snapshot(txn_id, IsolationLevel::Serializable).unwrap();
    let mut enforcer = IsolationLevelEnforcer::new(mvcc, LockManager::new());

    assert!(enforcer.check_read(txn_id, page_id, IsolationLevel::Serializable).unwrap());
    assert!(enforcer.lock_manager().holds_lock(txn_id, page_id, LockType::Shared));

    assert!(enforcer.check_write(txn_id, page_id, IsolationLevel::Serializable).unwrap());
    assert!(enforcer.lock_manager().holds_lock(txn_id, page_id, LockType::Exclusive));
}

#[test]
fn test_lock_statistics() {
    let mut lock_manager = LockManager::new();

    let initial_stats = lock_manager.get_statistics();
    assert_eq!(initial_stats.total_granted_locks, 0);

    lock_manager.request_lock(1, PageId(1), LockType::Shared).unwrap();
    lock_manager.request_lock(2, PageId(1), LockType::Shared).unwrap();
    lock_manager.request_lock(3, PageId(2), LockType::Exclusive).unwrap();

    let stats = lock_manager.get_statistics();
    assert!(stats.total_granted_locks >= 3);
    assert!(stats.pages_with_locks >= 2);
    assert!(stats.active_lock_holders >= 3);
}

#[test]
fn test_isolation_helpers() {
    let desc = get_isolation_level_description(IsolationLevel::ReadCommitted);
    assert!(desc.contains("dirty reads"));

    assert!(!requires_locking(IsolationLevel::ReadUncommitted));
    assert!(!requires_locking(IsolationLevel::ReadCommitted));
    assert!(requires_locking(IsolationLevel::RepeatableRead));
    assert!(requires_locking(IsolationLevel::Serializable));

    assert!(!uses_mvcc(IsolationLevel::ReadUncommitted));
    assert!(uses_mvcc(IsolationLevel::ReadCommitted));
    assert!(uses_mvcc(IsolationLevel::RepeatableRead));
    assert!(uses_mvcc(IsolationLevel::Serializable));

    assert_eq!(get_recommended_isolation_level("financial"), IsolationLevel::Serializable);
    assert_eq!(get_recommended_isolation_level("web_application"), IsolationLevel::ReadCommitted);
    assert_eq!(get_recommended_isolation_level("high_throughput"), IsolationLevel::ReadUncommitted);
}

#[test]
fn test_transaction_abort_releases_locks() {
    let txn_id = 1;
    let page_id = PageId(1);

    let mut mvcc = MVCCManager::new();
    mvcc.create_snapshot(txn_id, IsolationLevel::RepeatableRead).unwrap();
    let mut enforcer = IsolationLevelEnforcer::new(mvcc, LockManager::new());

    assert!(enforcer.check_read(txn_id, page_id, IsolationLevel::RepeatableRead).unwrap());
    assert!(enforcer.lock_manager().holds_lock(txn_id, page_id, LockType::Shared));

    enforcer.handle_abort(txn_id).unwrap();

    assert!(!enforcer.lock_manager().holds_lock(txn_id, page_id, LockType::Shared));
}

#[test]
fn locks_queue_and_grant_after_release() {
    let mut lm = LockManager::new();
    assert!(lm.request_lock(1, PageId(9), LockType::Exclusive).unwrap());
    assert!(!lm.request_lock(2, PageId(9), LockType::Shared).unwrap());
    assert_eq!(lm.get_waiting_transactions(), vec![2]);
    lm.release_transaction_locks(1).unwrap();
    assert!(lm.holds_lock(2, PageId(9), LockType::Shared));
    assert!(lm.get_waiting_transactions().is_empty());
    let stats = lm.get_statistics();
    assert_eq!(stats.total_granted_locks, 1);
    assert_eq!(stats.total_waiting_requests, 0);
}

#[test]
fn recommended_level_is_case_insensitive() {
    assert_eq!(get_recommended_isolation_level("FINANCIAL"), IsolationLevel::Serializable);
    assert_eq!(get_recommended_isolation_level("something else"), IsolationLevel::ReadCommitted);
}

#[test]
fn released_queue_grants_one_exclusive_lock() {
    let mut lm = LockManager::new();
    let p = PageId(1);
    assert_eq!(lm.request_lock(1, p, LockType::Shared).unwrap(), true);
    assert_eq!(lm.request_lock(3, p, LockType::Exclusive).unwrap(), false);
    assert_eq!(lm.request_lock(4, p, LockType::Exclusive).unwrap(), false);
    lm.release_transaction_locks(1).unwrap();
    assert!(!lm.holds_lock(1, p, LockType::Shared));
    assert!(lm.holds_lock(3, p, LockType::Exclusive));
    assert!(!lm.holds_lock(4, p, LockType::Exclusive));
}
