use std::time::Duration;

use dotdb_core::storage_engine::file_format::PageId;
use dotdb_core::storage_engine::occ::{
    ConflictResolution, ConflictResolutionStrategy, ConflictType, OCCManager, OCCTransactionManager, ValidationContext,
};

fn context(id: u64, reads: &[u64], writes: &[u64]) -> ValidationContext {
    ValidationContext {
        transaction_id: id,
        read_set: reads.iter().map(|p| PageId(*p)).collect(),
        write_set: writes.iter().map(|p| PageId(*p)).collect(),
        start_timestamp: 1000,
        validation_timestamp: 1100,
    }
}

fn pages(ids: &[u64]) -> Vec<PageId> {
    ids.iter().map(|p| PageId(*p)).collect()
}

#[test]
fn test_occ_manager_creation() {
    let occ = OCCManager::new(ConflictResolutionStrategy::AbortConflicting, 1000);

    assert_eq!(occ.resolution_strategy(), ConflictResolutionStrategy::AbortConflicting);
    assert_eq!(occ.committed_transaction_count(), 0);
}

#[test]
fn test_validation_no_conflicts() {
    let mut occ = OCCManager::new(ConflictResolutionStrategy::AbortConflicting, 1000);
    let ctx = context(1, &[1, 2, 3], &[4, 5]);

    let conflicts = occ.validate_transaction(&ctx, false, &Vec::new()).unwrap();
    assert!(conflicts.is_empty());
}

#[test]
fn test_validation_with_read_write_conflict() {
    let mut occ = OCCManager::new(ConflictResolutionStrategy::AbortConflicting, 1000);
    occ.record_commit(1, 1050, Vec::new(), pages(&[2])).unwrap();

    let ctx = context(2, &[1, 2, 3], &[4, 5]);
    let conflicts = occ.validate_transaction(&ctx, false, &Vec::new()).unwrap();
    assert_eq!(conflicts.len(), 1);

    match &conflicts[0] {
        ConflictType::ReadWrite { page_id, reader_txn, writer_txn } => {
            assert_eq!(*page_id, PageId(2));
            assert_eq!(*reader_txn, 2);
            assert_eq!(*writer_txn, 1);
        }
        _ => panic!("Expected ReadWrite conflict"),
    }
}

#[test]
fn test_validation_with_write_write_conflict() {
    let mut occ = OCCManager::new(ConflictResolutionStrategy::AbortConflicting, 1000);
    occ.record_commit(1, 1050, Vec::new(), pages(&[4])).unwrap();

    let ctx = context(2, &[1, 2, 3], &[4, 5]);
    let conflicts = occ.validate_transaction(&ctx, false, &Vec::new()).unwrap();
    assert_eq!(conflicts.len(), 1);

    match &conflicts[0] {
        ConflictType::WriteWrite { page_id, first_txn, second_txn } => {
            assert_eq!(*page_id, PageId(4));
            assert_eq!(*first_txn, 1);
            assert_eq!(*second_txn, 2);
        }
        _ => panic!("Expected WriteWrite conflict"),
    }
}

#[test]
fn test_conflict_resolution_abort() {
    let occ = OCCManager::new(ConflictResolutionStrategy::AbortConflicting, 1000);
    let conflicts = vec![ConflictType::ReadWrite { page_id: PageId(1), reader_txn: 1, writer_txn: 2 }];
    let ctx = context(1, &[1], &[]);

    match occ.resolve_conflicts(&conflicts, &ctx, &Vec::new()) {
        ConflictResolution::Abort { reason, should_retry } => {
            assert_eq!(reason, "Conflict detected with committed transaction");
            assert!(!should_retry);
        }
        _ => panic!("Expected Abort resolution"),
    }
}

#[test]
fn test_conflict_resolution_retry() {
    let occ = OCCManager::new(ConflictResolutionStrategy::RetryWithBackoff, 1000);
    let conflicts = vec![ConflictType::ReadWrite { page_id: PageId(1), reader_txn: 1, writer_txn: 2 }];
    let ctx = context(1, &[1], &[]);

    match occ.resolve_conflicts(&conflicts, &ctx, &Vec::new()) {
        ConflictResolution::Retry { backoff_duration, max_retries } => {
            assert_eq!(backoff_duration, Duration::from_millis(10));
            assert_eq!(max_retries, 3);
        }
        _ => panic!("Expected Retry resolution"),
    }
}

#[test]
fn test_occ_transaction_manager() {
    let occ = OCCManager::new(ConflictResolutionStrategy::AbortConflicting, 1000);
    let mut occ_txn_mgr = OCCTransactionManager::new(occ);

    occ_txn_mgr.begin_transaction(1).unwrap();
    assert_eq!(occ_txn_mgr.active_transaction_count(), 1);

    occ_txn_mgr.add_to_read_set(1, PageId(10)).unwrap();
    occ_txn_mgr.add_to_write_set(1, PageId(20)).unwrap();

    let resolution = occ_txn_mgr.commit_transaction(1, false, &Vec::new()).unwrap();
    match resolution {
        ConflictResolution::Proceed => {}
        _ => panic!("Expected Proceed resolution"),
    }

    assert_eq!(occ_txn_mgr.active_transaction_count(), 0);
}

#[test]
fn occ_test_statistics_tracking() {
    let mut occ = OCCManager::new(ConflictResolutionStrategy::AbortConflicting, 1000);
    let ctx = context(1, &[1, 2], &[3]);

    occ.validate_transaction(&ctx, false, &Vec::new()).unwrap();

    let stats = occ.statistics();
    assert_eq!(stats.total_validations, 1);
    assert_eq!(stats.successful_validations, 1);
    assert_eq!(stats.failed_validations, 0);
}

#[test]
fn test_committed_transaction_limit() {
    let mut occ = OCCManager::new(ConflictResolutionStrategy::AbortConflicting, 2);

    occ.record_commit(1, 1000, Vec::new(), pages(&[1])).unwrap();
    occ.record_commit(2, 1001, Vec::new(), pages(&[2])).unwrap();
    occ.record_commit(3, 1002, Vec::new(), pages(&[3])).unwrap();

    assert_eq!(occ.committed_transaction_count(), 2);
}

#[test]
fn test_abort_handling() {
    let mut occ = OCCManager::new(ConflictResolutionStrategy::AbortConflicting, 1000);
    let initial_stats = occ.statistics();

    occ.handle_abort(1, "Test abort").unwrap();

    let updated_stats = occ.statistics();
    assert_eq!(updated_stats.aborted_transactions, initial_stats.aborted_transactions + 1);
}

#[test]
fn test_multiple_conflict_types() {
    let mut occ = OCCManager::new(ConflictResolutionStrategy::AbortConflicting, 1000);
    occ.record_commit(1, 1050, pages(&[2]), pages(&[3, 4])).unwrap();

    let ctx = context(2, &[3], &[2, 4]);
    let conflicts = occ.validate_transaction(&ctx, false, &Vec::new()).unwrap();
    assert_eq!(conflicts.len(), 3);
}

#[test]
fn occ_page_index_finds_read_and_write_conflicts() {
    let mut occ = OCCManager::new(ConflictResolutionStrategy::AbortConflicting, 1000);
    occ.record_commit(1, 1050, pages(&[2]), pages(&[3, 4])).unwrap();

    // The page index gives read-write and write-write conflicts only.
    let ctx = context(2, &[3], &[2, 4]);
    let conflicts = occ.validate_transaction(&ctx, true, &Vec::new()).unwrap();
    assert_eq!(
        conflicts,
        vec![
            ConflictType::ReadWrite { page_id: PageId(3), reader_txn: 2, writer_txn: 1 },
            ConflictType::WriteWrite { page_id: PageId(4), first_txn: 1, second_txn: 2 },
        ]
    );

    // A hot read page is skipped.
    let hot = pages(&[3]);
    let conflicts = occ.validate_transaction(&ctx, true, &hot).unwrap();
    assert_eq!(conflicts, vec![ConflictType::WriteWrite { page_id: PageId(4), first_txn: 1, second_txn: 2 }]);
    assert_eq!(occ.statistics().failed_validations, 2);
    assert_eq!(occ.statistics().read_write_conflicts, 1);
    assert_eq!(occ.statistics().write_write_conflicts, 2);
}

#[test]
fn occ_commit_before_start_is_no_conflict() {
    let mut occ = OCCManager::new(ConflictResolutionStrategy::AbortConflicting, 1000);
    occ.record_commit(1, 900, Vec::new(), pages(&[1])).unwrap();
    let ctx = context(2, &[1], &[1]);
    assert!(occ.validate_transaction(&ctx, false, &Vec::new()).unwrap().is_empty());
}

#[test]
fn occ_unknown_transaction_is_not_found() {
    let occ = OCCManager::new(ConflictResolutionStrategy::AbortConflicting, 1000);
    let mut mgr = OCCTransactionManager::new(occ);
    assert!(mgr.add_to_read_set(7, PageId(1)).is_err());
    assert!(mgr.commit_transaction(7, false, &Vec::new()).is_err());
}

#[test]
fn occ_retry_keeps_transaction_active() {
    let mut occ = OCCManager::new(ConflictResolutionStrategy::RetryWithBackoff, 1000);
    occ.record_commit(1, u64::MAX, Vec::new(), pages(&[5])).unwrap();
    let mut mgr = OCCTransactionManager::new(occ);
    mgr.begin_transaction(2).unwrap();
    mgr.add_to_read_set(2, PageId(5)).unwrap();
    match mgr.commit_transaction(2, false, &Vec::new()).unwrap() {
        ConflictResolution::Retry { backoff_duration, max_retries } => {
            assert_eq!(backoff_duration, Duration::from_millis(10));
            assert_eq!(max_retries, 3);
        }
        _ => panic!("Expected Retry resolution"),
    }
    assert_eq!(mgr.active_transaction_count(), 1);
    mgr.abort_transaction(2, "gave up").unwrap();
    assert_eq!(mgr.active_transaction_count(), 0);
    assert_eq!(mgr.occ_manager().statistics().aborted_transactions, 1);
}

#[test]
fn occ_adaptive_and_no_wait_plans() {
    let ww = vec![ConflictType::WriteWrite { page_id: PageId(1), first_txn: 1, second_txn: 2 }];
    let ctx = context(2, &[], &[1]);
    let occ = OCCManager::new(ConflictResolutionStrategy::Adaptive, 10);
    match occ.resolve_conflicts(&ww, &ctx, &Vec::new()) {
        ConflictResolution::Abort { reason, should_retry } => {
            assert_eq!(reason, "Write-write conflict detected in adaptive mode");
            assert!(should_retry);
        }
        _ => panic!("Expected Abort resolution"),
    }
    match occ.resolve_conflicts(&ww, &ctx, &pages(&[1])) {
        ConflictResolution::Retry { backoff_duration, max_retries } => {
            assert_eq!(backoff_duration, Duration::from_millis(1));
            assert_eq!(max_retries, 5);
        }
        _ => panic!("Expected Retry resolution"),
    }
    let occ = OCCManager::new(ConflictResolutionStrategy::NoWaitHotPages, 10);
    match occ.resolve_conflicts(&ww, &ctx, &pages(&[1])) {
        ConflictResolution::Abort { should_retry, .. } => assert!(!should_retry),
        _ => panic!("Expected Abort resolution"),
    }
}
