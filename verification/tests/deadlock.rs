use std::time::{Duration, Instant};

use dotdb_core::storage_engine::deadlock_detector::{
    DeadlockCycle, DeadlockDetector, DeadlockResolutionPolicy, WaitForEdge, WaitForGraph,
};
use dotdb_core::storage_engine::file_format::PageId;

#[test]
fn test_wait_for_edge() {
    let edge = WaitForEdge::new(1, 2, PageId(100));
    assert_eq!(edge.waiter, 1);
    assert_eq!(edge.holder, 2);
    assert_eq!(edge.resource, PageId(100));
    assert!(edge.wait_duration().as_nanos() > 0);
}

#[test]
fn test_deadlock_cycle() {
    let cycle = DeadlockCycle {
        transactions: vec![1, 3, 2],
        resources: vec![PageId(100), PageId(200)],
        detection_time: Instant::now(),
    };

    assert_eq!(cycle.youngest_transaction(), 3);
    assert_eq!(cycle.oldest_transaction(), 1);
    assert!(cycle.contains_transaction(2));
    assert!(!cycle.contains_transaction(4));
}

#[test]
fn test_wait_for_graph_basic_operations() {
    let mut graph = WaitForGraph::new();

    graph.add_edge(WaitForEdge::new(1, 2, PageId(100)));
    graph.add_edge(WaitForEdge::new(2, 3, PageId(200)));

    assert_eq!(graph.edge_count(), 2);
    assert!(!graph.is_empty());

    graph.remove_edge(1, 2);
    assert_eq!(graph.edge_count(), 1);

    graph.remove_transaction(2);
    assert_eq!(graph.edge_count(), 0);
    assert!(graph.is_empty());
}

#[test]
fn test_simple_deadlock_detection() {
    let mut graph = WaitForGraph::new();

    graph.add_edge(WaitForEdge::new(1, 2, PageId(100)));
    graph.add_edge(WaitForEdge::new(2, 3, PageId(200)));
    graph.add_edge(WaitForEdge::new(3, 1, PageId(300)));

    let deadlocks = graph.detect_deadlocks();
    assert_eq!(deadlocks.len(), 1);

    let deadlock = &deadlocks[0];
    assert_eq!(deadlock.transactions.len(), 3);
    assert!(deadlock.contains_transaction(1));
    assert!(deadlock.contains_transaction(2));
    assert!(deadlock.contains_transaction(3));
}

#[test]
fn test_no_deadlock_detection() {
    let mut graph = WaitForGraph::new();

    graph.add_edge(WaitForEdge::new(1, 2, PageId(100)));
    graph.add_edge(WaitForEdge::new(2, 3, PageId(200)));

    let deadlocks = graph.detect_deadlocks();
    assert_eq!(deadlocks.len(), 0);
}

#[test]
fn test_deadlock_detector() {
    let mut detector =
        DeadlockDetector::new(DeadlockResolutionPolicy::AbortYoungest, Duration::from_millis(10), Duration::from_secs(1));

    detector.add_wait_edge(1, 2, PageId(100));
    detector.add_wait_edge(2, 3, PageId(200));
    detector.add_wait_edge(3, 1, PageId(300));

    let victims = detector.detect_and_resolve_deadlocks().unwrap();
    assert_eq!(victims.len(), 1);
    assert_eq!(victims[0], 3);

    let stats = detector.get_statistics();
    assert_eq!(stats.total_deadlocks_detected, 1);
    assert_eq!(stats.total_transactions_aborted, 1);
}

#[test]
fn test_deadlock_resolution_policies() {
    let mut graph = WaitForGraph::new();

    graph.add_edge(WaitForEdge::new(1, 2, PageId(100)));
    graph.add_edge(WaitForEdge::new(2, 3, PageId(200)));
    graph.add_edge(WaitForEdge::new(3, 1, PageId(300)));

    graph.update_transaction_metadata(1, 5);
    graph.update_transaction_metadata(2, 1);
    graph.update_transaction_metadata(3, 3);

    let deadlock = DeadlockCycle {
        transactions: vec![1, 2, 3],
        resources: vec![PageId(100), PageId(200), PageId(300)],
        detection_time: Instant::now(),
    };

    assert_eq!(deadlock.youngest_transaction(), 3);
    assert_eq!(deadlock.oldest_transaction(), 1);
    assert_eq!(graph.get_least_resources_transaction(&deadlock.transactions), 2);
}

#[test]
fn test_deadlock_statistics() {
    let mut detector =
        DeadlockDetector::new(DeadlockResolutionPolicy::AbortYoungest, Duration::from_millis(10), Duration::from_secs(1));

    let initial_stats = detector.get_statistics();
    assert_eq!(initial_stats.total_deadlocks_detected, 0);
    assert_eq!(initial_stats.active_wait_edges, 0);

    detector.add_wait_edge(1, 2, PageId(100));
    detector.add_wait_edge(2, 3, PageId(200));

    let stats = detector.get_statistics();
    assert_eq!(stats.active_wait_edges, 2);

    detector.add_wait_edge(3, 1, PageId(300));
    let _victims = detector.detect_and_resolve_deadlocks().unwrap();

    let final_stats = detector.get_statistics();
    assert_eq!(final_stats.total_deadlocks_detected, 1);
    assert!(final_stats.average_detection_time_us > 0);
}

#[test]
fn test_complex_deadlock_scenario() {
    let mut graph = WaitForGraph::new();

    graph.add_edge(WaitForEdge::new(1, 2, PageId(100)));
    graph.add_edge(WaitForEdge::new(2, 1, PageId(200)));

    graph.add_edge(WaitForEdge::new(3, 4, PageId(300)));
    graph.add_edge(WaitForEdge::new(4, 5, PageId(400)));
    graph.add_edge(WaitForEdge::new(5, 3, PageId(500)));

    let deadlocks = graph.detect_deadlocks();
    assert!(deadlocks.len() >= 2);
}

#[test]
fn deadlock_policies_pick_their_victims() {
    for (policy, expected) in [
        (DeadlockResolutionPolicy::AbortYoungest, 3u64),
        (DeadlockResolutionPolicy::AbortOldest, 1u64),
        (DeadlockResolutionPolicy::AbortLeastResources, 2u64),
    ] {
        let mut detector = DeadlockDetector::new(policy, Duration::from_millis(10), Duration::from_secs(1));
        detector.add_wait_edge(1, 2, PageId(100));
        detector.add_wait_edge(2, 3, PageId(200));
        detector.add_wait_edge(3, 1, PageId(300));
        detector.update_transaction_metadata(1, 5);
        detector.update_transaction_metadata(2, 1);
        detector.update_transaction_metadata(3, 3);
        let victims = detector.detect_and_resolve_deadlocks().unwrap();
        assert_eq!(victims, vec![expected]);
        assert_eq!(detector.get_statistics().total_transactions_aborted, 1);
    }
}

#[test]
fn deadlock_edge_removal_breaks_cycle() {
    let mut graph = WaitForGraph::new();
    graph.add_edge(WaitForEdge::new(7, 8, PageId(1)));
    graph.add_edge(WaitForEdge::new(8, 7, PageId(2)));
    assert_eq!(graph.detect_deadlocks().len(), 1);
    graph.remove_edge(8, 7);
    assert!(graph.detect_deadlocks().is_empty());
    assert_eq!(graph.edge_count(), 1);
}

#[test]
fn separate_deadlocks_each_get_a_victim() {
    let mut detector = DeadlockDetector::new(
        DeadlockResolutionPolicy::AbortYoungest,
        Duration::from_millis(10),
        Duration::from_secs(1),
    );
    detector.add_wait_edge(1, 2, PageId(100));
    detector.add_wait_edge(2, 1, PageId(200));
    detector.add_wait_edge(3, 4, PageId(300));
    detector.add_wait_edge(4, 5, PageId(400));
    detector.add_wait_edge(5, 3, PageId(500));

    let mut victims = detector.detect_and_resolve_deadlocks().unwrap();
    victims.sort();
    assert_eq!(victims, vec![2, 5]);
    let stats = detector.get_statistics();
    assert_eq!(stats.total_deadlocks_detected, 2);
    assert_eq!(stats.total_transactions_aborted, 2);
}

#[test]
fn cycle_through_two_resources_is_reported_once() {
    let mut graph = WaitForGraph::new();
    graph.add_edge(WaitForEdge::new(1, 2, PageId(100)));
    graph.add_edge(WaitForEdge::new(2, 1, PageId(200)));
    graph.add_edge(WaitForEdge::new(2, 1, PageId(300)));

    let deadlocks = graph.detect_deadlocks();
    assert_eq!(deadlocks.len(), 1);
    assert_eq!(deadlocks[0].transactions.len(), 2);
    let mut resources: Vec<u64> = deadlocks[0].resources.iter().map(|p| p.0).collect();
    resources.sort();
    assert_eq!(resources, vec![100, 200, 300]);
}
