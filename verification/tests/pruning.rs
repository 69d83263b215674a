use dotdb_core::state::mpt::trie::{InMemoryStorage, MerklePatriciaTrie};
use dotdb_core::state::pruning::{
    apply_strategy, hash_text, PrunableState, PruningPolicy, PruningResult, PruningStrategy, StatePruner,
};
use dotdb_core::state::snapshot::{SnapshotConfig, SnapshotManager};

type TestPruner = StatePruner<InMemoryStorage>;

fn st(root: u8, height: u64, timestamp: u64) -> PrunableState {
    PrunableState {
        root_hash: [root; 32],
        height,
        timestamp,
        size_bytes: 10,
        is_snapshot_root: false,
        has_confirmations: true,
    }
}

#[test]
fn test_pruning_strategy_default() {
    let strategy = PruningStrategy::default();
    match strategy {
        PruningStrategy::Custom { keep_last, keep_recent_seconds, keep_intervals, keep_snapshots } => {
            assert_eq!(keep_last, Some(100));
            assert_eq!(keep_recent_seconds, Some(86400 * 7));
            assert_eq!(keep_intervals, Some(1000));
            assert!(keep_snapshots);
        }
        _ => assert!(false, "Expected Custom strategy"),
    }
}

#[test]
fn test_pruning_policy_default() {
    let policy = PruningPolicy::default();
    assert!(policy.enabled);
    assert_eq!(policy.auto_prune_interval, Some(3600));
    assert_eq!(policy.min_confirmations, 6);
    assert!(policy.preserve_snapshot_roots);
    assert_eq!(policy.max_storage_size, Some(1024 * 1024 * 1024));
}

#[test]
fn test_prunable_state_creation() {
    let root_hash = [1u8; 32];
    let height = 100;
    let timestamp = 1234567890;
    let size_bytes = 1024;

    let state = PrunableState {
        root_hash,
        height,
        timestamp,
        size_bytes,
        is_snapshot_root: false,
        has_confirmations: true,
    };

    assert_eq!(state.root_hash, root_hash);
    assert_eq!(state.height, height);
    assert_eq!(state.timestamp, timestamp);
    assert_eq!(state.size_bytes, size_bytes);
    assert!(!state.is_snapshot_root);
    assert!(state.has_confirmations);
}

#[test]
fn test_pruning_result_default() {
    let result = PruningResult::default();
    assert_eq!(result.pruned_count, 0);
    assert_eq!(result.bytes_reclaimed, 0);
    assert!(result.pruned_roots.is_empty());
    assert!(result.preserved_states.is_empty());
    assert!(result.errors.is_empty());
}

#[test]
fn test_state_pruner_creation() {
    let policy = PruningPolicy::default();
    let pruner: TestPruner = StatePruner::new(policy);

    assert!(pruner.policy.enabled);
    assert!(pruner.state_registry.is_empty());
    assert!(pruner.snapshot_manager.is_none());
    assert_eq!(pruner.last_prune_time, 0);
}

#[test]
fn test_state_registration() {
    let mut pruner: TestPruner = StatePruner::with_defaults();
    let root_hash = [1u8; 32];
    let height = 100;
    let size_bytes = 1024;

    let result = pruner.register_state(root_hash, height, size_bytes);
    assert!(result.is_ok());

    let states = pruner.get_state_info();
    assert_eq!(states.len(), 1);
    assert_eq!(states[0].root_hash, root_hash);
    assert_eq!(states[0].height, height);
    assert_eq!(states[0].size_bytes, size_bytes);
}

#[test]
fn test_confirmation_updates() {
    let mut pruner: TestPruner = StatePruner::with_defaults();
    let root_hash = [1u8; 32];

    pruner.register_state(root_hash, 100, 1024).unwrap();

    let states = pruner.get_state_info();
    assert!(!states[0].has_confirmations);

    pruner.update_confirmations(105);
    let states = pruner.get_state_info();
    assert!(!states[0].has_confirmations);

    pruner.update_confirmations(107);
    let states = pruner.get_state_info();
    assert!(states[0].has_confirmations);
}

#[test]
fn test_auto_prune_conditions() {
    let mut policy = PruningPolicy::default();
    policy.auto_prune_interval = Some(60);

    let pruner: TestPruner = StatePruner::new(policy);
    assert!(pruner.should_auto_prune());
}

#[test]
fn test_disabled_pruning() {
    let mut policy = PruningPolicy::default();
    policy.enabled = false;

    let mut pruner: TestPruner = StatePruner::new(policy);
    pruner.register_state([1u8; 32], 100, 1024).unwrap();

    let result = pruner.prune().unwrap();
    assert_eq!(result.pruned_count, 0);
    assert!(!pruner.should_auto_prune());
}

#[test]
fn test_force_prune() {
    let mut policy = PruningPolicy::default();
    policy.preserve_snapshot_roots = false;
    let mut pruner: TestPruner = StatePruner::new(policy);

    let mut trie = MerklePatriciaTrie::new_in_memory();
    let key = b"testkey".to_vec();
    let value = b"testvalue".to_vec();
    trie.put(key.clone(), value.clone()).unwrap();
    let root_hash = trie.root_hash();

    let config = SnapshotConfig::default();
    let mut snapshot_manager = SnapshotManager::new(config);
    snapshot_manager.set_current_trie(trie);
    pruner.set_snapshot_manager(snapshot_manager);

    pruner.register_state(root_hash, 100, 1024).unwrap();
    pruner.update_confirmations(200);

    let result = pruner.force_prune(&[root_hash]).unwrap();

    assert_eq!(result.pruned_count, 1, "Expected 1 state to be pruned");
    assert!(result.bytes_reclaimed > 0, "Expected bytes to be reclaimed");
    assert_eq!(result.pruned_roots, vec![root_hash], "Expected root hash to be pruned");

    let states = pruner.get_state_info();
    assert!(states.is_empty(), "Expected state registry to be empty after pruning");
}

#[test]
fn test_pruning_stats() {
    let pruner: TestPruner = StatePruner::with_defaults();
    let stats = pruner.get_stats();

    assert_eq!(stats.total_prune_operations, 0);
    assert_eq!(stats.total_states_pruned, 0);
    assert_eq!(stats.total_bytes_reclaimed, 0);
    assert!(stats.last_prune_timestamp.is_none());
    assert_eq!(stats.avg_prune_duration_ms, 0);
}

#[test]
fn test_policy_update() {
    let mut pruner: TestPruner = StatePruner::with_defaults();
    let mut new_policy = PruningPolicy::default();
    new_policy.enabled = false;
    new_policy.min_confirmations = 10;

    pruner.update_policy(new_policy.clone());

    let current_policy = pruner.get_policy();
    assert!(!current_policy.enabled);
    assert_eq!(current_policy.min_confirmations, 10);
}

#[test]
fn strategy_keep_last_prunes_the_older_states() {
    let candidates = vec![st(1, 10, 100), st(2, 20, 200), st(3, 30, 300)];
    let pruned = apply_strategy(&PruningStrategy::KeepLast(2), &candidates, 1000);
    assert_eq!(pruned.len(), 1);
    assert_eq!(pruned[0].root_hash, [1u8; 32]);
    let none = apply_strategy(&PruningStrategy::KeepLast(5), &candidates, 1000);
    assert!(none.is_empty());
}

#[test]
fn strategy_keep_recent_and_intervals() {
    let candidates = vec![st(1, 10, 100), st(2, 20, 950), st(3, 1000, 50)];
    let pruned = apply_strategy(&PruningStrategy::KeepRecent(100), &candidates, 1000);
    let roots: Vec<[u8; 32]> = pruned.iter().map(|s| s.root_hash).collect();
    assert_eq!(roots, vec![[1u8; 32], [3u8; 32]]);
    let pruned = apply_strategy(&PruningStrategy::KeepAtIntervals(1000), &candidates, 1000);
    let roots: Vec<[u8; 32]> = pruned.iter().map(|s| s.root_hash).collect();
    assert_eq!(roots, vec![[1u8; 32], [2u8; 32]]);
}

#[test]
fn pruning_stats_follow_a_prune() {
    let mut policy = PruningPolicy::default();
    policy.strategy = PruningStrategy::KeepLast(1);
    policy.preserve_snapshot_roots = false;
    let mut pruner: TestPruner = StatePruner::new(policy);
    pruner.register_state([1u8; 32], 1, 100).unwrap();
    pruner.register_state([2u8; 32], 2, 100).unwrap();
    pruner.update_confirmations(100);
    let candidates = pruner.get_prunable_states().unwrap();
    assert_eq!(candidates.len(), 2);
    let result = pruner.prune().unwrap();
    assert_eq!(result.pruned_count, pruner.get_stats().total_states_pruned as usize);
    assert_eq!(pruner.get_stats().total_prune_operations, 1);
    assert_eq!(pruner.get_state_info().len() + result.pruned_count, 2);
}

#[test]
fn hash_text_is_the_debug_text_of_the_bytes() {
    let mut h = [0u8; 32];
    h[0] = 1;
    h[1] = 255;
    h[31] = 42;
    assert_eq!(hash_text(&h), format!("{:?}", h));
    assert_eq!(hash_text(&[7u8; 32]), format!("{:?}", [7u8; 32]));
}
