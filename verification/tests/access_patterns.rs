use dotdb_core::statistics::access_patterns::{count_sequential_pairs, is_sequential_key, AccessLog};

#[test]
fn test_access_pattern_tracker() {
    let mut tracker = AccessLog::new(1000);

    tracker.record_access("key1");
    tracker.record_access("key2");
    tracker.record_access("key3");
    tracker.record_access("key1");

    assert_eq!(tracker.total_accesses(), 4);
    assert_eq!(tracker.unique_keys(), 3);

    let hot_keys = tracker.get_hot_keys(5);
    assert_eq!(hot_keys[0].0, "key1");
    assert_eq!(hot_keys[0].1, 2);
}

#[test]
fn test_clear_history() {
    let mut tracker = AccessLog::new(1000);

    tracker.record_access("test_key");
    assert_eq!(tracker.total_accesses(), 1);

    tracker.clear_history();
    assert_eq!(tracker.total_accesses(), 0);
    assert_eq!(tracker.unique_keys(), 0);
}

#[test]
fn access_log_drops_oldest_beyond_limit() {
    let mut log = AccessLog::new(3);
    log.record_access_at("a", 10);
    log.record_access_at("b", 20);
    log.record_access_at("a", 30);
    log.record_access_at("c", 40);
    assert_eq!(log.total_accesses(), 3);
    let freqs = log.frequencies();
    let get = |k: &str| freqs.iter().find(|(key, _)| key == k).map(|(_, f)| *f);
    assert_eq!(get("a"), Some(1));
    assert_eq!(get("b"), Some(1));
    assert_eq!(get("c"), Some(1));
    assert_eq!(log.recent_accesses(2), vec![("c".to_string(), 40), ("a".to_string(), 30)]);
    assert_eq!(log.last_updated(), 40);
    log.record_access_at("b", 50);
    assert_eq!(log.unique_keys(), 3);
    log.record_access_at("b", 60);
    assert_eq!(log.unique_keys(), 2);
}

#[test]
fn access_log_gaps_and_peak() {
    let mut log = AccessLog::new(100);
    log.record_access_at("x", 100);
    log.record_access_at("y", 130);
    log.record_access_at("y", 120);
    log.record_access_at("z", 200);
    assert_eq!(log.gap_total(), 30 + 0 + 80);
    assert_eq!(log.peak_access_time(), Some(130));
    let empty = AccessLog::new(10);
    assert_eq!(empty.peak_access_time(), None);
    assert_eq!(empty.gap_total(), 0);
}

#[test]
fn sequential_keys_numbers_and_texts() {
    assert!(is_sequential_key("41", "42"));
    assert!(is_sequential_key("42", "41"));
    assert!(!is_sequential_key("41", "43"));
    assert!(is_sequential_key("key1", "key2"));
    assert!(is_sequential_key("abc", "abcd"));
    assert!(!is_sequential_key("abc", "xyz"));
    assert!(!is_sequential_key("a", "abc"));
    assert!(!is_sequential_key("-9223372036854775808", "9223372036854775807"));

    let mut log = AccessLog::new(100);
    for i in 1..=5 {
        log.record_access_at(&i.to_string(), i);
    }
    log.record_access_at("zzz", 9);
    assert_eq!(log.sequential_pairs(), 4);
    assert_eq!(count_sequential_pairs(&log.recent_accesses(100)), 4);
}

#[test]
fn hot_keys_are_ordered_by_frequency() {
    let mut log = AccessLog::new(100);
    for (k, n) in [("a", 1), ("b", 3), ("c", 2)] {
        for _ in 0..n {
            log.record_access(k);
        }
    }
    let top = log.get_hot_keys(2);
    assert_eq!(top, vec![("b".to_string(), 3), ("c".to_string(), 2)]);
    assert_eq!(log.get_hot_keys(10).len(), 3);
    assert!(log.get_hot_keys(0).is_empty());
}

#[test]
fn numeric_keys_follow_by_value() {
    assert!(is_sequential_key("9", "10"));
    assert!(is_sequential_key("-1", "0"));
    assert!(is_sequential_key("+7", "6"));
    assert!(!is_sequential_key("100", "1000"));
    assert!(is_sequential_key("abc", "abd"));
    assert!(!is_sequential_key("abcd", "wxyz"));
}
