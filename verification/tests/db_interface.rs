use dotdb_core::state::db_interface::{
    create_in_memory_mpt, decode_index, hex_decode, index_from_entries, node_key, BatchOp, Database, MptStorageAdapter,
};
use dotdb_core::state::mpt::node::Node;
use dotdb_core::state::mpt::trie::NodeStorage;

#[test]
fn test_database_interface_basic_operations() {
    let mut db = Database::new_in_memory().unwrap();

    let key = b"test_key".to_vec();
    let value = b"test_value".to_vec();

    db.put(key.clone(), value.clone()).unwrap();
    let retrieved = db.get(&key).unwrap();
    assert_eq!(retrieved, Some(value.clone()));

    assert!(db.delete(&key).unwrap());
    assert_eq!(db.get(&key).unwrap(), None);

    db.put(key.clone(), value).unwrap();
    assert!(db.contains(&key).unwrap());
    db.delete(&key).unwrap();
    assert!(!db.contains(&key).unwrap());
}

#[test]
fn test_batch_operations() {
    let mut db = Database::new_in_memory().unwrap();

    let ops = vec![
        BatchOp::Put { key: b"key1".to_vec(), value: b"value1".to_vec() },
        BatchOp::Put { key: b"key2".to_vec(), value: b"value2".to_vec() },
        BatchOp::Delete { key: b"key3".to_vec() },
    ];

    db.batch(ops).unwrap();

    assert_eq!(db.get(b"key1").unwrap(), Some(b"value1".to_vec()));
    assert_eq!(db.get(b"key2").unwrap(), Some(b"value2".to_vec()));
    assert_eq!(db.get(b"key3").unwrap(), None);
}

#[test]
fn test_cache_functionality() {
    let mut db = Database::new_in_memory().unwrap();

    let key = b"cached_key".to_vec();
    let value = b"cached_value".to_vec();

    db.put(key.clone(), value.clone()).unwrap();

    let _ = db.get(&key).unwrap();
    let stats_before = db.stats();
    let _ = db.get(&key).unwrap();
    let stats_after = db.stats();

    assert!(stats_after.cache_hits > stats_before.cache_hits);
}

#[test]
fn test_snapshot_functionality() {
    let mut db = Database::new_in_memory().unwrap();

    db.put(b"key1".to_vec(), b"value1".to_vec()).unwrap();
    db.put(b"key2".to_vec(), b"value2".to_vec()).unwrap();

    let snapshot = db.snapshot().unwrap();

    assert_eq!(snapshot.get(b"key1").unwrap(), Some(b"value1".to_vec()));
    assert_eq!(snapshot.get(b"key2").unwrap(), Some(b"value2".to_vec()));

    db.put(b"key1".to_vec(), b"modified_value1".to_vec()).unwrap();

    assert_eq!(snapshot.get(b"key1").unwrap(), Some(b"value1".to_vec()));
    assert_eq!(db.get(b"key1").unwrap(), Some(b"modified_value1".to_vec()));
}

#[test]
fn db_interface_test_statistics_tracking() {
    let mut db = Database::new_in_memory().unwrap();

    db.put(b"key1".to_vec(), b"value1".to_vec()).unwrap();
    db.get(b"key1").unwrap();
    db.delete(b"key1").unwrap();

    let stats = db.stats();
    assert!(stats.put_count > 0);
    assert!(stats.get_count > 0);
    assert!(stats.delete_count > 0);
}

#[test]
fn db_node_key_is_prefixed_lowercase_hex() {
    let mut id = [0u8; 32];
    id[0] = 0xAB;
    id[31] = 0x0f;
    let key = node_key(&id);
    let text = String::from_utf8(key).unwrap();
    let expected = format!("node:ab{}0f", "00".repeat(30));
    assert_eq!(text, expected);
}

#[test]
fn db_hex_decode_accepts_both_cases() {
    assert_eq!(hex_decode("0aFf"), Some(vec![0x0a, 0xff]));
    assert_eq!(hex_decode(""), Some(vec![]));
    assert_eq!(hex_decode("abc"), None);
    assert_eq!(hex_decode("zz"), None);
}

#[test]
fn db_decode_index_reads_hex_keys() {
    let entries = decode_index("{\"6b31\":[0,6],\"xyz\":[6,2]}");
    assert_eq!(entries, vec![(b"k1".to_vec(), 0, 6), (vec![], 6, 2)]);
    assert!(decode_index("not json").is_empty());
}

#[test]
fn index_entries_decode_their_hex_keys() {
    let parsed = vec![
        ("0aff".to_string(), (16u64, 4u32)),
        ("zz".to_string(), (32u64, 8u32)),
        ("".to_string(), (0u64, 1u32)),
    ];
    let entries = index_from_entries(&parsed);
    assert_eq!(
        entries,
        vec![(vec![0x0a, 0xff], 16, 4), (Vec::new(), 32, 8), (Vec::new(), 0, 1)]
    );
}

#[test]
fn test_mpt_storage_adapter() {
    let db = Database::new_in_memory().unwrap();
    let mut adapter = MptStorageAdapter::new(db);

    let node = Node::new_empty();
    let node_id = node.id;

    adapter.put_node(&node).unwrap();
    let retrieved = adapter.get_node(&node_id).unwrap();
    assert!(retrieved.is_some());
    assert_eq!(retrieved.unwrap().id, node_id);

    assert!(adapter.contains_node(&node_id));

    adapter.delete_node(&node_id).unwrap();
    assert!(!adapter.contains_node(&node_id));
    assert!(adapter.get_node(&node_id).unwrap().is_none());
}

#[test]
fn test_create_in_memory_mpt() {
    let mut mpt = create_in_memory_mpt().unwrap();

    let key = b"test_key".to_vec();
    let value = b"test_value".to_vec();

    mpt.put(key.clone(), value.clone()).unwrap();
    let retrieved = mpt.get(&key).unwrap();
    assert_eq!(retrieved, Some(value));
}
