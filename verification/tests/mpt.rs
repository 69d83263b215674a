use std::collections::HashSet;

use dotdb_core::state::mpt::lib::{common_prefix, key_to_nibbles, keccak256, nibbles_to_key, CompactPath, MPTError};
use dotdb_core::state::mpt::merkle_proof::{ProofBuilder, ProofElement, StateProof};
use dotdb_core::state::mpt::node::{Node, NodeType};
use dotdb_core::state::mpt::trie::{InMemoryStorage, MerklePatriciaTrie, NodeStorage};

// ---- nodes ----

#[test]
fn test_empty_node() {
    let node = Node::new_empty();
    assert!(node.is_empty());
    assert!(!node.is_leaf());
    assert!(!node.is_extension());
    assert!(!node.is_branch());
    assert_eq!(node.get_value(), None);
}

#[test]
fn test_leaf_node() {
    let path = CompactPath::new(vec![1, 2, 3], true);
    let value = b"test_value".to_vec();
    let node = Node::new_leaf(path.clone(), value.clone());

    assert!(!node.is_empty());
    assert!(node.is_leaf());
    assert!(!node.is_extension());
    assert!(!node.is_branch());
    assert_eq!(node.get_value(), Some(&value));
    assert_eq!(node.get_path(), Some(&path));
}

#[test]
fn test_extension_node() {
    let path = CompactPath::new(vec![4, 5, 6], false);
    let child_id = keccak256(b"child");
    let node = Node::new_extension(path.clone(), child_id);

    assert!(!node.is_empty());
    assert!(!node.is_leaf());
    assert!(node.is_extension());
    assert!(!node.is_branch());
    assert_eq!(node.get_path(), Some(&path));
    assert_eq!(node.get_extension_child(), Some(child_id));
}

#[test]
fn test_branch_node() {
    let mut children = [None; 16];
    children[0] = Some(keccak256(b"child0"));
    children[5] = Some(keccak256(b"child5"));
    let value = Some(b"branch_value".to_vec());

    let node = Node::new_branch(children, value.clone());

    assert!(!node.is_empty());
    assert!(!node.is_leaf());
    assert!(!node.is_extension());
    assert!(node.is_branch());
    assert_eq!(node.get_value(), value.as_ref());
    assert_eq!(node.get_branch_children(), Some(&children));
}

#[test]
fn test_node_encoding_decoding() {
    let path = CompactPath::new(vec![1, 2, 3], true);
    let value = b"test_value".to_vec();
    let original_node = Node::new_leaf(path, value);

    let encoded = original_node.encode();
    let decoded_node = Node::decode(&encoded).unwrap();

    assert_eq!(original_node, decoded_node);
}

#[test]
fn test_branch_node_with_child_update() {
    let mut children = [None; 16];
    children[0] = Some(keccak256(b"child0"));
    let node = Node::new_branch(children, None);

    let new_child = keccak256(b"new_child");
    let updated_node = node.with_branch_child(5, Some(new_child)).unwrap();

    let updated_children = updated_node.get_branch_children().unwrap();
    assert_eq!(updated_children[0], Some(keccak256(b"child0")));
    assert_eq!(updated_children[5], Some(new_child));
}

#[test]
fn test_node_id_consistency() {
    let path = CompactPath::new(vec![1, 2, 3], true);
    let value = b"test_value".to_vec();

    let node1 = Node::new_leaf(path.clone(), value.clone());
    let node2 = Node::new_leaf(path, value);

    assert_eq!(node1.id, node2.id);
}

#[test]
fn test_branch_node_invalid_index() {
    let children = [None; 16];
    let node = Node::new_branch(children, None);

    assert!(matches!(node.with_branch_child(16, Some(keccak256(b"child"))), Err(MPTError::InvalidNodeType)));
}

#[test]
fn test_branch_node_value_update() {
    let children = [None; 16];
    let node = Node::new_branch(children, None);
    let new_value = Some(b"new_value".to_vec());

    let updated_node = node.with_branch_value(new_value.clone()).unwrap();
    assert_eq!(updated_node.get_value(), new_value.as_ref());
}

#[test]
fn test_invalid_node_type_operations() {
    let node = Node::new_empty();

    assert!(matches!(node.with_branch_value(Some(vec![1, 2, 3])), Err(MPTError::InvalidNodeType)));
    assert!(matches!(node.with_branch_child(0, Some(keccak256(b"child"))), Err(MPTError::InvalidNodeType)));
}

#[test]
fn test_node_serialization_consistency() {
    let path = CompactPath::new(vec![1, 2, 3], true);
    let value = b"test_value".to_vec();
    let node = Node::new_leaf(path, value);

    let encoded1 = node.encode();
    let encoded2 = node.encode();
    assert_eq!(encoded1, encoded2);

    let decoded1 = Node::decode(&encoded1).unwrap();
    let decoded2 = Node::decode(&encoded2).unwrap();
    assert_eq!(decoded1, decoded2);
    assert_eq!(decoded1.id, node.id);
}

#[test]
fn test_branch_node_multiple_updates() {
    let children = [None; 16];
    let node = Node::new_branch(children, None);

    let child1 = keccak256(b"child1");
    let child2 = keccak256(b"child2");
    let child3 = keccak256(b"child3");

    let node1 = node.with_branch_child(1, Some(child1)).unwrap();
    let node2 = node1.with_branch_child(2, Some(child2)).unwrap();
    let node3 = node2.with_branch_child(3, Some(child3)).unwrap();

    let final_children = node3.get_branch_children().unwrap();
    assert_eq!(final_children[1], Some(child1));
    assert_eq!(final_children[2], Some(child2));
    assert_eq!(final_children[3], Some(child3));
}

#[test]
fn node_encoding_matches_bincode_standard_layout() {
    let cfg = bincode::config::standard();
    let leaf = Node::new_leaf(CompactPath::new(vec![1, 2, 3], true), b"v".to_vec());
    let expected = bincode::serde::encode_to_vec(&(0u32, (vec![1u8, 2, 3], true), b"v".to_vec()), cfg).unwrap();
    assert_eq!(leaf.encode(), expected);

    let child = keccak256(b"c");
    let ext = Node::new_extension(CompactPath::new(vec![4, 5], false), child);
    let expected = bincode::serde::encode_to_vec(&(1u32, (vec![4u8, 5], false), child), cfg).unwrap();
    assert_eq!(ext.encode(), expected);

    let mut children: [Option<[u8; 32]>; 16] = [None; 16];
    children[3] = Some(child);
    let branch = Node::new_branch(children, Some(vec![9u8; 300]));
    let expected = bincode::serde::encode_to_vec(&(2u32, children, Some(vec![9u8; 300])), cfg).unwrap();
    assert_eq!(branch.encode(), expected);

    let empty = Node::new_empty();
    assert_eq!(empty.encode(), bincode::serde::encode_to_vec(&3u32, cfg).unwrap());
    assert_eq!(empty.id, keccak256(&empty.encode()));
}

#[test]
fn node_decode_rejects_bad_bytes() {
    assert!(matches!(Node::decode(&[]), Err(MPTError::SerializationError(_))));
    assert!(matches!(Node::decode(&[7]), Err(MPTError::SerializationError(_))));
    assert!(matches!(Node::decode(&[0, 5, 1]), Err(MPTError::SerializationError(_))));
    let leaf = Node::new_leaf(CompactPath::new(vec![0xa, 0xb], true), vec![1, 2]);
    let back = Node::decode(&leaf.encode()).unwrap();
    assert!(matches!(back.node_type, NodeType::Leaf { .. }));
    assert_eq!(back.id, leaf.id);
}

#[test]
fn node_size_bytes_counts_payload() {
    let leaf = Node::new_leaf(CompactPath::new(vec![1, 2, 3], true), vec![0u8; 10]);
    assert_eq!(leaf.size_bytes(), 13);
    let mut children = [None; 16];
    children[0] = Some([1u8; 32]);
    let branch = Node::new_branch(children, Some(vec![1, 2]));
    assert_eq!(branch.size_bytes(), 34);
    assert_eq!(Node::new_empty().size_bytes(), 0);
}

// ---- paths ----

#[test]
fn nibble_paths_roundtrip_and_prefix() {
    let key = vec![0x12u8, 0xab];
    let nibbles = key_to_nibbles(&key);
    assert_eq!(nibbles, vec![1, 2, 0xa, 0xb]);
    assert_eq!(nibbles_to_key(&nibbles), key);
    assert_eq!(common_prefix(&[1, 2, 3], &[1, 2, 4, 5]), 2);
    assert_eq!(common_prefix(&[], &[1]), 0);
    let path = CompactPath::new(vec![1, 2, 3], true);
    let decoded = CompactPath::decode(&path.encode()).unwrap();
    assert_eq!(decoded, path);
    let even = CompactPath::new(vec![4, 5], false);
    assert_eq!(CompactPath::decode(&even.encode()).unwrap(), even);
}

// ---- proofs ----

#[test]
fn test_leaf_proof_verification() {
    let key = b"test_key".to_vec();
    let value = b"test_value".to_vec();
    let path = CompactPath::new(key_to_nibbles(&key), true);
    let leaf_node = Node::new_leaf(path, value.clone());

    let proof_element = ProofElement { node_id: leaf_node.id, node_data: leaf_node.encode() };
    let proof = StateProof::new(key, Some(value), vec![proof_element], leaf_node.id);

    assert!(proof.verify().unwrap());
}

#[test]
fn test_proof_verification_with_wrong_value() {
    let key = b"test_key".to_vec();
    let value = b"test_value".to_vec();
    let wrong_value = b"wrong_value".to_vec();
    let path = CompactPath::new(key_to_nibbles(&key), true);
    let leaf_node = Node::new_leaf(path, value);

    let proof_element = ProofElement { node_id: leaf_node.id, node_data: leaf_node.encode() };
    let proof = StateProof::new(key, Some(wrong_value), vec![proof_element], leaf_node.id);

    assert!(!proof.verify().unwrap());
}

#[test]
fn test_proof_verification_with_wrong_hash() {
    let key = b"test_key".to_vec();
    let value = b"test_value".to_vec();
    let path = CompactPath::new(key_to_nibbles(&key), true);
    let leaf_node = Node::new_leaf(path, value.clone());

    let proof_element = ProofElement { node_id: leaf_node.id, node_data: leaf_node.encode() };
    let wrong_root = keccak256(b"wrong_root");
    let proof = StateProof::new(key, Some(value), vec![proof_element], wrong_root);

    assert!(!proof.verify().unwrap());
}

#[test]
fn test_proof_builder() {
    let mut builder = ProofBuilder::new();
    assert!(builder.is_empty());
    assert_eq!(builder.len(), 0);

    let key = b"test_key".to_vec();
    let value = b"test_value".to_vec();
    let path = CompactPath::new(key_to_nibbles(&key), true);
    let leaf_node = Node::new_leaf(path, value.clone());

    builder.add_node(&leaf_node);
    assert!(!builder.is_empty());
    assert_eq!(builder.len(), 1);

    let proof = builder.build(key.clone(), Some(value), leaf_node.id);
    assert_eq!(proof.key, key);
    assert_eq!(proof.proof_elements.len(), 1);
}

#[test]
fn test_proof_encoding_decoding() {
    let key = b"test_key".to_vec();
    let value = b"test_value".to_vec();
    let path = CompactPath::new(key_to_nibbles(&key), true);
    let leaf_node = Node::new_leaf(path, value.clone());

    let proof_element = ProofElement { node_id: leaf_node.id, node_data: leaf_node.encode() };
    let original_proof = StateProof::new(key, Some(value), vec![proof_element], leaf_node.id);
    let encoded = original_proof.encode();
    let decoded_proof = StateProof::decode(&encoded).unwrap();

    assert_eq!(original_proof, decoded_proof);
}

#[test]
fn test_empty_node_proof() {
    let trie = MerklePatriciaTrie::new_in_memory();
    let key = b"test_key".to_vec();
    let proof = trie.get_proof(&key).unwrap();
    assert!(!proof.verify().unwrap());
    assert_eq!(proof.value, None);
}

#[test]
fn test_extension_node_proof() {
    let key = b"test_key".to_vec();
    let value = b"test_value".to_vec();
    let mut trie = MerklePatriciaTrie::new_in_memory();
    trie.put(key.clone(), value.clone()).unwrap();
    let proof = trie.get_proof(&key).unwrap();
    assert!(proof.verify().unwrap());
    assert_eq!(proof.value, Some(value));
}

#[test]
fn test_branch_node_proof() {
    let key = b"test_key".to_vec();
    let value = b"test_value".to_vec();
    let mut trie = MerklePatriciaTrie::new_in_memory();
    trie.put(key.clone(), value.clone()).unwrap();
    let proof = trie.get_proof(&key).unwrap();
    assert!(proof.verify().unwrap());
    assert_eq!(proof.value, Some(value));
}

#[test]
fn test_proof_size() {
    let key = b"test_key".to_vec();
    let value = b"test_value".to_vec();
    let path = CompactPath::new(key_to_nibbles(&key), true);
    let leaf_node = Node::new_leaf(path, value.clone());

    let proof_element = ProofElement { node_id: leaf_node.id, node_data: leaf_node.encode() };
    let proof = StateProof::new(key, Some(value), vec![proof_element], leaf_node.id);
    assert!(proof.size() > 0);
}

#[test]
fn test_invalid_proof_data() {
    let invalid_data = b"invalid_proof_data";
    assert!(matches!(StateProof::decode(invalid_data), Err(MPTError::SerializationError(_))));
}

#[test]
fn test_proof_with_multiple_nodes() {
    let mut trie = MerklePatriciaTrie::new_in_memory();
    let key = b"test_key".to_vec();
    let value = b"test_value".to_vec();
    trie.put(key.clone(), value.clone()).unwrap();
    let proof = trie.get_proof(&key).unwrap();
    assert!(proof.verify().unwrap());
    assert_eq!(proof.value, Some(value));
}

#[test]
fn proof_encoding_matches_bincode_standard_layout() {
    let cfg = bincode::config::standard();
    let elem = ProofElement { node_id: [3u8; 32], node_data: vec![1, 2, 3] };
    let proof = StateProof::new(vec![7, 8], None, vec![elem], [4u8; 32]);
    let expected = bincode::serde::encode_to_vec(
        &(vec![7u8, 8], None::<Vec<u8>>, vec![([3u8; 32], vec![1u8, 2, 3])], [4u8; 32]),
        cfg,
    )
    .unwrap();
    assert_eq!(proof.encode(), expected);
}

#[test]
fn proofs_of_every_stored_key_verify() {
    let mut trie = MerklePatriciaTrie::new_in_memory();
    let keys: Vec<Vec<u8>> = vec![b"alpha".to_vec(), b"alpine".to_vec(), b"beta".to_vec(), b"al".to_vec()];
    for (i, k) in keys.iter().enumerate() {
        trie.put(k.clone(), vec![i as u8]).unwrap();
    }
    for (i, k) in keys.iter().enumerate() {
        let proof = trie.get_proof(k).unwrap();
        assert_eq!(proof.value, Some(vec![i as u8]));
        assert!(proof.verify().unwrap());
        assert!(trie.verify_proof(&proof).unwrap());
        let tampered = StateProof::new(k.clone(), Some(vec![99]), proof.proof_elements.clone(), proof.root_hash);
        assert!(!tampered.verify().unwrap());
    }
    let missing = trie.get_proof(&b"gamma".to_vec()).unwrap();
    assert_eq!(missing.value, None);
}

// ---- trie ----

#[test]
fn test_empty_trie() {
    let trie = MerklePatriciaTrie::new_in_memory();
    assert!(trie.is_empty());
    assert_eq!(trie.len().unwrap(), 0);
    assert_eq!(trie.get(&b"test".to_vec()).unwrap(), None);
}

#[test]
fn test_single_key_value() {
    let mut trie = MerklePatriciaTrie::new_in_memory();
    trie.put(b"test".to_vec(), b"value".to_vec()).unwrap();
    assert!(!trie.is_empty());
    assert_eq!(trie.len().unwrap(), 1);
    assert_eq!(trie.get(&b"test".to_vec()).unwrap(), Some(b"value".to_vec()));
}

#[test]
fn test_multiple_keys() {
    let mut trie = MerklePatriciaTrie::new_in_memory();
    let pairs = vec![
        (b"key1".to_vec(), b"value1".to_vec()),
        (b"key2".to_vec(), b"value2".to_vec()),
        (b"key3".to_vec(), b"value3".to_vec()),
    ];
    for (key, value) in pairs.clone() {
        trie.put(key, value).unwrap();
    }
    assert_eq!(trie.len().unwrap(), pairs.len());
    for (key, value) in pairs {
        assert_eq!(trie.get(&key).unwrap(), Some(value));
    }
}

#[test]
fn test_key_update() {
    let mut trie = MerklePatriciaTrie::new_in_memory();
    let key = b"test".to_vec();
    let value1 = b"value1".to_vec();
    let value2 = b"value2".to_vec();

    trie.put(key.clone(), value1.clone()).unwrap();
    assert_eq!(trie.get(&key).unwrap(), Some(value1));

    trie.put(key.clone(), value2.clone()).unwrap();
    assert_eq!(trie.get(&key).unwrap(), Some(value2));
}

#[test]
fn test_key_deletion() {
    let mut trie = MerklePatriciaTrie::new_in_memory();
    let key = b"test".to_vec();
    let value = b"value".to_vec();

    trie.put(key.clone(), value).unwrap();
    assert!(trie.delete(&key).unwrap());
    assert_eq!(trie.get(&key).unwrap(), None);
    assert!(trie.is_empty());
}

#[test]
fn test_proof_generation_and_verification() {
    let mut trie = MerklePatriciaTrie::new_in_memory();
    let key = b"test".to_vec();
    let value = b"value".to_vec();

    trie.put(key.clone(), value.clone()).unwrap();
    let proof = trie.get_proof(&key).unwrap();
    assert!(proof.verify().unwrap());
    assert_eq!(proof.value, Some(value));
}

#[test]
fn test_proof_for_nonexistent_key() {
    let trie = MerklePatriciaTrie::new_in_memory();
    let key = b"nonexistent".to_vec();
    let proof = trie.get_proof(&key).unwrap();
    assert!(!proof.verify().unwrap());
    assert_eq!(proof.value, None);
}

#[test]
fn test_common_prefix_keys() {
    let mut trie = MerklePatriciaTrie::new_in_memory();
    let pairs = vec![
        (b"test1".to_vec(), b"value1".to_vec()),
        (b"test2".to_vec(), b"value2".to_vec()),
        (b"test3".to_vec(), b"value3".to_vec()),
    ];
    for (key, value) in pairs.clone() {
        trie.put(key, value).unwrap();
    }
    for (key, value) in pairs {
        assert_eq!(trie.get(&key).unwrap(), Some(value));
    }
}

#[test]
fn test_root_hash_consistency() {
    let mut trie = MerklePatriciaTrie::new_in_memory();
    let initial_hash = trie.root_hash();

    trie.put(b"test1".to_vec(), b"value1".to_vec()).unwrap();
    let hash1 = trie.root_hash();
    assert_ne!(initial_hash, hash1);

    trie.put(b"test2".to_vec(), b"value2".to_vec()).unwrap();
    let hash2 = trie.root_hash();
    assert_ne!(hash1, hash2);

    trie.delete(&b"test1".to_vec()).unwrap();
    let hash3 = trie.root_hash();
    assert_ne!(hash2, hash3);
}

#[test]
fn test_empty_key() {
    let mut trie = MerklePatriciaTrie::new_in_memory();
    let value = b"value".to_vec();

    trie.put(Vec::new(), value.clone()).unwrap();
    assert_eq!(trie.get(&Vec::new()).unwrap(), Some(value));
}

#[test]
fn test_get_all_keys() {
    let mut trie = MerklePatriciaTrie::new_in_memory();
    let pairs = vec![
        (b"key1".to_vec(), b"value1".to_vec()),
        (b"key2".to_vec(), b"value2".to_vec()),
        (b"key3".to_vec(), b"value3".to_vec()),
    ];
    for (key, value) in pairs.clone() {
        trie.put(key, value).unwrap();
    }
    let keys: HashSet<_> = trie.get_all_keys().unwrap().into_iter().collect();
    let expected_keys: HashSet<_> = pairs.into_iter().map(|(k, _)| k).collect();
    assert_eq!(keys, expected_keys);
}

#[test]
fn test_large_key_value_pairs() {
    let mut trie = MerklePatriciaTrie::new_in_memory();
    let key = vec![0u8; 1024];
    let value = vec![1u8; 1024 * 1024];

    trie.put(key.clone(), value.clone()).unwrap();
    assert_eq!(trie.get(&key).unwrap(), Some(value));
}

#[test]
fn test_storage_operations() {
    let mut storage = InMemoryStorage::new();
    let node = Node::new_empty();

    assert!(!storage.contains_node(&node.id));
    storage.put_node(&node).unwrap();
    assert!(storage.contains_node(&node.id));
    assert_eq!(storage.get_node(&node.id).unwrap(), Some(node.clone()));
    storage.delete_node(&node.id).unwrap();
    assert!(!storage.contains_node(&node.id));
}

#[test]
fn trie_insertion_order_does_not_change_root() {
    let mut a = MerklePatriciaTrie::new_in_memory();
    let mut b = MerklePatriciaTrie::new_in_memory();
    let pairs: Vec<(Vec<u8>, Vec<u8>)> =
        (0u8..20).map(|i| (vec![i / 4, i % 4, 0x55], vec![i])).collect();
    for (k, v) in pairs.iter() {
        a.put(k.clone(), v.clone()).unwrap();
    }
    for (k, v) in pairs.iter().rev() {
        b.put(k.clone(), v.clone()).unwrap();
    }
    assert_eq!(a.root_hash(), b.root_hash());
    assert_eq!(a.len().unwrap(), 20);
    assert!(!a.delete(&vec![9, 9, 9]).unwrap());
    assert!(a.delete(&vec![0, 1, 0x55]).unwrap());
    assert_eq!(a.get(&vec![0, 1, 0x55]).unwrap(), None);
    assert_eq!(a.len().unwrap(), 19);
}

#[test]
fn trie_missing_root_node_is_reported() {
    let mut trie = MerklePatriciaTrie::new_in_memory();
    trie.set_root([7u8; 32]);
    assert!(matches!(trie.get(&b"k".to_vec()), Err(MPTError::NodeNotFound(_))));
}

#[test]
fn key_that_is_a_prefix_of_a_stored_key() {
    let mut t = MerklePatriciaTrie::new_in_memory();
    t.put(vec![0x12, 0x34], b"a".to_vec()).unwrap();
    t.put(vec![0x12], b"b".to_vec()).unwrap();
    assert_eq!(t.get(&vec![0x12]).unwrap(), Some(b"b".to_vec()));
    assert_eq!(t.get(&vec![0x12, 0x34]).unwrap(), Some(b"a".to_vec()));

    let mut u = MerklePatriciaTrie::new_in_memory();
    u.put(b"ab".to_vec(), b"1".to_vec()).unwrap();
    u.put(b"a".to_vec(), b"2".to_vec()).unwrap();
    u.put(b"abc".to_vec(), b"3".to_vec()).unwrap();
    assert_eq!(u.get(&b"a".to_vec()).unwrap(), Some(b"2".to_vec()));
    assert_eq!(u.get(&b"ab".to_vec()).unwrap(), Some(b"1".to_vec()));
    assert_eq!(u.get(&b"abc".to_vec()).unwrap(), Some(b"3".to_vec()));
}

#[test]
fn checked_put_inserts_when_defined() {
    let mut t = MerklePatriciaTrie::new_in_memory();
    t.put_checked(b"abc".to_vec(), b"1".to_vec()).unwrap();
    t.put_checked(b"ab".to_vec(), b"2".to_vec()).unwrap();
    assert_eq!(t.get(&b"abc".to_vec()).unwrap(), Some(b"1".to_vec()));
    assert_eq!(t.get(&b"ab".to_vec()).unwrap(), Some(b"2".to_vec()));
}
