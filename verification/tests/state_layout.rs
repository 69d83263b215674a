use dotdb_core::state::dot_storage_layout::{
    DotStorageLayout, StorageLayoutError, StorageValue, StorageVariableType, StructField,
};

#[test]
fn test_dot_storage_layout_creation() {
    let address = [1u8; 20];
    let layout = DotStorageLayout::new(address);

    assert_eq!(layout.dot_address, address);
    assert_eq!(layout.next_slot, 0);
    assert!(layout.variables.is_empty());
    assert!(layout.packed_storage);
}

#[test]
fn test_add_simple_variable() {
    let mut layout = DotStorageLayout::new([1u8; 20]);
    let slot = layout.add_variable("balance".to_string(), StorageVariableType::Simple).unwrap();
    assert_eq!(slot, 0);
    assert_eq!(layout.next_slot, 1);
    assert!(layout.variables.contains_key(&"balance".to_string()));
}

#[test]
fn test_add_dynamic_array_variable() {
    let mut layout = DotStorageLayout::new([1u8; 20]);
    let slot = layout.add_variable("items".to_string(), StorageVariableType::DynamicArray).unwrap();
    assert_eq!(slot, 0);
    assert_eq!(layout.next_slot, 1);
    let variable = layout.get_variable("items").unwrap();
    assert_eq!(variable.slot_count, 1);
    assert_eq!(variable.base_slot, 0);
}

#[test]
fn test_add_mapping_variable() {
    let mut layout = DotStorageLayout::new([1u8; 20]);
    let slot = layout
        .add_variable(
            "balances".to_string(),
            StorageVariableType::Mapping { key_type: "address".to_string(), value_type: "uint256".to_string() },
        )
        .unwrap();
    assert_eq!(slot, 0);
    assert_eq!(layout.next_slot, 1);
    let variable = layout.get_variable("balances").unwrap();
    assert_eq!(variable.slot_count, 1);
}

#[test]
fn test_add_struct_variable() {
    let mut layout = DotStorageLayout::new([1u8; 20]);
    let fields = vec![
        StructField { name: "x".to_string(), field_type: "uint256".to_string(), offset: 0, size: 32 },
        StructField { name: "y".to_string(), field_type: "uint256".to_string(), offset: 32, size: 32 },
    ];
    let slot = layout.add_variable("point".to_string(), StorageVariableType::Struct { fields }).unwrap();
    assert_eq!(slot, 0);
    assert_eq!(layout.next_slot, 2);
    let variable = layout.get_variable("point").unwrap();
    assert_eq!(variable.slot_count, 2);
}

#[test]
fn test_generate_storage_key() {
    let layout = DotStorageLayout::new([1u8; 20]);
    let key = layout.generate_storage_key(5).unwrap();
    assert_eq!(key.len(), 52);
    assert_eq!(&key[0..20], &[1u8; 20]);
    assert_eq!(&key[48..52], &5u32.to_be_bytes());
}

#[test]
fn test_generate_mapping_key() {
    let layout = DotStorageLayout::new([1u8; 20]);
    let mapping_key = b"test_key";
    let key = layout.generate_mapping_key(0, mapping_key).unwrap();
    assert_eq!(key.len(), 52);
    assert_eq!(&key[0..20], &[1u8; 20]);
    let key2 = layout.generate_mapping_key(0, b"different_key").unwrap();
    assert_ne!(key, key2);
}

#[test]
fn test_generate_array_key() {
    let layout = DotStorageLayout::new([1u8; 20]);
    let key1 = layout.generate_array_key(0, 0).unwrap();
    let key2 = layout.generate_array_key(0, 1).unwrap();
    assert_ne!(key1, key2);
    assert_eq!(key1.len(), 52);
    assert_eq!(key2.len(), 52);
    assert_eq!(&key1[0..20], &[1u8; 20]);
    assert_eq!(&key2[0..20], &[1u8; 20]);
}

#[test]
fn test_storage_value_encoding() {
    let value = StorageValue::from_u256(42);
    let encoded = value.encode().unwrap();
    assert_eq!(encoded.len(), 32);

    let bool_value = StorageValue::Bool(true);
    let encoded_bool = bool_value.encode().unwrap();
    assert_eq!(encoded_bool.len(), 32);
    assert_eq!(encoded_bool[31], 1);

    let string_value = StorageValue::String("hello".to_string());
    let encoded_string = string_value.encode().unwrap();
    assert_eq!(encoded_string.len(), 32);
}

#[test]
fn test_storage_value_decoding() {
    let mut bytes = [0u8; 32];
    bytes[31] = 42;
    let decoded = StorageValue::decode(&bytes, "uint256").unwrap();
    assert_eq!(decoded.as_u256().unwrap()[31], 42);

    let mut bool_bytes = [0u8; 32];
    bool_bytes[31] = 1;
    let decoded_bool = StorageValue::decode(&bool_bytes, "bool").unwrap();
    assert_eq!(decoded_bool, StorageValue::Bool(true));

    let mut string_bytes = [0u8; 32];
    string_bytes[0..5].copy_from_slice(b"hello");
    let decoded_string = StorageValue::decode(&string_bytes, "string").unwrap();
    assert_eq!(decoded_string, StorageValue::String("hello".to_string()));
}

#[test]
fn test_slot_count_calculation() {
    let layout = DotStorageLayout::new([1u8; 20]);
    assert_eq!(layout.calculate_slot_count(&StorageVariableType::Simple), 1);
    assert_eq!(layout.calculate_slot_count(&StorageVariableType::DynamicArray), 1);
    assert_eq!(
        layout.calculate_slot_count(&StorageVariableType::Mapping {
            key_type: "address".to_string(),
            value_type: "uint256".to_string(),
        }),
        1
    );
    let fields = vec![
        StructField { name: "a".to_string(), field_type: "uint128".to_string(), offset: 0, size: 16 },
        StructField { name: "b".to_string(), field_type: "uint128".to_string(), offset: 16, size: 16 },
    ];
    assert_eq!(layout.calculate_slot_count(&StorageVariableType::Struct { fields }), 1);
}

#[test]
fn test_multiple_variables() {
    let mut layout = DotStorageLayout::new([1u8; 20]);
    let slot1 = layout.add_variable("var1".to_string(), StorageVariableType::Simple).unwrap();
    let slot2 = layout.add_variable("var2".to_string(), StorageVariableType::Simple).unwrap();
    let slot3 = layout.add_variable("var3".to_string(), StorageVariableType::DynamicArray).unwrap();
    assert_eq!(slot1, 0);
    assert_eq!(slot2, 1);
    assert_eq!(slot3, 2);
    assert_eq!(layout.next_slot, 3);
    assert!(layout.get_variable("var1").is_some());
    assert!(layout.get_variable("var2").is_some());
    assert!(layout.get_variable("var3").is_some());
    assert!(layout.get_variable("nonexistent").is_none());
}

#[test]
fn test_key_uniqueness() {
    let layout = DotStorageLayout::new([1u8; 20]);
    let key1 = layout.generate_storage_key(0).unwrap();
    let key2 = layout.generate_storage_key(1).unwrap();
    let key3 = layout.generate_mapping_key(0, b"test").unwrap();
    let key4 = layout.generate_array_key(0, 0).unwrap();
    assert_ne!(key1, key2);
    assert_ne!(key1, key3);
    assert_ne!(key1, key4);
    assert_ne!(key2, key3);
    assert_ne!(key2, key4);
    assert_ne!(key3, key4);
}

#[test]
fn layout_storage_key_exact_bytes() {
    let layout = DotStorageLayout::new([7u8; 20]);
    let key = layout.generate_storage_key(0x01020304).unwrap();
    let mut expected = vec![7u8; 20];
    expected.extend_from_slice(&[0u8; 28]);
    expected.extend_from_slice(&[1, 2, 3, 4]);
    assert_eq!(key, expected);
}

#[test]
fn layout_u256_roundtrip_and_unknown_type() {
    let v = StorageValue::from_u256(0x0102);
    let bytes = v.encode().unwrap();
    assert_eq!(bytes[30], 1);
    assert_eq!(bytes[31], 2);
    let back = StorageValue::decode(&bytes, "uint256").unwrap();
    assert_eq!(back, v);
    let raw = StorageValue::decode(&bytes, "bytes").unwrap();
    assert_eq!(raw, StorageValue::Bytes(bytes.clone()));
    let long = StorageValue::Bytes(vec![5u8; 33]);
    assert_eq!(long.encode().unwrap(), vec![5u8; 33]);
    assert!(matches!(StorageValue::decode(&[0u8; 31], "uint256"), Err(StorageLayoutError::EncodingError(_))));
    assert_eq!(StorageValue::decode(&[1u8], "nonsense"), Err(StorageLayoutError::InvalidVariableType));
}

#[test]
fn layout_slots_advance_by_slot_count() {
    let mut layout = DotStorageLayout::new([0u8; 20]);
    let fields = vec![
        StructField { name: "a".to_string(), field_type: "uint256".to_string(), offset: 0, size: 32 },
        StructField { name: "b".to_string(), field_type: "uint256".to_string(), offset: 32, size: 32 },
        StructField { name: "c".to_string(), field_type: "uint8".to_string(), offset: 64, size: 1 },
    ];
    let s0 = layout.add_variable("s".to_string(), StorageVariableType::Struct { fields }).unwrap();
    let s1 = layout.add_variable("t".to_string(), StorageVariableType::Simple).unwrap();
    assert_eq!(s0, 0);
    assert_eq!(s1, 3);
    assert_eq!(layout.next_slot, 4);
}
