//! Deterministic mapping of a contract's storage variables to trie keys:
//! every key is the contract address followed by a 32-byte slot key, for
//! plain slots, mapping entries and array elements.
use vstd::prelude::*;

use std::collections::HashMap;

use crate::assoc_list::AssocList;
use crate::state::mpt::lib::{Key, Value, keccak, keccak256};

verus! {

/// Contract address type (20 bytes).
pub type DotAddress = [u8; 20];

/// Storage slot identifier (32 bytes).
pub type StorageSlot = [u8; 32];

/// Storage value type that can hold various data types
#[derive(Debug, PartialEq, Eq)]
pub enum StorageValue {
    /// Raw bytes for any data type
    Bytes(Vec<u8>),
    /// 256-bit unsigned integer
    U256([u8; 32]),
    /// Boolean value
    Bool(bool),
    /// String value
    String(String),
    /// Array of storage values
    Array(Vec<StorageValue>),
    /// Mapping structure
    Mapping(HashMap<String, StorageValue>),
}

/// Storage variable types supported by the contract storage layout
#[derive(Debug, Clone, PartialEq, Eq)]
pub enum StorageVariableType {
    /// Simple value stored in a single slot
    Simple,
    /// Dynamic array with length stored separately
    DynamicArray,
    /// Mapping with keccak256-based key derivation
    Mapping { key_type: String, value_type: String },
    /// Struct with multiple fields
    Struct { fields: Vec<StructField> },
}

/// Structure field definition
#[derive(Debug, Clone, PartialEq, Eq)]
pub struct StructField {
    pub name: String,
    pub field_type: String,
    pub offset: u32,
    pub size: u32,
}

/// Storage variable definition
#[derive(Debug, Clone)]
pub struct StorageVariable {
    /// Variable name
    pub name: String,
    /// Base storage slot
    pub base_slot: u32,
    /// Variable type information
    pub var_type: StorageVariableType,
    /// Size in slots
    pub slot_count: u32,
}

/// Errors that can occur during storage layout operations
#[derive(Debug, Clone, PartialEq, Eq)]
pub enum StorageLayoutError {
    /// Invalid contract address
    InvalidAddress,
    /// Storage slot collision
    SlotCollision,
    /// Invalid variable type
    InvalidVariableType,
    /// Encoding error
    EncodingError(String),
    /// Key generation error
    KeyGenerationError(String),
    /// Value serialization error
    SerializationError(String),
}

/// Contract storage layout definition
pub struct DotStorageLayout {
    /// Contract address this layout belongs to
    pub dot_address: DotAddress,
    /// Storage variables by name
    pub variables: AssocList<String, StorageVariable>,
    /// Next available slot for new variables
    pub next_slot: u32,
    /// Storage optimization enabled
    pub packed_storage: bool,
}

/// Big-endian bytes of a 32-bit number.
pub open spec fn be32(x: u32) -> Seq<u8> {
    seq![(x >> 24u32) as u8, (x >> 16u32) as u8, (x >> 8u32) as u8, x as u8]
}

/// Big-endian bytes of a 64-bit number.
pub open spec fn be64(x: u64) -> Seq<u8> {
    seq![
        (x >> 56u64) as u8,
        (x >> 48u64) as u8,
        (x >> 40u64) as u8,
        (x >> 32u64) as u8,
        (x >> 24u64) as u8,
        (x >> 16u64) as u8,
        (x >> 8u64) as u8,
        x as u8,
    ]
}

/// The 64-bit number of eight big-endian bytes.
pub open spec fn be64_value(s: Seq<u8>) -> u64 {
    ((s[0] as u64) << 56u64) | ((s[1] as u64) << 48u64) | ((s[2] as u64) << 40u64) | ((s[3] as u64) << 32u64)
        | ((s[4] as u64) << 24u64) | ((s[5] as u64) << 16u64) | ((s[6] as u64) << 8u64) | (s[7] as u64)
}

/// `n` zero bytes.
pub open spec fn zeros(n: nat) -> Seq<u8> {
    Seq::new(n, |i: int| 0u8)
}

/// Total size of struct fields.
pub open spec fn fields_size(f: Seq<StructField>) -> int
    decreases f.len(),
{
    if f.len() == 0 {
        0
    } else {
        fields_size(f.drop_last()) + f.last().size
    }
}

/// Slots taken by a variable of type `t`: one for plain values, arrays
/// (their length) and mappings (a marker); for a struct, packed storage
/// takes its total size rounded up to whole 32-byte slots, unpacked storage
/// one slot per field.
pub open spec fn slot_count_for(packed: bool, t: StorageVariableType) -> int {
    match t {
        StorageVariableType::Simple => 1,
        StorageVariableType::DynamicArray => 1,
        StorageVariableType::Mapping { .. } => 1,
        StorageVariableType::Struct { fields } => if packed {
            (fields_size(fields@) + 31) / 32
        } else {
            (fields@.len() as u32) as int
        },
    }
}

/// Whether the slot count of type `t` can be computed in 32 bits.
pub open spec fn slot_count_fits(packed: bool, t: StorageVariableType) -> bool {
    match t {
        StorageVariableType::Struct { fields } => packed ==> fields_size(fields@) <= u32::MAX,
        _ => true,
    }
}

/// The trie key of slot `slot` of contract `a`.
pub open spec fn storage_key(a: Seq<u8>, slot: u32) -> Seq<u8> {
    a + zeros(28) + be32(slot)
}

/// The trie key of entry `k` of the mapping at `base_slot` of contract `a`.
pub open spec fn mapping_entry_key(a: Seq<u8>, base_slot: u32, k: Seq<u8>) -> Seq<u8> {
    a + keccak(k + be32(base_slot))
}

/// The trie key of element `index` of the array at `base_slot` of contract
/// `a`: the hash of the base slot with `index` added (wrapping) to its last
/// eight bytes.
pub open spec fn array_key(a: Seq<u8>, base_slot: u32, index: u64) -> Seq<u8> {
    let h = keccak(be32(base_slot));
    a + h.subrange(0, 24) + be64(((be64_value(h.subrange(24, 32)) + index) % 0x1_0000_0000_0000_0000) as u64)
}

/// Append the big-endian bytes of a 32-bit number.
fn push_be32(v: &mut Vec<u8>, x: u32)
    ensures
        final(v)@ == old(v)@ + be32(x),
{
    v.push((x >> 24u32) as u8);
    v.push((x >> 16u32) as u8);
    v.push((x >> 8u32) as u8);
    v.push(x as u8);
    assert(v@ =~= old(v)@ + be32(x));
}

/// Append the big-endian bytes of a 64-bit number.
fn push_be64(v: &mut Vec<u8>, x: u64)
    ensures
        final(v)@ == old(v)@ + be64(x),
{
    v.push((x >> 56u64) as u8);
    v.push((x >> 48u64) as u8);
    v.push((x >> 40u64) as u8);
    v.push((x >> 32u64) as u8);
    v.push((x >> 24u64) as u8);
    v.push((x >> 16u64) as u8);
    v.push((x >> 8u64) as u8);
    v.push(x as u8);
    assert(v@ =~= old(v)@ + be64(x));
}

/// Append a byte slice.
fn push_all(v: &mut Vec<u8>, s: &[u8])
    ensures
        final(v)@ == old(v)@ + s@,
{
    let mut i: usize = 0;
    while i < s.len()
        invariant
            i <= s@.len(),
            v@ == old(v)@ + s@.take(i as int),
        decreases s@.len() - i,
    {
        v.push(s[i]);
        assert(s@.take(i + 1) =~= s@.take(i as int).push(s@[i as int]));
        assert(v@ =~= old(v)@ + s@.take(i + 1));
        i = i + 1;
    }
    assert(s@.take(s@.len() as int) =~= s@);
}

/// Append `n` zero bytes.
fn push_zero_bytes(v: &mut Vec<u8>, n: usize)
    ensures
        final(v)@ == old(v)@ + zeros(n as nat),
{
    let mut i: usize = 0;
    while i < n
        invariant
            i <= n,
            v@ == old(v)@ + zeros(i as nat),
        decreases n - i,
    {
        v.push(0);
        assert(v@ =~= old(v)@ + zeros((i + 1) as nat));
        i = i + 1;
    }
}

impl DotStorageLayout {
    /// Create a new storage layout for a contract
    pub fn new(dot_address: DotAddress) -> (r: Self)
        ensures
            r.dot_address == dot_address,
            r.variables.wf(),
            r.variables.view_map() == Map::<Seq<char>, StorageVariable>::empty(),
            r.next_slot == 0,
            r.packed_storage,
    {
        Self { dot_address, variables: AssocList::new(), next_slot: 0, packed_storage: true }
    }

    /// Calculate the number of slots needed for a variable type
    pub fn calculate_slot_count(&self, var_type: &StorageVariableType) -> (r: u32)
        requires
            slot_count_fits(self.packed_storage, *var_type),
        ensures
            r == slot_count_for(self.packed_storage, *var_type),
    {
        match var_type {
            StorageVariableType::Simple => 1,
            StorageVariableType::DynamicArray => 1,
            StorageVariableType::Mapping { .. } => 1,
            StorageVariableType::Struct { fields } => {
                if self.packed_storage {
                    let mut total: u32 = 0;
                    let mut i: usize = 0;
                    proof {
                        lemma_fields_size_prefix(fields@);
                    }
                    while i < fields.len()
                        invariant
                            i <= fields@.len(),
                            fields_size(fields@) <= u32::MAX,
                            forall|k: int| 0 <= k <= fields@.len() ==> fields_size(#[trigger] fields@.take(k)) <= fields_size(fields@),
                            total == fields_size(fields@.take(i as int)),
                        decreases fields@.len() - i,
                    {
                        assert(fields@.take(i + 1).drop_last() =~= fields@.take(i as int));
                        assert(fields@.take(i + 1).last() == fields@[i as int]);
                        total = total + fields[i].size;
                        i = i + 1;
                    }
                    assert(fields@.take(fields@.len() as int) =~= fields@);
                    let q = total / 32;
                    if total % 32 != 0 {
                        q + 1
                    } else {
                        q
                    }
                } else {
                    fields.len() as u32
                }
            },
        }
    }

    /// Add a storage variable to the layout at the next free slot; a
    /// variable of the same name is replaced.
    pub fn add_variable(&mut self, name: String, var_type: StorageVariableType) -> (r: Result<u32, StorageLayoutError>)
        requires
            old(self).variables.wf(),
            slot_count_fits(old(self).packed_storage, var_type),
            old(self).next_slot + slot_count_for(old(self).packed_storage, var_type) <= u32::MAX,
        ensures
            final(self).variables.wf(),
            r == Ok::<u32, StorageLayoutError>(old(self).next_slot),
            final(self).next_slot == old(self).next_slot + slot_count_for(old(self).packed_storage, var_type),
            final(self).variables.view_map() == old(self).variables.view_map().insert(
                name@,
                StorageVariable {
                    name,
                    base_slot: old(self).next_slot,
                    var_type,
                    slot_count: slot_count_for(old(self).packed_storage, var_type) as u32,
                },
            ),
            final(self).dot_address == old(self).dot_address,
            final(self).packed_storage == old(self).packed_storage,
    {
        let slot_count = self.calculate_slot_count(&var_type);
        let base_slot = self.next_slot;
        let key = name.clone();
        let variable = StorageVariable { name, base_slot, var_type, slot_count };
        self.variables.insert(key, variable);
        self.next_slot = self.next_slot + slot_count;
        Ok(base_slot)
    }

    /// Generate MPT key for a storage slot: the address, then the slot as a
    /// 32-byte big-endian number.
    pub fn generate_storage_key(&self, slot: u32) -> (r: Result<Key, StorageLayoutError>)
        ensures
            r is Ok,
            r->Ok_0@ == storage_key(self.dot_address@, slot),
    {
        let mut key_bytes: Vec<u8> = Vec::new();
        push_all(&mut key_bytes, &self.dot_address);
        push_zero_bytes(&mut key_bytes, 28);
        push_be32(&mut key_bytes, slot);
        Ok(key_bytes)
    }

    /// Generate MPT key for a mapping entry: the address, then
    /// keccak256(mapping_key || base_slot).
    pub fn generate_mapping_key(&self, base_slot: u32, mapping_key: &[u8]) -> (r: Result<Key, StorageLayoutError>)
        ensures
            r is Ok,
            r->Ok_0@ == mapping_entry_key(self.dot_address@, base_slot, mapping_key@),
    {
        let mut data: Vec<u8> = Vec::new();
        push_all(&mut data, mapping_key);
        push_be32(&mut data, base_slot);
        let hash = keccak256(data.as_slice());
        let mut key_bytes: Vec<u8> = Vec::new();
        push_all(&mut key_bytes, &self.dot_address);
        push_all(&mut key_bytes, &hash);
        Ok(key_bytes)
    }

    /// Generate MPT key for an array element: the address, then the hash of
    /// the base slot with the index added to its last eight bytes.
    pub fn generate_array_key(&self, base_slot: u32, index: u64) -> (r: Result<Key, StorageLayoutError>)
        ensures
            r is Ok,
            r->Ok_0@ == array_key(self.dot_address@, base_slot, index),
    {
        let mut data: Vec<u8> = Vec::new();
        push_be32(&mut data, base_slot);
        assert(data@ =~= be32(base_slot));
        let h = keccak256(data.as_slice());
        let slot_as_u64: u64 = ((h[24] as u64) << 56u64) | ((h[25] as u64) << 48u64) | ((h[26] as u64) << 40u64) | ((
        h[27] as u64) << 32u64) | ((h[28] as u64) << 24u64) | ((h[29] as u64) << 16u64) | ((h[30] as u64) << 8u64)
            | (h[31] as u64);
        assert(slot_as_u64 == be64_value(h@.subrange(24, 32)));
        let final_slot = slot_as_u64.wrapping_add(index);
        let mut key_bytes: Vec<u8> = Vec::new();
        push_all(&mut key_bytes, &self.dot_address);
        let mut i: usize = 0;
        while i < 24
            invariant
                i <= 24,
                key_bytes@ == self.dot_address@ + h@.subrange(0, i as int),
            decreases 24 - i,
        {
            key_bytes.push(h[i]);
            assert(key_bytes@ =~= self.dot_address@ + h@.subrange(0, i + 1));
            i = i + 1;
        }
        push_be64(&mut key_bytes, final_slot);
        Ok(key_bytes)
    }

    /// Get storage variable information by name
    pub fn get_variable(&self, name: &str) -> (r: Option<&StorageVariable>)
        requires
            self.variables.wf(),
        ensures
            r is Some <==> self.variables.view_map().contains_key(name@),
            r is Some ==> *r->0 == self.variables.view_map()[name@],
    {
        let key = name.to_owned();
        self.variables.get(&key)
    }

    /// Get all variables in the layout
    pub fn get_variables(&self) -> (r: &AssocList<String, StorageVariable>)
        ensures
            *r == self.variables,
    {
        &self.variables
    }
}

proof fn lemma_fields_size_prefix(f: Seq<StructField>)
    ensures
        forall|k: int| 0 <= k <= f.len() ==> fields_size(#[trigger] f.take(k)) <= fields_size(f),
    decreases f.len(),
{
    if f.len() > 0 {
        lemma_fields_size_prefix(f.drop_last());
        assert forall|k: int| 0 <= k <= f.len() implies fields_size(#[trigger] f.take(k)) <= fields_size(f) by {
            if k == f.len() {
                assert(f.take(k) =~= f);
            } else {
                assert(f.take(k) =~= f.drop_last().take(k));
            }
        }
    }
}

/// The text of a byte sequence with invalid UTF-8 replaced, as
/// `String::from_utf8_lossy` reads it.
pub uninterp spec fn utf8_lossy(bytes: Seq<u8>) -> Seq<char>;

/// `String::from_utf8_lossy` (made owned): its text is named by `utf8_lossy`.
#[verifier::external_body]
fn text_from_utf8_lossy(bytes: &[u8]) -> (r: String)
    ensures
        r@ == utf8_lossy(bytes@),
{
    String::from_utf8_lossy(bytes).to_string()
}

/// The scalar encoding of a value: raw bytes as they are, a 256-bit number
/// as its 32 bytes, a boolean as 32 bytes ending in 1 or 0, a string as its
/// UTF-8 bytes padded with zeros to 32; arrays and mappings have none here.
pub open spec fn scalar_encoding(v: StorageValue) -> Option<Seq<u8>> {
    match v {
        StorageValue::Bytes(d) => Some(d@),
        StorageValue::U256(a) => Some(a@),
        StorageValue::Bool(b) => Some(zeros(31).push(if b { 1u8 } else { 0u8 })),
        StorageValue::String(s) => {
            let bs = vstd::utf8::encode_utf8(s@);
            Some(if bs.len() < 32 { bs + zeros((32 - bs.len()) as nat) } else { bs })
        },
        _ => None,
    }
}

/// Index just past the last non-zero byte (0 when all are zero).
pub open spec fn trimmed_len(b: Seq<u8>) -> int
    decreases b.len(),
{
    if b.len() == 0 {
        0
    } else if b.last() != 0 {
        b.len() as int
    } else {
        trimmed_len(b.drop_last())
    }
}

/// The type names that `decode` knows are pairwise different.
proof fn lemma_type_names_distinct()
    ensures
        "bytes"@ != "uint256"@,
        "bytes"@ != "bool"@,
        "bytes"@ != "string"@,
        "bytes"@ != "array"@,
        "bytes"@ != "mapping"@,
        "uint256"@ != "bool"@,
        "uint256"@ != "string"@,
        "uint256"@ != "array"@,
        "uint256"@ != "mapping"@,
        "bool"@ != "string"@,
        "bool"@ != "array"@,
        "bool"@ != "mapping"@,
        "string"@ != "array"@,
        "string"@ != "mapping"@,
        "array"@ != "mapping"@,
{
    reveal_strlit("bytes");
    reveal_strlit("uint256");
    reveal_strlit("bool");
    reveal_strlit("string");
    reveal_strlit("array");
    reveal_strlit("mapping");
    assert("bytes"@.len() == 5 && "uint256"@.len() == 7 && "bool"@.len() == 4);
    assert("string"@.len() == 6 && "array"@.len() == 5 && "mapping"@.len() == 7);
    assert("bytes"@[0] != "array"@[0]);
    assert("uint256"@[0] != "mapping"@[0]);
}

impl StorageValue {
    /// Encode storage value to bytes for MPT storage. Arrays and mappings are
    /// serialized as JSON, which only the application layer can do: here they
    /// give a serialization error.
    pub fn encode(&self) -> (r: Result<Value, StorageLayoutError>)
        ensures
            scalar_encoding(*self) is Some ==> r is Ok && r->Ok_0@ == scalar_encoding(*self)->0,
            scalar_encoding(*self) is None ==> r matches Err(StorageLayoutError::SerializationError(_)),
    {
        match self {
            StorageValue::Bytes(data) => {
                let r = data.clone();
                assert(r@ =~= data@);
                Ok(r)
            },
            StorageValue::U256(data) => {
                let mut r: Vec<u8> = Vec::new();
                push_all(&mut r, data);
                assert(r@ =~= data@);
                Ok(r)
            },
            StorageValue::Bool(value) => {
                let mut r: Vec<u8> = Vec::new();
                push_zero_bytes(&mut r, 31);
                r.push(if *value { 1u8 } else { 0u8 });
                assert(r@ =~= zeros(31).push(if *value { 1u8 } else { 0u8 }));
                Ok(r)
            },
            StorageValue::String(s) => {
                let bytes = s.as_str().as_bytes();
                let mut r: Vec<u8> = Vec::new();
                push_all(&mut r, bytes);
                if bytes.len() < 32 {
                    push_zero_bytes(&mut r, 32 - bytes.len());
                }
                assert(r@ =~= scalar_encoding(*self)->0);
                Ok(r)
            },
            _ => Err(StorageLayoutError::SerializationError("composite values are serialized as JSON".to_string())),
        }
    }

    /// Decode storage value from bytes for a type name: "bytes", "uint256"
    /// (exactly 32 bytes), "bool" (last byte non-zero), "string" (UTF-8 up to
    /// the last non-zero byte); "array" and "mapping" are JSON, read by the
    /// application layer; other names are invalid.
    pub fn decode(bytes: &[u8], expected_type: &str) -> (r: Result<Self, StorageLayoutError>)
        ensures
            expected_type@ == "bytes"@ ==> (r matches Ok(StorageValue::Bytes(d)) && d@ == bytes@),
            expected_type@ == "uint256"@ ==> if bytes@.len() == 32 {
                r matches Ok(StorageValue::U256(a)) && a@ == bytes@
            } else {
                r matches Err(StorageLayoutError::EncodingError(_))
            },
            expected_type@ == "bool"@ ==> r == Ok::<StorageValue, StorageLayoutError>(
                StorageValue::Bool(bytes@.len() > 0 && bytes@.last() != 0),
            ),
            expected_type@ == "string"@ ==> (r matches Ok(StorageValue::String(s)) && s@ == utf8_lossy(
                bytes@.take(trimmed_len(bytes@)),
            )),
            expected_type@ == "array"@ || expected_type@ == "mapping"@ ==> r matches Err(
                StorageLayoutError::SerializationError(_),
            ),
            !(expected_type@ == "bytes"@ || expected_type@ == "uint256"@ || expected_type@ == "bool"@
                || expected_type@ == "string"@ || expected_type@ == "array"@ || expected_type@ == "mapping"@)
                ==> r == Err::<StorageValue, StorageLayoutError>(StorageLayoutError::InvalidVariableType),
    {
        proof {
            lemma_type_names_distinct();
        }
        let t = expected_type.to_owned();
        if t == "bytes".to_owned() {
            let mut d: Vec<u8> = Vec::new();
            push_all(&mut d, bytes);
            assert(d@ =~= bytes@);
            Ok(StorageValue::Bytes(d))
        } else if t == "uint256".to_owned() {
            if bytes.len() != 32 {
                return Err(StorageLayoutError::EncodingError("U256 must be exactly 32 bytes".to_string()));
            }
            let mut array = [0u8; 32];
            let mut i: usize = 0;
            while i < 32
                invariant
                    i <= 32,
                    bytes@.len() == 32,
                    forall|k: int| 0 <= k < i ==> array@[k] == bytes@[k],
                decreases 32 - i,
            {
                array.set(i, bytes[i]);
                i = i + 1;
            }
            assert(array@ =~= bytes@);
            Ok(StorageValue::U256(array))
        } else if t == "bool".to_owned() {
            let value = bytes.len() > 0 && bytes[bytes.len() - 1] != 0;
            Ok(StorageValue::Bool(value))
        } else if t == "string".to_owned() {
            let mut end: usize = bytes.len();
            assert(bytes@.take(bytes@.len() as int) =~= bytes@);
            while end > 0 && bytes[end - 1] == 0
                invariant
                    end <= bytes@.len(),
                    trimmed_len(bytes@) == trimmed_len(bytes@.take(end as int)),
                decreases end,
            {
                assert(bytes@.take(end as int).drop_last() =~= bytes@.take(end - 1));
                end = end - 1;
            }
            proof {
                if end > 0 {
                    assert(bytes@.take(end as int).last() == bytes@[end - 1]);
                }
            }
            let trimmed = &bytes[0..end];
            assert(trimmed@ =~= bytes@.take(end as int));
            Ok(StorageValue::String(text_from_utf8_lossy(trimmed)))
        } else if t == "array".to_owned() || t == "mapping".to_owned() {
            Err(StorageLayoutError::SerializationError("composite values are read as JSON".to_string()))
        } else {
            Err(StorageLayoutError::InvalidVariableType)
        }
    }

    /// Create a U256 value from a number: 24 zero bytes, then its big-endian bytes
    pub fn from_u256(value: u64) -> (r: Self)
        ensures
            r matches StorageValue::U256(a) && a@ == zeros(24) + be64(value),
    {
        let mut v: Vec<u8> = Vec::new();
        push_zero_bytes(&mut v, 24);
        push_be64(&mut v, value);
        let mut bytes = [0u8; 32];
        let mut i: usize = 0;
        while i < 32
            invariant
                i <= 32,
                v@.len() == 32,
                forall|k: int| 0 <= k < i ==> bytes@[k] == v@[k],
            decreases 32 - i,
        {
            bytes.set(i, v[i]);
            i = i + 1;
        }
        assert(bytes@ =~= zeros(24) + be64(value));
        StorageValue::U256(bytes)
    }

    /// Convert to U256 if possible
    pub fn as_u256(&self) -> (r: Option<[u8; 32]>)
        ensures
            *self matches StorageValue::U256(a) ==> r == Some(a),
            !(*self matches StorageValue::U256(_)) ==> r is None,
    {
        match self {
            StorageValue::U256(data) => Some(*data),
            _ => None,
        }
    }
}

} // verus!
