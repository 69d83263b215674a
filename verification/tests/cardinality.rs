use dotdb_core::statistics::cardinality::{CardinalityError, HllRegisters};

#[test]
fn registers_need_a_precision_from_4_to_16() {
    assert!(matches!(HllRegisters::new(3), Err(CardinalityError::InvalidPrecision(3))));
    assert!(matches!(HllRegisters::new(17), Err(CardinalityError::InvalidPrecision(17))));
    let r = HllRegisters::new(4).unwrap();
    assert_eq!(r.precision(), 4);
    assert_eq!(r.buckets().len(), 16);
    assert_eq!(r.zero_count(), 16);
    assert_eq!(HllRegisters::new(16).unwrap().buckets().len(), 65536);
}

#[test]
fn registers_keep_the_greatest_rank_per_bucket() {
    let mut r = HllRegisters::new(4).unwrap();
    // Top four bits pick bucket 15; nothing below them, so the rank is 60.
    r.add_hash(0xF000_0000_0000_0000);
    assert_eq!(r.buckets()[15], 60);
    // Bucket 0, with the first bit below the bucket set: rank 1.
    r.add_hash(0x0800_0000_0000_0000);
    assert_eq!(r.buckets()[0], 1);
    // A smaller rank leaves the register alone.
    r.add_hash(0xF800_0000_0000_0000);
    assert_eq!(r.buckets()[15], 60);
    assert_eq!(r.zero_count(), 14);

    let mut other = HllRegisters::new(4).unwrap();
    other.add_hash(0x0080_0000_0000_0000);
    assert_eq!(other.buckets()[0], 5);
    r.merge(&other).unwrap();
    assert_eq!(r.buckets()[0], 5);
    assert_eq!(r.buckets()[15], 60);

    let wider = HllRegisters::new(5).unwrap();
    assert!(matches!(r.merge(&wider), Err(CardinalityError::InvalidPrecision(5))));

    r.reset();
    assert_eq!(r.zero_count(), 16);
    assert!(HllRegisters::from_registers(4, vec![0; 16]).is_some());
    assert!(HllRegisters::from_registers(4, vec![0; 15]).is_none());
}
