use dotdb_core::storage_engine::file_format::{Page, PageHeader, PageId, PageType};
use dotdb_core::storage_engine::lib::VersionId;
use dotdb_core::storage_engine::wal::{
    parse_records, LogEntry, LogSequenceNumber, RecordHeader, RecordType, WalState, RECORD_HEADER_SIZE,
};

#[test]
fn test_log_entry() {
    let lsn = LogSequenceNumber { file_id: 1, offset: 0 };
    let txn_id = 42;

    let entry = LogEntry::begin_transaction(lsn, txn_id);

    assert_eq!(entry.record_type(), RecordType::Begin);
    assert_eq!(entry.lsn().file_id, 1);
    assert_eq!(entry.transaction_id(), txn_id);

    let page_id = PageId(10);
    let page = Page { id: page_id, header: PageHeader::new(PageType::Data, VersionId(1)), data: vec![1, 2, 3, 4, 5] };

    let entry = LogEntry::write_page(LogSequenceNumber { file_id: 2, offset: 0 }, txn_id, &page);

    assert_eq!(entry.record_type(), RecordType::Write);
    assert_eq!(entry.lsn().file_id, 2);
    assert_eq!(entry.transaction_id(), txn_id);
    assert_eq!(entry.page_id(), page_id);
    assert!(entry.verify_checksum());
}

#[test]
fn test_log_record_serialization() {
    let lsn = LogSequenceNumber { file_id: 1, offset: 42 };
    let mut page = Page { id: PageId(123), header: PageHeader::new(PageType::Data, VersionId(5)), data: vec![1, 2, 3, 4, 5] };
    page.header.data_size = 5;
    page.update_checksum();
    let entry = LogEntry::write_page(lsn, 99, &page);
    let header_bytes = entry.header.serialize();
    let reconstructed = LogEntry { header: RecordHeader::deserialize(&header_bytes).unwrap(), data: entry.data.clone() };
    assert_eq!(entry.header.record_type, reconstructed.header.record_type);
    assert_eq!(entry.header.lsn.file_id, reconstructed.header.lsn.file_id);
    assert_eq!(entry.header.lsn.offset, reconstructed.header.lsn.offset);
    assert_eq!(entry.header.transaction_id, reconstructed.header.transaction_id);
    assert_eq!(entry.header.page_id, reconstructed.header.page_id);
    assert_eq!(entry.header.data_length, reconstructed.header.data_length);
    assert_eq!(entry.data, reconstructed.data);
}

#[test]
fn test_log_record_checksum_validation() {
    let lsn = LogSequenceNumber { file_id: 1, offset: 42 };
    let mut page = Page { id: PageId(123), header: PageHeader::new(PageType::Data, VersionId(5)), data: vec![1, 2, 3, 4, 5] };
    page.header.data_size = 5;
    page.update_checksum();
    let mut entry = LogEntry::write_page(lsn, 99, &page);
    entry.header.checksum = entry.calculate_checksum();
    assert!(entry.is_valid());
    entry.header.checksum = 0;
    assert!(!entry.is_valid());
}

#[test]
fn wal_records_parse_back_in_order() {
    let page = Page { id: PageId(7), header: PageHeader::new(PageType::Node, VersionId(3)), data: vec![9, 8, 7] };
    let entries = vec![
        LogEntry::begin_transaction(LogSequenceNumber { file_id: 0, offset: 0 }, 5),
        LogEntry::write_page(LogSequenceNumber { file_id: 0, offset: 37 }, 5, &page),
        LogEntry::commit_transaction(LogSequenceNumber { file_id: 0, offset: 100 }, 5),
        LogEntry::checkpoint(LogSequenceNumber { file_id: 0, offset: 137 }, VersionId(4)),
    ];
    let mut bytes = Vec::new();
    for e in entries.iter() {
        bytes.extend_from_slice(&e.to_bytes());
    }
    let parsed = parse_records(&bytes).unwrap();
    assert_eq!(parsed.len(), entries.len());
    for (a, b) in parsed.iter().zip(entries.iter()) {
        assert_eq!(a.header, b.header);
        assert_eq!(a.data, b.data);
    }
    assert!(parsed[1].is_valid());
    assert_eq!(parsed[1].data, vec![PageType::Node.to_u8(), 3, 0, 0, 0, 0, 0, 0, 0, 9, 8, 7]);

    let mut torn = bytes.clone();
    torn.truncate(bytes.len() - 10);
    assert_eq!(parse_records(&torn).unwrap().len(), entries.len() - 1);

    let mut bad = bytes.clone();
    bad[0] = 200;
    assert!(parse_records(&bad).is_none());
}

#[test]
fn wal_record_header_layout() {
    let h = RecordHeader::new(RecordType::Abort, LogSequenceNumber { file_id: 3, offset: 4 }, 6, PageId(8));
    let bytes = h.serialize();
    assert_eq!(bytes.len(), RECORD_HEADER_SIZE);
    assert_eq!(bytes[0], RecordType::Abort.to_u8());
    assert_eq!(RecordType::from_byte(bytes[0]), Some(RecordType::Abort));
    assert_eq!(RecordType::from_byte(99), None);
    assert_eq!(RecordHeader::deserialize(&bytes).unwrap(), h);
    assert!(RecordHeader::deserialize(&bytes[0..10]).is_err());
}

#[test]
fn wal_state_plans_appends_and_rotates() {
    let mut state = WalState::new(100, 0);
    let e = LogEntry::begin_transaction(LogSequenceNumber::default(), 11);
    let p1 = state.plan_append(&e);
    assert!(!p1.rotate);
    assert_eq!(p1.lsn, LogSequenceNumber { file_id: 0, offset: 0 });
    assert_eq!(p1.bytes.len(), RECORD_HEADER_SIZE);
    let p2 = state.plan_append(&e);
    assert!(!p2.rotate);
    assert_eq!(p2.lsn.offset, 37);
    let p3 = state.plan_append(&e);
    assert!(p3.rotate);
    assert_eq!(state.current_file_id, 1);
    assert_eq!(state.current_size, 37);
    assert_eq!(state.max_transaction_id(), 11);
    let parsed = parse_records(&p3.bytes).unwrap();
    assert!(parsed[0].is_valid());
    assert_eq!(parsed[0].header.lsn, p3.lsn);
}
