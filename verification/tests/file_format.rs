use dotdb_core::storage_engine::file_format::{
    FileHeader, Page, PageHeader, PageId, PageType, FORMAT_VERSION, HEADER_SIZE,
};
use dotdb_core::storage_engine::lib::{StorageError, VersionId};

#[test]
fn test_page_header_serialization() {
    let header = PageHeader {
        page_type: PageType::Node,
        version: VersionId(42),
        ref_count: 3,
        checksum: 0x12345678,
        data_size: 1000,
    };

    let mut buffer = vec![0; PageHeader::size()];
    assert!(header.serialize(&mut buffer).is_ok());

    let header2 = PageHeader::deserialize(&buffer).unwrap();

    assert_eq!(header.page_type as u8, header2.page_type as u8);
    assert_eq!(header.version.0, header2.version.0);
    assert_eq!(header.ref_count, header2.ref_count);
    assert_eq!(header.checksum, header2.checksum);
    assert_eq!(header.data_size, header2.data_size);
}

#[test]
fn test_file_header_serialization() {
    let header = FileHeader {
        magic: *b"DOTD",
        version: FORMAT_VERSION,
        page_size: 4096,
        total_pages: 100,
        current_version: VersionId(5),
        first_free_page: PageId(10),
    };

    let mut buffer = vec![0; HEADER_SIZE];
    assert!(header.serialize(&mut buffer).is_ok());

    let header2 = FileHeader::deserialize(&buffer).unwrap();

    assert_eq!(header.magic, header2.magic);
    assert_eq!(header.version, header2.version);
    assert_eq!(header.page_size, header2.page_size);
    assert_eq!(header.total_pages, header2.total_pages);
    assert_eq!(header.current_version.0, header2.current_version.0);
    assert_eq!(header.first_free_page.0, header2.first_free_page.0);
}

#[test]
fn test_page_checksum() {
    let mut page = Page::new(PageId(1), PageType::Node, VersionId(42), 4096);

    for i in 0..page.data.len() {
        page.data[i] = (i % 256) as u8;
    }

    page.update_checksum();
    let checksum = page.header.checksum;

    assert!(page.verify_checksum());

    page.data[100] = 0xFF;
    assert!(!page.verify_checksum());

    page.update_checksum();
    assert_ne!(checksum, page.header.checksum);
    assert!(page.verify_checksum());
}

#[test]
fn test_checksum_serialization() {
    let mut page = Page::new(PageId(1), PageType::Node, VersionId(42), 4096);

    let test_data = b"Test checksum serialization";
    page.data[0..test_data.len()].copy_from_slice(test_data);
    page.header.data_size = test_data.len() as u16;

    page.update_checksum();
    let original_checksum = page.header.checksum;

    let page_size = 4096;
    let mut buffer = vec![0; page_size];

    let mut head = vec![0u8; PageHeader::size()];
    page.header.serialize(&mut head).unwrap();
    buffer[0..PageHeader::size()].copy_from_slice(&head);

    if page.header.data_size > 0 {
        let data_size = page.header.data_size as usize;
        buffer[PageHeader::size()..PageHeader::size() + data_size].copy_from_slice(&page.data[0..data_size]);
    }

    let header = PageHeader::deserialize(&buffer[0..PageHeader::size()]).unwrap();
    let data = buffer[PageHeader::size()..PageHeader::size() + header.data_size as usize].to_vec();
    let deserialized_page = Page { id: PageId(1), header, data };

    assert_eq!(original_checksum, deserialized_page.header.checksum, "Checksum changed during serialization");
    assert!(deserialized_page.verify_checksum(), "Deserialized page failed checksum verification");
}

#[test]
fn file_header_rejects_bad_magic_version_and_short_buffers() {
    let mut buffer = vec![0u8; HEADER_SIZE];
    FileHeader::new(4096).serialize(&mut buffer).unwrap();
    assert_eq!(&buffer[0..4], b"DOTD");
    let ok = FileHeader::deserialize(&buffer).unwrap();
    assert_eq!(ok.total_pages, 1);

    let mut bad_magic = buffer.clone();
    bad_magic[0] = b'X';
    assert!(matches!(FileHeader::deserialize(&bad_magic), Err(StorageError::Corruption(_))));

    let mut future = buffer.clone();
    future[4] = 2;
    assert!(matches!(FileHeader::deserialize(&future), Err(StorageError::Corruption(_))));

    assert!(matches!(FileHeader::deserialize(&buffer[0..100]), Err(StorageError::Io(_))));
    let mut small = vec![0u8; 10];
    assert!(FileHeader::new(4096).serialize(&mut small).is_err());
    assert!(PageHeader::new(PageType::Data, VersionId(1)).serialize(&mut small).is_err());
}

#[test]
fn page_header_bytes_are_little_endian() {
    let header = PageHeader {
        page_type: PageType::Free,
        version: VersionId(0x0102),
        ref_count: 7,
        checksum: 0xAABBCCDD,
        data_size: 0x0304,
    };
    let bytes = header.to_bytes();
    assert_eq!(bytes.len(), PageHeader::size());
    assert_eq!(bytes[0], header.page_type.to_u8());
    assert_eq!(&bytes[1..9], &0x0102u64.to_le_bytes());
    assert_eq!(&bytes[9..13], &7u32.to_le_bytes());
    assert_eq!(&bytes[13..17], &0xAABBCCDDu32.to_le_bytes());
    assert_eq!(&bytes[17..19], &0x0304u16.to_le_bytes());
    assert_eq!(PageType::from(header.page_type.to_u8()), PageType::Free);
}

#[test]
fn page_checksum_matches_crc32_of_data() {
    let mut page = Page::new(PageId(3), PageType::Data, VersionId(1), 64);
    page.data[0] = 1;
    page.data[1] = 2;
    let mut input = vec![page.header.page_type.to_u8()];
    input.extend_from_slice(&1u64.to_le_bytes());
    input.extend_from_slice(&page.header.ref_count.to_le_bytes());
    input.extend_from_slice(&32u16.to_le_bytes());
    input.extend_from_slice(&page.data);
    let expected = crc32fast::hash(&input);
    assert_eq!(page.calculate_checksum(), expected);
}
