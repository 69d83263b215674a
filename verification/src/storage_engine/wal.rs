//! Write-ahead log records: their byte format, checksums, parsing of a log
//! file's contents, and the bookkeeping of appends and file rotation.
use vstd::prelude::*;
use vstd::bytes::*;

use crate::storage_engine::file_format::{
    Page, PageId, PageType, page_type_byte, push_bytes, push_u32_le, push_u64_le, read_u32_le, read_u64_le,
    copy_range,
};
use crate::storage_engine::lib::{StorageError, StorageResult, VersionId, crc32, calculate_checksum, invalid_input_kind, io_error};

verus! {

/// Size of a record header in bytes.
pub const RECORD_HEADER_SIZE: usize = 37;

/// Types of WAL records, numbered 0 to 7 in declaration order.
#[derive(Debug, Clone, Copy, PartialEq, Eq, Structural)]
pub enum RecordType {
    /// Begin transaction
    Begin,
    /// Commit transaction
    Commit,
    /// Abort transaction
    Abort,
    /// Page write
    Write,
    /// Checkpoint
    Checkpoint,
    /// Page allocation
    Allocate,
    /// Page free
    Free,
    /// Page read (for higher isolation levels)
    Read,
}

/// The byte that stands for a record type in the log.
pub open spec fn record_type_byte(t: RecordType) -> u8 {
    match t {
        RecordType::Begin => 0,
        RecordType::Commit => 1,
        RecordType::Abort => 2,
        RecordType::Write => 3,
        RecordType::Checkpoint => 4,
        RecordType::Allocate => 5,
        RecordType::Free => 6,
        RecordType::Read => 7,
    }
}

/// The record type a byte below 8 stands for.
pub open spec fn record_type_of_byte(b: u8) -> RecordType
    recommends
        b < 8,
{
    if b == 0 {
        RecordType::Begin
    } else if b == 1 {
        RecordType::Commit
    } else if b == 2 {
        RecordType::Abort
    } else if b == 3 {
        RecordType::Write
    } else if b == 4 {
        RecordType::Checkpoint
    } else if b == 5 {
        RecordType::Allocate
    } else if b == 6 {
        RecordType::Free
    } else {
        RecordType::Read
    }
}

impl RecordType {
    /// The log byte of this record type.
    pub fn to_u8(&self) -> (r: u8)
        ensures
            r == record_type_byte(*self),
            r < 8,
    {
        match self {
            RecordType::Begin => 0,
            RecordType::Commit => 1,
            RecordType::Abort => 2,
            RecordType::Write => 3,
            RecordType::Checkpoint => 4,
            RecordType::Allocate => 5,
            RecordType::Free => 6,
            RecordType::Read => 7,
        }
    }

    /// The record type of a log byte; bytes from 8 on stand for no record type.
    pub fn from_byte(value: u8) -> (r: Option<Self>)
        ensures
            value < 8 ==> r == Some(record_type_of_byte(value)),
            value >= 8 ==> r is None,
    {
        if value == 0 {
            Some(RecordType::Begin)
        } else if value == 1 {
            Some(RecordType::Commit)
        } else if value == 2 {
            Some(RecordType::Abort)
        } else if value == 3 {
            Some(RecordType::Write)
        } else if value == 4 {
            Some(RecordType::Checkpoint)
        } else if value == 5 {
            Some(RecordType::Allocate)
        } else if value == 6 {
            Some(RecordType::Free)
        } else if value == 7 {
            Some(RecordType::Read)
        } else {
            None
        }
    }
}

/// Log Sequence Number: file and offset of a log record.
#[derive(Debug, Clone, Copy, PartialEq, Eq, Structural, PartialOrd, Ord)]
pub struct LogSequenceNumber {
    /// File ID where the log record is stored
    pub file_id: u32,
    /// Offset within the file
    pub offset: u64,
}

impl Default for LogSequenceNumber {
    fn default() -> (r: Self)
        ensures
            r.file_id == 0,
            r.offset == 0,
    {
        Self { file_id: 0, offset: 0 }
    }
}

/// Header of a WAL record.
#[derive(Debug, Clone, Copy, PartialEq, Eq, Structural)]
pub struct RecordHeader {
    /// Type of record
    pub record_type: RecordType,
    /// Log sequence number
    pub lsn: LogSequenceNumber,
    /// Transaction ID (if applicable)
    pub transaction_id: u64,
    /// Page ID (for Write records)
    pub page_id: PageId,
    /// Checksum of the record content
    pub checksum: u32,
    /// Length of the record data
    pub data_length: u32,
}

/// The 37 bytes a record header is written as: type, LSN file and offset,
/// transaction, page, checksum and data length, little-endian.
pub open spec fn record_header_bytes(h: RecordHeader) -> Seq<u8> {
    seq![record_type_byte(h.record_type)] + spec_u32_to_le_bytes(h.lsn.file_id) + spec_u64_to_le_bytes(
        h.lsn.offset,
    ) + spec_u64_to_le_bytes(h.transaction_id) + spec_u64_to_le_bytes(h.page_id.0) + spec_u32_to_le_bytes(
        h.checksum,
    ) + spec_u32_to_le_bytes(h.data_length)
}

/// The record header that the first 37 bytes of `s` describe.
pub open spec fn parse_record_header(s: Seq<u8>) -> RecordHeader {
    RecordHeader {
        record_type: record_type_of_byte(s[0]),
        lsn: LogSequenceNumber {
            file_id: spec_u32_from_le_bytes(s.subrange(1, 5)),
            offset: spec_u64_from_le_bytes(s.subrange(5, 13)),
        },
        transaction_id: spec_u64_from_le_bytes(s.subrange(13, 21)),
        page_id: PageId(spec_u64_from_le_bytes(s.subrange(21, 29))),
        checksum: spec_u32_from_le_bytes(s.subrange(29, 33)),
        data_length: spec_u32_from_le_bytes(s.subrange(33, 37)),
    }
}

impl RecordHeader {
    /// A header with zero checksum and zero data length.
    pub fn new(record_type: RecordType, lsn: LogSequenceNumber, transaction_id: u64, page_id: PageId) -> (r: Self)
        ensures
            r == (RecordHeader { record_type, lsn, transaction_id, page_id, checksum: 0, data_length: 0 }),
    {
        Self { record_type, lsn, transaction_id, page_id, checksum: 0, data_length: 0 }
    }

    /// Serialize the header to its 37 bytes.
    pub fn serialize(&self) -> (r: Vec<u8>)
        ensures
            r@ == record_header_bytes(*self),
            r@.len() == 37,
    {
        proof {
            lemma_auto_spec_u64_to_from_le_bytes();
            lemma_auto_spec_u32_to_from_le_bytes();
        }
        let mut out: Vec<u8> = Vec::new();
        out.push(self.record_type.to_u8());
        push_u32_le(&mut out, self.lsn.file_id);
        push_u64_le(&mut out, self.lsn.offset);
        push_u64_le(&mut out, self.transaction_id);
        push_u64_le(&mut out, self.page_id.0);
        push_u32_le(&mut out, self.checksum);
        push_u32_le(&mut out, self.data_length);
        assert(out@ =~= record_header_bytes(*self));
        out
    }

    /// Deserialize the header from the first 37 bytes of `buffer`; a first byte
    /// that names no record type is rejected.
    pub fn deserialize(buffer: &[u8]) -> (r: StorageResult<Self>)
        ensures
            buffer@.len() < 37 ==> r is Err && r->Err_0 is Io,
            buffer@.len() >= 37 && buffer@[0] >= 8 ==> r is Err && r->Err_0 is Corruption,
            buffer@.len() >= 37 && buffer@[0] < 8 ==> r is Ok && r->Ok_0 == parse_record_header(buffer@),
    {
        if buffer.len() < RECORD_HEADER_SIZE {
            return Err(io_error(invalid_input_kind(), "Buffer too small for record header"));
        }
        let record_type = match RecordType::from_byte(buffer[0]) {
            Some(t) => t,
            None => {
                return Err(StorageError::Corruption("Invalid record type".to_string()));
            },
        };
        let lsn = LogSequenceNumber { file_id: read_u32_le(buffer, 1), offset: read_u64_le(buffer, 5) };
        let transaction_id = read_u64_le(buffer, 13);
        let page_id = PageId(read_u64_le(buffer, 21));
        let checksum = read_u32_le(buffer, 29);
        let data_length = read_u32_le(buffer, 33);
        Ok(Self { record_type, lsn, transaction_id, page_id, checksum, data_length })
    }
}

/// Reading back the bytes a record header is written as gives the same header.
pub proof fn lemma_record_header_roundtrip(h: RecordHeader, rest: Seq<u8>)
    ensures
        parse_record_header(record_header_bytes(h) + rest) == h,
        (record_header_bytes(h) + rest)[0] < 8,
{
    lemma_auto_spec_u64_to_from_le_bytes();
    lemma_auto_spec_u32_to_from_le_bytes();
    let s = record_header_bytes(h) + rest;
    assert(s.subrange(1, 5) =~= spec_u32_to_le_bytes(h.lsn.file_id));
    assert(s.subrange(5, 13) =~= spec_u64_to_le_bytes(h.lsn.offset));
    assert(s.subrange(13, 21) =~= spec_u64_to_le_bytes(h.transaction_id));
    assert(s.subrange(21, 29) =~= spec_u64_to_le_bytes(h.page_id.0));
    assert(s.subrange(29, 33) =~= spec_u32_to_le_bytes(h.checksum));
    assert(s.subrange(33, 37) =~= spec_u32_to_le_bytes(h.data_length));
}

/// A single record of the WAL.
#[derive(Debug, Clone)]
pub struct LogEntry {
    /// Header of the record
    pub header: RecordHeader,
    /// Data of the record
    pub data: Vec<u8>,
}

/// The checksum a log entry should carry: CRC-32 of its header bytes with the
/// checksum field zeroed, followed by its data.
pub open spec fn entry_checksum(h: RecordHeader, data: Seq<u8>) -> u32 {
    crc32(record_header_bytes(RecordHeader { checksum: 0, ..h }) + data)
}

/// The data of a page write record: page type, version (little-endian), page data.
pub open spec fn page_write_data(p: Page) -> Seq<u8> {
    seq![page_type_byte(p.header.page_type)] + spec_u64_to_le_bytes(p.header.version.0) + p.data@
}

impl LogEntry {
    /// A begin-transaction record.
    pub fn begin_transaction(lsn: LogSequenceNumber, transaction_id: u64) -> (r: Self)
        ensures
            r.header == RecordHeader::new_spec(RecordType::Begin, lsn, transaction_id, PageId(0)),
            r.data@.len() == 0,
    {
        let header = RecordHeader::new(RecordType::Begin, lsn, transaction_id, PageId(0));
        Self { header, data: Vec::new() }
    }

    /// A commit-transaction record.
    pub fn commit_transaction(lsn: LogSequenceNumber, transaction_id: u64) -> (r: Self)
        ensures
            r.header == RecordHeader::new_spec(RecordType::Commit, lsn, transaction_id, PageId(0)),
            r.data@.len() == 0,
    {
        let header = RecordHeader::new(RecordType::Commit, lsn, transaction_id, PageId(0));
        Self { header, data: Vec::new() }
    }

    /// An abort-transaction record.
    pub fn abort_transaction(lsn: LogSequenceNumber, transaction_id: u64) -> (r: Self)
        ensures
            r.header == RecordHeader::new_spec(RecordType::Abort, lsn, transaction_id, PageId(0)),
            r.data@.len() == 0,
    {
        let header = RecordHeader::new(RecordType::Abort, lsn, transaction_id, PageId(0));
        Self { header, data: Vec::new() }
    }

    /// A page write record carrying the page's type, version and data, with a
    /// checksum over header and data.
    pub fn write_page(lsn: LogSequenceNumber, transaction_id: u64, page: &Page) -> (r: Self)
        ensures
            r.header.record_type == RecordType::Write,
            r.header.lsn == lsn,
            r.header.transaction_id == transaction_id,
            r.header.page_id == page.id,
            r.data@ == page_write_data(*page),
            r.header.data_length == (page_write_data(*page).len() as u32),
            r.header.checksum == entry_checksum(r.header, r.data@),
    {
        let mut header = RecordHeader::new(RecordType::Write, lsn, transaction_id, page.id);
        let mut data: Vec<u8> = Vec::new();
        data.push(page.header.page_type.to_u8());
        push_u64_le(&mut data, page.header.version.0);
        push_bytes(&mut data, &page.data);
        assert(data@ =~= page_write_data(*page));
        header.data_length = #[verifier::truncate] (data.len() as u32);
        let mut entry = Self { header, data };
        let c = entry.calculate_checksum();
        entry.header.checksum = c;
        assert(RecordHeader { checksum: 0, ..entry.header } == RecordHeader { checksum: 0, ..header });
        entry
    }

    /// A checkpoint record carrying the version; its checksum covers the data only.
    pub fn checkpoint(lsn: LogSequenceNumber, version: VersionId) -> (r: Self)
        ensures
            r.header.record_type == RecordType::Checkpoint,
            r.header.lsn == lsn,
            r.header.transaction_id == 0,
            r.header.page_id == PageId(0),
            r.data@ == spec_u64_to_le_bytes(version.0),
            r.header.data_length == 8,
            r.header.checksum == crc32(spec_u64_to_le_bytes(version.0)),
    {
        proof {
            lemma_auto_spec_u64_to_from_le_bytes();
        }
        let mut header = RecordHeader::new(RecordType::Checkpoint, lsn, 0, PageId(0));
        let data = u64_to_le_bytes(version.0);
        header.data_length = data.len() as u32;
        header.checksum = calculate_checksum(data.as_slice());
        Self { header, data }
    }

    /// Get the record type
    pub fn record_type(&self) -> (r: RecordType)
        ensures
            r == self.header.record_type,
    {
        self.header.record_type
    }

    /// Get the LSN
    pub fn lsn(&self) -> (r: LogSequenceNumber)
        ensures
            r == self.header.lsn,
    {
        self.header.lsn
    }

    /// Get the transaction ID
    pub fn transaction_id(&self) -> (r: u64)
        ensures
            r == self.header.transaction_id,
    {
        self.header.transaction_id
    }

    /// Get the page ID
    pub fn page_id(&self) -> (r: PageId)
        ensures
            r == self.header.page_id,
    {
        self.header.page_id
    }

    /// Verify the checksum
    pub fn verify_checksum(&self) -> (r: bool)
        ensures
            r == (self.header.checksum == entry_checksum(self.header, self.data@)),
    {
        self.header.checksum == self.calculate_checksum()
    }

    /// Get the serialized size: header plus data.
    pub fn serialized_size(&self) -> (r: usize)
        requires
            self.data@.len() + 37 <= usize::MAX,
        ensures
            r == 37 + self.data@.len(),
    {
        RECORD_HEADER_SIZE + self.data.len()
    }

    /// Calculate the checksum of the log entry (header with a zeroed checksum field, then data).
    pub fn calculate_checksum(&self) -> (r: u32)
        ensures
            r == entry_checksum(self.header, self.data@),
    {
        let zeroed = RecordHeader { checksum: 0, ..self.header };
        let mut bytes = zeroed.serialize();
        push_bytes(&mut bytes, &self.data);
        calculate_checksum(bytes.as_slice())
    }

    /// Validate the checksum of the log entry
    pub fn is_valid(&self) -> (r: bool)
        ensures
            r == (self.header.checksum == entry_checksum(self.header, self.data@)),
    {
        self.header.checksum == self.calculate_checksum()
    }

    /// The bytes the entry is appended to a log file as: header, then data.
    pub fn to_bytes(&self) -> (r: Vec<u8>)
        ensures
            r@ == record_header_bytes(self.header) + self.data@,
    {
        let mut bytes = self.header.serialize();
        push_bytes(&mut bytes, &self.data);
        bytes
    }
}

impl RecordHeader {
    /// The header `new` builds.
    pub open spec fn new_spec(record_type: RecordType, lsn: LogSequenceNumber, transaction_id: u64, page_id: PageId) -> RecordHeader {
        RecordHeader { record_type, lsn, transaction_id, page_id, checksum: 0, data_length: 0 }
    }
}

/// The records stored in the bytes of a log file from `off` on, as read in
/// order: a record whose header does not fit ends the reading, and so does a
/// record whose data runs past the end; `None` when a record's type byte
/// names no record type.
pub open spec fn parse_records_from(buf: Seq<u8>, off: int) -> Option<Seq<(RecordHeader, Seq<u8>)>>
    decreases buf.len() - off,
{
    if off < 0 || off + 37 > buf.len() {
        Some(Seq::empty())
    } else if buf[off] >= 8 {
        None
    } else {
        let h = parse_record_header(buf.subrange(off, off + 37));
        let ds = off + 37;
        let de = ds + h.data_length;
        if h.data_length == 0 {
            match parse_records_from(buf, ds) {
                Some(rest) => Some(seq![(h, Seq::<u8>::empty())] + rest),
                None => None,
            }
        } else if de > buf.len() {
            Some(Seq::empty())
        } else {
            match parse_records_from(buf, de) {
                Some(rest) => Some(seq![(h, buf.subrange(ds, de))] + rest),
                None => None,
            }
        }
    }
}

/// Parse all records held in the bytes of one log file, in order.
/// `None` when a record's type byte names no record type.
pub fn parse_records(buffer: &[u8]) -> (r: Option<Vec<LogEntry>>)
    ensures
        match parse_records_from(buffer@, 0) {
            None => r is None,
            Some(recs) => r is Some && r->0@.len() == recs.len() && forall|i: int|
                0 <= i < recs.len() ==> (#[trigger] r->0@[i]).header == recs[i].0 && r->0@[i].data@ == recs[i].1,
        },
{
    let mut out: Vec<LogEntry> = Vec::new();
    let mut offset: usize = 0;
    let ghost mut seen: Seq<(RecordHeader, Seq<u8>)> = Seq::empty();
    loop
        invariant
            offset <= buffer.len(),
            out@.len() == seen.len(),
            forall|i: int| 0 <= i < seen.len() ==> (#[trigger] out@[i]).header == seen[i].0 && out@[i].data@ == seen[i].1,
            parse_records_from(buffer@, 0) == match parse_records_from(buffer@, offset as int) {
                Some(rest) => Some(seen + rest),
                None => None::<Seq<(RecordHeader, Seq<u8>)>>,
            },
        decreases buffer.len() - offset,
    {
        if buffer.len() - offset < RECORD_HEADER_SIZE {
            assert(seen + Seq::<(RecordHeader, Seq<u8>)>::empty() =~= seen);
            return Some(out);
        }
        if buffer[offset] >= 8 {
            return None;
        }
        let hbytes = copy_range(buffer, offset, RECORD_HEADER_SIZE);
        let header = match RecordHeader::deserialize(hbytes.as_slice()) {
            Ok(h) => h,
            Err(_) => {
                return None;
            },
        };
        assert(hbytes@ == buffer@.subrange(offset as int, offset + 37));
        assert(parse_record_header(hbytes@) == header);
        let data_start = offset + RECORD_HEADER_SIZE;
        if header.data_length == 0 {
            let entry = LogEntry { header, data: Vec::new() };
            proof {
                let rest = parse_records_from(buffer@, data_start as int);
                if let Some(r2) = rest {
                    assert(seen + (seq![(header, Seq::<u8>::empty())] + r2) =~= seen.push(
                        (header, Seq::<u8>::empty()),
                    ) + r2);
                }
                seen = seen.push((header, Seq::<u8>::empty()));
            }
            out.push(entry);
            offset = data_start;
        } else {
            let len = header.data_length as usize;
            if buffer.len() - data_start < len {
                assert(seen + Seq::<(RecordHeader, Seq<u8>)>::empty() =~= seen);
                return Some(out);
            }
            let data = copy_range(buffer, data_start, len);
            let entry = LogEntry { header, data };
            proof {
                let d = buffer@.subrange(data_start as int, data_start + len);
                let rest = parse_records_from(buffer@, data_start + len);
                if let Some(r2) = rest {
                    assert(seen + (seq![(header, d)] + r2) =~= seen.push((header, d)) + r2);
                }
                seen = seen.push((header, d));
            }
            out.push(entry);
            offset = data_start + len;
        }
    }
}

/// Appending an entry and then reading the log file back yields that entry
/// last, when its type byte is a record type and its length field is right.
pub proof fn lemma_appended_record_is_read_back(h: RecordHeader, data: Seq<u8>)
    requires
        h.data_length == data.len(),
        data.len() > 0,
    ensures
        parse_records_from(record_header_bytes(h) + data, 0) == Some(seq![(h, data)]),
{
    lemma_record_header_roundtrip(h, data);
    lemma_auto_spec_u64_to_from_le_bytes();
    lemma_auto_spec_u32_to_from_le_bytes();
    let buf = record_header_bytes(h) + data;
    assert(buf.subrange(0, 37) =~= record_header_bytes(h));
    lemma_record_header_roundtrip(h, Seq::empty());
    assert(record_header_bytes(h) + Seq::<u8>::empty() =~= record_header_bytes(h));
    assert(buf.subrange(37, 37 + data.len() as int) =~= data);
    assert(parse_records_from(buf, 37 + data.len() as int) == Some(Seq::<(RecordHeader, Seq<u8>)>::empty()));
    assert(seq![(h, data)] + Seq::<(RecordHeader, Seq<u8>)>::empty() =~= seq![(h, data)]);
}

/// What an append must do, as the log's bookkeeping decides it: the bytes to
/// write, whether to start a new file first, and the LSN to report.
pub struct AppendPlan {
    /// Header and data of the entry, with its LSN and checksum set
    pub bytes: Vec<u8>,
    /// Whether the current file must be rotated before writing
    pub rotate: bool,
    /// The LSN the append reports
    pub lsn: LogSequenceNumber,
}

/// The bookkeeping of a write-ahead log: current file, its size, the last LSN
/// handed out and the largest transaction ID seen.
pub struct WalState {
    /// Maximum size for each WAL file in bytes
    pub max_file_size: u64,
    /// Size of the current file
    pub current_size: u64,
    /// Current file ID
    pub current_file_id: u32,
    /// Current LSN
    pub current_lsn: LogSequenceNumber,
    /// Maximum transaction ID encountered
    pub max_txn_id: u64,
}

impl WalState {
    /// Bookkeeping for a log whose first file holds `size` bytes already.
    pub fn new(max_file_size: u64, size: u64) -> (r: Self)
        ensures
            r.max_file_size == max_file_size,
            r.current_size == size,
            r.current_file_id == 0,
            r.current_lsn == (LogSequenceNumber { file_id: 0, offset: 0 }),
            r.max_txn_id == 0,
    {
        Self { max_file_size, current_size: size, current_file_id: 0, current_lsn: LogSequenceNumber { file_id: 0, offset: 0 }, max_txn_id: 0 }
    }

    /// The LSN handed out last.
    pub fn current_lsn(&self) -> (r: LogSequenceNumber)
        ensures
            r == self.current_lsn,
    {
        self.current_lsn
    }

    /// The next LSN: the current file and its current size; it becomes the current LSN.
    pub fn next_lsn(&mut self) -> (r: LogSequenceNumber)
        ensures
            r == (LogSequenceNumber { file_id: old(self).current_file_id, offset: old(self).current_size }),
            final(self).current_lsn == r,
            final(self).current_file_id == old(self).current_file_id,
            final(self).current_size == old(self).current_size,
            final(self).max_txn_id == old(self).max_txn_id,
            final(self).max_file_size == old(self).max_file_size,
    {
        self.current_lsn = LogSequenceNumber { file_id: self.current_file_id, offset: self.current_size };
        self.current_lsn
    }

    /// Decide an append: the entry gets the LSN of the current file position
    /// and a fresh checksum; the file rotates first when the bytes would not
    /// fit under the maximum size. The state records the new size and the
    /// largest transaction ID.
    pub fn plan_append(&mut self, entry: &LogEntry) -> (r: AppendPlan)
        requires
            old(self).current_file_id < u32::MAX,
            old(self).current_size + 37 + entry.data@.len() <= u64::MAX,
            37 + entry.data@.len() <= u64::MAX,
        ensures
            ({
                let lsn = LogSequenceNumber { file_id: old(self).current_file_id, offset: old(self).current_size };
                let h = RecordHeader { lsn: lsn, checksum: entry_checksum(RecordHeader { lsn: lsn, ..entry.header }, entry.data@), ..entry.header };
                let len = 37 + entry.data@.len();
                &&& r.lsn == lsn
                &&& r.bytes@ == record_header_bytes(h) + entry.data@
                &&& r.rotate == (old(self).current_size + len > old(self).max_file_size)
                &&& final(self).current_file_id == (if r.rotate { (old(self).current_file_id + 1) as u32 } else { old(self).current_file_id })
                &&& final(self).current_size == (if r.rotate { len as int } else { old(self).current_size + len })
                &&& final(self).max_txn_id == (if entry.header.transaction_id > old(self).max_txn_id { entry.header.transaction_id } else { old(self).max_txn_id })
                &&& final(self).current_lsn == old(self).current_lsn
                &&& final(self).max_file_size == old(self).max_file_size
            }),
    {
        if entry.header.transaction_id > self.max_txn_id {
            self.max_txn_id = entry.header.transaction_id;
        }
        let lsn = LogSequenceNumber { file_id: self.current_file_id, offset: self.current_size };
        let mut e = LogEntry { header: RecordHeader { lsn: lsn, ..entry.header }, data: entry.data.clone() };
        assert(e.data@ == entry.data@);
        let c = e.calculate_checksum();
        e.header.checksum = c;
        let bytes = e.to_bytes();
        let len: u64 = 37 + entry.data.len() as u64;
        let rotate = self.current_size + len > self.max_file_size;
        if rotate {
            self.current_file_id = self.current_file_id + 1;
            self.current_size = 0;
        }
        self.current_size = self.current_size + len;
        AppendPlan { bytes, rotate, lsn }
    }

    /// Start a new log file: the file ID advances and the size restarts at zero.
    pub fn rotate(&mut self)
        requires
            old(self).current_file_id < u32::MAX,
        ensures
            final(self).current_file_id == old(self).current_file_id + 1,
            final(self).current_size == 0,
            final(self).current_lsn == old(self).current_lsn,
            final(self).max_txn_id == old(self).max_txn_id,
            final(self).max_file_size == old(self).max_file_size,
    {
        self.current_file_id = self.current_file_id + 1;
        self.current_size = 0;
    }

    /// The largest transaction ID appended so far.
    pub fn max_transaction_id(&self) -> (r: u64)
        ensures
            r == self.max_txn_id,
    {
        self.max_txn_id
    }
}

} // verus!
