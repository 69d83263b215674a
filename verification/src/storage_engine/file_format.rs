//! On-disk format of pages and of the storage file header.
use vstd::prelude::*;
use vstd::bytes::*;

use crate::storage_engine::lib::{StorageError, StorageResult, VersionId, crc32, calculate_checksum, invalid_input_kind, io_error};
use crate::assoc_list::KeyEq;

verus! {

/// Current file format version.
pub const FORMAT_VERSION: u32 = 1;

/// Size of the file header in bytes.
pub const HEADER_SIZE: usize = 4096;

/// Size of a serialized page header in bytes.
pub const PAGE_HEADER_SIZE: usize = 32;

/// The magic number identifying the storage file format ("DOTD").
pub open spec fn file_magic() -> Seq<u8> {
    seq![0x44u8, 0x4Fu8, 0x54u8, 0x44u8]
}

/// Unique identifier for a page within the storage file.
#[derive(Debug, Clone, Copy, PartialEq, Eq, Structural, Hash)]
pub struct PageId(pub u64);

impl View for PageId {
    type V = PageId;

    open spec fn view(&self) -> PageId {
        *self
    }
}

impl KeyEq for PageId {
    fn key_eq(&self, other: &Self) -> (r: bool) {
        self.0 == other.0
    }

    fn key_clone(&self) -> (r: Self) {
        *self
    }
}

impl PageId {
    /// Creates a new PageId
    pub fn new(id: u64) -> (r: Self)
        ensures
            r.0 == id,
    {
        Self(id)
    }

    /// Returns the raw page id value
    pub fn value(&self) -> (r: u64)
        ensures
            r == self.0,
    {
        self.0
    }
}

/// Types of pages in the storage system, numbered 0 to 3 in declaration order.
#[derive(Debug, Clone, Copy, PartialEq, Eq, Structural, Hash)]
pub enum PageType {
    /// Metadata page (file header, free list, etc.)
    Meta,
    /// Patricia trie node
    Node,
    /// Leaf data page
    Data,
    /// Free (unused) page
    Free,
}

/// The byte that stands for a page type on disk.
pub open spec fn page_type_byte(t: PageType) -> u8 {
    match t {
        PageType::Meta => 0,
        PageType::Node => 1,
        PageType::Data => 2,
        PageType::Free => 3,
    }
}

/// The page type a byte stands for; unknown bytes read as `Free`.
pub open spec fn page_type_of_byte(b: u8) -> PageType {
    if b == 0 {
        PageType::Meta
    } else if b == 1 {
        PageType::Node
    } else if b == 2 {
        PageType::Data
    } else {
        PageType::Free
    }
}

impl PageType {
    /// The on-disk byte of this page type.
    pub fn to_u8(&self) -> (r: u8)
        ensures
            r == page_type_byte(*self),
    {
        match self {
            PageType::Meta => 0,
            PageType::Node => 1,
            PageType::Data => 2,
            PageType::Free => 3,
        }
    }
}

impl From<u8> for PageType {
    fn from(value: u8) -> (r: Self) {
        if value == 0 {
            PageType::Meta
        } else if value == 1 {
            PageType::Node
        } else if value == 2 {
            PageType::Data
        } else {
            PageType::Free
        }
    }
}

impl vstd::std_specs::convert::FromSpecImpl<u8> for PageType {
    open spec fn obeys_from_spec() -> bool {
        true
    }

    open spec fn from_spec(v: u8) -> PageType {
        page_type_of_byte(v)
    }
}

/// Page header structure (fixed size).
#[derive(Debug, Clone)]
pub struct PageHeader {
    /// Type of page
    pub page_type: PageType,
    /// Version this page belongs to
    pub version: VersionId,
    /// Reference count for this page
    pub ref_count: u32,
    /// Checksum of the page content
    pub checksum: u32,
    /// Size of the data in this page
    pub data_size: u16,
}

/// `n` zero bytes.
pub open spec fn zeros(n: nat) -> Seq<u8> {
    Seq::new(n, |i: int| 0u8)
}

/// The 32 bytes a page header is written as: type, version, reference count,
/// checksum and data size in little-endian order, then 13 reserved zero bytes.
pub open spec fn page_header_bytes(h: PageHeader) -> Seq<u8> {
    seq![page_type_byte(h.page_type)] + spec_u64_to_le_bytes(h.version.0) + spec_u32_to_le_bytes(h.ref_count)
        + spec_u32_to_le_bytes(h.checksum) + spec_u16_to_le_bytes(h.data_size) + zeros(13)
}

/// The page header that the first 19 bytes of `s` describe.
pub open spec fn parse_page_header(s: Seq<u8>) -> PageHeader {
    PageHeader {
        page_type: page_type_of_byte(s[0]),
        version: VersionId(spec_u64_from_le_bytes(s.subrange(1, 9))),
        ref_count: spec_u32_from_le_bytes(s.subrange(9, 13)),
        checksum: spec_u32_from_le_bytes(s.subrange(13, 17)),
        data_size: spec_u16_from_le_bytes(s.subrange(17, 19)),
    }
}

/// Serializes the little-endian bytes of `v` onto the end of `out`.
fn push_all(out: &mut Vec<u8>, bytes: &Vec<u8>)
    ensures
        final(out)@ == old(out)@ + bytes@,
{
    let mut i: usize = 0;
    while i < bytes.len()
        invariant
            i <= bytes.len(),
            out@ == old(out)@ + bytes@.subrange(0, i as int),
        decreases bytes.len() - i,
    {
        out.push(bytes[i]);
        i = i + 1;
        assert(bytes@.subrange(0, i as int) =~= bytes@.subrange(0, (i - 1) as int).push(bytes@[i - 1]));
    }
    assert(bytes@.subrange(0, bytes.len() as int) =~= bytes@);
}

/// Appends `n` zero bytes to `out`.
fn push_zeros(out: &mut Vec<u8>, n: usize)
    ensures
        final(out)@ == old(out)@ + zeros(n as nat),
{
    let mut i: usize = 0;
    while i < n
        invariant
            i <= n,
            out@ == old(out)@ + zeros(i as nat),
        decreases n - i,
    {
        out.push(0u8);
        i = i + 1;
        assert(zeros(i as nat) =~= zeros((i - 1) as nat).push(0u8));
    }
}

/// Overwrites the first `bytes.len()` bytes of `buffer` with `bytes`.
fn write_prefix(buffer: &mut Vec<u8>, bytes: &Vec<u8>)
    requires
        bytes.len() <= old(buffer).len(),
    ensures
        final(buffer)@ == bytes@ + old(buffer)@.subrange(bytes.len() as int, old(buffer).len() as int),
{
    let mut i: usize = 0;
    while i < bytes.len()
        invariant
            i <= bytes.len(),
            bytes.len() <= buffer.len(),
            buffer.len() == old(buffer).len(),
            forall|j: int| 0 <= j < i ==> buffer@[j] == bytes@[j],
            forall|j: int| i <= j < buffer.len() ==> buffer@[j] == old(buffer)@[j],
        decreases bytes.len() - i,
    {
        buffer.set(i, bytes[i]);
        i = i + 1;
    }
    assert(buffer@ =~= bytes@ + old(buffer)@.subrange(bytes.len() as int, old(buffer).len() as int));
}

/// Copies `s[start..start + len]` into a new vector.
pub(crate) fn copy_range(s: &[u8], start: usize, len: usize) -> (r: Vec<u8>)
    requires
        start + len <= s.len(),
    ensures
        r@ == s@.subrange(start as int, start + len),
{
    let mut r: Vec<u8> = Vec::new();
    let mut i: usize = 0;
    while i < len
        invariant
            i <= len,
            start + len <= s.len(),
            r@ == s@.subrange(start as int, start + i),
        decreases len - i,
    {
        r.push(s[start + i]);
        i = i + 1;
        assert(s@.subrange(start as int, start + i) =~= s@.subrange(start as int, start + i - 1).push(
            s@[start + i - 1],
        ));
    }
    r
}

/// Little-endian `u16` read from `s[start..start + 2]`.
pub(crate) fn read_u16_le(s: &[u8], start: usize) -> (r: u16)
    requires
        start + 2 <= s@.len(),
    ensures
        r == spec_u16_from_le_bytes(s@.subrange(start as int, start + 2)),
{
    let b = copy_range(s, start, 2);
    u16_from_le_bytes(b.as_slice())
}

/// Little-endian `u32` read from `s[start..start + 4]`.
pub(crate) fn read_u32_le(s: &[u8], start: usize) -> (r: u32)
    requires
        start + 4 <= s@.len(),
    ensures
        r == spec_u32_from_le_bytes(s@.subrange(start as int, start + 4)),
{
    let b = copy_range(s, start, 4);
    u32_from_le_bytes(b.as_slice())
}

/// Little-endian `u64` read from `s[start..start + 8]`.
pub(crate) fn read_u64_le(s: &[u8], start: usize) -> (r: u64)
    requires
        start + 8 <= s@.len(),
    ensures
        r == spec_u64_from_le_bytes(s@.subrange(start as int, start + 8)),
{
    let b = copy_range(s, start, 8);
    u64_from_le_bytes(b.as_slice())
}

/// Appends the little-endian bytes of a `u16`.
pub(crate) fn push_u16_le(out: &mut Vec<u8>, v: u16)
    ensures
        final(out)@ == old(out)@ + spec_u16_to_le_bytes(v),
{
    let b = u16_to_le_bytes(v);
    push_all(out, &b);
}

/// Appends the little-endian bytes of a `u32`.
pub(crate) fn push_u32_le(out: &mut Vec<u8>, v: u32)
    ensures
        final(out)@ == old(out)@ + spec_u32_to_le_bytes(v),
{
    let b = u32_to_le_bytes(v);
    push_all(out, &b);
}

/// Appends the little-endian bytes of a `u64`.
pub(crate) fn push_u64_le(out: &mut Vec<u8>, v: u64)
    ensures
        final(out)@ == old(out)@ + spec_u64_to_le_bytes(v),
{
    let b = u64_to_le_bytes(v);
    push_all(out, &b);
}

/// Appends all bytes of `v`.
pub(crate) fn push_bytes(out: &mut Vec<u8>, v: &Vec<u8>)
    ensures
        final(out)@ == old(out)@ + v@,
{
    push_all(out, v);
}

impl PageHeader {
    /// A header for a fresh page: reference count 1, checksum and data size 0.
    pub fn new(page_type: PageType, version: VersionId) -> (r: Self)
        ensures
            r.page_type == page_type,
            r.version == version,
            r.ref_count == 1,
            r.checksum == 0,
            r.data_size == 0,
    {
        Self { page_type, version, ref_count: 1, checksum: 0, data_size: 0 }
    }

    /// Size of the header in bytes
    pub fn size() -> (r: usize)
        ensures
            r == 32,
    {
        PAGE_HEADER_SIZE
    }

    /// The 32 serialized bytes of this header.
    pub fn to_bytes(&self) -> (r: Vec<u8>)
        ensures
            r@ == page_header_bytes(*self),
            r@.len() == 32,
    {
        proof {
            lemma_auto_spec_u64_to_from_le_bytes();
            lemma_auto_spec_u32_to_from_le_bytes();
            lemma_auto_spec_u16_to_from_le_bytes();
        }
        let mut out: Vec<u8> = Vec::new();
        out.push(self.page_type.to_u8());
        push_u64_le(&mut out, self.version.0);
        push_u32_le(&mut out, self.ref_count);
        push_u32_le(&mut out, self.checksum);
        push_u16_le(&mut out, self.data_size);
        push_zeros(&mut out, 13);
        assert(out@ =~= page_header_bytes(*self));
        out
    }

    /// Serialize the header into the first 32 bytes of `buffer`; the rest of
    /// the buffer is left as it was.
    pub fn serialize(&self, buffer: &mut Vec<u8>) -> (r: StorageResult<()>)
        ensures
            old(buffer).len() < 32 ==> r is Err && r->Err_0 is Io && final(buffer)@ == old(buffer)@,
            old(buffer).len() >= 32 ==> r is Ok && final(buffer)@ == page_header_bytes(*self)
                + old(buffer)@.subrange(32, old(buffer).len() as int),
    {
        if buffer.len() < PAGE_HEADER_SIZE {
            return Err(io_error(invalid_input_kind(), "Buffer too small for page header"));
        }
        let bytes = self.to_bytes();
        write_prefix(buffer, &bytes);
        Ok(())
    }

    /// Deserialize the header from the first bytes of `buffer`.
    pub fn deserialize(buffer: &[u8]) -> (r: StorageResult<Self>)
        ensures
            buffer@.len() < 32 ==> r is Err && r->Err_0 is Io,
            buffer@.len() >= 32 ==> r is Ok && r->Ok_0 == parse_page_header(buffer@),
    {
        if buffer.len() < PAGE_HEADER_SIZE {
            return Err(io_error(invalid_input_kind(), "Buffer too small for page header"));
        }
        let page_type = PageType::from(buffer[0]);
        let version = VersionId(read_u64_le(buffer, 1));
        let ref_count = read_u32_le(buffer, 9);
        let checksum = read_u32_le(buffer, 13);
        let data_size = read_u16_le(buffer, 17);
        Ok(Self { page_type, version, ref_count, checksum, data_size })
    }
}

/// Reading back the bytes a header is written as gives the same header.
pub proof fn lemma_page_header_roundtrip(h: PageHeader, rest: Seq<u8>)
    ensures
        parse_page_header(page_header_bytes(h) + rest) == h,
{
    lemma_auto_spec_u64_to_from_le_bytes();
    lemma_auto_spec_u32_to_from_le_bytes();
    lemma_auto_spec_u16_to_from_le_bytes();
    let s = page_header_bytes(h) + rest;
    assert(s.subrange(1, 9) =~= spec_u64_to_le_bytes(h.version.0));
    assert(s.subrange(9, 13) =~= spec_u32_to_le_bytes(h.ref_count));
    assert(s.subrange(13, 17) =~= spec_u32_to_le_bytes(h.checksum));
    assert(s.subrange(17, 19) =~= spec_u16_to_le_bytes(h.data_size));
    assert(page_type_of_byte(page_type_byte(h.page_type)) == h.page_type);
}

/// A page in the storage system.
#[derive(Debug, Clone)]
pub struct Page {
    /// Page identifier
    pub id: PageId,
    /// Page header
    pub header: PageHeader,
    /// Page data
    pub data: Vec<u8>,
}

/// The bytes a page checksum covers: type, version, reference count and data
/// size of the header, then the first `data_size` bytes of data (all the data
/// when there are fewer).
pub open spec fn page_checksum_input(p: Page) -> Seq<u8> {
    let covered = if p.data@.len() >= p.header.data_size {
        p.data@.subrange(0, p.header.data_size as int)
    } else {
        p.data@
    };
    seq![page_type_byte(p.header.page_type)] + spec_u64_to_le_bytes(p.header.version.0) + spec_u32_to_le_bytes(
        p.header.ref_count,
    ) + spec_u16_to_le_bytes(p.header.data_size) + covered
}

impl Page {
    /// Create a new zero-filled page of `size` bytes in all (header included).
    pub fn new(id: PageId, page_type: PageType, version: VersionId, size: usize) -> (r: Self)
        requires
            size >= 32,
        ensures
            r.id == id,
            r.header.page_type == page_type,
            r.header.version == version,
            r.header.ref_count == 1,
            r.header.checksum == 0,
            r.header.data_size == (size - 32) as u16,
            r.data@ == zeros((size - 32) as nat),
    {
        let mut header = PageHeader::new(page_type, version);
        let mut data: Vec<u8> = Vec::new();
        push_zeros(&mut data, size - PAGE_HEADER_SIZE);
        assert(data@ =~= zeros((size - 32) as nat));
        header.data_size = #[verifier::truncate] ((size - PAGE_HEADER_SIZE) as u16);
        Self { id, header, data }
    }

    /// The bytes covered by the checksum.
    fn checksum_input(&self) -> (r: Vec<u8>)
        ensures
            r@ == page_checksum_input(*self),
    {
        let mut out: Vec<u8> = Vec::new();
        out.push(self.header.page_type.to_u8());
        push_u64_le(&mut out, self.header.version.0);
        push_u32_le(&mut out, self.header.ref_count);
        push_u16_le(&mut out, self.header.data_size);
        let n: usize = if self.data.len() >= self.header.data_size as usize {
            self.header.data_size as usize
        } else {
            self.data.len()
        };
        let covered = copy_range(self.data.as_slice(), 0, n);
        push_bytes(&mut out, &covered);
        proof {
            if self.data@.len() < self.header.data_size {
                assert(self.data@.subrange(0, n as int) =~= self.data@);
            }
        }
        assert(out@ =~= page_checksum_input(*self));
        out
    }

    /// Calculate the CRC-32 checksum of the page
    pub fn calculate_checksum(&self) -> (r: u32)
        ensures
            r == crc32(page_checksum_input(*self)),
    {
        let bytes = self.checksum_input();
        calculate_checksum(bytes.as_slice())
    }

    /// Update the page checksum
    pub fn update_checksum(&mut self)
        ensures
            final(self).header.checksum == crc32(page_checksum_input(*old(self))),
            final(self).id == old(self).id,
            final(self).data == old(self).data,
            final(self).header.page_type == old(self).header.page_type,
            final(self).header.version == old(self).header.version,
            final(self).header.ref_count == old(self).header.ref_count,
            final(self).header.data_size == old(self).header.data_size,
    {
        let c = self.calculate_checksum();
        self.header.checksum = c;
    }

    /// Verify the page checksum
    pub fn verify_checksum(&self) -> (r: bool)
        ensures
            r == (self.header.checksum == crc32(page_checksum_input(*self))),
    {
        self.header.checksum == self.calculate_checksum()
    }
}

/// The checksum does not cover the checksum field itself, so a page whose
/// checksum was just updated always verifies.
pub proof fn lemma_updated_checksum_verifies(before: Page, after: Page)
    requires
        after.header.checksum == crc32(page_checksum_input(before)),
        after.id == before.id,
        after.data == before.data,
        after.header.page_type == before.header.page_type,
        after.header.version == before.header.version,
        after.header.ref_count == before.header.ref_count,
        after.header.data_size == before.header.data_size,
    ensures
        after.header.checksum == crc32(page_checksum_input(after)),
{
    assert(page_checksum_input(after) =~= page_checksum_input(before));
}

/// File header structure.
#[derive(Debug, Clone)]
pub struct FileHeader {
    /// Magic number to identify our file format
    pub magic: [u8; 4],
    /// Format version
    pub version: u32,
    /// Size of pages in bytes
    pub page_size: u32,
    /// Total number of pages in the file
    pub total_pages: u64,
    /// ID of the current version
    pub current_version: VersionId,
    /// ID of the first free page
    pub first_free_page: PageId,
}

/// The 36 meaningful bytes of a file header: magic, format version, page size,
/// page count, current version and first free page, little-endian.
pub open spec fn file_header_bytes(h: FileHeader) -> Seq<u8> {
    h.magic@ + spec_u32_to_le_bytes(h.version) + spec_u32_to_le_bytes(h.page_size) + spec_u64_to_le_bytes(
        h.total_pages,
    ) + spec_u64_to_le_bytes(h.current_version.0) + spec_u64_to_le_bytes(h.first_free_page.0)
}

/// The file header that the first 36 bytes of `s` describe.
pub open spec fn parse_file_header(s: Seq<u8>) -> FileHeader {
    FileHeader {
        magic: [s[0], s[1], s[2], s[3]],
        version: spec_u32_from_le_bytes(s.subrange(4, 8)),
        page_size: spec_u32_from_le_bytes(s.subrange(8, 12)),
        total_pages: spec_u64_from_le_bytes(s.subrange(12, 20)),
        current_version: VersionId(spec_u64_from_le_bytes(s.subrange(20, 28))),
        first_free_page: PageId(spec_u64_from_le_bytes(s.subrange(28, 36))),
    }
}

impl FileHeader {
    /// A header for a new file: only the header page exists.
    pub fn new(page_size: u32) -> (r: Self)
        ensures
            r.magic@ == file_magic(),
            r.version == FORMAT_VERSION,
            r.page_size == page_size,
            r.total_pages == 1,
            r.current_version == VersionId(0),
            r.first_free_page == PageId(0),
    {
        let r = Self {
            magic: [0x44u8, 0x4Fu8, 0x54u8, 0x44u8],
            version: FORMAT_VERSION,
            page_size,
            total_pages: 1,
            current_version: VersionId(0),
            first_free_page: PageId(0),
        };
        assert(r.magic@ =~= file_magic());
        r
    }

    /// Serialize the header: the buffer is cleared to zero and the fields are
    /// written at its start.
    pub fn serialize(&self, buffer: &mut Vec<u8>) -> (r: StorageResult<()>)
        ensures
            old(buffer).len() < 4096 ==> r is Err && r->Err_0 is Io && final(buffer)@ == old(buffer)@,
            old(buffer).len() >= 4096 ==> r is Ok && final(buffer)@ == file_header_bytes(*self) + zeros(
                (old(buffer).len() - 36) as nat,
            ),
    {
        if buffer.len() < HEADER_SIZE {
            return Err(io_error(invalid_input_kind(), "Buffer too small for file header"));
        }
        let mut out: Vec<u8> = Vec::new();
        out.push(self.magic[0]);
        out.push(self.magic[1]);
        out.push(self.magic[2]);
        out.push(self.magic[3]);
        push_u32_le(&mut out, self.version);
        push_u32_le(&mut out, self.page_size);
        push_u64_le(&mut out, self.total_pages);
        push_u64_le(&mut out, self.current_version.0);
        push_u64_le(&mut out, self.first_free_page.0);
        proof {
            lemma_auto_spec_u64_to_from_le_bytes();
            lemma_auto_spec_u32_to_from_le_bytes();
        }
        assert(out@.subrange(0, 4) =~= self.magic@);
        assert(out@ =~= file_header_bytes(*self));
        let n = buffer.len() - 36;
        push_zeros(&mut out, n);
        let ghost old_buf = buffer@;
        write_prefix(buffer, &out);
        assert(buffer@ =~= file_header_bytes(*self) + zeros(n as nat));
        Ok(())
    }

    /// Deserialize the header, checking the magic number and the format version.
    pub fn deserialize(buffer: &[u8]) -> (r: StorageResult<Self>)
        ensures
            buffer@.len() < 4096 ==> r is Err && r->Err_0 is Io,
            buffer@.len() >= 4096 && buffer@.subrange(0, 4) != file_magic() ==> r is Err
                && r->Err_0 is Corruption,
            buffer@.len() >= 4096 && buffer@.subrange(0, 4) == file_magic() && spec_u32_from_le_bytes(
                buffer@.subrange(4, 8),
            ) > FORMAT_VERSION ==> r is Err && r->Err_0 is Corruption,
            buffer@.len() >= 4096 && buffer@.subrange(0, 4) == file_magic() && spec_u32_from_le_bytes(
                buffer@.subrange(4, 8),
            ) <= FORMAT_VERSION ==> r is Ok && r->Ok_0 == parse_file_header(buffer@),
    {
        if buffer.len() < HEADER_SIZE {
            return Err(io_error(invalid_input_kind(), "Buffer too small for file header"));
        }
        let magic: [u8; 4] = [buffer[0], buffer[1], buffer[2], buffer[3]];
        if !(magic[0] == 0x44u8 && magic[1] == 0x4Fu8 && magic[2] == 0x54u8 && magic[3] == 0x44u8) {
            assert(buffer@.subrange(0, 4) != file_magic()) by {
                if buffer@.subrange(0, 4) == file_magic() {
                    assert(buffer@.subrange(0, 4)[0] == buffer@[0]);
                    assert(buffer@.subrange(0, 4)[1] == buffer@[1]);
                    assert(buffer@.subrange(0, 4)[2] == buffer@[2]);
                    assert(buffer@.subrange(0, 4)[3] == buffer@[3]);
                }
            }
            return Err(StorageError::Corruption("Invalid file format".to_string()));
        }
        assert(buffer@.subrange(0, 4) =~= file_magic());
        let version = read_u32_le(buffer, 4);
        if version > FORMAT_VERSION {
            return Err(StorageError::Corruption("Unsupported format version".to_string()));
        }
        let page_size = read_u32_le(buffer, 8);
        let total_pages = read_u64_le(buffer, 12);
        let current_version = VersionId(read_u64_le(buffer, 20));
        let first_free_page = PageId(read_u64_le(buffer, 28));
        Ok(Self { magic, version, page_size, total_pages, current_version, first_free_page })
    }
}

/// Reading back the bytes a file header is written as gives the same header.
pub proof fn lemma_file_header_roundtrip(h: FileHeader, rest: Seq<u8>)
    ensures
        parse_file_header(file_header_bytes(h) + rest) == h,
{
    lemma_auto_spec_u64_to_from_le_bytes();
    lemma_auto_spec_u32_to_from_le_bytes();
    let s = file_header_bytes(h) + rest;
    assert(s.subrange(4, 8) =~= spec_u32_to_le_bytes(h.version));
    assert(s.subrange(8, 12) =~= spec_u32_to_le_bytes(h.page_size));
    assert(s.subrange(12, 20) =~= spec_u64_to_le_bytes(h.total_pages));
    assert(s.subrange(20, 28) =~= spec_u64_to_le_bytes(h.current_version.0));
    assert(s.subrange(28, 36) =~= spec_u64_to_le_bytes(h.first_free_page.0));
    broadcast use vstd::array::group_array_axioms;
    let m: [u8; 4] = [s[0], s[1], s[2], s[3]];
    assert(m[0] == h.magic[0] && m[1] == h.magic[1] && m[2] == h.magic[2] && m[3] == h.magic[3]);
    assert(m =~= h.magic);
}

/// The byte offset of page `id` in the storage file: page 0 is the file
/// header page at the start; page `i > 0` follows the 4096 header bytes,
/// `page_size` bytes per page.
pub open spec fn page_offset_spec(id: u64, page_size: u32) -> int {
    if id == 0 {
        0
    } else {
        4096 + (id - 1) * page_size
    }
}

/// The byte offset of page `id` in the storage file.
pub fn page_offset(id: PageId, page_size: u32) -> (r: u64)
    requires
        page_offset_spec(id.0, page_size) <= u64::MAX,
    ensures
        r == page_offset_spec(id.0, page_size),
{
    if id.0 == 0 {
        0
    } else {
        let k: u64 = id.0 - 1;
        let ps: u64 = page_size as u64;
        assert(k * ps <= u64::MAX - 4096);
        4096 + k * ps
    }
}

/// How many data bytes of page `p` are stored: its data size, or all of its
/// data when it holds fewer bytes.
pub open spec fn stored_len(p: Page) -> int {
    if p.header.data_size <= p.data@.len() {
        p.header.data_size as int
    } else {
        p.data@.len() as int
    }
}

/// The bytes page `p` is written as in a slot of `page_size` bytes: its
/// header, its stored data bytes, then zeros.
pub open spec fn page_image_spec(p: Page, page_size: int) -> Seq<u8> {
    page_header_bytes(p.header) + p.data@.take(stored_len(p)) + zeros((page_size - 32 - stored_len(p)) as nat)
}

/// The bytes a page is written as in a slot of `page_size` bytes.
pub fn page_image(page: &Page, page_size: usize) -> (r: Vec<u8>)
    requires
        32 + stored_len(*page) <= page_size,
    ensures
        r@ == page_image_spec(*page, page_size as int),
{
    let ds = page.header.data_size as usize;
    let n: usize = if ds <= page.data.len() {
        ds
    } else {
        page.data.len()
    };
    let mut out = page.header.to_bytes();
    let data = copy_range(page.data.as_slice(), 0, n);
    push_all(&mut out, &data);
    push_zeros(&mut out, page_size - 32 - n);
    assert(page.data@.subrange(0, n as int) =~= page.data@.take(n as int));
    out
}

/// The data a page slot `buf` holds under its header: the first `data_size`
/// bytes after the header, then zeros up to the end of the slot.
pub open spec fn image_data(buf: Seq<u8>) -> Seq<u8> {
    let ds = parse_page_header(buf).data_size as int;
    buf.subrange(32, 32 + ds) + zeros((buf.len() - 32 - ds) as nat)
}

/// Whether the data size recorded in page slot `buf` fits in the slot.
pub open spec fn image_fits(buf: Seq<u8>) -> bool {
    parse_page_header(buf).data_size <= buf.len() - 32
}

/// Read a page back from the bytes of its slot: the header and the data it
/// records. A data size beyond the slot, or a checksum that does not match,
/// is corruption.
pub fn page_from_image(id: PageId, buffer: &[u8]) -> (r: StorageResult<Page>)
    requires
        buffer@.len() >= 32,
    ensures
        !image_fits(buffer@) ==> r matches Err(StorageError::Corruption(_)),
        image_fits(buffer@) ==> match r {
            Ok(p) => p.id == id && p.header == parse_page_header(buffer@) && p.data@ == image_data(buffer@)
                && p.header.checksum == crc32(page_checksum_input(p)),
            Err(e) => e is Corruption && !(parse_page_header(buffer@).checksum == crc32(
                seq![page_type_byte(parse_page_header(buffer@).page_type)] + spec_u64_to_le_bytes(
                    parse_page_header(buffer@).version.0,
                ) + spec_u32_to_le_bytes(parse_page_header(buffer@).ref_count) + spec_u16_to_le_bytes(
                    parse_page_header(buffer@).data_size,
                ) + buffer@.subrange(32, 32 + parse_page_header(buffer@).data_size),
            )),
        },
{
    let header = match PageHeader::deserialize(buffer) {
        Ok(h) => h,
        Err(e) => {
            return Err(e);
        },
    };
    let mut page = Page::new(id, header.page_type, header.version, buffer.len());
    page.header.ref_count = header.ref_count;
    page.header.checksum = header.checksum;
    page.header.data_size = header.data_size;
    let ds = header.data_size as usize;
    if ds > page.data.len() {
        return Err(StorageError::Corruption("Data size in header exceeds page data capacity".to_string()));
    }
    let stored = copy_range(buffer, 32, ds);
    write_prefix(&mut page.data, &stored);
    assert(page.data@ =~= image_data(buffer@));
    assert(page.header == parse_page_header(buffer@));
    assert(page.data@.subrange(0, ds as int) =~= buffer@.subrange(32, 32 + ds));
    if !page.verify_checksum() {
        return Err(StorageError::Corruption("Page has invalid checksum".to_string()));
    }
    Ok(page)
}

/// A page read back from its slot without checking its checksum, as a free
/// page is recovered: a fresh header of the recorded type and version with
/// the recorded data size, and the recorded data. A data size beyond the
/// slot is corruption.
pub fn page_from_image_unchecked(id: PageId, buffer: &[u8]) -> (r: StorageResult<Page>)
    requires
        buffer@.len() >= 32,
    ensures
        !image_fits(buffer@) ==> r matches Err(StorageError::Corruption(_)),
        image_fits(buffer@) ==> (r matches Ok(p) && p.id == id && p.header == (PageHeader {
            page_type: parse_page_header(buffer@).page_type,
            version: parse_page_header(buffer@).version,
            ref_count: 1,
            checksum: 0,
            data_size: parse_page_header(buffer@).data_size,
        }) && p.data@ == image_data(buffer@)),
{
    let header = match PageHeader::deserialize(buffer) {
        Ok(h) => h,
        Err(e) => {
            return Err(e);
        },
    };
    let mut page = Page::new(id, header.page_type, header.version, buffer.len());
    page.header.data_size = header.data_size;
    let ds = header.data_size as usize;
    if ds > page.data.len() {
        return Err(StorageError::Corruption("Data size in header exceeds page data capacity".to_string()));
    }
    let stored = copy_range(buffer, 32, ds);
    write_prefix(&mut page.data, &stored);
    assert(page.data@ =~= image_data(buffer@));
    Ok(page)
}

/// The page that records a freed page on the free list: a free page whose
/// first 8 data bytes hold the next free page (little-endian), with a data
/// size of 8 and its checksum set.
pub fn free_list_page(id: PageId, next_free: PageId, page_size: usize) -> (r: Page)
    requires
        page_size >= 40,
    ensures
        r.id == id,
        r.header.page_type == PageType::Free,
        r.header.version == VersionId(0),
        r.header.ref_count == 1,
        r.header.data_size == 8,
        r.data@ == spec_u64_to_le_bytes(next_free.0) + zeros((page_size - 40) as nat),
        r.header.checksum == crc32(page_checksum_input(r)),
{
    let mut page = Page::new(id, PageType::Free, VersionId(0), page_size);
    let mut next: Vec<u8> = Vec::new();
    push_u64_le(&mut next, next_free.0);
    proof {
        lemma_auto_spec_u64_to_from_le_bytes();
    }
    write_prefix(&mut page.data, &next);
    page.header.data_size = 8;
    page.update_checksum();
    assert(page.data@ =~= spec_u64_to_le_bytes(next_free.0) + zeros((page_size - 40) as nat));
    proof {
        lemma_updated_checksum_verifies(page, page);
    }
    page
}

/// The next free page that a free-list page records, when it holds the 8 bytes.
pub fn next_free_page(page: &Page) -> (r: Option<PageId>)
    ensures
        page.data@.len() >= 8 ==> r == Some(PageId(spec_u64_from_le_bytes(page.data@.subrange(0, 8)))),
        page.data@.len() < 8 ==> r is None,
{
    if page.data.len() >= 8 {
        Some(PageId(read_u64_le(page.data.as_slice(), 0)))
    } else {
        None
    }
}

/// Reading back the slot a page was written to gives its header and its
/// stored data, zero-filled to the slot; when its checksum was up to date,
/// the checksum of what is read back matches too.
pub proof fn lemma_page_image_roundtrip(p: Page, page_size: int)
    requires
        p.header.data_size <= p.data@.len(),
        32 + p.data@.len() <= page_size,
    ensures
        parse_page_header(page_image_spec(p, page_size)) == p.header,
        image_fits(page_image_spec(p, page_size)),
        image_data(page_image_spec(p, page_size)) == p.data@.take(p.header.data_size as int) + zeros(
            (page_size - 32 - p.header.data_size) as nat,
        ),
        seq![page_type_byte(p.header.page_type)] + spec_u64_to_le_bytes(p.header.version.0) + spec_u32_to_le_bytes(
            p.header.ref_count,
        ) + spec_u16_to_le_bytes(p.header.data_size) + page_image_spec(p, page_size).subrange(
            32,
            32 + p.header.data_size,
        ) == page_checksum_input(p),
{
    lemma_auto_spec_u64_to_from_le_bytes();
    lemma_auto_spec_u32_to_from_le_bytes();
    lemma_auto_spec_u16_to_from_le_bytes();
    let ds = p.header.data_size as int;
    let rest = p.data@.take(ds) + zeros((page_size - 32 - ds) as nat);
    let img = page_image_spec(p, page_size);
    assert(page_header_bytes(p.header).len() == 32);
    assert(img =~= page_header_bytes(p.header) + rest);
    lemma_page_header_roundtrip(p.header, rest);
    assert(img.subrange(32, 32 + ds) =~= p.data@.take(ds));
    assert(img.subrange(32, 32 + ds) + zeros((img.len() - 32 - ds) as nat) =~= rest);
    assert(p.data@.subrange(0, ds) =~= p.data@.take(ds));
}

} // verus!
