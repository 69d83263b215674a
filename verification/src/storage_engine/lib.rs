//! Common types and utilities for the storage engine.
use vstd::prelude::*;

use crate::storage_engine::file_format::Page;

verus! {

/// The standard library's I/O error, carried through storage errors.
#[verifier::external_type_specification]
#[verifier::external_body]
pub struct ExIoError(std::io::Error);

/// The standard library's I/O error kind.
#[verifier::external_type_specification]
#[verifier::external_body]
pub struct ExIoErrorKind(std::io::ErrorKind);

/// The standard library's owned file system path.
#[verifier::external_type_specification]
#[verifier::external_body]
pub struct ExPathBuf(std::path::PathBuf);

/// A point of the monotonic clock; opaque here.
#[verifier::external_type_specification]
#[verifier::external_body]
pub struct ExInstant(std::time::Instant);

/// `Clone` of a path; nothing is stated of the copy.
pub assume_specification[ <std::path::PathBuf as Clone>::clone ](p: &std::path::PathBuf) -> std::path::PathBuf;

/// Represents a unique identifier for a database instance.
#[derive(Debug, Clone, Copy, PartialEq, Eq, Structural, Hash)]
pub struct DatabaseId(pub u64);

/// Represents a unique identifier for a database version.
#[derive(Debug, Clone, Copy, PartialEq, Eq, Structural, Hash, PartialOrd, Ord)]
pub struct VersionId(pub u64);

/// Storage configuration options.
#[derive(Debug, Clone)]
pub struct StorageConfig {
    /// Path to the storage files
    pub path: std::path::PathBuf,
    /// Size of each page in bytes
    pub page_size: usize,
    /// Maximum number of pages to keep in the buffer pool
    pub buffer_pool_size: usize,
    /// Whether to use direct I/O (bypassing filesystem cache)
    pub direct_io: bool,
    /// Size of the WAL in bytes
    pub wal_size: usize,
    /// Flush interval in milliseconds
    pub flush_interval_ms: u64,
    /// Maximum dirty pages before forced flush
    pub max_dirty_pages: usize,
    /// Background writer thread count
    pub writer_threads: usize,
}

/// `std::path::PathBuf::from` on a string slice; the path itself is opaque here.
#[verifier::external_body]
fn path_from_str(s: &str) -> std::path::PathBuf {
    std::path::PathBuf::from(s)
}

impl Default for StorageConfig {
    fn default() -> (r: Self)
        ensures
            r.page_size == 4096,
            r.buffer_pool_size == 10000,
            r.direct_io == false,
            r.wal_size == 64 * 1024 * 1024,
            r.flush_interval_ms == 1000,
            r.max_dirty_pages == 1000,
            r.writer_threads == 2,
    {
        StorageConfig {
            path: path_from_str("./data"),
            page_size: 4096,
            buffer_pool_size: 10000,
            direct_io: false,
            wal_size: 64 * 1024 * 1024,
            flush_interval_ms: 1000,
            max_dirty_pages: 1000,
            writer_threads: 2,
        }
    }
}

/// Error types specific to the storage engine.
#[derive(Debug)]
pub enum StorageError {
    Io(std::io::Error),
    PageNotFound(u64),
    BufferPoolFull,
    TransactionAborted(String),
    VersionNotFound(VersionId),
    Corruption(String),
    Buffer(String),
    Wal(String),
    Concurrency(String),
    NotFound(String),
    InvalidOperation(String),
}

/// Result type for storage operations.
pub type StorageResult<T> = Result<T, StorageError>;

/// `std::io::Error::new(kind, msg)`: builds an I/O error; nothing about it is visible here.
#[verifier::external_body]
fn new_io_error(kind: std::io::ErrorKind, msg: &str) -> std::io::Error {
    std::io::Error::new(kind, msg)
}

/// `std::io::ErrorKind::InvalidInput`, the kind used for malformed buffers.
#[verifier::external_body]
pub(crate) fn invalid_input_kind() -> std::io::ErrorKind {
    std::io::ErrorKind::InvalidInput
}

/// Helper function to create storage I/O errors.
pub fn io_error(kind: std::io::ErrorKind, msg: &str) -> (r: StorageError)
    ensures
        r is Io,
{
    StorageError::Io(new_io_error(kind, msg))
}

/// Reading of the system clock in nanoseconds since the Unix epoch.
/// The reading depends on the moment of the call: nothing is promised of it.
#[verifier::external_body]
pub(crate) fn unix_time_nanos() -> u64 {
    std::time::SystemTime::now().duration_since(std::time::UNIX_EPOCH).unwrap_or_default().as_nanos() as u64
}

/// Reading of the system clock in whole seconds since the Unix epoch.
/// The reading depends on the moment of the call: nothing is promised of it.
#[verifier::external_body]
pub(crate) fn unix_time_secs() -> u64 {
    std::time::SystemTime::now().duration_since(std::time::UNIX_EPOCH).unwrap_or_default().as_secs()
}

/// `Instant::now`: the current reading of the monotonic clock.
#[verifier::external_body]
pub(crate) fn instant_now() -> std::time::Instant {
    std::time::Instant::now()
}

/// `Instant::elapsed`: the time since `i`; it depends on the clock.
#[verifier::external_body]
pub(crate) fn instant_elapsed(i: &std::time::Instant) -> std::time::Duration {
    i.elapsed()
}

/// `Duration::as_nanos`: the whole span in nanoseconds; the span is opaque here.
#[verifier::external_body]
pub(crate) fn duration_nanos(d: &std::time::Duration) -> u128 {
    d.as_nanos()
}

/// `Duration::as_micros`, truncated to 64 bits as a count of microseconds.
#[verifier::external_body]
pub(crate) fn duration_micros(d: &std::time::Duration) -> u64 {
    d.as_micros() as u64
}

/// `Duration::as_millis`, truncated to 64 bits as a count of milliseconds.
#[verifier::external_body]
pub(crate) fn duration_millis(d: &std::time::Duration) -> u64 {
    d.as_millis() as u64
}

/// `Duration::from_millis`: a span of `ms` milliseconds.
#[verifier::external_body]
pub(crate) fn duration_from_millis(ms: u64) -> std::time::Duration {
    std::time::Duration::from_millis(ms)
}

/// `Duration::from_secs`: a span of `s` seconds.
#[verifier::external_body]
pub(crate) fn duration_from_secs(s: u64) -> std::time::Duration {
    std::time::Duration::from_secs(s)
}

/// Generate a timestamp (nanoseconds since the Unix epoch) for versioning.
pub fn generate_timestamp() -> u64 {
    unix_time_nanos()
}

/// The CRC-32 (IEEE) checksum of a byte sequence, as computed by `crc32fast`.
pub uninterp spec fn crc32(data: Seq<u8>) -> u32;

/// `crc32fast::hash`: the CRC-32 checksum of `data`; the result is named by `crc32`.
#[verifier::external_body]
fn crc32fast_hash(data: &[u8]) -> (r: u32)
    ensures
        r == crc32(data@),
{
    crc32fast::hash(data)
}

/// Calculate the CRC-32 checksum of `data` for data integrity.
pub fn calculate_checksum(data: &[u8]) -> (r: u32)
    ensures
        r == crc32(data@),
{
    crc32fast_hash(data)
}

/// Represents a storage device type.
#[derive(Debug, Clone, Copy, PartialEq, Eq, Structural)]
pub enum StorageDevice {
    /// Regular file system
    File,
    /// Direct block device
    BlockDevice,
}

/// Asynchronous I/O operation handle (placeholder).
pub struct IoHandle {
    pub(crate) inner: std::sync::Arc<()>,
}

/// Trait for storage components that need initialization.
pub trait Initializable {
    /// Initialize the component
    fn init(&mut self) -> StorageResult<()>;

    /// Check if the component is initialized
    fn is_initialized(&self) -> bool;
}

/// Trait for components that need periodic flushing to disk.
pub trait Flushable {
    /// Flush any in-memory data to disk
    fn flush(&mut self) -> StorageResult<()>;
}

/// A trait for asynchronous I/O operations.
pub trait AsyncIO {
    fn read_page(&self, page_id: u64, buffer: &mut Vec<u8>) -> StorageResult<usize>;

    fn write_page(&self, page_id: u64, buffer: &[u8]) -> StorageResult<usize>;

    fn sync(&self) -> StorageResult<()>;
}

/// A trait defining storage operations.
pub trait Storage {
    fn read_page(&self, page_id: u64) -> StorageResult<Page>;

    fn write_page(&self, page: &Page) -> StorageResult<()>;

    fn allocate_page(&mut self) -> StorageResult<u64>;

    fn free_page(&mut self, page_id: u64) -> StorageResult<()>;

    fn flush(&self) -> StorageResult<()>;

    fn close(&mut self) -> StorageResult<()>;
}

} // verus!
