//! Error hierarchy of every layer.

use vstd::prelude::*;
use crate::types::{PageId, RecordId};

verus! {

/// `std::io::Error`, carried through unchanged where an I/O layer failed.
#[verifier::external_type_specification]
#[verifier::external_body]
pub struct ExIoError(std::io::Error);

/// Errors of the client-side cryptography.
#[derive(Debug)]
pub enum CryptoError {
    EncryptionFailed(String),
    DecryptionFailed(String),
    KeyDerivationFailed(String),
    InvalidKeyLength(String),
    Backend(String),
}

/// Errors of the page-level storage.
#[derive(Debug)]
pub enum StorageError {
    Io(std::io::Error),
    PageNotFound(PageId),
    CorruptPage(String),
    ChecksumMismatch,
    StorageFull,
    InvalidPageId(u32),
}

/// Errors of the slotted-page layout.
#[derive(Debug, PartialEq, Eq, Structural)]
pub enum PageError {
    InvalidPageSize(usize),
    PageFull,
    InvalidSlot(u16),
    CorruptHeader,
    MagicMismatch { expected: u32, actual: u32 },
    DataOverflow,
}

/// Errors of the write-ahead log.
#[derive(Debug)]
pub enum WalError {
    Io(std::io::Error),
    CorruptEntry(u64),
    ChecksumMismatch,
    ReplayFailed(u64, String),
}

/// Errors of the blind search index.
#[derive(Debug)]
pub enum IndexError {
    TokenNotFound,
    DuplicateEntry(RecordId),
    CorruptIndex,
    Io(std::io::Error),
}

/// Errors of the page cache.
#[derive(Debug)]
pub enum CacheError {
    PageNotCached(PageId),
    CacheFull,
    PagePinned(PageId),
    Io(std::io::Error),
}

/// Errors of the database engine.
#[derive(Debug)]
pub enum EngineError {
    Storage(StorageError),
    Page(PageError),
    Wal(WalError),
    Index(IndexError),
    Cache(CacheError),
    RecordNotFound(RecordId),
    DuplicateRecord(RecordId),
    InvalidOperation(String),
    Crypto(CryptoError),
}

} // verus!
