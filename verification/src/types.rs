//! Core value types shared by every layer.

use vstd::prelude::*;

verus! {

/// Size in bytes of every on-disk page.
pub const PAGE_SIZE: usize = 4096;

/// Magic number at the start of every slotted page ("PKDB").
pub const MAGIC_NUMBER: u32 = 0x504B4442;

/// A unique record identifier.
#[derive(Debug, Clone, Copy, PartialEq, Eq, Hash, Structural)]
pub struct RecordId(pub u64);

/// A unique page identifier within a storage file.
#[derive(Debug, Clone, Copy, PartialEq, Eq, Hash, Structural)]
pub struct PageId(pub u32);

/// Log sequence number used for WAL ordering and recovery.
#[derive(Debug, Clone, Copy, PartialEq, Eq, PartialOrd, Ord, Hash)]
pub struct LSN(pub u64);

/// A search token used for blind search.
///
/// The engine never inspects the contents of this token.
/// Tokens are generated client-side via HMAC over a field/value pair.
#[derive(Debug, Clone, Copy, PartialEq, Eq, Hash)]
pub struct SearchToken(pub [u8; 32]);

impl View for SearchToken {
    type V = Seq<u8>;

    open spec fn view(&self) -> Seq<u8> {
        self.0@
    }
}

impl SearchToken {
    /// The 32 raw bytes of the token.
    pub fn as_bytes(&self) -> (bytes: &[u8; 32])
        ensures
            bytes@ == self@,
    {
        &self.0
    }
}

/// An encrypted payload stored by the engine.
///
/// Contains all data needed for decryption: nonce, ciphertext, and
/// authentication tag. The engine treats this as opaque bytes.
#[derive(Debug, Clone, PartialEq, Eq)]
pub struct EncryptedPayload {
    pub nonce: [u8; 12],
    pub ciphertext: Vec<u8>,
    pub tag: [u8; 16],
}

/// An insert tuple sent from the trusted client to the untrusted engine.
#[derive(Debug, Clone)]
pub struct InsertTuple {
    pub record_id: RecordId,
    pub payload: EncryptedPayload,
    pub search_tokens: Vec<SearchToken>,
}

/// The type of a page in the storage file.
#[derive(Debug, Clone, Copy, PartialEq, Eq, Structural)]
pub enum PageType {
    Data,
    Index,
    Meta,
    Free,
}

/// A slot entry in a slotted page.
///
/// Each slot points to a record stored from the bottom of the page upward,
/// while slots grow downward from the page header.
#[derive(Debug, Clone, Copy)]
pub struct Slot {
    pub offset: u16,
    pub length: u16,
}

/// Header of a slotted page (fixed-size prefix on every page).
#[derive(Debug, Clone)]
pub struct PageHeader {
    pub magic: u32,
    pub page_type: PageType,
    pub page_id: PageId,
    pub lsn: LSN,
    pub slot_count: u16,
    pub free_offset: u16,
}

/// A fixed-size 4096-byte page composed of a header, slot array, and data region.
#[derive(Debug, Clone)]
pub struct Page {
    pub header: PageHeader,
    pub slots: Vec<Slot>,
    pub data: Vec<u8>,
}

/// A WAL operation recorded in the append-only log.
#[derive(Debug, Clone)]
pub enum WalOperation {
    Insert(InsertTuple),
    Delete(RecordId),
    Update { record_id: RecordId, tuple: InsertTuple },
    Checkpoint(LSN),
}

} // verus!
