//! PickleDB: an encrypted embedded database engine whose storage layer never
//! sees plaintext. This crate holds the verified core: the on-page record
//! layout, page-id allocation, the blind search index, the page cache, the
//! write-ahead-log framing and replay rules, the client-side crypto front end,
//! and the in-memory bookkeeping of the engine.

pub mod types;
pub mod error;
pub mod page;
pub mod allocator;
pub mod index;
pub mod cache;
pub mod wal;
pub mod token;
pub mod key_manager;
pub mod encryptor;
pub mod client;
pub mod record;
pub mod engine;
pub mod ffi;
pub mod shell;
pub mod traits;
