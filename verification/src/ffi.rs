//! What the C interface decides on its own: the result codes it returns and
//! the insert tuple it builds from raw record bytes and an optional token.

use vstd::prelude::*;
use crate::types::{EncryptedPayload, InsertTuple, RecordId, SearchToken};

verus! {

/// Result type returned by the C interface functions.
#[allow(non_camel_case_types)]
#[derive(Debug, PartialEq, Eq, Structural)]
pub enum pickledb_result_t {
    PICKLEDB_OK,
    PICKLEDB_ERROR,
    PICKLEDB_NOT_FOUND,
}

impl pickledb_result_t {
    /// The integer a C caller sees: 0, -1 or -2.
    pub fn code(&self) -> (c: i32)
        ensures
            c == match *self {
                pickledb_result_t::PICKLEDB_OK => 0,
                pickledb_result_t::PICKLEDB_ERROR => -1,
                pickledb_result_t::PICKLEDB_NOT_FOUND => -2int,
            },
    {
        match self {
            pickledb_result_t::PICKLEDB_OK => 0,
            pickledb_result_t::PICKLEDB_ERROR => -1,
            pickledb_result_t::PICKLEDB_NOT_FOUND => -2,
        }
    }
}

/// The tuple the C interface inserts: the bytes become the ciphertext under
/// an all-zero nonce and tag, and `token` becomes the one search token when
/// it is exactly 32 bytes long (otherwise the record gets no token).
pub fn ffi_insert_tuple(record_id: u64, ciphertext: Vec<u8>, token: &[u8]) -> (t: InsertTuple)
    ensures
        t.record_id == RecordId(record_id),
        t.payload.nonce@ == Seq::new(12, |i: int| 0u8),
        t.payload.ciphertext@ == ciphertext@,
        t.payload.tag@ == Seq::new(16, |i: int| 0u8),
        t.search_tokens@.len() == (if token@.len() == 32 { 1int } else { 0int }),
        token@.len() == 32 ==> t.search_tokens@[0]@ == token@,
{
    let mut search_tokens: Vec<SearchToken> = Vec::new();
    if token.len() == 32 {
        let mut bytes = [0u8; 32];
        let mut i: usize = 0;
        while i < 32
            invariant
                token@.len() == 32,
                0 <= i <= 32,
                forall|j: int| 0 <= j < i ==> bytes@[j] == token@[j],
            decreases 32 - i,
        {
            bytes[i] = token[i];
            i = i + 1;
        }
        assert(bytes@ =~= token@);
        search_tokens.push(SearchToken(bytes));
    }
    let nonce = [0u8; 12];
    let tag = [0u8; 16];
    assert(nonce@ =~= Seq::new(12, |i: int| 0u8));
    assert(tag@ =~= Seq::new(16, |i: int| 0u8));
    InsertTuple {
        record_id: RecordId(record_id),
        payload: EncryptedPayload { nonce, ciphertext, tag },
        search_tokens,
    }
}

} // verus!
