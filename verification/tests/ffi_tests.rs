use pickledb::ffi::{ffi_insert_tuple, pickledb_result_t};
use pickledb::types::RecordId;

#[test]
fn result_codes() {
    assert_eq!(pickledb_result_t::PICKLEDB_OK.code(), 0);
    assert_eq!(pickledb_result_t::PICKLEDB_ERROR.code(), -1);
    assert_eq!(pickledb_result_t::PICKLEDB_NOT_FOUND.code(), -2);
}

#[test]
fn insert_tuple_with_token() {
    let t = ffi_insert_tuple(5, b"test data".to_vec(), &[3u8; 32]);
    assert_eq!(t.record_id, RecordId(5));
    assert_eq!(t.payload.ciphertext, b"test data".to_vec());
    assert_eq!(t.payload.nonce, [0u8; 12]);
    assert_eq!(t.payload.tag, [0u8; 16]);
    assert_eq!(t.search_tokens.len(), 1);
    assert_eq!(t.search_tokens[0].0, [3u8; 32]);
}

#[test]
fn insert_tuple_without_token() {
    assert!(ffi_insert_tuple(1, Vec::new(), &[]).search_tokens.is_empty());
    assert!(ffi_insert_tuple(1, Vec::new(), &[1u8; 31]).search_tokens.is_empty());
}
