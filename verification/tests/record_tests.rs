use pickledb::record::{decode_record, encode_record};
use pickledb::types::{EncryptedPayload, RecordId};

fn payload() -> EncryptedPayload {
    EncryptedPayload { nonce: [0xA1; 12], ciphertext: vec![1, 2, 3], tag: [0xB2; 16] }
}

#[test]
fn record_bytes_layout() {
    let bytes = encode_record(RecordId(0x0102030405060708), &payload());
    let mut expected = vec![8, 7, 6, 5, 4, 3, 2, 1];
    expected.extend_from_slice(&[0xA1; 12]);
    expected.extend_from_slice(&[3, 0, 0, 0, 0, 0, 0, 0]);
    expected.extend_from_slice(&[1, 2, 3]);
    expected.extend_from_slice(&[0xB2; 16]);
    assert_eq!(bytes, expected);
}

#[test]
fn record_roundtrip() {
    let p = EncryptedPayload { nonce: [9; 12], ciphertext: vec![0x55; 300], tag: [4; 16] };
    let bytes = encode_record(RecordId(77), &p);
    let (id, back) = decode_record(&bytes).unwrap();
    assert_eq!(id, RecordId(77));
    assert_eq!(back, p);
}

#[test]
fn trailing_bytes_are_ignored() {
    let mut bytes = encode_record(RecordId(5), &payload());
    bytes.extend_from_slice(&[0xEE; 10]);
    let (id, back) = decode_record(&bytes).unwrap();
    assert_eq!(id, RecordId(5));
    assert_eq!(back, payload());
}

#[test]
fn short_bytes_are_no_record() {
    let bytes = encode_record(RecordId(5), &payload());
    assert!(decode_record(&bytes[..bytes.len() - 1]).is_none());
    assert!(decode_record(&bytes[..27]).is_none());
    assert!(decode_record(&[]).is_none());
    let mut huge_len = bytes.clone();
    huge_len[20..28].copy_from_slice(&[0xFF; 8]);
    assert!(decode_record(&huge_len).is_none());
}

#[test]
fn record_bytes_are_the_bincode_encoding() {
    let p = EncryptedPayload { nonce: [3; 12], ciphertext: vec![5, 6, 7, 8], tag: [9; 16] };
    let ours = encode_record(RecordId(0xAB), &p);
    let theirs = bincode::serialize(&(0xABu64, (p.nonce, p.ciphertext.clone(), p.tag))).unwrap();
    assert_eq!(ours, theirs);
    let (id, (nonce, ciphertext, tag)): (u64, ([u8; 12], Vec<u8>, [u8; 16])) =
        bincode::deserialize(&ours).unwrap();
    assert_eq!((id, nonce, ciphertext, tag), (0xAB, p.nonce, p.ciphertext, p.tag));
}
