use pickledb::client::PickleClient;
use pickledb::encryptor::Encryptor;
use pickledb::error::CryptoError;
use pickledb::key_manager::KeyManager;
use pickledb::token::{parse_search_token, TokenGenerator, TokenParseError};
use pickledb::traits::Client;
use pickledb::types::RecordId;

fn test_client() -> PickleClient {
    PickleClient::new(b"test-master-key-32-bytes-long!!!!!!!").unwrap()
}

#[test]
fn test_client_encrypt_decrypt() {
    let client = test_client();
    let plaintext = b"sensitive data";
    let payload = client.encrypt(RecordId(1), plaintext).unwrap();
    let decrypted = client.decrypt(RecordId(1), &payload).unwrap();
    assert_eq!(decrypted, plaintext);
}

#[test]
fn test_client_search_token() {
    let client = test_client();
    let token = client.derive_search_token("email", "alice@example.com");
    assert_eq!(token.as_bytes().len(), 32);
}

#[test]
fn test_client_wrong_record_id_fails() {
    let client = test_client();
    let payload = client.encrypt(RecordId(1), b"data").unwrap();
    assert!(client.decrypt(RecordId(2), &payload).is_err());
}

#[test]
fn test_client_roundtrip_search_and_encrypt() {
    let client = test_client();
    let token = client.derive_search_token("email", "bob@example.com");

    let payload = client.encrypt(RecordId(10), b"Bob's secret").unwrap();
    let decrypted = client.decrypt(RecordId(10), &payload).unwrap();

    assert_eq!(decrypted, b"Bob's secret");
    assert_eq!(token.as_bytes().len(), 32);
}

#[test]
fn test_client_deterministic_tokens() {
    let client = test_client();
    let t1 = client.derive_search_token("field", "value");
    let t2 = client.derive_search_token("field", "value");
    assert_eq!(t1, t2);
}

#[test]
fn test_different_clients_same_key() {
    let c1 = PickleClient::new(b"shared-master-key-1234567890abcdef").unwrap();
    let c2 = PickleClient::new(b"shared-master-key-1234567890abcdef").unwrap();
    let p1 = c1.encrypt(RecordId(0), b"data").unwrap();
    let d2 = c2.decrypt(RecordId(0), &p1).unwrap();
    assert_eq!(d2, b"data");
}

#[test]
fn client_rejects_empty_master_key() {
    match PickleClient::new(b"") {
        Err(CryptoError::InvalidKeyLength(_)) => {}
        _ => panic!("expected InvalidKeyLength"),
    }
}

#[test]
fn client_token_is_hmac_under_derived_search_key() {
    let master = b"test-master-key-32-bytes-long!!!!!!!";
    let client = PickleClient::new(master).unwrap();
    let km = KeyManager::new(master).unwrap();
    let gen = TokenGenerator::new(km.search_key());
    assert_eq!(
        client.derive_search_token("email", "x@y.z"),
        gen.generate("email", "x@y.z")
    );
}

fn test_encryptor() -> Encryptor {
    let key = [0xABu8; 32];
    Encryptor::new(&key)
}

#[test]
fn test_encrypt_decrypt_roundtrip() {
    let enc = test_encryptor();
    let record_id = RecordId(42);
    let plaintext = b"Hello, PickleDB!";

    let payload = enc.encrypt(record_id, plaintext).unwrap();
    assert_eq!(payload.nonce.len(), 12);
    assert_ne!(payload.ciphertext, plaintext);

    let decrypted = enc.decrypt(record_id, &payload).unwrap();
    assert_eq!(decrypted, plaintext);
}

#[test]
fn test_encrypt_different_nonces() {
    let enc = test_encryptor();
    let record_id = RecordId(1);
    let plaintext = b"same data";

    let p1 = enc.encrypt(record_id, plaintext).unwrap();
    let p2 = enc.encrypt(record_id, plaintext).unwrap();
    assert_ne!(p1.nonce, p2.nonce);
    assert_ne!(p1.ciphertext, p2.ciphertext);
}

#[test]
fn test_decrypt_wrong_key_fails() {
    let key1 = [0xABu8; 32];
    let key2 = [0xCDu8; 32];
    let enc1 = Encryptor::new(&key1);
    let enc2 = Encryptor::new(&key2);

    let record_id = RecordId(0);
    let payload = enc1.encrypt(record_id, b"secret").unwrap();
    assert!(enc2.decrypt(record_id, &payload).is_err());
}

#[test]
fn test_decrypt_tampered_ciphertext_fails() {
    let enc = test_encryptor();
    let record_id = RecordId(7);
    let mut payload = enc.encrypt(record_id, b"important data").unwrap();
    payload.ciphertext[0] ^= 0xFF;
    assert!(enc.decrypt(record_id, &payload).is_err());
}

#[test]
fn test_decrypt_tampered_tag_fails() {
    let enc = test_encryptor();
    let record_id = RecordId(7);
    let mut payload = enc.encrypt(record_id, b"important data").unwrap();
    payload.tag[0] ^= 0xFF;
    assert!(enc.decrypt(record_id, &payload).is_err());
}

#[test]
fn test_decrypt_wrong_record_id_fails() {
    let enc = test_encryptor();
    let payload = enc.encrypt(RecordId(1), b"data").unwrap();
    assert!(enc.decrypt(RecordId(2), &payload).is_err());
}

#[test]
fn test_large_payload() {
    let enc = test_encryptor();
    let record_id = RecordId(100);
    let plaintext = vec![0x42u8; 10000];

    let payload = enc.encrypt(record_id, &plaintext).unwrap();
    let decrypted = enc.decrypt(record_id, &payload).unwrap();
    assert_eq!(decrypted, plaintext);
}

#[test]
fn test_empty_payload() {
    let enc = test_encryptor();
    let record_id = RecordId(0);
    let payload = enc.encrypt(record_id, b"").unwrap();
    let decrypted = enc.decrypt(record_id, &payload).unwrap();
    assert!(decrypted.is_empty());
}

#[test]
fn encrypted_payload_keeps_the_plaintext_length() {
    let enc = test_encryptor();
    let payload = enc.encrypt(RecordId(3), b"twelve bytes").unwrap();
    assert_eq!(payload.ciphertext.len(), 12);
    assert_eq!(payload.tag.len(), 16);
}

#[test]
fn failed_decryption_is_decryption_failed() {
    let enc = test_encryptor();
    let payload = enc.encrypt(RecordId(1), b"data").unwrap();
    match enc.decrypt(RecordId(2), &payload) {
        Err(CryptoError::DecryptionFailed(_)) => {}
        _ => panic!("expected DecryptionFailed"),
    }
}

#[test]
fn test_key_derivation() {
    let master = b"this-is-a-test-master-key-32bytes!";
    let km = KeyManager::new(master).unwrap();
    assert_ne!(km.encryption_key(), &[0u8; 32]);
    assert_ne!(km.search_key(), &[0u8; 32]);
}

#[test]
fn test_key_derivation_deterministic() {
    let master = b"same-master-key-1234567890abcdef";
    let km1 = KeyManager::new(master).unwrap();
    let km2 = KeyManager::new(master).unwrap();
    assert_eq!(km1.encryption_key(), km2.encryption_key());
    assert_eq!(km1.search_key(), km2.search_key());
}

#[test]
fn test_key_derivation_different_keys() {
    let master = b"same-master-key-1234567890abcdef";
    let km = KeyManager::new(master).unwrap();
    assert_ne!(km.encryption_key(), km.search_key());
}

#[test]
fn test_empty_master_key() {
    assert!(KeyManager::new(b"").is_err());
}

#[test]
fn test_different_master_different_keys() {
    let km1 = KeyManager::new(b"master-key-one-1234567890abcde").unwrap();
    let km2 = KeyManager::new(b"master-key-two-1234567890abcde").unwrap();
    assert_ne!(km1.encryption_key(), km2.encryption_key());
    assert_ne!(km1.search_key(), km2.search_key());
}

#[test]
fn test_search_token_non_zero() {
    let master = b"test-master-for-search-token-1234";
    let km = KeyManager::new(master).unwrap();
    assert!(!km.search_key().iter().all(|&b| b == 0));
}

#[test]
fn key_derivation_matches_hkdf_sha256_vectors() {
    let km = KeyManager::new(b"this-is-a-test-master-key-32bytes!").unwrap();
    let enc: [u8; 32] = [
        149, 199, 31, 88, 249, 105, 35, 64, 83, 187, 151, 88, 33, 191, 229, 12, 36, 57, 16, 185, 12, 65,
        217, 165, 29, 225, 244, 133, 246, 216, 4, 159,
    ];
    let search: [u8; 32] = [
        172, 162, 5, 53, 213, 9, 220, 62, 143, 34, 125, 250, 17, 19, 99, 194, 244, 116, 7, 51, 36, 88,
        177, 251, 172, 16, 19, 147, 122, 103, 224, 92,
    ];
    assert_eq!(km.encryption_key(), &enc);
    assert_eq!(km.search_key(), &search);
}

#[test]
fn empty_master_key_is_invalid_key_length() {
    match KeyManager::new(b"") {
        Err(CryptoError::InvalidKeyLength(_)) => {}
        _ => panic!("expected InvalidKeyLength"),
    }
}

fn test_generator() -> TokenGenerator {
    let key = [0x42u8; 32];
    TokenGenerator::new(&key)
}

#[test]
fn test_token_generation() {
    let gen = test_generator();
    let token = gen.generate("email", "alice@example.com");
    assert_ne!(token.as_bytes(), &[0u8; 32]);
}

#[test]
fn test_token_deterministic() {
    let key = [0x99u8; 32];
    let gen1 = TokenGenerator::new(&key);
    let gen2 = TokenGenerator::new(&key);

    let t1 = gen1.generate("email", "alice@example.com");
    let t2 = gen2.generate("email", "alice@example.com");
    assert_eq!(t1, t2);
}

#[test]
fn test_different_field_different_token() {
    let gen = test_generator();
    let t1 = gen.generate("email", "alice@example.com");
    let t2 = gen.generate("name", "alice@example.com");
    assert_ne!(t1, t2);
}

#[test]
fn test_different_value_different_token() {
    let gen = test_generator();
    let t1 = gen.generate("email", "alice@example.com");
    let t2 = gen.generate("email", "bob@example.com");
    assert_ne!(t1, t2);
}

#[test]
fn test_different_key_different_token() {
    let gen1 = TokenGenerator::new(&[0x11u8; 32]);
    let gen2 = TokenGenerator::new(&[0x22u8; 32]);
    let t1 = gen1.generate("email", "a@b.com");
    let t2 = gen2.generate("email", "a@b.com");
    assert_ne!(t1, t2);
}

#[test]
fn test_token_length() {
    let gen = test_generator();
    let token = gen.generate("field", "value");
    assert_eq!(token.as_bytes().len(), 32);
}

#[test]
fn test_empty_field_and_value() {
    let gen = test_generator();
    let t1 = gen.generate("", "value");
    let t2 = gen.generate("field", "");
    let t3 = gen.generate("", "");
    assert_ne!(t1.as_bytes(), &[0u8; 32]);
    assert_ne!(t2.as_bytes(), &[0u8; 32]);
    assert_ne!(t3.as_bytes(), &[0u8; 32]);
    assert_ne!(t1, t2);
    assert_ne!(t1, t3);
    assert_ne!(t2, t3);
}

#[test]
fn token_matches_hmac_sha256_vector() {
    let gen = test_generator();
    let expected: [u8; 32] = [
        179, 90, 15, 35, 112, 14, 130, 53, 16, 220, 69, 137, 222, 226, 180, 53, 154, 19, 156, 169, 31, 44,
        201, 197, 28, 74, 254, 124, 131, 74, 87, 26,
    ];
    assert_eq!(gen.generate("email", "alice@example.com").as_bytes(), &expected);
    let empty: [u8; 32] = [
        89, 134, 95, 176, 253, 204, 165, 53, 144, 249, 81, 246, 232, 4, 89, 113, 37, 199, 13, 167, 82, 81,
        142, 83, 215, 88, 132, 111, 230, 129, 4, 142,
    ];
    assert_eq!(gen.generate("", "").as_bytes(), &empty);
}

#[test]
fn token_separator_joins_field_and_value() {
    let gen = test_generator();
    assert_eq!(gen.generate("a:", ":b"), gen.generate("a", "::b"));
    assert_eq!(gen.generate("a", "b::"), gen.generate("a::b", ""));
}

#[test]
fn hex_token_parses() {
    let hex = "00ff10Ab".repeat(8);
    let t = parse_search_token(&hex).unwrap();
    let mut expected = [0u8; 32];
    for k in 0..8 {
        expected[4 * k..4 * k + 4].copy_from_slice(&[0x00, 0xFF, 0x10, 0xAB]);
    }
    assert_eq!(t.as_bytes(), &expected);
}

#[test]
fn hex_token_errors() {
    assert_eq!(parse_search_token("abc"), Err(TokenParseError::InvalidHex));
    assert_eq!(parse_search_token(&"zz".repeat(32)), Err(TokenParseError::InvalidHex));
    assert_eq!(parse_search_token("abcd"), Err(TokenParseError::WrongLength(2)));
    assert_eq!(parse_search_token(""), Err(TokenParseError::WrongLength(0)));
}

#[test]
fn encryption_under_a_given_nonce_is_deterministic() {
    let enc = test_encryptor();
    let p1 = enc.encrypt_with_nonce(RecordId(9), b"fixed", [7u8; 12]).unwrap();
    let p2 = enc.encrypt_with_nonce(RecordId(9), b"fixed", [7u8; 12]).unwrap();
    assert_eq!(p1, p2);
    assert_eq!(p1.nonce, [7u8; 12]);
    assert_eq!(enc.decrypt(RecordId(9), &p1).unwrap(), b"fixed");
    let p3 = enc.encrypt_with_nonce(RecordId(10), b"fixed", [7u8; 12]).unwrap();
    assert_ne!(p1.tag, p3.tag);
}
