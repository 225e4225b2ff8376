//! Record encryption with AES-256-GCM: a fresh random nonce per record and
//! the record id as associated data.

use vstd::prelude::*;
use aes_gcm::aead::{Aead, KeyInit, OsRng, Payload};
use aes_gcm::{Aes256Gcm, Nonce};
use rand::RngCore;
use crate::error::CryptoError;
use crate::types::{EncryptedPayload, RecordId};

verus! {

/// `aes_gcm::aead::Error`, the opaque error of an AEAD operation.
#[verifier::external_type_specification]
#[verifier::external_body]
pub struct ExAeadError(aes_gcm::aead::Error);

/// Largest plaintext AES-GCM accepts, in bytes (`aes_gcm::P_MAX`, 2^36).
pub open spec fn aes_gcm_p_max() -> int {
    68719476736
}

/// AES-256-GCM sealing of `msg` under `key` and `nonce` with associated
/// data `aad`: the ciphertext followed by the 16-byte tag, a function of the
/// four inputs alone.
pub uninterp spec fn aes256gcm_seal(key: Seq<u8>, nonce: Seq<u8>, aad: Seq<u8>, msg: Seq<u8>) -> Seq<u8>;

/// AES-256-GCM opening of `sealed` (ciphertext followed by tag): the
/// plaintext when the tag authenticates, nothing otherwise; a function of
/// the four inputs alone.
pub uninterp spec fn aes256gcm_open(key: Seq<u8>, nonce: Seq<u8>, aad: Seq<u8>, sealed: Seq<u8>) -> Option<Seq<u8>>;

/// `Aes256Gcm::new(key).encrypt(nonce, Payload { msg, aad })`. Claimed: it
/// succeeds exactly when the message is at most `aes_gcm::P_MAX` bytes (the
/// associated data being within `A_MAX`); the result is
/// `aes256gcm_seal(key, nonce, aad, msg)`, 16 bytes longer than the message,
/// and opening it under the same key, nonce and associated data gives the
/// message back.
#[verifier::external_body]
fn aes256gcm_encrypt(key: &[u8; 32], nonce: &[u8; 12], aad: &[u8], msg: &[u8]) -> (r: Result<Vec<u8>, aes_gcm::aead::Error>)
    requires
        aad@.len() <= aes_gcm_p_max(),
    ensures
        r is Ok <==> msg@.len() <= aes_gcm_p_max(),
        r is Ok ==> r->Ok_0@ == aes256gcm_seal(key@, nonce@, aad@, msg@),
        r is Ok ==> r->Ok_0@.len() == msg@.len() + 16,
        r is Ok ==> aes256gcm_open(key@, nonce@, aad@, r->Ok_0@) == Some(msg@),
{
    let cipher = Aes256Gcm::new(aes_gcm::Key::<Aes256Gcm>::from_slice(key));
    cipher.encrypt(Nonce::from_slice(nonce), Payload { msg, aad })
}

/// `Aes256Gcm::new(key).decrypt(nonce, Payload { msg: sealed, aad })`.
/// Claimed: it succeeds exactly when `aes256gcm_open` gives a plaintext, and
/// then returns that plaintext.
#[verifier::external_body]
fn aes256gcm_decrypt(key: &[u8; 32], nonce: &[u8; 12], aad: &[u8], sealed: &[u8]) -> (r: Result<Vec<u8>, aes_gcm::aead::Error>)
    ensures
        match r {
            Ok(p) => aes256gcm_open(key@, nonce@, aad@, sealed@) == Some(p@),
            Err(_) => aes256gcm_open(key@, nonce@, aad@, sealed@) is None,
        },
{
    let cipher = Aes256Gcm::new(aes_gcm::Key::<Aes256Gcm>::from_slice(key));
    cipher.decrypt(Nonce::from_slice(nonce), Payload { msg: sealed, aad })
}

/// `rand::Error` (`rand_core::Error`), the error of a random source that
/// could not answer.
#[verifier::external_type_specification]
#[verifier::external_body]
pub struct ExRandError(rand::Error);

/// Twelve bytes from the operating system's random number generator
/// (`rand::RngCore::try_fill_bytes` on `aes_gcm::aead::OsRng`), or the error
/// of the operating system's source. Nothing is claimed of the bytes, nor of
/// when the source fails.
#[verifier::external_body]
fn random_nonce() -> (r: Result<[u8; 12], rand::Error>) {
    let mut nonce = [0u8; 12];
    match OsRng.try_fill_bytes(&mut nonce) {
        Ok(()) => Ok(nonce),
        Err(e) => Err(e),
    }
}

/// The message of the error `encrypt` returns when the operating system's
/// random source gives no nonce.
pub open spec fn random_source_failure() -> Seq<char> {
    "random source failed"@
}

fn random_source_failure_text() -> (t: String)
    ensures
        t@ == random_source_failure(),
{
    "random source failed".to_owned()
}

/// Big-endian bytes of a 64-bit value.
pub open spec fn u64_be(x: u64) -> Seq<u8> {
    seq![
        (x / 72057594037927936 % 256) as u8,
        (x / 281474976710656 % 256) as u8,
        (x / 1099511627776 % 256) as u8,
        (x / 4294967296 % 256) as u8,
        (x / 16777216 % 256) as u8,
        (x / 65536 % 256) as u8,
        (x / 256 % 256) as u8,
        (x % 256) as u8,
    ]
}

/// The associated data of a record: its id in big-endian bytes.
pub open spec fn record_aad(record_id: RecordId) -> Seq<u8> {
    u64_be(record_id.0)
}

fn u64_be_bytes(x: u64) -> (b: [u8; 8])
    ensures
        b@ == u64_be(x),
{
    let b: [u8; 8] = [
        (x / 72057594037927936 % 256) as u8,
        (x / 281474976710656 % 256) as u8,
        (x / 1099511627776 % 256) as u8,
        (x / 4294967296 % 256) as u8,
        (x / 16777216 % 256) as u8,
        (x / 65536 % 256) as u8,
        (x / 256 % 256) as u8,
        (x % 256) as u8,
    ];
    assert(b@ =~= u64_be(x));
    b
}

/// What decrypting `payload` as record `record_id` under `key` yields.
pub open spec fn opened(key: Seq<u8>, record_id: RecordId, payload: EncryptedPayload) -> Option<Seq<u8>> {
    aes256gcm_open(key, payload.nonce@, record_aad(record_id), payload.ciphertext@ + payload.tag@)
}

/// Encrypts and decrypts payloads using AES-256-GCM.
pub struct Encryptor {
    key: [u8; 32],
}

impl View for Encryptor {
    type V = Seq<u8>;

    /// The encryption key.
    closed spec fn view(&self) -> Seq<u8> {
        self.key@
    }
}

impl Encryptor {
    /// Create a new encryptor from a 32-byte encryption key.
    pub fn new(enc_key: &[u8; 32]) -> (e: Self)
        ensures
            e@ == enc_key@,
    {
        Self { key: *enc_key }
    }

    /// Encrypt plaintext with a random nonce and RecordId as associated data.
    ///
    /// Fails when the operating system's random source fails, or when the
    /// plaintext is longer than AES-GCM accepts.
    pub fn encrypt(&self, record_id: RecordId, plaintext: &[u8]) -> (r: Result<EncryptedPayload, CryptoError>)
        ensures
            match r {
                Ok(p) => {
                    &&& plaintext@.len() <= aes_gcm_p_max()
                    &&& p.ciphertext@ + p.tag@ == aes256gcm_seal(self@, p.nonce@, record_aad(record_id), plaintext@)
                    &&& p.ciphertext@.len() == plaintext@.len()
                    &&& opened(self@, record_id, p) == Some(plaintext@)
                },
                Err(e) => e is EncryptionFailed,
            },
            plaintext@.len() > aes_gcm_p_max() ==> r is Err,
            r is Err ==> plaintext@.len() > aes_gcm_p_max() || (r matches Err(
                CryptoError::EncryptionFailed(m),
            ) && m@ == random_source_failure()),
    {
        let nonce = match random_nonce() {
            Ok(n) => n,
            Err(_) => return Err(CryptoError::EncryptionFailed(random_source_failure_text())),
        };
        self.encrypt_with_nonce(record_id, plaintext, nonce)
    }

    /// Encrypt plaintext under the given nonce with RecordId as associated
    /// data: the step of `encrypt` after the nonce was drawn.
    pub fn encrypt_with_nonce(&self, record_id: RecordId, plaintext: &[u8], nonce: [u8; 12]) -> (r: Result<EncryptedPayload, CryptoError>)
        ensures
            match r {
                Ok(p) => {
                    &&& plaintext@.len() <= aes_gcm_p_max()
                    &&& p.nonce == nonce
                    &&& p.ciphertext@ + p.tag@ == aes256gcm_seal(self@, nonce@, record_aad(record_id), plaintext@)
                    &&& p.ciphertext@.len() == plaintext@.len()
                    &&& opened(self@, record_id, p) == Some(plaintext@)
                },
                Err(e) => plaintext@.len() > aes_gcm_p_max() && e is EncryptionFailed,
            },
    {
        let aad = u64_be_bytes(record_id.0);
        let ciphertext_with_tag = match aes256gcm_encrypt(&self.key, &nonce, aad.as_slice(), plaintext) {
            Ok(c) => c,
            Err(e) => return Err(CryptoError::EncryptionFailed(e.to_string())),
        };
        if ciphertext_with_tag.len() < 16 {
            return Err(CryptoError::EncryptionFailed("ciphertext too short".to_string()));
        }
        let ciphertext_len = ciphertext_with_tag.len() - 16;
        let ciphertext = vstd::slice::slice_to_vec(
            vstd::slice::slice_subrange(ciphertext_with_tag.as_slice(), 0, ciphertext_len),
        );
        let mut tag = [0u8; 16];
        assert(ciphertext_with_tag@.len() == ciphertext_with_tag.len());
        let mut i: usize = 0;
        while i < 16
            invariant
                ciphertext_len + 16 == ciphertext_with_tag@.len(),
                ciphertext_with_tag@.len() <= usize::MAX,
                0 <= i <= 16,
                forall|j: int| 0 <= j < i ==> tag@[j] == ciphertext_with_tag@[ciphertext_len + j],
            decreases 16 - i,
        {
            tag[i] = ciphertext_with_tag[ciphertext_len + i];
            i = i + 1;
        }
        let payload = EncryptedPayload { nonce, ciphertext, tag };
        assert(payload.ciphertext@ + payload.tag@ =~= ciphertext_with_tag@);
        Ok(payload)
    }

    /// Decrypt an encrypted payload, verifying the authentication tag.
    pub fn decrypt(&self, record_id: RecordId, payload: &EncryptedPayload) -> (r: Result<Vec<u8>, CryptoError>)
        ensures
            match r {
                Ok(p) => opened(self@, record_id, *payload) == Some(p@),
                Err(e) => opened(self@, record_id, *payload) is None && e is DecryptionFailed,
            },
    {
        let aad = u64_be_bytes(record_id.0);
        let mut ciphertext_with_tag: Vec<u8> = Vec::new();
        crate::token::append_bytes(&mut ciphertext_with_tag, payload.ciphertext.as_slice());
        crate::token::append_bytes(&mut ciphertext_with_tag, payload.tag.as_slice());
        match aes256gcm_decrypt(&self.key, &payload.nonce, aad.as_slice(), ciphertext_with_tag.as_slice()) {
            Ok(p) => Ok(p),
            Err(e) => Err(CryptoError::DecryptionFailed(e.to_string())),
        }
    }
}

} // verus!
