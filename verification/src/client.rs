//! The trusted client: key derivation, record encryption and search-token
//! generation behind the `Client` interface.

use vstd::prelude::*;
use vstd::string::StringSliceAdditionalSpecFns;
use crate::encryptor::{
    Encryptor, aes256gcm_seal, aes_gcm_p_max, opened, random_source_failure, record_aad,
};
use crate::error::CryptoError;
use crate::key_manager::{KeyManager, hkdf_sha256_okm32, info_enc, info_search};
use crate::token::{TokenGenerator, hmac_sha256, token_message};
use crate::traits::Client;
use crate::types::{EncryptedPayload, RecordId, SearchToken};

verus! {

/// A concrete implementation of the `Client` trait.
///
/// Manages key derivation, encryption/decryption, and search token generation
/// on the trusted client side. The engine never receives the master key or
/// any derived key material.
pub struct PickleClient {
    encryptor: Encryptor,
    token_gen: TokenGenerator,
}

impl View for PickleClient {
    type V = (Seq<u8>, Seq<u8>);

    /// The encryption key and the search key.
    closed spec fn view(&self) -> (Seq<u8>, Seq<u8>) {
        (self.encryptor@, self.token_gen@)
    }
}

impl PickleClient {
    /// Create a new client from a master key.
    ///
    /// The master key is used to derive K_enc and K_search via HKDF-SHA256.
    pub fn new(master_key: &[u8]) -> (r: Result<Self, CryptoError>)
        ensures
            match r {
                Ok(c) => {
                    &&& master_key@.len() > 0
                    &&& c@.0 == hkdf_sha256_okm32(master_key@, info_enc())
                    &&& c@.1 == hkdf_sha256_okm32(master_key@, info_search())
                },
                Err(e) => master_key@.len() == 0 && e is InvalidKeyLength,
            },
    {
        let km = KeyManager::new(master_key)?;
        let encryptor = Encryptor::new(km.encryption_key());
        let token_gen = TokenGenerator::new(km.search_key());
        Ok(Self { encryptor, token_gen })
    }
}

impl Client for PickleClient {
    fn encrypt(&self, record_id: RecordId, plaintext: &[u8]) -> (r: Result<EncryptedPayload, CryptoError>)
        ensures
            match r {
                Ok(p) => {
                    &&& plaintext@.len() <= aes_gcm_p_max()
                    &&& p.ciphertext@ + p.tag@ == aes256gcm_seal(self@.0, p.nonce@, record_aad(record_id), plaintext@)
                    &&& p.ciphertext@.len() == plaintext@.len()
                    &&& opened(self@.0, record_id, p) == Some(plaintext@)
                },
                Err(e) => e is EncryptionFailed,
            },
            plaintext@.len() > aes_gcm_p_max() ==> r is Err,
            r is Err ==> plaintext@.len() > aes_gcm_p_max() || (r matches Err(
                CryptoError::EncryptionFailed(m),
            ) && m@ == random_source_failure()),
    {
        self.encryptor.encrypt(record_id, plaintext)
    }

    fn decrypt(&self, record_id: RecordId, payload: &EncryptedPayload) -> (r: Result<Vec<u8>, CryptoError>)
        ensures
            match r {
                Ok(p) => opened(self@.0, record_id, *payload) == Some(p@),
                Err(e) => opened(self@.0, record_id, *payload) is None && e is DecryptionFailed,
            },
    {
        self.encryptor.decrypt(record_id, payload)
    }

    fn derive_search_token(&self, field_id: &str, value: &str) -> (token: SearchToken)
        ensures
            token@ == hmac_sha256(self@.1, token_message(field_id.spec_bytes(), value.spec_bytes())),
    {
        self.token_gen.generate(field_id, value)
    }
}

} // verus!
