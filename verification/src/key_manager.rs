//! Key derivation: `K_enc` and `K_search` from the master key by
//! HKDF-SHA256.

use vstd::prelude::*;
use crate::error::CryptoError;

verus! {

/// `hkdf::InvalidLength`, the error of an HKDF expansion asked for too many
/// bytes.
#[verifier::external_type_specification]
#[verifier::external_body]
pub struct ExInvalidLength(hkdf::InvalidLength);

/// The 32 bytes of HKDF-SHA256 output keying material for input keying
/// material `ikm` (no salt) and context `info`: a function of the two alone.
pub uninterp spec fn hkdf_sha256_okm32(ikm: Seq<u8>, info: Seq<u8>) -> Seq<u8>;

/// `hkdf::Hkdf::<sha2::Sha256>::new(None, ikm)` followed by
/// `expand(info, &mut okm)` into a 32-byte buffer. Claimed: the expansion
/// succeeds (it fails only for more than 255 * 32 bytes) and the bytes are
/// `hkdf_sha256_okm32(ikm, info)`.
#[verifier::external_body]
fn hkdf_sha256_expand32(ikm: &[u8], info: &[u8]) -> (r: Result<[u8; 32], hkdf::InvalidLength>)
    ensures
        r is Ok,
        r->Ok_0@ == hkdf_sha256_okm32(ikm@, info@),
{
    let hk = hkdf::Hkdf::<sha2::Sha256>::new(None, ikm);
    let mut okm = [0u8; 32];
    match hk.expand(info, &mut okm) {
        Ok(()) => Ok(okm),
        Err(e) => Err(e),
    }
}

/// The context string of the encryption key: `pickledb-enc-key`.
pub open spec fn info_enc() -> Seq<u8> {
    seq![112u8, 105, 99, 107, 108, 101, 100, 98, 45, 101, 110, 99, 45, 107, 101, 121]
}

/// The context string of the search key: `pickledb-search-key`.
pub open spec fn info_search() -> Seq<u8> {
    seq![112u8, 105, 99, 107, 108, 101, 100, 98, 45, 115, 101, 97, 114, 99, 104, 45, 107, 101, 121]
}

fn info_enc_bytes() -> (b: [u8; 16])
    ensures
        b@ == info_enc(),
{
    let b: [u8; 16] = [112, 105, 99, 107, 108, 101, 100, 98, 45, 101, 110, 99, 45, 107, 101, 121];
    assert(b@ =~= info_enc());
    b
}

fn info_search_bytes() -> (b: [u8; 19])
    ensures
        b@ == info_search(),
{
    let b: [u8; 19] = [112, 105, 99, 107, 108, 101, 100, 98, 45, 115, 101, 97, 114, 99, 104, 45, 107, 101, 121];
    assert(b@ =~= info_search());
    b
}

/// Derives an encryption key and a search key from a master key using HKDF-SHA256.
pub struct KeyManager {
    enc_key: [u8; 32],
    search_key: [u8; 32],
}

impl View for KeyManager {
    type V = (Seq<u8>, Seq<u8>);

    /// The encryption key and the search key.
    closed spec fn view(&self) -> (Seq<u8>, Seq<u8>) {
        (self.enc_key@, self.search_key@)
    }
}

impl KeyManager {
    /// Derive K_enc and K_search from K_master using HKDF-SHA256.
    pub fn new(master_key: &[u8]) -> (r: Result<Self, CryptoError>)
        ensures
            match r {
                Ok(km) => {
                    &&& master_key@.len() > 0
                    &&& km@.0 == hkdf_sha256_okm32(master_key@, info_enc())
                    &&& km@.1 == hkdf_sha256_okm32(master_key@, info_search())
                },
                Err(e) => master_key@.len() == 0 && e is InvalidKeyLength,
            },
    {
        if master_key.len() == 0 {
            return Err(CryptoError::InvalidKeyLength("master key must not be empty".to_string()));
        }
        let info_enc = info_enc_bytes();
        let enc_key = match hkdf_sha256_expand32(master_key, info_enc.as_slice()) {
            Ok(k) => k,
            Err(e) => return Err(CryptoError::KeyDerivationFailed(e.to_string())),
        };
        let info_search = info_search_bytes();
        let search_key = match hkdf_sha256_expand32(master_key, info_search.as_slice()) {
            Ok(k) => k,
            Err(e) => return Err(CryptoError::KeyDerivationFailed(e.to_string())),
        };
        Ok(Self { enc_key, search_key })
    }

    /// Returns a reference to the derived encryption key.
    pub fn encryption_key(&self) -> (k: &[u8; 32])
        ensures
            k@ == self@.0,
    {
        &self.enc_key
    }

    /// Returns a reference to the derived search key.
    pub fn search_key(&self) -> (k: &[u8; 32])
        ensures
            k@ == self@.1,
    {
        &self.search_key
    }
}

} // verus!
