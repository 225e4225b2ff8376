//! Search tokens: `token = HMAC-SHA256(K_search, field_id || "::" || value)`.

use vstd::prelude::*;
use hmac::Mac;
use vstd::string::StringSliceAdditionalSpecFns;
use crate::types::SearchToken;

verus! {

/// HMAC-SHA256 of `msg` under `key`: what `hmac::Hmac<sha2::Sha256>`
/// computes, a function of the key and the message alone.
pub uninterp spec fn hmac_sha256(key: Seq<u8>, msg: Seq<u8>) -> Seq<u8>;

/// `hmac::Hmac::<sha2::Sha256>::new_from_slice(key)`, one `update(msg)`,
/// `finalize()`: the 32-byte tag. Claimed: the tag is `hmac_sha256(key, msg)`
/// (the tag is 32 bytes by the type of the result). `new_from_slice` accepts
/// keys of every length for HMAC, so the call does not fail.
#[verifier::external_body]
fn hmac_sha256_tag(key: &[u8; 32], msg: &[u8]) -> (tag: [u8; 32])
    ensures
        tag@ == hmac_sha256(key@, msg@),
{
    let mut mac = hmac::Hmac::<sha2::Sha256>::new_from_slice(key).expect("HMAC-SHA256 accepts 32-byte keys");
    mac.update(msg);
    mac.finalize().into_bytes().into()
}

/// The message a token authenticates: the field name, `::`, the value.
pub open spec fn token_message(field_id: Seq<u8>, value: Seq<u8>) -> Seq<u8> {
    field_id + seq![58u8, 58u8] + value
}

/// Generates search tokens using HMAC-SHA256.
///
/// `token = HMAC(K_search, field_id || "::" || value)`
pub struct TokenGenerator {
    key: [u8; 32],
}

impl View for TokenGenerator {
    type V = Seq<u8>;

    /// The search key.
    closed spec fn view(&self) -> Seq<u8> {
        self.key@
    }
}

impl TokenGenerator {
    /// Create a new token generator from the 32-byte search key.
    pub fn new(search_key: &[u8; 32]) -> (g: Self)
        ensures
            g@ == search_key@,
    {
        Self { key: *search_key }
    }

    /// Derive a search token for the given field name and value.
    pub fn generate(&self, field_id: &str, value: &str) -> (token: SearchToken)
        ensures
            token@ == hmac_sha256(self@, token_message(field_id.spec_bytes(), value.spec_bytes())),
    {
        let f = field_id.as_bytes();
        let v = value.as_bytes();
        let mut msg: Vec<u8> = Vec::new();
        append_bytes(&mut msg, f);
        msg.push(58u8);
        msg.push(58u8);
        append_bytes(&mut msg, v);
        assert(msg@ =~= token_message(field_id.spec_bytes(), value.spec_bytes()));
        let token_bytes = hmac_sha256_tag(&self.key, msg.as_slice());
        SearchToken(token_bytes)
    }
}

/// Append the bytes of `src` to `dst`.
pub fn append_bytes(dst: &mut Vec<u8>, src: &[u8])
    ensures
        final(dst)@ == old(dst)@ + src@,
{
    let mut i: usize = 0;
    while i < src.len()
        invariant
            0 <= i <= src@.len(),
            dst@ == old(dst)@ + src@.take(i as int),
        decreases src@.len() - i,
    {
        dst.push(src[i]);
        assert(src@.take(i + 1) =~= src@.take(i as int).push(src@[i as int]));
        i = i + 1;
    }
    assert(src@.take(i as int) =~= src@);
}

// ─── Tokens written in hex ───

/// `hex::FromHexError`, the error of decoding a hex string.
#[verifier::external_type_specification]
#[verifier::external_body]
pub struct ExFromHexError(hex::FromHexError);

/// The value of one hex digit (either case), or nothing.
pub open spec fn hex_digit(c: u8) -> Option<int> {
    if 48 <= c <= 57 {
        Some(c - 48)
    } else if 65 <= c <= 70 {
        Some(c - 55)
    } else if 97 <= c <= 102 {
        Some(c - 87)
    } else {
        None
    }
}

/// The bytes a hex string stands for: two digits per byte, high digit first;
/// nothing for an odd length or a character that is not a hex digit.
pub open spec fn hex_decoded(s: Seq<u8>) -> Option<Seq<u8>> {
    if s.len() % 2 != 0 {
        None
    } else if forall|i: int| 0 <= i < s.len() ==> #[trigger] hex_digit(s[i]) is Some {
        Some(Seq::new((s.len() / 2) as nat, |k: int| (hex_digit(s[2 * k])->0 * 16 + hex_digit(s[2 * k + 1])->0) as u8))
    } else {
        None
    }
}

/// `hex::decode(s)`. Claimed, as its source shows: an odd length or a
/// character outside `0-9a-fA-F` is an error, and otherwise each pair of
/// digits gives one byte, high digit first.
#[verifier::external_body]
fn hex_decode(s: &str) -> (r: Result<Vec<u8>, hex::FromHexError>)
    ensures
        match r {
            Ok(v) => hex_decoded(s.spec_bytes()) == Some(v@),
            Err(_) => hex_decoded(s.spec_bytes()) is None,
        },
{
    hex::decode(s)
}

/// Why a hex string is not a search token.
#[derive(Debug, PartialEq, Eq, Structural)]
pub enum TokenParseError {
    /// The string is not hex.
    InvalidHex,
    /// The string is hex but does not stand for 32 bytes.
    WrongLength(usize),
}

/// Read a search token written as 64 hex digits.
pub fn parse_search_token(token_hex: &str) -> (r: Result<SearchToken, TokenParseError>)
    ensures
        match r {
            Ok(t) => hex_decoded(token_hex.spec_bytes()) == Some(t@),
            Err(TokenParseError::InvalidHex) => hex_decoded(token_hex.spec_bytes()) is None,
            Err(TokenParseError::WrongLength(n)) => hex_decoded(token_hex.spec_bytes()) matches Some(b)
                && b.len() == n && n != 32,
        },
{
    let bytes = match hex_decode(token_hex) {
        Ok(b) => b,
        Err(_) => return Err(TokenParseError::InvalidHex),
    };
    if bytes.len() != 32 {
        return Err(TokenParseError::WrongLength(bytes.len()));
    }
    let mut token_bytes = [0u8; 32];
    let mut i: usize = 0;
    while i < 32
        invariant
            bytes@.len() == 32,
            0 <= i <= 32,
            forall|j: int| 0 <= j < i ==> token_bytes@[j] == bytes@[j],
        decreases 32 - i,
    {
        token_bytes[i] = bytes[i];
        i = i + 1;
    }
    assert(token_bytes@ =~= bytes@);
    Ok(SearchToken(token_bytes))
}

} // verus!
