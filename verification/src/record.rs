//! The byte layout of a record as the engine stores it in a page slot: the
//! record id, then the encrypted payload's nonce, the ciphertext's length,
//! the ciphertext and the tag. Integers are 8 bytes, little-endian. Bytes
//! after the tag are ignored when reading.

use vstd::prelude::*;
use vstd::arithmetic::div_mod::{lemma_div_denominator, lemma_div_is_ordered, lemma_fundamental_div_mod, lemma_small_mod};
use crate::types::{EncryptedPayload, RecordId};

verus! {

/// Little-endian bytes of a 64-bit value.
pub open spec fn le64(x: int) -> Seq<u8> {
    seq![
        (x % 0x100) as u8,
        (x / 0x100 % 0x100) as u8,
        (x / 0x10000 % 0x100) as u8,
        (x / 0x1000000 % 0x100) as u8,
        (x / 0x100000000 % 0x100) as u8,
        (x / 0x10000000000 % 0x100) as u8,
        (x / 0x1000000000000 % 0x100) as u8,
        (x / 0x100000000000000 % 0x100) as u8,
    ]
}

/// Little-endian 64-bit value of the eight bytes at `i`.
pub open spec fn le64_at(b: Seq<u8>, i: int) -> int {
    b[i] as int + b[i + 1] as int * 0x100 + b[i + 2] as int * 0x10000 + b[i + 3] as int * 0x1000000
        + b[i + 4] as int * 0x100000000 + b[i + 5] as int * 0x10000000000 + b[i + 6] as int
        * 0x1000000000000 + b[i + 7] as int * 0x100000000000000
}

/// The stored bytes of a record.
pub open spec fn encoded_record(id: RecordId, p: EncryptedPayload) -> Seq<u8> {
    le64(id.0 as int) + p.nonce@ + le64(p.ciphertext@.len() as int) + p.ciphertext@ + p.tag@
}

/// What reading stored bytes gives: the record id, nonce, ciphertext and
/// tag, or nothing when the bytes end before the tag does.
pub open spec fn parse_record(b: Seq<u8>) -> Option<(RecordId, Seq<u8>, Seq<u8>, Seq<u8>)> {
    if b.len() < 28 {
        None
    } else {
        let n = le64_at(b, 20);
        if b.len() - 44 < n {
            None
        } else {
            Some((RecordId(le64_at(b, 0) as u64), b.subrange(8, 20), b.subrange(28, 28 + n), b.subrange(28 + n, 44 + n)))
        }
    }
}

proof fn lemma_le64(x: int)
    requires
        0 <= x < 0x10000000000000000,
    ensures
        le64(x).len() == 8,
        le64_at(le64(x), 0) == x,
{
    lemma_fundamental_div_mod(x, 0x100);
    lemma_digit(x, 0x100);
    lemma_digit(x, 0x10000);
    lemma_digit(x, 0x1000000);
    lemma_digit(x, 0x100000000);
    lemma_digit(x, 0x10000000000);
    lemma_digit(x, 0x1000000000000);
    lemma_digit(x, 0x100000000000000);
    assert(x / 0x100000000000000 < 0x100) by {
        lemma_div_is_ordered(x, 0xffffffffffffffff, 0x100000000000000);
    }
    lemma_small_mod((x / 0x100000000000000) as nat, 0x100);
}

/// Dividing by `c` and then taking the byte: `x / c == x / c % 256 + 256 * (x / (256 * c))`.
proof fn lemma_digit(x: int, c: int)
    requires
        0 <= x,
        0 < c,
    ensures
        x / c == x / c % 0x100 + 0x100 * (x / (c * 0x100)),
{
    lemma_fundamental_div_mod(x / c, 0x100);
    lemma_div_denominator(x, c, 0x100);
}

/// Reading back the stored bytes of a record, with anything after them, gives
/// the record.
pub proof fn lemma_record_roundtrip(id: RecordId, p: EncryptedPayload, tail: Seq<u8>)
    requires
        p.ciphertext@.len() < 0x10000000000000000,
    ensures
        parse_record(encoded_record(id, p) + tail) == Some((id, p.nonce@, p.ciphertext@, p.tag@)),
{
    let n = p.ciphertext@.len() as int;
    lemma_le64(id.0 as int);
    lemma_le64(n);
    let b = encoded_record(id, p) + tail;
    let h = le64(id.0 as int);
    let l = le64(n);
    assert(b.len() == 44 + n + tail.len());
    assert forall|k: int| 0 <= k < 8 implies b[k] == h[k] by {}
    assert forall|k: int| 0 <= k < 8 implies b[20 + k] == l[k] by {}
    assert(le64_at(b, 0) == le64_at(h, 0));
    assert(le64_at(b, 20) == le64_at(l, 0));
    assert(b.subrange(8, 20) =~= p.nonce@);
    assert(b.subrange(28, 28 + n) =~= p.ciphertext@);
    assert(b.subrange(28 + n, 44 + n) =~= p.tag@);
}

fn push_le64(out: &mut Vec<u8>, x: u64)
    ensures
        final(out)@ == old(out)@ + le64(x as int),
{
    out.push((x % 0x100) as u8);
    out.push((x / 0x100 % 0x100) as u8);
    out.push((x / 0x10000 % 0x100) as u8);
    out.push((x / 0x1000000 % 0x100) as u8);
    out.push((x / 0x100000000 % 0x100) as u8);
    out.push((x / 0x10000000000 % 0x100) as u8);
    out.push((x / 0x1000000000000 % 0x100) as u8);
    out.push((x / 0x100000000000000 % 0x100) as u8);
    assert(out@ =~= old(out)@ + le64(x as int));
}

fn push_bytes(out: &mut Vec<u8>, data: &[u8])
    ensures
        final(out)@ == old(out)@ + data@,
{
    let mut i: usize = 0;
    while i < data.len()
        invariant
            0 <= i <= data@.len(),
            out@ == old(out)@ + data@.take(i as int),
        decreases data@.len() - i,
    {
        out.push(data[i]);
        assert(data@.take(i + 1) =~= data@.take(i as int).push(data@[i as int]));
        i = i + 1;
    }
    assert(data@.take(i as int) =~= data@);
}

fn read_le64(b: &[u8], i: usize) -> (v: u64)
    requires
        i + 8 <= b@.len(),
    ensures
        v == le64_at(b@, i as int),
{
    b[i] as u64 + (b[i + 1] as u64) * 0x100 + (b[i + 2] as u64) * 0x10000 + (b[i + 3] as u64)
        * 0x1000000 + (b[i + 4] as u64) * 0x100000000 + (b[i + 5] as u64) * 0x10000000000 + (b[i
        + 6] as u64) * 0x1000000000000 + (b[i + 7] as u64) * 0x100000000000000
}

/// The bytes under which a record is stored in a page slot.
pub fn encode_record(id: RecordId, payload: &EncryptedPayload) -> (out: Vec<u8>)
    ensures
        out@ == encoded_record(id, *payload),
{
    let mut out: Vec<u8> = Vec::new();
    push_le64(&mut out, id.0);
    push_bytes(&mut out, payload.nonce.as_slice());
    push_le64(&mut out, payload.ciphertext.len() as u64);
    push_bytes(&mut out, payload.ciphertext.as_slice());
    push_bytes(&mut out, payload.tag.as_slice());
    out
}

/// Read a stored record back: its id and payload, or `None` when the bytes
/// end before the tag does.
pub fn decode_record(b: &[u8]) -> (r: Option<(RecordId, EncryptedPayload)>)
    ensures
        match r {
            Some((id, p)) => parse_record(b@) == Some((id, p.nonce@, p.ciphertext@, p.tag@)),
            None => parse_record(b@) is None,
        },
{
    if b.len() < 28 {
        return None;
    }
    let id = read_le64(b, 0);
    let n = read_le64(b, 20);
    let avail = b.len() - 28;
    if (avail as u64) < n || avail - (n as usize) < 16 {
        return None;
    }
    let n = n as usize;
    let mut nonce = [0u8; 12];
    let mut k: usize = 0;
    while k < 12
        invariant
            b@.len() >= 28,
            0 <= k <= 12,
            forall|j: int| 0 <= j < k ==> nonce@[j] == b@[8 + j],
        decreases 12 - k,
    {
        nonce[k] = b[8 + k];
        k = k + 1;
    }
    let tag_start: usize = 28 + n;
    let blen: usize = b.len();
    let mut tag = [0u8; 16];
    let mut k: usize = 0;
    while k < 16
        invariant
            blen == b@.len(),
            tag_start + 16 <= blen,
            0 <= k <= 16,
            forall|j: int| 0 <= j < k ==> tag@[j] == b@[tag_start + j],
        decreases 16 - k,
    {
        tag[k] = b[tag_start + k];
        k = k + 1;
    }
    let ciphertext = vstd::slice::slice_to_vec(&b[28..28 + n]);
    assert(nonce@ =~= b@.subrange(8, 20));
    assert(tag@ =~= b@.subrange(28 + n as int, 44 + n as int));
    Some((RecordId(id), EncryptedPayload { nonce, ciphertext, tag }))
}

} // verus!
