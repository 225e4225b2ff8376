//! The slotted page: a 4096-byte buffer holding a binary header, a slot
//! array growing from the header downward, and record data growing from the
//! end of the page upward.
//!
//! Layout (all integers big-endian):
//! - bytes 0..4: magic number
//! - byte 4: page type
//! - bytes 5..9: page id
//! - bytes 9..17: LSN
//! - bytes 17..19: slot count
//! - bytes 19..21: free offset (start of the record data region)
//! - bytes 21..21 + 4 * slot_count: slots, each (offset: u16, length: u16)

use vstd::prelude::*;
use crate::error::PageError;
use crate::types::{LSN, MAGIC_NUMBER, PAGE_SIZE, PageId, PageType};

verus! {

/// Slotted page header size in bytes.
pub const HEADER_SIZE: usize = 21;

/// Size of each slot entry in bytes.
pub const SLOT_SIZE: usize = 4;

// ─── Byte model ───

/// Big-endian 16-bit value at position `i` of `b`.
pub open spec fn be16(b: Seq<u8>, i: int) -> int {
    b[i] as int * 256 + b[i + 1] as int
}

/// Big-endian 32-bit value at position `i` of `b`.
pub open spec fn be32(b: Seq<u8>, i: int) -> int {
    be16(b, i) * 65536 + be16(b, i + 2)
}

/// Big-endian 64-bit value at position `i` of `b`.
pub open spec fn be64(b: Seq<u8>, i: int) -> int {
    be32(b, i) * 4294967296 + be32(b, i + 4)
}

/// `b` with the big-endian 16-bit encoding of `v` written at `i`.
pub open spec fn put16(b: Seq<u8>, i: int, v: int) -> Seq<u8> {
    b.update(i, (v / 256) as u8).update(i + 1, (v % 256) as u8)
}

/// `b` with the big-endian 32-bit encoding of `v` written at `i`.
pub open spec fn put32(b: Seq<u8>, i: int, v: int) -> Seq<u8> {
    put16(put16(b, i, v / 65536), i + 2, v % 65536)
}

/// `b` with the big-endian 64-bit encoding of `v` written at `i`.
pub open spec fn put64(b: Seq<u8>, i: int, v: int) -> Seq<u8> {
    put32(put32(b, i, v / 4294967296), i + 4, v % 4294967296)
}

/// `b` with the bytes of `d` written from position `start` on.
pub open spec fn write_bytes(b: Seq<u8>, start: int, d: Seq<u8>) -> Seq<u8> {
    Seq::new(b.len(), |p: int| if start <= p < start + d.len() { d[p - start] } else { b[p] })
}

/// `b` with the bytes of `[start, end)` set to zero.
pub open spec fn zero_bytes(b: Seq<u8>, start: int, end: int) -> Seq<u8> {
    Seq::new(b.len(), |p: int| if start <= p < end { 0u8 } else { b[p] })
}

// ─── Header fields ───

pub open spec fn magic_of(b: Seq<u8>) -> int {
    be32(b, 0)
}

pub open spec fn page_id_of(b: Seq<u8>) -> int {
    be32(b, 5)
}

pub open spec fn lsn_of(b: Seq<u8>) -> int {
    be64(b, 9)
}

pub open spec fn slot_count_of(b: Seq<u8>) -> int {
    be16(b, 17)
}

pub open spec fn free_offset_of(b: Seq<u8>) -> int {
    be16(b, 19)
}

/// The byte that encodes a page type.
pub open spec fn page_type_code(pt: PageType) -> u8 {
    match pt {
        PageType::Data => 0,
        PageType::Index => 1,
        PageType::Meta => 2,
        PageType::Free => 3,
    }
}

/// The page type that a type byte decodes to (unknown bytes read as `Free`).
pub open spec fn page_type_of_code(c: u8) -> PageType {
    if c == 0 {
        PageType::Data
    } else if c == 1 {
        PageType::Index
    } else if c == 2 {
        PageType::Meta
    } else {
        PageType::Free
    }
}

/// End of the slot array, as the page computes it in 16 bits.
pub open spec fn slot_end_of(b: Seq<u8>) -> int {
    (21 + 4 * slot_count_of(b)) % 65536
}

/// Free space between the slot array and the record data.
pub open spec fn free_space_of(b: Seq<u8>) -> int {
    if slot_end_of(b) > free_offset_of(b) {
        0
    } else {
        free_offset_of(b) - slot_end_of(b)
    }
}

// ─── Slots and records ───

pub open spec fn slot_offset_of(b: Seq<u8>, i: int) -> int {
    be16(b, 21 + 4 * i)
}

pub open spec fn slot_length_of(b: Seq<u8>, i: int) -> int {
    be16(b, 23 + 4 * i)
}

/// The bytes of the record that slot `i` points to.
pub open spec fn record_of(b: Seq<u8>, i: int) -> Seq<u8> {
    b.subrange(slot_offset_of(b, i), slot_offset_of(b, i) + slot_length_of(b, i))
}

/// The records of the page, in slot order.
pub open spec fn records_of(b: Seq<u8>) -> Seq<Seq<u8>> {
    Seq::new(slot_count_of(b) as nat, |i: int| record_of(b, i))
}

/// Slot `i` lies inside the page and points inside it.
pub open spec fn slot_readable(b: Seq<u8>, i: int) -> bool {
    25 + 4 * i <= 4096 && slot_offset_of(b, i) + slot_length_of(b, i) <= 4096
}

/// Every slot of the page lies inside it and points inside it.
pub open spec fn records_readable(b: Seq<u8>) -> bool {
    forall|i: int| 0 <= i < slot_count_of(b) ==> #[trigger] slot_readable(b, i)
}

/// A page as `new` builds it and as every public mutator keeps it: well
/// formed and carrying the magic number, so that `from_buffer` accepts its
/// bytes unchanged.
pub open spec fn sound_page(b: Seq<u8>) -> bool {
    well_formed(b) && magic_of(b) == MAGIC_NUMBER
}

/// Sum of the lengths of the first `n` slots.
pub open spec fn total_len(b: Seq<u8>, n: int) -> int
    decreases n,
{
    if n <= 0 {
        0
    } else {
        total_len(b, n - 1) + slot_length_of(b, n - 1)
    }
}

/// A page whose slot array ends before the data region, whose records lie
/// pairwise apart inside the data region, and whose records fit there.
pub open spec fn well_formed(b: Seq<u8>) -> bool {
    &&& b.len() == 4096
    &&& 21 + 4 * slot_count_of(b) <= free_offset_of(b) <= 4096
    &&& forall|i: int|
        0 <= i < slot_count_of(b) ==> free_offset_of(b) <= #[trigger] slot_offset_of(b, i)
            && slot_offset_of(b, i) + slot_length_of(b, i) <= 4096
    &&& forall|i: int, j: int|
        0 <= i < slot_count_of(b) && 0 <= j < slot_count_of(b) && i != j ==> slot_offset_of(b, i)
            + slot_length_of(b, i) <= #[trigger] slot_offset_of(b, j) || slot_offset_of(b, j)
            + slot_length_of(b, j) <= #[trigger] slot_offset_of(b, i)
    &&& total_len(b, slot_count_of(b)) <= 4096 - free_offset_of(b)
}

// ─── Lemmas on the byte model ───

/// Two pages that agree from the slot count on have the same layout and records.
proof fn lemma_same_body(b1: Seq<u8>, b2: Seq<u8>)
    requires
        b1.len() == 4096,
        b2.len() == 4096,
        forall|p: int| 17 <= p < 4096 ==> #[trigger] b1[p] == b2[p],
    ensures
        slot_count_of(b1) == slot_count_of(b2),
        free_offset_of(b1) == free_offset_of(b2),
        free_space_of(b1) == free_space_of(b2),
        well_formed(b1) <==> well_formed(b2),
        well_formed(b1) ==> records_of(b1) == records_of(b2),
{
    assert(b1[17] == b2[17] && b1[18] == b2[18] && b1[19] == b2[19] && b1[20] == b2[20]);
    let c = slot_count_of(b1);
    if 21 + 4 * c <= 4096 {
        assert forall|i: int| 0 <= i < c implies slot_offset_of(b1, i) == slot_offset_of(b2, i)
            && slot_length_of(b1, i) == slot_length_of(b2, i) by {
            assert(b1[21 + 4 * i] == b2[21 + 4 * i]);
            assert(b1[22 + 4 * i] == b2[22 + 4 * i]);
            assert(b1[23 + 4 * i] == b2[23 + 4 * i]);
            assert(b1[24 + 4 * i] == b2[24 + 4 * i]);
        }
        lemma_total_len_same(b1, b2, c);
    }
    if well_formed(b1) || well_formed(b2) {
        assert forall|i: int| 0 <= i < c implies record_of(b1, i) == record_of(b2, i) by {
            assert(record_of(b1, i) =~= record_of(b2, i));
        }
        assert(records_of(b1) =~= records_of(b2));
    }
}

proof fn lemma_total_len_grows(b: Seq<u8>, i: int, n: int)
    requires
        0 <= i <= n,
    ensures
        total_len(b, i) <= total_len(b, n),
    decreases n - i,
{
    if i < n {
        lemma_total_len_grows(b, i, n - 1);
    }
}

proof fn lemma_total_len_same(b1: Seq<u8>, b2: Seq<u8>, n: int)
    requires
        forall|i: int| 0 <= i < n ==> slot_length_of(b1, i) == slot_length_of(b2, i),
    ensures
        total_len(b1, n) == total_len(b2, n),
    decreases n,
{
    if n > 0 {
        lemma_total_len_same(b1, b2, n - 1);
    }
}

proof fn lemma_put16(b: Seq<u8>, i: int, v: int)
    requires
        0 <= i,
        i + 2 <= b.len(),
        0 <= v < 65536,
    ensures
        put16(b, i, v).len() == b.len(),
        be16(put16(b, i, v), i) == v,
        forall|p: int| 0 <= p < b.len() && p != i && p != i + 1 ==> put16(b, i, v)[p] == b[p],
{
}



/// The bytes of a page after `d` was inserted as a new record: the data goes
/// just below the free offset, the free offset moves down over it, the slot
/// count grows by one and the new slot points at the data.
pub open spec fn insert_bytes(b: Seq<u8>, d: Seq<u8>) -> Seq<u8> {
    let c = slot_count_of(b);
    let nfo = free_offset_of(b) - d.len();
    put16(
        put16(put16(put16(write_bytes(b, nfo, d), 19, nfo), 17, c + 1), 21 + 4 * c, nfo),
        23 + 4 * c,
        d.len() as int,
    )
}

/// On a well-formed page with room for the record and its slot, an insert
/// appends exactly that record and keeps the page well formed.
pub proof fn lemma_insert(b: Seq<u8>, d: Seq<u8>)
    requires
        well_formed(b),
        free_space_of(b) >= d.len() + 4,
    ensures
        well_formed(insert_bytes(b, d)),
        records_of(insert_bytes(b, d)) == records_of(b).push(d),
        insert_bytes(b, d).subrange(0, 17) == b.subrange(0, 17),
{
    let c = slot_count_of(b);
    let fo = free_offset_of(b);
    let nfo = fo - d.len();
    let b2 = insert_bytes(b, d);
    assert(slot_end_of(b) == 21 + 4 * c);
    assert(25 + 4 * c <= nfo);
    assert(b2.len() == 4096);
    assert forall|p: int| 0 <= p < 4096 implies #[trigger] b2[p] == (if 17 <= p < 19 {
        if p == 17 { ((c + 1) / 256) as u8 } else { ((c + 1) % 256) as u8 }
    } else if 19 <= p < 21 {
        if p == 19 { (nfo / 256) as u8 } else { (nfo % 256) as u8 }
    } else if 21 + 4 * c <= p < 25 + 4 * c {
        if p == 21 + 4 * c { (nfo / 256) as u8 }
        else if p == 22 + 4 * c { (nfo % 256) as u8 }
        else if p == 23 + 4 * c { (d.len() / 256) as u8 }
        else { (d.len() % 256) as u8 }
    } else if nfo <= p < fo {
        d[p - nfo]
    } else {
        b[p]
    }) by {}
    assert(slot_count_of(b2) == c + 1);
    assert(free_offset_of(b2) == nfo);
    assert forall|i: int| 0 <= i < c implies slot_offset_of(b2, i) == slot_offset_of(b, i)
        && slot_length_of(b2, i) == slot_length_of(b, i) by {
        assert(b2[21 + 4 * i] == b[21 + 4 * i]);
        assert(b2[22 + 4 * i] == b[22 + 4 * i]);
        assert(b2[23 + 4 * i] == b[23 + 4 * i]);
        assert(b2[24 + 4 * i] == b[24 + 4 * i]);
    }
    assert(slot_offset_of(b2, c) == nfo);
    assert(slot_length_of(b2, c) == d.len());
    assert forall|i: int| 0 <= i < c implies record_of(b2, i) == record_of(b, i) by {
        assert(fo <= slot_offset_of(b, i));
        assert(record_of(b2, i) =~= record_of(b, i));
    }
    assert(record_of(b2, c) =~= d);
    assert(records_of(b2) =~= records_of(b).push(d));
    lemma_total_len_same(b, b2, c);
    assert(total_len(b2, c + 1) == total_len(b, c) + d.len());
    assert forall|i: int| 0 <= i < c + 1 implies nfo <= #[trigger] slot_offset_of(b2, i)
        && slot_offset_of(b2, i) + slot_length_of(b2, i) <= 4096 by {
        if i < c {
            assert(fo <= slot_offset_of(b, i));
        }
    }
    assert forall|i: int, j: int|
        0 <= i < c + 1 && 0 <= j < c + 1 && i != j implies slot_offset_of(b2, i)
        + slot_length_of(b2, i) <= #[trigger] slot_offset_of(b2, j) || slot_offset_of(b2, j)
        + slot_length_of(b2, j) <= #[trigger] slot_offset_of(b2, i) by {
        if i < c && j < c {
            assert(slot_offset_of(b, i) + slot_length_of(b, i) <= slot_offset_of(b, j)
                || slot_offset_of(b, j) + slot_length_of(b, j) <= slot_offset_of(b, i));
        } else if i == c {
            assert(fo <= slot_offset_of(b, j));
        } else {
            assert(fo <= slot_offset_of(b, i));
        }
    }
    assert(b2.subrange(0, 17) =~= b.subrange(0, 17));
}


/// The bytes of a page after slot `s` was deleted: the later slots move up
/// by one entry, the last entry is zeroed and the slot count drops by one.
/// Record data is left in place.
pub open spec fn delete_bytes(b: Seq<u8>, s: int) -> Seq<u8> {
    let c = slot_count_of(b);
    put16(
        Seq::new(
            b.len(),
            |p: int|
                if 21 + 4 * s <= p < 21 + 4 * (c - 1) {
                    b[p + 4]
                } else if 21 + 4 * (c - 1) <= p < 21 + 4 * c {
                    0u8
                } else {
                    b[p]
                },
        ),
        17,
        c - 1,
    )
}

proof fn lemma_total_len_remove(b: Seq<u8>, b2: Seq<u8>, s: int, n: int)
    requires
        0 <= s <= n,
        forall|i: int| 0 <= i < s ==> slot_length_of(b2, i) == slot_length_of(b, i),
        forall|i: int| s <= i < n ==> slot_length_of(b2, i) == slot_length_of(b, i + 1),
    ensures
        total_len(b2, n) == total_len(b, n + 1) - slot_length_of(b, s),
    decreases n,
{
    if n == s {
        lemma_total_len_same(b, b2, s);
    } else {
        lemma_total_len_remove(b, b2, s, n - 1);
    }
}

/// On a well-formed page, deleting slot `s` removes exactly record `s`.
pub proof fn lemma_delete(b: Seq<u8>, s: int)
    requires
        well_formed(b),
        0 <= s < slot_count_of(b),
    ensures
        well_formed(delete_bytes(b, s)),
        records_of(delete_bytes(b, s)) == records_of(b).remove(s),
        delete_bytes(b, s).subrange(0, 17) == b.subrange(0, 17),
{
    let c = slot_count_of(b);
    let fo = free_offset_of(b);
    let b2 = delete_bytes(b, s);
    assert(b2.len() == 4096);
    assert(slot_count_of(b2) == c - 1);
    assert(free_offset_of(b2) == fo);
    assert forall|p: int| fo <= p < 4096 implies #[trigger] b2[p] == b[p] by {}
    assert forall|i: int| 0 <= i < s implies slot_offset_of(b2, i) == slot_offset_of(b, i)
        && slot_length_of(b2, i) == slot_length_of(b, i) by {
        assert(b2[21 + 4 * i] == b[21 + 4 * i]);
        assert(b2[22 + 4 * i] == b[22 + 4 * i]);
        assert(b2[23 + 4 * i] == b[23 + 4 * i]);
        assert(b2[24 + 4 * i] == b[24 + 4 * i]);
    }
    assert forall|i: int| s <= i < c - 1 implies slot_offset_of(b2, i) == slot_offset_of(b, i + 1)
        && slot_length_of(b2, i) == slot_length_of(b, i + 1) by {
        assert(b2[21 + 4 * i] == b[25 + 4 * i]);
        assert(b2[22 + 4 * i] == b[26 + 4 * i]);
        assert(b2[23 + 4 * i] == b[27 + 4 * i]);
        assert(b2[24 + 4 * i] == b[28 + 4 * i]);
    }
    let r = records_of(b).remove(s);
    assert forall|i: int| 0 <= i < c - 1 implies #[trigger] record_of(b2, i) == r[i] by {
        if i < s {
            assert(fo <= slot_offset_of(b, i));
            assert(record_of(b2, i) =~= record_of(b, i));
        } else {
            assert(fo <= slot_offset_of(b, i + 1));
            assert(record_of(b2, i) =~= record_of(b, i + 1));
        }
    }
    assert(records_of(b2) =~= r);
    lemma_total_len_remove(b, b2, s, c - 1);
    assert forall|i: int| 0 <= i < c - 1 implies fo <= #[trigger] slot_offset_of(b2, i)
        && slot_offset_of(b2, i) + slot_length_of(b2, i) <= 4096 by {
        if i < s {
            assert(fo <= slot_offset_of(b, i));
        } else {
            assert(fo <= slot_offset_of(b, i + 1));
        }
    }
    assert forall|i: int, j: int|
        0 <= i < c - 1 && 0 <= j < c - 1 && i != j implies slot_offset_of(b2, i)
        + slot_length_of(b2, i) <= #[trigger] slot_offset_of(b2, j) || slot_offset_of(b2, j)
        + slot_length_of(b2, j) <= #[trigger] slot_offset_of(b2, i) by {
        let ii = if i < s { i } else { i + 1 };
        let jj = if j < s { j } else { j + 1 };
        assert(slot_offset_of(b, ii) + slot_length_of(b, ii) <= slot_offset_of(b, jj)
            || slot_offset_of(b, jj) + slot_length_of(b, jj) <= slot_offset_of(b, ii));
    }
    assert(b2.subrange(0, 17) =~= b.subrange(0, 17));
}


/// The bytes of a page after record `s` was overwritten in place by `d`
/// (no longer than the old record): the data is written at the record's
/// offset, the rest of the old record is zeroed and the slot length shrinks
/// to the new length.
pub open spec fn update_bytes(b: Seq<u8>, s: int, d: Seq<u8>) -> Seq<u8> {
    let off = slot_offset_of(b, s);
    let len = slot_length_of(b, s);
    put16(
        put16(zero_bytes(write_bytes(b, off, d), off + d.len(), off + len), 21 + 4 * s, off),
        23 + 4 * s,
        d.len() as int,
    )
}

proof fn lemma_total_len_update(b: Seq<u8>, b2: Seq<u8>, s: int, n: int)
    requires
        0 <= s < n,
        forall|i: int| 0 <= i < n && i != s ==> slot_length_of(b2, i) == slot_length_of(b, i),
    ensures
        total_len(b2, n) == total_len(b, n) - slot_length_of(b, s) + slot_length_of(b2, s),
    decreases n,
{
    if n == s + 1 {
        lemma_total_len_same(b, b2, s);
    } else {
        lemma_total_len_update(b, b2, s, n - 1);
    }
}

/// On a well-formed page, an in-place update replaces exactly record `s`.
pub proof fn lemma_update(b: Seq<u8>, s: int, d: Seq<u8>)
    requires
        well_formed(b),
        0 <= s < slot_count_of(b),
        d.len() <= slot_length_of(b, s),
    ensures
        well_formed(update_bytes(b, s, d)),
        records_of(update_bytes(b, s, d)) == records_of(b).update(s, d),
        update_bytes(b, s, d).subrange(0, 17) == b.subrange(0, 17),
{
    let c = slot_count_of(b);
    let fo = free_offset_of(b);
    let off = slot_offset_of(b, s);
    let len = slot_length_of(b, s);
    let b2 = update_bytes(b, s, d);
    assert(fo <= off && off + len <= 4096);
    assert(b2.len() == 4096);
    assert forall|p: int| 0 <= p < 4096 implies #[trigger] b2[p] == (if p == 21 + 4 * s {
        (off / 256) as u8
    } else if p == 22 + 4 * s {
        (off % 256) as u8
    } else if p == 23 + 4 * s {
        (d.len() / 256) as u8
    } else if p == 24 + 4 * s {
        (d.len() % 256) as u8
    } else if off <= p < off + d.len() {
        d[p - off]
    } else if off + d.len() <= p < off + len {
        0u8
    } else {
        b[p]
    }) by {}
    assert(slot_count_of(b2) == c);
    assert(free_offset_of(b2) == fo);
    assert forall|i: int| 0 <= i < c && i != s implies slot_offset_of(b2, i) == slot_offset_of(b, i)
        && slot_length_of(b2, i) == slot_length_of(b, i) by {
        assert(b2[21 + 4 * i] == b[21 + 4 * i]);
        assert(b2[22 + 4 * i] == b[22 + 4 * i]);
        assert(b2[23 + 4 * i] == b[23 + 4 * i]);
        assert(b2[24 + 4 * i] == b[24 + 4 * i]);
    }
    assert(slot_offset_of(b2, s) == off);
    assert(slot_length_of(b2, s) == d.len());
    let r = records_of(b).update(s, d);
    assert forall|i: int| 0 <= i < c implies #[trigger] record_of(b2, i) == r[i] by {
        if i == s {
            assert(record_of(b2, i) =~= d);
        } else {
            assert(fo <= slot_offset_of(b, i));
            assert(slot_offset_of(b, i) + slot_length_of(b, i) <= off || off + len
                <= slot_offset_of(b, i));
            assert(record_of(b2, i) =~= record_of(b, i));
        }
    }
    assert(records_of(b2) =~= r);
    lemma_total_len_update(b, b2, s, c);
    assert forall|i: int| 0 <= i < c implies fo <= #[trigger] slot_offset_of(b2, i)
        && slot_offset_of(b2, i) + slot_length_of(b2, i) <= 4096 by {}
    assert forall|i: int, j: int|
        0 <= i < c && 0 <= j < c && i != j implies slot_offset_of(b2, i) + slot_length_of(b2, i)
        <= #[trigger] slot_offset_of(b2, j) || slot_offset_of(b2, j) + slot_length_of(b2, j)
        <= #[trigger] slot_offset_of(b2, i) by {
        assert(slot_offset_of(b, i) + slot_length_of(b, i) <= slot_offset_of(b, j)
            || slot_offset_of(b, j) + slot_length_of(b, j) <= slot_offset_of(b, i));
    }
    assert(b2.subrange(0, 17) =~= b.subrange(0, 17));
}


/// Sum of the lengths of the first `n` records of `recs`.
pub open spec fn sum_lens(recs: Seq<Seq<u8>>, n: int) -> int
    decreases n,
{
    if n <= 0 {
        0
    } else {
        sum_lens(recs, n - 1) + recs[n - 1].len()
    }
}

/// The bytes of a page after the first `i` records of `recs` were packed
/// against the end of the page, each followed by rewriting its slot.
pub open spec fn compact_step(b: Seq<u8>, recs: Seq<Seq<u8>>, i: int) -> Seq<u8>
    decreases i,
{
    if i <= 0 {
        b
    } else {
        let c = 4096 - sum_lens(recs, i);
        put16(
            put16(write_bytes(compact_step(b, recs, i - 1), c, recs[i - 1]), 21 + 4 * (i - 1), c),
            23 + 4 * (i - 1),
            recs[i - 1].len() as int,
        )
    }
}

/// The bytes of a page after compaction: every record packed against the
/// end of the page in slot order, the free offset set to the start of the
/// packed data (the end of the page when there are no records).
pub open spec fn compact_bytes(b: Seq<u8>) -> Seq<u8> {
    let recs = records_of(b);
    let n = slot_count_of(b);
    put16(compact_step(b, recs, n), 19, 4096 - sum_lens(recs, n))
}

/// What compaction of a page reports: the distance between the new free
/// offset and the free offset found after packing.
pub open spec fn compact_reclaimed(b: Seq<u8>) -> int {
    let recs = records_of(b);
    let n = slot_count_of(b);
    let new_offset = 4096 - sum_lens(recs, n);
    let old_offset = free_offset_of(compact_step(b, recs, n));
    if new_offset > old_offset {
        new_offset - old_offset
    } else {
        old_offset - new_offset
    }
}

proof fn lemma_sum_lens_mono(recs: Seq<Seq<u8>>, i: int, n: int)
    requires
        0 <= i <= n,
    ensures
        0 <= sum_lens(recs, i) <= sum_lens(recs, n),
    decreases n - i,
{
    if i < n {
        lemma_sum_lens_mono(recs, i, n - 1);
    } else {
        lemma_sum_lens_nonneg(recs, i);
    }
}

proof fn lemma_sum_lens_nonneg(recs: Seq<Seq<u8>>, n: int)
    ensures
        0 <= sum_lens(recs, n),
    decreases n,
{
    if n > 0 {
        lemma_sum_lens_nonneg(recs, n - 1);
    }
}

/// The bytes after one packing step, position by position.
proof fn lemma_compact_one(prev: Seq<u8>, r: Seq<u8>, c: int, k: int)
    requires
        prev.len() == 4096,
        25 + 4 * k <= c,
        c + r.len() <= 4096,
        0 <= k,
    ensures
        ({
            let cur = put16(put16(write_bytes(prev, c, r), 21 + 4 * k, c), 23 + 4 * k, r.len() as int);
            &&& cur.len() == 4096
            &&& forall|p: int|
                0 <= p < 4096 && !(21 + 4 * k <= p < 25 + 4 * k) && !(c <= p < c + r.len())
                    ==> #[trigger] cur[p] == prev[p]
            &&& cur.subrange(c, c + r.len()) == r
            &&& slot_offset_of(cur, k) == c
            &&& slot_length_of(cur, k) == r.len()
        }),
{
    let w = write_bytes(prev, c, r);
    let cur = put16(put16(w, 21 + 4 * k, c), 23 + 4 * k, r.len() as int);
    assert forall|p: int| 0 <= p < 4096 implies #[trigger] w[p] == (if c <= p < c + r.len() {
        r[p - c]
    } else {
        prev[p]
    }) by {}
    assert(cur.subrange(c, c + r.len()) =~= r);
}

proof fn lemma_sum_lens_total(b: Seq<u8>, n: int)
    requires
        0 <= n <= slot_count_of(b),
        forall|i: int|
            0 <= i < n ==> 0 <= #[trigger] slot_offset_of(b, i) && slot_offset_of(b, i)
                + slot_length_of(b, i) <= b.len(),
    ensures
        sum_lens(records_of(b), n) == total_len(b, n),
    decreases n,
{
    if n > 0 {
        lemma_sum_lens_total(b, n - 1);
        assert(records_of(b)[n - 1].len() == slot_length_of(b, n - 1));
    }
}

proof fn lemma_total_len_of_lens(b: Seq<u8>, recs: Seq<Seq<u8>>, n: int)
    requires
        forall|j: int| 0 <= j < n ==> slot_length_of(b, j) == #[trigger] recs[j].len(),
    ensures
        total_len(b, n) == sum_lens(recs, n),
    decreases n,
{
    if n > 0 {
        lemma_total_len_of_lens(b, recs, n - 1);
    }
}

/// Packing records no lower than byte 17 leaves the header bytes 0..17 alone.
proof fn lemma_compact_step_header(b: Seq<u8>, recs: Seq<Seq<u8>>, i: int)
    requires
        b.len() == 4096,
        0 <= i,
        21 + 4 * i <= 4096,
        4096 - sum_lens(recs, i) >= 17,
    ensures
        compact_step(b, recs, i).len() == 4096,
        forall|p: int| 0 <= p < 17 ==> #[trigger] compact_step(b, recs, i)[p] == b[p],
    decreases i,
{
    if i > 0 {
        lemma_compact_step_header(b, recs, i - 1);
        let prev = compact_step(b, recs, i - 1);
        let c = 4096 - sum_lens(recs, i);
        let w = write_bytes(prev, c, recs[i - 1]);
        assert forall|p: int| 0 <= p < 17 implies #[trigger] compact_step(b, recs, i)[p] == b[p] by {
            assert(w[p] == prev[p]);
        }
    }
}

#[verifier::spinoff_prover]
#[verifier::rlimit(40)]
proof fn lemma_compact_step(b: Seq<u8>, recs: Seq<Seq<u8>>, n: int, i: int)
    requires
        b.len() == 4096,
        recs.len() == n,
        0 <= i <= n,
        21 + 4 * n <= 4096 - sum_lens(recs, n),
    ensures
        compact_step(b, recs, i).len() == 4096,
        forall|p: int|
            0 <= p < 4096 - sum_lens(recs, i) && !(21 <= p < 21 + 4 * i) ==> #[trigger] compact_step(
                b,
                recs,
                i,
            )[p] == b[p],
        forall|j: int|
            0 <= j < i ==> #[trigger] slot_offset_of(compact_step(b, recs, i), j) == 4096
                - sum_lens(recs, j + 1) && slot_length_of(compact_step(b, recs, i), j)
                == recs[j].len(),
        forall|j: int|
            0 <= j < i ==> compact_step(b, recs, i).subrange(
                4096 - sum_lens(recs, j + 1),
                4096 - sum_lens(recs, j),
            ) == #[trigger] recs[j],
    decreases i,
{
    if i > 0 {
        lemma_compact_step(b, recs, n, i - 1);
        lemma_sum_lens_mono(recs, i, n);
        lemma_sum_lens_mono(recs, i - 1, i);
        let prev = compact_step(b, recs, i - 1);
        let cur = compact_step(b, recs, i);
        let c = 4096 - sum_lens(recs, i);
        let c_prev = 4096 - sum_lens(recs, i - 1);
        let r = recs[i - 1];
        assert(c + r.len() == c_prev);
        lemma_compact_one(prev, r, c, i - 1);
        assert(cur == put16(put16(write_bytes(prev, c, r), 21 + 4 * (i - 1), c), 23 + 4 * (i - 1), r.len() as int));
        assert forall|j: int| 0 <= j < i - 1 implies slot_offset_of(cur, j) == slot_offset_of(prev, j)
            && slot_length_of(cur, j) == slot_length_of(prev, j) by {
            assert(cur[21 + 4 * j] == prev[21 + 4 * j]);
            assert(cur[22 + 4 * j] == prev[22 + 4 * j]);
            assert(cur[23 + 4 * j] == prev[23 + 4 * j]);
            assert(cur[24 + 4 * j] == prev[24 + 4 * j]);
        }
        assert forall|j: int| 0 <= j < i - 1 implies cur.subrange(
            4096 - sum_lens(recs, j + 1),
            4096 - sum_lens(recs, j),
        ) == #[trigger] recs[j] by {
            lemma_sum_lens_mono(recs, j + 1, i - 1);
            lemma_sum_lens_mono(recs, j, j + 1);
            let lo = 4096 - sum_lens(recs, j + 1);
            let hi = 4096 - sum_lens(recs, j);
            assert(prev.subrange(lo, hi) == recs[j]);
            assert forall|p: int| lo <= p < hi implies cur[p] == prev[p] by {}
            assert(cur.subrange(lo, hi) =~= prev.subrange(lo, hi));
        }
    }
}

/// A page whose slots point at records packed against the end of the page
/// in slot order is well formed.
proof fn lemma_packed_layout(f: Seq<u8>, recs: Seq<Seq<u8>>, n: int)
    requires
        f.len() == 4096,
        slot_count_of(f) == n,
        0 <= n,
        free_offset_of(f) == 4096 - sum_lens(recs, n),
        21 + 4 * n <= 4096 - sum_lens(recs, n),
        forall|j: int|
            0 <= j < n ==> #[trigger] slot_offset_of(f, j) == 4096 - sum_lens(recs, j + 1)
                && slot_length_of(f, j) == recs[j].len(),
    ensures
        well_formed(f),
{
    let cn = 4096 - sum_lens(recs, n);
    lemma_sum_lens_nonneg(recs, n);
    assert forall|j: int| 0 <= j < n implies slot_length_of(f, j) == #[trigger] recs[j].len() by {
        assert(slot_offset_of(f, j) == 4096 - sum_lens(recs, j + 1));
    }
    lemma_total_len_of_lens(f, recs, n);
    assert forall|i: int| 0 <= i < n implies cn <= #[trigger] slot_offset_of(f, i)
        && slot_offset_of(f, i) + slot_length_of(f, i) <= 4096 by {
        lemma_sum_lens_mono(recs, i + 1, n);
        lemma_sum_lens_mono(recs, i, i + 1);
    }
    assert forall|i: int, j: int|
        0 <= i < n && 0 <= j < n && i != j implies slot_offset_of(f, i) + slot_length_of(f, i)
        <= #[trigger] slot_offset_of(f, j) || slot_offset_of(f, j) + slot_length_of(f, j)
        <= #[trigger] slot_offset_of(f, i) by {
        if i < j {
            lemma_sum_lens_mono(recs, i + 1, j);
        } else {
            lemma_sum_lens_mono(recs, j + 1, i);
        }
    }
}

/// On a well-formed non-empty page, compaction keeps every record, packs the
/// records against the end of the page and keeps the page well formed.
#[verifier::rlimit(40)]
pub proof fn lemma_compact(b: Seq<u8>)
    requires
        well_formed(b),
    ensures
        well_formed(compact_bytes(b)),
        records_of(compact_bytes(b)) == records_of(b),
        free_offset_of(compact_bytes(b)) == 4096 - total_len(b, slot_count_of(b)),
        compact_reclaimed(b) == free_offset_of(compact_bytes(b)) - free_offset_of(b),
        compact_bytes(b).subrange(0, 17) == b.subrange(0, 17),
{
    let n = slot_count_of(b);
    let recs = records_of(b);
    let fo = free_offset_of(b);
    assert forall|i: int| 0 <= i < n implies 0 <= #[trigger] slot_offset_of(b, i) && slot_offset_of(
        b,
        i,
    ) + slot_length_of(b, i) <= b.len() by {}
    lemma_sum_lens_total(b, n);
    let cn = 4096 - sum_lens(recs, n);
    lemma_sum_lens_nonneg(recs, n);
    assert(21 + 4 * n <= cn);
    lemma_compact_step(b, recs, n, n);
    let sn = compact_step(b, recs, n);
    let f = compact_bytes(b);
    lemma_put16(sn, 19, cn);
    assert(f.len() == 4096);
    assert(sn[17] == b[17] && sn[18] == b[18] && sn[19] == b[19] && sn[20] == b[20]);
    assert(slot_count_of(f) == n);
    assert(free_offset_of(f) == cn);
    assert(free_offset_of(sn) == fo);
    assert forall|j: int| 0 <= j < n implies #[trigger] slot_offset_of(f, j) == 4096 - sum_lens(
        recs,
        j + 1,
    ) && slot_length_of(f, j) == recs[j].len() by {
        assert(slot_offset_of(sn, j) == 4096 - sum_lens(recs, j + 1));
        assert(f[21 + 4 * j] == sn[21 + 4 * j]);
        assert(f[22 + 4 * j] == sn[22 + 4 * j]);
        assert(f[23 + 4 * j] == sn[23 + 4 * j]);
        assert(f[24 + 4 * j] == sn[24 + 4 * j]);
    }
    lemma_packed_layout(f, recs, n);
    assert forall|j: int| 0 <= j < n implies #[trigger] record_of(f, j) == recs[j] by {
        lemma_sum_lens_mono(recs, j + 1, n);
        lemma_sum_lens_mono(recs, j, j + 1);
        let lo = 4096 - sum_lens(recs, j + 1);
        let hi = 4096 - sum_lens(recs, j);
        assert(sn.subrange(lo, hi) == recs[j]);
        assert(slot_offset_of(f, j) == lo);
        assert forall|p: int| lo <= p < hi implies f[p] == sn[p] by {}
        assert(record_of(f, j) =~= sn.subrange(lo, hi));
    }
    assert(records_of(f) =~= recs);
    assert forall|p: int| 0 <= p < 17 implies f[p] == b[p] by {}
    assert(f.subrange(0, 17) =~= b.subrange(0, 17));
}

/// A slotted page managing a fixed-size 4096-byte buffer.
///
/// Layout:
/// - Bytes 0..HEADER_SIZE: page header
/// - Bytes HEADER_SIZE..slot_region_end: slot array (grows downward)
/// - Bytes data_region_start..PAGE_SIZE: record data (grows upward)
pub struct SlottedPage {
    buffer: [u8; PAGE_SIZE],
}

impl View for SlottedPage {
    type V = Seq<u8>;

    /// The page is its 4096 bytes.
    closed spec fn view(&self) -> Seq<u8> {
        self.buffer@
    }
}

impl SlottedPage {
    /// A page's bytes are exactly one page long.
    pub proof fn lemma_len(&self)
        ensures
            self@.len() == 4096,
    {
        assert(self.buffer@.len() == PAGE_SIZE);
    }

    // ─── Byte access ───

    fn read_u16(&self, pos: usize) -> (v: u16)
        requires
            pos + 2 <= 4096,
        ensures
            v == be16(self@, pos as int),
    {
        proof { self.lemma_len(); }
        (self.buffer[pos] as u16) * 256 + (self.buffer[pos + 1] as u16)
    }

    fn write_u16(&mut self, pos: usize, v: u16)
        requires
            pos + 2 <= 4096,
        ensures
            final(self)@ == put16(old(self)@, pos as int, v as int),
            be16(final(self)@, pos as int) == v,
            forall|p: int|
                0 <= p < 4096 && !(pos <= p < pos + 2) ==> #[trigger] final(self)@[p] == old(self)@[p],
    {
        proof { self.lemma_len(); lemma_put16(self@, pos as int, v as int); }
        self.buffer[pos] = (v / 256) as u8;
        self.buffer[pos + 1] = (v % 256) as u8;
        assert(self@ =~= put16(old(self)@, pos as int, v as int));
    }

    fn read_u32(&self, pos: usize) -> (v: u32)
        requires
            pos + 4 <= 4096,
        ensures
            v == be32(self@, pos as int),
    {
        (self.read_u16(pos) as u32) * 65536 + (self.read_u16(pos + 2) as u32)
    }

    fn write_u32(&mut self, pos: usize, v: u32)
        requires
            pos + 4 <= 4096,
        ensures
            final(self)@ == put32(old(self)@, pos as int, v as int),
            be32(final(self)@, pos as int) == v,
            forall|p: int|
                0 <= p < 4096 && !(pos <= p < pos + 4) ==> #[trigger] final(self)@[p] == old(self)@[p],
    {
        self.write_u16(pos, (v / 65536) as u16);
        self.write_u16(pos + 2, (v % 65536) as u16);
        proof { self.lemma_len(); }
        assert(be16(self@, pos as int) == v / 65536);
    }

    fn read_u64(&self, pos: usize) -> (v: u64)
        requires
            pos + 8 <= 4096,
        ensures
            v == be64(self@, pos as int),
    {
        let hi = self.read_u32(pos) as u64;
        let lo = self.read_u32(pos + 4) as u64;
        assert(hi * 4294967296 + lo <= u64::MAX) by (nonlinear_arith)
            requires
                hi <= 4294967295,
                lo <= 4294967295,
        ;
        hi * 4294967296 + lo
    }

    fn write_u64(&mut self, pos: usize, v: u64)
        requires
            pos + 8 <= 4096,
        ensures
            final(self)@ == put64(old(self)@, pos as int, v as int),
            be64(final(self)@, pos as int) == v,
            forall|p: int|
                0 <= p < 4096 && !(pos <= p < pos + 8) ==> #[trigger] final(self)@[p] == old(self)@[p],
    {
        self.write_u32(pos, (v / 4294967296) as u32);
        self.write_u32(pos + 4, (v % 4294967296) as u32);
        proof { self.lemma_len(); }
        assert(be32(self@, pos as int) == v / 4294967296);
    }

    // ─── Construction ───

    /// Create a new empty slotted page.
    pub fn new(page_type: PageType, page_id: PageId) -> (page: Self)
        ensures
            magic_of(page@) == MAGIC_NUMBER,
            page@[4] == page_type_code(page_type),
            page_id_of(page@) == page_id.0,
            lsn_of(page@) == 0,
            slot_count_of(page@) == 0,
            free_offset_of(page@) == PAGE_SIZE,
            forall|p: int| HEADER_SIZE <= p < PAGE_SIZE ==> #[trigger] page@[p] == 0,
            well_formed(page@),
            records_of(page@) == Seq::<Seq<u8>>::empty(),
            sound_page(page@),
    {
        let mut page = Self { buffer: [0u8; PAGE_SIZE] };
        proof { page.lemma_len(); }
        assert(forall|p: int| 0 <= p < 4096 ==> #[trigger] page@[p] == 0);
        page.set_magic(MAGIC_NUMBER);
        page.set_page_type(page_type);
        page.set_page_id(page_id);
        page.set_lsn(LSN(0));
        page.set_slot_count(0);
        page.set_free_offset(PAGE_SIZE as u16);
        proof {
            page.lemma_len();
            assert(records_of(page@) =~= Seq::<Seq<u8>>::empty());
        }
        page
    }

    /// Create from an existing raw buffer (for loading from disk).
    ///
    /// Only the magic number is checked; the rest of the buffer is taken as it is.
    pub fn from_buffer(buffer: [u8; PAGE_SIZE]) -> (r: Result<Self, PageError>)
        ensures
            match r {
                Ok(page) => magic_of(buffer@) == MAGIC_NUMBER && page@ == buffer@,
                Err(e) => magic_of(buffer@) != MAGIC_NUMBER && e == (PageError::MagicMismatch {
                    expected: MAGIC_NUMBER,
                    actual: magic_of(buffer@) as u32,
                }),
            },
    {
        let page = Self { buffer };
        if page.magic() != MAGIC_NUMBER {
            return Err(PageError::MagicMismatch { expected: MAGIC_NUMBER, actual: page.magic() });
        }
        Ok(page)
    }

    /// Return a reference to the raw buffer.
    pub fn buffer(&self) -> (b: &[u8; PAGE_SIZE])
        ensures
            b@ == self@,
    {
        &self.buffer
    }

    /// Consume and return the raw buffer.
    pub fn into_buffer(self) -> (b: [u8; PAGE_SIZE])
        ensures
            b@ == self@,
    {
        self.buffer
    }

    // ─── Header accessors ───

    /// The magic number at the start of the page.
    pub fn magic(&self) -> (v: u32)
        ensures
            v == magic_of(self@),
    {
        self.read_u32(0)
    }

    fn set_magic(&mut self, val: u32)
        ensures
            final(self)@ == put32(old(self)@, 0, val as int),
            magic_of(final(self)@) == val,
            forall|p: int| 4 <= p < 4096 ==> #[trigger] final(self)@[p] == old(self)@[p],
    {
        self.write_u32(0, val);
    }

    fn page_type_byte(&self) -> (v: u8)
        ensures
            v == self@[4],
    {
        self.buffer[4]
    }

    fn set_page_type_byte(&mut self, val: u8)
        ensures
            final(self)@ == old(self)@.update(4, val),
    {
        self.buffer[4] = val;
    }

    /// Get the page type.
    pub fn page_type(&self) -> (pt: PageType)
        ensures
            pt == page_type_of_code(self@[4]),
    {
        match self.page_type_byte() {
            0 => PageType::Data,
            1 => PageType::Index,
            2 => PageType::Meta,
            3 => PageType::Free,
            _ => PageType::Free,
        }
    }

    /// Set the page type.
    pub fn set_page_type(&mut self, pt: PageType)
        ensures
            final(self)@ == old(self)@.update(4, page_type_code(pt)),
            well_formed(old(self)@) ==> well_formed(final(self)@),
            well_formed(old(self)@) ==> records_of(final(self)@) == records_of(old(self)@),
            sound_page(old(self)@) ==> sound_page(final(self)@),
    {
        self.set_page_type_byte(
            match pt {
                PageType::Data => 0,
                PageType::Index => 1,
                PageType::Meta => 2,
                PageType::Free => 3,
            },
        );
        proof {
            self.lemma_len();
            lemma_same_body(old(self)@, self@);
        }
    }

    /// Get the page ID.
    pub fn page_id(&self) -> (id: PageId)
        ensures
            id.0 == page_id_of(self@),
    {
        PageId(self.read_u32(5))
    }

    /// Set the page ID.
    pub fn set_page_id(&mut self, id: PageId)
        ensures
            final(self)@ == put32(old(self)@, 5, id.0 as int),
            page_id_of(final(self)@) == id.0,
            forall|p: int|
                0 <= p < 4096 && !(5 <= p < 9) ==> #[trigger] final(self)@[p] == old(self)@[p],
            well_formed(old(self)@) ==> well_formed(final(self)@),
            well_formed(old(self)@) ==> records_of(final(self)@) == records_of(old(self)@),
            sound_page(old(self)@) ==> sound_page(final(self)@),
    {
        self.write_u32(5, id.0);
        proof {
            self.lemma_len();
            lemma_same_body(old(self)@, self@);
        }
    }

    /// Get the LSN.
    pub fn lsn(&self) -> (lsn: LSN)
        ensures
            lsn.0 == lsn_of(self@),
    {
        LSN(self.read_u64(9))
    }

    /// Set the LSN.
    pub fn set_lsn(&mut self, lsn: LSN)
        ensures
            final(self)@ == put64(old(self)@, 9, lsn.0 as int),
            lsn_of(final(self)@) == lsn.0,
            forall|p: int|
                0 <= p < 4096 && !(9 <= p < 17) ==> #[trigger] final(self)@[p] == old(self)@[p],
            well_formed(old(self)@) ==> well_formed(final(self)@),
            well_formed(old(self)@) ==> records_of(final(self)@) == records_of(old(self)@),
            sound_page(old(self)@) ==> sound_page(final(self)@),
    {
        self.write_u64(9, lsn.0);
        proof {
            self.lemma_len();
            lemma_same_body(old(self)@, self@);
        }
    }

    /// Get the number of slots.
    pub fn slot_count(&self) -> (n: u16)
        ensures
            n == slot_count_of(self@),
    {
        self.read_u16(17)
    }

    fn set_slot_count(&mut self, count: u16)
        ensures
            final(self)@ == put16(old(self)@, 17, count as int),
            slot_count_of(final(self)@) == count,
            forall|p: int|
                0 <= p < 4096 && !(17 <= p < 19) ==> #[trigger] final(self)@[p] == old(self)@[p],
    {
        self.write_u16(17, count);
    }

    /// Get the free space offset (start of free region from bottom).
    pub fn free_offset(&self) -> (off: u16)
        ensures
            off == free_offset_of(self@),
    {
        self.read_u16(19)
    }

    fn set_free_offset(&mut self, offset: u16)
        ensures
            final(self)@ == put16(old(self)@, 19, offset as int),
            free_offset_of(final(self)@) == offset,
            forall|p: int|
                0 <= p < 4096 && !(19 <= p < 21) ==> #[trigger] final(self)@[p] == old(self)@[p],
    {
        self.write_u16(19, offset);
    }

    // ─── Slot access ───

    fn slot_end_offset(&self) -> (end: u16)
        ensures
            end == slot_end_of(self@),
    {
        let n = self.slot_count() as usize;
        let end = HEADER_SIZE + n * SLOT_SIZE;
        assert(end as u16 == end % 65536) by (bit_vector);
        end as u16
    }

    fn read_slot(&self, index: u16) -> (r: Result<(u16, u16), PageError>)
        requires
            index < slot_count_of(self@) ==> 25 + 4 * index <= 4096,
        ensures
            match r {
                Ok((offset, length)) => index < slot_count_of(self@) && offset == slot_offset_of(
                    self@,
                    index as int,
                ) && length == slot_length_of(self@, index as int),
                Err(e) => index >= slot_count_of(self@) && e == PageError::InvalidSlot(index),
            },
    {
        if index >= self.slot_count() {
            return Err(PageError::InvalidSlot(index));
        }
        let base = HEADER_SIZE + (index as usize) * SLOT_SIZE;
        let offset = self.read_u16(base);
        let length = self.read_u16(base + 2);
        Ok((offset, length))
    }

    fn write_slot(&mut self, index: u16, offset: u16, length: u16)
        requires
            25 + 4 * index <= 4096,
        ensures
            final(self)@ == put16(
                put16(old(self)@, 21 + 4 * index, offset as int),
                23 + 4 * index,
                length as int,
            ),
            slot_offset_of(final(self)@, index as int) == offset,
            slot_length_of(final(self)@, index as int) == length,
            forall|p: int|
                0 <= p < 4096 && !(21 + 4 * index <= p < 25 + 4 * index)
                    ==> #[trigger] final(self)@[p] == old(self)@[p],
    {
        let base = HEADER_SIZE + (index as usize) * SLOT_SIZE;
        self.write_u16(base, offset);
        self.write_u16(base + 2, length);
    }

    // ─── Public operations ───

    /// Returns the amount of free space available in the page.
    pub fn free_space(&self) -> (n: usize)
        ensures
            n == free_space_of(self@),
    {
        let free_offset = self.free_offset() as usize;
        let slot_end = self.slot_end_offset() as usize;
        if slot_end > free_offset {
            0
        } else {
            free_offset - slot_end
        }
    }

    /// Check if a record of the given size, with its slot, can fit in this
    /// page.
    pub fn can_fit(&self, record_size: usize) -> (b: bool)
        ensures
            b == (free_space_of(self@) >= record_size + SLOT_SIZE),
    {
        let free = self.free_space();
        free >= record_size && free - record_size >= SLOT_SIZE
    }

    /// Returns the number of slots (records) in this page.
    pub fn record_count(&self) -> (n: u16)
        ensures
            n == slot_count_of(self@),
    {
        self.slot_count()
    }

    /// Check if the page is empty.
    pub fn is_empty(&self) -> (b: bool)
        ensures
            b == (slot_count_of(self@) == 0),
    {
        self.slot_count() == 0
    }

    /// Read a record by slot index. Returns the record data.
    pub fn get_record(&self, slot_index: u16) -> (r: Result<&[u8], PageError>)
        requires
            slot_index < slot_count_of(self@) ==> 25 + 4 * slot_index <= 4096 && slot_offset_of(
                self@,
                slot_index as int,
            ) + slot_length_of(self@, slot_index as int) <= 4096,
        ensures
            match r {
                Ok(data) => slot_index < slot_count_of(self@) && data@ == record_of(
                    self@,
                    slot_index as int,
                ),
                Err(e) => slot_index >= slot_count_of(self@) && e == PageError::InvalidSlot(
                    slot_index,
                ),
            },
    {
        let (offset, length) = self.read_slot(slot_index)?;
        let start = offset as usize;
        let end = start + length as usize;
        let all = self.buffer.as_slice();
        Ok(&all[start..end])
    }

    fn copy_in(&mut self, start: usize, data: &[u8])
        requires
            start + data@.len() <= 4096,
        ensures
            final(self)@ == write_bytes(old(self)@, start as int, data@),
    {
        proof { self.lemma_len(); }
        let mut k: usize = 0;
        while k < data.len()
            invariant
                start + data@.len() <= 4096,
                0 <= k <= data@.len(),
                self@.len() == 4096,
                forall|p: int|
                    0 <= p < 4096 ==> #[trigger] self@[p] == (if start <= p < start + k {
                        data@[p - start]
                    } else {
                        old(self)@[p]
                    }),
            decreases data@.len() - k,
        {
            self.buffer[start + k] = data[k];
            proof { self.lemma_len(); }
            k = k + 1;
        }
        assert(self@ =~= write_bytes(old(self)@, start as int, data@));
    }

    /// Insert a record into the page. Returns the slot index.
    ///
    /// The record fits when the free space holds it and its 4-byte slot.
    #[verifier::spinoff_prover]
    #[verifier::rlimit(40)]
    pub fn insert_record(&mut self, data: &[u8]) -> (r: Result<u16, PageError>)
        requires
            free_space_of(old(self)@) >= data@.len() + SLOT_SIZE ==> free_offset_of(old(self)@) <= 4096 && 25
                + 4 * slot_count_of(old(self)@) <= 4096,
        ensures
            match r {
                Ok(slot) => {
                    &&& free_space_of(old(self)@) >= data@.len() + SLOT_SIZE
                    &&& slot == slot_count_of(old(self)@)
                    &&& final(self)@ == insert_bytes(old(self)@, data@)
                },
                Err(e) => {
                    &&& free_space_of(old(self)@) < data@.len() + SLOT_SIZE
                    &&& e == PageError::PageFull
                    &&& final(self)@ == old(self)@
                },
            },
            well_formed(old(self)@) ==> {
                &&& well_formed(final(self)@)
                &&& r is Ok ==> records_of(final(self)@) == records_of(old(self)@).push(data@)
            },
            final(self)@.subrange(0, 17) == old(self)@.subrange(0, 17),
            sound_page(old(self)@) ==> sound_page(final(self)@),
    {
        let record_len = data.len();
        if !self.can_fit(record_len) {
            return Err(PageError::PageFull);
        }
        proof { self.lemma_len(); }
        let slot_idx = self.slot_count();
        let new_free_offset = self.free_offset() - record_len as u16;
        let data_start = new_free_offset as usize;
        self.copy_in(data_start, data);
        self.set_free_offset(new_free_offset);
        self.set_slot_count(slot_idx + 1);
        self.write_slot(slot_idx, new_free_offset, record_len as u16);
        proof {
            self.lemma_len();
            assert(self@.subrange(0, 17) =~= old(self)@.subrange(0, 17));
            if well_formed(old(self)@) {
                lemma_insert(old(self)@, data@);
            }
        }
        Ok(slot_idx)
    }

    /// Delete a record by slot index (marks slot as unused by shifting).
    ///
    /// This is a naive compaction-free deletion. Use `compact_records` to
    /// reclaim space.
    pub fn delete_record(&mut self, slot_index: u16) -> (r: Result<(), PageError>)
        requires
            slot_index < slot_count_of(old(self)@) ==> 21 + 4 * slot_count_of(old(self)@) <= 4096,
        ensures
            match r {
                Ok(()) => {
                    &&& slot_index < slot_count_of(old(self)@)
                    &&& final(self)@ == delete_bytes(old(self)@, slot_index as int)
                },
                Err(e) => {
                    &&& slot_index >= slot_count_of(old(self)@)
                    &&& e == PageError::InvalidSlot(slot_index)
                    &&& final(self)@ == old(self)@
                },
            },
            well_formed(old(self)@) && slot_index < slot_count_of(old(self)@) ==> {
                &&& well_formed(final(self)@)
                &&& records_of(final(self)@) == records_of(old(self)@).remove(slot_index as int)
            },
            final(self)@.subrange(0, 17) == old(self)@.subrange(0, 17),
            sound_page(old(self)@) ==> sound_page(final(self)@),
    {
        if slot_index >= self.slot_count() {
            return Err(PageError::InvalidSlot(slot_index));
        }
        proof { self.lemma_len(); }
        let count = self.slot_count();
        let ghost b = old(self)@;
        let ghost s = slot_index as int;
        // Shift all subsequent slots down by one
        let mut i = slot_index;
        while i < count - 1
            invariant
                b == old(self)@,
                b.len() == 4096,
                count == slot_count_of(b),
                21 + 4 * count <= 4096,
                s <= i <= count - 1,
                self@.len() == 4096,
                slot_count_of(self@) == count,
                forall|p: int|
                    0 <= p < 4096 ==> #[trigger] self@[p] == (if 21 + 4 * s <= p < 21 + 4 * i {
                        b[p + 4]
                    } else {
                        b[p]
                    }),
            decreases count - 1 - i,
        {
            match self.read_slot(i + 1) {
                Ok((off, len)) => self.write_slot(i, off, len),
                Err(e) => return Err(e),
            }
            proof { self.lemma_len(); }
            i = i + 1;
        }
        // Zero out the last slot
        let last_slot_start = HEADER_SIZE + ((count - 1) as usize) * SLOT_SIZE;
        let mut k: usize = 0;
        while k < SLOT_SIZE
            invariant
                b == old(self)@,
                b.len() == 4096,
                count == slot_count_of(b),
                21 + 4 * count <= 4096,
                last_slot_start == 21 + 4 * (count - 1),
                0 <= k <= 4,
                self@.len() == 4096,
                forall|p: int|
                    0 <= p < 4096 ==> #[trigger] self@[p] == (if 21 + 4 * s <= p < 21 + 4 * (count
                        - 1) {
                        b[p + 4]
                    } else if last_slot_start <= p < last_slot_start + k {
                        0u8
                    } else {
                        b[p]
                    }),
            decreases 4 - k,
        {
            self.buffer[last_slot_start + k] = 0;
            proof { self.lemma_len(); }
            k = k + 1;
        }
        self.set_slot_count(count - 1);
        proof {
            self.lemma_len();
            assert(self@ =~= delete_bytes(b, s));
            if well_formed(b) {
                lemma_delete(b, s);
            }
            assert(self@.subrange(0, 17) =~= b.subrange(0, 17));
        }
        Ok(())
    }

    fn zero_range(&mut self, start: usize, end: usize)
        requires
            start <= end <= 4096,
        ensures
            final(self)@ == zero_bytes(old(self)@, start as int, end as int),
    {
        proof { self.lemma_len(); }
        let mut k: usize = start;
        while k < end
            invariant
                start <= k <= end <= 4096,
                self@.len() == 4096,
                forall|p: int|
                    0 <= p < 4096 ==> #[trigger] self@[p] == (if start <= p < k {
                        0u8
                    } else {
                        old(self)@[p]
                    }),
            decreases end - k,
        {
            self.buffer[k] = 0;
            proof { self.lemma_len(); }
            k = k + 1;
        }
        assert(self@ =~= zero_bytes(old(self)@, start as int, end as int));
    }

    /// Update a record in-place (only works if new data fits in same slot).
    #[verifier::spinoff_prover]
    #[verifier::rlimit(40)]
    pub fn update_record(&mut self, slot_index: u16, data: &[u8]) -> (r: Result<(), PageError>)
        requires
            slot_index < slot_count_of(old(self)@) ==> 25 + 4 * slot_index <= 4096 && (data@.len()
                <= slot_length_of(old(self)@, slot_index as int) ==> slot_offset_of(
                old(self)@,
                slot_index as int,
            ) + slot_length_of(old(self)@, slot_index as int) <= 4096),
        ensures
            match r {
                Ok(()) => {
                    &&& slot_index < slot_count_of(old(self)@)
                    &&& data@.len() <= slot_length_of(old(self)@, slot_index as int)
                    &&& final(self)@ == update_bytes(old(self)@, slot_index as int, data@)
                },
                Err(e) => {
                    &&& final(self)@ == old(self)@
                    &&& if slot_index >= slot_count_of(old(self)@) {
                        e == PageError::InvalidSlot(slot_index)
                    } else {
                        data@.len() > slot_length_of(old(self)@, slot_index as int) && e
                            == PageError::PageFull
                    }
                },
            },
            well_formed(old(self)@) && r is Ok ==> {
                &&& well_formed(final(self)@)
                &&& records_of(final(self)@) == records_of(old(self)@).update(
                    slot_index as int,
                    data@,
                )
                &&& final(self)@.subrange(0, 17) == old(self)@.subrange(0, 17)
            },
            (r is Ok ==> slot_offset_of(old(self)@, slot_index as int) >= 17)
                ==> final(self)@.subrange(0, 17) == old(self)@.subrange(0, 17),
            sound_page(old(self)@) ==> sound_page(final(self)@),
    {
        let (offset, length) = match self.read_slot(slot_index) {
            Ok(v) => v,
            Err(e) => return Err(e),
        };
        if data.len() > length as usize {
            return Err(PageError::PageFull);
        }
        let ghost b = old(self)@;
        let ghost s = slot_index as int;
        let start = offset as usize;
        self.copy_in(start, data);
        if data.len() < length as usize {
            self.zero_range(start + data.len(), start + length as usize);
        } else {
            proof { self.lemma_len(); }
            assert(self@ =~= zero_bytes(self@, start + data@.len(), start + length));
        }
        self.write_slot(slot_index, offset, data.len() as u16);
        proof {
            self.lemma_len();
            assert(self@ =~= update_bytes(b, s, data@));
            if well_formed(b) {
                lemma_update(b, s, data@);
            }
            if offset >= 17 {
                assert(self@.subrange(0, 17) =~= b.subrange(0, 17));
            }
        }
        Ok(())
    }

    /// Compact the page, defragmenting data and reusing space: the space of
    /// deleted records is reclaimed, also when no record is left.
    ///
    /// Returns the number of bytes reclaimed.
    #[verifier::spinoff_prover]
    #[verifier::rlimit(40)]
    pub fn compact_records(&mut self) -> (reclaimed: usize)
        requires
            slot_count_of(old(self)@) > 0 ==> {
                &&& 21 + 4 * slot_count_of(old(self)@) <= 4096
                &&& forall|i: int|
                    0 <= i < slot_count_of(old(self)@) ==> #[trigger] slot_offset_of(old(self)@, i)
                        + slot_length_of(old(self)@, i) <= 4096
                &&& total_len(old(self)@, slot_count_of(old(self)@)) <= 4096
            },
        ensures
            final(self)@ == compact_bytes(old(self)@),
            reclaimed == compact_reclaimed(old(self)@),
            well_formed(old(self)@) ==> {
                &&& well_formed(final(self)@)
                &&& records_of(final(self)@) == records_of(old(self)@)
                &&& final(self)@.subrange(0, 17) == old(self)@.subrange(0, 17)
                &&& free_offset_of(final(self)@) == PAGE_SIZE - total_len(
                    old(self)@,
                    slot_count_of(old(self)@),
                )
                &&& reclaimed == free_offset_of(final(self)@) - free_offset_of(old(self)@)
            },
            total_len(old(self)@, slot_count_of(old(self)@)) <= 4079 ==> final(self)@.subrange(0, 17)
                == old(self)@.subrange(0, 17),
            sound_page(old(self)@) ==> sound_page(final(self)@),
    {
        let count = self.slot_count();
        proof { self.lemma_len(); }
        let ghost b = self@;
        let ghost recs = records_of(b);
        // Collect all record data in order
        let mut records: Vec<Vec<u8>> = Vec::with_capacity(count as usize);
        let mut i: u16 = 0;
        while i < count
            invariant
                self@ == b,
                b.len() == 4096,
                recs == records_of(b),
                count == slot_count_of(b),
                21 + 4 * count <= 4096,
                forall|j: int|
                    0 <= j < count ==> #[trigger] slot_offset_of(b, j) + slot_length_of(b, j)
                        <= 4096,
                0 <= i <= count,
                records@.len() == i,
                forall|j: int| 0 <= j < i ==> #[trigger] records@[j]@ == recs[j],
            decreases count - i,
        {
            let (offset, length) = self.read_slot(i).unwrap();
            let start = offset as usize;
            let end = start + length as usize;
            let all = self.buffer.as_slice();
            records.push(vstd::slice::slice_to_vec(&all[start..end]));
            i = i + 1;
        }
        proof {
            assert forall|k: int| 0 <= k < count implies 0 <= #[trigger] slot_offset_of(b, k)
                && slot_offset_of(b, k) + slot_length_of(b, k) <= b.len() by {}
            lemma_sum_lens_total(b, count as int);
        }
        // Re-pack from the bottom
        let mut cursor: usize = PAGE_SIZE;
        let mut i: usize = 0;
        while i < records.len()
            invariant
                b.len() == 4096,
                recs == records_of(b),
                count == slot_count_of(b),
                records@.len() == count,
                21 + 4 * count <= 4096,
                sum_lens(recs, count as int) <= 4096,
                forall|j: int| 0 <= j < count ==> #[trigger] records@[j]@ == recs[j],
                0 <= i <= count,
                cursor == 4096 - sum_lens(recs, i as int),
                cursor <= 4096,
                self@ == compact_step(b, recs, i as int),
            decreases count - i,
        {
            proof {
                lemma_sum_lens_mono(recs, i as int + 1, count as int);
                lemma_sum_lens_mono(recs, i as int, i as int);
                assert(sum_lens(recs, i + 1) == sum_lens(recs, i as int) + recs[i as int].len());
            }
            let rec = &records[i];
            cursor = cursor - rec.len();
            self.copy_in(cursor, rec.as_slice());
            self.write_slot(i as u16, cursor as u16, rec.len() as u16);
            i = i + 1;
        }
        let old_free_offset = self.free_offset();
        let new_free_offset = cursor as u16;
        let reclaimed = if new_free_offset > old_free_offset {
            (new_free_offset - old_free_offset) as usize
        } else {
            (old_free_offset - new_free_offset) as usize
        };
        self.set_free_offset(new_free_offset);
        proof {
            if well_formed(b) {
                lemma_compact(b);
            }
            if total_len(b, count as int) <= 4079 {
                lemma_compact_step_header(b, recs, count as int);
                assert(self@.subrange(0, 17) =~= b.subrange(0, 17));
            }
        }
        reclaimed
    }

    // ─── Layout checks for pages read from storage ───

    /// Whether `insert_record` can run on this page with a record of `len`
    /// bytes (a page read from storage may hold any header).
    pub fn insert_in_bounds(&self, len: usize) -> (ok: bool)
        ensures
            ok == (free_space_of(self@) >= len + SLOT_SIZE ==> free_offset_of(self@) <= 4096 && 25 + 4
                * slot_count_of(self@) <= 4096),
    {
        !self.can_fit(len) || (self.free_offset() as usize <= PAGE_SIZE && 25 + 4 * (
        self.slot_count() as usize) <= PAGE_SIZE)
    }

    /// Whether `get_record` can run on this page for `slot_index`.
    pub fn record_in_bounds(&self, slot_index: u16) -> (ok: bool)
        ensures
            ok == (slot_index < slot_count_of(self@) ==> 25 + 4 * slot_index <= 4096
                && slot_offset_of(self@, slot_index as int) + slot_length_of(
                self@,
                slot_index as int,
            ) <= 4096),
    {
        if slot_index >= self.slot_count() {
            return true;
        }
        let base = HEADER_SIZE + (slot_index as usize) * SLOT_SIZE;
        if base + 4 > PAGE_SIZE {
            return false;
        }
        let offset = self.read_u16(base) as usize;
        let length = self.read_u16(base + 2) as usize;
        offset + length <= PAGE_SIZE
    }

    /// Whether `get_record` can run on this page for every slot.
    pub fn all_records_readable(&self) -> (ok: bool)
        ensures
            ok == records_readable(self@),
    {
        let count = self.slot_count();
        let mut i: u16 = 0;
        while i < count
            invariant
                count == slot_count_of(self@),
                0 <= i <= count,
                forall|j: int| 0 <= j < i ==> #[trigger] slot_readable(self@, j),
            decreases count - i,
        {
            if !self.record_in_bounds(i) {
                assert(!slot_readable(self@, i as int));
                return false;
            }
            i = i + 1;
        }
        true
    }

    /// Whether `delete_record` can run on this page for `slot_index`.
    pub fn delete_in_bounds(&self, slot_index: u16) -> (ok: bool)
        ensures
            ok == (slot_index < slot_count_of(self@) ==> 21 + 4 * slot_count_of(self@) <= 4096),
    {
        slot_index >= self.slot_count() || HEADER_SIZE + 4 * (self.slot_count() as usize)
            <= PAGE_SIZE
    }

    /// Whether `compact_records` can run on this page.
    pub fn compact_in_bounds(&self) -> (ok: bool)
        ensures
            ok == (slot_count_of(self@) > 0 ==> {
                &&& 21 + 4 * slot_count_of(self@) <= 4096
                &&& forall|i: int|
                    0 <= i < slot_count_of(self@) ==> #[trigger] slot_offset_of(self@, i)
                        + slot_length_of(self@, i) <= 4096
                &&& total_len(self@, slot_count_of(self@)) <= 4096
            }),
    {
        let count = self.slot_count();
        if count == 0 {
            return true;
        }
        if HEADER_SIZE + 4 * (count as usize) > PAGE_SIZE {
            return false;
        }
        let mut total: usize = 0;
        let mut i: u16 = 0;
        while i < count
            invariant
                count == slot_count_of(self@),
                21 + 4 * count <= 4096,
                0 <= i <= count,
                total == total_len(self@, i as int),
                total <= 4096,
                forall|j: int| 0 <= j < i ==> #[trigger] slot_offset_of(self@, j) + slot_length_of(self@, j) <= 4096,
            decreases count - i,
        {
            let base = HEADER_SIZE + (i as usize) * SLOT_SIZE;
            let offset = self.read_u16(base) as usize;
            let length = self.read_u16(base + 2) as usize;
            if offset + length > PAGE_SIZE {
                assert(slot_offset_of(self@, i as int) + slot_length_of(self@, i as int) > 4096);
                return false;
            }
            if total + length > PAGE_SIZE {
                proof {
                    assert(total_len(self@, i as int + 1) == total + length);
                    lemma_total_len_grows(self@, i as int + 1, count as int);
                }
                return false;
            }
            total = total + length;
            i = i + 1;
        }
        true
    }
}

} // verus!
