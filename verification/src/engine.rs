//! The engine's in-memory bookkeeping: which page slot holds each record,
//! which search tokens each record was indexed under, the blind search
//! index, the page cache and the page-id allocator.
//!
//! The engine's storage and log I/O drive these steps; every decision the
//! engine takes between two I/O operations is a method here.

use std::collections::HashMap;
use vstd::prelude::*;
use crate::allocator::{AllocatorView, PageAllocator, allocate_step};
use crate::cache::{BufferPool, PoolView, put_step, without};
use crate::error::EngineError;
use crate::index::{HashIndex, without_record};
use crate::page::{
    SlottedPage, SLOT_SIZE, delete_bytes, free_space_of, insert_bytes, lemma_insert, magic_of,
    page_id_of, page_type_of_code, record_of, records_of, records_readable, slot_count_of,
    slot_length_of, slot_offset_of, slot_readable, well_formed,
};
use crate::record::{decode_record, encoded_record, lemma_record_roundtrip, parse_record};
use crate::types::{
    EncryptedPayload, InsertTuple, LSN, PageId, PageType, RecordId, SearchToken, WalOperation,
    MAGIC_NUMBER,
};
use crate::wal::WalEntry;
use vstd::std_specs::hash::spec_keys_iter;
use vstd::std_specs::iter::IteratorSpec;

verus! {

broadcast use vstd::std_specs::hash::group_hash_axioms;

/// The index after `r` was listed under token `t`.
pub open spec fn index_insert(m: Map<Seq<u8>, Seq<RecordId>>, t: Seq<u8>, r: RecordId) -> Map<Seq<u8>, Seq<RecordId>> {
    m.insert(t, if m.contains_key(t) { m[t].push(r) } else { seq![r] })
}

/// The index after `r` was listed under each of `toks`, in order.
pub open spec fn index_insert_all(m: Map<Seq<u8>, Seq<RecordId>>, toks: Seq<SearchToken>, r: RecordId) -> Map<Seq<u8>, Seq<RecordId>>
    decreases toks.len(),
{
    if toks.len() == 0 {
        m
    } else {
        index_insert(index_insert_all(m, toks.drop_last(), r), toks.last()@, r)
    }
}

/// The index after `r` was taken off token `t` (a token left without
/// records disappears; an unknown token changes nothing).
pub open spec fn index_delete(m: Map<Seq<u8>, Seq<RecordId>>, t: Seq<u8>, r: RecordId) -> Map<Seq<u8>, Seq<RecordId>> {
    if m.contains_key(t) {
        let kept = without_record(m[t], r);
        if kept.len() == 0 {
            m.remove(t)
        } else {
            m.insert(t, kept)
        }
    } else {
        m
    }
}

/// The index after `r` was taken off each of `toks`, in order.
pub open spec fn index_delete_all(m: Map<Seq<u8>, Seq<RecordId>>, toks: Seq<SearchToken>, r: RecordId) -> Map<Seq<u8>, Seq<RecordId>>
    decreases toks.len(),
{
    if toks.len() == 0 {
        m
    } else {
        index_delete(index_delete_all(m, toks.drop_last(), r), toks.last()@, r)
    }
}

/// After listing `r` under every token of `toks`, each of those tokens lists `r`.
pub proof fn lemma_insert_all_lists(m: Map<Seq<u8>, Seq<RecordId>>, toks: Seq<SearchToken>, r: RecordId)
    ensures
        forall|i: int| 0 <= i < toks.len() ==> {
            &&& #[trigger] index_insert_all(m, toks, r).contains_key(toks[i]@)
            &&& index_insert_all(m, toks, r)[toks[i]@].contains(r)
        },
    decreases toks.len(),
{
    if toks.len() > 0 {
        let init = toks.drop_last();
        lemma_insert_all_lists(m, init, r);
        let prev = index_insert_all(m, init, r);
        let cur = index_insert_all(m, toks, r);
        let t = toks.last()@;
        assert forall|i: int| 0 <= i < toks.len() implies #[trigger] cur.contains_key(toks[i]@)
            && cur[toks[i]@].contains(r) by {
            if toks[i]@ == t {
                let l = cur[t];
                assert(l[l.len() - 1] == r);
            } else {
                assert(toks[i] == init[i]);
                assert(prev.contains_key(init[i]@) && prev[init[i]@].contains(r));
            }
        }
    }
}

proof fn lemma_filter_drops(s: Seq<RecordId>, r: RecordId)
    ensures
        !without_record(s, r).contains(r),
{
    broadcast use vstd::seq_lib::group_filter_ensures;
    let f = s.filter(|x: RecordId| x != r);
    if f.contains(r) {
        let k = choose|k: int| 0 <= k < f.len() && #[trigger] f[k] == r;
        s.lemma_filter_pred(|x: RecordId| x != r, k);
    }
}

/// After taking `r` off every token of `toks`, none of those tokens lists `r`.
pub proof fn lemma_delete_all_unlists(m: Map<Seq<u8>, Seq<RecordId>>, toks: Seq<SearchToken>, r: RecordId)
    ensures
        forall|i: int| 0 <= i < toks.len() && #[trigger] index_delete_all(m, toks, r).contains_key(toks[i]@)
            ==> !index_delete_all(m, toks, r)[toks[i]@].contains(r),
    decreases toks.len(),
{
    if toks.len() > 0 {
        let init = toks.drop_last();
        lemma_delete_all_unlists(m, init, r);
        let prev = index_delete_all(m, init, r);
        let cur = index_delete_all(m, toks, r);
        let t = toks.last()@;
        if prev.contains_key(t) {
            lemma_filter_drops(prev[t], r);
        }
        assert forall|i: int| 0 <= i < toks.len() && #[trigger] cur.contains_key(toks[i]@) implies !cur[toks[i]@].contains(r) by {
            if toks[i]@ != t {
                assert(toks[i] == init[i]);
                assert(prev.contains_key(init[i]@));
            }
        }
    }
}

/// Listing `r` under tokens keeps every record listed under every token it
/// was listed under.
pub proof fn lemma_insert_all_keeps(m: Map<Seq<u8>, Seq<RecordId>>, toks: Seq<SearchToken>, r: RecordId, t: Seq<u8>, x: RecordId)
    requires
        m.contains_key(t),
        m[t].contains(x),
    ensures
        index_insert_all(m, toks, r).contains_key(t),
        index_insert_all(m, toks, r)[t].contains(x),
    decreases toks.len(),
{
    if toks.len() > 0 {
        let init = toks.drop_last();
        lemma_insert_all_keeps(m, init, r, t, x);
        let prev = index_insert_all(m, init, r);
        if toks.last()@ == t {
            let j = choose|j: int| 0 <= j < prev[t].len() && prev[t][j] == x;
            assert(prev[t].push(r)[j] == x);
        }
    }
}

proof fn lemma_filter_keeps_other(s: Seq<RecordId>, r: RecordId, x: RecordId)
    requires
        s.contains(x),
        x != r,
    ensures
        without_record(s, r).contains(x),
{
    broadcast use vstd::seq_lib::group_filter_ensures;
    let j = choose|j: int| 0 <= j < s.len() && s[j] == x;
    s.lemma_filter_contains(|y: RecordId| y != r, j);
}

/// Taking `r` off tokens keeps every other record listed under every token
/// it was listed under.
pub proof fn lemma_delete_all_keeps(m: Map<Seq<u8>, Seq<RecordId>>, toks: Seq<SearchToken>, r: RecordId, t: Seq<u8>, x: RecordId)
    requires
        m.contains_key(t),
        m[t].contains(x),
        x != r,
    ensures
        index_delete_all(m, toks, r).contains_key(t),
        index_delete_all(m, toks, r)[t].contains(x),
    decreases toks.len(),
{
    if toks.len() > 0 {
        let init = toks.drop_last();
        lemma_delete_all_keeps(m, init, r, t, x);
        let prev = index_delete_all(m, init, r);
        if toks.last()@ == t {
            lemma_filter_keeps_other(prev[t], r, x);
        }
    }
}

/// Every record whose tokens the engine remembers is listed under each of
/// them: a search by any of its tokens finds it.
pub open spec fn tokens_indexed(index: Map<Seq<u8>, Seq<RecordId>>, tokens: Map<u64, Seq<SearchToken>>) -> bool {
    forall|id: u64, i: int|
        #![trigger tokens[id][i]]
        tokens.contains_key(id) && 0 <= i < tokens[id].len() ==> {
            &&& index.contains_key(tokens[id][i]@)
            &&& index[tokens[id][i]@].contains(RecordId(id))
        }
}

/// Listing a record under its tokens and remembering them keeps every
/// remembered record findable.
pub proof fn lemma_insert_keeps_tokens_indexed(
    index: Map<Seq<u8>, Seq<RecordId>>,
    tokens: Map<u64, Seq<SearchToken>>,
    toks: Seq<SearchToken>,
    r: RecordId,
)
    requires
        tokens_indexed(index, tokens),
    ensures
        tokens_indexed(index_insert_all(index, toks, r), tokens.insert(r.0, toks)),
{
    let index2 = index_insert_all(index, toks, r);
    let tokens2 = tokens.insert(r.0, toks);
    lemma_insert_all_lists(index, toks, r);
    assert forall|id: u64, i: int| tokens2.contains_key(id) && 0 <= i < tokens2[id].len() implies {
        &&& index2.contains_key(#[trigger] tokens2[id][i]@)
        &&& index2[tokens2[id][i]@].contains(RecordId(id))
    } by {
        if id == r.0 {
            assert(tokens2[id] == toks);
            assert(RecordId(id) == r);
        } else {
            assert(tokens2[id] == tokens[id]);
            let t = tokens[id][i]@;
            assert(index.contains_key(t) && index[t].contains(RecordId(id)));
            lemma_insert_all_keeps(index, toks, r, t, RecordId(id));
        }
    }
}

/// Taking a record off its remembered tokens and forgetting them keeps every
/// other remembered record findable.
pub proof fn lemma_remove_keeps_tokens_indexed(
    index: Map<Seq<u8>, Seq<RecordId>>,
    tokens: Map<u64, Seq<SearchToken>>,
    r: RecordId,
)
    requires
        tokens_indexed(index, tokens),
    ensures
        tokens_indexed(
            if tokens.contains_key(r.0) { index_delete_all(index, tokens[r.0], r) } else { index },
            tokens.remove(r.0),
        ),
{
    let index2 = if tokens.contains_key(r.0) { index_delete_all(index, tokens[r.0], r) } else { index };
    let tokens2 = tokens.remove(r.0);
    assert forall|id: u64, i: int| tokens2.contains_key(id) && 0 <= i < tokens2[id].len() implies {
        &&& index2.contains_key(#[trigger] tokens2[id][i]@)
        &&& index2[tokens2[id][i]@].contains(RecordId(id))
    } by {
        assert(id != r.0);
        assert(tokens2[id] == tokens[id]);
        let t = tokens[id][i]@;
        assert(index.contains_key(t) && index[t].contains(RecordId(id)));
        if tokens.contains_key(r.0) {
            lemma_delete_all_keeps(index, tokens[r.0], r, t, RecordId(id));
        }
    }
}

/// Whether a page can take a record of `size` bytes: it is a data page with
/// room for the record and its slot.
pub open spec fn page_accepts_spec(page: Seq<u8>, size: int) -> bool {
    page_type_of_code(page[4]) == PageType::Data && free_space_of(page) >= size + SLOT_SIZE
}

/// The engine picks a page for a record exactly when the page is a data page
/// whose free space, between the slot array and the record data, holds the
/// record and its slot; such a page takes the insert.
pub proof fn lemma_accepted_page_takes_record(page: Seq<u8>, size: int)
    ensures
        page_accepts_spec(page, size) <==> (page_type_of_code(page[4]) == PageType::Data
            && free_space_of(page) - SLOT_SIZE >= size),
        page_accepts_spec(page, size) ==> free_space_of(page) >= size + SLOT_SIZE,
{
}

/// Whether a page can take a record of `size` bytes.
pub fn page_accepts(page: &SlottedPage, size: usize) -> (ok: bool)
    ensures
        ok == page_accepts_spec(page@, size as int),
{
    page.page_type() == PageType::Data && page.can_fit(size)
}

/// The record locations after scanning the first `n` slots of page `pid`:
/// each slot whose bytes read back as a record places that record there, a
/// later slot winning over an earlier one.
pub open spec fn locations_after_scan(
    m: Map<u64, (PageId, u16)>,
    page: Seq<u8>,
    pid: PageId,
    n: nat,
) -> Map<u64, (PageId, u16)>
    decreases n,
{
    if n == 0 {
        m
    } else {
        let prev = locations_after_scan(m, page, pid, (n - 1) as nat);
        match parse_record(record_of(page, n - 1)) {
            Some(r) => prev.insert(r.0.0, (pid, (n - 1) as u16)),
            None => prev,
        }
    }
}

/// Whether slot `i` of a page reads back as a record with id `k`.
pub open spec fn slot_holds_id(page: Seq<u8>, i: int, k: u64) -> bool {
    parse_record(record_of(page, i)) matches Some(r) && r.0.0 == k
}

/// Scanning the first `n` slots of a page only adds to the locations known
/// before: a record that no scanned slot holds keeps its known location, or
/// stays unknown.
pub proof fn lemma_scan_keeps_other_locations(m: Map<u64, (PageId, u16)>, page: Seq<u8>, pid: PageId, n: nat, k: u64)
    requires
        forall|i: int| 0 <= i < n ==> !#[trigger] slot_holds_id(page, i, k),
    ensures
        locations_after_scan(m, page, pid, n).contains_key(k) == m.contains_key(k),
        m.contains_key(k) ==> locations_after_scan(m, page, pid, n)[k] == m[k],
    decreases n,
{
    if n > 0 {
        lemma_scan_keeps_other_locations(m, page, pid, (n - 1) as nat, k);
        assert(!slot_holds_id(page, n - 1, k));
    }
}

/// After scanning the first `n` slots of a page, every location known before
/// is still known, and a location that changed or appeared is a scanned slot
/// of that page which holds the record.
pub proof fn lemma_scan_only_adds(m: Map<u64, (PageId, u16)>, page: Seq<u8>, pid: PageId, n: nat, k: u64)
    requires
        n <= 65536,
    ensures
        m.contains_key(k) ==> locations_after_scan(m, page, pid, n).contains_key(k),
        locations_after_scan(m, page, pid, n).contains_key(k) && !(m.contains_key(k)
            && locations_after_scan(m, page, pid, n)[k] == m[k]) ==> {
            let l = locations_after_scan(m, page, pid, n)[k];
            &&& l.0 == pid
            &&& l.1 < n
            &&& slot_holds_id(page, l.1 as int, k)
        },
    decreases n,
{
    if n > 0 {
        lemma_scan_only_adds(m, page, pid, (n - 1) as nat, k);
    }
}

/// Where a record stored at `l` is after slot `slot` of page `pid` was
/// deleted: the later slots of that page move down by one.
pub open spec fn shift_loc(l: (PageId, u16), pid: PageId, slot: u16) -> (PageId, u16) {
    if l.0 == pid && l.1 > slot {
        (pid, (l.1 - 1) as u16)
    } else {
        l
    }
}

/// The record locations after slot `slot` of page `pid` was deleted.
pub open spec fn shifted_locations(m: Map<u64, (PageId, u16)>, pid: PageId, slot: u16) -> Map<u64, (PageId, u16)> {
    Map::new(|k: u64| m.contains_key(k), |k: u64| shift_loc(m[k], pid, slot))
}

/// Deleting a slot of page `pid` leaves every record on another page, and
/// every earlier slot of that page, where it was; a later slot of that page
/// moves down by exactly one. Every known location stays known.
pub proof fn lemma_shift_moves_only_later_slots(m: Map<u64, (PageId, u16)>, pid: PageId, slot: u16, k: u64)
    requires
        m.contains_key(k),
    ensures
        shifted_locations(m, pid, slot).contains_key(k),
        m[k].0 != pid ==> shifted_locations(m, pid, slot)[k] == m[k],
        m[k].0 == pid && m[k].1 <= slot ==> shifted_locations(m, pid, slot)[k] == m[k],
        m[k].0 == pid && m[k].1 > slot ==> shifted_locations(m, pid, slot)[k].0 == pid
            && shifted_locations(m, pid, slot)[k].1 + 1 == m[k].1,
        shifted_locations(m, pid, slot).dom() == m.dom(),
{
    assert(shifted_locations(m, pid, slot).dom() =~= m.dom());
}

/// The page image after a record's slot was deleted from it: slots that do
/// not exist leave it as it was.
pub open spec fn after_slot_delete(page: Seq<u8>, slot: u16) -> Seq<u8> {
    if slot < slot_count_of(page) {
        delete_bytes(page, slot as int)
    } else {
        page
    }
}

/// What reading record `id` from slot `slot` of a page gives.
pub open spec fn read_result(page: Seq<u8>, slot: u16, id: RecordId) -> Option<Option<(Seq<u8>, Seq<u8>, Seq<u8>)>> {
    if slot >= slot_count_of(page) {
        None
    } else {
        match parse_record(record_of(page, slot as int)) {
            None => Some(None),
            Some(r) => if r.0 == id {
                Some(Some((r.1, r.2, r.3)))
            } else {
                None
            },
        }
    }
}

/// Read record `record_id` from slot `slot` of a page.
///
/// A missing slot, or a slot holding another record, is `RecordNotFound`;
/// bytes that do not read back as a record are `InvalidOperation`.
pub fn read_record(page: &SlottedPage, slot: u16, record_id: RecordId) -> (r: Result<EncryptedPayload, EngineError>)
    requires
        slot < slot_count_of(page@) ==> 25 + 4 * slot <= 4096 && slot_offset_of(page@, slot as int)
            + slot_length_of(page@, slot as int) <= 4096,
    ensures
        match read_result(page@, slot, record_id) {
            Some(Some((nonce, ciphertext, tag))) => r matches Ok(p) && p.nonce@ == nonce
                && p.ciphertext@ == ciphertext && p.tag@ == tag,
            Some(None) => r matches Err(EngineError::InvalidOperation(_)),
            None => r matches Err(EngineError::RecordNotFound(id)) && id == record_id,
        },
{
    let data = match page.get_record(slot) {
        Ok(d) => d,
        Err(_) => return Err(EngineError::RecordNotFound(record_id)),
    };
    match decode_record(data) {
        None => Err(EngineError::InvalidOperation("corrupt record data".to_string())),
        Some((stored_id, payload)) => {
            if stored_id.0 != record_id.0 {
                Err(EngineError::RecordNotFound(record_id))
            } else {
                Ok(payload)
            }
        },
    }
}

proof fn lemma_readable_slot(b: Seq<u8>, i: int)
    requires
        records_readable(b),
        0 <= i < slot_count_of(b),
    ensures
        slot_offset_of(b, i) + slot_length_of(b, i) <= 4096,
        25 + 4 * i <= 4096,
{
    assert(slot_readable(b, i));
}

/// A record stored in a slot reads back as itself: its payload's nonce,
/// ciphertext and tag.
pub proof fn lemma_read_stored_record(page: Seq<u8>, slot: u16, id: RecordId, p: EncryptedPayload)
    requires
        slot < slot_count_of(page),
        record_of(page, slot as int) == encoded_record(id, p),
        p.ciphertext@.len() < 0x10000000000000000,
    ensures
        read_result(page, slot, id) == Some(Some((p.nonce@, p.ciphertext@, p.tag@))),
{
    lemma_record_roundtrip(id, p, Seq::empty());
    assert(encoded_record(id, p) + Seq::<u8>::empty() =~= encoded_record(id, p));
}

/// Inserting a record's bytes into a well-formed page with room for them
/// and their slot, then reading the new slot, gives the record back.
#[verifier::spinoff_prover]
#[verifier::rlimit(30)]
pub proof fn lemma_insert_then_read(page: Seq<u8>, id: RecordId, p: EncryptedPayload)
    requires
        well_formed(page),
        free_space_of(page) >= encoded_record(id, p).len() + SLOT_SIZE,
    ensures
        read_result(insert_bytes(page, encoded_record(id, p)), slot_count_of(page) as u16, id) == Some(
            Some((p.nonce@, p.ciphertext@, p.tag@)),
        ),
{
    let d = encoded_record(id, p);
    lemma_insert(page, d);
    let after = insert_bytes(page, d);
    assert(records_of(after)[slot_count_of(page)] == d);
    assert(slot_count_of(after) == slot_count_of(page) + 1);
    lemma_read_stored_record(after, slot_count_of(page) as u16, id, p);
}

/// Scanning a page whose slot `slot` stores record `id`, no later slot
/// storing the same id, locates `id` at that slot.
pub proof fn lemma_scan_locates_record(
    m: Map<u64, (PageId, u16)>,
    page: Seq<u8>,
    pid: PageId,
    slot: u16,
    id: RecordId,
    p: EncryptedPayload,
)
    requires
        slot < slot_count_of(page),
        record_of(page, slot as int) == encoded_record(id, p),
        p.ciphertext@.len() < 0x10000000000000000,
        forall|t: int|
            slot < t < slot_count_of(page) ==> !(#[trigger] parse_record(record_of(page, t)) matches Some(r)
                && r.0 == id),
    ensures
        locations_after_scan(m, page, pid, slot_count_of(page) as nat).contains_key(id.0),
        locations_after_scan(m, page, pid, slot_count_of(page) as nat)[id.0] == (pid, slot),
{
    lemma_record_roundtrip(id, p, Seq::empty());
    assert(encoded_record(id, p) + Seq::<u8>::empty() =~= encoded_record(id, p));
    lemma_scan_from(m, page, pid, slot, id, slot_count_of(page) as nat);
}

proof fn lemma_scan_from(m: Map<u64, (PageId, u16)>, page: Seq<u8>, pid: PageId, slot: u16, id: RecordId, n: nat)
    requires
        slot < n <= slot_count_of(page),
        parse_record(record_of(page, slot as int)) matches Some(r) && r.0 == id,
        forall|t: int| slot < t < slot_count_of(page) ==> !(#[trigger] parse_record(record_of(page, t)) matches Some(r)
            && r.0 == id),
    ensures
        locations_after_scan(m, page, pid, n).contains_key(id.0),
        locations_after_scan(m, page, pid, n)[id.0] == (pid, slot),
    decreases n,
{
    if n - 1 > slot {
        lemma_scan_from(m, page, pid, slot, id, (n - 1) as nat);
        let t = n - 1;
        assert(!(parse_record(record_of(page, t)) matches Some(r) && r.0 == id));
        match parse_record(record_of(page, t)) {
            Some(r) => {
                assert(r.0 != id);
                assert(r.0.0 != id.0);
            },
            None => {},
        }
    }
}

/// What deleting a record's slot from its cached page found.
pub enum CachedDelete {
    /// The page is not cached (or its cached image is not a page).
    NotCached,
    /// The slot was deleted (or did not exist), the page stored back dirty;
    /// here is the new image, to be written to storage.
    Deleted(SlottedPage),
    /// The cached page's slot array runs past the page.
    Unreadable,
}

/// The bookkeeping after forgetting record `id`: it is taken off the tokens
/// remembered for it, and its location and tokens are forgotten.
pub open spec fn removal(v: EngineView, id: RecordId) -> EngineView {
    EngineView {
        index: if v.tokens.contains_key(id.0) {
            index_delete_all(v.index, v.tokens[id.0], id)
        } else {
            v.index
        },
        locations: v.locations.remove(id.0),
        tokens: v.tokens.remove(id.0),
        ..v
    }
}

/// The bookkeeping after replaying one WAL entry: an insert lists the record
/// under its tokens and remembers them; a delete forgets the record as a
/// live delete does; updates and checkpoints change nothing.
pub open spec fn replay_step(v: EngineView, e: WalEntry) -> EngineView {
    match e.operation {
        WalOperation::Insert(t) => EngineView {
            index: index_insert_all(v.index, t.search_tokens@, t.record_id),
            tokens: v.tokens.insert(t.record_id.0, t.search_tokens@),
            ..v
        },
        WalOperation::Delete(id) => removal(v, id),
        _ => v,
    }
}

/// The bookkeeping after replaying `entries` in order.
pub open spec fn replay_all(v: EngineView, entries: Seq<WalEntry>) -> EngineView
    decreases entries.len(),
{
    if entries.len() == 0 {
        v
    } else {
        replay_step(replay_all(v, entries.drop_last()), entries.last())
    }
}

/// Replaying an insert of `t` and then a delete of its record leaves the
/// record off every one of its tokens, as the live insert and delete do.
pub proof fn lemma_replayed_delete_unlists(v: EngineView, lsn1: LSN, lsn2: LSN, t: InsertTuple)
    ensures
        ({
            let after = replay_all(
                v,
                seq![
                    WalEntry { lsn: lsn1, operation: WalOperation::Insert(t) },
                    WalEntry { lsn: lsn2, operation: WalOperation::Delete(t.record_id) },
                ],
            );
            forall|i: int|
                0 <= i < t.search_tokens@.len() && #[trigger] after.index.contains_key(t.search_tokens@[i]@)
                    ==> !after.index[t.search_tokens@[i]@].contains(t.record_id)
        }),
{
    let e1 = WalEntry { lsn: lsn1, operation: WalOperation::Insert(t) };
    let e2 = WalEntry { lsn: lsn2, operation: WalOperation::Delete(t.record_id) };
    let es = seq![e1, e2];
    assert(es.drop_last() =~= seq![e1]);
    assert(seq![e1].drop_last() =~= Seq::<WalEntry>::empty());
    assert(replay_all(v, Seq::<WalEntry>::empty()) == v);
    assert(seq![e1].last() == e1);
    assert(replay_all(v, seq![e1]) == replay_step(v, e1));
    assert(es.last() == e2);
    let mid = replay_step(v, e1);
    assert(replay_all(v, es) == replay_step(mid, e2));
    assert(mid.tokens[t.record_id.0] == t.search_tokens@);
    lemma_delete_all_unlists(mid.index, t.search_tokens@, t.record_id);
}

/// What probing the cache for a page with room for a record found.
pub enum CacheProbe {
    /// The page is cached and can take the record.
    Fits(SlottedPage),
    /// The page is cached but cannot take the record.
    NoRoom,
    /// The page is not cached (or its cached image is not a page).
    Missing,
}

/// The abstract state of the engine's bookkeeping.
pub struct EngineView {
    pub pool: PoolView,
    pub index: Map<Seq<u8>, Seq<RecordId>>,
    pub allocator: AllocatorView,
    pub locations: Map<u64, (PageId, u16)>,
    pub tokens: Map<u64, Seq<SearchToken>>,
}

/// The engine's in-memory state.
pub struct EngineState {
    buffer_pool: BufferPool,
    index: HashIndex,
    page_allocator: PageAllocator,
    record_map: HashMap<u64, (PageId, u16)>,
    record_tokens: HashMap<u64, Vec<SearchToken>>,
}

impl View for EngineState {
    type V = EngineView;

    closed spec fn view(&self) -> EngineView {
        EngineView {
            pool: self.buffer_pool@,
            index: self.index@,
            allocator: self.page_allocator@,
            locations: self.record_map@,
            tokens: self.record_tokens@.map_values(|v: Vec<SearchToken>| v@),
        }
    }
}

/// The ids of the records whose location is known.
fn location_keys(m: &HashMap<u64, (PageId, u16)>) -> (ks: Vec<u64>)
    ensures
        ks@.to_set() == m@.dom(),
        ks@.no_duplicates(),
{
    let ghost all = m.keys().remaining();
    let mut ks: Vec<u64> = Vec::new();
    for k in it: m.keys()
        invariant
            it.seq() == all,
            ks@ == all.unref().take(it.index() as int),
    {
        ks.push(*k);
        proof {
            assert(all.unref().take(it.index() as int + 1) =~= ks@);
        }
    }
    assert(ks@ =~= all.unref());
    assert(all == spec_keys_iter(m).remaining());
    ks
}

/// A copy of a token list.
fn copy_tokens(v: &Vec<SearchToken>) -> (r: Vec<SearchToken>)
    ensures
        r@ == v@,
{
    let mut out: Vec<SearchToken> = Vec::with_capacity(v.len());
    let mut i: usize = 0;
    while i < v.len()
        invariant
            0 <= i <= v@.len(),
            out@ == v@.take(i as int),
        decreases v@.len() - i,
    {
        out.push(v[i]);
        assert(v@.take(i + 1) =~= v@.take(i as int).push(v@[i as int]));
        i = i + 1;
    }
    assert(v@.take(i as int) =~= v@);
    out
}

impl EngineState {
    /// The page cache's bookkeeping is consistent.
    pub closed spec fn wf(&self) -> bool {
        self.buffer_pool.wf()
    }

    /// The state of a freshly opened engine: a cache of 1000 pages, an empty
    /// index, page ids allocated from 0, no records.
    pub fn new() -> (s: Self)
        ensures
            s.wf(),
            s@.pool == (PoolView { capacity: 1000, pages: Map::empty(), order: Seq::empty() }),
            s@.index == Map::<Seq<u8>, Seq<RecordId>>::empty(),
            s@.allocator == (AllocatorView { next: 0, free: Seq::empty() }),
            s@.locations == Map::<u64, (PageId, u16)>::empty(),
            s@.tokens == Map::<u64, Seq<SearchToken>>::empty(),
            tokens_indexed(s@.index, s@.tokens),
    {
        let s = Self {
            buffer_pool: BufferPool::new(1000),
            index: HashIndex::new(),
            page_allocator: PageAllocator::new(0),
            record_map: HashMap::new(),
            record_tokens: HashMap::new(),
        };
        assert(s@.tokens =~= Map::<u64, Seq<SearchToken>>::empty());
        s
    }

    /// The state of an engine opened on storage that holds `page_count`
    /// pages: like `new`, with fresh page ids starting after those pages.
    pub fn with_pages(page_count: u32) -> (s: Self)
        ensures
            s.wf(),
            s@.pool == (PoolView { capacity: 1000, pages: Map::empty(), order: Seq::empty() }),
            s@.index == Map::<Seq<u8>, Seq<RecordId>>::empty(),
            s@.allocator == (AllocatorView { next: page_count, free: Seq::empty() }),
            s@.locations == Map::<u64, (PageId, u16)>::empty(),
            s@.tokens == Map::<u64, Seq<SearchToken>>::empty(),
            tokens_indexed(s@.index, s@.tokens),
    {
        let s = Self {
            buffer_pool: BufferPool::new(1000),
            index: HashIndex::new(),
            page_allocator: PageAllocator::new(page_count),
            record_map: HashMap::new(),
            record_tokens: HashMap::new(),
        };
        assert(s@.tokens =~= Map::<u64, Seq<SearchToken>>::empty());
        s
    }

    /// List `record_id` under each token, in order.
    fn index_tokens(&mut self, tokens: &Vec<SearchToken>, record_id: RecordId)
        requires
            old(self).wf(),
        ensures
            final(self).wf(),
            final(self)@ == (EngineView { index: index_insert_all(old(self)@.index, tokens@, record_id), ..old(self)@ }),
    {
        let mut i: usize = 0;
        while i < tokens.len()
            invariant
                0 <= i <= tokens@.len(),
                self.wf(),
                self@ == (EngineView { index: index_insert_all(old(self)@.index, tokens@.take(i as int), record_id), ..old(self)@ }),
            decreases tokens@.len() - i,
        {
            let _ = self.index.insert(tokens[i], record_id);
            proof {
                let t = tokens@.take(i + 1);
                assert(t.drop_last() =~= tokens@.take(i as int));
            }
            i = i + 1;
        }
        assert(tokens@.take(i as int) =~= tokens@);
    }

    /// Take `record_id` off each token, in order; unknown tokens are skipped.
    fn unindex_tokens(&mut self, tokens: &Vec<SearchToken>, record_id: RecordId)
        requires
            old(self).wf(),
        ensures
            final(self).wf(),
            final(self)@ == (EngineView { index: index_delete_all(old(self)@.index, tokens@, record_id), ..old(self)@ }),
    {
        let mut i: usize = 0;
        while i < tokens.len()
            invariant
                0 <= i <= tokens@.len(),
                self.wf(),
                self@ == (EngineView { index: index_delete_all(old(self)@.index, tokens@.take(i as int), record_id), ..old(self)@ }),
            decreases tokens@.len() - i,
        {
            let _ = self.index.delete(&tokens[i], record_id);
            proof {
                let t = tokens@.take(i + 1);
                assert(t.drop_last() =~= tokens@.take(i as int));
            }
            i = i + 1;
        }
        assert(tokens@.take(i as int) =~= tokens@);
    }

    /// Apply a single WAL entry to restore engine state.
    ///
    /// Only restores in-memory index state. Actual page data is on disk.
    /// The record locations are rebuilt from page data after recovery.
    pub fn apply_wal_entry(&mut self, entry: &WalEntry)
        requires
            old(self).wf(),
        ensures
            final(self).wf(),
            final(self)@ == replay_step(old(self)@, *entry),
            tokens_indexed(old(self)@.index, old(self)@.tokens) ==> tokens_indexed(final(self)@.index, final(self)@.tokens),
    {
        match &entry.operation {
            WalOperation::Insert(tuple) => {
                self.index_tokens(&tuple.search_tokens, tuple.record_id);
                let toks = copy_tokens(&tuple.search_tokens);
                self.record_tokens.insert(tuple.record_id.0, toks);
                assert(self@.tokens =~= old(self)@.tokens.insert(tuple.record_id.0, tuple.search_tokens@));
                proof {
                    if tokens_indexed(old(self)@.index, old(self)@.tokens) {
                        lemma_insert_keeps_tokens_indexed(old(self)@.index, old(self)@.tokens, tuple.search_tokens@, tuple.record_id);
                    }
                }
            },
            WalOperation::Delete(record_id) => {
                let _ = self.remove_record(*record_id);
            },
            WalOperation::Update { record_id: _, tuple: _ } => {},
            WalOperation::Checkpoint(_) => {},
        }
    }

    /// Apply replayed WAL entries in order.
    pub fn apply_wal_entries(&mut self, entries: &Vec<WalEntry>)
        requires
            old(self).wf(),
        ensures
            final(self).wf(),
            final(self)@ == replay_all(old(self)@, entries@),
            tokens_indexed(old(self)@.index, old(self)@.tokens) ==> tokens_indexed(final(self)@.index, final(self)@.tokens),
    {
        let mut i: usize = 0;
        while i < entries.len()
            invariant
                0 <= i <= entries@.len(),
                self.wf(),
                self@ == replay_all(old(self)@, entries@.take(i as int)),
                tokens_indexed(old(self)@.index, old(self)@.tokens) ==> tokens_indexed(self@.index, self@.tokens),
            decreases entries@.len() - i,
        {
            self.apply_wal_entry(&entries[i]);
            proof {
                let t = entries@.take(i + 1);
                assert(t.drop_last() =~= entries@.take(i as int));
            }
            i = i + 1;
        }
        assert(entries@.take(i as int) =~= entries@);
    }

    /// Record a newly inserted record: its page image becomes the cached
    /// clean copy, it is listed under each of its search tokens, its location
    /// is `(page_id, slot)` and its tokens are remembered for deletion.
    pub fn register_insert(&mut self, tuple: &InsertTuple, page: &SlottedPage, page_id: PageId, slot: u16)
        requires
            old(self).wf(),
        ensures
            final(self).wf(),
            final(self)@ == (EngineView {
                pool: put_step(old(self)@.pool, page_id_of(page@) as u32, page@, false),
                index: index_insert_all(old(self)@.index, tuple.search_tokens@, tuple.record_id),
                locations: old(self)@.locations.insert(tuple.record_id.0, (page_id, slot)),
                tokens: old(self)@.tokens.insert(tuple.record_id.0, tuple.search_tokens@),
                ..old(self)@
            }),
            forall|i: int| 0 <= i < tuple.search_tokens@.len() ==> {
                &&& #[trigger] final(self)@.index.contains_key(tuple.search_tokens@[i]@)
                &&& final(self)@.index[tuple.search_tokens@[i]@].contains(tuple.record_id)
            },
            tokens_indexed(old(self)@.index, old(self)@.tokens) ==> tokens_indexed(final(self)@.index, final(self)@.tokens),
    {
        self.buffer_pool.put(page, false);
        self.index_tokens(&tuple.search_tokens, tuple.record_id);
        self.record_map.insert(tuple.record_id.0, (page_id, slot));
        let toks = copy_tokens(&tuple.search_tokens);
        self.record_tokens.insert(tuple.record_id.0, toks);
        proof {
            assert(self@.tokens =~= old(self)@.tokens.insert(tuple.record_id.0, tuple.search_tokens@));
            lemma_insert_all_lists(old(self)@.index, tuple.search_tokens@, tuple.record_id);
            if tokens_indexed(old(self)@.index, old(self)@.tokens) {
                lemma_insert_keeps_tokens_indexed(old(self)@.index, old(self)@.tokens, tuple.search_tokens@, tuple.record_id);
            }
        }
    }

    /// Forget a deleted record: take it off the tokens it was indexed under,
    /// forget its tokens and its location, and return where it was.
    pub fn remove_record(&mut self, record_id: RecordId) -> (loc: Option<(PageId, u16)>)
        requires
            old(self).wf(),
        ensures
            final(self).wf(),
            loc == (if old(self)@.locations.contains_key(record_id.0) {
                Some(old(self)@.locations[record_id.0])
            } else {
                None
            }),
            final(self)@ == removal(old(self)@, record_id),
            !final(self)@.locations.contains_key(record_id.0),
            old(self)@.tokens.contains_key(record_id.0) ==> forall|i: int|
                0 <= i < old(self)@.tokens[record_id.0].len() && #[trigger] final(self)@.index.contains_key(
                    old(self)@.tokens[record_id.0][i]@,
                ) ==> !final(self)@.index[old(self)@.tokens[record_id.0][i]@].contains(record_id),
            tokens_indexed(old(self)@.index, old(self)@.tokens) ==> tokens_indexed(final(self)@.index, final(self)@.tokens),
    {
        match self.record_tokens.remove(&record_id.0) {
            Some(tokens) => {
                self.unindex_tokens(&tokens, record_id);
                proof {
                    lemma_delete_all_unlists(old(self)@.index, tokens@, record_id);
                }
            },
            None => {},
        }
        let loc = self.record_map.remove(&record_id.0);
        assert(self@.tokens =~= old(self)@.tokens.remove(record_id.0));
        proof {
            if tokens_indexed(old(self)@.index, old(self)@.tokens) {
                lemma_remove_keeps_tokens_indexed(old(self)@.index, old(self)@.tokens, record_id);
            }
        }
        loc
    }

    /// Forget where a record is stored (its page slot is about to be
    /// replaced).
    pub fn forget_location(&mut self, record_id: RecordId)
        requires
            old(self).wf(),
        ensures
            final(self).wf(),
            final(self)@ == (EngineView { locations: old(self)@.locations.remove(record_id.0), ..old(self)@ }),
    {
        self.record_map.remove(&record_id.0);
    }

    /// Remember that a record is stored at `(page_id, slot)`; a later call for
    /// the same record wins.
    pub fn note_location(&mut self, record_id: RecordId, page_id: PageId, slot: u16)
        requires
            old(self).wf(),
        ensures
            final(self).wf(),
            final(self)@ == (EngineView { locations: old(self)@.locations.insert(record_id.0, (page_id, slot)), ..old(self)@ }),
    {
        self.record_map.insert(record_id.0, (page_id, slot));
    }

    /// Note the location of every record stored in page `page_id`.
    pub fn note_page_records(&mut self, page_id: PageId, page: &SlottedPage)
        requires
            old(self).wf(),
            records_readable(page@),
        ensures
            final(self).wf(),
            final(self)@ == (EngineView {
                locations: locations_after_scan(old(self)@.locations, page@, page_id, slot_count_of(page@) as nat),
                ..old(self)@
            }),
    {
        let count = page.record_count();
        let mut slot: u16 = 0;
        while slot < count
            invariant
                self.wf(),
                count == slot_count_of(page@),
                records_readable(page@),
                0 <= slot <= count,
                self@ == (EngineView {
                    locations: locations_after_scan(old(self)@.locations, page@, page_id, slot as nat),
                    ..old(self)@
                }),
            decreases count - slot,
        {
            proof { lemma_readable_slot(page@, slot as int); }
            match page.get_record(slot) {
                Ok(data) => match decode_record(data) {
                    Some((stored_id, _)) => {
                        self.record_map.insert(stored_id.0, (page_id, slot));
                    },
                    None => {},
                },
                Err(_) => {},
            }
            slot = slot + 1;
        }
    }

    /// Delete slot `slot` from the cached image of page `page_id`, store the
    /// image back as dirty, and move the records of the later slots of that
    /// page down by one slot.
    pub fn delete_in_cache(&mut self, page_id: PageId, slot: u16) -> (r: CachedDelete)
        requires
            old(self).wf(),
        ensures
            final(self).wf(),
            match r {
                CachedDelete::NotCached => {
                    &&& final(self)@ == old(self)@
                    &&& old(self)@.pool.pages.contains_key(page_id.0) ==> magic_of(old(self)@.pool.pages[page_id.0].data) != MAGIC_NUMBER
                },
                CachedDelete::Deleted(page) => {
                    let data = old(self)@.pool.pages[page_id.0].data;
                    let touched = PoolView { order: without(old(self)@.pool.order, page_id).push(page_id), ..old(self)@.pool };
                    let after = after_slot_delete(data, slot);
                    &&& old(self)@.pool.pages.contains_key(page_id.0)
                    &&& magic_of(data) == MAGIC_NUMBER
                    &&& page@ == after
                    &&& final(self)@ == (EngineView {
                        pool: put_step(touched, page_id_of(after) as u32, after, true),
                        locations: if slot < slot_count_of(data) {
                            shifted_locations(old(self)@.locations, page_id, slot)
                        } else {
                            old(self)@.locations
                        },
                        ..old(self)@
                    })
                },
                CachedDelete::Unreadable => {
                    let data = old(self)@.pool.pages[page_id.0].data;
                    &&& old(self)@.pool.pages.contains_key(page_id.0)
                    &&& magic_of(data) == MAGIC_NUMBER
                    &&& slot < slot_count_of(data)
                    &&& 21 + 4 * slot_count_of(data) > 4096
                    &&& final(self)@ == (EngineView {
                        pool: PoolView { order: without(old(self)@.pool.order, page_id).push(page_id), ..old(self)@.pool },
                        ..old(self)@
                    })
                },
            },
    {
        match self.buffer_pool.get(page_id) {
            None => CachedDelete::NotCached,
            Some(mut cached) => {
                if !cached.delete_in_bounds(slot) {
                    return CachedDelete::Unreadable;
                }
                let deleted = cached.delete_record(slot);
                self.buffer_pool.put(&cached, true);
                if deleted.is_ok() {
                    self.shift_locations(page_id, slot);
                }
                CachedDelete::Deleted(cached)
            },
        }
    }

    /// Slot `slot` of page `page_id` was deleted: the records stored in the
    /// later slots of that page move down by one slot.
    pub fn shift_locations(&mut self, page_id: PageId, slot: u16)
        requires
            old(self).wf(),
        ensures
            final(self).wf(),
            final(self)@ == (EngineView {
                locations: shifted_locations(old(self)@.locations, page_id, slot),
                ..old(self)@
            }),
    {
        let keys = location_keys(&self.record_map);
        let ghost m0 = self.record_map@;
        let mut i: usize = 0;
        while i < keys.len()
            invariant
                keys@.to_set() == m0.dom(),
                keys@.no_duplicates(),
                m0 == old(self)@.locations,
                self.wf(),
                0 <= i <= keys@.len(),
                self.record_map@.dom() == m0.dom(),
                forall|k: u64|
                    #[trigger] m0.contains_key(k) ==> self.record_map@[k] == if keys@.take(i as int).contains(k) {
                        shift_loc(m0[k], page_id, slot)
                    } else {
                        m0[k]
                    },
                self@ == (EngineView { locations: self.record_map@, ..old(self)@ }),
            decreases keys@.len() - i,
        {
            let k = keys[i];
            proof {
                assert(keys@.to_set().contains(k));
                assert(!keys@.take(i as int).contains(k));
            }
            let ghost before = self.record_map@;
            match self.record_map.get(&k) {
                Some(l) => {
                    let (p, s) = *l;
                    if p.0 == page_id.0 && s > slot {
                        self.record_map.insert(k, (page_id, s - 1));
                        assert(self.record_map@.dom() =~= before.dom());
                    }
                },
                None => {},
            }
            proof {
                assert forall|k2: u64| #[trigger] m0.contains_key(k2) implies self.record_map@[k2] == if keys@.take(i + 1).contains(k2) {
                    shift_loc(m0[k2], page_id, slot)
                } else {
                    m0[k2]
                } by {
                    if k2 == k {
                        assert(keys@.take(i + 1)[i as int] == k);
                    } else {
                        if keys@.take(i + 1).contains(k2) {
                            let t1 = keys@.take(i + 1);
                            let j = choose|j: int| 0 <= j < i + 1 && #[trigger] t1[j] == k2;
                            assert(keys@.take(i as int)[j] == k2);
                        }
                        if keys@.take(i as int).contains(k2) {
                            let t0 = keys@.take(i as int);
                            let j = choose|j: int| 0 <= j < i && #[trigger] t0[j] == k2;
                            assert(keys@.take(i + 1)[j] == k2);
                        }
                    }
                }
            }
            i = i + 1;
        }
        proof {
            assert(keys@.take(i as int) =~= keys@);
            assert forall|k: u64| m0.contains_key(k) implies keys@.contains(k) by {
                assert(keys@.to_set().contains(k));
            }
            assert(self.record_map@ =~= shifted_locations(m0, page_id, slot));
        }
    }

    /// Where a record is stored.
    pub fn locate(&self, record_id: RecordId) -> (loc: Option<(PageId, u16)>)
        ensures
            loc == (if self@.locations.contains_key(record_id.0) {
                Some(self@.locations[record_id.0])
            } else {
                None
            }),
    {
        match self.record_map.get(&record_id.0) {
            Some(l) => Some(*l),
            None => None,
        }
    }

    /// Retrieve all record IDs matching a given search token.
    pub fn search(&self, token: &SearchToken) -> (r: Result<Vec<RecordId>, EngineError>)
        ensures
            match r {
                Ok(ids) => self@.index.contains_key(token@) && ids@ == self@.index[token@],
                Err(e) => !self@.index.contains_key(token@) && (e matches EngineError::Index(ie) && ie is TokenNotFound),
            },
    {
        match self.index.search(token) {
            Ok(ids) => Ok(ids),
            Err(e) => Err(EngineError::Index(e)),
        }
    }

    /// The cached image of a page, which becomes the most recently used.
    pub fn cached_page(&mut self, page_id: PageId) -> (r: Option<SlottedPage>)
        requires
            old(self).wf(),
        ensures
            final(self).wf(),
            match r {
                Some(page) => {
                    &&& old(self)@.pool.pages.contains_key(page_id.0)
                    &&& page@ == old(self)@.pool.pages[page_id.0].data
                    &&& final(self)@ == (EngineView {
                        pool: PoolView { order: without(old(self)@.pool.order, page_id).push(page_id), ..old(self)@.pool },
                        ..old(self)@
                    })
                },
                None => {
                    &&& final(self)@ == old(self)@
                    &&& old(self)@.pool.pages.contains_key(page_id.0) ==> magic_of(old(self)@.pool.pages[page_id.0].data) != MAGIC_NUMBER
                },
            },
    {
        self.buffer_pool.get(page_id)
    }

    /// Probe the cache for page `page_id` as a home for a record of `size`
    /// bytes.
    pub fn probe_cached(&mut self, page_id: PageId, size: usize) -> (r: CacheProbe)
        requires
            old(self).wf(),
        ensures
            final(self).wf(),
            match r {
                CacheProbe::Fits(page) => {
                    &&& old(self)@.pool.pages.contains_key(page_id.0)
                    &&& page@ == old(self)@.pool.pages[page_id.0].data
                    &&& page_accepts_spec(page@, size as int)
                },
                CacheProbe::NoRoom => {
                    &&& old(self)@.pool.pages.contains_key(page_id.0)
                    &&& !page_accepts_spec(old(self)@.pool.pages[page_id.0].data, size as int)
                },
                CacheProbe::Missing => {
                    &&& final(self)@ == old(self)@
                    &&& old(self)@.pool.pages.contains_key(page_id.0) ==> magic_of(old(self)@.pool.pages[page_id.0].data) != MAGIC_NUMBER
                },
            },
            !(r is Missing) ==> final(self)@ == (EngineView {
                pool: PoolView { order: without(old(self)@.pool.order, page_id).push(page_id), ..old(self)@.pool },
                ..old(self)@
            }),
    {
        match self.buffer_pool.get(page_id) {
            Some(cached) => {
                if page_accepts(&cached, size) {
                    CacheProbe::Fits(cached)
                } else {
                    CacheProbe::NoRoom
                }
            },
            None => CacheProbe::Missing,
        }
    }

    /// Place a page image in the cache.
    pub fn cache_page(&mut self, page: &SlottedPage, dirty: bool)
        requires
            old(self).wf(),
        ensures
            final(self).wf(),
            final(self)@ == (EngineView { pool: put_step(old(self)@.pool, page_id_of(page@) as u32, page@, dirty), ..old(self)@ }),
    {
        self.buffer_pool.put(page, dirty);
    }

    /// Whether a fresh page id can be allocated.
    pub fn can_allocate(&self) -> (ok: bool)
        ensures
            ok == (self@.allocator.free.len() > 0 || self@.allocator.next < u32::MAX),
    {
        self.page_allocator.free_count() > 0 || self.page_allocator.total_allocated() < u32::MAX
    }

    /// Allocate a page id and make an empty data page for it.
    pub fn fresh_page(&mut self) -> (r: (SlottedPage, PageId))
        requires
            old(self).wf(),
            old(self)@.allocator.free.len() > 0 || old(self)@.allocator.next < u32::MAX,
        ensures
            final(self).wf(),
            (r.1, final(self)@.allocator) == allocate_step(old(self)@.allocator),
            final(self)@ == (EngineView { allocator: final(self)@.allocator, ..old(self)@ }),
            page_id_of(r.0@) == r.1.0,
            page_type_of_code(r.0@[4]) == PageType::Data,
            crate::page::well_formed(r.0@),
            crate::page::records_of(r.0@) == Seq::<Seq<u8>>::empty(),
    {
        let page_id = self.page_allocator.allocate();
        let page = SlottedPage::new(PageType::Data, page_id);
        (page, page_id)
    }

    /// The blind search index.
    pub fn index(&self) -> (idx: &HashIndex)
        ensures
            idx@ == self@.index,
    {
        &self.index
    }

    /// The page cache.
    pub fn buffer_pool(&self) -> (pool: &BufferPool)
        ensures
            pool@ == self@.pool,
    {
        &self.buffer_pool
    }

    /// The number of records whose location is known.
    pub fn record_count(&self) -> (n: usize)
        ensures
            n == self@.locations.dom().len(),
    {
        self.record_map.len()
    }
}

} // verus!
