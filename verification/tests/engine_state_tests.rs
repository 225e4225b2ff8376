use pickledb::engine::{read_record, CacheProbe, CachedDelete, EngineState};
use pickledb::error::{EngineError, IndexError};
use pickledb::page::SlottedPage;
use pickledb::record::encode_record;
use pickledb::types::{EncryptedPayload, InsertTuple, LSN, PageId, PageType, RecordId, SearchToken, WalOperation};
use pickledb::wal::WalEntry;

fn sample_payload() -> EncryptedPayload {
    EncryptedPayload { nonce: [0u8; 12], ciphertext: vec![1u8; 32], tag: [2u8; 16] }
}

fn sample_tuple(record_id: u64, token_val: u8) -> InsertTuple {
    InsertTuple {
        record_id: RecordId(record_id),
        payload: sample_payload(),
        search_tokens: vec![SearchToken([token_val; 32])],
    }
}

/// Store a tuple the way the engine does: on a fresh page, then registered.
fn store(state: &mut EngineState, tuple: &InsertTuple) -> (PageId, u16) {
    let (mut page, page_id) = state.fresh_page();
    let bytes = encode_record(tuple.record_id, &tuple.payload);
    let slot = page.insert_record(&bytes).unwrap();
    state.register_insert(tuple, &page, page_id, slot);
    (page_id, slot)
}

#[test]
fn registered_record_is_found_by_each_token() {
    let mut state = EngineState::new();
    let mut t = sample_tuple(1, 10);
    t.search_tokens.push(SearchToken([20; 32]));
    store(&mut state, &t);
    assert_eq!(state.search(&SearchToken([10; 32])).unwrap(), vec![RecordId(1)]);
    assert_eq!(state.search(&SearchToken([20; 32])).unwrap(), vec![RecordId(1)]);
    assert_eq!(state.locate(RecordId(1)), Some((PageId(0), 0)));
    assert_eq!(state.record_count(), 1);
}

#[test]
fn removed_record_leaves_index_and_map() {
    let mut state = EngineState::new();
    store(&mut state, &sample_tuple(1, 1));
    store(&mut state, &sample_tuple(2, 1));
    assert_eq!(state.remove_record(RecordId(1)), Some((PageId(0), 0)));
    assert_eq!(state.search(&SearchToken([1; 32])).unwrap(), vec![RecordId(2)]);
    assert_eq!(state.locate(RecordId(1)), None);
    assert_eq!(state.remove_record(RecordId(2)), Some((PageId(1), 0)));
    assert!(matches!(state.search(&SearchToken([1; 32])), Err(EngineError::Index(IndexError::TokenNotFound))));
    assert_eq!(state.remove_record(RecordId(2)), None);
}

#[test]
fn stored_record_reads_back_from_cache() {
    let mut state = EngineState::new();
    let (page_id, slot) = store(&mut state, &sample_tuple(7, 3));
    let page = state.cached_page(page_id).unwrap();
    let payload = read_record(&page, slot, RecordId(7)).unwrap();
    assert_eq!(payload, sample_payload());
    assert!(matches!(read_record(&page, slot, RecordId(8)), Err(EngineError::RecordNotFound(RecordId(8)))));
    assert!(matches!(read_record(&page, 5, RecordId(7)), Err(EngineError::RecordNotFound(RecordId(7)))));
}

#[test]
fn garbage_slot_is_invalid_operation() {
    let mut page = SlottedPage::new(PageType::Data, PageId(0));
    page.insert_record(b"not a record").unwrap();
    assert!(matches!(read_record(&page, 0, RecordId(1)), Err(EngineError::InvalidOperation(_))));
}

#[test]
fn wal_replay_restores_index_and_tokens() {
    let mut state = EngineState::new();
    state.apply_wal_entry(&WalEntry { lsn: LSN(1), operation: WalOperation::Insert(sample_tuple(1, 4)) });
    state.apply_wal_entry(&WalEntry { lsn: LSN(2), operation: WalOperation::Insert(sample_tuple(2, 4)) });
    assert_eq!(state.search(&SearchToken([4; 32])).unwrap(), vec![RecordId(1), RecordId(2)]);
    state.apply_wal_entry(&WalEntry { lsn: LSN(3), operation: WalOperation::Delete(RecordId(1)) });
    state.apply_wal_entry(&WalEntry { lsn: LSN(4), operation: WalOperation::Checkpoint(LSN(3)) });
    assert_eq!(state.search(&SearchToken([4; 32])).unwrap(), vec![RecordId(2)]);
    assert_eq!(state.remove_record(RecordId(2)), None);
    assert!(matches!(state.search(&SearchToken([4; 32])), Err(EngineError::Index(IndexError::TokenNotFound))));
}

#[test]
fn scanning_a_page_notes_every_record() {
    let mut state = EngineState::new();
    let mut page = SlottedPage::new(PageType::Data, PageId(4));
    page.insert_record(&encode_record(RecordId(10), &sample_payload())).unwrap();
    page.insert_record(b"junk").unwrap();
    page.insert_record(&encode_record(RecordId(11), &sample_payload())).unwrap();
    page.insert_record(&encode_record(RecordId(10), &sample_payload())).unwrap();
    assert!(page.all_records_readable());
    state.note_page_records(PageId(4), &page);
    assert_eq!(state.locate(RecordId(10)), Some((PageId(4), 3)));
    assert_eq!(state.locate(RecordId(11)), Some((PageId(4), 2)));
    assert_eq!(state.record_count(), 2);
}

#[test]
fn delete_in_cache_marks_page_dirty() {
    let mut state = EngineState::new();
    let (page_id, slot) = store(&mut state, &sample_tuple(1, 1));
    assert!(!state.buffer_pool().is_dirty(page_id));
    assert!(matches!(state.delete_in_cache(page_id, slot), CachedDelete::Deleted(_)));
    assert!(state.buffer_pool().is_dirty(page_id));
    let page = state.cached_page(page_id).unwrap();
    assert_eq!(page.record_count(), 0);
    assert!(matches!(state.delete_in_cache(PageId(99), 0), CachedDelete::NotCached));
}

#[test]
fn probe_reports_room_on_cached_pages() {
    let mut state = EngineState::new();
    let (page_id, _) = store(&mut state, &sample_tuple(1, 1));
    assert!(matches!(state.probe_cached(page_id, 100), CacheProbe::Fits(_)));
    assert!(matches!(state.probe_cached(page_id, 5000), CacheProbe::NoRoom));
    assert!(matches!(state.probe_cached(PageId(50), 1), CacheProbe::Missing));
}

#[test]
fn fresh_pages_take_allocator_ids() {
    let mut state = EngineState::new();
    assert!(state.can_allocate());
    let (p0, id0) = state.fresh_page();
    let (_, id1) = state.fresh_page();
    assert_eq!(id0, PageId(0));
    assert_eq!(id1, PageId(1));
    assert_eq!(p0.page_id(), PageId(0));
    assert_eq!(p0.page_type(), PageType::Data);
    assert!(p0.is_empty());
}

#[test]
fn update_moves_the_record() {
    let mut state = EngineState::new();
    store(&mut state, &sample_tuple(1, 1));
    state.forget_location(RecordId(1));
    assert_eq!(state.locate(RecordId(1)), None);
    let new_tuple = InsertTuple {
        record_id: RecordId(1),
        payload: EncryptedPayload { nonce: [0xFF; 12], ciphertext: vec![0xAA; 64], tag: [0xBB; 16] },
        search_tokens: vec![SearchToken([2; 32])],
    };
    let (page_id, slot) = store(&mut state, &new_tuple);
    assert_eq!(state.locate(RecordId(1)), Some((page_id, slot)));
    let page = state.cached_page(page_id).unwrap();
    assert_eq!(read_record(&page, slot, RecordId(1)).unwrap().ciphertext, vec![0xAA; 64]);
    state.note_location(RecordId(9), PageId(3), 2);
    assert_eq!(state.locate(RecordId(9)), Some((PageId(3), 2)));
}

#[test]
fn replaying_entries_applies_them_in_order() {
    let mut state = EngineState::new();
    let entries = vec![
        WalEntry { lsn: LSN(1), operation: WalOperation::Insert(sample_tuple(1, 6)) },
        WalEntry { lsn: LSN(2), operation: WalOperation::Insert(sample_tuple(2, 6)) },
        WalEntry { lsn: LSN(3), operation: WalOperation::Update { record_id: RecordId(1), tuple: sample_tuple(1, 7) } },
        WalEntry { lsn: LSN(4), operation: WalOperation::Delete(RecordId(2)) },
    ];
    state.apply_wal_entries(&entries);
    assert_eq!(state.search(&SearchToken([6; 32])).unwrap(), vec![RecordId(1)]);
    assert!(state.search(&SearchToken([7; 32])).is_err());
    assert_eq!(state.remove_record(RecordId(1)), None);
    assert!(state.search(&SearchToken([6; 32])).is_err());
}

#[test]
fn replayed_insert_then_delete_unlists_the_record() {
    let mut state = EngineState::new();
    state.apply_wal_entries(&vec![
        WalEntry { lsn: LSN(1), operation: WalOperation::Insert(sample_tuple(1, 1)) },
        WalEntry { lsn: LSN(2), operation: WalOperation::Delete(RecordId(1)) },
    ]);
    assert!(matches!(state.search(&SearchToken([1; 32])), Err(EngineError::Index(IndexError::TokenNotFound))));
}

/// Store a tuple into an existing page the way the engine does.
fn store_in(state: &mut EngineState, page: &mut SlottedPage, page_id: PageId, tuple: &InsertTuple) -> u16 {
    let bytes = encode_record(tuple.record_id, &tuple.payload);
    let slot = page.insert_record(&bytes).unwrap();
    state.register_insert(tuple, page, page_id, slot);
    slot
}

#[test]
fn deleting_a_record_keeps_the_others_in_its_page() {
    let mut state = EngineState::new();
    let (mut page, page_id) = state.fresh_page();
    store_in(&mut state, &mut page, page_id, &sample_tuple(1, 1));
    store_in(&mut state, &mut page, page_id, &sample_tuple(2, 2));
    store_in(&mut state, &mut page, page_id, &sample_tuple(3, 3));
    assert_eq!(state.locate(RecordId(3)), Some((page_id, 2)));
    let (_, slot) = state.remove_record(RecordId(1)).unwrap();
    let after = match state.delete_in_cache(page_id, slot) {
        CachedDelete::Deleted(p) => p,
        _ => panic!("page should be cached"),
    };
    assert_eq!(after.record_count(), 2);
    assert_eq!(state.locate(RecordId(2)), Some((page_id, 0)));
    assert_eq!(state.locate(RecordId(3)), Some((page_id, 1)));
    let page = state.cached_page(page_id).unwrap();
    assert_eq!(read_record(&page, 0, RecordId(2)).unwrap(), sample_payload());
    assert_eq!(read_record(&page, 1, RecordId(3)).unwrap(), sample_payload());
}

#[test]
fn shifting_moves_only_later_slots_of_that_page() {
    let mut state = EngineState::new();
    state.note_location(RecordId(1), PageId(0), 0);
    state.note_location(RecordId(2), PageId(0), 3);
    state.note_location(RecordId(3), PageId(1), 3);
    state.note_location(RecordId(4), PageId(0), 1);
    state.shift_locations(PageId(0), 1);
    assert_eq!(state.locate(RecordId(1)), Some((PageId(0), 0)));
    assert_eq!(state.locate(RecordId(2)), Some((PageId(0), 2)));
    assert_eq!(state.locate(RecordId(3)), Some((PageId(1), 3)));
    assert_eq!(state.locate(RecordId(4)), Some((PageId(0), 1)));
}

#[test]
fn reopened_state_allocates_after_existing_pages() {
    let mut state = EngineState::with_pages(5);
    let (page, id) = state.fresh_page();
    assert_eq!(id, PageId(5));
    assert_eq!(page.page_id(), PageId(5));
    assert_eq!(state.fresh_page().1, PageId(6));
}

#[test]
fn page_accepts_counts_the_slot() {
    let page = SlottedPage::new(PageType::Data, PageId(0));
    assert!(pickledb::engine::page_accepts(&page, 4071));
    assert!(!pickledb::engine::page_accepts(&page, 4072));
}
