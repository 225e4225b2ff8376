use pickledb::error::PageError;
use pickledb::page::{SlottedPage, HEADER_SIZE, SLOT_SIZE};
use pickledb::types::{LSN, MAGIC_NUMBER, PAGE_SIZE, PageId, PageType};

fn test_page() -> SlottedPage {
    SlottedPage::new(PageType::Data, PageId(1))
}

#[test]
fn test_new_page() {
    let page = test_page();
    assert_eq!(page.magic(), MAGIC_NUMBER);
    assert_eq!(page.page_type(), PageType::Data);
    assert_eq!(page.page_id(), PageId(1));
    assert_eq!(page.lsn(), LSN(0));
    assert_eq!(page.slot_count(), 0);
    assert_eq!(page.free_space(), PAGE_SIZE - HEADER_SIZE);
    assert!(page.is_empty());
}

#[test]
fn page_test_insert_and_get() {
    let mut page = test_page();
    let data = b"Hello, PickleDB!";
    let slot = page.insert_record(data).unwrap();
    assert_eq!(slot, 0);
    assert_eq!(page.record_count(), 1);
    assert!(!page.is_empty());
    let retrieved = page.get_record(slot).unwrap();
    assert_eq!(retrieved, data);
}

#[test]
fn test_multiple_inserts() {
    let mut page = test_page();
    let d1 = page.insert_record(b"record1").unwrap();
    let d2 = page.insert_record(b"record2").unwrap();
    let d3 = page.insert_record(b"record3").unwrap();
    assert_eq!(d1, 0);
    assert_eq!(d2, 1);
    assert_eq!(d3, 2);
    assert_eq!(page.record_count(), 3);
    assert_eq!(page.get_record(0).unwrap(), b"record1");
    assert_eq!(page.get_record(1).unwrap(), b"record2");
    assert_eq!(page.get_record(2).unwrap(), b"record3");
}

#[test]
fn page_test_delete_record() {
    let mut page = test_page();
    page.insert_record(b"record1").unwrap();
    page.insert_record(b"record2").unwrap();
    page.insert_record(b"record3").unwrap();
    page.delete_record(1).unwrap();
    assert_eq!(page.record_count(), 2);
    assert_eq!(page.get_record(0).unwrap(), b"record1");
    assert_eq!(page.get_record(1).unwrap(), b"record3");
}

#[test]
fn test_delete_invalid_slot() {
    let mut page = test_page();
    assert!(page.delete_record(0).is_err());
}

#[test]
fn test_update_record() {
    let mut page = test_page();
    page.insert_record(b"original").unwrap();
    page.update_record(0, b"updated").unwrap();
    assert_eq!(page.get_record(0).unwrap(), b"updated");
}

#[test]
fn test_update_too_large() {
    let mut page = test_page();
    page.insert_record(b"small").unwrap();
    assert!(page.update_record(0, b"this is too large for the slot").is_err());
}

#[test]
fn test_compact_records() {
    let mut page = test_page();
    page.insert_record(b"AAAA").unwrap();
    page.insert_record(b"BBBB").unwrap();
    page.insert_record(b"CCCC").unwrap();
    let before_free = page.free_space();
    page.delete_record(1).unwrap();
    page.compact_records();
    // After compaction, records should be contiguous
    assert_eq!(page.get_record(0).unwrap(), b"AAAA");
    assert_eq!(page.get_record(1).unwrap(), b"CCCC");
    assert!(page.free_space() > before_free);
}

#[test]
fn test_page_full() {
    let mut page = test_page();
    let big_data = vec![0u8; PAGE_SIZE - HEADER_SIZE + 1];
    assert!(page.insert_record(&big_data).is_err());
}

#[test]
fn test_many_small_records() {
    let mut page = test_page();
    let mut count = 0u16;
    while page.can_fit(8) {
        page.insert_record(b"12345678").unwrap();
        count += 1;
    }
    assert!(count >= 300);
}

#[test]
fn test_buffer_roundtrip() {
    let mut page = test_page();
    page.insert_record(b"data1").unwrap();
    page.insert_record(b"data2").unwrap();
    page.set_lsn(LSN(42));

    let buffer = page.into_buffer();
    let loaded = SlottedPage::from_buffer(buffer).unwrap();
    assert_eq!(loaded.page_id(), PageId(1));
    assert_eq!(loaded.lsn(), LSN(42));
    assert_eq!(loaded.record_count(), 2);
    assert_eq!(loaded.get_record(0).unwrap(), b"data1");
    assert_eq!(loaded.get_record(1).unwrap(), b"data2");
}

#[test]
fn test_invalid_magic() {
    let mut buffer = [0u8; PAGE_SIZE];
    buffer[0..4].copy_from_slice(&0xDEADBEEFu32.to_be_bytes());
    assert!(SlottedPage::from_buffer(buffer).is_err());
}

#[test]
fn test_delete_all_records() {
    let mut page = test_page();
    page.insert_record(b"only").unwrap();
    page.delete_record(0).unwrap();
    assert!(page.is_empty());
    assert_eq!(page.record_count(), 0);
}

#[test]
fn test_compact_empty_page() {
    let mut page = test_page();
    assert_eq!(page.compact_records(), 0);
}

#[test]
fn test_large_record_fits() {
    let mut page = test_page();
    let data = vec![0xABu8; PAGE_SIZE - HEADER_SIZE - SLOT_SIZE];
    let slot = page.insert_record(&data).unwrap();
    assert_eq!(slot, 0);
    let retrieved = page.get_record(0).unwrap();
    assert_eq!(retrieved.len(), data.len());
    assert_eq!(retrieved, &data[..]);
}

#[test]
fn new_page_header_bytes() {
    let page = SlottedPage::new(PageType::Index, PageId(0x01020304));
    let b = page.buffer();
    assert_eq!(&b[0..4], &[0x50, 0x4B, 0x44, 0x42]);
    assert_eq!(b[4], 1);
    assert_eq!(&b[5..9], &[1, 2, 3, 4]);
    assert_eq!(&b[9..17], &[0u8; 8]);
    assert_eq!(&b[17..19], &[0, 0]);
    assert_eq!(&b[19..21], &[0x10, 0x00]);
}

#[test]
fn header_setters_round_trip() {
    let mut page = test_page();
    page.set_page_type(PageType::Meta);
    page.set_page_id(PageId(77));
    page.set_lsn(LSN(0x0102030405060708));
    assert_eq!(page.page_type(), PageType::Meta);
    assert_eq!(page.page_id(), PageId(77));
    assert_eq!(page.lsn(), LSN(0x0102030405060708));
    assert_eq!(&page.buffer()[9..17], &[1, 2, 3, 4, 5, 6, 7, 8]);
}

#[test]
fn unknown_type_byte_reads_as_free() {
    let mut buffer = test_page().into_buffer();
    buffer[4] = 9;
    let page = SlottedPage::from_buffer(buffer).unwrap();
    assert_eq!(page.page_type(), PageType::Free);
}

#[test]
fn magic_mismatch_reports_both_numbers() {
    let buffer = [0u8; PAGE_SIZE];
    match SlottedPage::from_buffer(buffer) {
        Err(PageError::MagicMismatch { expected, actual }) => {
            assert_eq!(expected, MAGIC_NUMBER);
            assert_eq!(actual, 0);
        }
        _ => panic!("expected MagicMismatch"),
    }
}

#[test]
fn insert_places_record_at_bottom() {
    let mut page = test_page();
    page.insert_record(b"abc").unwrap();
    assert_eq!(page.free_offset(), 4093);
    assert_eq!(&page.buffer()[4093..4096], b"abc");
    assert_eq!(&page.buffer()[21..25], &[0x0F, 0xFD, 0x00, 0x03]);
    assert_eq!(page.free_space(), 4093 - 25);
}

#[test]
fn full_page_insert_is_page_full() {
    let mut page = test_page();
    assert_eq!(page.insert_record(&vec![1u8; 5000]), Err(PageError::PageFull));
}

#[test]
fn missing_slot_is_invalid_slot() {
    let mut page = test_page();
    assert_eq!(page.get_record(3), Err(PageError::InvalidSlot(3)));
    assert_eq!(page.delete_record(2), Err(PageError::InvalidSlot(2)));
    assert_eq!(page.update_record(1, b"x"), Err(PageError::InvalidSlot(1)));
}

#[test]
fn update_shorter_record_zero_fills_the_rest() {
    let mut page = test_page();
    page.insert_record(b"abcdef").unwrap();
    page.update_record(0, b"xy").unwrap();
    assert_eq!(page.get_record(0).unwrap(), b"xy");
    assert_eq!(&page.buffer()[4090..4096], &[b'x', b'y', 0, 0, 0, 0]);
}

#[test]
fn compaction_reclaims_deleted_bytes() {
    let mut page = test_page();
    page.insert_record(b"AAAA").unwrap();
    page.insert_record(b"BB").unwrap();
    page.insert_record(b"CCCCCC").unwrap();
    page.delete_record(0).unwrap();
    let before = page.free_offset();
    let reclaimed = page.compact_records();
    assert_eq!(reclaimed, 4);
    assert_eq!(page.free_offset(), before + 4);
    assert_eq!(page.free_offset() as usize, PAGE_SIZE - 8);
    assert_eq!(page.get_record(0).unwrap(), b"BB");
    assert_eq!(page.get_record(1).unwrap(), b"CCCCCC");
}

#[test]
fn layout_checks_accept_fresh_pages() {
    let mut page = test_page();
    page.insert_record(b"one").unwrap();
    assert!(page.insert_in_bounds(10));
    assert!(page.record_in_bounds(0));
    assert!(page.delete_in_bounds(0));
    assert!(page.compact_in_bounds());
    assert!(page.all_records_readable());
}

#[test]
fn layout_checks_reject_corrupt_slots() {
    let mut buffer = test_page().into_buffer();
    buffer[17] = 0;
    buffer[18] = 1;
    buffer[21] = 0x0F;
    buffer[22] = 0xFF;
    buffer[23] = 0x00;
    buffer[24] = 0x10;
    let page = SlottedPage::from_buffer(buffer).unwrap();
    assert!(!page.record_in_bounds(0));
    assert!(!page.all_records_readable());
    assert!(!page.compact_in_bounds());
}

#[test]
fn record_needs_room_for_its_slot() {
    let mut page = test_page();
    assert!(!page.can_fit(PAGE_SIZE - HEADER_SIZE - SLOT_SIZE + 1));
    assert_eq!(page.insert_record(&vec![1u8; PAGE_SIZE - HEADER_SIZE - 1]), Err(PageError::PageFull));
    assert_eq!(page.insert_record(&vec![1u8; PAGE_SIZE - HEADER_SIZE - SLOT_SIZE + 1]), Err(PageError::PageFull));
    assert!(page.is_empty());
    assert!(page.can_fit(PAGE_SIZE - HEADER_SIZE - SLOT_SIZE));
}

#[test]
fn compacting_an_emptied_page_reclaims_its_space() {
    let mut page = test_page();
    page.insert_record(b"only").unwrap();
    page.delete_record(0).unwrap();
    assert_eq!(page.free_offset() as usize, PAGE_SIZE - 4);
    assert_eq!(page.compact_records(), 4);
    assert_eq!(page.free_offset() as usize, PAGE_SIZE);
    assert_eq!(page.free_space(), PAGE_SIZE - HEADER_SIZE);
    assert_eq!(page.page_id(), PageId(1));
    assert!(SlottedPage::from_buffer(page.into_buffer()).is_ok());
}
