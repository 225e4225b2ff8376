use pickledb::allocator::PageAllocator;
use pickledb::types::PageId;

#[test]
fn test_allocate_monotonic() {
    let mut alloc = PageAllocator::new(0);
    assert_eq!(alloc.allocate(), PageId(0));
    assert_eq!(alloc.allocate(), PageId(1));
    assert_eq!(alloc.allocate(), PageId(2));
    assert_eq!(alloc.used_count(), 3);
}

#[test]
fn test_free_and_reuse() {
    let mut alloc = PageAllocator::new(0);
    let _p0 = alloc.allocate();
    let p1 = alloc.allocate();
    let _p2 = alloc.allocate();
    alloc.free(p1);
    assert_eq!(alloc.free_count(), 1);
    assert_eq!(alloc.used_count(), 2);
    assert_eq!(alloc.allocate(), p1);
}

#[test]
fn test_free_list_lifo() {
    let mut alloc = PageAllocator::new(10);
    let a = alloc.allocate();
    let b = alloc.allocate();
    let _c = alloc.allocate();
    alloc.free(a);
    alloc.free(b);
    // LIFO: last freed is b
    assert_eq!(alloc.allocate(), b);
    assert_eq!(alloc.allocate(), a);
    assert_eq!(alloc.allocate(), PageId(13));
}

#[test]
fn test_serialize_roundtrip() {
    let mut alloc = PageAllocator::new(5);
    let p0 = alloc.allocate();
    let _p1 = alloc.allocate();
    alloc.free(p0);
    let data = alloc.serialize_free_list();
    let mut restored = PageAllocator::deserialize_free_list(&data).unwrap();
    assert_eq!(restored.total_allocated(), 7);
    assert_eq!(restored.free_count(), 1);
    assert_eq!(restored.allocate(), p0);
}

#[test]
fn test_empty_free_list() {
    let alloc = PageAllocator::new(0);
    assert_eq!(alloc.free_count(), 0);
    assert_eq!(alloc.used_count(), 0);
}

#[test]
fn test_serialize_empty() {
    let alloc = PageAllocator::new(7);
    let data = alloc.serialize_free_list();
    let mut restored = PageAllocator::deserialize_free_list(&data).unwrap();
    assert_eq!(restored.allocate(), PageId(7));
}

#[test]
fn test_deserialize_corrupt() {
    assert!(PageAllocator::deserialize_free_list(b"short").is_err());
}

#[test]
fn free_list_bytes_layout() {
    let mut alloc = PageAllocator::new(0x0102);
    alloc.allocate();
    alloc.allocate();
    alloc.free(PageId(0x0103));
    alloc.free(PageId(0x0A0B0C0D));
    let data = alloc.serialize_free_list();
    assert_eq!(
        data,
        vec![0, 0, 0x01, 0x04, 0, 0, 0, 2, 0, 0, 0x01, 0x03, 0x0A, 0x0B, 0x0C, 0x0D]
    );
}

#[test]
fn truncated_free_list_is_rejected() {
    let mut alloc = PageAllocator::new(1);
    alloc.free(PageId(5));
    alloc.free(PageId(6));
    let mut data = alloc.serialize_free_list();
    data.pop();
    assert!(PageAllocator::deserialize_free_list(&data).is_err());
}

#[test]
fn free_of_unallocated_id_is_handed_out_next() {
    let mut alloc = PageAllocator::new(3);
    alloc.free(PageId(100));
    assert_eq!(alloc.free_count(), 1);
    assert_eq!(alloc.allocate(), PageId(100));
    assert_eq!(alloc.allocate(), PageId(3));
    assert_eq!(alloc.total_allocated(), 4);
}
