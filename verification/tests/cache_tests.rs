use pickledb::cache::BufferPool;
use pickledb::page::SlottedPage;
use pickledb::types::{PageId, PageType};

fn test_page(id: u32) -> SlottedPage {
    SlottedPage::new(PageType::Data, PageId(id))
}

#[test]
fn test_put_and_get() {
    let mut pool = BufferPool::new(10);
    let page = test_page(0);
    pool.put(&page, false);
    assert_eq!(pool.len(), 1);
    let retrieved = pool.get(PageId(0));
    assert!(retrieved.is_some());
}

#[test]
fn test_get_missing() {
    let mut pool = BufferPool::new(10);
    assert!(pool.get(PageId(99)).is_none());
}

#[test]
fn test_eviction() {
    let mut pool = BufferPool::new(2);
    pool.put(&test_page(0), false);
    pool.put(&test_page(1), false);
    pool.put(&test_page(2), false);
    assert_eq!(pool.len(), 2);
}

#[test]
fn test_dirty_pages() {
    let mut pool = BufferPool::new(10);
    pool.put(&test_page(0), true);
    pool.put(&test_page(1), false);
    pool.put(&test_page(2), true);
    let dirty = pool.dirty_pages();
    assert!(dirty.contains(&PageId(0)));
    assert!(!dirty.contains(&PageId(1)));
    assert!(dirty.contains(&PageId(2)));
}

#[test]
fn test_mark_clean() {
    let mut pool = BufferPool::new(10);
    pool.put(&test_page(0), true);
    assert!(pool.is_dirty(PageId(0)));
    pool.mark_clean(PageId(0));
    assert!(!pool.is_dirty(PageId(0)));
}

#[test]
fn test_remove() {
    let mut pool = BufferPool::new(10);
    pool.put(&test_page(0), false);
    assert_eq!(pool.len(), 1);
    pool.remove(PageId(0));
    assert!(pool.is_empty());
}

#[test]
fn cache_test_clear() {
    let mut pool = BufferPool::new(10);
    pool.put(&test_page(0), false);
    pool.put(&test_page(1), false);
    pool.clear();
    assert!(pool.is_empty());
}

#[test]
fn eviction_drops_least_recently_used() {
    let mut pool = BufferPool::new(2);
    pool.put(&test_page(0), false);
    pool.put(&test_page(1), false);
    assert!(pool.get(PageId(0)).is_some());
    pool.put(&test_page(2), false);
    assert!(pool.get(PageId(1)).is_none());
    assert!(pool.get(PageId(0)).is_some());
    assert!(pool.get(PageId(2)).is_some());
}

#[test]
fn get_returns_the_stored_image() {
    let mut pool = BufferPool::new(4);
    let mut page = test_page(3);
    page.insert_record(b"cached").unwrap();
    pool.put(&page, true);
    let back = pool.get(PageId(3)).unwrap();
    assert_eq!(back.get_record(0).unwrap(), b"cached");
    assert_eq!(back.buffer(), page.buffer());
}

#[test]
fn replacing_a_cached_page_does_not_evict() {
    let mut pool = BufferPool::new(2);
    pool.put(&test_page(0), false);
    pool.put(&test_page(1), false);
    pool.put(&test_page(0), true);
    assert_eq!(pool.len(), 2);
    assert!(pool.is_dirty(PageId(0)));
    assert!(pool.get(PageId(1)).is_some());
}

#[test]
fn dirty_pages_follow_access_order() {
    let mut pool = BufferPool::new(10);
    pool.put(&test_page(5), true);
    pool.put(&test_page(3), true);
    pool.put(&test_page(4), false);
    pool.get(PageId(5));
    assert_eq!(pool.dirty_pages(), vec![PageId(3), PageId(5)]);
}
