use pickledb::error::IndexError;
use pickledb::index::HashIndex;
use pickledb::types::{RecordId, SearchToken};

fn token(val: u8) -> SearchToken {
    SearchToken([val; 32])
}

#[test]
fn hash_index_test_insert_and_search() {
    let mut idx = HashIndex::new();
    idx.insert(token(1), RecordId(10)).unwrap();
    let results = idx.search(&token(1)).unwrap();
    assert_eq!(results, vec![RecordId(10)]);
}

#[test]
fn test_search_missing_token() {
    let idx = HashIndex::new();
    match idx.search(&token(99)) {
        Err(IndexError::TokenNotFound) => {}
        _ => panic!("expected TokenNotFound"),
    }
}

#[test]
fn test_multiple_records_per_token() {
    let mut idx = HashIndex::new();
    idx.insert(token(1), RecordId(1)).unwrap();
    idx.insert(token(1), RecordId(2)).unwrap();
    idx.insert(token(1), RecordId(3)).unwrap();
    let results = idx.search(&token(1)).unwrap();
    assert_eq!(results.len(), 3);
    assert!(results.contains(&RecordId(1)));
    assert!(results.contains(&RecordId(2)));
    assert!(results.contains(&RecordId(3)));
}

#[test]
fn hash_index_test_delete_record() {
    let mut idx = HashIndex::new();
    idx.insert(token(1), RecordId(1)).unwrap();
    idx.insert(token(1), RecordId(2)).unwrap();
    idx.delete(&token(1), RecordId(1)).unwrap();
    let results = idx.search(&token(1)).unwrap();
    assert_eq!(results, vec![RecordId(2)]);
}

#[test]
fn test_delete_last_record_removes_token() {
    let mut idx = HashIndex::new();
    idx.insert(token(1), RecordId(1)).unwrap();
    idx.delete(&token(1), RecordId(1)).unwrap();
    assert!(!idx.contains_token(&token(1)));
}

#[test]
fn test_delete_nonexistent_token() {
    let mut idx = HashIndex::new();
    match idx.delete(&token(99), RecordId(1)) {
        Err(IndexError::TokenNotFound) => {}
        _ => panic!("expected TokenNotFound"),
    }
}

#[test]
fn test_multiple_tokens() {
    let mut idx = HashIndex::new();
    idx.insert(token(1), RecordId(10)).unwrap();
    idx.insert(token(2), RecordId(20)).unwrap();
    assert_eq!(idx.token_count(), 2);
    assert_eq!(idx.total_entries(), 2);
}

#[test]
fn hash_index_test_clear() {
    let mut idx = HashIndex::new();
    idx.insert(token(1), RecordId(1)).unwrap();
    idx.insert(token(2), RecordId(2)).unwrap();
    idx.clear();
    assert_eq!(idx.token_count(), 0);
}

#[test]
fn test_duplicate_record_same_token() {
    let mut idx = HashIndex::new();
    idx.insert(token(1), RecordId(1)).unwrap();
    idx.insert(token(1), RecordId(1)).unwrap();
    let results = idx.search(&token(1)).unwrap();
    assert_eq!(results.len(), 2);
}

#[test]
fn test_with_capacity() {
    let mut idx = HashIndex::with_capacity(100);
    assert_eq!(idx.token_count(), 0);
    idx.insert(token(0), RecordId(0)).unwrap();
    assert_eq!(idx.token_count(), 1);
}

#[test]
fn search_keeps_insertion_order() {
    let mut idx = HashIndex::default();
    idx.insert(token(4), RecordId(3)).unwrap();
    idx.insert(token(4), RecordId(1)).unwrap();
    idx.insert(token(4), RecordId(2)).unwrap();
    assert_eq!(idx.search(&token(4)).unwrap(), vec![RecordId(3), RecordId(1), RecordId(2)]);
}

#[test]
fn delete_removes_every_copy_of_the_record() {
    let mut idx = HashIndex::new();
    idx.insert(token(1), RecordId(5)).unwrap();
    idx.insert(token(1), RecordId(6)).unwrap();
    idx.insert(token(1), RecordId(5)).unwrap();
    idx.delete(&token(1), RecordId(5)).unwrap();
    assert_eq!(idx.search(&token(1)).unwrap(), vec![RecordId(6)]);
    assert_eq!(idx.total_entries(), 1);
}

#[test]
fn delete_of_unlisted_record_keeps_token() {
    let mut idx = HashIndex::new();
    idx.insert(token(1), RecordId(5)).unwrap();
    idx.delete(&token(1), RecordId(9)).unwrap();
    assert_eq!(idx.search(&token(1)).unwrap(), vec![RecordId(5)]);
}

#[test]
fn tokens_differing_in_one_byte_are_distinct() {
    let mut idx = HashIndex::new();
    let mut raw = [7u8; 32];
    idx.insert(SearchToken(raw), RecordId(1)).unwrap();
    raw[31] = 8;
    assert!(!idx.contains_token(&SearchToken(raw)));
    idx.insert(SearchToken(raw), RecordId(2)).unwrap();
    assert_eq!(idx.token_count(), 2);
}
