use pickledb::types::{LSN, RecordId, WalOperation};
use pickledb::wal::{decode_frames, encode_frame, frame_at, Recovery, WalEntry, WalState};

fn entry(lsn: u64) -> WalEntry {
    WalEntry { lsn: LSN(lsn), operation: WalOperation::Delete(RecordId(lsn)) }
}

#[test]
fn frame_is_le_length_then_payload() {
    assert_eq!(encode_frame(b"abc"), vec![3, 0, 0, 0, b'a', b'b', b'c']);
    let big = vec![7u8; 0x0102];
    let f = encode_frame(&big);
    assert_eq!(&f[0..4], &[0x02, 0x01, 0, 0]);
    assert_eq!(f.len(), 4 + 0x0102);
}

#[test]
fn frames_read_back() {
    let mut log = encode_frame(b"first");
    log.extend(encode_frame(b""));
    log.extend(encode_frame(b"third entry"));
    let payloads = decode_frames(&log);
    assert_eq!(payloads, vec![b"first".to_vec(), Vec::new(), b"third entry".to_vec()]);
}

#[test]
fn short_tail_ends_the_log() {
    let mut log = encode_frame(b"x");
    log.extend_from_slice(&[9, 9, 9]);
    assert_eq!(decode_frames(&log), vec![b"x".to_vec()]);
    assert!(decode_frames(&[]).is_empty());
}

#[test]
fn torn_frame_ends_the_log() {
    let mut log = encode_frame(b"whole");
    log.extend_from_slice(&[10, 0, 0, 0, 1, 2]);
    assert_eq!(decode_frames(&log), vec![b"whole".to_vec()]);
    assert!(frame_at(&log, 9).is_none());
}

#[test]
fn append_lsns_count_up() {
    let mut st = WalState::new();
    assert_eq!(st.current_lsn, LSN(0));
    assert_eq!(st.append_lsn(), LSN(1));
    assert_eq!(st.append_lsn(), LSN(2));
    assert_eq!(st.entry_count, 2);
}

#[test]
fn absorb_keeps_entries_after_checkpoint() {
    let mut st = WalState::new();
    st.set_checkpoint(LSN(2));
    let kept = st.absorb(vec![entry(1), entry(2), entry(3), entry(5), entry(4)]);
    let lsns: Vec<u64> = kept.iter().map(|e| e.lsn.0).collect();
    assert_eq!(lsns, vec![3, 5, 4]);
    assert_eq!(st.current_lsn, LSN(5));
    assert_eq!(st.entry_count, 5);
    assert_eq!(st.checkpoint_lsn, LSN(2));
}

#[test]
fn absorb_never_lowers_current_lsn() {
    let mut st = WalState::new();
    st.append_lsn();
    st.append_lsn();
    st.append_lsn();
    let kept = st.absorb(vec![entry(1)]);
    assert_eq!(kept.len(), 1);
    assert_eq!(st.current_lsn, LSN(3));
    assert_eq!(st.entry_count, 1);
}

#[test]
fn observe_raises_current_lsn() {
    let mut st = WalState::new();
    st.observe(&vec![entry(4), entry(2)]);
    assert_eq!(st.current_lsn, LSN(4));
    assert_eq!(st.entry_count, 0);
}

#[test]
fn recover_lsn_is_the_largest() {
    assert_eq!(Recovery::recover_lsn(&Vec::new()), LSN(0));
    assert_eq!(Recovery::recover_lsn(&vec![entry(3), entry(9), entry(4)]), LSN(9));
}

#[test]
fn verify_integrity_compares_with_expected() {
    let entries = vec![entry(1), entry(2)];
    assert!(Recovery::verify_integrity(&entries, LSN(2)));
    assert!(Recovery::verify_integrity(&entries, LSN(1)));
    assert!(!Recovery::verify_integrity(&entries, LSN(3)));
    assert!(Recovery::verify_integrity(&Vec::new(), LSN(0)));
}

#[test]
fn checkpoint_then_replay_keeps_later_entries() {
    let mut st = WalState::new();
    let l1 = st.append_lsn();
    let l2 = st.append_lsn();
    assert!(l2 > l1);
    st.set_checkpoint(LSN(1));
    let kept = st.absorb(vec![entry(1), entry(2)]);
    assert_eq!(kept.len(), 1);
    assert_eq!(kept[0].lsn, LSN(2));
}

#[test]
fn fresh_replay_recovers_lsn() {
    let mut st = WalState::new();
    let kept = st.absorb(vec![entry(1), entry(2), entry(3)]);
    assert_eq!(kept.len(), 3);
    assert_eq!(st.current_lsn, LSN(3));
    let mut empty = WalState::new();
    assert!(empty.absorb(Vec::new()).is_empty());
    assert_eq!(empty.current_lsn, LSN(0));
}

#[test]
fn frame_at_steps_through_a_log() {
    let mut log = encode_frame(b"ab");
    log.extend(encode_frame(b"c"));
    let (p1, n1) = frame_at(&log, 0).unwrap();
    assert_eq!((p1, n1), (b"ab".to_vec(), 6));
    let (p2, n2) = frame_at(&log, n1).unwrap();
    assert_eq!((p2, n2), (b"c".to_vec(), 11));
    assert!(frame_at(&log, n2).is_none());
}
