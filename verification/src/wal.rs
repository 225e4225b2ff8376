//! The write-ahead log's on-disk framing and its replay bookkeeping.
//!
//! The log is a sequence of frames, each a 4-byte little-endian length
//! followed by that many bytes of an encoded entry.

use vstd::prelude::*;
use crate::types::{LSN, WalOperation};

verus! {

/// A single WAL entry tied to an LSN.
#[derive(Debug, Clone)]
pub struct WalEntry {
    pub lsn: LSN,
    pub operation: WalOperation,
}

// ─── Framing ───

/// Little-endian bytes of a 32-bit value.
pub open spec fn le32(x: int) -> Seq<u8> {
    seq![(x % 256) as u8, (x / 256 % 256) as u8, (x / 65536 % 256) as u8, (x / 16777216 % 256) as u8]
}

/// Little-endian 32-bit value of the four bytes at `i`.
pub open spec fn le32_at(b: Seq<u8>, i: int) -> int {
    b[i] as int + b[i + 1] as int * 256 + b[i + 2] as int * 65536 + b[i + 3] as int * 16777216
}

/// One frame: the payload's length (cut to 32 bits) and the payload.
pub open spec fn frame(p: Seq<u8>) -> Seq<u8> {
    le32(p.len() as u32 as int) + p
}

/// The frames of `ps`, one after the other.
pub open spec fn frames(ps: Seq<Seq<u8>>) -> Seq<u8>
    decreases ps.len(),
{
    if ps.len() == 0 {
        Seq::empty()
    } else {
        frame(ps[0]) + frames(ps.drop_first())
    }
}

/// Reading a log: frames are taken while a whole frame remains; a tail too
/// short for its length bytes or for the payload they announce (a frame torn
/// by a crash) ends the log.
pub open spec fn parse_frames(data: Seq<u8>) -> Seq<Seq<u8>>
    decreases data.len(),
{
    if data.len() < 4 {
        Seq::empty()
    } else {
        let n = le32_at(data, 0);
        if data.len() - 4 < n {
            Seq::empty()
        } else {
            seq![data.subrange(4, 4 + n)] + parse_frames(data.skip(4 + n))
        }
    }
}

proof fn lemma_le32(x: int)
    requires
        0 <= x < 4294967296,
    ensures
        le32(x).len() == 4,
        le32_at(le32(x), 0) == x,
{
}

proof fn lemma_frame_head(p: Seq<u8>, tail: Seq<u8>)
    requires
        p.len() < 4294967296,
    ensures
        ({
            let d = frame(p) + tail;
            &&& d.len() >= 4
            &&& le32_at(d, 0) == p.len()
            &&& d.len() - 4 >= p.len()
            &&& d.skip(4 + p.len() as int) == tail
            &&& d.subrange(4, 4 + p.len() as int) == p
        }),
{
    let h = le32(p.len() as int);
    lemma_le32(p.len() as int);
    let d = frame(p) + tail;
    assert(d[0] == h[0] && d[1] == h[1] && d[2] == h[2] && d[3] == h[3]);
    assert(d.skip(4 + p.len() as int) =~= tail);
    assert(d.subrange(4, 4 + p.len() as int) =~= p);
}

/// Reading back the frames of payloads shorter than 2^32 bytes gives the
/// payloads.
pub proof fn lemma_frames_roundtrip(ps: Seq<Seq<u8>>)
    requires
        forall|i: int| 0 <= i < ps.len() ==> (#[trigger] ps[i]).len() < 4294967296,
    ensures
        parse_frames(frames(ps)) == ps,
    decreases ps.len(),
{
    if ps.len() == 0 {
        assert(Seq::<Seq<u8>>::empty() =~= ps);
    } else {
        let p = ps[0];
        let rest = ps.drop_first();
        assert forall|i: int| 0 <= i < rest.len() implies (#[trigger] rest[i]).len() < 4294967296 by {
            assert(rest[i] == ps[i + 1]);
        }
        lemma_frames_roundtrip(rest);
        lemma_frame_head(p, frames(rest));
        let d = frames(ps);
        assert(d == frame(p) + frames(rest));
        assert(seq![p] + rest =~= ps);
    }
}

/// Frame a payload for appending to the log.
pub fn encode_frame(payload: &[u8]) -> (out: Vec<u8>)
    ensures
        out@ == frame(payload@),
{
    let len = payload.len() as u32;
    let mut out: Vec<u8> = Vec::new();
    out.push((len % 256) as u8);
    out.push((len / 256 % 256) as u8);
    out.push((len / 65536 % 256) as u8);
    out.push((len / 16777216 % 256) as u8);
    let mut i: usize = 0;
    while i < payload.len()
        invariant
            0 <= i <= payload@.len(),
            out@ == le32(len as int) + payload@.take(i as int),
        decreases payload@.len() - i,
    {
        out.push(payload[i]);
        assert(payload@.take(i + 1) =~= payload@.take(i as int).push(payload@[i as int]));
        i = i + 1;
    }
    assert(payload@.take(i as int) =~= payload@);
    out
}

/// Read the frame that starts at `pos`: the payload and the position after
/// it, or `None` when the rest of the log is too short for a whole frame.
pub fn frame_at(data: &[u8], pos: usize) -> (r: Option<(Vec<u8>, usize)>)
    requires
        pos <= data@.len(),
    ensures
        match r {
            None => data@.len() - pos < 4 || data@.len() - pos - 4 < le32_at(data@, pos as int),
            Some((payload, next)) => {
                let n = le32_at(data@, pos as int);
                &&& data@.len() - pos >= 4
                &&& data@.len() - pos - 4 >= n
                &&& next == pos + 4 + n
                &&& payload@ == data@.subrange(pos + 4, pos + 4 + n)
            },
        },
{
    if data.len() - pos < 4 {
        return None;
    }
    let n = (data[pos] as u32) + (data[pos + 1] as u32) * 256 + (data[pos + 2] as u32) * 65536 + (
    data[pos + 3] as u32) * 16777216;
    let n = n as usize;
    if data.len() - pos - 4 < n {
        return None;
    }
    let start = pos + 4;
    let end = start + n;
    let payload = vstd::slice::slice_to_vec(vstd::slice::slice_subrange(data, start, end));
    Some((payload, end))
}

/// Split the bytes of a log into the payloads of its whole frames; a torn
/// last frame is left out.
pub fn decode_frames(data: &[u8]) -> (ps: Vec<Vec<u8>>)
    ensures
        parse_frames(data@) == ps@.map_values(|p: Vec<u8>| p@),
{
    let mut out: Vec<Vec<u8>> = Vec::new();
    let mut pos: usize = 0;
    let ghost whole = parse_frames(data@);
    assert(data@.skip(0) =~= data@);
    loop
        invariant
            0 <= pos <= data@.len(),
            whole == parse_frames(data@),
            whole == out@.map_values(|p: Vec<u8>| p@) + parse_frames(data@.skip(pos as int)),
        decreases data@.len() - pos,
    {
        let ghost tail = data@.skip(pos as int);
        match frame_at(data, pos) {
            None => {
                proof {
                    if tail.len() >= 4 {
                        assert(le32_at(tail, 0) == le32_at(data@, pos as int));
                    }
                    assert(parse_frames(tail) == Seq::<Seq<u8>>::empty());
                    assert(out@.map_values(|p: Vec<u8>| p@) + Seq::<Seq<u8>>::empty() =~= out@.map_values(|p: Vec<u8>| p@));
                }
                return out;
            },
            Some((payload, end)) => {
                proof {
                    let n = le32_at(data@, pos as int);
                    assert(le32_at(tail, 0) == n);
                    assert(tail.subrange(4, 4 + n) =~= payload@);
                    assert(tail.skip(4 + n) =~= data@.skip(end as int));
                }
                let ghost before = out@.map_values(|p: Vec<u8>| p@);
                out.push(payload);
                proof {
                    assert(out@.map_values(|p: Vec<u8>| p@) =~= before.push(payload@));
                    let rest = parse_frames(data@.skip(end as int));
                    assert(before + (seq![payload@] + rest) =~= before.push(payload@) + rest);
                }
                pos = end;
            },
        }
    }
}

// ─── Replay bookkeeping ───

/// The entries of `entries` that a replay after `checkpoint` returns.
pub open spec fn after_checkpoint(entries: Seq<WalEntry>, checkpoint: u64) -> Seq<WalEntry> {
    entries.filter(|e: WalEntry| e.lsn.0 > checkpoint)
}

/// A replay keeps the entries whose LSN is above the checkpoint, whatever
/// their operation, in log order: reading one more entry appends it exactly
/// when its LSN is above the checkpoint, and an empty log gives nothing.
pub proof fn lemma_replay_keeps_later_entries(entries: Seq<WalEntry>, e: WalEntry, checkpoint: u64)
    ensures
        after_checkpoint(Seq::empty(), checkpoint) == Seq::<WalEntry>::empty(),
        e.lsn.0 > checkpoint ==> after_checkpoint(entries.push(e), checkpoint) == after_checkpoint(
            entries,
            checkpoint,
        ).push(e),
        e.lsn.0 <= checkpoint ==> after_checkpoint(entries.push(e), checkpoint) == after_checkpoint(
            entries,
            checkpoint,
        ),
{
    reveal(Seq::filter);
    assert(entries.push(e).drop_last() =~= entries);
    assert(Seq::<WalEntry>::empty().filter(|x: WalEntry| x.lsn.0 > checkpoint) =~= Seq::<WalEntry>::empty());
}

/// Every entry a replay keeps comes from the log and lies after the
/// checkpoint, and every entry of the log after the checkpoint is kept.
pub proof fn lemma_replay_members(entries: Seq<WalEntry>, checkpoint: u64)
    ensures
        forall|i: int|
            0 <= i < after_checkpoint(entries, checkpoint).len() ==> entries.contains(
                #[trigger] after_checkpoint(entries, checkpoint)[i],
            ) && after_checkpoint(entries, checkpoint)[i].lsn.0 > checkpoint,
        forall|j: int|
            0 <= j < entries.len() && #[trigger] entries[j].lsn.0 > checkpoint ==> after_checkpoint(
                entries,
                checkpoint,
            ).contains(entries[j]),
{
    broadcast use vstd::seq_lib::group_filter_ensures;
    let pred = |x: WalEntry| x.lsn.0 > checkpoint;
    let kept = entries.filter(pred);
    assert forall|i: int| 0 <= i < kept.len() implies entries.contains(#[trigger] kept[i]) && kept[i].lsn.0 > checkpoint by {
        entries.lemma_filter_pred(pred, i);
        entries.lemma_filter_contains_rev(pred, kept[i]);
    }
    assert forall|j: int| 0 <= j < entries.len() && #[trigger] entries[j].lsn.0 > checkpoint implies kept.contains(entries[j]) by {
        entries.lemma_filter_contains(pred, j);
    }
}

/// The largest LSN among `entries`, or `floor` when it is larger.
pub open spec fn max_lsn_from(entries: Seq<WalEntry>, floor: u64) -> u64
    decreases entries.len(),
{
    if entries.len() == 0 {
        floor
    } else {
        let m = max_lsn_from(entries.drop_last(), floor);
        if entries.last().lsn.0 > m {
            entries.last().lsn.0
        } else {
            m
        }
    }
}

proof fn lemma_max_lsn_bound(entries: Seq<WalEntry>, floor: u64)
    ensures
        max_lsn_from(entries, floor) >= floor,
        forall|i: int| 0 <= i < entries.len() ==> max_lsn_from(entries, floor) >= (#[trigger] entries[i]).lsn.0,
        max_lsn_from(entries, floor) == floor || exists|i: int| 0 <= i < entries.len() && max_lsn_from(entries, floor) == (#[trigger] entries[i]).lsn.0,
    decreases entries.len(),
{
    if entries.len() > 0 {
        let init = entries.drop_last();
        lemma_max_lsn_bound(init, floor);
        assert forall|i: int| 0 <= i < entries.len() implies max_lsn_from(entries, floor) >= (#[trigger] entries[i]).lsn.0 by {
            if i < entries.len() - 1 {
                assert(entries[i] == init[i]);
            }
        }
        if max_lsn_from(entries, floor) != floor {
            if max_lsn_from(entries, floor) == entries.last().lsn.0 {
                assert(entries[entries.len() - 1] == entries.last());
            } else {
                let i = choose|i: int| 0 <= i < init.len() && max_lsn_from(init, floor) == (#[trigger] init[i]).lsn.0;
                assert(entries[i] == init[i]);
            }
        }
    }
}

/// The counters of a write-ahead log: the last LSN handed out or seen, the
/// checkpoint LSN, and the number of entries found by the last replay (or
/// appended since).
pub struct WalState {
    pub current_lsn: LSN,
    pub checkpoint_lsn: LSN,
    pub entry_count: u64,
}

impl WalState {
    /// The counters of a freshly opened log.
    pub fn new() -> (s: Self)
        ensures
            s.current_lsn.0 == 0,
            s.checkpoint_lsn.0 == 0,
            s.entry_count == 0,
    {
        WalState { current_lsn: LSN(0), checkpoint_lsn: LSN(0), entry_count: 0 }
    }

    /// The LSN of the next appended entry: one past the current LSN, which it
    /// becomes.
    pub fn append_lsn(&mut self) -> (lsn: LSN)
        requires
            old(self).current_lsn.0 < u64::MAX,
            old(self).entry_count < u64::MAX,
        ensures
            lsn.0 == old(self).current_lsn.0 + 1,
            final(self).current_lsn == lsn,
            final(self).entry_count == old(self).entry_count + 1,
            final(self).checkpoint_lsn == old(self).checkpoint_lsn,
    {
        let next_lsn = LSN(self.current_lsn.0 + 1);
        self.current_lsn = next_lsn;
        self.entry_count = self.entry_count + 1;
        next_lsn
    }

    /// Record the checkpoint LSN.
    pub fn set_checkpoint(&mut self, lsn: LSN)
        ensures
            final(self).checkpoint_lsn == lsn,
            final(self).current_lsn == old(self).current_lsn,
            final(self).entry_count == old(self).entry_count,
    {
        self.checkpoint_lsn = lsn;
    }

    /// Account for entries read before a replay failed: the current LSN
    /// rises to the largest LSN seen.
    pub fn observe(&mut self, entries: &Vec<WalEntry>)
        ensures
            final(self).current_lsn.0 == max_lsn_from(entries@, old(self).current_lsn.0),
            final(self).checkpoint_lsn == old(self).checkpoint_lsn,
            final(self).entry_count == old(self).entry_count,
    {
        let mut i: usize = 0;
        while i < entries.len()
            invariant
                0 <= i <= entries@.len(),
                self.current_lsn.0 == max_lsn_from(entries@.take(i as int), old(self).current_lsn.0),
                self.checkpoint_lsn == old(self).checkpoint_lsn,
                self.entry_count == old(self).entry_count,
            decreases entries@.len() - i,
        {
            let l = entries[i].lsn.0;
            if l > self.current_lsn.0 {
                self.current_lsn = LSN(l);
            }
            proof {
                let t = entries@.take(i + 1);
                assert(t.drop_last() =~= entries@.take(i as int));
            }
            i = i + 1;
        }
        assert(entries@.take(i as int) =~= entries@);
    }

    /// Account for a complete replay of `entries`, in log order: the current
    /// LSN rises to the largest LSN seen, the entry count becomes the number
    /// of entries, and the entries after the checkpoint are returned.
    pub fn absorb(&mut self, entries: Vec<WalEntry>) -> (kept: Vec<WalEntry>)
        ensures
            kept@ == after_checkpoint(entries@, old(self).checkpoint_lsn.0),
            final(self).current_lsn.0 == max_lsn_from(entries@, old(self).current_lsn.0),
            final(self).entry_count == entries@.len(),
            final(self).checkpoint_lsn == old(self).checkpoint_lsn,
    {
        self.observe(&entries);
        let ghost all = entries@;
        let cp = self.checkpoint_lsn.0;
        let count = entries.len() as u64;
        let mut kept: Vec<WalEntry> = Vec::new();
        for e in it: entries
            invariant
                it.seq() == all,
                kept@ == after_checkpoint(all.take(it.index() as int), cp),
        {
            proof {
                let i = it.index() as int;
                assert(e == all[i]);
                let t = all.take(i + 1);
                assert(t.drop_last() =~= all.take(i));
                reveal(Seq::filter);
            }
            if e.lsn.0 > cp {
                kept.push(e);
            }
        }
        assert(all.take(all.len() as int) =~= all);
        self.entry_count = count;
        kept
    }
}

/// Applies replayed WAL entries to restore state after a crash.
///
/// The recovery process replays all entries after the last checkpoint and
/// hands back the operations to re-apply to the storage engine.
pub struct Recovery;

impl Recovery {
    /// The highest LSN among replayed entries, or 0 when there are none.
    pub fn recover_lsn(entries: &Vec<WalEntry>) -> (lsn: LSN)
        ensures
            lsn.0 == max_lsn_from(entries@, 0),
    {
        let mut best: u64 = 0;
        let mut i: usize = 0;
        while i < entries.len()
            invariant
                0 <= i <= entries@.len(),
                best == max_lsn_from(entries@.take(i as int), 0),
            decreases entries@.len() - i,
        {
            if entries[i].lsn.0 > best {
                best = entries[i].lsn.0;
            }
            proof {
                let t = entries@.take(i + 1);
                assert(t.drop_last() =~= entries@.take(i as int));
            }
            i = i + 1;
        }
        assert(entries@.take(i as int) =~= entries@);
        LSN(best)
    }

    /// Whether the replayed entries reach the expected LSN, i.e. whether
    /// no operation up to it was lost.
    pub fn verify_integrity(entries: &Vec<WalEntry>, expected_lsn: LSN) -> (ok: bool)
        ensures
            ok == (max_lsn_from(entries@, 0) >= expected_lsn.0),
    {
        let max_lsn = Self::recover_lsn(entries);
        max_lsn.0 >= expected_lsn.0
    }
}

} // verus!
