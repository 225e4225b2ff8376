//! The blind search index: search token -> record ids.
//!
//! The index never looks inside a token; it only compares tokens for
//! equality.

use vstd::prelude::*;
use crate::error::IndexError;
use crate::types::{RecordId, SearchToken};

verus! {

/// The record list `s` with every occurrence of `r` taken out.
pub open spec fn without_record(s: Seq<RecordId>, r: RecordId) -> Seq<RecordId> {
    s.filter(|x: RecordId| x != r)
}

/// Compare two search tokens byte by byte.
pub fn token_eq(a: &SearchToken, b: &SearchToken) -> (eq: bool)
    ensures
        eq == (a@ == b@),
{
    let mut i: usize = 0;
    while i < 32
        invariant
            0 <= i <= 32,
            a@.len() == 32,
            b@.len() == 32,
            forall|j: int| 0 <= j < i ==> a@[j] == b@[j],
        decreases 32 - i,
    {
        if a.0[i] != b.0[i] {
            assert(a@[i as int] != b@[i as int]);
            return false;
        }
        i = i + 1;
    }
    assert(a@ =~= b@);
    true
}

/// One token with the records it matches.
struct IndexEntry {
    token: SearchToken,
    records: Vec<RecordId>,
}

/// The token -> record-list map that a list of entries stands for.
spec fn map_of(e: Seq<IndexEntry>) -> Map<Seq<u8>, Seq<RecordId>> {
    Map::new(
        |k: Seq<u8>| exists|i: int| 0 <= i < e.len() && (#[trigger] e[i]).token@ == k,
        |k: Seq<u8>| e[choose|i: int| 0 <= i < e.len() && (#[trigger] e[i]).token@ == k].records@,
    )
}

/// No token occurs twice and no token maps to an empty list.
spec fn entries_ok(e: Seq<IndexEntry>) -> bool {
    &&& forall|i: int, j: int|
        0 <= i < e.len() && 0 <= j < e.len() && i != j ==> (#[trigger] e[i]).token@ != (
        #[trigger] e[j]).token@
    &&& forall|i: int| 0 <= i < e.len() ==> (#[trigger] e[i]).records@.len() > 0
}

/// Number of (token, record) pairs held by a list of entries.
spec fn pair_count(e: Seq<IndexEntry>) -> int
    decreases e.len(),
{
    if e.len() == 0 {
        0
    } else {
        pair_count(e.drop_last()) + e.last().records@.len()
    }
}

proof fn lemma_map_at(e: Seq<IndexEntry>, i: int)
    requires
        entries_ok(e),
        0 <= i < e.len(),
    ensures
        map_of(e).contains_key(e[i].token@),
        map_of(e)[e[i].token@] == e[i].records@,
{
    let k = e[i].token@;
    assert(exists|j: int| 0 <= j < e.len() && (#[trigger] e[j]).token@ == k);
    let j = choose|j: int| 0 <= j < e.len() && (#[trigger] e[j]).token@ == k;
    assert(i == j);
}

proof fn lemma_map_update(e: Seq<IndexEntry>, i: int, x: IndexEntry)
    requires
        entries_ok(e),
        0 <= i < e.len(),
        x.token@ == e[i].token@,
    ensures
        map_of(e.update(i, x)) == map_of(e).insert(x.token@, x.records@),
{
    let e2 = e.update(i, x);
    let m = map_of(e).insert(x.token@, x.records@);
    assert forall|k: Seq<u8>| map_of(e2).contains_key(k) <==> m.contains_key(k) by {
        if map_of(e2).contains_key(k) {
            let j = choose|j: int| 0 <= j < e2.len() && (#[trigger] e2[j]).token@ == k;
            if j != i {
                assert(e[j].token@ == k);
            }
        }
        if map_of(e).contains_key(k) {
            let j = choose|j: int| 0 <= j < e.len() && (#[trigger] e[j]).token@ == k;
            assert(e2[j].token@ == k);
        }
    }
    assert forall|k: Seq<u8>| #[trigger] map_of(e2).contains_key(k) implies map_of(e2)[k] == m[k] by {
        let j = choose|j: int| 0 <= j < e2.len() && (#[trigger] e2[j]).token@ == k;
        if j == i {
            assert(map_of(e2)[k] == x.records@);
        } else {
            assert(e[j].token@ == k);
            lemma_map_at(e, j);
            assert(forall|l: int| 0 <= l < e2.len() && l != j ==> (#[trigger] e2[l]).token@ != k);
        }
    }
    assert(map_of(e2) =~= m);
}

proof fn lemma_map_push(e: Seq<IndexEntry>, x: IndexEntry)
    requires
        entries_ok(e),
        !map_of(e).contains_key(x.token@),
    ensures
        map_of(e.push(x)) == map_of(e).insert(x.token@, x.records@),
{
    let e2 = e.push(x);
    let m = map_of(e).insert(x.token@, x.records@);
    assert forall|k: Seq<u8>| map_of(e2).contains_key(k) <==> m.contains_key(k) by {
        if map_of(e2).contains_key(k) {
            let j = choose|j: int| 0 <= j < e2.len() && (#[trigger] e2[j]).token@ == k;
            if j < e.len() {
                assert(e[j].token@ == k);
            }
        }
        if k == x.token@ {
            assert(e2[e.len() as int].token@ == k);
        }
        if map_of(e).contains_key(k) {
            let j = choose|j: int| 0 <= j < e.len() && (#[trigger] e[j]).token@ == k;
            assert(e2[j].token@ == k);
        }
    }
    assert forall|k: Seq<u8>| #[trigger] map_of(e2).contains_key(k) implies map_of(e2)[k] == m[k] by {
        let j = choose|j: int| 0 <= j < e2.len() && (#[trigger] e2[j]).token@ == k;
        if j == e.len() {
            assert(map_of(e2)[k] == x.records@);
        } else {
            assert(e[j].token@ == k);
            lemma_map_at(e, j);
            assert(forall|l: int| 0 <= l < e2.len() && l != j ==> (#[trigger] e2[l]).token@ != k);
        }
    }
    assert(map_of(e2) =~= m);
}

proof fn lemma_map_remove(e: Seq<IndexEntry>, i: int)
    requires
        entries_ok(e),
        0 <= i < e.len(),
    ensures
        map_of(e.remove(i)) == map_of(e).remove(e[i].token@),
{
    let e2 = e.remove(i);
    let t = e[i].token@;
    let m = map_of(e).remove(t);
    assert forall|k: Seq<u8>| map_of(e2).contains_key(k) <==> m.contains_key(k) by {
        if map_of(e2).contains_key(k) {
            let j = choose|j: int| 0 <= j < e2.len() && (#[trigger] e2[j]).token@ == k;
            let jj = if j < i { j } else { j + 1 };
            assert(e[jj].token@ == k);
            assert(jj != i);
        }
        if m.contains_key(k) {
            let j = choose|j: int| 0 <= j < e.len() && (#[trigger] e[j]).token@ == k;
            assert(j != i);
            let jj = if j < i { j } else { j - 1 };
            assert(e2[jj].token@ == k);
        }
    }
    assert forall|k: Seq<u8>| #[trigger] map_of(e2).contains_key(k) implies map_of(e2)[k] == m[k] by {
        let j = choose|j: int| 0 <= j < e2.len() && (#[trigger] e2[j]).token@ == k;
        let jj = if j < i { j } else { j + 1 };
        assert(e2[j] == e[jj]);
        lemma_map_at(e, jj);
        assert(forall|l: int| 0 <= l < e2.len() && l != j ==> (#[trigger] e2[l]).token@ != k) by {
            assert forall|l: int| 0 <= l < e2.len() && l != j implies (#[trigger] e2[l]).token@ != k by {
                let ll = if l < i { l } else { l + 1 };
                assert(e2[l] == e[ll]);
            }
        }
    }
    assert(map_of(e2) =~= m);
}

proof fn lemma_map_len(e: Seq<IndexEntry>)
    requires
        entries_ok(e),
    ensures
        map_of(e).dom().finite(),
        map_of(e).dom().len() == e.len(),
{
    let keys = e.map_values(|x: IndexEntry| x.token@);
    assert(keys.no_duplicates()) by {
        assert forall|i: int, j: int| 0 <= i < keys.len() && 0 <= j < keys.len() && i != j implies keys[i] != keys[j] by {
            assert(e[i].token@ != e[j].token@);
        }
    }
    assert(map_of(e).dom() =~= keys.to_set()) by {
        assert forall|k: Seq<u8>| map_of(e).dom().contains(k) implies keys.to_set().contains(k) by {
            let j = choose|j: int| 0 <= j < e.len() && (#[trigger] e[j]).token@ == k;
            assert(keys[j] == k);
        }
        assert forall|k: Seq<u8>| keys.to_set().contains(k) implies map_of(e).dom().contains(k) by {
            let j = choose|j: int| 0 <= j < keys.len() && keys[j] == k;
            assert(e[j].token@ == k);
        }
    }
    keys.unique_seq_to_set();
    broadcast use vstd::seq_lib::seq_to_set_is_finite;
}

proof fn lemma_pair_count_update(e: Seq<IndexEntry>, i: int, x: IndexEntry)
    requires
        0 <= i < e.len(),
    ensures
        pair_count(e.update(i, x)) == pair_count(e) - e[i].records@.len() + x.records@.len(),
    decreases e.len(),
{
    let e2 = e.update(i, x);
    if i == e.len() - 1 {
        assert(e2.drop_last() =~= e.drop_last());
    } else {
        lemma_pair_count_update(e.drop_last(), i, x);
        assert(e2.drop_last() =~= e.drop_last().update(i, x));
    }
}

proof fn lemma_pair_count_remove(e: Seq<IndexEntry>, i: int)
    requires
        0 <= i < e.len(),
    ensures
        pair_count(e.remove(i)) == pair_count(e) - e[i].records@.len(),
    decreases e.len(),
{
    let e2 = e.remove(i);
    if i == e.len() - 1 {
        assert(e2 =~= e.drop_last());
    } else {
        lemma_pair_count_remove(e.drop_last(), i);
        assert(e2.drop_last() =~= e.drop_last().remove(i));
    }
}

/// An in-memory blind search index.
///
/// Maps each search token to the record ids inserted under it, in
/// insertion order. The engine never inspects token contents.
pub struct HashIndex {
    entries: Vec<IndexEntry>,
}

impl View for HashIndex {
    type V = Map<Seq<u8>, Seq<RecordId>>;

    closed spec fn view(&self) -> Map<Seq<u8>, Seq<RecordId>> {
        map_of(self.entries@)
    }
}

impl HashIndex {
    #[verifier::type_invariant]
    closed spec fn inv(self) -> bool {
        entries_ok(self.entries@)
    }

    /// The number of (token, record id) pairs held, counting repeats.
    pub closed spec fn pair_total(&self) -> int {
        pair_count(self.entries@)
    }

    /// Create a new empty hash index.
    pub fn new() -> (idx: Self)
        ensures
            idx@ == Map::<Seq<u8>, Seq<RecordId>>::empty(),
            idx.pair_total() == 0,
    {
        let idx = Self { entries: Vec::new() };
        assert(idx@ =~= Map::<Seq<u8>, Seq<RecordId>>::empty());
        idx
    }

    /// Create a new hash index with the given pre-allocated capacity.
    pub fn with_capacity(capacity: usize) -> (idx: Self)
        ensures
            idx@ == Map::<Seq<u8>, Seq<RecordId>>::empty(),
            idx.pair_total() == 0,
    {
        let idx = Self { entries: Vec::with_capacity(capacity) };
        assert(idx@ =~= Map::<Seq<u8>, Seq<RecordId>>::empty());
        idx
    }

    fn find(&self, token: &SearchToken) -> (r: Option<usize>)
        ensures
            match r {
                Some(i) => i < self.entries@.len() && self.entries@[i as int].token@ == token@,
                None => forall|i: int|
                    0 <= i < self.entries@.len() ==> (#[trigger] self.entries@[i]).token@ != token@,
            },
    {
        let mut i: usize = 0;
        while i < self.entries.len()
            invariant
                0 <= i <= self.entries@.len(),
                forall|j: int| 0 <= j < i ==> (#[trigger] self.entries@[j]).token@ != token@,
            decreases self.entries@.len() - i,
        {
            if token_eq(&self.entries[i].token, token) {
                return Some(i);
            }
            i = i + 1;
        }
        None
    }

    /// Insert a mapping from a search token to a record ID.
    pub fn insert(&mut self, token: SearchToken, record_id: RecordId) -> (r: Result<(), IndexError>)
        ensures
            r is Ok,
            final(self)@ == old(self)@.insert(
                token@,
                if old(self)@.contains_key(token@) {
                    old(self)@[token@].push(record_id)
                } else {
                    seq![record_id]
                },
            ),
            final(self).pair_total() == old(self).pair_total() + 1,
    {
        proof { use_type_invariant(&*self); }
        match self.find(&token) {
            Some(i) => {
                let ghost e = self.entries@;
                proof { lemma_map_at(e, i as int); }
                let mut entries: Vec<IndexEntry> = Vec::new();
                std::mem::swap(&mut entries, &mut self.entries);
                let mut entry = entries.remove(i);
                entry.records.push(record_id);
                entries.insert(i, entry);
                proof {
                    assert(entries@ =~= e.update(i as int, entry));
                    lemma_map_update(e, i as int, entry);
                    lemma_pair_count_update(e, i as int, entry);
                }
                self.entries = entries;
            },
            None => {
                let ghost e = self.entries@;
                let entry = IndexEntry { token, records: vec![record_id] };
                proof {
                    if map_of(e).contains_key(token@) {
                        let j = choose|j: int| 0 <= j < e.len() && (#[trigger] e[j]).token@ == token@;
                        assert(e[j].token@ != token@);
                    }
                }
                let mut entries: Vec<IndexEntry> = Vec::new();
                std::mem::swap(&mut entries, &mut self.entries);
                entries.push(entry);
                proof {
                    assert(entry.records@ =~= seq![record_id]);
                    lemma_map_push(e, entry);
                    assert(entries@.drop_last() =~= e);
                    assert(entries_ok(entries@));
                }
                self.entries = entries;
            },
        }
        Ok(())
    }

    /// Search for all record IDs matching the given token.
    pub fn search(&self, token: &SearchToken) -> (r: Result<Vec<RecordId>, IndexError>)
        ensures
            match r {
                Ok(ids) => self@.contains_key(token@) && ids@ == self@[token@],
                Err(e) => !self@.contains_key(token@) && e is TokenNotFound,
            },
    {
        proof { use_type_invariant(self); }
        match self.find(token) {
            Some(i) => {
                proof { lemma_map_at(self.entries@, i as int); }
                let list = &self.entries[i].records;
                let mut out: Vec<RecordId> = Vec::with_capacity(list.len());
                let mut k: usize = 0;
                while k < list.len()
                    invariant
                        0 <= k <= list@.len(),
                        out@ == list@.take(k as int),
                    decreases list@.len() - k,
                {
                    out.push(list[k]);
                    assert(list@.take(k + 1) =~= list@.take(k as int).push(list@[k as int]));
                    k = k + 1;
                }
                assert(list@.take(k as int) =~= list@);
                Ok(out)
            },
            None => {
                proof {
                    if self@.contains_key(token@) {
                        let j = choose|j: int|
                            0 <= j < self.entries@.len() && (#[trigger] self.entries@[j]).token@ == token@;
                        assert(self.entries@[j].token@ != token@);
                    }
                }
                Err(IndexError::TokenNotFound)
            },
        }
    }

    /// Remove a specific record ID from a token's result set.
    ///
    /// If the record list becomes empty, the token entry is removed.
    pub fn delete(&mut self, token: &SearchToken, record_id: RecordId) -> (r: Result<(), IndexError>)
        ensures
            match r {
                Ok(()) => {
                    let kept = without_record(old(self)@[token@], record_id);
                    &&& old(self)@.contains_key(token@)
                    &&& final(self)@ == if kept.len() == 0 {
                        old(self)@.remove(token@)
                    } else {
                        old(self)@.insert(token@, kept)
                    }
                    &&& final(self).pair_total() == old(self).pair_total() - (old(self)@[token@].len() - kept.len())
                },
                Err(e) => {
                    &&& !old(self)@.contains_key(token@)
                    &&& e is TokenNotFound
                    &&& final(self)@ == old(self)@
                    &&& final(self).pair_total() == old(self).pair_total()
                },
            },
    {
        proof { use_type_invariant(&*self); }
        match self.find(token) {
            Some(i) => {
                let ghost e = self.entries@;
                proof { lemma_map_at(e, i as int); }
                let mut entries: Vec<IndexEntry> = Vec::new();
                std::mem::swap(&mut entries, &mut self.entries);
                let mut entry = entries.remove(i);
                let mut kept: Vec<RecordId> = Vec::new();
                let mut k: usize = 0;
                while k < entry.records.len()
                    invariant
                        0 <= k <= entry.records@.len(),
                        kept@ == without_record(entry.records@.take(k as int), record_id),
                    decreases entry.records@.len() - k,
                {
                    let id = entry.records[k];
                    if id.0 != record_id.0 {
                        kept.push(id);
                    }
                    proof {
                        let t = entry.records@.take(k + 1);
                        assert(t.drop_last() =~= entry.records@.take(k as int));
                        assert(t.last() == id);
                        assert(id.0 == record_id.0 ==> id == record_id);
                        reveal(Seq::filter);
                        assert(without_record(t, record_id) == if id != record_id {
                            without_record(entry.records@.take(k as int), record_id).push(id)
                        } else {
                            without_record(entry.records@.take(k as int), record_id)
                        });
                    }
                    k = k + 1;
                }
                assert(entry.records@.take(k as int) =~= entry.records@);
                if kept.len() == 0 {
                    proof {
                        assert(entries@ =~= e.remove(i as int));
                        lemma_map_remove(e, i as int);
                        lemma_pair_count_remove(e, i as int);
                    }
                } else {
                    entry.records = kept;
                    entries.insert(i, entry);
                    proof {
                        assert(entries@ =~= e.update(i as int, entry));
                        lemma_map_update(e, i as int, entry);
                        lemma_pair_count_update(e, i as int, entry);
                    }
                }
                self.entries = entries;
                Ok(())
            },
            None => {
                proof {
                    if self@.contains_key(token@) {
                        let j = choose|j: int|
                            0 <= j < self.entries@.len() && (#[trigger] self.entries@[j]).token@ == token@;
                        assert(self.entries@[j].token@ != token@);
                    }
                }
                Err(IndexError::TokenNotFound)
            },
        }
    }

    /// Check if a token has any matching records.
    pub fn contains_token(&self, token: &SearchToken) -> (b: bool)
        ensures
            b == self@.contains_key(token@),
    {
        proof { use_type_invariant(self); }
        match self.find(token) {
            Some(i) => {
                proof { lemma_map_at(self.entries@, i as int); }
                true
            },
            None => {
                proof {
                    if self@.contains_key(token@) {
                        let j = choose|j: int|
                            0 <= j < self.entries@.len() && (#[trigger] self.entries@[j]).token@ == token@;
                        assert(self.entries@[j].token@ != token@);
                    }
                }
                false
            },
        }
    }

    /// Return the total number of unique tokens.
    pub fn token_count(&self) -> (n: usize)
        ensures
            self@.dom().finite(),
            n == self@.dom().len(),
    {
        proof {
            use_type_invariant(self);
            lemma_map_len(self.entries@);
        }
        self.entries.len()
    }

    /// Return the total number of (token, record_id) pairs (a count beyond
    /// `usize::MAX` reads as `usize::MAX`).
    pub fn total_entries(&self) -> (n: usize)
        ensures
            n == if self.pair_total() <= usize::MAX { self.pair_total() } else { usize::MAX as int },
    {
        let mut total: usize = 0;
        let mut i: usize = 0;
        while i < self.entries.len()
            invariant
                0 <= i <= self.entries@.len(),
                total == if pair_count(self.entries@.take(i as int)) <= usize::MAX {
                    pair_count(self.entries@.take(i as int))
                } else {
                    usize::MAX as int
                },
            decreases self.entries@.len() - i,
        {
            proof {
                let t = self.entries@.take(i + 1);
                assert(t.drop_last() =~= self.entries@.take(i as int));
            }
            total = total.saturating_add(self.entries[i].records.len());
            i = i + 1;
        }
        assert(self.entries@.take(i as int) =~= self.entries@);
        total
    }

    /// Remove all entries.
    pub fn clear(&mut self)
        ensures
            final(self)@ == Map::<Seq<u8>, Seq<RecordId>>::empty(),
            final(self).pair_total() == 0,
    {
        self.entries = Vec::new();
        assert(self@ =~= Map::<Seq<u8>, Seq<RecordId>>::empty());
    }
}

impl Default for HashIndex {
    fn default() -> (idx: Self)
        ensures
            idx@ == Map::<Seq<u8>, Seq<RecordId>>::empty(),
            idx.pair_total() == 0,
    {
        Self::new()
    }
}

} // verus!
