//! The buffer pool: an in-memory cache of page images, evicting the least
//! recently used page when it is full.

use std::collections::HashMap;
use vstd::prelude::*;
use crate::page::{SlottedPage, magic_of, page_id_of};
use crate::types::{MAGIC_NUMBER, PAGE_SIZE, PageId};

verus! {

broadcast use vstd::std_specs::hash::group_hash_axioms;

/// One cached page image and whether it differs from storage.
#[derive(Clone, Copy)]
struct CachedPage {
    data: [u8; PAGE_SIZE],
    dirty: bool,
}

/// What the pool holds for one page.
pub struct CachedView {
    pub data: Seq<u8>,
    pub dirty: bool,
}

/// The abstract state of a buffer pool: its capacity, the cached pages by
/// page id, and the page ids from least to most recently used.
pub struct PoolView {
    pub capacity: usize,
    pub pages: Map<u32, CachedView>,
    pub order: Seq<PageId>,
}

/// `order` without `id`.
pub open spec fn without(order: Seq<PageId>, id: PageId) -> Seq<PageId> {
    order.filter(|y: PageId| y != id)
}

/// The dirty pages among `s`, in the order of `s`.
pub open spec fn dirty_ids(v: PoolView, s: Seq<PageId>) -> Seq<PageId> {
    s.filter(|y: PageId| v.pages.contains_key(y.0) && v.pages[y.0].dirty)
}

/// Every cached page appears once in the access order and nothing else does.
pub open spec fn pool_ok(v: PoolView) -> bool {
    &&& v.pages.dom().finite()
    &&& v.order.no_duplicates()
    &&& forall|i: int| 0 <= i < v.order.len() ==> v.pages.contains_key((#[trigger] v.order[i]).0)
    &&& forall|k: u32| #[trigger] v.pages.contains_key(k) ==> v.order.contains(PageId(k))
}

/// The pool after `put`: when the pool is full and the page is new, the least
/// recently used page leaves first; then the page is stored and becomes the
/// most recently used.
pub open spec fn put_step(v: PoolView, id: u32, data: Seq<u8>, dirty: bool) -> PoolView {
    let evicting = v.pages.dom().len() >= v.capacity && !v.pages.contains_key(id) && v.order.len() > 0;
    let victim = v.order[0];
    let pages1 = if evicting { v.pages.remove(victim.0) } else { v.pages };
    let order1 = if evicting { without(v.order, victim) } else { v.order };
    PoolView {
        capacity: v.capacity,
        pages: pages1.insert(id, CachedView { data, dirty }),
        order: without(order1, PageId(id)).push(PageId(id)),
    }
}

proof fn lemma_without(s: Seq<PageId>, x: PageId)
    ensures
        forall|y: PageId| without(s, x).contains(y) <==> s.contains(y) && y != x,
        s.no_duplicates() ==> without(s, x).no_duplicates(),
        !s.contains(x) ==> without(s, x) == s,
    decreases s.len(),
{
    reveal(Seq::filter);
    if s.len() > 0 {
        let init = s.drop_last();
        lemma_without(init, x);
        assert(without(s, x) == if s.last() != x {
            without(init, x).push(s.last())
        } else {
            without(init, x)
        });
        assert forall|y: PageId| without(s, x).contains(y) <==> s.contains(y) && y != x by {
            if s.contains(y) && y != x {
                let j = choose|j: int| 0 <= j < s.len() && s[j] == y;
                if j < s.len() - 1 {
                    assert(init[j] == y);
                }
            }
            if without(s, x).contains(y) && s.last() != x {
                let w = without(init, x);
                let j = choose|j: int| 0 <= j < w.push(s.last()).len() && w.push(s.last())[j] == y;
                if j < w.len() {
                    assert(w[j] == y);
                    assert(w.contains(y));
                }
            }
            if init.contains(y) {
                let j = choose|j: int| 0 <= j < init.len() && init[j] == y;
                assert(s[j] == y);
            }
        }
        if s.no_duplicates() {
            assert(init.no_duplicates());
            if s.last() != x {
                assert(!init.contains(s.last()));
                assert(!without(init, x).contains(s.last()));
            }
        }
        if !s.contains(x) {
            assert(!init.contains(x));
            assert(s.last() != x);
            assert(init.push(s.last()) =~= s);
        }
    } else {
        assert(without(s, x) =~= s);
    }
}


/// Moving `id` to the most recently used end keeps the order consistent with
/// a page map that holds `id`.
proof fn lemma_touch(pages: Map<u32, CachedView>, order: Seq<PageId>, id: PageId)
    requires
        pages.dom().finite(),
        order.no_duplicates(),
        forall|i: int| 0 <= i < order.len() ==> pages.contains_key((#[trigger] order[i]).0),
        forall|k: u32| #[trigger] pages.contains_key(k) && k != id.0 ==> order.contains(PageId(k)),
        pages.contains_key(id.0),
    ensures
        pool_ok(PoolView { capacity: 0, pages, order: without(order, id).push(id) }),
{
    lemma_without(order, id);
    let w = without(order, id);
    let o = w.push(id);
    assert(!w.contains(id));
    assert(o.no_duplicates()) by {
        assert forall|i: int, j: int| 0 <= i < o.len() && 0 <= j < o.len() && i != j implies o[i] != o[j] by {
            if i < w.len() && j < w.len() {
            } else if i < w.len() {
                assert(w.contains(o[i]));
            } else {
                assert(w.contains(o[j]));
            }
        }
    }
    assert forall|i: int| 0 <= i < o.len() implies pages.contains_key((#[trigger] o[i]).0) by {
        if i < w.len() {
            assert(w.contains(w[i]));
            assert(order.contains(w[i]));
            let j = choose|j: int| 0 <= j < order.len() && order[j] == w[i];
            assert(pages.contains_key(order[j].0));
        }
    }
    assert forall|k: u32| #[trigger] pages.contains_key(k) implies o.contains(PageId(k)) by {
        if k != id.0 {
            assert(order.contains(PageId(k)));
            assert(PageId(k) != id);
            assert(w.contains(PageId(k)));
            let j = choose|j: int| 0 <= j < w.len() && w[j] == PageId(k);
            assert(o[j] == PageId(k));
        } else {
            assert(PageId(k) == id);
            assert(o[o.len() - 1] == PageId(k));
        }
    }
}

/// A page just put in the pool is cached with the image and dirtiness it
/// was put with and is the most recently used; every other page that stays
/// cached keeps its image.
pub proof fn lemma_put_then_get(v: PoolView, id: u32, data: Seq<u8>, dirty: bool, other: u32)
    ensures
        put_step(v, id, data, dirty).pages.contains_key(id),
        put_step(v, id, data, dirty).pages[id] == (CachedView { data, dirty }),
        put_step(v, id, data, dirty).order.last() == PageId(id),
        other != id && put_step(v, id, data, dirty).pages.contains_key(other) ==> v.pages.contains_key(other)
            && put_step(v, id, data, dirty).pages[other] == v.pages[other],
{
}

/// Remove every occurrence of `id` from `order`.
fn remove_id(order: &Vec<PageId>, id: PageId) -> (r: Vec<PageId>)
    ensures
        r@ == without(order@, id),
{
    let mut out: Vec<PageId> = Vec::new();
    let mut i: usize = 0;
    while i < order.len()
        invariant
            0 <= i <= order@.len(),
            out@ == without(order@.take(i as int), id),
        decreases order@.len() - i,
    {
        let x = order[i];
        if x.0 != id.0 {
            out.push(x);
        }
        proof {
            let t = order@.take(i + 1);
            assert(t.drop_last() =~= order@.take(i as int));
            assert(x.0 == id.0 ==> x == id);
            reveal(Seq::filter);
        }
        i = i + 1;
    }
    assert(order@.take(i as int) =~= order@);
    out
}

/// A simple buffer pool that caches recently used pages in memory.
pub struct BufferPool {
    capacity: usize,
    pages: HashMap<u32, CachedPage>,
    access_order: Vec<PageId>,
}

impl View for BufferPool {
    type V = PoolView;

    closed spec fn view(&self) -> PoolView {
        PoolView {
            capacity: self.capacity,
            pages: self.pages@.map_values(|c: CachedPage| CachedView { data: c.data@, dirty: c.dirty }),
            order: self.access_order@,
        }
    }
}

impl BufferPool {
    /// The pool's bookkeeping is consistent.
    pub open spec fn wf(&self) -> bool {
        pool_ok(self@)
    }

    proof fn lemma_dom(&self)
        ensures
            self@.pages.dom() == self.pages@.dom(),
    {
        assert(self@.pages.dom() =~= self.pages@.dom());
    }

    /// Create a new buffer pool with the given capacity (number of pages).
    pub fn new(capacity: usize) -> (pool: Self)
        ensures
            pool.wf(),
            pool@.capacity == capacity,
            pool@.pages == Map::<u32, CachedView>::empty(),
            pool@.order == Seq::<PageId>::empty(),
    {
        let pool = Self {
            capacity,
            pages: HashMap::with_capacity(capacity),
            access_order: Vec::with_capacity(capacity),
        };
        assert(pool@.pages =~= Map::<u32, CachedView>::empty());
        pool
    }

    /// Retrieve a page from the pool, or None if not cached.
    ///
    /// A page found in the pool becomes the most recently used; a cached image
    /// whose magic number is wrong is reported as missing.
    pub fn get(&mut self, page_id: PageId) -> (r: Option<SlottedPage>)
        requires
            old(self).wf(),
        ensures
            final(self).wf(),
            match r {
                Some(page) => {
                    &&& old(self)@.pages.contains_key(page_id.0)
                    &&& page@ == old(self)@.pages[page_id.0].data
                    &&& magic_of(page@) == MAGIC_NUMBER
                    &&& final(self)@ == (PoolView {
                        order: without(old(self)@.order, page_id).push(page_id),
                        ..old(self)@
                    })
                },
                None => {
                    &&& final(self)@ == old(self)@
                    &&& old(self)@.pages.contains_key(page_id.0) ==> magic_of(
                        old(self)@.pages[page_id.0].data,
                    ) != MAGIC_NUMBER
                },
            },
    {
        match self.pages.get(&page_id.0) {
            Some(entry) => {
                let data = entry.data;
                match SlottedPage::from_buffer(data) {
                    Ok(slotted) => {
                        let order = remove_id(&self.access_order, page_id);
                        self.access_order = order;
                        self.access_order.push(page_id);
                        proof {
                            let v = old(self)@;
                            assert(self.pages@.contains_key(page_id.0));
                            assert(v.pages.contains_key(page_id.0));
                            assert forall|k: u32| #[trigger] v.pages.contains_key(k) && k != page_id.0 implies v.order.contains(PageId(k)) by {}
                            lemma_touch(v.pages, v.order, page_id);
                        }
                        Some(slotted)
                    },
                    Err(_) => None,
                }
            },
            None => None,
        }
    }

    /// Place a page into the cache.
    pub fn put(&mut self, page: &SlottedPage, dirty: bool)
        requires
            old(self).wf(),
        ensures
            final(self).wf(),
            final(self)@ == put_step(old(self)@, page_id_of(page@) as u32, page@, dirty),
            old(self)@.capacity >= 1 && old(self)@.pages.dom().len() <= old(self)@.capacity
                ==> final(self)@.pages.dom().len() <= final(self)@.capacity,
    {
        let page_id = page.page_id();
        let data = *page.buffer();
        let ghost v = old(self)@;
        proof { self.lemma_dom(); }
        if self.pages.len() >= self.capacity && !self.pages.contains_key(&page_id.0) {
            if self.access_order.len() > 0 {
                let evict_id = self.access_order[0];
                self.pages.remove(&evict_id.0);
                let order = remove_id(&self.access_order, evict_id);
                self.access_order = order;
            }
        }
        let ghost mid = self@;
        self.pages.insert(page_id.0, CachedPage { data, dirty });
        let order = remove_id(&self.access_order, page_id);
        self.access_order = order;
        self.access_order.push(page_id);
        proof {
            let id = page_id.0;
            let evicting = v.pages.dom().len() >= v.capacity && !v.pages.contains_key(id) && v.order.len() > 0;
            let victim = v.order[0];
            let pages1 = if evicting { v.pages.remove(victim.0) } else { v.pages };
            let order1 = if evicting { without(v.order, victim) } else { v.order };
            lemma_without(v.order, victim);
            assert(mid.pages =~= pages1);
            assert(mid.order == order1);
            let expect = put_step(v, id, page@, dirty);
            assert(self@.pages =~= expect.pages);
            assert(self@ == expect);
            // consistency
            assert(order1.no_duplicates());
            assert(forall|i: int| 0 <= i < order1.len() ==> pages1.contains_key((#[trigger] order1[i]).0)) by {
                if evicting {
                    assert forall|i: int| 0 <= i < order1.len() implies pages1.contains_key((#[trigger] order1[i]).0) by {
                        assert(without(v.order, victim).contains(order1[i]));
                        assert(v.order.contains(order1[i]));
                        let j = choose|j: int| 0 <= j < v.order.len() && v.order[j] == order1[i];
                        assert(v.pages.contains_key(v.order[j].0));
                        assert(order1[i] != victim);
                        assert(order1[i].0 != victim.0);
                    }
                }
            }
            assert(forall|k: u32| #[trigger] pages1.contains_key(k) ==> order1.contains(PageId(k))) by {
                if evicting {
                    assert forall|k: u32| #[trigger] pages1.contains_key(k) implies order1.contains(PageId(k)) by {
                        assert(v.order.contains(PageId(k)));
                        assert(PageId(k) != victim);
                    }
                }
            }
            assert forall|k: u32| #[trigger] self@.pages.contains_key(k) && k != id implies order1.contains(PageId(k)) by {
                assert(pages1.contains_key(k));
            }
            assert(self@.pages.dom() =~= pages1.dom().insert(id));
            lemma_touch(self@.pages, order1, PageId(id));
            // size bound
            if v.capacity >= 1 && v.pages.dom().len() <= v.capacity {
                if evicting {
                    assert(v.pages.contains_key(victim.0));
                    assert(pages1.dom().len() == v.pages.dom().len() - 1);
                } else if !v.pages.contains_key(id) && v.pages.dom().len() >= v.capacity {
                    assert(v.order.len() == 0);
                    assert(v.pages.dom().len() > 0);
                    let k = v.pages.dom().choose();
                    assert(v.pages.contains_key(k));
                    assert(v.order.contains(PageId(k)));
                }
            }
        }
    }

    /// Check if a page is dirty.
    pub fn is_dirty(&self, page_id: PageId) -> (b: bool)
        ensures
            b == (self@.pages.contains_key(page_id.0) && self@.pages[page_id.0].dirty),
    {
        match self.pages.get(&page_id.0) {
            Some(e) => e.dirty,
            None => false,
        }
    }

    /// Remove a page from the cache.
    pub fn remove(&mut self, page_id: PageId)
        requires
            old(self).wf(),
        ensures
            final(self).wf(),
            final(self)@ == (PoolView {
                pages: old(self)@.pages.remove(page_id.0),
                order: without(old(self)@.order, page_id),
                ..old(self)@
            }),
    {
        self.pages.remove(&page_id.0);
        let order = remove_id(&self.access_order, page_id);
        self.access_order = order;
        proof {
            let v = old(self)@;
            lemma_without(v.order, page_id);
            assert(self@.pages =~= v.pages.remove(page_id.0));
            let o = self@.order;
            assert forall|i: int| 0 <= i < o.len() implies self@.pages.contains_key((#[trigger] o[i]).0) by {
                assert(v.order.contains(o[i]));
                let j = choose|j: int| 0 <= j < v.order.len() && v.order[j] == o[i];
                assert(v.pages.contains_key(v.order[j].0));
            }
            assert forall|k: u32| #[trigger] self@.pages.contains_key(k) implies o.contains(PageId(k)) by {
                assert(v.order.contains(PageId(k)));
            }
        }
    }

    /// Mark a page as clean after flushing.
    pub fn mark_clean(&mut self, page_id: PageId)
        requires
            old(self).wf(),
        ensures
            final(self).wf(),
            final(self)@ == (if old(self)@.pages.contains_key(page_id.0) {
                PoolView {
                    pages: old(self)@.pages.insert(
                        page_id.0,
                        CachedView { dirty: false, ..old(self)@.pages[page_id.0] },
                    ),
                    ..old(self)@
                }
            } else {
                old(self)@
            }),
    {
        match self.pages.get(&page_id.0) {
            Some(e) => {
                let entry = CachedPage { data: e.data, dirty: false };
                self.pages.insert(page_id.0, entry);
                proof {
                    let v = old(self)@;
                    assert(self@.pages =~= v.pages.insert(page_id.0, CachedView { dirty: false, ..v.pages[page_id.0] }));
                    assert forall|i: int| 0 <= i < self@.order.len() implies self@.pages.contains_key((#[trigger] self@.order[i]).0) by {
                        assert(v.pages.contains_key(v.order[i].0));
                    }
                    assert forall|k: u32| #[trigger] self@.pages.contains_key(k) implies self@.order.contains(PageId(k)) by {
                        assert(v.pages.contains_key(k));
                    }
                }
            },
            None => {},
        }
    }

    /// Collect all dirty page IDs for flushing.
    pub fn dirty_pages(&self) -> (ids: Vec<PageId>)
        requires
            self.wf(),
        ensures
            ids@ == dirty_ids(self@, self@.order),
            ids@.no_duplicates(),
            forall|id: PageId|
                ids@.contains(id) <==> self@.pages.contains_key(id.0) && self@.pages[id.0].dirty,
    {
        let ghost v = self@;
        let ghost pred = |y: PageId| v.pages.contains_key(y.0) && v.pages[y.0].dirty;
        let mut out: Vec<PageId> = Vec::new();
        let mut i: usize = 0;
        while i < self.access_order.len()
            invariant
                v == self@,
                pool_ok(v),
                0 <= i <= v.order.len(),
                out@ == dirty_ids(v, v.order.take(i as int)),
            decreases v.order.len() - i,
        {
            let id = self.access_order[i];
            if self.is_dirty(id) {
                out.push(id);
            }
            proof {
                let t = v.order.take(i + 1);
                assert(t.drop_last() =~= v.order.take(i as int));
                reveal(Seq::filter);
            }
            i = i + 1;
        }
        proof {
            assert(v.order.take(i as int) =~= v.order);
            lemma_filter_keeps(v.order, pred);
            assert forall|id: PageId| out@.contains(id) <==> v.pages.contains_key(id.0) && v.pages[id.0].dirty by {
                if v.pages.contains_key(id.0) {
                    assert(v.order.contains(PageId(id.0)));
                    assert(PageId(id.0) == id);
                }
            }
        }
        out
    }

    /// Current number of cached pages.
    pub fn len(&self) -> (n: usize)
        ensures
            n == self@.pages.dom().len(),
    {
        proof { self.lemma_dom(); }
        self.pages.len()
    }

    /// Check if cache is empty.
    pub fn is_empty(&self) -> (b: bool)
        ensures
            b == (self@.pages.dom().len() == 0),
    {
        proof { self.lemma_dom(); }
        self.pages.is_empty()
    }

    /// Clear all entries.
    pub fn clear(&mut self)
        ensures
            final(self).wf(),
            final(self)@ == (PoolView {
                pages: Map::<u32, CachedView>::empty(),
                order: Seq::<PageId>::empty(),
                ..old(self)@
            }),
    {
        self.pages.clear();
        self.access_order.clear();
        assert(self@.pages =~= Map::<u32, CachedView>::empty());
    }
}

proof fn lemma_filter_keeps(s: Seq<PageId>, pred: spec_fn(PageId) -> bool)
    ensures
        forall|y: PageId| s.filter(pred).contains(y) <==> s.contains(y) && pred(y),
        s.no_duplicates() ==> s.filter(pred).no_duplicates(),
    decreases s.len(),
{
    broadcast use vstd::seq_lib::group_filter_ensures;
    assert forall|y: PageId| s.filter(pred).contains(y) <==> s.contains(y) && pred(y) by {
        if s.filter(pred).contains(y) {
            s.lemma_filter_contains_rev(pred, y);
            let k = choose|k: int| 0 <= k < s.filter(pred).len() && s.filter(pred)[k] == y;
            s.lemma_filter_pred(pred, k);
        }
        if s.contains(y) && pred(y) {
            let j = choose|j: int| 0 <= j < s.len() && s[j] == y;
            s.lemma_filter_contains(pred, j);
        }
    }
    if s.len() > 0 {
        reveal(Seq::filter);
        let init = s.drop_last();
        lemma_filter_keeps(init, pred);
        if s.no_duplicates() {
            assert(init.no_duplicates());
            if pred(s.last()) {
                assert(!init.contains(s.last()));
                assert(!init.filter(pred).contains(s.last()));
            }
        }
    }
}

} // verus!
