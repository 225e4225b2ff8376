//! Page-id allocation with a LIFO free list, and its byte encoding.

use vstd::prelude::*;
use crate::error::PageError;
use crate::types::PageId;

verus! {

/// The abstract state of a page allocator: the next never-used page id and
/// the free list, last freed at the end.
pub struct AllocatorView {
    pub next: u32,
    pub free: Seq<PageId>,
}

/// What `allocate` hands out and the state it leaves: the most recently
/// freed id if there is one, otherwise the next fresh id.
pub open spec fn allocate_step(v: AllocatorView) -> (PageId, AllocatorView) {
    if v.free.len() > 0 {
        (v.free.last(), AllocatorView { next: v.next, free: v.free.drop_last() })
    } else {
        (PageId(v.next), AllocatorView { next: (v.next + 1) as u32, free: v.free })
    }
}

/// The state after `p` was freed.
pub open spec fn free_step(v: AllocatorView, p: PageId) -> AllocatorView {
    AllocatorView { next: v.next, free: v.free.push(p) }
}

/// Big-endian bytes of a 32-bit value.
pub open spec fn u32_be(x: int) -> Seq<u8> {
    seq![
        (x / 16777216 % 256) as u8,
        (x / 65536 % 256) as u8,
        (x / 256 % 256) as u8,
        (x % 256) as u8,
    ]
}

/// Big-endian 32-bit value of the four bytes at `i`.
pub open spec fn be32_at(b: Seq<u8>, i: int) -> int {
    b[i] as int * 16777216 + b[i + 1] as int * 65536 + b[i + 2] as int * 256 + b[i + 3] as int
}

/// The encoded page ids of a free list, in order.
pub open spec fn ids_bytes(ids: Seq<PageId>) -> Seq<u8>
    decreases ids.len(),
{
    if ids.len() == 0 {
        Seq::empty()
    } else {
        ids_bytes(ids.drop_last()) + u32_be(ids.last().0 as int)
    }
}

/// The encoded allocator: next id, free-list length (cut to 32 bits), then the
/// free page ids.
pub open spec fn free_list_bytes(v: AllocatorView) -> Seq<u8> {
    u32_be(v.next as int) + u32_be(v.free.len() as u32 as int) + ids_bytes(v.free)
}

/// What decoding `data` yields: nothing when it is shorter than its header
/// or than the ids its header announces.
pub open spec fn decode_free_list(data: Seq<u8>) -> Option<AllocatorView> {
    if data.len() < 8 {
        None
    } else if data.len() < 8 + 4 * be32_at(data, 4) {
        None
    } else {
        Some(
            AllocatorView {
                next: be32_at(data, 0) as u32,
                free: Seq::new(be32_at(data, 4) as nat, |i: int| PageId(be32_at(data, 8 + 4 * i) as u32)),
            },
        )
    }
}

proof fn lemma_u32_be(x: int)
    requires
        0 <= x < 4294967296,
    ensures
        u32_be(x).len() == 4,
        be32_at(u32_be(x), 0) == x,
{
}

proof fn lemma_ids_bytes(ids: Seq<PageId>)
    ensures
        ids_bytes(ids).len() == 4 * ids.len(),
        forall|i: int| 0 <= i < ids.len() ==> #[trigger] be32_at(ids_bytes(ids), 4 * i) == ids[i].0,
    decreases ids.len(),
{
    if ids.len() > 0 {
        let init = ids.drop_last();
        lemma_ids_bytes(init);
        let b = ids_bytes(ids);
        let last = u32_be(ids.last().0 as int);
        lemma_u32_be(ids.last().0 as int);
        assert(b == ids_bytes(init) + last);
        assert forall|i: int| 0 <= i < ids.len() implies #[trigger] be32_at(b, 4 * i) == ids[i].0 by {
            if i < ids.len() - 1 {
                assert(be32_at(ids_bytes(init), 4 * i) == init[i].0);
                assert(b[4 * i] == ids_bytes(init)[4 * i]);
                assert(b[4 * i + 1] == ids_bytes(init)[4 * i + 1]);
                assert(b[4 * i + 2] == ids_bytes(init)[4 * i + 2]);
                assert(b[4 * i + 3] == ids_bytes(init)[4 * i + 3]);
            } else {
                assert(b[4 * i] == last[0]);
                assert(b[4 * i + 1] == last[1]);
                assert(b[4 * i + 2] == last[2]);
                assert(b[4 * i + 3] == last[3]);
            }
        }
    }
}

/// Decoding the encoding of an allocator whose free list has fewer than
/// 2^32 entries gives the allocator back.
pub proof fn lemma_free_list_roundtrip(v: AllocatorView)
    requires
        v.free.len() < 4294967296,
    ensures
        decode_free_list(free_list_bytes(v)) == Some(v),
{
    let b = free_list_bytes(v);
    let h1 = u32_be(v.next as int);
    let h2 = u32_be(v.free.len() as int);
    lemma_u32_be(v.next as int);
    lemma_u32_be(v.free.len() as int);
    lemma_ids_bytes(v.free);
    let body = ids_bytes(v.free);
    assert(b == h1 + h2 + body);
    assert(b.len() == 8 + 4 * v.free.len());
    assert(be32_at(b, 0) == v.next) by {
        assert(b[0] == h1[0] && b[1] == h1[1] && b[2] == h1[2] && b[3] == h1[3]);
    }
    assert(be32_at(b, 4) == v.free.len()) by {
        assert(b[4] == h2[0] && b[5] == h2[1] && b[6] == h2[2] && b[7] == h2[3]);
    }
    let d = decode_free_list(b).unwrap();
    assert forall|i: int| 0 <= i < v.free.len() implies d.free[i] == v.free[i] by {
        assert(be32_at(body, 4 * i) == v.free[i].0);
        assert(b[8 + 4 * i] == body[4 * i]);
        assert(b[9 + 4 * i] == body[4 * i + 1]);
        assert(b[10 + 4 * i] == body[4 * i + 2]);
        assert(b[11 + 4 * i] == body[4 * i + 3]);
    }
    assert(d.free =~= v.free);
}

/// Freeing a page id and allocating again gives that id back and restores
/// the allocator.
pub proof fn lemma_free_then_allocate(v: AllocatorView, p: PageId)
    ensures
        allocate_step(free_step(v, p)) == (p, v),
{
    assert(free_step(v, p).free.drop_last() =~= v.free);
}

/// Manages page ID allocation and a free list for page reuse.
pub struct PageAllocator {
    next_page_id: u32,
    free_list: Vec<PageId>,
}

impl View for PageAllocator {
    type V = AllocatorView;

    closed spec fn view(&self) -> AllocatorView {
        AllocatorView { next: self.next_page_id, free: self.free_list@ }
    }
}

impl PageAllocator {
    /// Create a new allocator starting from the given next page ID.
    pub fn new(start_page_id: u32) -> (a: Self)
        ensures
            a@ == (AllocatorView { next: start_page_id, free: Seq::empty() }),
    {
        Self { next_page_id: start_page_id, free_list: Vec::new() }
    }

    /// Allocate a page ID, either from the free list or by incrementing the counter.
    pub fn allocate(&mut self) -> (id: PageId)
        requires
            old(self)@.free.len() == 0 ==> old(self)@.next < u32::MAX,
        ensures
            (id, final(self)@) == allocate_step(old(self)@),
    {
        if let Some(freed) = self.free_list.pop() {
            freed
        } else {
            let id = PageId(self.next_page_id);
            self.next_page_id += 1;
            id
        }
    }

    /// Free a page ID, making it available for reuse.
    pub fn free(&mut self, page_id: PageId)
        ensures
            final(self)@ == free_step(old(self)@, page_id),
    {
        self.free_list.push(page_id);
    }

    /// Returns the number of freed (reusable) page IDs.
    pub fn free_count(&self) -> (n: usize)
        ensures
            n == self@.free.len(),
    {
        self.free_list.len()
    }

    /// Returns the total number of pages allocated so far (including freed).
    pub fn total_allocated(&self) -> (n: u32)
        ensures
            n == self@.next,
    {
        self.next_page_id
    }

    /// Returns the number of actively used page IDs.
    pub fn used_count(&self) -> (n: u32)
        requires
            self@.free.len() as u32 <= self@.next,
        ensures
            n == self@.next - self@.free.len() as u32,
    {
        self.next_page_id - self.free_list.len() as u32
    }

    /// Serialize the free list for persistence.
    pub fn serialize_free_list(&self) -> (out: Vec<u8>)
        ensures
            out@ == free_list_bytes(self@),
    {
        let mut out: Vec<u8> = Vec::new();
        push_u32_be(&mut out, self.next_page_id);
        push_u32_be(&mut out, self.free_list.len() as u32);
        let ghost head = out@;
        let mut i: usize = 0;
        while i < self.free_list.len()
            invariant
                0 <= i <= self.free_list@.len(),
                out@ == head + ids_bytes(self.free_list@.take(i as int)),
            decreases self.free_list@.len() - i,
        {
            push_u32_be(&mut out, self.free_list[i].0);
            proof {
                let t = self.free_list@.take(i + 1);
                assert(t.drop_last() =~= self.free_list@.take(i as int));
            }
            i = i + 1;
        }
        assert(self.free_list@.take(i as int) =~= self.free_list@);
        out
    }

    /// Deserialize the free list from previously serialized data.
    pub fn deserialize_free_list(data: &[u8]) -> (r: Result<Self, PageError>)
        ensures
            match r {
                Ok(a) => decode_free_list(data@) == Some(a@),
                Err(e) => decode_free_list(data@) is None && e == PageError::CorruptHeader,
            },
    {
        if data.len() < 8 {
            return Err(PageError::CorruptHeader);
        }
        let next = read_u32_be(data, 0);
        let count = read_u32_be(data, 4) as usize;
        if (data.len() - 8) / 4 < count {
            return Err(PageError::CorruptHeader);
        }
        assert(data@.len() == data.len());
        let mut free_list: Vec<PageId> = Vec::with_capacity(count);
        let mut i: usize = 0;
        while i < count
            invariant
                8 + 4 * count <= data@.len(),
                data@.len() <= usize::MAX,
                count == be32_at(data@, 4),
                0 <= i <= count,
                free_list@.len() == i,
                forall|j: int| 0 <= j < i ==> #[trigger] free_list@[j] == PageId(be32_at(data@, 8 + 4 * j) as u32),
            decreases count - i,
        {
            let base = 8 + i * 4;
            let id = read_u32_be(data, base);
            free_list.push(PageId(id));
            i = i + 1;
        }
        let a = Self { next_page_id: next, free_list };
        assert(a@.free =~= decode_free_list(data@).unwrap().free);
        Ok(a)
    }
}

/// Append the big-endian bytes of `x`.
fn push_u32_be(out: &mut Vec<u8>, x: u32)
    ensures
        final(out)@ == old(out)@ + u32_be(x as int),
{
    out.push((x / 16777216 % 256) as u8);
    out.push((x / 65536 % 256) as u8);
    out.push((x / 256 % 256) as u8);
    out.push((x % 256) as u8);
    assert(final(out)@ =~= old(out)@ + u32_be(x as int));
}

/// The big-endian 32-bit value of the four bytes at `i`.
fn read_u32_be(data: &[u8], i: usize) -> (x: u32)
    requires
        i + 4 <= data@.len(),
    ensures
        x == be32_at(data@, i as int),
{
    (data[i] as u32) * 16777216 + (data[i + 1] as u32) * 65536 + (data[i + 2] as u32) * 256 + (
    data[i + 3] as u32)
}

} // verus!
