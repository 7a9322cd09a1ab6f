//! Tuples and lists on the heap, as the interpreter builds and reads them.
//!
//! A tuple is a block of scalars. A list is a block of three scalars: a
//! pointer to its buffer, the index of its first element in the buffer, and
//! its length; the buffer's first scalar is the buffer's length and its
//! elements follow.
use crate::heap::lemmas::{lemma_allocated_facts, lemma_live_trans, lemma_write_in_block};
use crate::heap::Heap;
use vstd::prelude::*;

verus! {

/// The elements of the list whose three scalars start at `p`.
pub open spec fn list_view(d: Seq<u32>, p: int) -> Seq<u32> {
    d.subrange(d[p] + d[p + 1] + 1, d[p] + d[p + 1] + d[p + 2] + 1)
}

/// The list at `p` lies inside `d`.
pub open spec fn list_in_bounds(d: Seq<u32>, p: int) -> bool {
    &&& 0 <= p
    &&& p + 2 < d.len()
    &&& d[p] + d[p + 1] + d[p + 2] + 1 <= d.len()
}

/// The list at `p` lies in blocks in use: its three scalars in the block at
/// `p`, and, unless it is empty, its elements in the block of its buffer.
pub open spec fn list_held(h: Heap, p: usize) -> bool {
    let d = h.data@;
    let a = h.heap_debug_info.allocations@;
    &&& list_in_bounds(d, p as int)
    &&& a.contains_key(p)
    &&& 3 <= a[p]
    &&& d[p + 2] == 0 || {
        &&& a.contains_key(d[p as int] as usize)
        &&& d[p + 1] + d[p + 2] + 1 <= a[d[p as int] as usize]
    }
}

/// Nothing is ever changed in place: a change of the heap that keeps every
/// block in use as it was (as each allocation, and each new list made by
/// appending, slicing or updating, does) leaves every list held in blocks
/// in use with the same elements.
pub proof fn lemma_list_kept(h: Heap, h2: Heap, p: usize)
    requires
        h.live_blocks_kept(&h2),
        list_held(h, p),
    ensures
        list_held(h2, p),
        list_view(h2.data@, p as int) == list_view(h.data@, p as int),
{
    let d = h.data@;
    let d2 = h2.data@;
    let a = h.heap_debug_info.allocations@;
    assert(a.contains_key(p));
    assert(d2[p as int] == d[p as int]);
    assert(d2[p + 1] == d[p + 1]);
    assert(d2[p + 2] == d[p + 2]);
    let b = d[p as int] as usize;
    if d[p + 2] != 0 {
        assert(a.contains_key(b));
        assert forall|j: int| d[p as int] + d[p + 1] + 1 <= j < d[p as int] + d[p + 1] + d[p + 2] + 1
            implies #[trigger] d2[j] == d[j] by {
            assert(b - 2 <= j < b + a[b]);
        }
    }
    assert(list_view(h2.data@, p as int) =~= list_view(h.data@, p as int));
}

/// Live blocks before an allocation stay as they were through writes into
/// the new block.
pub(crate) proof fn lemma_kept_through_new_block(a: Heap, b: Heap, c: Heap, p: usize)
    requires
        a.live_blocks_kept(&b),
        !a.allocated(p),
        b.live_blocks_kept_except(&c, p),
    ensures
        a.live_blocks_kept(&c),
{
    assert forall|q: usize|
        #![trigger a.heap_debug_info.allocations@.contains_key(q)]
        a.heap_debug_info.allocations@.contains_key(q) implies {
            &&& c.heap_debug_info.allocations@.contains_key(q)
            &&& c.heap_debug_info.allocations@[q] == a.heap_debug_info.allocations@[q]
            &&& forall|j: int|
                q - 2 <= j < q + a.heap_debug_info.allocations@[q] ==> #[trigger] c.data@[j]
                    == a.data@[j]
        } by {
        assert(q != p);
        assert(b.heap_debug_info.allocations@.contains_key(q));
        assert forall|j: int| q - 2 <= j < q + a.heap_debug_info.allocations@[q] implies #[trigger] c.data@[j]
            == a.data@[j] by {
            assert(b.data@[j] == a.data@[j]);
        }
    }
}

impl Heap {
    /// Writes `v` at `j`, a data scalar of the block in use at `p`.
    pub(crate) fn write_in_block(&mut self, p: usize, j: usize, v: u32)
        requires
            old(self).wf(),
            old(self).allocated(p),
            p <= j < p + old(self).heap_debug_info.allocations@[p],
        ensures
            final(self).data@ == old(self).data@.update(j as int, v),
            final(self).wf(),
            old(self).same_apart_from_data(final(self)),
            old(self).live_blocks_kept_except(final(self), p),
    {
        let ghost h = *self;
        proof {
            lemma_allocated_facts(h, p);
        }
        self.data.set(j, v);
        proof {
            lemma_write_in_block(h, *self, p, j as int);
        }
    }

    /// A tuple of `elements` scalars, left as the allocator hands it out.
    pub fn init_tuple(&mut self, elements: usize) -> (r: u32)
        requires
            old(self).wf(),
            elements < 0x8000_0000,
            old(self).data@.len() + elements + 2566 <= u32::MAX,
        ensures
            old(self).allocation_done(final(self), elements as int, r as usize),
    {
        let p = self.allocate(elements);
        p as u32
    }

    /// A new list of `elements` elements, left as the allocator hands them
    /// out: a buffer of `elements + 1` scalars, whose first holds `elements`,
    /// and the list's three scalars.
    pub fn init_list(&mut self, elements: usize) -> (r: u32)
        requires
            old(self).wf(),
            elements < 0x8000_0000,
            old(self).data@.len() + 2 * elements + 5200 <= u32::MAX,
        ensures
            final(self).wf(),
            old(self).live_blocks_kept(final(self)),
            old(self).same_tables(final(self)),
            final(self).allocated(r as usize),
            final(self).data@[r + 1] == 0,
            final(self).data@[r + 2] == elements,
            final(self).allocated(final(self).data@[r as int] as usize),
            final(self).data@[final(self).data@[r as int] as int] == elements,
            list_in_bounds(final(self).data@, r as int),
    {
        let ghost h0 = *self;
        let data_ptr = self.allocate(elements + 1);
        let ghost h1 = *self;
        self.write_in_block(data_ptr, data_ptr, elements as u32);
        let ghost h2 = *self;
        proof {
            lemma_kept_through_new_block(h0, h1, h2, data_ptr);
        }
        let slice_ptr = self.allocate(3);
        let ghost h3 = *self;
        proof {
            lemma_live_trans(h0, h2, h3);
            assert(h3.allocated(data_ptr));
            assert(h3.data@[data_ptr as int] == h2.data@[data_ptr as int]);
        }
        self.write_in_block(slice_ptr, slice_ptr, data_ptr as u32);
        let ghost h4 = *self;
        self.write_in_block(slice_ptr, slice_ptr + 1, 0);
        let ghost h5 = *self;
        self.write_in_block(slice_ptr, slice_ptr + 2, elements as u32);
        proof {
            lemma_kept_through_new_block(h2, h3, h4, slice_ptr);
            lemma_kept_through_new_block(h2, h4, h5, slice_ptr);
            lemma_kept_through_new_block(h2, h5, *self, slice_ptr);
            lemma_live_trans(h0, h2, *self);
            lemma_allocated_facts(h1, data_ptr);
            assert(self.data@[data_ptr as int] == h2.data@[data_ptr as int]);
        }
        slice_ptr as u32
    }

    /// The element at `index` of the list at `slice_ptr`.
    pub fn index_list(&self, slice_ptr: usize, index: usize) -> (r: u32)
        requires
            slice_ptr + 1 < self.data@.len(),
            self.data@[slice_ptr as int] + self.data@[slice_ptr + 1] + index + 1 < self.data@.len(),
        ensures
            r == self.data@[self.data@[slice_ptr as int] + self.data@[slice_ptr + 1] + index + 1],
    {
        let n = self.data.len();
        let buffer_ptr = self.data[slice_ptr] as usize;
        let start = self.data[slice_ptr + 1] as usize;
        self.data[buffer_ptr + start + index + 1]
    }

    /// The length of the list at `slice_ptr`.
    pub fn len_list(&self, slice_ptr: usize) -> (r: u32)
        requires
            slice_ptr + 2 < self.data@.len(),
        ensures
            r == self.data@[slice_ptr + 2],
    {
        let n = self.data.len();
        self.data[slice_ptr + 2]
    }

    /// A new list of three scalars, `a`, `b` and `c`.
    pub(crate) fn new_list(&mut self, a: u32, b: u32, c: u32) -> (r: usize)
        requires
            old(self).wf(),
            old(self).data@.len() + 2569 <= u32::MAX,
        ensures
            final(self).wf(),
            old(self).live_blocks_kept(final(self)),
            old(self).same_tables(final(self)),
            final(self).allocated(r),
            !old(self).allocated(r),
            final(self).heap_debug_info.allocations@ == old(self).heap_debug_info.allocations@.insert(r, 3),
            r + 3 <= final(self).data@.len() <= u32::MAX,
            final(self).data@.len() <= old(self).data@.len() + 3 + 2560,
            final(self).data@[r as int] == a,
            final(self).data@[r + 1] == b,
            final(self).data@[r + 2] == c,
    {
        let ghost h0 = *self;
        let p = self.allocate(3);
        let ghost h1 = *self;
        self.write_in_block(p, p, a);
        let ghost h2 = *self;
        self.write_in_block(p, p + 1, b);
        let ghost h3 = *self;
        self.write_in_block(p, p + 2, c);
        proof {
            lemma_kept_through_new_block(h0, h1, h2, p);
            lemma_kept_through_new_block(h0, h2, h3, p);
            lemma_kept_through_new_block(h0, h3, *self, p);
        }
        p
    }

    /// The list of the elements `slice_start..slice_end` of the list at
    /// `slice_ptr`: a new list over the same buffer.
    pub fn slice_list(&mut self, slice_ptr: usize, slice_start: u32, slice_end: u32) -> (r: u32)
        requires
            old(self).wf(),
            slice_ptr + 1 < old(self).data@.len(),
            old(self).data@[slice_ptr + 1] + slice_start <= u32::MAX,
            slice_start <= slice_end,
            old(self).data@.len() + 2569 <= u32::MAX,
        ensures
            final(self).wf(),
            old(self).live_blocks_kept(final(self)),
            old(self).same_tables(final(self)),
            final(self).allocated(r as usize),
            final(self).data@[r as int] == old(self).data@[slice_ptr as int],
            final(self).data@[r + 1] == old(self).data@[slice_ptr + 1] + slice_start,
            final(self).data@[r + 2] == slice_end - slice_start,
            list_in_bounds(old(self).data@, slice_ptr as int) && old(self).allocated(
                old(self).data@[slice_ptr as int] as usize,
            ) && list_within_buffer(*old(self), slice_ptr as int) && slice_end
                <= old(self).data@[slice_ptr + 2] ==> list_view(final(self).data@, r as int)
                == list_view(old(self).data@, slice_ptr as int).subrange(
                slice_start as int,
                slice_end as int,
            ),
    {
        let ghost h0 = *self;
        let buffer_ptr = self.data[slice_ptr];
        let start = self.data[slice_ptr + 1];
        let p = self.new_list(buffer_ptr, start + slice_start, slice_end - slice_start);
        proof {
            lemma_sublist(h0, *self, slice_ptr as int, p as int);
        }
        p as u32
    }

    /// The list of the elements from `slice_start` on of the list at
    /// `slice_ptr`: a new list over the same buffer.
    pub fn slice_right_list(&mut self, slice_ptr: usize, slice_start: u32) -> (r: u32)
        requires
            old(self).wf(),
            slice_ptr + 2 < old(self).data@.len(),
            old(self).data@[slice_ptr + 1] + slice_start <= u32::MAX,
            slice_start <= old(self).data@[slice_ptr + 2],
            old(self).data@.len() + 2569 <= u32::MAX,
        ensures
            final(self).wf(),
            old(self).live_blocks_kept(final(self)),
            old(self).same_tables(final(self)),
            final(self).allocated(r as usize),
            final(self).data@[r as int] == old(self).data@[slice_ptr as int],
            final(self).data@[r + 1] == old(self).data@[slice_ptr + 1] + slice_start,
            final(self).data@[r + 2] == old(self).data@[slice_ptr + 2] - slice_start,
            list_in_bounds(old(self).data@, slice_ptr as int) && old(self).allocated(
                old(self).data@[slice_ptr as int] as usize,
            ) && list_within_buffer(*old(self), slice_ptr as int) ==> list_view(
                final(self).data@,
                r as int,
            ) == list_view(old(self).data@, slice_ptr as int).skip(slice_start as int),
    {
        let ghost h0 = *self;
        let buffer_ptr = self.data[slice_ptr];
        let start = self.data[slice_ptr + 1];
        let length = self.data[slice_ptr + 2];
        let p = self.new_list(buffer_ptr, start + slice_start, length - slice_start);
        proof {
            lemma_sublist(h0, *self, slice_ptr as int, p as int);
        }
        p as u32
    }
}

impl Heap {
    /// A new list: the elements of the list at `slice_ptr` and then `value`,
    /// in a new buffer.
    #[verifier::rlimit(40)]
    pub fn append_list(&mut self, slice_ptr: usize, value: u32) -> (r: u32)
        requires
            old(self).wf(),
            list_in_bounds(old(self).data@, slice_ptr as int),
            old(self).data@[slice_ptr + 2] + 2 < 0x8000_0000,
            old(self).data@.len() + old(self).data@[slice_ptr + 2] + 5200 <= u32::MAX,
        ensures
            final(self).wf(),
            old(self).live_blocks_kept(final(self)),
            old(self).same_tables(final(self)),
            final(self).allocated(r as usize),
            final(self).data@[r + 1] == 0,
            list_in_bounds(final(self).data@, r as int),
            list_view(final(self).data@, r as int) == list_view(old(self).data@, slice_ptr as int).push(
                value,
            ),
    {
        let ghost h0 = *self;
        let curr_list = vstd::slice::slice_to_vec(
            crate::interp::inspect_list(self.data.as_slice(), slice_ptr),
        );
        let len = curr_list.len();
        let new_buffer = self.allocate(len + 2);
        let ghost h1 = *self;
        proof {
            lemma_allocated_facts(h1, new_buffer);
        }
        self.write_in_block(new_buffer, new_buffer, (len + 1) as u32);
        let ghost h2 = *self;
        self.write_in_block(new_buffer, new_buffer + len + 1, value);
        proof {
            lemma_kept_through_new_block(h0, h1, h2, new_buffer);
            lemma_kept_through_new_block(h0, h2, *self, new_buffer);
        }
        let mut i: usize = 0;
        while i < len
            invariant
                i <= len,
                len == curr_list@.len(),
                curr_list@ == list_view(h0.data@, slice_ptr as int),
                self.wf(),
                h0.live_blocks_kept(&*self),
                h0.same_tables(&*self),
                !h0.allocated(new_buffer),
                self.allocated(new_buffer),
                self.heap_debug_info.allocations@ == h1.heap_debug_info.allocations@,
                new_buffer + len + 2 <= self.heap_debug_info.allocations@[new_buffer] + new_buffer,
                new_buffer + self.heap_debug_info.allocations@[new_buffer] <= self.data@.len(),
                self.data@.len() == h1.data@.len(),
                h1.data@.len() <= h0.data@.len() + len + 2 + 2560,
                self.data@[new_buffer as int] == len + 1,
                self.data@[new_buffer + len + 1] == value,
                forall|k: int| 0 <= k < i ==> #[trigger] self.data@[new_buffer + 1 + k] == curr_list@[k],
            decreases len - i,
        {
            let ghost before = *self;
            self.write_in_block(new_buffer, new_buffer + i + 1, curr_list[i]);
            proof {
                lemma_kept_through_new_block(h0, before, *self, new_buffer);
            }
            i = i + 1;
        }
        let ghost h3 = *self;
        let p = self.new_list(new_buffer as u32, 0, (len + 1) as u32);
        proof {
            lemma_live_trans(h0, h3, *self);
            lemma_appended_view(h3, *self, new_buffer, p, curr_list@, value);
        }
        p as u32
    }

    /// A copy of the tuple of `size` scalars at `ptr`, with `value` at
    /// `index`.
    pub fn update_tuple(&mut self, ptr: usize, size: usize, index: usize, value: u32) -> (r: u32)
        requires
            old(self).wf(),
            old(self).allocated(ptr),
            size <= old(self).heap_debug_info.allocations@[ptr],
            index < size,
            size < 0x8000_0000,
            old(self).data@.len() + size + 2566 <= u32::MAX,
        ensures
            final(self).wf(),
            old(self).live_blocks_kept(final(self)),
            old(self).same_tables(final(self)),
            final(self).allocated(r as usize),
            !old(self).allocated(r as usize),
            r + size <= final(self).data@.len(),
            final(self).data@.subrange(r as int, r + size) == old(self).data@.subrange(
                ptr as int,
                ptr + size,
            ).update(index as int, value),
    {
        let ghost h0 = *self;
        proof {
            lemma_allocated_facts(h0, ptr);
        }
        let new_tuple = self.allocate(size);
        let ghost h1 = *self;
        proof {
            lemma_allocated_facts(h1, new_tuple);
            assert(h1.allocated(ptr));
            assert forall|j: int| ptr <= j < ptr + size implies #[trigger] h1.data@[j] == h0.data@[j] by {
            }
        }
        let mut i: usize = 0;
        while i < size
            invariant
                i <= size,
                self.wf(),
                h0.live_blocks_kept(&*self),
                h0.same_tables(&*self),
                !h0.allocated(new_tuple),
                h0.allocated(ptr),
                self.allocated(new_tuple),
                new_tuple != ptr,
                self.heap_debug_info.allocations@ == h1.heap_debug_info.allocations@,
                size <= self.heap_debug_info.allocations@[new_tuple],
                new_tuple + self.heap_debug_info.allocations@[new_tuple] <= self.data@.len(),
                self.data@.len() == h1.data@.len(),
                h1.data@.len() <= h0.data@.len() + size + 2560,
                ptr + size <= h0.data@.len(),
                size <= h0.heap_debug_info.allocations@[ptr],
                forall|k: int| 0 <= k < i ==> #[trigger] self.data@[new_tuple + k] == h0.data@[ptr + k],
            decreases size - i,
        {
            let ghost before = *self;
            proof {
                assert(self.data@[ptr + i] == h0.data@[ptr + i]);
            }
            let v = self.data[ptr + i];
            self.write_in_block(new_tuple, new_tuple + i, v);
            proof {
                lemma_kept_through_new_block(h0, before, *self, new_tuple);
            }
            i = i + 1;
        }
        let ghost h2 = *self;
        self.write_in_block(new_tuple, new_tuple + index, value);
        proof {
            lemma_kept_through_new_block(h0, h2, *self, new_tuple);
            let lhs = self.data@.subrange(new_tuple as int, new_tuple + size);
            let rhs = h0.data@.subrange(ptr as int, ptr + size).update(index as int, value);
            assert forall|k: int| 0 <= k < size implies #[trigger] lhs[k] == rhs[k] by {
                assert(lhs[k] == self.data@[new_tuple + k]);
                if k != index {
                    assert(h2.data@[new_tuple + k] == h0.data@[ptr + k]);
                }
            }
            assert(self.data@.subrange(new_tuple as int, new_tuple + size) =~= h0.data@.subrange(
                ptr as int,
                ptr + size,
            ).update(index as int, value));
        }
        new_tuple as u32
    }
}

/// The list at `p`, over the buffer at `b` that `h3` filled with `elems`
/// and then `value`, reads those after the list's own allocation.
proof fn lemma_appended_view(h3: Heap, h: Heap, b: usize, p: usize, elems: Seq<u32>, value: u32)
    requires
        h3.allocated(b),
        h3.live_blocks_kept(&h),
        b + elems.len() + 2 <= b + h3.heap_debug_info.allocations@[b],
        h3.data@[b + elems.len() + 1] == value,
        forall|k: int| 0 <= k < elems.len() ==> #[trigger] h3.data@[b + 1 + k] == elems[k],
        p + 2 < h.data@.len(),
        h.data@[p as int] == b,
        h.data@[p + 1] == 0,
        h.data@[p + 2] == elems.len() + 1,
        b + elems.len() + 2 <= h.data@.len(),
    ensures
        list_view(h.data@, p as int) == elems.push(value),
{
    assert(h3.heap_debug_info.allocations@.contains_key(b));
    let v = list_view(h.data@, p as int);
    assert(v.len() == elems.len() + 1);
    assert forall|k: int| 0 <= k <= elems.len() implies #[trigger] v[k] == elems.push(value)[k] by {
        assert(v[k] == h.data@[b + 1 + k]);
        assert(h.data@[b + 1 + k] == h3.data@[b + 1 + k]);
    }
    assert(list_view(h.data@, p as int) =~= elems.push(value));
}

/// The elements of the list at `p` lie inside its buffer's block.
pub open spec fn list_within_buffer(h: Heap, p: int) -> bool {
    let d = h.data@;
    d[p + 1] + d[p + 2] + 1 <= h.heap_debug_info.allocations@[d[p] as usize]
}

/// A list over the same buffer as the list at `p`, from an index at or
/// after its start, reads the same elements while the buffer is live.
proof fn lemma_sublist(h0: Heap, h1: Heap, p: int, q: int)
    requires
        h0.wf(),
        h0.live_blocks_kept(&h1),
        0 <= p,
        p + 1 < h0.data@.len(),
        0 <= q,
        q + 2 < h1.data@.len(),
        h1.data@[q] == h0.data@[p],
        h1.data@[q + 1] >= h0.data@[p + 1],
    ensures
        ({
            let d0 = h0.data@;
            let d1 = h1.data@;
            list_in_bounds(d0, p) && h0.allocated(d0[p] as usize) && list_within_buffer(h0, p)
                && d1[q + 1] + d1[q + 2] <= d0[p + 1] + d0[p + 2] ==> list_view(d1, q)
                == d0.subrange(d1[q] + d1[q + 1] + 1, d1[q] + d1[q + 1] + d1[q + 2] + 1)
        }),
{
    let d0 = h0.data@;
    let d1 = h1.data@;
    if list_in_bounds(d0, p) && h0.allocated(d0[p] as usize) && list_within_buffer(h0, p) && d1[q
        + 1] + d1[q + 2] <= d0[p + 1] + d0[p + 2] {
        let b = d0[p] as usize;
        lemma_allocated_facts(h0, b);
        assert(h0.heap_debug_info.allocations@.contains_key(b));
        assert forall|j: int|
            d1[q] + d1[q + 1] + 1 <= j < d1[q] + d1[q + 1] + d1[q + 2] + 1 implies #[trigger] d1[j]
            == d0[j] by {
            assert(b - 2 <= j < b + h0.heap_debug_info.allocations@[b]);
        }
        assert(list_view(d1, q) =~= d0.subrange(
            d1[q] + d1[q + 1] + 1,
            d1[q] + d1[q + 1] + d1[q + 2] + 1,
        ));
    }
}

} // verus!
