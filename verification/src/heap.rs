//! The interpreter's heap: a vector of `u32` scalars cut into blocks, with
//! segregated free lists for the block sizes 3, 8, 38, 158 and 638 and one
//! list for larger blocks.
pub mod integrity;
pub mod layout;
pub mod objects;
pub mod value;
pub(crate) mod lemmas;

use crate::heap::layout::{
    block_size, header_size, header_used, lemma_mul_mono, lemma_mul_step, lemma_mul_strict,
    lemma_tiled_append_uniform, lemma_tiled_ordered_all, lemma_tiled_same_sizes, lemma_tiled_split,
    tiled, uniform_blocks, uniform_filled, uniform_headers, uniform_ptrs, used_bit, valid_block_size,
};
use crate::heap::lemmas::{
    lemma_allocated_facts, lemma_lists_from_class, lemma_lists_from_expansion, lemma_lists_from_split,
    lemma_lists_large, lemma_grown_large_then, lemma_grown_then, lemma_listed_not_allocated,
    lemma_live_trans,
    lemma_grow_keeps_wf, lemma_grow_large_keeps_wf, lemma_index_of, lemma_lists_by_class,
    lemma_split_keeps_wf, lemma_use_keeps_wf, lemma_free_keeps_wf, lemma_write_in_block,
    lemma_live_after_writes, lemma_split_intro, split_layout, split_shape,
};
use std::collections::HashMap;
use vstd::prelude::*;

verus! {

broadcast use vstd::std_specs::hash::group_hash_axioms;

/// A stand-in for the hash of a span: what global values and function
/// pointers are keyed by.
pub type SpanHash = u64;

/// Bookkeeping of the live blocks: data pointer to block size.
pub struct HeapDebugInfo {
    pub allocations: HashMap<usize, u32>,
}

impl HeapDebugInfo {
    pub fn new() -> (r: HeapDebugInfo)
        ensures
            r.allocations@ == Map::<usize, u32>::empty(),
    {
        HeapDebugInfo { allocations: HashMap::new() }
    }
}

pub struct Heap {
    pub data: Vec<u32>,
    /// Global values are lazy-evaluated and live until the end of the program.
    pub global_values: HashMap<SpanHash, u32>,
    /// Function pointers are also lazy-evaluated.
    pub func_pointers: HashMap<SpanHash, u32>,
    pub func_pointers_rev: HashMap<u32, SpanHash>,
    /// Each entry is a pointer to the first data scalar of a free block; every
    /// block in `freelist_3` has 3 data scalars, and so on.
    pub freelist_3: Vec<usize>,
    pub freelist_8: Vec<usize>,
    pub freelist_38: Vec<usize>,
    pub freelist_158: Vec<usize>,
    pub freelist_638: Vec<usize>,
    /// Free blocks bigger than 638 scalars.
    pub freelist_large: Vec<usize>,
    pub heap_debug_info: HeapDebugInfo,
    /// The data pointers of all blocks, in the order they lie in `data`.
    pub layout: Ghost<Seq<int>>,
}

/// The size class of a request of `size` scalars, up to 638.
pub open spec fn size_class(size: int) -> int {
    if size <= 3 {
        3
    } else if size <= 8 {
        8
    } else if size <= 38 {
        38
    } else if size <= 158 {
        158
    } else {
        638
    }
}

/// The free list that a free block of `s` data scalars goes on (`0`: the large list).
pub open spec fn class_of(s: int) -> int {
    if s == 3 || s == 8 || s == 38 || s == 158 || s == 638 {
        s
    } else {
        0
    }
}

/// The size class whose blocks are cut into blocks of class `k`.
pub open spec fn parent_class(k: int) -> int {
    if k == 3 {
        8
    } else if k == 8 {
        38
    } else if k == 38 {
        158
    } else {
        638
    }
}

/// How many blocks a block of the next class is cut into for class `k`.
pub open spec fn split_count(k: int) -> int {
    if k == 3 {
        2
    } else {
        4
    }
}

/// How many blocks an expansion for class `k` appends.
pub open spec fn expand_count(k: int) -> int {
    if k == 3 {
        512
    } else if k == 8 {
        256
    } else if k == 38 {
        64
    } else if k == 158 {
        16
    } else {
        4
    }
}

/// A free list holds distinct blocks, each free with `k` data scalars.
pub open spec fn free_list_holds(d: Seq<u32>, l: Seq<int>, fl: Seq<usize>, k: int) -> bool {
    &&& fl.no_duplicates()
    &&& forall|t: int|
        0 <= t < fl.len() ==> l.contains(#[trigger] fl[t] as int) && d[fl[t] - 2] as int == k
}

/// The list of large free blocks holds distinct free blocks of more than 638 scalars.
pub open spec fn large_list_holds(d: Seq<u32>, l: Seq<int>, fl: Seq<usize>) -> bool {
    &&& fl.no_duplicates()
    &&& forall|t: int|
        0 <= t < fl.len() ==> l.contains(#[trigger] fl[t] as int) && 638 < d[fl[t] - 2] as int
            && (d[fl[t] - 2] as int) < used_bit()
}

impl Heap {
    /// The block at `p` is on the right list: a used block is recorded with its
    /// size, a free block is on the free list of its size.
    pub open spec fn block_accounted(&self, p: int) -> bool {
        let h = self.data@[p - 2];
        let allocs = self.heap_debug_info.allocations@;
        &&& header_used(h) <==> allocs.contains_key(p as usize)
        &&& header_used(h) ==> allocs[p as usize] as int == header_size(h)
        &&& h == 3 ==> self.freelist_3@.contains(p as usize)
        &&& h == 8 ==> self.freelist_8@.contains(p as usize)
        &&& h == 38 ==> self.freelist_38@.contains(p as usize)
        &&& h == 158 ==> self.freelist_158@.contains(p as usize)
        &&& h == 638 ==> self.freelist_638@.contains(p as usize)
        &&& 638 < h < used_bit() ==> self.freelist_large@.contains(p as usize)
    }

    /// The heap's invariant: the blocks tile `data`; every free block is on the
    /// free list of its size and nowhere else; the used blocks are exactly the
    /// recorded allocations.
    pub open spec fn wf(&self) -> bool {
        let d = self.data@;
        let l = self.layout@;
        &&& tiled(d, l)
        &&& free_list_holds(d, l, self.freelist_3@, 3)
        &&& free_list_holds(d, l, self.freelist_8@, 8)
        &&& free_list_holds(d, l, self.freelist_38@, 38)
        &&& free_list_holds(d, l, self.freelist_158@, 158)
        &&& free_list_holds(d, l, self.freelist_638@, 638)
        &&& large_list_holds(d, l, self.freelist_large@)
        &&& forall|i: int| 0 <= i < l.len() ==> self.block_accounted(#[trigger] l[i])
        &&& forall|p: usize|
            self.heap_debug_info.allocations@.contains_key(p) ==> l.contains(p as int)
        &&& d.len() <= usize::MAX
    }

    /// Function pointers are handed out as 0, 1, 2, ... and the reverse map inverts the map.
    pub open spec fn func_pointers_wf(&self) -> bool {
        let fp = self.func_pointers@;
        let rev = self.func_pointers_rev@;
        &&& forall|f: SpanHash|
            fp.contains_key(f) ==> (fp[f] as int) < fp.len() && rev.contains_key(#[trigger] fp[f])
                && rev[fp[f]] == f
        &&& forall|n: u32| rev.contains_key(n) ==> fp.contains_key(#[trigger] rev[n]) && fp[rev[n]] == n
    }

    /// The block at `p` is in use.
    pub open spec fn allocated(&self, p: usize) -> bool {
        self.heap_debug_info.allocations@.contains_key(p)
    }

    /// The scalars of every block that was in use in `self` (header, reference
    /// count and data) are the same in `other`, and the block is still in use.
    pub open spec fn live_blocks_kept(&self, other: &Heap) -> bool {
        &&& self.data@.len() <= other.data@.len()
        &&& forall|p: usize|
            #![trigger self.heap_debug_info.allocations@.contains_key(p)]
            self.heap_debug_info.allocations@.contains_key(p) ==> {
                &&& other.heap_debug_info.allocations@.contains_key(p)
                &&& other.heap_debug_info.allocations@[p] == self.heap_debug_info.allocations@[p]
                &&& forall|j: int|
                    p - 2 <= j < p + self.heap_debug_info.allocations@[p] ==> #[trigger] other.data@[j]
                        == self.data@[j]
            }
    }

    /// The free list that holds free blocks of `k` data scalars (the large
    /// list for any other `k`).
    pub open spec fn free_list(&self, k: int) -> Seq<usize> {
        if k == 3 {
            self.freelist_3@
        } else if k == 8 {
            self.freelist_8@
        } else if k == 38 {
            self.freelist_38@
        } else if k == 158 {
            self.freelist_158@
        } else if k == 638 {
            self.freelist_638@
        } else {
            self.freelist_large@
        }
    }

    /// Everything but `data`, the layout and the free lists is the same in `other`.
    pub open spec fn same_maps(&self, other: &Heap) -> bool {
        &&& other.global_values@ == self.global_values@
        &&& other.func_pointers@ == self.func_pointers@
        &&& other.func_pointers_rev@ == self.func_pointers_rev@
        &&& other.heap_debug_info.allocations@ == self.heap_debug_info.allocations@
    }

    /// `other` is `self` with `count` free blocks of `k` data scalars appended to
    /// `data` and pushed, in order, onto the free list of that size.
    pub open spec fn grown_uniform(&self, other: &Heap, k: int, count: int) -> bool {
        let n = self.data@.len() as int;
        let news = uniform_ptrs(n, k, count);
        &&& self.same_maps(other)
        &&& other.data@.len() == n + count * (k + 2)
        &&& other.data@.take(n) == self.data@
        &&& uniform_filled(other.data@.skip(n), k, count)
        &&& other.free_list(k).len() == self.free_list(k).len() + count
        &&& other.free_list(k).take(self.free_list(k).len() as int) == self.free_list(k)
        &&& forall|t: int| 0 <= t < count ==> #[trigger] other.free_list(k)[self.free_list(k).len() + t] as int == news[t]
        &&& forall|k2: int| k2 != k && (k2 == 3 || k2 == 8 || k2 == 38 || k2 == 158 || k2 == 638 || k2 == 0)
            ==> #[trigger] other.free_list(k2) == self.free_list(k2)
    }

    /// `other` is `self` with one free block of `size` data scalars appended to
    /// `data` and pushed onto the list of large free blocks.
    pub open spec fn grown_large(&self, other: &Heap, size: usize) -> bool {
        let n = self.data@.len() as int;
        &&& self.same_maps(other)
        &&& other.data@.len() == n + size + 2
        &&& other.data@.take(n) == self.data@
        &&& other.data@[n] == size as u32
        &&& forall|j: int| n < j < n + size + 2 ==> #[trigger] other.data@[j] == 0
        &&& other.freelist_large@ == self.freelist_large@.push((n + 2) as usize)
        &&& other.freelist_3@ == self.freelist_3@
        &&& other.freelist_8@ == self.freelist_8@
        &&& other.freelist_38@ == self.freelist_38@
        &&& other.freelist_158@ == self.freelist_158@
        &&& other.freelist_638@ == self.freelist_638@
    }

    /// `other` is `self` with the last block of free list `c` (`0` naming the
    /// large list) put to use: its header gets the used bit, it leaves the list,
    /// and it is recorded as allocated with its size.
    pub open spec fn used_from_list(&self, other: &Heap, c: int) -> bool {
        let fl = self.free_list(c);
        let p = fl.last();
        &&& fl.len() > 0
        &&& other.data@.len() == self.data@.len()
        &&& other.data@ == self.data@.update(p - 2, (self.data@[p - 2] + used_bit()) as u32)
        &&& other.free_list(c) == fl.drop_last()
        &&& forall|k2: int|
            k2 != c && (k2 == 3 || k2 == 8 || k2 == 38 || k2 == 158 || k2 == 638 || k2 == 0)
                ==> #[trigger] other.free_list(k2) == self.free_list(k2)
        &&& other.heap_debug_info.allocations@ == self.heap_debug_info.allocations@.insert(
            p,
            self.data@[p - 2],
        )
        &&& other.global_values@ == self.global_values@
        &&& other.func_pointers@ == self.func_pointers@
        &&& other.func_pointers_rev@ == self.func_pointers_rev@
        &&& other.layout@ == self.layout@
    }

    /// `other` is `self` with the last block of free list `big` cut into `count`
    /// blocks of `k` data scalars: the first is put to use and recorded, the
    /// others get free headers and are pushed, in order, onto the free list of `k`.
    pub open spec fn split_from_list(&self, other: &Heap, big: int, k: int, count: int) -> bool {
        let fl = self.free_list(big);
        let p = fl.last() as int;
        let ptrs = uniform_ptrs(p - 2, k, count);
        &&& fl.len() > 0
        &&& other.data@.len() == self.data@.len()
        &&& other.data@[p - 2] as int == used_bit() + k
        &&& forall|t: int| 1 <= t < count ==> other.data@[#[trigger] ptrs[t] - 2] as int == k
        &&& forall|j: int|
            0 <= j < self.data@.len() && other.data@[j] != self.data@[j] ==> exists|t: int|
                0 <= t < count && j == #[trigger] ptrs[t] - 2
        &&& other.free_list(big) == fl.drop_last()
        &&& other.free_list(k).len() == self.free_list(k).len() + count - 1
        &&& other.free_list(k).take(self.free_list(k).len() as int) == self.free_list(k)
        &&& forall|t: int|
            1 <= t < count ==> #[trigger] other.free_list(k)[self.free_list(k).len() + t - 1] as int
                == ptrs[t]
        &&& forall|k2: int|
            k2 != big && k2 != k && (k2 == 3 || k2 == 8 || k2 == 38 || k2 == 158 || k2 == 638 || k2
                == 0) ==> #[trigger] other.free_list(k2) == self.free_list(k2)
        &&& other.heap_debug_info.allocations@ == self.heap_debug_info.allocations@.insert(
            p as usize,
            k as u32,
        )
        &&& other.global_values@ == self.global_values@
        &&& other.func_pointers@ == self.func_pointers@
        &&& other.func_pointers_rev@ == self.func_pointers_rev@
    }

    /// Appends `count` free blocks of `k` data scalars and puts them on their free list.
    fn expand_uniform(&mut self, k: u32, count: usize)
        requires
            k == 3 || k == 8 || k == 38 || k == 158 || k == 638,
            0 < count,
            old(self).data@.len() + 2 + count * (k + 2) <= usize::MAX,
        ensures
            old(self).grown_uniform(final(self), k as int, count as int),
            old(self).wf() ==> final(self).wf(),
    {
        let base = self.data.len();
        let (mut buf, mut ptrs) = uniform_blocks(k, count, base);
        let ghost old_self = *self;
        let ghost old_fl = self.free_list(k as int);
        let ghost news = uniform_ptrs(base as int, k as int, count as int);
        let ghost buf_view = buf@;
        self.data.append(&mut buf);
        if k == 3 {
            self.freelist_3.append(&mut ptrs);
        } else if k == 8 {
            self.freelist_8.append(&mut ptrs);
        } else if k == 38 {
            self.freelist_38.append(&mut ptrs);
        } else if k == 158 {
            self.freelist_158.append(&mut ptrs);
        } else {
            self.freelist_638.append(&mut ptrs);
        }
        proof {
            let b = self.data@.skip(base as int);
            assert(self.data@.take(base as int) =~= old_self.data@);
            assert(b =~= buf_view);
            assert(self.free_list(k as int).take(old_fl.len() as int) =~= old_fl);
            if old_self.wf() {
                assert(self.data@.len() <= usize::MAX);
                self.layout = Ghost(old_self.layout@ + news);
                lemma_grow_keeps_wf(old_self, *self, k as int, count as int);
            }
        }
    }

    /// Appends 512 free blocks of 3 data scalars.
    pub fn expand_3(&mut self)
        requires
            old(self).data@.len() + 2562 <= usize::MAX,
        ensures
            old(self).grown_uniform(final(self), 3, 512),
            old(self).wf() ==> final(self).wf(),
    {
        self.expand_uniform(3, 512);
    }

    /// Appends 256 free blocks of 8 data scalars.
    pub fn expand_8(&mut self)
        requires
            old(self).data@.len() + 2562 <= usize::MAX,
        ensures
            old(self).grown_uniform(final(self), 8, 256),
            old(self).wf() ==> final(self).wf(),
    {
        self.expand_uniform(8, 256);
    }

    /// Appends 64 free blocks of 38 data scalars.
    pub fn expand_38(&mut self)
        requires
            old(self).data@.len() + 2562 <= usize::MAX,
        ensures
            old(self).grown_uniform(final(self), 38, 64),
            old(self).wf() ==> final(self).wf(),
    {
        self.expand_uniform(38, 64);
    }

    /// Appends 16 free blocks of 158 data scalars.
    pub fn expand_158(&mut self)
        requires
            old(self).data@.len() + 2562 <= usize::MAX,
        ensures
            old(self).grown_uniform(final(self), 158, 16),
            old(self).wf() ==> final(self).wf(),
    {
        self.expand_uniform(158, 16);
    }

    /// Appends 4 free blocks of 638 data scalars.
    pub fn expand_638(&mut self)
        requires
            old(self).data@.len() + 2562 <= usize::MAX,
        ensures
            old(self).grown_uniform(final(self), 638, 4),
            old(self).wf() ==> final(self).wf(),
    {
        self.expand_uniform(638, 4);
    }

    /// Appends one free block of `size` data scalars to the large list. Its
    /// header holds `size` truncated to 32 bits.
    pub fn expand_large(&mut self, size: usize)
        requires
            old(self).data@.len() + size + 4 <= usize::MAX,
        ensures
            old(self).grown_large(final(self), size),
            old(self).wf() && 638 < size < 0x8000_0000 ==> final(self).wf(),
    {
        let ghost old_self = *self;
        let mut new_buffer: Vec<u32> = vec![0u32; size + 2];
        new_buffer.set(0, size as u32);
        let ghost buf_view = new_buffer@;
        let base = self.data.len();
        self.freelist_large.push(base + 2);
        self.data.append(&mut new_buffer);
        proof {
            assert forall|j: int| 0 < j < size + 2 implies #[trigger] buf_view[j] == 0 by {
                assert(cloned(0u32, buf_view[j]));
            }
            assert(self.data@.take(base as int) =~= old_self.data@);
            assert(self.data@[base as int] == buf_view[0]);
            assert forall|j: int| base < j < base + size + 2 implies #[trigger] self.data@[j] == 0 by {
                assert(self.data@[j] == buf_view[j - base]);
            }
            if old_self.wf() && 638 < size < 0x8000_0000 {
                self.layout = Ghost(old_self.layout@.push(base + 2int));
                lemma_grow_large_keeps_wf(old_self, *self, size);
            }
        }
    }

    /// Pops the last block of free list `c` (`0`: the large list) and puts it to use.
    fn use_last(&mut self, c: u32) -> (r: usize)
        requires
            old(self).wf(),
            c == 3 || c == 8 || c == 38 || c == 158 || c == 638 || c == 0,
            old(self).free_list(c as int).len() > 0,
        ensures
            old(self).used_from_list(final(self), c as int),
            r == old(self).free_list(c as int).last(),
            final(self).wf(),
            old(self).live_blocks_kept(final(self)),
    {
        let ghost old_self = *self;
        proof {
            lemma_lists_by_class(old_self);
        }
        let ptr = if c == 3 {
            self.freelist_3.pop().unwrap()
        } else if c == 8 {
            self.freelist_8.pop().unwrap()
        } else if c == 38 {
            self.freelist_38.pop().unwrap()
        } else if c == 158 {
            self.freelist_158.pop().unwrap()
        } else if c == 638 {
            self.freelist_638.pop().unwrap()
        } else {
            self.freelist_large.pop().unwrap()
        };
        proof {
            let fl = old_self.free_list(c as int);
            assert(fl[fl.len() - 1] == ptr);
            assert(old_self.layout@.contains(ptr as int));
            let ia = lemma_index_of(old_self.layout@, ptr as int);
        }
        let header = self.data[ptr - 2];
        self.data.set(ptr - 2, header + 0x8000_0000);
        self.heap_debug_info.allocations.insert(ptr, header);
        proof {
            lemma_lists_by_class(*self);
            assert(self.free_list(c as int) =~= old_self.free_list(c as int).drop_last());
            lemma_use_keeps_wf(old_self, *self, c as int);
        }
        ptr
    }

    /// Sets the header at `at` to a free block of `k` scalars and pushes that
    /// block onto the free list of `k`.
    fn free_piece(&mut self, at: usize, k: u32)
        requires
            k == 3 || k == 8 || k == 38 || k == 158,
            at + 5 <= old(self).data@.len(),
            old(self).data@.len() <= usize::MAX,
        ensures
            final(self).data@ == old(self).data@.update(at as int, k),
            final(self).free_list(k as int) == old(self).free_list(k as int).push((at + 2) as usize),
            k != 3 ==> final(self).freelist_3@ == old(self).freelist_3@,
            k != 8 ==> final(self).freelist_8@ == old(self).freelist_8@,
            k != 38 ==> final(self).freelist_38@ == old(self).freelist_38@,
            k != 158 ==> final(self).freelist_158@ == old(self).freelist_158@,
            final(self).freelist_638@ == old(self).freelist_638@,
            final(self).freelist_large@ == old(self).freelist_large@,
            final(self).heap_debug_info.allocations@ == old(self).heap_debug_info.allocations@,
            final(self).global_values@ == old(self).global_values@,
            final(self).func_pointers@ == old(self).func_pointers@,
            final(self).func_pointers_rev@ == old(self).func_pointers_rev@,
            final(self).layout@ == old(self).layout@,
    {
        self.data.set(at, k);
        if k == 3 {
            self.freelist_3.push(at + 2);
        } else if k == 8 {
            self.freelist_8.push(at + 2);
        } else if k == 38 {
            self.freelist_38.push(at + 2);
        } else {
            self.freelist_158.push(at + 2);
        }
    }

    /// Pops the last block of free list `big`, cuts it into `count` blocks of `k`
    /// data scalars, puts the first to use and the others on the free list of `k`.
    #[verifier::rlimit(40)]
    fn split_and_use(&mut self, big: u32, k: u32, count: usize) -> (r: usize)
        requires
            old(self).wf(),
            split_shape(big as int, k as int, count as int),
            old(self).free_list(big as int).len() > 0,
        ensures
            old(self).split_from_list(final(self), big as int, k as int, count as int),
            r == old(self).free_list(big as int).last(),
            final(self).wf(),
            old(self).live_blocks_kept(final(self)),
    {
        let ghost old_self = *self;
        proof {
            lemma_lists_by_class(old_self);
        }
        let ptr = if big == 8 {
            self.freelist_8.pop().unwrap()
        } else if big == 38 {
            self.freelist_38.pop().unwrap()
        } else if big == 158 {
            self.freelist_158.pop().unwrap()
        } else {
            self.freelist_638.pop().unwrap()
        };
        let ghost ia: int;
        proof {
            let fl = old_self.free_list(big as int);
            assert(fl[fl.len() - 1] == ptr);
            assert(old_self.layout@.contains(ptr as int));
            ia = lemma_index_of(old_self.layout@, ptr as int);
            assert(old_self.data@[ptr - 2] as int == big);
            assert(ptr + big <= old_self.data@.len());
        }
        let ghost popped = *self;
        let m: usize = k as usize + 2;
        self.data.set(ptr - 2, 0x8000_0000 + k);
        self.free_piece(ptr - 2 + m, k);
        if count == 4 {
            self.free_piece(ptr - 2 + 2 * m, k);
            self.free_piece(ptr - 2 + 3 * m, k);
        }
        self.heap_debug_info.allocations.insert(ptr, k);
        proof {
            let l = old_self.layout@;
            let ptrs = uniform_ptrs(ptr - 2, k as int, count as int);
            assert(old_self.free_list(big as int).last() == ptr);
            lemma_lists_by_class(*self);
            lemma_lists_by_class(popped);
            assert(popped.free_list(big as int) =~= old_self.free_list(big as int).drop_last());
            assert(ptrs[1] == ptr + m);
            if count == 4 {
                assert(ptrs[2] == ptr + 2 * m);
                assert(ptrs[3] == ptr + 3 * m);
            }
            assert(self.free_list(k as int).take(old_self.free_list(k as int).len() as int) =~= old_self.free_list(k as int));
            assert forall|j: int|
                0 <= j < old_self.data@.len() && self.data@[j] != old_self.data@[j] implies exists|t: int|
                    0 <= t < count && j == #[trigger] ptrs[t] - 2 by {
                if j == ptr - 2 {
                    assert(j == ptrs[0] - 2);
                } else if j == ptrs[1] - 2 {
                } else {
                    assert(count == 4);
                    if j == ptrs[2] - 2 {
                    } else {
                        assert(j == ptrs[3] - 2);
                    }
                }
            }
            assert(forall|t: int| 1 <= t < count ==> self.data@[#[trigger] ptrs[t] - 2] as int == k);
            assert(forall|t: int|
                1 <= t < count ==> #[trigger] self.free_list(k as int)[old_self.free_list(k as int).len() + t - 1] as int
                    == ptrs[t]);
            lemma_split_intro(old_self, *self, big as int, k as int, count as int);
            self.layout = Ghost(split_layout(l, ia, k as int, count as int));
            lemma_split_keeps_wf(old_self, *self, big as int, k as int, count as int, ia);
        }
        ptr
    }

    /// The global values and the function pointer tables are the same in `other`.
    pub open spec fn same_tables(&self, other: &Heap) -> bool {
        &&& other.global_values@ == self.global_values@
        &&& other.func_pointers@ == self.func_pointers@
        &&& other.func_pointers_rev@ == self.func_pointers_rev@
    }

    /// The pointer that `allocate(size)` hands out: the last block on the free list
    /// of the size class; else the last block on the list of the next class,
    /// which is cut up; else the last of the blocks that an expansion appends.
    /// A large request takes the last large free block if it is big enough, else
    /// a new block.
    pub open spec fn alloc_choice(&self, size: int) -> int {
        if size <= 638 {
            let k = size_class(size);
            if self.free_list(k).len() > 0 {
                self.free_list(k).last() as int
            } else if k != 638 && self.free_list(parent_class(k)).len() > 0 {
                self.free_list(parent_class(k)).last() as int
            } else {
                self.data@.len() + 2 + (expand_count(k) - 1) * (k + 2)
            }
        } else {
            let fl = self.freelist_large@;
            if fl.len() > 0 && header_size(self.data@[fl.last() - 2]) >= size {
                fl.last() as int
            } else {
                self.data@.len() + 2int
            }
        }
    }

    /// What `allocate(size)` did when it turned `self` into `other` and returned `r`.
    pub open spec fn allocation_done(&self, other: &Heap, size: int, r: usize) -> bool {
        let allocs = other.heap_debug_info.allocations@;
        &&& other.wf()
        &&& self.live_blocks_kept(other)
        &&& self.same_tables(other)
        &&& !self.allocated(r)
        &&& allocs == self.heap_debug_info.allocations@.insert(r, allocs[r])
        &&& size <= allocs[r]
        &&& size <= 638 ==> allocs[r] as int == size_class(size)
        &&& size > 638 && allocs[r] != size ==> r == self.freelist_large@.last()
        &&& r as int == self.alloc_choice(size)
        &&& 2 <= r
        &&& r + allocs[r] <= other.data@.len()
        &&& other.data@[r - 2] as int == used_bit() + allocs[r]
    }

    /// Every free list but those of `a` and `b` (`0`: the large list) is the same in `other`.
    pub open spec fn lists_kept_but(&self, other: &Heap, a: int, b: int) -> bool {
        forall|k2: int|
            k2 != a && k2 != b && (k2 == 3 || k2 == 8 || k2 == 38 || k2 == 158 || k2 == 638 || k2
                == 0) ==> #[trigger] other.free_list(k2) == self.free_list(k2)
    }

    /// The length of `data` and the free lists after `allocate(size)` turned
    /// `self` into `other`. A block taken from the list of its size class
    /// leaves that list; a block cut from the next class leaves the other
    /// pieces, in order, on the list of its class; an expansion appends 2560
    /// scalars and leaves all its blocks but the one handed out on the list. A
    /// large request takes the last large free block if it is big enough, else
    /// appends a block of exactly `size` data scalars.
    pub open spec fn allocation_lists(&self, other: &Heap, size: int) -> bool {
        let n = self.data@.len() as int;
        if size <= 638 {
            let k = size_class(size);
            let fl = self.free_list(k);
            if fl.len() > 0 {
                &&& other.data@.len() == n
                &&& other.free_list(k) == fl.drop_last()
                &&& self.lists_kept_but(other, k, k)
            } else if k != 638 && self.free_list(parent_class(k)).len() > 0 {
                let big = parent_class(k);
                let p = self.free_list(big).last() as int;
                &&& other.data@.len() == n
                &&& other.free_list(big) == self.free_list(big).drop_last()
                &&& other.free_list(k).len() == split_count(k) - 1
                &&& forall|t: int|
                    0 <= t < split_count(k) - 1 ==> #[trigger] other.free_list(k)[t] as int == p + (t
                        + 1) * (k + 2)
                &&& self.lists_kept_but(other, k, big)
            } else {
                &&& other.data@.len() == n + 2560
                &&& other.free_list(k).len() == expand_count(k) - 1
                &&& forall|t: int|
                    0 <= t < expand_count(k) - 1 ==> #[trigger] other.free_list(k)[t] as int == n + 2
                        + t * (k + 2)
                &&& self.lists_kept_but(other, k, k)
            }
        } else {
            let fl = self.freelist_large@;
            if fl.len() > 0 && header_size(self.data@[fl.last() - 2]) >= size {
                &&& other.data@.len() == n
                &&& other.freelist_large@ == fl.drop_last()
                &&& self.lists_kept_but(other, 0, 0)
            } else {
                &&& other.data@.len() == n + size + 2
                &&& other.freelist_large@ == fl
                &&& self.lists_kept_but(other, 0, 0)
            }
        }
    }

    /// The length of the free list of class `k` (`0`: the large list).
    fn free_list_len(&self, k: u32) -> (n: usize)
        ensures
            n == self.free_list(k as int).len(),
    {
        if k == 3 {
            self.freelist_3.len()
        } else if k == 8 {
            self.freelist_8.len()
        } else if k == 38 {
            self.freelist_38.len()
        } else if k == 158 {
            self.freelist_158.len()
        } else if k == 638 {
            self.freelist_638.len()
        } else {
            self.freelist_large.len()
        }
    }

    /// The expansion for size class `k`.
    fn expand_class(&mut self, k: u32)
        requires
            k == 3 || k == 8 || k == 38 || k == 158 || k == 638,
            old(self).data@.len() + 2562 <= usize::MAX,
        ensures
            old(self).grown_uniform(final(self), k as int, expand_count(k as int)),
            old(self).wf() ==> final(self).wf(),
    {
        if k == 3 {
            self.expand_3();
        } else if k == 8 {
            self.expand_8();
        } else if k == 38 {
            self.expand_38();
        } else if k == 158 {
            self.expand_158();
        } else {
            self.expand_638();
        }
    }

    /// Allocates a block of size class `k`.
    fn allocate_in_class(&mut self, size: usize, k: u32) -> (r: usize)
        requires
            old(self).wf(),
            size <= 638,
            k as int == size_class(size as int),
            old(self).data@.len() + 2562 <= usize::MAX,
        ensures
            old(self).allocation_done(final(self), size as int, r),
            old(self).allocation_lists(final(self), size as int),
            final(self).data@.len() <= old(self).data@.len() + 2560,
    {
        let ghost old_self = *self;
        proof {
            lemma_lists_by_class(old_self);
        }
        let result: usize;
        if self.free_list_len(k) > 0 {
            proof { lemma_listed_not_allocated(old_self, k as int, old_self.free_list(k as int).len() - 1); }
            result = self.use_last(k);
            proof { lemma_lists_from_class(old_self, *self, size as int); }
        } else if k != 638 && self.free_list_len(if k == 3 { 8 } else if k == 8 { 38 } else if k == 38 { 158 } else { 638 }) > 0 {
            let big: u32 = if k == 3 { 8 } else if k == 8 { 38 } else if k == 38 { 158 } else { 638 };
            let count: usize = if k == 3 { 2 } else { 4 };
            proof { lemma_listed_not_allocated(old_self, big as int, old_self.free_list(big as int).len() - 1); }
            result = self.split_and_use(big, k, count);
            proof { lemma_lists_from_split(old_self, *self, size as int, count as int); }
        } else {
            self.expand_class(k);
            let ghost mid = *self;
            proof {
                assert(expand_count(k as int) * (k + 2) == 2560);
                lemma_grown_then(old_self, mid, k as int, expand_count(k as int));
                lemma_listed_not_allocated(mid, k as int, mid.free_list(k as int).len() - 1);
            }
            result = self.use_last(k);
            proof {
                lemma_live_trans(old_self, mid, *self);
                lemma_lists_from_expansion(old_self, mid, *self, size as int);
            }
        }
        proof {
            lemma_allocated_facts(*self, result);
        }
        result
    }

    /// Allocates a block of more than 638 data scalars.
    #[verifier::rlimit(100)]
    #[verifier::spinoff_prover]
    fn allocate_large(&mut self, size: usize) -> (r: usize)
        requires
            old(self).wf(),
            638 < size < 0x8000_0000,
            old(self).data@.len() + size + 4 <= usize::MAX,
        ensures
            old(self).allocation_done(final(self), size as int, r),
            old(self).allocation_lists(final(self), size as int),
            final(self).data@.len() <= old(self).data@.len() + size + 2,
    {
        let ghost old_self = *self;
        proof {
            lemma_lists_by_class(old_self);
        }
        let result: usize;
        let n = self.freelist_large.len();
        let fits = if n > 0 {
            let last = self.freelist_large[n - 1];
            proof {
                lemma_listed_not_allocated(old_self, 0, n - 1);
                assert(self.freelist_large@.contains(last));
                let ia = lemma_index_of(self.layout@, last as int);
            }
            (self.data[last - 2] as usize) >= size
        } else {
            false
        };
        proof {
            if n > 0 {
                let h = old_self.data@[old_self.freelist_large@.last() - 2];
                assert(old_self.freelist_large@[n - 1] == old_self.freelist_large@.last());
                assert((h as int) < used_bit());
                assert(header_size(h) == h as int);
            }
        }
        if fits {
            result = self.use_last(0);
            proof { lemma_lists_large(old_self, old_self, *self, size as int, fits); }
        } else {
            self.expand_large(size);
            let ghost mid = *self;
            proof {
                lemma_grown_large_then(old_self, mid, size);
                lemma_listed_not_allocated(mid, 0, mid.free_list(0).len() - 1);
            }
            result = self.use_last(0);
            proof {
                lemma_live_trans(old_self, mid, *self);
                lemma_lists_large(old_self, mid, *self, size as int, fits);
            }
        }
        proof {
            lemma_allocated_facts(*self, result);
        }
        result
    }

    /// Allocates a block with at least `size` data scalars and returns the
    /// pointer to its first data scalar. The block's size is the smallest size
    /// class that fits, or, above 638, at least `size`.
    pub fn allocate(&mut self, size: usize) -> (r: usize)
        requires
            old(self).wf(),
            size < 0x8000_0000,
            old(self).data@.len() + size + 2566 <= usize::MAX,
        ensures
            old(self).allocation_done(final(self), size as int, r),
            old(self).allocation_lists(final(self), size as int),
            final(self).data@.len() <= old(self).data@.len() + size + 2560,
    {
        if size <= 3 {
            self.allocate_in_class(size, 3)
        } else if size <= 8 {
            self.allocate_in_class(size, 8)
        } else if size <= 38 {
            self.allocate_in_class(size, 38)
        } else if size <= 158 {
            self.allocate_in_class(size, 158)
        } else if size <= 638 {
            self.allocate_in_class(size, 638)
        } else {
            self.allocate_large(size)
        }
    }

    /// `other` is `self` with the block at `p` given back: its header loses the
    /// used bit, it goes onto the free list of its size, and its record is removed.
    pub open spec fn freed_block(&self, other: &Heap, p: usize) -> bool {
        let s = header_size(self.data@[p - 2]);
        let c = class_of(s);
        &&& other.data@ == self.data@.update(p - 2, s as u32)
        &&& other.free_list(c) == self.free_list(c).push(p)
        &&& forall|k2: int|
            k2 != c && (k2 == 3 || k2 == 8 || k2 == 38 || k2 == 158 || k2 == 638 || k2 == 0)
                ==> #[trigger] other.free_list(k2) == self.free_list(k2)
        &&& other.heap_debug_info.allocations@ == self.heap_debug_info.allocations@.remove(p)
        &&& self.same_tables(other)
        &&& other.layout@ == self.layout@
    }

    /// A block that was just given back is the one that the next allocation
    /// of its size class hands out.
    pub proof fn lemma_freed_block_reused(&self, other: &Heap, p: usize, size: int)
        requires
            2 <= p <= self.data@.len(),
            self.freed_block(other, p),
            ({
                let s = header_size(self.data@[p - 2]);
                ||| size <= 638 && size_class(size) == s
                ||| 638 < size <= s && class_of(s) == 0
            }),
        ensures
            other.alloc_choice(size) == p,
    {
        let s = header_size(self.data@[p - 2]);
        assert(other.free_list(class_of(s)).last() == p);
        if size > 638 {
            assert(other.data@[p - 2] == s as u32);
        }
    }

    /// Gives the block at `ptr` back to the free list of its size.
    fn free(&mut self, ptr: usize)
        requires
            2 <= ptr <= old(self).data@.len(),
        ensures
            old(self).freed_block(final(self), ptr),
            old(self).wf() && old(self).allocated(ptr) ==> final(self).wf(),
    {
        let ghost old_self = *self;
        let header = self.data[ptr - 2];
        let size = header & 0x7fff_ffff;
        proof {
            assert(header & 0x7fff_ffff == header % 0x8000_0000) by (bit_vector);
        }
        self.data.set(ptr - 2, size);
        self.heap_debug_info.allocations.remove(&ptr);
        if size == 3 {
            self.freelist_3.push(ptr);
        } else if size == 8 {
            self.freelist_8.push(ptr);
        } else if size == 38 {
            self.freelist_38.push(ptr);
        } else if size == 158 {
            self.freelist_158.push(ptr);
        } else if size == 638 {
            self.freelist_638.push(ptr);
        } else {
            self.freelist_large.push(ptr);
        }
        proof {
            lemma_lists_by_class(old_self);
            lemma_lists_by_class(*self);
            assert(old_self.freed_block(&*self, ptr));
            if old_self.wf() && old_self.allocated(ptr) {
                lemma_free_keeps_wf(old_self, *self, ptr);
            }
        }
    }

    /// Increments the reference count of the block at `ptr`.
    pub fn inc_rc(&mut self, ptr: usize)
        requires
            1 <= ptr <= old(self).data@.len(),
            old(self).data@[ptr - 1] < u32::MAX,
        ensures
            final(self).data@ == old(self).data@.update(ptr - 1, (old(self).data@[ptr - 1] + 1) as u32),
            old(self).same_apart_from_data(final(self)),
            old(self).wf() && old(self).allocated(ptr) ==> final(self).wf() && old(self).live_blocks_kept_except(final(self), ptr),
    {
        let ghost old_self = *self;
        let rc = self.data[ptr - 1];
        self.data.set(ptr - 1, rc + 1);
        proof {
            if old_self.wf() && old_self.allocated(ptr) {
                lemma_write_in_block(old_self, *self, ptr, ptr - 1);
            }
        }
    }

    /// Decrements the reference count of the block at `ptr`.
    pub fn dec_rc(&mut self, ptr: usize)
        requires
            1 <= ptr <= old(self).data@.len(),
            old(self).data@[ptr - 1] > 0,
        ensures
            final(self).data@ == old(self).data@.update(ptr - 1, (old(self).data@[ptr - 1] - 1) as u32),
            old(self).same_apart_from_data(final(self)),
            old(self).wf() && old(self).allocated(ptr) ==> final(self).wf() && old(self).live_blocks_kept_except(final(self), ptr),
    {
        let ghost old_self = *self;
        let rc = self.data[ptr - 1];
        self.data.set(ptr - 1, rc - 1);
        proof {
            if old_self.wf() && old_self.allocated(ptr) {
                lemma_write_in_block(old_self, *self, ptr, ptr - 1);
            }
        }
    }

    /// Frees the block at `ptr` if nothing refers to it any more.
    pub fn try_drop(&mut self, ptr: usize)
        requires
            2 <= ptr <= old(self).data@.len(),
        ensures
            old(self).data@[ptr - 1] == 0 ==> old(self).freed_block(final(self), ptr),
            old(self).data@[ptr - 1] != 0 ==> *final(self) == *old(self),
            old(self).wf() && old(self).allocated(ptr) ==> final(self).wf(),
    {
        if self.data[ptr - 1] == 0 {
            self.free(ptr);
        }
    }

    /// Everything but `data` is the same in `other`.
    pub open spec fn same_apart_from_data(&self, other: &Heap) -> bool {
        &&& self.same_tables(other)
        &&& other.heap_debug_info.allocations@ == self.heap_debug_info.allocations@
        &&& other.freelist_3@ == self.freelist_3@
        &&& other.freelist_8@ == self.freelist_8@
        &&& other.freelist_38@ == self.freelist_38@
        &&& other.freelist_158@ == self.freelist_158@
        &&& other.freelist_638@ == self.freelist_638@
        &&& other.freelist_large@ == self.freelist_large@
        &&& other.layout@ == self.layout@
    }

    /// Like `live_blocks_kept`, but the block at `p` may have new contents.
    pub open spec fn live_blocks_kept_except(&self, other: &Heap, p: usize) -> bool {
        &&& self.data@.len() <= other.data@.len()
        &&& forall|q: usize|
            #![trigger self.heap_debug_info.allocations@.contains_key(q)]
            self.heap_debug_info.allocations@.contains_key(q) ==> {
                &&& other.heap_debug_info.allocations@.contains_key(q)
                &&& other.heap_debug_info.allocations@[q] == self.heap_debug_info.allocations@[q]
                &&& q != p ==> forall|j: int|
                    q - 2 <= j < q + self.heap_debug_info.allocations@[q] ==> #[trigger] other.data@[j]
                        == self.data@[j]
            }
    }

    /// Returns the function pointer of `f`, handing out the next unused number
    /// the first time `f` is asked for.
    pub fn alloc_func_pointer(&mut self, f: SpanHash) -> (r: u32)
        requires
            old(self).func_pointers_wf(),
            old(self).func_pointers@.len() < u32::MAX,
        ensures
            final(self).func_pointers_wf(),
            old(self).func_pointers@.contains_key(f) ==> r == old(self).func_pointers@[f]
                && final(self).func_pointers@ == old(self).func_pointers@
                && final(self).func_pointers_rev@ == old(self).func_pointers_rev@,
            !old(self).func_pointers@.contains_key(f) ==> r == old(self).func_pointers@.len()
                && final(self).func_pointers@ == old(self).func_pointers@.insert(f, r)
                && final(self).func_pointers_rev@ == old(self).func_pointers_rev@.insert(r, f),
            final(self).func_pointers@[f] == r,
            final(self).func_pointers_rev@[r] == f,
            final(self).data@ == old(self).data@,
            final(self).global_values@ == old(self).global_values@,
            final(self).heap_debug_info.allocations@ == old(self).heap_debug_info.allocations@,
            final(self).layout@ == old(self).layout@,
            final(self).freelist_3@ == old(self).freelist_3@,
            final(self).freelist_8@ == old(self).freelist_8@,
            final(self).freelist_38@ == old(self).freelist_38@,
            final(self).freelist_158@ == old(self).freelist_158@,
            final(self).freelist_638@ == old(self).freelist_638@,
            final(self).freelist_large@ == old(self).freelist_large@,
    {
        let new_index = self.func_pointers.len() as u32;
        match self.func_pointers.get(&f) {
            Some(e) => *e,
            None => {
                let ghost old_fp = self.func_pointers@;
                let ghost old_rev = self.func_pointers_rev@;
                proof {
                    assert(!old_rev.contains_key(new_index)) by {
                        if old_rev.contains_key(new_index) {
                            assert(old_fp.contains_key(old_rev[new_index]));
                        }
                    }
                }
                self.func_pointers.insert(f, new_index);
                self.func_pointers_rev.insert(new_index, f);
                proof {
                    let fp = self.func_pointers@;
                    let rev = self.func_pointers_rev@;
                    assert(fp.len() == old_fp.len() + 1);
                    assert forall|g: SpanHash| fp.contains_key(g) implies (fp[g] as int) < fp.len() && rev.contains_key(#[trigger] fp[g])
                        && rev[fp[g]] == g by {
                        if g != f {
                            assert(old_fp.contains_key(g));
                            assert(old_rev.contains_key(old_fp[g]));
                        }
                    }
                    assert forall|n: u32| rev.contains_key(n) implies fp.contains_key(#[trigger] rev[n]) && fp[rev[n]] == n by {
                        if n != new_index {
                            assert(old_rev.contains_key(n));
                            assert(old_fp.contains_key(old_rev[n]));
                            assert(old_rev[n] != f);
                        }
                    }
                }
                new_index
            },
        }
    }

    /// Allocates an integer that fits in 32 bits, from an `i32`: a block whose
    /// first data scalar holds the sign (top bit) and the length 1, and whose
    /// second holds the magnitude.
    pub fn alloc_int_from_i32(&mut self, n: i32) -> (r: u32)
        requires
            old(self).wf(),
            old(self).data@.len() + 2570 <= u32::MAX,
        ensures
            final(self).wf(),
            old(self).live_blocks_kept(final(self)),
            old(self).same_tables(final(self)),
            !old(self).allocated(r as usize),
            final(self).heap_debug_info.allocations@ == old(self).heap_debug_info.allocations@.insert(r as usize, 3),
            r as int == old(self).alloc_choice(2),
            final(self).data@[r as int] == (if n < 0 { 0x8000_0001u32 } else { 1u32 }),
            final(self).data@[r + 1] as int == (if n < 0 { -n } else { n as int }),
    {
        let ghost old_self = *self;
        let ptr = self.allocate(2);
        let ghost mid = *self;
        let metadata: u32 = if n < 0 { 0x8000_0001 } else { 1 };
        self.data.set(ptr, metadata);
        let ghost mid2 = *self;
        let magnitude: u32 = if n < 0 { (-(n as i64)) as u32 } else { n as u32 };
        self.data.set(ptr + 1, magnitude);
        proof {
            lemma_write_in_block(mid, mid2, ptr, ptr as int);
            lemma_write_in_block(mid2, *self, ptr, ptr + 1);
            lemma_live_after_writes(old_self, mid, mid2, *self, ptr);
        }
        ptr as u32
    }

    /// Allocates an integer that fits in 32 bits, from a `u32`.
    pub fn alloc_int_from_u32(&mut self, n: u32) -> (r: u32)
        requires
            old(self).wf(),
            old(self).data@.len() + 2570 <= u32::MAX,
        ensures
            final(self).wf(),
            old(self).live_blocks_kept(final(self)),
            old(self).same_tables(final(self)),
            !old(self).allocated(r as usize),
            final(self).heap_debug_info.allocations@ == old(self).heap_debug_info.allocations@.insert(r as usize, 3),
            r as int == old(self).alloc_choice(2),
            final(self).data@[r as int] == 1,
            final(self).data@[r + 1] == n,
    {
        let ghost old_self = *self;
        let ptr = self.allocate(2);
        let ghost mid = *self;
        self.data.set(ptr, 1);
        let ghost mid2 = *self;
        self.data.set(ptr + 1, n);
        proof {
            lemma_write_in_block(mid, mid2, ptr, ptr as int);
            lemma_write_in_block(mid2, *self, ptr, ptr + 1);
            lemma_live_after_writes(old_self, mid, mid2, *self, ptr);
        }
        ptr as u32
    }

    pub fn new() -> (r: Heap)
        ensures
            r.wf(),
            r.func_pointers_wf(),
            r.data@.len() == 0,
            r.global_values@ == Map::<SpanHash, u32>::empty(),
            r.func_pointers@ == Map::<SpanHash, u32>::empty(),
            r.func_pointers_rev@ == Map::<u32, SpanHash>::empty(),
            r.freelist_3@.len() == 0,
            r.freelist_8@.len() == 0,
            r.freelist_38@.len() == 0,
            r.freelist_158@.len() == 0,
            r.freelist_638@.len() == 0,
            r.freelist_large@.len() == 0,
            r.heap_debug_info.allocations@ == Map::<usize, u32>::empty(),
    {
        Heap {
            data: Vec::new(),
            global_values: HashMap::new(),
            func_pointers: HashMap::new(),
            func_pointers_rev: HashMap::new(),
            freelist_3: Vec::new(),
            freelist_8: Vec::new(),
            freelist_38: Vec::new(),
            freelist_158: Vec::new(),
            freelist_638: Vec::new(),
            freelist_large: Vec::new(),
            heap_debug_info: HeapDebugInfo::new(),
            layout: Ghost(Seq::empty()),
        }
    }
}

} // verus!
