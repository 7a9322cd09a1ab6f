//! The heap's self-check: walks the blocks from the start of `data` and checks
//! each against the free lists and the record of allocations.
use crate::heap::layout::{block_next, block_size, header_size, header_used, tiled};
use crate::heap::lemmas::{lemma_index_of, lemma_lists_by_class};
use crate::heap::Heap;
use vstd::prelude::*;

verus! {

broadcast use vstd::std_specs::hash::group_hash_axioms;

/// `l` lists blocks of positive size that follow one another from the start
/// of `d` to its end.
pub open spec fn blocks_tile(d: Seq<u32>, l: Seq<int>) -> bool {
    &&& l.len() > 0
    &&& l[0] == 2
    &&& forall|i: int|
        0 <= i < l.len() ==> 2 <= #[trigger] l[i] && block_size(d, l[i]) > 0 && block_next(d, l[i])
            <= d.len() + 2
    &&& forall|i: int, j: int|
        0 <= i && j == i + 1 && j < l.len() ==> #[trigger] l[j] == block_next(d, #[trigger] l[i])
    &&& block_next(d, l[l.len() - 1]) == d.len() + 2
}

/// The first blocks of such a walk, up to `cursor` (exclusive).
pub open spec fn walk_prefix(d: Seq<u32>, w: Seq<int>, cursor: int) -> bool {
    &&& w.len() == 0 ==> cursor == 2
    &&& w.len() > 0 ==> w[0] == 2 && cursor == block_next(d, w[w.len() - 1])
    &&& forall|i: int|
        0 <= i < w.len() ==> 2 <= #[trigger] w[i] && block_size(d, w[i]) > 0 && w[i] < d.len()
    &&& forall|i: int, j: int|
        0 <= i && j == i + 1 && j < w.len() ==> #[trigger] w[j] == block_next(d, #[trigger] w[i])
}

impl Heap {
    /// What the self-check asks of the block at `p`: a used block is recorded
    /// with its size; a free block is on the free list of its size, and a free
    /// block of no size class is larger than 638.
    pub open spec fn block_checks(&self, p: int) -> bool {
        let h = self.data@[p - 2];
        let s = header_size(h);
        let pu = p as usize;
        if header_used(h) {
            self.heap_debug_info.allocations@.contains_key(pu)
                && self.heap_debug_info.allocations@[pu] as int == s
        } else if s == 3 {
            self.freelist_3@.contains(pu)
        } else if s == 8 {
            self.freelist_8@.contains(pu)
        } else if s == 38 {
            self.freelist_38@.contains(pu)
        } else if s == 158 {
            self.freelist_158@.contains(pu)
        } else if s == 638 {
            self.freelist_638@.contains(pu)
        } else {
            s > 638 && self.freelist_large@.contains(pu)
        }
    }

    /// The blocks tile `data` and each passes its check.
    pub open spec fn integrity_holds(&self) -> bool {
        exists|l: Seq<int>|
            blocks_tile(self.data@, l) && forall|i: int| 0 <= i < l.len() ==> self.block_checks(#[trigger] l[i])
    }

    /// Walks the blocks and checks each one; `true` when all is in order. It
    /// does not look for leaks: a block in use may be a static value.
    pub fn check_integrity(&self) -> (r: bool)
        requires
            0 < self.data@.len() < usize::MAX - 1,
        ensures
            r == self.integrity_holds(),
    {
        let d = &self.data;
        let len = d.len();
        let mut cursor: usize = 2;
        let ghost mut w: Seq<int> = Seq::empty();
        loop
            invariant
                len == self.data@.len(),
                d@ == self.data@,
                0 < len < usize::MAX - 1,
                2 <= cursor < len + 2,
                walk_prefix(self.data@, w, cursor as int),
                forall|i: int| 0 <= i < w.len() ==> self.block_checks(#[trigger] w[i]),
            decreases len + 2 - cursor,
        {
            let header = d[cursor - 2];
            let block_size = header & 0x7fff_ffff;
            proof {
                assert(header & 0x7fff_ffff == header % 0x8000_0000) by (bit_vector);
            }
            let is_used = header >= 0x8000_0000;
            if block_size == 0 {
                proof { lemma_walk_fails(*self, w, cursor as int); }
                return false;
            }
            let ok = if is_used {
                match self.heap_debug_info.allocations.get(&cursor) {
                    Some(s) => *s == block_size,
                    None => false,
                }
            } else if block_size == 3 {
                vec_contains(&self.freelist_3, cursor)
            } else if block_size == 8 {
                vec_contains(&self.freelist_8, cursor)
            } else if block_size == 38 {
                vec_contains(&self.freelist_38, cursor)
            } else if block_size == 158 {
                vec_contains(&self.freelist_158, cursor)
            } else if block_size == 638 {
                vec_contains(&self.freelist_638, cursor)
            } else {
                block_size > 638 && vec_contains(&self.freelist_large, cursor)
            };
            if !ok {
                proof { lemma_walk_fails(*self, w, cursor as int); }
                return false;
            }
            let next = match cursor.checked_add(block_size as usize + 2) {
                Some(n) => n,
                None => {
                    proof { lemma_walk_overshoots(*self, w, cursor as int); }
                    return false;
                },
            };
            let ghost w2 = w.push(cursor as int);
            proof {
                assert(w2[w2.len() - 1] == cursor);
                assert forall|i: int, j: int| 0 <= i && j == i + 1 && j < w2.len() implies #[trigger] w2[j] == block_next(self.data@, #[trigger] w2[i]) by {
                    if j < w.len() {
                        assert(w2[i] == w[i] && w2[j] == w[j]);
                    } else {
                        assert(w2[i] == w[i]);
                    }
                }
                assert(forall|i: int| 0 <= i < w.len() ==> #[trigger] w2[i] == w[i]);
            }
            if next >= len {
                if next == len + 2 {
                    proof {
                        assert forall|i: int| 0 <= i < w2.len() implies 2 <= #[trigger] w2[i] && crate::heap::layout::block_size(self.data@, w2[i]) > 0
                            && block_next(self.data@, w2[i]) <= self.data@.len() + 2 by {
                            if i + 1 < w2.len() {
                                assert(w2[i + 1] == block_next(self.data@, w2[i]));
                            }
                        }
                        assert(blocks_tile(self.data@, w2));
                        assert(forall|i: int| 0 <= i < w2.len() ==> self.block_checks(#[trigger] w2[i]));
                    }
                    return true;
                } else {
                    proof { lemma_walk_overshoots(*self, w, cursor as int); }
                    return false;
                }
            }
            proof {
                w = w2;
            }
            cursor = next;
        }
    }
}

/// Linear search.
fn vec_contains(v: &Vec<usize>, x: usize) -> (b: bool)
    ensures
        b == v@.contains(x),
{
    let mut i: usize = 0;
    while i < v.len()
        invariant
            0 <= i <= v@.len(),
            forall|t: int| 0 <= t < i ==> v@[t] != x,
        decreases v@.len() - i,
    {
        if v[i] == x {
            return true;
        }
        i = i + 1;
    }
    false
}

/// Any tiling starts with the blocks of a walk prefix, and has a block where the walk stands.
proof fn lemma_tile_follows_walk(d: Seq<u32>, l: Seq<int>, w: Seq<int>, cursor: int)
    requires
        blocks_tile(d, l),
        walk_prefix(d, w, cursor),
        cursor < d.len() + 2,
    ensures
        l.len() > w.len(),
        forall|i: int| 0 <= i < w.len() ==> #[trigger] l[i] == w[i],
        l[w.len() as int] == cursor,
    decreases w.len(),
{
    if w.len() == 0 {
    } else {
        let w0 = w.drop_last();
        let c0 = w[w.len() - 1];
        assert forall|i: int, j: int| 0 <= i && j == i + 1 && j < w0.len() implies #[trigger] w0[j] == block_next(d, #[trigger] w0[i]) by {
            assert(w0[i] == w[i] && w0[j] == w[j]);
        }
        if w0.len() > 0 {
            assert(w0[w0.len() - 1] == w[w.len() - 2]);
            assert(w[w.len() - 1] == block_next(d, w[w.len() - 2]));
        }
        assert(walk_prefix(d, w0, c0));
        lemma_tile_follows_walk(d, l, w0, c0);
        let k = w0.len() as int;
        assert(l[k] == c0);
        // the walk's block at k is not the last of the tiling: its end is before the end of `d`
        if l.len() == k + 1 {
            assert(block_next(d, l[k]) == d.len() + 2);
        }
        assert(l[k + 1] == block_next(d, l[k]));
        assert forall|i: int| 0 <= i < w.len() implies #[trigger] l[i] == w[i] by {
            if i < k {
                assert(w0[i] == w[i]);
            }
        }
    }
}

/// If the block where the walk stands fails its check, no tiling passes.
proof fn lemma_walk_fails(h: Heap, w: Seq<int>, cursor: int)
    requires
        walk_prefix(h.data@, w, cursor),
        2 <= cursor < h.data@.len() + 2,
        !(block_size(h.data@, cursor) > 0 && h.block_checks(cursor)),
    ensures
        !h.integrity_holds(),
{
    if h.integrity_holds() {
        let l = choose|l: Seq<int>|
            blocks_tile(h.data@, l) && forall|i: int| 0 <= i < l.len() ==> h.block_checks(#[trigger] l[i]);
        lemma_tile_follows_walk(h.data@, l, w, cursor);
        assert(h.block_checks(l[w.len() as int]));
    }
}

/// If the block where the walk stands ends anywhere but at the end of `data`
/// while reaching past the last possible block start, no tiling exists.
proof fn lemma_walk_overshoots(h: Heap, w: Seq<int>, cursor: int)
    requires
        walk_prefix(h.data@, w, cursor),
        2 <= cursor < h.data@.len() + 2,
        block_next(h.data@, cursor) >= h.data@.len(),
        block_next(h.data@, cursor) != h.data@.len() + 2,
    ensures
        !h.integrity_holds(),
{
    let d = h.data@;
    if h.integrity_holds() {
        let l = choose|l: Seq<int>|
            blocks_tile(d, l) && forall|i: int| 0 <= i < l.len() ==> h.block_checks(#[trigger] l[i]);
        lemma_tile_follows_walk(d, l, w, cursor);
        let k = w.len() as int;
        if l.len() > k + 1 {
            assert(l[k + 1] == block_next(d, l[k]));
            assert(block_size(d, l[k + 1]) > 0);
        }
    }
}

impl Heap {
    /// A well-formed heap with any data passes its self-check.
    pub proof fn lemma_wf_passes_integrity(&self)
        requires
            self.wf(),
            self.data@.len() > 0,
        ensures
            self.integrity_holds(),
    {
        let l = self.layout@;
        let d = self.data@;
        assert(tiled(d, l));
        lemma_lists_by_class(*self);
        assert forall|i: int| 0 <= i < l.len() implies self.block_checks(#[trigger] l[i]) by {
            assert(self.block_accounted(l[i]));
        }
        assert(blocks_tile(d, l));
    }
}

} // verus!
