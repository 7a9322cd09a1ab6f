//! Proofs that the heap's operations keep its invariant.
use crate::heap::layout::{
    block_next, block_size, header_size, header_used, lemma_mul_mono, lemma_mul_step, lemma_mul_strict,
    lemma_tiled_append_uniform, lemma_tiled_ordered_all, lemma_tiled_same_sizes, lemma_tiled_split,
    tiled, uniform_filled, uniform_headers, uniform_ptrs, used_bit, valid_block_size,
};
use crate::heap::{
    class_of, expand_count, free_list_holds, large_list_holds, parent_class, size_class, split_count, Heap,
};
use vstd::prelude::*;

verus! {

/// Transfers a free list to a larger layout whose old blocks keep their headers.
proof fn lemma_list_kept(
    d: Seq<u32>,
    l: Seq<int>,
    d2: Seq<u32>,
    l2: Seq<int>,
    fl: Seq<usize>,
)
    requires
        forall|t: int| 0 <= t < fl.len() ==> l.contains(#[trigger] fl[t] as int),
        forall|i: int| 0 <= i < l.len() ==> l2.contains(#[trigger] l[i]) && d2[l[i] - 2] == d[l[i] - 2],
    ensures
        forall|t: int|
            0 <= t < fl.len() ==> l2.contains(#[trigger] fl[t] as int) && d2[fl[t] - 2] == d[fl[t] - 2],
{
    assert forall|t: int| 0 <= t < fl.len() implies l2.contains(#[trigger] fl[t] as int) && d2[fl[t]
        - 2] == d[fl[t] - 2] by {
        let ia = choose|ia: int| 0 <= ia < l.len() && l[ia] == fl[t] as int;
        assert(l2.contains(l[ia]));
    }
}

/// Old blocks keep their headers and stay listed when blocks are appended.
proof fn lemma_appended_keeps_old(d: Seq<u32>, l: Seq<int>, d2: Seq<u32>, l2: Seq<int>, extra: Seq<int>)
    requires
        tiled(d, l),
        d2.len() >= d.len(),
        d2.take(d.len() as int) == d,
        l2 == l + extra,
    ensures
        forall|i: int| 0 <= i < l.len() ==> l2.contains(#[trigger] l[i]) && d2[l[i] - 2] == d[l[i] - 2],
        forall|i: int| 0 <= i < l.len() ==> #[trigger] l[i] <= d.len(),
{
    assert forall|i: int| 0 <= i < l.len() implies l2.contains(#[trigger] l[i]) && d2[l[i] - 2] == d[l[i] - 2] by {
        assert(l2[i] == l[i]);
        assert(d2.take(d.len() as int)[l[i] - 2] == d2[l[i] - 2]);
    }
}

/// The blocks appended by a uniform growth are free, of size `k`, and listed.
proof fn lemma_grow_new_blocks(h: Heap, h2: Heap, k: int, count: int)
    requires
        tiled(h.data@, h.layout@),
        k == 3 || k == 8 || k == 38 || k == 158 || k == 638,
        0 < count,
        h.grown_uniform(&h2, k, count),
        h2.layout@ == h.layout@ + uniform_ptrs(h.data@.len() as int, k, count),
    ensures
        tiled(h2.data@, h2.layout@),
        forall|t: int| 0 <= t < count ==> h2.layout@.contains(#[trigger] uniform_ptrs(h.data@.len() as int, k, count)[t])
            && h2.data@[uniform_ptrs(h.data@.len() as int, k, count)[t] - 2] as int == k
            && uniform_ptrs(h.data@.len() as int, k, count)[t] > h.data@.len(),
{
    let l = h.layout@;
    let d = h.data@;
    let n = d.len() as int;
    let news = uniform_ptrs(n, k, count);
    let b = h2.data@.skip(n);
    let l2 = h2.layout@;
    let d2 = h2.data@;
    assert(d2 =~= d + b);
    lemma_tiled_append_uniform(d, l, b, k, count);
    assert forall|t: int| 0 <= t < count implies l2.contains(#[trigger] news[t]) && d2[news[t] - 2] as int == k
        && news[t] > n by {
        assert(l2[l.len() + t] == news[t]);
        lemma_mul_mono(0, t, k + 2);
        lemma_mul_strict(t, count, k + 2);
        assert(d2[news[t] - 2] == b[t * (k + 2)]);
    }
}

/// The free list that grows by a uniform growth still holds.
proof fn lemma_grow_list(h: Heap, h2: Heap, k: int, count: int)
    requires
        tiled(h.data@, h.layout@),
        free_list_holds(h.data@, h.layout@, h.free_list(k), k),
        k == 3 || k == 8 || k == 38 || k == 158 || k == 638,
        0 < count,
        h.grown_uniform(&h2, k, count),
        h2.layout@ == h.layout@ + uniform_ptrs(h.data@.len() as int, k, count),
        forall|t: int| 0 <= t < count ==> h2.layout@.contains(#[trigger] uniform_ptrs(h.data@.len() as int, k, count)[t])
            && h2.data@[uniform_ptrs(h.data@.len() as int, k, count)[t] - 2] as int == k
            && uniform_ptrs(h.data@.len() as int, k, count)[t] > h.data@.len(),
    ensures
        free_list_holds(h2.data@, h2.layout@, h2.free_list(k), k),
{
    let l = h.layout@;
    let d = h.data@;
    let n = d.len() as int;
    let news = uniform_ptrs(n, k, count);
    let l2 = h2.layout@;
    let d2 = h2.data@;
    let old_fl = h.free_list(k);
    let fl = h2.free_list(k);
    lemma_appended_keeps_old(d, l, d2, l2, news);
    lemma_list_kept(d, l, d2, l2, old_fl);
    assert(forall|t: int| 0 <= t < old_fl.len() ==> #[trigger] fl[t] == old_fl[t]) by {
        assert forall|t: int| 0 <= t < old_fl.len() implies #[trigger] fl[t] == old_fl[t] by {
            assert(fl.take(old_fl.len() as int)[t] == fl[t]);
        }
    }
    assert forall|t: int| 0 <= t < fl.len() implies l2.contains(#[trigger] fl[t] as int) && d2[fl[t] - 2] as int == k by {
        if t >= old_fl.len() {
            assert(fl[old_fl.len() + (t - old_fl.len())] as int == news[t - old_fl.len()]);
        } else {
            assert(fl[t] == old_fl[t]);
        }
    }
    assert(fl.no_duplicates()) by {
        assert forall|a: int, c: int| 0 <= a < c < fl.len() implies fl[a] != fl[c] by {
            if c >= old_fl.len() {
                let tc = c - old_fl.len();
                assert(fl[old_fl.len() + tc] as int == news[tc]);
                if a >= old_fl.len() {
                    let ta = a - old_fl.len();
                    assert(fl[old_fl.len() + ta] as int == news[ta]);
                    lemma_mul_strict(ta, tc, k + 2);
                } else {
                    assert(fl[a] == old_fl[a]);
                    assert(l.contains(old_fl[a] as int));
                    let ia = choose|ia: int| 0 <= ia < l.len() && l[ia] == old_fl[a] as int;
                    assert(l[ia] <= n);
                }
            } else {
                assert(fl[a] == old_fl[a] && fl[c] == old_fl[c]);
            }
        }
    }
}

/// Appending uniform free blocks keeps the heap well-formed.
pub(crate) proof fn lemma_grow_keeps_wf(h: Heap, h2: Heap, k: int, count: int)
    requires
        h.wf(),
        k == 3 || k == 8 || k == 38 || k == 158 || k == 638,
        0 < count,
        h.grown_uniform(&h2, k, count),
        h2.layout@ == h.layout@ + uniform_ptrs(h.data@.len() as int, k, count),
        h2.data@.len() <= usize::MAX,
    ensures
        h2.wf(),
{
    let l = h.layout@;
    let d = h.data@;
    let n = d.len() as int;
    let news = uniform_ptrs(n, k, count);
    let l2 = h2.layout@;
    let d2 = h2.data@;
    lemma_grow_new_blocks(h, h2, k, count);
    lemma_appended_keeps_old(d, l, d2, l2, news);
    assert(h.free_list(3) == h.freelist_3@);
    assert(h.free_list(8) == h.freelist_8@);
    assert(h.free_list(38) == h.freelist_38@);
    assert(h.free_list(158) == h.freelist_158@);
    assert(h.free_list(638) == h.freelist_638@);
    assert(h.free_list(0) == h.freelist_large@);
    lemma_grow_list(h, h2, k, count);
    lemma_grow_others(h, h2, k, count);
    lemma_grow_accounted(h, h2, k, count);
}

proof fn lemma_grow_others(h: Heap, h2: Heap, k: int, count: int)
    requires
        h.wf(),
        k == 3 || k == 8 || k == 38 || k == 158 || k == 638,
        0 < count,
        h.grown_uniform(&h2, k, count),
        h2.layout@ == h.layout@ + uniform_ptrs(h.data@.len() as int, k, count),
        free_list_holds(h2.data@, h2.layout@, h2.free_list(k), k),
    ensures
        free_list_holds(h2.data@, h2.layout@, h2.freelist_3@, 3),
        free_list_holds(h2.data@, h2.layout@, h2.freelist_8@, 8),
        free_list_holds(h2.data@, h2.layout@, h2.freelist_38@, 38),
        free_list_holds(h2.data@, h2.layout@, h2.freelist_158@, 158),
        free_list_holds(h2.data@, h2.layout@, h2.freelist_638@, 638),
        large_list_holds(h2.data@, h2.layout@, h2.freelist_large@),
{
    let l = h.layout@;
    let d = h.data@;
    let l2 = h2.layout@;
    let d2 = h2.data@;
    lemma_appended_keeps_old(d, l, d2, l2, uniform_ptrs(d.len() as int, k, count));
    lemma_list_kept(d, l, d2, l2, h.freelist_3@);
    lemma_list_kept(d, l, d2, l2, h.freelist_8@);
    lemma_list_kept(d, l, d2, l2, h.freelist_38@);
    lemma_list_kept(d, l, d2, l2, h.freelist_158@);
    lemma_list_kept(d, l, d2, l2, h.freelist_638@);
    lemma_list_kept(d, l, d2, l2, h.freelist_large@);
    assert(h2.free_list(3) == h2.freelist_3@);
    assert(h2.free_list(8) == h2.freelist_8@);
    assert(h2.free_list(38) == h2.freelist_38@);
    assert(h2.free_list(158) == h2.freelist_158@);
    assert(h2.free_list(638) == h2.freelist_638@);
    assert(h2.free_list(0) == h2.freelist_large@);
    assert(h.free_list(3) == h.freelist_3@);
    assert(h.free_list(8) == h.freelist_8@);
    assert(h.free_list(38) == h.freelist_38@);
    assert(h.free_list(158) == h.freelist_158@);
    assert(h.free_list(638) == h.freelist_638@);
    assert(h.free_list(0) == h.freelist_large@);
    assert(h2.free_list(0) == h.free_list(0));
}

proof fn lemma_grow_accounted(h: Heap, h2: Heap, k: int, count: int)
    requires
        h.wf(),
        k == 3 || k == 8 || k == 38 || k == 158 || k == 638,
        0 < count,
        h.grown_uniform(&h2, k, count),
        h2.layout@ == h.layout@ + uniform_ptrs(h.data@.len() as int, k, count),
        forall|t: int| 0 <= t < count ==> h2.layout@.contains(#[trigger] uniform_ptrs(h.data@.len() as int, k, count)[t])
            && h2.data@[uniform_ptrs(h.data@.len() as int, k, count)[t] - 2] as int == k
            && uniform_ptrs(h.data@.len() as int, k, count)[t] > h.data@.len(),
    ensures
        forall|i: int| 0 <= i < h2.layout@.len() ==> h2.block_accounted(#[trigger] h2.layout@[i]),
        forall|p: usize| h2.heap_debug_info.allocations@.contains_key(p) ==> h2.layout@.contains(p as int),
{
    let l = h.layout@;
    let d = h.data@;
    let n = d.len() as int;
    let news = uniform_ptrs(n, k, count);
    let l2 = h2.layout@;
    let d2 = h2.data@;
    let old_fl = h.free_list(k);
    let fl = h2.free_list(k);
    lemma_appended_keeps_old(d, l, d2, l2, news);
    assert(forall|t: int| 0 <= t < old_fl.len() ==> #[trigger] fl[t] == old_fl[t]) by {
        assert forall|t: int| 0 <= t < old_fl.len() implies #[trigger] fl[t] == old_fl[t] by {
            assert(fl.take(old_fl.len() as int)[t] == fl[t]);
        }
    }
    assert(forall|k2: int| k2 != k && (k2 == 3 || k2 == 8 || k2 == 38 || k2 == 158 || k2 == 638 || k2 == 0)
            ==> #[trigger] h2.free_list(k2) == h.free_list(k2));
    assert forall|i: int| 0 <= i < l2.len() implies h2.block_accounted(#[trigger] l2[i]) by {
        if i < l.len() {
            assert(l2[i] == l[i]);
            assert(h.block_accounted(l[i]));
            let p = l[i];
            assert(d2[p - 2] == d[p - 2]);
            lemma_lists_by_class(h);
            lemma_lists_by_class(h2);
            if d[p - 2] as int == k {
                assert(old_fl.contains(p as usize));
                let w = choose|w: int| 0 <= w < old_fl.len() && old_fl[w] == p as usize;
                assert(fl[w] == p as usize);
                assert(fl.contains(p as usize));
            }
        } else {
            let tt = i - l.len();
            let p = news[tt];
            assert(l2[i] == p);
            assert(fl[old_fl.len() + tt] as int == p);
            assert(fl.contains(p as usize));
            let q = fl[old_fl.len() + tt];
            assert(q as int == p);
            assert(!h2.heap_debug_info.allocations@.contains_key(q)) by {
                if h2.heap_debug_info.allocations@.contains_key(q) {
                    assert(h.heap_debug_info.allocations@.contains_key(q));
                    assert(l.contains(q as int));
                    let ia = choose|ia: int| 0 <= ia < l.len() && l[ia] == q as int;
                    assert(l[ia] <= n);
                }
            }
            lemma_lists_by_class(h2);
        }
    }
    assert forall|p: usize| h2.heap_debug_info.allocations@.contains_key(p) implies l2.contains(p as int) by {
        assert(h.heap_debug_info.allocations@.contains_key(p));
        assert(l.contains(p as int));
        let ia = choose|ia: int| 0 <= ia < l.len() && l[ia] == p as int;
        assert(l2[ia] == l[ia]);
    }
}

/// Appending one large free block keeps the heap well-formed.
pub(crate) proof fn lemma_grow_large_keeps_wf(h: Heap, h2: Heap, size: usize)
    requires
        h.wf(),
        638 < size < 0x8000_0000,
        h.data@.len() + size + 4 <= usize::MAX,
        h.grown_large(&h2, size),
        h2.layout@ == h.layout@.push(h.data@.len() + 2int),
    ensures
        h2.wf(),
{
    let l = h.layout@;
    let d = h.data@;
    let n = d.len() as int;
    let k = size as int;
    let l2 = h2.layout@;
    let d2 = h2.data@;
    let b = d2.skip(n);
    assert(d2 =~= d + b);
    assert(uniform_filled(b, k, 1)) by {
        assert(b.len() == 1 * (k + 2));
        assert forall|t: int| 0 <= t < 1 implies #[trigger] b[t * (k + 2)] as int == k by {
            assert(t == 0);
            assert(b[0] == d2[n]);
        }
        assert forall|t: int, r: int| 0 <= t < 1 && 1 <= r < k + 2 implies #[trigger] b[t * (k + 2) + r] == 0 by {
            assert(t == 0);
            assert(b[r] == d2[n + r]);
        }
    }
    lemma_tiled_append_uniform(d, l, b, k, 1);
    assert(uniform_ptrs(n, k, 1) =~= seq![n + 2]);
    assert(l2 =~= l + uniform_ptrs(n, k, 1));
    lemma_appended_keeps_old(d, l, d2, l2, seq![n + 2]);
    assert(l2[l.len() as int] == n + 2);
    assert(d2[n] as int == k);
    lemma_list_kept(d, l, d2, l2, h.freelist_3@);
    lemma_list_kept(d, l, d2, l2, h.freelist_8@);
    lemma_list_kept(d, l, d2, l2, h.freelist_38@);
    lemma_list_kept(d, l, d2, l2, h.freelist_158@);
    lemma_list_kept(d, l, d2, l2, h.freelist_638@);
    lemma_list_kept(d, l, d2, l2, h.freelist_large@);
    let fl = h2.freelist_large@;
    let ofl = h.freelist_large@;
    let q = (n + 2) as usize;
    assert(q as int == n + 2);
    assert(l2.contains(q as int));
    assert forall|t: int| 0 <= t < fl.len() implies l2.contains(#[trigger] fl[t] as int) && 638 < d2[fl[t] - 2] as int
        && (d2[fl[t] - 2] as int) < used_bit() by {
        if t == ofl.len() {
            assert(fl[t] == q);
        } else {
            assert(fl[t] == ofl[t]);
        }
    }
    assert(fl.no_duplicates()) by {
        assert forall|a: int, c: int| 0 <= a < c < fl.len() implies fl[a] != fl[c] by {
            if c == ofl.len() {
                assert(fl[a] == ofl[a]);
                let ia = choose|ia: int| 0 <= ia < l.len() && l[ia] == ofl[a] as int;
                assert(l[ia] <= n);
            } else {
                assert(fl[a] == ofl[a] && fl[c] == ofl[c]);
            }
        }
    }
    assert forall|i: int| 0 <= i < l2.len() implies h2.block_accounted(#[trigger] l2[i]) by {
        if i < l.len() {
            assert(l2[i] == l[i]);
            assert(h.block_accounted(l[i]));
            let p = l[i];
            assert(d2[p - 2] == d[p - 2]);
            if 638 < d[p - 2] < used_bit() {
                let w = choose|w: int| 0 <= w < ofl.len() && ofl[w] == p as usize;
                assert(fl[w] == p as usize);
            }
        } else {
            assert(l2[i] == n + 2);
            assert(fl[ofl.len() as int] == q);
            assert(!h2.heap_debug_info.allocations@.contains_key(q)) by {
                if h2.heap_debug_info.allocations@.contains_key(q) {
                    assert(h.heap_debug_info.allocations@.contains_key(q));
                    assert(l.contains(q as int));
                    let ia = choose|ia: int| 0 <= ia < l.len() && l[ia] == q as int;
                    assert(l[ia] <= n);
                }
            }
        }
    }
    assert forall|p: usize| h2.heap_debug_info.allocations@.contains_key(p) implies l2.contains(p as int) by {
        assert(h.heap_debug_info.allocations@.contains_key(p));
        assert(l.contains(p as int));
        let ia = choose|ia: int| 0 <= ia < l.len() && l[ia] == p as int;
        assert(l2[ia] == l[ia]);
    }
}

/// Writing inside one block (header included) leaves every other block as it was.
pub(crate) proof fn lemma_block_local_change(d: Seq<u32>, d2: Seq<u32>, l: Seq<int>, ia: int)
    requires
        tiled(d, l),
        0 <= ia < l.len(),
        d2.len() == d.len(),
        forall|j: int|
            0 <= j < d.len() && d2[j] != d[j] ==> l[ia] - 2 <= j < l[ia] + block_size(d, l[ia]),
    ensures
        forall|i: int, j: int|
            0 <= i < l.len() && i != ia && #[trigger] l[i] - 2 <= j < l[i] + block_size(d, l[i])
                ==> #[trigger] d2[j] == d[j],
{
    lemma_tiled_ordered_all(d, l);
    assert forall|i: int, j: int|
        0 <= i < l.len() && i != ia && #[trigger] l[i] - 2 <= j < l[i] + block_size(d, l[i]) implies #[trigger] d2[j]
        == d[j] by {
        if d2[j] != d[j] {
            if i < ia {
                assert(block_next(d, l[i]) <= l[ia]);
            } else {
                assert(block_next(d, l[ia]) <= l[i]);
            }
        }
    }
}

/// Listed pointers are the data pointers of distinct, ordered blocks.
pub(crate) proof fn lemma_index_of(l: Seq<int>, p: int) -> (ia: int)
    requires
        l.contains(p),
    ensures
        0 <= ia < l.len(),
        l[ia] == p,
{
    choose|ia: int| 0 <= ia < l.len() && l[ia] == p
}


/// The facts about putting the last block of a free list to use that the rest
/// of the proof builds on.
proof fn lemma_use_basics(h: Heap, h2: Heap, c: int) -> (ia: int)
    requires
        h.wf(),
        c == 3 || c == 8 || c == 38 || c == 158 || c == 638 || c == 0,
        h.used_from_list(&h2, c),
    ensures
        0 <= ia < h.layout@.len(),
        h.layout@[ia] == h.free_list(c).last() as int,
        !header_used(h.data@[h.free_list(c).last() - 2]),
        tiled(h2.data@, h2.layout@),
        forall|q: int| h.layout@.contains(q) && q != h.free_list(c).last() ==> #[trigger] h2.data@[q - 2] == h.data@[q - 2],
        forall|i: int, j: int|
            0 <= i < h.layout@.len() && i != ia && #[trigger] h.layout@[i] - 2 <= j < h.layout@[i] + block_size(h.data@, h.layout@[i])
                ==> #[trigger] h2.data@[j] == h.data@[j],
{
    let l = h.layout@;
    let d = h.data@;
    let d2 = h2.data@;
    let fl = h.free_list(c);
    let p = fl.last();
    lemma_lists_by_class(h);
    assert(l.contains(fl[fl.len() - 1] as int));
    let ia = lemma_index_of(l, p as int);
    let hp = d[p - 2];
    assert(header_size((hp + used_bit()) as u32) == header_size(hp));
    lemma_block_local_change(d, d2, l, ia);
    assert forall|i: int| 0 <= i < l.len() implies block_size(d2, #[trigger] l[i]) == block_size(d, l[i]) by {
        if i != ia {
            assert(d2[l[i] - 2] == d[l[i] - 2]);
        }
    }
    lemma_tiled_same_sizes(d, d2, l);
    assert forall|q: int| l.contains(q) && q != p implies #[trigger] d2[q - 2] == d[q - 2] by {
        let iq = lemma_index_of(l, q);
        assert(d2[l[iq] - 2] == d[l[iq] - 2]);
    }
    ia
}

/// Putting the last block of a free list to use keeps the heap well-formed and
/// touches no live block.
pub(crate) proof fn lemma_use_keeps_wf(h: Heap, h2: Heap, c: int)
    requires
        h.wf(),
        c == 3 || c == 8 || c == 38 || c == 158 || c == 638 || c == 0,
        h.used_from_list(&h2, c),
    ensures
        h2.wf(),
        h.live_blocks_kept(&h2),
{
    let ia = lemma_use_basics(h, h2, c);
    lemma_list_after_use(h, h2, c, 3);
    lemma_list_after_use(h, h2, c, 8);
    lemma_list_after_use(h, h2, c, 38);
    lemma_list_after_use(h, h2, c, 158);
    lemma_list_after_use(h, h2, c, 638);
    lemma_list_after_use(h, h2, c, 0);
    lemma_lists_by_class(h2);
    lemma_accounted_after_use(h, h2, c);
    lemma_live_after_use(h, h2, c, ia);
}

proof fn lemma_accounted_after_use(h: Heap, h2: Heap, c: int)
    requires
        h.wf(),
        c == 3 || c == 8 || c == 38 || c == 158 || c == 638 || c == 0,
        h.used_from_list(&h2, c),
        !header_used(h.data@[h.free_list(c).last() - 2]),
        forall|q: int| h.layout@.contains(q) && q != h.free_list(c).last() ==> #[trigger] h2.data@[q - 2] == h.data@[q - 2],
    ensures
        forall|i: int| 0 <= i < h2.layout@.len() ==> h2.block_accounted(#[trigger] h2.layout@[i]),
        forall|q: usize| h2.heap_debug_info.allocations@.contains_key(q) ==> h2.layout@.contains(q as int),
{
    let l = h.layout@;
    let d = h.data@;
    let d2 = h2.data@;
    let fl = h.free_list(c);
    let p = fl.last();
    lemma_lists_by_class(h);
    lemma_lists_by_class(h2);
    assert(l.contains(fl[fl.len() - 1] as int));
    assert forall|i: int| 0 <= i < l.len() implies h2.block_accounted(#[trigger] l[i]) by {
        let q = l[i];
        assert(h.block_accounted(q));
        if q == p as int {
            assert(header_used(d2[q - 2]));
        } else {
            assert(d2[q - 2] == d[q - 2]);
            assert(0 <= q <= usize::MAX);
            assert((q as usize) != p);
            let hq = d[q - 2];
            let cq = if hq == 3 { 3 } else if hq == 8 { 8 } else if hq == 38 { 38 } else if hq == 158 { 158 }
                else if hq == 638 { 638 } else { 0 };
            if !header_used(hq) {
                assert(h.free_list(cq).contains(q as usize));
                let w = choose|w: int| 0 <= w < h.free_list(cq).len() && h.free_list(cq)[w] == q as usize;
                if cq == c {
                    assert(w != fl.len() - 1);
                    assert(h2.free_list(cq)[w] == q as usize);
                } else {
                    assert(h2.free_list(cq) == h.free_list(cq));
                }
            }
        }
    }
    assert forall|q: usize| h2.heap_debug_info.allocations@.contains_key(q) implies l.contains(q as int) by {
        if q != p {
            assert(h.heap_debug_info.allocations@.contains_key(q));
        }
    }
}

proof fn lemma_live_after_use(h: Heap, h2: Heap, c: int, ia: int)
    requires
        h.wf(),
        c == 3 || c == 8 || c == 38 || c == 158 || c == 638 || c == 0,
        h.used_from_list(&h2, c),
        0 <= ia < h.layout@.len(),
        h.layout@[ia] == h.free_list(c).last() as int,
        !header_used(h.data@[h.free_list(c).last() - 2]),
        forall|i: int, j: int|
            0 <= i < h.layout@.len() && i != ia && #[trigger] h.layout@[i] - 2 <= j < h.layout@[i] + block_size(h.data@, h.layout@[i])
                ==> #[trigger] h2.data@[j] == h.data@[j],
    ensures
        h.live_blocks_kept(&h2),
{
    let l = h.layout@;
    let d = h.data@;
    let p = h.free_list(c).last();
    assert forall|q: usize|
        #![trigger h.heap_debug_info.allocations@.contains_key(q)]
        h.heap_debug_info.allocations@.contains_key(q) implies {
            &&& h2.heap_debug_info.allocations@.contains_key(q)
            &&& h2.heap_debug_info.allocations@[q] == h.heap_debug_info.allocations@[q]
            &&& forall|j: int|
                q - 2 <= j < q + h.heap_debug_info.allocations@[q] ==> #[trigger] h2.data@[j] == h.data@[j]
        } by {
        assert(l.contains(q as int));
        let iq = lemma_index_of(l, q as int);
        assert(h.block_accounted(l[iq]));
        assert(q != p);
        assert(iq != ia);
        assert forall|j: int| q - 2 <= j < q + h.heap_debug_info.allocations@[q] implies #[trigger] h2.data@[j] == h.data@[j] by {
            assert(l[iq] - 2 <= j < l[iq] + block_size(d, l[iq]));
        }
    }
}

/// After a block is put to use, each free list still holds.
proof fn lemma_list_after_use(h: Heap, h2: Heap, c: int, c2: int)
    requires
        h.wf(),
        c == 3 || c == 8 || c == 38 || c == 158 || c == 638 || c == 0,
        c2 == 3 || c2 == 8 || c2 == 38 || c2 == 158 || c2 == 638 || c2 == 0,
        h.used_from_list(&h2, c),
        forall|q: int| h.layout@.contains(q) && q != h.free_list(c).last() ==> #[trigger] h2.data@[q - 2] == h.data@[q - 2],
    ensures
        c2 != 0 ==> free_list_holds(h2.data@, h2.layout@, h2.free_list(c2), c2),
        c2 == 0 ==> large_list_holds(h2.data@, h2.layout@, h2.free_list(c2)),
{
    let l = h.layout@;
    let fl = h.free_list(c);
    let p = fl.last();
    lemma_lists_by_class(h);
    lemma_lists_by_class(h2);
    let f = h.free_list(c2);
    let f2 = h2.free_list(c2);
    if c2 == c {
        assert(f2 =~= f.drop_last());
        assert forall|t: int| 0 <= t < f2.len() implies #[trigger] f2[t] != p by {
            assert(f2[t] == f[t]);
            assert(f[f.len() - 1] == p);
        }
    } else {
        assert(f2 == f);
        assert forall|t: int| 0 <= t < f2.len() implies #[trigger] f2[t] != p by {
            assert(f[fl.len() - 1] != f[t] || true);
            assert(l.contains(f2[t] as int));
            assert(fl[fl.len() - 1] == p);
            // p has the header of class c, f2[t] that of class c2
        }
    }
    assert forall|t: int| 0 <= t < f2.len() implies h2.data@[f2[t] - 2] == h.data@[f2[t] - 2] by {
        assert(f2[t] != p);
        if c2 == c {
            assert(f2[t] == f[t]);
        }
        assert(l.contains(f2[t] as int));
    }
}

/// The layout after the block at index `ia` is cut into `count` blocks of `k` data scalars.
pub open spec fn split_layout(l: Seq<int>, ia: int, k: int, count: int) -> Seq<int> {
    l.take(ia) + uniform_ptrs(l[ia] - 2, k, count) + l.skip(ia + 1)
}

/// The sizes that a free block is cut into, and the number of pieces.
pub open spec fn split_shape(big: int, k: int, count: int) -> bool {
    ||| big == 8 && k == 3 && count == 2
    ||| big == 38 && k == 8 && count == 4
    ||| big == 158 && k == 38 && count == 4
    ||| big == 638 && k == 158 && count == 4
}

/// The basic facts about a split: the new layout is tiled, the pieces have the
/// right headers, and nothing outside the cut block changed.
proof fn lemma_split_basics(h: Heap, h2: Heap, big: int, k: int, count: int, ia: int)
    requires
        h.wf(),
        split_shape(big, k, count),
        h.split_from_list(&h2, big, k, count),
        0 <= ia < h.layout@.len(),
        h.layout@[ia] == h.free_list(big).last() as int,
        h2.layout@ == split_layout(h.layout@, ia, k, count),
    ensures
        tiled(h2.data@, h2.layout@),
        h.data@[h.layout@[ia] - 2] as int == big,
        forall|i: int| 0 <= i < h.layout@.len() && i != ia ==> #[trigger] h2.data@[h.layout@[i] - 2] == h.data@[h.layout@[i] - 2],
        forall|i: int, j: int|
            0 <= i < h.layout@.len() && i != ia && #[trigger] h.layout@[i] - 2 <= j < h.layout@[i] + block_size(h.data@, h.layout@[i])
                ==> #[trigger] h2.data@[j] == h.data@[j],
        forall|t: int| 0 <= t < count ==> h.layout@[ia] <= #[trigger] uniform_ptrs(h.layout@[ia] - 2, k, count)[t] <= h.layout@[ia] + big,
        forall|i: int| 0 <= i < h.layout@.len() && i < ia ==> #[trigger] h.layout@[i] < h.layout@[ia],
        forall|i: int| 0 <= i < h.layout@.len() && i > ia ==> #[trigger] h.layout@[i] > h.layout@[ia] + big,
{
    let l = h.layout@;
    let d = h.data@;
    let d2 = h2.data@;
    let fl = h.free_list(big);
    let p = l[ia];
    let ptrs = uniform_ptrs(p - 2, k, count);
    lemma_lists_by_class(h);
    assert(fl.contains(fl[fl.len() - 1]));
    assert(d[p - 2] as int == big) by {
        assert(l.contains(fl[fl.len() - 1] as int) && d[fl[fl.len() - 1] - 2] as int == big);
    }
    assert(block_size(d, p) + 2 == count * (k + 2)) by {
        if big == 8 {
            assert(count * (k + 2) == 2 * 5);
        } else if big == 38 {
            assert(count * (k + 2) == 4 * 10);
        } else if big == 158 {
            assert(count * (k + 2) == 4 * 40);
        } else {
            assert(count * (k + 2) == 4 * 160);
        }
    }
    assert forall|t: int| 0 <= t < count implies header_size(#[trigger] d2[p - 2 + t * (k + 2)]) == k by {
        assert(ptrs[t] - 2 == p - 2 + t * (k + 2));
        if t == 0 {
            assert(d2[ptrs[0] - 2] as int == used_bit() + k);
        } else {
            assert(d2[ptrs[t] - 2] as int == k);
        }
    }
    assert forall|j: int| 0 <= j < d.len() && d2[j] != d[j] implies exists|t: int|
        0 <= t < count && j == #[trigger] (p - 2 + t * (k + 2)) by {
        let t = choose|t: int| 0 <= t < count && j == #[trigger] ptrs[t] - 2;
        assert(j == p - 2 + t * (k + 2));
    }
    lemma_tiled_split(d, d2, l, ia, k, count);
    assert forall|j: int| 0 <= j < d.len() && d2[j] != d[j] implies p - 2 <= j < p + block_size(d, p) by {
        let t = choose|t: int| 0 <= t < count && j == #[trigger] ptrs[t] - 2;
        lemma_mul_mono(0, t, k + 2);
        lemma_mul_strict(t, count, k + 2);
    }
    lemma_block_local_change(d, d2, l, ia);
    assert forall|i: int| 0 <= i < l.len() && i != ia implies #[trigger] d2[l[i] - 2] == d[l[i] - 2] by {
        assert(l[i] - 2 <= l[i] - 2 < l[i] + block_size(d, l[i]));
    }
    assert forall|t: int| 0 <= t < count implies p <= #[trigger] ptrs[t] <= p + big by {
        lemma_mul_mono(0, t, k + 2);
        lemma_mul_strict(t, count, k + 2);
    }
    lemma_tiled_ordered_all(d, l);
    assert forall|i: int| 0 <= i < l.len() && i < ia implies #[trigger] l[i] < p by {
        assert(block_next(d, l[i]) <= p);
    }
    assert forall|i: int| 0 <= i < l.len() && i > ia implies #[trigger] l[i] > p + big by {
        assert(block_next(d, p) <= l[i]);
    }
}

/// Cutting the last block of a free list keeps the heap well-formed and
/// touches no live block.
pub(crate) proof fn lemma_split_keeps_wf(h: Heap, h2: Heap, big: int, k: int, count: int, ia: int)
    requires
        h.wf(),
        split_shape(big, k, count),
        h.split_from_list(&h2, big, k, count),
        0 <= ia < h.layout@.len(),
        h.layout@[ia] == h.free_list(big).last() as int,
        h2.layout@ == split_layout(h.layout@, ia, k, count),
    ensures
        h2.wf(),
        h.live_blocks_kept(&h2),
{
    lemma_split_basics(h, h2, big, k, count, ia);
    lemma_split_membership(h, h2, big, k, count, ia);
    lemma_split_list(h, h2, big, k, count, ia, 3);
    lemma_split_list(h, h2, big, k, count, ia, 8);
    lemma_split_list(h, h2, big, k, count, ia, 38);
    lemma_split_list(h, h2, big, k, count, ia, 158);
    lemma_split_list(h, h2, big, k, count, ia, 638);
    lemma_split_list(h, h2, big, k, count, ia, 0);
    lemma_lists_by_class(h2);
    lemma_split_accounted(h, h2, big, k, count, ia);
    lemma_split_live(h, h2, big, k, count, ia);
}

/// Which pointers the new layout lists.
proof fn lemma_split_membership(h: Heap, h2: Heap, big: int, k: int, count: int, ia: int)
    requires
        h.wf(),
        split_shape(big, k, count),
        0 <= ia < h.layout@.len(),
        h2.layout@ == split_layout(h.layout@, ia, k, count),
    ensures
        forall|i: int| 0 <= i < h.layout@.len() && i != ia ==> h2.layout@.contains(#[trigger] h.layout@[i]),
        forall|t: int| 0 <= t < count ==> h2.layout@.contains(#[trigger] uniform_ptrs(h.layout@[ia] - 2, k, count)[t]),
{
    let l = h.layout@;
    let l2 = h2.layout@;
    let ptrs = uniform_ptrs(l[ia] - 2, k, count);
    assert forall|i: int| 0 <= i < l.len() && i != ia implies l2.contains(#[trigger] l[i]) by {
        if i < ia {
            assert(l2[i] == l[i]);
        } else {
            assert(l2[i + count - 1] == l[i]);
        }
    }
    assert forall|t: int| 0 <= t < count implies l2.contains(#[trigger] ptrs[t]) by {
        assert(l2[ia + t] == ptrs[t]);
    }
}

/// After a split, each free list still holds.
proof fn lemma_split_list(h: Heap, h2: Heap, big: int, k: int, count: int, ia: int, c2: int)
    requires
        h.wf(),
        split_shape(big, k, count),
        h.split_from_list(&h2, big, k, count),
        0 <= ia < h.layout@.len(),
        h.layout@[ia] == h.free_list(big).last() as int,
        c2 == 3 || c2 == 8 || c2 == 38 || c2 == 158 || c2 == 638 || c2 == 0,
        forall|i: int| 0 <= i < h.layout@.len() && i != ia ==> #[trigger] h2.data@[h.layout@[i] - 2] == h.data@[h.layout@[i] - 2],
        forall|i: int| 0 <= i < h.layout@.len() && i != ia ==> h2.layout@.contains(#[trigger] h.layout@[i]),
        forall|t: int| 0 <= t < count ==> h2.layout@.contains(#[trigger] uniform_ptrs(h.layout@[ia] - 2, k, count)[t]),
        forall|t: int| 0 <= t < count ==> h.layout@[ia] <= #[trigger] uniform_ptrs(h.layout@[ia] - 2, k, count)[t] <= h.layout@[ia] + big,
        forall|i: int| 0 <= i < h.layout@.len() && i < ia ==> #[trigger] h.layout@[i] < h.layout@[ia],
        forall|i: int| 0 <= i < h.layout@.len() && i > ia ==> #[trigger] h.layout@[i] > h.layout@[ia] + big,
    ensures
        c2 != 0 ==> free_list_holds(h2.data@, h2.layout@, h2.free_list(c2), c2),
        c2 == 0 ==> large_list_holds(h2.data@, h2.layout@, h2.free_list(c2)),
{
    let l = h.layout@;
    let fl = h.free_list(big);
    let p = l[ia];
    let ptrs = uniform_ptrs(p - 2, k, count);
    lemma_lists_by_class(h);
    lemma_lists_by_class(h2);
    let f = h.free_list(c2);
    let f2 = h2.free_list(c2);
    // an old entry of a list that is still there names a block other than the cut one
    assert forall|t: int| 0 <= t < f.len() && f[t] as int != p implies h2.layout@.contains(#[trigger] f[t] as int)
        && h2.data@[f[t] - 2] == h.data@[f[t] - 2] && (f[t] < p || f[t] > p + big) by {
        let it = lemma_index_of(l, f[t] as int);
        assert(it != ia);
    }
    if c2 == big {
        assert(f2 =~= f.drop_last());
        assert forall|t: int| 0 <= t < f2.len() implies #[trigger] f2[t] as int != p by {
            assert(f2[t] == f[t]);
            assert(f[f.len() - 1] as int == p);
        }
        assert forall|t: int| 0 <= t < f2.len() implies h2.layout@.contains(#[trigger] f2[t] as int) && (h2.data@[f2[t] - 2] == h.data@[f2[t] - 2]) by {
            assert(f2[t] == f[t]);
        }
    } else if c2 == k {
        let n0 = f.len() as int;
        assert forall|t: int| 0 <= t < n0 implies #[trigger] f2[t] == f[t] by {
            assert(f2.take(n0)[t] == f2[t]);
        }
        // no old entry of the list of k is the cut block: that block has size big
        assert forall|t: int| 0 <= t < n0 implies #[trigger] f[t] as int != p by {
            assert(h.data@[p - 2] as int == big);
        }
        assert forall|t: int| 0 <= t < f2.len() implies h2.layout@.contains(#[trigger] f2[t] as int) && h2.data@[f2[t] - 2] as int == k by {
            if t >= n0 {
                let u = t - n0 + 1;
                assert(f2[n0 + u - 1] as int == ptrs[u]);
            } else {
                assert(f2[t] == f[t]);
            }
        }
        assert(f2.no_duplicates()) by {
            assert forall|a: int, b: int| 0 <= a < b < f2.len() implies f2[a] != f2[b] by {
                if b >= n0 {
                    let ub = b - n0 + 1;
                    assert(f2[n0 + ub - 1] as int == ptrs[ub]);
                    if a >= n0 {
                        let ua = a - n0 + 1;
                        assert(f2[n0 + ua - 1] as int == ptrs[ua]);
                        lemma_mul_strict(ua, ub, k + 2);
                    } else {
                        assert(f2[a] == f[a]);
                    }
                } else {
                    assert(f2[a] == f[a] && f2[b] == f[b]);
                }
            }
        }
    } else {
        assert(f2 == f);
        assert forall|t: int| 0 <= t < f.len() implies #[trigger] f[t] as int != p by {
            assert(h.data@[p - 2] as int == big);
        }
        assert forall|t: int| 0 <= t < f2.len() implies h2.layout@.contains(#[trigger] f2[t] as int) && (h2.data@[f2[t] - 2] == h.data@[f2[t] - 2]) by {
            assert(f2[t] == f[t]);
        }
    }
}

/// After a split, every block is accounted for.
proof fn lemma_split_accounted(h: Heap, h2: Heap, big: int, k: int, count: int, ia: int)
    requires
        h.wf(),
        split_shape(big, k, count),
        h.split_from_list(&h2, big, k, count),
        0 <= ia < h.layout@.len(),
        h.layout@[ia] == h.free_list(big).last() as int,
        h.data@[h.layout@[ia] - 2] as int == big,
        h2.layout@ == split_layout(h.layout@, ia, k, count),
        forall|i: int| 0 <= i < h.layout@.len() && i != ia ==> #[trigger] h2.data@[h.layout@[i] - 2] == h.data@[h.layout@[i] - 2],
        forall|t: int| 0 <= t < count ==> h2.layout@.contains(#[trigger] uniform_ptrs(h.layout@[ia] - 2, k, count)[t]),
        forall|t: int| 0 <= t < count ==> h.layout@[ia] <= #[trigger] uniform_ptrs(h.layout@[ia] - 2, k, count)[t] <= h.layout@[ia] + big,
        forall|i: int| 0 <= i < h.layout@.len() && i < ia ==> #[trigger] h.layout@[i] < h.layout@[ia],
        forall|i: int| 0 <= i < h.layout@.len() && i > ia ==> #[trigger] h.layout@[i] > h.layout@[ia] + big,
    ensures
        forall|i: int| 0 <= i < h2.layout@.len() ==> h2.block_accounted(#[trigger] h2.layout@[i]),
        forall|q: usize| h2.heap_debug_info.allocations@.contains_key(q) ==> h2.layout@.contains(q as int),
{
    let l = h.layout@;
    let l2 = h2.layout@;
    let d = h.data@;
    let d2 = h2.data@;
    let fl = h.free_list(big);
    let p = l[ia];
    let ptrs = uniform_ptrs(p - 2, k, count);
    lemma_lists_by_class(h);
    lemma_lists_by_class(h2);
    let fk = h.free_list(k);
    let fk2 = h2.free_list(k);
    assert forall|t: int| 0 <= t < fk.len() implies #[trigger] fk2[t] == fk[t] by {
        assert(fk2.take(fk.len() as int)[t] == fk2[t]);
    }
    // old allocations are old blocks; none of the new pieces but the first is allocated
    assert forall|q: usize| h.heap_debug_info.allocations@.contains_key(q) implies (q as int) < p || (q as int) > p + big by {
        let iq = lemma_index_of(l, q as int);
        assert(h.block_accounted(l[iq]));
        assert(iq != ia);
    }
    assert forall|i: int| 0 <= i < l2.len() implies h2.block_accounted(#[trigger] l2[i]) by {
        if i < ia || i >= ia + count {
            let io = if i < ia { i } else { i - count + 1 };
            assert(l2[i] == l[io]);
            let q = l[io];
            assert(h.block_accounted(q));
            assert(d2[q - 2] == d[q - 2]);
            assert(0 <= q <= usize::MAX);
            assert((q as usize) as int != p);
            let hq = d[q - 2];
            let cq = if hq == 3 { 3 } else if hq == 8 { 8 } else if hq == 38 { 38 } else if hq == 158 { 158 }
                else if hq == 638 { 638 } else { 0 };
            if !header_used(hq) {
                assert(h.free_list(cq).contains(q as usize));
                let w = choose|w: int| 0 <= w < h.free_list(cq).len() && h.free_list(cq)[w] == q as usize;
                if cq == big {
                    assert(w != fl.len() - 1);
                    assert(h2.free_list(cq)[w] == q as usize);
                } else if cq == k {
                    assert(fk2[w] == q as usize);
                } else {
                    assert(h2.free_list(cq) == h.free_list(cq));
                }
            }
        } else {
            let t = i - ia;
            assert(l2[i] == ptrs[t]);
            if t == 0 {
                assert(ptrs[0] == p);
            } else {
                let q = fk2[fk.len() + t - 1];
                assert(q as int == ptrs[t]);
                assert(d2[ptrs[t] - 2] as int == k);
                assert(fk2.contains(q));
                assert(q as int != p) by { lemma_mul_mono(1, t, k + 2); }
                assert(!h2.heap_debug_info.allocations@.contains_key(q)) by {
                    if h2.heap_debug_info.allocations@.contains_key(q) {
                        assert(h.heap_debug_info.allocations@.contains_key(q));
                    }
                }
            }
        }
    }
    assert forall|q: usize| h2.heap_debug_info.allocations@.contains_key(q) implies l2.contains(q as int) by {
        if q as int == p {
            assert(l2[ia] == ptrs[0]);
        } else {
            assert(h.heap_debug_info.allocations@.contains_key(q));
            let iq = lemma_index_of(l, q as int);
            assert(iq != ia);
            if iq < ia {
                assert(l2[iq] == l[iq]);
            } else {
                assert(l2[iq + count - 1] == l[iq]);
            }
        }
    }
}

/// A split touches no live block.
proof fn lemma_split_live(h: Heap, h2: Heap, big: int, k: int, count: int, ia: int)
    requires
        h.wf(),
        split_shape(big, k, count),
        h.split_from_list(&h2, big, k, count),
        0 <= ia < h.layout@.len(),
        h.layout@[ia] == h.free_list(big).last() as int,
        h.data@[h.layout@[ia] - 2] as int == big,
        forall|i: int, j: int|
            0 <= i < h.layout@.len() && i != ia && #[trigger] h.layout@[i] - 2 <= j < h.layout@[i] + block_size(h.data@, h.layout@[i])
                ==> #[trigger] h2.data@[j] == h.data@[j],
    ensures
        h.live_blocks_kept(&h2),
{
    let l = h.layout@;
    let d = h.data@;
    let p = l[ia];
    assert forall|q: usize|
        #![trigger h.heap_debug_info.allocations@.contains_key(q)]
        h.heap_debug_info.allocations@.contains_key(q) implies {
            &&& h2.heap_debug_info.allocations@.contains_key(q)
            &&& h2.heap_debug_info.allocations@[q] == h.heap_debug_info.allocations@[q]
            &&& forall|j: int|
                q - 2 <= j < q + h.heap_debug_info.allocations@[q] ==> #[trigger] h2.data@[j] == h.data@[j]
        } by {
        assert(l.contains(q as int));
        let iq = lemma_index_of(l, q as int);
        assert(h.block_accounted(l[iq]));
        assert(iq != ia);
        assert(q as int != p);
        assert forall|j: int| q - 2 <= j < q + h.heap_debug_info.allocations@[q] implies #[trigger] h2.data@[j] == h.data@[j] by {
            assert(l[iq] - 2 <= j < l[iq] + block_size(d, l[iq]));
        }
    }
}

/// A block in use lies inside `data` and its header records its size.
pub(crate) proof fn lemma_allocated_facts(h: Heap, p: usize)
    requires
        h.wf(),
        h.allocated(p),
    ensures
        2 <= p,
        p + h.heap_debug_info.allocations@[p] <= h.data@.len(),
        h.data@[p - 2] as int == used_bit() + h.heap_debug_info.allocations@[p],
{
    let l = h.layout@;
    assert(l.contains(p as int));
    let ia = lemma_index_of(l, p as int);
    assert(h.block_accounted(l[ia]));
}

/// Live blocks kept is transitive.
pub(crate) proof fn lemma_live_trans(a: Heap, b: Heap, c: Heap)
    requires
        a.live_blocks_kept(&b),
        b.live_blocks_kept(&c),
    ensures
        a.live_blocks_kept(&c),
{
    assert forall|p: usize|
        #![trigger a.heap_debug_info.allocations@.contains_key(p)]
        a.heap_debug_info.allocations@.contains_key(p) implies {
            &&& c.heap_debug_info.allocations@.contains_key(p)
            &&& c.heap_debug_info.allocations@[p] == a.heap_debug_info.allocations@[p]
            &&& forall|j: int|
                p - 2 <= j < p + a.heap_debug_info.allocations@[p] ==> #[trigger] c.data@[j] == a.data@[j]
        } by {
        assert(b.heap_debug_info.allocations@.contains_key(p));
        assert forall|j: int| p - 2 <= j < p + a.heap_debug_info.allocations@[p] implies #[trigger] c.data@[j] == a.data@[j] by {
            assert(b.data@[j] == a.data@[j]);
            assert(c.data@[j] == b.data@[j]);
        }
    }
}

/// After a uniform expansion, live blocks are kept and the free list of `k`
/// ends with the last appended block.
pub(crate) proof fn lemma_grown_then(h: Heap, h2: Heap, k: int, count: int)
    requires
        h.wf(),
        h2.wf(),
        k == 3 || k == 8 || k == 38 || k == 158 || k == 638,
        0 < count,
        h.grown_uniform(&h2, k, count),
    ensures
        h.live_blocks_kept(&h2),
        h2.free_list(k).len() > 0,
        h2.free_list(k).last() as int == uniform_ptrs(h.data@.len() as int, k, count)[count - 1],
        h.same_tables(&h2),
{
    let n = h.data@.len() as int;
    assert(h2.free_list(k)[h.free_list(k).len() + (count - 1)] as int == uniform_ptrs(n, k, count)[count - 1]);
    assert forall|p: usize|
        #![trigger h.heap_debug_info.allocations@.contains_key(p)]
        h.heap_debug_info.allocations@.contains_key(p) implies {
            &&& h2.heap_debug_info.allocations@.contains_key(p)
            &&& h2.heap_debug_info.allocations@[p] == h.heap_debug_info.allocations@[p]
            &&& forall|j: int|
                p - 2 <= j < p + h.heap_debug_info.allocations@[p] ==> #[trigger] h2.data@[j] == h.data@[j]
        } by {
        lemma_allocated_facts(h, p);
        assert forall|j: int| p - 2 <= j < p + h.heap_debug_info.allocations@[p] implies #[trigger] h2.data@[j] == h.data@[j] by {
            assert(h2.data@.take(n)[j] == h2.data@[j]);
        }
    }
}

/// After a large expansion, live blocks are kept and the large list ends with the new block.
pub(crate) proof fn lemma_grown_large_then(h: Heap, h2: Heap, size: usize)
    requires
        h.wf(),
        h.grown_large(&h2, size),
        h.data@.len() + size + 4 <= usize::MAX,
    ensures
        h.live_blocks_kept(&h2),
        h2.freelist_large@.len() > 0,
        h2.freelist_large@.last() as int == h.data@.len() + 2,
        h.same_tables(&h2),
{
    let n = h.data@.len() as int;
    assert forall|p: usize|
        #![trigger h.heap_debug_info.allocations@.contains_key(p)]
        h.heap_debug_info.allocations@.contains_key(p) implies {
            &&& h2.heap_debug_info.allocations@.contains_key(p)
            &&& h2.heap_debug_info.allocations@[p] == h.heap_debug_info.allocations@[p]
            &&& forall|j: int|
                p - 2 <= j < p + h.heap_debug_info.allocations@[p] ==> #[trigger] h2.data@[j] == h.data@[j]
        } by {
        lemma_allocated_facts(h, p);
        assert forall|j: int| p - 2 <= j < p + h.heap_debug_info.allocations@[p] implies #[trigger] h2.data@[j] == h.data@[j] by {
            assert(h2.data@.take(n)[j] == h2.data@[j]);
        }
    }
}

/// A block on a free list is not in use.
pub(crate) proof fn lemma_listed_not_allocated(h: Heap, c: int, t: int)
    requires
        h.wf(),
        c == 3 || c == 8 || c == 38 || c == 158 || c == 638 || c == 0,
        0 <= t < h.free_list(c).len(),
    ensures
        !h.allocated(h.free_list(c)[t]),
        !header_used(h.data@[h.free_list(c)[t] - 2]),
        c != 0 ==> h.data@[h.free_list(c)[t] - 2] as int == c,
        c == 0 ==> 638 < h.data@[h.free_list(c)[t] - 2] as int,
{
    lemma_lists_by_class(h);
    let q = h.free_list(c)[t];
    assert(h.layout@.contains(q as int));
    let ia = lemma_index_of(h.layout@, q as int);
    assert(h.block_accounted(h.layout@[ia]));
}

/// Writing a scalar of a block in use, other than its header, keeps the heap
/// well-formed and every other live block as it was.
pub(crate) proof fn lemma_write_in_block(h: Heap, h2: Heap, p: usize, j: int)
    requires
        h.wf(),
        h.allocated(p),
        p - 1 <= j < p + h.heap_debug_info.allocations@[p],
        h2.data@ == h.data@.update(j, h2.data@[j]),
        h.same_apart_from_data(&h2),
    ensures
        h2.wf(),
        h.live_blocks_kept_except(&h2, p),
{
    let l = h.layout@;
    let d = h.data@;
    let d2 = h2.data@;
    lemma_allocated_facts(h, p);
    let ia = lemma_index_of(l, p as int);
    assert(h.block_accounted(l[ia]));
    lemma_block_local_change(d, d2, l, ia);
    assert(d2[p - 2] == d[p - 2]);
    assert forall|i: int| 0 <= i < l.len() implies #[trigger] d2[l[i] - 2] == d[l[i] - 2] by {
        if i != ia {
            assert(l[i] - 2 <= l[i] - 2 < l[i] + block_size(d, l[i]));
        }
    }
    assert forall|i: int| 0 <= i < l.len() implies block_size(d2, #[trigger] l[i]) == block_size(d, l[i]) by {
        assert(d2[l[i] - 2] == d[l[i] - 2]);
    }
    lemma_tiled_same_sizes(d, d2, l);
    lemma_lists_by_class(h);
    lemma_lists_by_class(h2);
    assert forall|q: int| l.contains(q) implies #[trigger] d2[q - 2] == d[q - 2] by {
        let iq = lemma_index_of(l, q);
        assert(d2[l[iq] - 2] == d[l[iq] - 2]);
    }
    lemma_list_same_headers(d, d2, l, h.freelist_3@);
    lemma_list_same_headers(d, d2, l, h.freelist_8@);
    lemma_list_same_headers(d, d2, l, h.freelist_38@);
    lemma_list_same_headers(d, d2, l, h.freelist_158@);
    lemma_list_same_headers(d, d2, l, h.freelist_638@);
    lemma_list_same_headers(d, d2, l, h.freelist_large@);
    assert forall|i: int| 0 <= i < l.len() implies h2.block_accounted(#[trigger] l[i]) by {
        assert(h.block_accounted(l[i]));
        assert(d2[l[i] - 2] == d[l[i] - 2]);
    }
    assert forall|q: usize|
        #![trigger h.heap_debug_info.allocations@.contains_key(q)]
        h.heap_debug_info.allocations@.contains_key(q) implies {
            &&& h2.heap_debug_info.allocations@.contains_key(q)
            &&& h2.heap_debug_info.allocations@[q] == h.heap_debug_info.allocations@[q]
            &&& q != p ==> forall|jj: int|
                q - 2 <= jj < q + h.heap_debug_info.allocations@[q] ==> #[trigger] h2.data@[jj] == h.data@[jj]
        } by {
        if q != p {
            assert(l.contains(q as int));
            let iq = lemma_index_of(l, q as int);
            assert(h.block_accounted(l[iq]));
            assert(iq != ia);
            assert forall|jj: int| q - 2 <= jj < q + h.heap_debug_info.allocations@[q] implies #[trigger] h2.data@[jj] == h.data@[jj] by {
                assert(l[iq] - 2 <= jj < l[iq] + block_size(d, l[iq]));
            }
        }
    }
}

/// A list whose blocks keep their headers still has the same headers.
proof fn lemma_list_same_headers(d: Seq<u32>, d2: Seq<u32>, l: Seq<int>, fl: Seq<usize>)
    requires
        forall|t: int| 0 <= t < fl.len() ==> l.contains(#[trigger] fl[t] as int),
        forall|q: int| l.contains(q) ==> #[trigger] d2[q - 2] == d[q - 2],
    ensures
        forall|t: int| 0 <= t < fl.len() ==> #[trigger] d2[fl[t] - 2] == d[fl[t] - 2],
{
    assert forall|t: int| 0 <= t < fl.len() implies #[trigger] d2[fl[t] - 2] == d[fl[t] - 2] by {
        assert(l.contains(fl[t] as int));
    }
}

/// Giving back a block in use keeps the heap well-formed.
pub(crate) proof fn lemma_free_keeps_wf(h: Heap, h2: Heap, p: usize)
    requires
        h.wf(),
        h.allocated(p),
        h.freed_block(&h2, p),
    ensures
        h2.wf(),
{
    let l = h.layout@;
    let d = h.data@;
    let d2 = h2.data@;
    lemma_allocated_facts(h, p);
    let ia = lemma_index_of(l, p as int);
    assert(h.block_accounted(l[ia]));
    let s = header_size(d[p - 2]);
    let c = class_of(s);
    assert(valid_block_size(block_size(d, l[ia])));
    lemma_block_local_change(d, d2, l, ia);
    assert forall|i: int| 0 <= i < l.len() implies block_size(d2, #[trigger] l[i]) == block_size(d, l[i]) by {
        if i != ia {
            assert(l[i] - 2 <= l[i] - 2 < l[i] + block_size(d, l[i]));
        }
    }
    lemma_tiled_same_sizes(d, d2, l);
    assert forall|q: int| l.contains(q) && q != p implies #[trigger] d2[q - 2] == d[q - 2] by {
        let iq = lemma_index_of(l, q);
        assert(l[iq] - 2 <= l[iq] - 2 < l[iq] + block_size(d, l[iq]));
    }
    lemma_lists_by_class(h);
    lemma_lists_by_class(h2);
    lemma_list_after_free(h, h2, p, 3);
    lemma_list_after_free(h, h2, p, 8);
    lemma_list_after_free(h, h2, p, 38);
    lemma_list_after_free(h, h2, p, 158);
    lemma_list_after_free(h, h2, p, 638);
    lemma_list_after_free(h, h2, p, 0);
    assert forall|i: int| 0 <= i < l.len() implies h2.block_accounted(#[trigger] l[i]) by {
        let q = l[i];
        assert(h.block_accounted(q));
        if q == p as int {
            assert(h2.free_list(c)[h.free_list(c).len() as int] == p);
            assert(h2.free_list(c).contains(p));
        } else {
            assert(d2[q - 2] == d[q - 2]);
            assert(0 <= q <= usize::MAX);
            assert((q as usize) != p);
            let hq = d[q - 2];
            let cq = class_of(header_size(hq));
            if !header_used(hq) {
                assert(hq as int == header_size(hq));
                assert(h.free_list(cq).contains(q as usize));
                let w = choose|w: int| 0 <= w < h.free_list(cq).len() && h.free_list(cq)[w] == q as usize;
                if cq == c {
                    assert(h2.free_list(cq)[w] == q as usize);
                } else {
                    assert(h2.free_list(cq) == h.free_list(cq));
                }
            }
        }
    }
    assert forall|q: usize| h2.heap_debug_info.allocations@.contains_key(q) implies l.contains(q as int) by {
        assert(h.heap_debug_info.allocations@.contains_key(q));
    }
}

/// After a block is given back, each free list still holds.
proof fn lemma_list_after_free(h: Heap, h2: Heap, p: usize, c2: int)
    requires
        h.wf(),
        h.allocated(p),
        h.freed_block(&h2, p),
        c2 == 3 || c2 == 8 || c2 == 38 || c2 == 158 || c2 == 638 || c2 == 0,
        forall|q: int| h.layout@.contains(q) && q != p ==> #[trigger] h2.data@[q - 2] == h.data@[q - 2],
        valid_block_size(header_size(h.data@[p - 2])),
        header_used(h.data@[p - 2]),
    ensures
        c2 != 0 ==> free_list_holds(h2.data@, h2.layout@, h2.free_list(c2), c2),
        c2 == 0 ==> large_list_holds(h2.data@, h2.layout@, h2.free_list(c2)),
{
    let l = h.layout@;
    let d = h.data@;
    let s = header_size(d[p - 2]);
    let c = class_of(s);
    lemma_lists_by_class(h);
    lemma_lists_by_class(h2);
    let f = h.free_list(c2);
    let f2 = h2.free_list(c2);
    // no entry of an old list is p: p is in use
    assert forall|t: int| 0 <= t < f.len() implies #[trigger] f[t] != p by {
        lemma_listed_not_allocated(h, c2, t);
    }
    assert forall|t: int| 0 <= t < f.len() implies h2.data@[f[t] - 2] == h.data@[f[t] - 2] by {
        assert(l.contains(f[t] as int));
    }
    assert(l.contains(p as int));
    if c2 == c {
        assert forall|t: int| 0 <= t < f2.len() implies h2.layout@.contains(#[trigger] f2[t] as int) && (c2 != 0 ==> h2.data@[f2[t] - 2] as int == c2)
            && (c2 == 0 ==> 638 < h2.data@[f2[t] - 2] as int && (h2.data@[f2[t] - 2] as int) < used_bit()) by {
            if t == f.len() {
                assert(f2[t] == p);
            } else {
                assert(f2[t] == f[t]);
            }
        }
        assert(f2.no_duplicates()) by {
            assert forall|a: int, b: int| 0 <= a < b < f2.len() implies f2[a] != f2[b] by {
                assert(f2[a] == f[a]);
                if b == f.len() {
                } else {
                    assert(f2[b] == f[b]);
                }
            }
        }
    } else {
        assert(f2 == f);
    }
}

/// After an allocation of `p` and two writes into `p`, the blocks that were live
/// before are as they were.
pub(crate) proof fn lemma_live_after_writes(a: Heap, b: Heap, c: Heap, e: Heap, p: usize)
    requires
        a.live_blocks_kept(&b),
        !a.allocated(p),
        b.live_blocks_kept_except(&c, p),
        c.live_blocks_kept_except(&e, p),
    ensures
        a.live_blocks_kept(&e),
{
    assert forall|q: usize|
        #![trigger a.heap_debug_info.allocations@.contains_key(q)]
        a.heap_debug_info.allocations@.contains_key(q) implies {
            &&& e.heap_debug_info.allocations@.contains_key(q)
            &&& e.heap_debug_info.allocations@[q] == a.heap_debug_info.allocations@[q]
            &&& forall|j: int|
                q - 2 <= j < q + a.heap_debug_info.allocations@[q] ==> #[trigger] e.data@[j] == a.data@[j]
        } by {
        assert(q != p);
        assert(b.heap_debug_info.allocations@.contains_key(q));
        assert(c.heap_debug_info.allocations@.contains_key(q));
        assert forall|j: int| q - 2 <= j < q + a.heap_debug_info.allocations@[q] implies #[trigger] e.data@[j] == a.data@[j] by {
            assert(b.data@[j] == a.data@[j]);
            assert(c.data@[j] == b.data@[j]);
            assert(e.data@[j] == c.data@[j]);
        }
    }
}

/// Establishes `split_from_list` from its parts.
pub(crate) proof fn lemma_split_intro(h: Heap, h2: Heap, big: int, k: int, count: int)
    requires
        h.free_list(big).len() > 0,
        h2.data@.len() == h.data@.len(),
        h2.data@[h.free_list(big).last() - 2] as int == used_bit() + k,
        forall|t: int| 1 <= t < count ==> h2.data@[#[trigger] uniform_ptrs(h.free_list(big).last() - 2, k, count)[t] - 2] as int == k,
        forall|j: int|
            0 <= j < h.data@.len() && h2.data@[j] != h.data@[j] ==> exists|t: int|
                0 <= t < count && j == #[trigger] uniform_ptrs(h.free_list(big).last() - 2, k, count)[t] - 2,
        h2.free_list(big) == h.free_list(big).drop_last(),
        h2.free_list(k).len() == h.free_list(k).len() + count - 1,
        h2.free_list(k).take(h.free_list(k).len() as int) == h.free_list(k),
        forall|t: int|
            1 <= t < count ==> #[trigger] h2.free_list(k)[h.free_list(k).len() + t - 1] as int
                == uniform_ptrs(h.free_list(big).last() - 2, k, count)[t],
        forall|k2: int|
            k2 != big && k2 != k && (k2 == 3 || k2 == 8 || k2 == 38 || k2 == 158 || k2 == 638 || k2
                == 0) ==> #[trigger] h2.free_list(k2) == h.free_list(k2),
        h2.heap_debug_info.allocations@ == h.heap_debug_info.allocations@.insert(
            h.free_list(big).last(),
            k as u32,
        ),
        h.same_tables(&h2),
    ensures
        h.split_from_list(&h2, big, k, count),
{
}

pub(crate) proof fn lemma_lists_by_class(h: Heap)
    ensures
        h.free_list(3) == h.freelist_3@,
        h.free_list(8) == h.freelist_8@,
        h.free_list(38) == h.freelist_38@,
        h.free_list(158) == h.freelist_158@,
        h.free_list(638) == h.freelist_638@,
        h.free_list(0) == h.freelist_large@,
{
}


/// The lists after a block was taken from the list of its size class.
pub proof fn lemma_lists_from_class(a: Heap, b: Heap, size: int)
    requires
        size <= 638,
        a.free_list(size_class(size)).len() > 0,
        a.used_from_list(&b, size_class(size)),
    ensures
        a.allocation_lists(&b, size),
{
    assert(b.data@.len() == a.data@.len());
}

/// The lists after a block of the next class was cut up.
pub proof fn lemma_lists_from_split(a: Heap, b: Heap, size: int, count: int)
    requires
        size <= 638,
        size_class(size) != 638,
        a.free_list(size_class(size)).len() == 0,
        a.free_list(parent_class(size_class(size))).len() > 0,
        count == split_count(size_class(size)),
        a.split_from_list(&b, parent_class(size_class(size)), size_class(size), count),
    ensures
        a.allocation_lists(&b, size),
{
    let k = size_class(size);
    let big = parent_class(k);
    let p = a.free_list(big).last() as int;
    let ptrs = uniform_ptrs(p - 2, k, count);
    assert forall|t: int| 0 <= t < split_count(k) - 1 implies #[trigger] b.free_list(k)[t] as int
        == p + (t + 1) * (k + 2) by {
        assert(b.free_list(k)[a.free_list(k).len() + (t + 1) - 1] as int == ptrs[t + 1]);
    }
}

/// The lists after an expansion whose last block was handed out.
pub proof fn lemma_lists_from_expansion(a: Heap, mid: Heap, b: Heap, size: int)
    requires
        size <= 638,
        a.free_list(size_class(size)).len() == 0,
        !(size_class(size) != 638 && a.free_list(parent_class(size_class(size))).len() > 0),
        a.grown_uniform(&mid, size_class(size), expand_count(size_class(size))),
        expand_count(size_class(size)) * (size_class(size) + 2) == 2560,
        mid.used_from_list(&b, size_class(size)),
    ensures
        a.allocation_lists(&b, size),
{
    let k = size_class(size);
    let n = a.data@.len() as int;
    let news = uniform_ptrs(n, k, expand_count(k));
    assert(b.data@.len() == mid.data@.len());
    assert forall|t: int| 0 <= t < expand_count(k) - 1 implies #[trigger] b.free_list(k)[t] as int
        == n + 2 + t * (k + 2) by {
        assert(mid.free_list(k)[a.free_list(k).len() + t] as int == news[t]);
    }
}

/// The lists after a large request.
pub proof fn lemma_lists_large(a: Heap, mid: Heap, b: Heap, size: int, fits: bool)
    requires
        638 < size,
        fits == (a.freelist_large@.len() > 0 && header_size(a.data@[a.freelist_large@.last() - 2])
            >= size),
        fits ==> a.used_from_list(&b, 0),
        !fits ==> a.grown_large(&mid, size as usize) && mid.used_from_list(&b, 0),
        size < 0x8000_0000,
    ensures
        a.allocation_lists(&b, size),
{
    if !fits {
        assert(b.data@.len() == mid.data@.len());
        assert(mid.free_list(0) == mid.freelist_large@);
        assert(b.free_list(0) == b.freelist_large@);
        assert(mid.freelist_large@.drop_last() =~= a.freelist_large@);
        assert(a.lists_kept_but(&b, 0, 0)) by {
            assert forall|k2: int|
                k2 != 0 && (k2 == 3 || k2 == 8 || k2 == 38 || k2 == 158 || k2 == 638 || k2 == 0)
                    implies #[trigger] b.free_list(k2) == a.free_list(k2) by {
                assert(b.free_list(k2) == mid.free_list(k2));
            }
        }
    } else {
        assert(b.data@.len() == a.data@.len());
    }
}

} // verus!
