//! The block layout of the interpreter's heap, as mathematical objects.
//!
//! The heap is a sequence of scalars cut into blocks:
//!
//! ```text
//! hhh  rrr  d00  d01  d02  ...
//! ```
//!
//! `hhh` is the header (top bit: the block is in use; the other 31 bits: the
//! number of data scalars), `rrr` the reference count, and `d..` the data.
//! A pointer to a block points to `d00`.
use vstd::prelude::*;

verus! {

/// The top bit of a header: the block is in use.
pub open spec fn used_bit() -> int {
    0x8000_0000
}

/// Number of data scalars that a header announces.
pub open spec fn header_size(h: u32) -> int {
    (h as int) % used_bit()
}

/// Whether a header marks its block as in use.
pub open spec fn header_used(h: u32) -> bool {
    h as int >= used_bit()
}

/// The data size of the block whose data starts at `p`.
pub open spec fn block_size(d: Seq<u32>, p: int) -> int {
    header_size(d[p - 2])
}

/// Where the data of the block after the one at `p` starts.
pub open spec fn block_next(d: Seq<u32>, p: int) -> int {
    p + block_size(d, p) + 2
}

/// The sizes that a block may have: one of the five size classes, or more than the largest.
pub open spec fn valid_block_size(s: int) -> bool {
    s == 3 || s == 8 || s == 38 || s == 158 || s == 638 || 638 < s < used_bit()
}

/// `l` lists the data pointers of the blocks of `d`, in order, and the blocks
/// cover `d` exactly, one after another.
pub open spec fn tiled(d: Seq<u32>, l: Seq<int>) -> bool {
    &&& (l.len() == 0 <==> d.len() == 0)
    &&& l.len() > 0 ==> l[0] == 2
    &&& forall|i: int|
        0 <= i < l.len() ==> 2 <= #[trigger] l[i] && valid_block_size(block_size(d, l[i]))
            && block_next(d, l[i]) <= d.len() + 2
    &&& forall|i: int, j: int|
        0 <= i && j == i + 1 && j < l.len() ==> #[trigger] l[j] == block_next(d, #[trigger] l[i])
    &&& l.len() > 0 ==> block_next(d, l[l.len() - 1]) == d.len() + 2
}

/// Blocks listed earlier end before blocks listed later begin.
pub proof fn lemma_tiled_ordered(d: Seq<u32>, l: Seq<int>, i: int, j: int)
    requires
        tiled(d, l),
        0 <= i < j < l.len(),
    ensures
        block_next(d, l[i]) <= l[j],
    decreases j - i,
{
    if j == i + 1 {
        assert(l[j] == block_next(d, l[i]));
    } else {
        lemma_tiled_ordered(d, l, i, j - 1);
        assert(l[j] == block_next(d, l[j - 1]));
        assert(block_size(d, l[j - 1]) > 0);
    }
}

/// Every pair of listed blocks is ordered by position.
pub proof fn lemma_tiled_ordered_all(d: Seq<u32>, l: Seq<int>)
    requires
        tiled(d, l),
    ensures
        forall|i: int, j: int|
            0 <= i < j < l.len() ==> block_next(d, #[trigger] l[i]) <= #[trigger] l[j],
{
    assert forall|i: int, j: int| 0 <= i < j < l.len() implies block_next(d, #[trigger] l[i])
        <= #[trigger] l[j] by {
        lemma_tiled_ordered(d, l, i, j);
    }
}

/// If two scalar sequences of the same length announce the same size for every
/// listed block, one tiling is a tiling of the other.
pub proof fn lemma_tiled_same_sizes(d: Seq<u32>, d2: Seq<u32>, l: Seq<int>)
    requires
        tiled(d, l),
        d2.len() == d.len(),
        forall|i: int| 0 <= i < l.len() ==> block_size(d2, #[trigger] l[i]) == block_size(d, l[i]),
    ensures
        tiled(d2, l),
{
    assert forall|i: int, j: int| 0 <= i && j == i + 1 && j < l.len() implies #[trigger] l[j]
        == block_next(d2, #[trigger] l[i]) by {
        assert(block_size(d2, l[i]) == block_size(d, l[i]));
    }
    if l.len() > 0 {
        assert(block_size(d2, l[l.len() - 1]) == block_size(d, l[l.len() - 1]));
    }
}

/// `count` blocks of `k` data scalars each, side by side, starting at `base`.
pub open spec fn uniform_ptrs(base: int, k: int, count: int) -> Seq<int> {
    Seq::new(count as nat, |t: int| base + 2 + t * (k + 2))
}

/// A buffer whose headers cut it into `count` blocks of `k` data scalars.
pub open spec fn uniform_headers(b: Seq<u32>, k: int, count: int) -> bool {
    &&& b.len() == count * (k + 2)
    &&& forall|t: int| 0 <= t < count ==> #[trigger] b[t * (k + 2)] as int == k
}

pub proof fn lemma_mul_step(t: int, k: int)
    ensures
        (t + 1) * k == t * k + k,
{
    assert((t + 1) * k == t * k + k) by (nonlinear_arith);
}

pub proof fn lemma_mul_mono(a: int, b: int, k: int)
    requires
        0 <= a <= b,
        0 <= k,
    ensures
        a * k <= b * k,
{
    assert(a * k <= b * k) by (nonlinear_arith)
        requires
            0 <= a <= b,
            0 <= k,
    ;
}

pub proof fn lemma_mul_strict(a: int, b: int, k: int)
    requires
        0 <= a < b,
        0 < k,
    ensures
        a * k + k <= b * k,
{
    lemma_mul_mono(a + 1, b, k);
    lemma_mul_step(a, k);
}

/// Appending a buffer cut into uniform blocks to a tiled sequence gives a tiled sequence.
pub proof fn lemma_tiled_append_uniform(d: Seq<u32>, l: Seq<int>, b: Seq<u32>, k: int, count: int)
    requires
        tiled(d, l),
        valid_block_size(k),
        k < 0x8000_0000,
        0 < count,
        uniform_headers(b, k, count),
    ensures
        tiled(d + b, l + uniform_ptrs(d.len() as int, k, count)),
        forall|t: int|
            0 <= t < count ==> block_size(d + b, #[trigger] uniform_ptrs(d.len() as int, k, count)[t])
                == k,
{
    let n = d.len() as int;
    let news = uniform_ptrs(n, k, count);
    let d2 = d + b;
    let l2 = l + news;
    assert forall|t: int| 0 <= t < count implies block_size(d2, #[trigger] news[t]) == k by {
        lemma_mul_mono(0, t, k + 2);
        lemma_mul_strict(t, count, k + 2);
        assert(d2[news[t] - 2] == b[t * (k + 2)]);
    }
    assert forall|i: int| 0 <= i < l.len() implies block_size(d2, #[trigger] l[i]) == block_size(
        d,
        l[i],
    ) by {
        assert(block_next(d, l[i]) <= n + 2);
        assert(d2[l[i] - 2] == d[l[i] - 2]);
    }
    assert forall|i: int|
        0 <= i < l2.len() implies 2 <= #[trigger] l2[i] && valid_block_size(block_size(d2, l2[i]))
        && block_next(d2, l2[i]) <= d2.len() + 2 by {
        if i < l.len() {
            assert(l2[i] == l[i]);
        } else {
            let t = i - l.len();
            assert(l2[i] == news[t]);
            lemma_mul_mono(0, t, k + 2);
            lemma_mul_strict(t, count, k + 2);
        }
    }
    assert forall|i: int, j: int| 0 <= i && j == i + 1 && j < l2.len() implies #[trigger] l2[j]
        == block_next(d2, #[trigger] l2[i]) by {
        if j < l.len() {
            assert(l2[i] == l[i] && l2[j] == l[j]);
        } else if i < l.len() {
            assert(i == l.len() - 1);
            assert(l2[i] == l[i]);
            assert(l2[j] == news[0]);
        } else {
            let t = i - l.len();
            assert(l2[i] == news[t]);
            assert(l2[j] == news[t + 1]);
            lemma_mul_step(t, k + 2);
        }
    }
    assert(block_next(d2, l2[l2.len() - 1]) == d2.len() + 2) by {
        assert(l2[l2.len() - 1] == news[count - 1]);
        lemma_mul_step(count - 1, k + 2);
    }
    if l.len() == 0 {
        assert(l2[0] == news[0]);
    } else {
        assert(l2[0] == l[0]);
    }
}

/// Splitting a block into `count` blocks of `k` data scalars keeps the sequence tiled.
pub proof fn lemma_tiled_split(
    d: Seq<u32>,
    d2: Seq<u32>,
    l: Seq<int>,
    idx: int,
    k: int,
    count: int,
)
    requires
        tiled(d, l),
        0 <= idx < l.len(),
        valid_block_size(k),
        k < 0x8000_0000,
        0 < count,
        block_size(d, l[idx]) + 2 == count * (k + 2),
        d2.len() == d.len(),
        forall|t: int|
            0 <= t < count ==> header_size(#[trigger] d2[l[idx] - 2 + t * (k + 2)]) == k,
        forall|j: int|
            0 <= j < d.len() && d2[j] != d[j] ==> exists|t: int|
                0 <= t < count && j == #[trigger] (l[idx] - 2 + t * (k + 2)),
    ensures
        tiled(d2, l.take(idx) + uniform_ptrs(l[idx] - 2, k, count) + l.skip(idx + 1)),
        forall|t: int|
            0 <= t < count ==> block_size(d2, #[trigger] uniform_ptrs(l[idx] - 2, k, count)[t]) == k,
        forall|i: int|
            0 <= i < l.len() && i != idx ==> block_size(d2, #[trigger] l[i]) == block_size(d, l[i]),
{
    let p = l[idx];
    let news = uniform_ptrs(p - 2, k, count);
    let pre = l.take(idx);
    let post = l.skip(idx + 1);
    let l2 = pre + news + post;
    lemma_tiled_ordered_all(d, l);
    assert forall|t: int| 0 <= t < count implies block_size(d2, #[trigger] news[t]) == k by {
        assert(news[t] - 2 == p - 2 + t * (k + 2));
    }
    assert forall|i: int| 0 <= i < l.len() && i != idx implies block_size(d2, #[trigger] l[i])
        == block_size(d, l[i]) by {
        let j = l[i] - 2;
        if d2[j] != d[j] {
            let t = choose|t: int| 0 <= t < count && j == #[trigger] (p - 2 + t * (k + 2));
            lemma_mul_mono(0, t, k + 2);
            lemma_mul_strict(t, count, k + 2);
            if i < idx {
                assert(block_next(d, l[i]) <= p);
            } else {
                assert(block_next(d, p) <= l[i]);
            }
        }
    }
    assert forall|i: int|
        0 <= i < l2.len() implies 2 <= #[trigger] l2[i] && valid_block_size(block_size(d2, l2[i]))
        && block_next(d2, l2[i]) <= d2.len() + 2 by {
        if i < idx {
            assert(l2[i] == l[i]);
        } else if i < idx + count {
            let t = i - idx;
            assert(l2[i] == news[t]);
            lemma_mul_mono(0, t, k + 2);
            lemma_mul_strict(t, count, k + 2);
        } else {
            assert(l2[i] == l[i - count + 1]);
        }
    }
    assert forall|i: int, j: int| 0 <= i && j == i + 1 && j < l2.len() implies #[trigger] l2[j]
        == block_next(d2, #[trigger] l2[i]) by {
        if j < idx {
            assert(l2[i] == l[i] && l2[j] == l[j]);
        } else if j == idx {
            assert(l2[i] == l[i]);
            assert(l2[j] == news[0]);
            assert(l[idx] == block_next(d, l[i]));
        } else if j < idx + count {
            let t = i - idx;
            assert(l2[i] == news[t]);
            assert(l2[j] == news[t + 1]);
            lemma_mul_step(t, k + 2);
        } else if i < idx + count {
            let t = i - idx;
            assert(t == count - 1);
            assert(l2[i] == news[t]);
            assert(l2[j] == l[idx + 1]);
            lemma_mul_step(t, k + 2);
            assert(l[idx + 1] == block_next(d, l[idx]));
        } else {
            assert(l2[i] == l[i - count + 1]);
            assert(l2[j] == l[j - count + 1]);
        }
    }
    if l2.len() > 0 {
        let last = l2.len() - 1;
        if idx == l.len() - 1 {
            assert(l2[last] == news[count - 1]);
            lemma_mul_step(count - 1, k + 2);
        } else {
            assert(l2[last] == l[l.len() - 1]);
        }
    }
    if idx == 0 {
        assert(l2[0] == news[0]);
    } else {
        assert(l2[0] == l[0]);
    }
}

} // verus!

verus! {

/// A buffer cut into `count` free blocks of `k` data scalars, all other scalars zero.
pub open spec fn uniform_filled(b: Seq<u32>, k: int, count: int) -> bool {
    &&& uniform_headers(b, k, count)
    &&& forall|t: int, r: int|
        0 <= t < count && 1 <= r < k + 2 ==> #[trigger] b[t * (k + 2) + r] == 0
}

/// Builds `count` free blocks of `k` data scalars, to be placed after `base`
/// scalars, and the data pointers of those blocks.
pub fn uniform_blocks(k: u32, count: usize, base: usize) -> (r: (Vec<u32>, Vec<usize>))
    requires
        0 < count,
        1 <= k < 0x7fff_0000,
        base + 2 + count * (k + 2) <= usize::MAX,
    ensures
        uniform_filled(r.0@, k as int, count as int),
        r.1@.len() == count,
        forall|t: int| 0 <= t < count ==> #[trigger] r.1@[t] as int == uniform_ptrs(base as int, k as int, count as int)[t],
{
    let m: usize = k as usize + 2;
    proof {
        lemma_mul_mono(1, count as int, m as int);
    }
    let total: usize = count * m;
    let mut buf: Vec<u32> = vec![0u32; total];
    let mut ptrs: Vec<usize> = Vec::new();
    let mut cursor: usize = base + 2;
    let mut i: usize = 0;
    assert forall|t: int, r: int| 0 <= t < count && 0 <= r < m implies #[trigger] buf@[t * m + r] == 0 by {
        lemma_mul_strict(t, count as int, m as int);
        assert(cloned(0u32, buf@[t * m + r]));
    }
    while i < count
        invariant
            0 <= i <= count,
            m == k + 2,
            total == count * m,
            base + 2 + count * m <= usize::MAX,
            buf@.len() == total,
            ptrs@.len() == i,
            cursor == base + 2 + i * m,
            forall|t: int| 0 <= t < i ==> #[trigger] buf@[t * m] == k,
            forall|t: int, r: int| 0 <= t < count && 1 <= r < m ==> #[trigger] buf@[t * m + r] == 0,
            forall|t: int, r: int| i <= t < count && 0 <= r < m ==> #[trigger] buf@[t * m + r] == 0,
            forall|t: int| 0 <= t < i ==> #[trigger] ptrs@[t] as int == base + 2 + t * m,
        decreases count - i,
    {
        proof {
            lemma_mul_strict(i as int, count as int, m as int);
            lemma_mul_step(i as int, m as int);
        }
        let at: usize = i * m;
        let ghost old_buf = buf@;
        buf.set(at, k);
        ptrs.push(cursor);
        proof {
            assert forall|t: int| 0 <= t < i + 1 implies #[trigger] buf@[t * m] == k by {
                if t < i {
                    lemma_mul_strict(t, i as int, m as int);
                }
            }
            assert forall|t: int, r: int| 0 <= t < count && 1 <= r < m implies #[trigger] buf@[t * m + r] == 0 by {
                lemma_mul_strict(t, count as int, m as int);
                if t < i {
                    lemma_mul_strict(t, i as int, m as int);
                } else if t > i {
                    lemma_mul_strict(i as int, t, m as int);
                }
                assert(old_buf[t * m + r] == 0);
            }
            assert forall|t: int, r: int| i + 1 <= t < count && 0 <= r < m implies #[trigger] buf@[t * m + r] == 0 by {
                lemma_mul_strict(i as int, t, m as int);
                lemma_mul_strict(t, count as int, m as int);
                assert(old_buf[t * m + r] == 0);
            }
        }
        cursor = cursor + m;
        i = i + 1;
    }
    proof {
        assert forall|t: int| 0 <= t < count implies #[trigger] buf@[t * (k + 2)] as int == k by {
            lemma_mul_strict(t, count as int, m as int);
            assert(buf@[t * m] == k);
        }
    }
    (buf, ptrs)
}

} // verus!
