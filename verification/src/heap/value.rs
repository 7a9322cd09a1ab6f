//! Values of the interpreter and how they are laid out on the heap.
use crate::heap::lemmas::{lemma_allocated_facts, lemma_live_trans, lemma_write_in_block};
use crate::heap::{Heap, SpanHash};
use vstd::prelude::*;

verus! {

/// An integer: its sign and its 32-bit limbs, least significant first.
pub struct BigInt {
    pub is_neg: bool,
    pub nums: Vec<u32>,
}

/// A value of the interpreter, before it is put on the heap.
pub enum Value {
    Scalar(u32),
    Int(BigInt),
    List(Vec<Value>),
    Compound(Vec<Value>),
    FuncPointer(SpanHash),
}

/// No function pointer occurs in `v`: those are not put on the heap this way.
pub open spec fn no_func_pointer(v: Value) -> bool
    decreases v, 0nat,
{
    match v {
        Value::FuncPointer(_) => false,
        Value::List(vs) => {
            proof {
                assert(decreases_to!(v => vs));
                assert(decreases_to!(vs => vs@));
            }
            no_func_pointers(vs@)
        },
        Value::Compound(vs) => {
            proof {
                assert(decreases_to!(v => vs));
                assert(decreases_to!(vs => vs@));
            }
            no_func_pointers(vs@)
        },
        _ => true,
    }
}

pub open spec fn no_func_pointers(vs: Seq<Value>) -> bool
    decreases vs, 1nat,
{
    if vs.len() == 0 {
        true
    } else {
        no_func_pointers(vs.drop_last()) && no_func_pointer(vs.last())
    }
}

/// Each block that putting `v` on the heap allocates has fewer than 2^31
/// data scalars: the top bit of a block's header marks it as in use, and
/// that of an integer's first scalar is its sign.
pub open spec fn blocks_fit(v: Value) -> bool
    decreases v, 0nat,
{
    match v {
        Value::Int(b) => b.nums@.len() + 1 < 0x8000_0000,
        Value::List(vs) => {
            proof {
                assert(decreases_to!(v => vs));
                assert(decreases_to!(vs => vs@));
            }
            vs@.len() + 1 < 0x8000_0000 && all_fit(vs@)
        },
        Value::Compound(vs) => {
            proof {
                assert(decreases_to!(v => vs));
                assert(decreases_to!(vs => vs@));
            }
            vs@.len() < 0x8000_0000 && all_fit(vs@)
        },
        _ => true,
    }
}

pub open spec fn all_fit(vs: Seq<Value>) -> bool
    decreases vs, 1nat,
{
    if vs.len() == 0 {
        true
    } else {
        all_fit(vs.drop_last()) && blocks_fit(vs.last())
    }
}

proof fn lemma_fit_at(vs: Seq<Value>, i: int)
    requires
        all_fit(vs),
        0 <= i < vs.len(),
    ensures
        blocks_fit(vs[i]),
    decreases vs.len(),
{
    if i < vs.len() - 1 {
        lemma_fit_at(vs.drop_last(), i);
    }
}

/// A value that adds fewer than 2^31 scalars to the heap allocates no
/// block of 2^31 scalars or more.
pub proof fn lemma_need_fits(v: Value)
    requires
        need(v) < 0x8000_0000,
    ensures
        blocks_fit(v),
    decreases v, 0nat,
{
    match v {
        Value::List(vs) => {
            assert(decreases_to!(v => vs));
            assert(decreases_to!(vs => vs@));
            lemma_need_all_fit(vs@, 0);
            assert(vs@.skip(0) =~= vs@);
        },
        Value::Compound(vs) => {
            assert(decreases_to!(v => vs));
            assert(decreases_to!(vs => vs@));
            lemma_need_all_fit(vs@, 0);
            assert(vs@.skip(0) =~= vs@);
        },
        _ => {},
    }
}

proof fn lemma_need_all_fit(vs: Seq<Value>, i: int)
    requires
        0 <= i <= vs.len(),
        need_all(vs, i) < 0x8000_0000,
    ensures
        all_fit(vs.skip(i)),
    decreases vs, vs.len() - i,
{
    if i < vs.len() {
        assert(decreases_to!(vs => vs[i]));
        lemma_need_fits(vs[i]);
        lemma_need_all_fit(vs, i + 1);
        let t = vs.skip(i);
        assert(t.len() > 0);
        assert(t[0] == vs[i]);
        lemma_all_fit_cons(vs[i], vs.skip(i + 1));
        assert(seq![vs[i]] + vs.skip(i + 1) =~= t);
    } else {
        assert(vs.skip(i).len() == 0);
    }
}

proof fn lemma_all_fit_cons(v: Value, rest: Seq<Value>)
    requires
        blocks_fit(v),
        all_fit(rest),
    ensures
        all_fit(seq![v] + rest),
    decreases rest.len(),
{
    let s = seq![v] + rest;
    if rest.len() == 0 {
        assert(s.drop_last() =~= Seq::<Value>::empty());
        assert(all_fit(s.drop_last()));
        assert(s.last() == v);
    } else {
        assert(all_fit(rest.drop_last()) && blocks_fit(rest.last()));
        lemma_all_fit_cons(v, rest.drop_last());
        assert(s.drop_last() =~= seq![v] + rest.drop_last());
        assert(s.last() == rest.last());
    }
}

/// The number of scalars the values `vs[i..]` may add to the heap at most.
pub open spec fn need_all(vs: Seq<Value>, i: int) -> nat
    decreases vs, vs.len() - i,
{
    if 0 <= i < vs.len() {
        need(vs[i]) + need_all(vs, i + 1)
    } else {
        0
    }
}

/// A bound on the scalars that putting `v` on the heap adds to it: each
/// allocation of `n` scalars adds at most `n + 2560`, and the bound leaves
/// room for the allocator's own arithmetic.
pub open spec fn need(v: Value) -> nat
    decreases v, 0nat,
{
    match v {
        Value::Int(b) => b.nums@.len() + 1 + 2566,
        Value::List(vs) => {
            proof {
                assert(decreases_to!(v => vs));
                assert(decreases_to!(vs => vs@));
            }
            (if vs@.len() == 0 {
                0
            } else {
                vs@.len() + 1 + 2566
            }) + need_all(vs@, 0) + 3 + 2566
        },
        Value::Compound(vs) => {
            proof {
                assert(decreases_to!(v => vs));
                assert(decreases_to!(vs => vs@));
            }
            vs@.len() + 2566 + need_all(vs@, 0)
        },
        _ => 0,
    }
}

/// The first scalar of an integer: the sign in the top bit, the number of
/// limbs in the others.
pub open spec fn int_meta(b: BigInt) -> int {
    if b.is_neg {
        b.nums@.len() + 0x8000_0000int
    } else {
        b.nums@.len() as int
    }
}

/// A block in use at `q` with at least `n` data scalars, that was not in use
/// when `before` was the record of allocations.
pub open spec fn new_block(h: Heap, before: Map<usize, u32>, q: int, n: int) -> bool {
    let a = h.heap_debug_info.allocations@;
    &&& 0 <= q <= usize::MAX
    &&& a.contains_key(q as usize)
    &&& n <= a[q as usize]
    &&& !before.contains_key(q as usize)
}

/// `p` stands for `v` in `h`, in blocks that were not in use when `before`
/// was the record of allocations: a scalar is itself; an integer is a block
/// of its metadata and limbs; a list is a block of a buffer pointer (0 for an
/// empty list), 0 and its length, and the buffer holds the length and then
/// the elements; a compound is a block of its elements.
pub open spec fn stores_from(h: Heap, p: u32, v: Value, before: Map<usize, u32>) -> bool
    decreases v, 0nat,
{
    let d = h.data@;
    match v {
        Value::Scalar(n) => p == n,
        Value::Int(b) => {
            &&& new_block(h, before, p as int, b.nums@.len() + 1int)
            &&& d[p as int] == int_meta(b)
            &&& forall|i: int| 0 <= i < b.nums@.len() ==> #[trigger] d[p + 1 + i] == b.nums@[i]
        },
        Value::List(vs) => {
            proof {
                assert(decreases_to!(v => vs));
                assert(decreases_to!(vs => vs@));
            }
            &&& new_block(h, before, p as int, 3)
            &&& d[p + 1] == 0
            &&& d[p + 2] == vs@.len()
            &&& if vs@.len() == 0 {
                d[p as int] == 0
            } else {
                let b = d[p as int];
                &&& new_block(h, before, b as int, vs@.len() + 1int)
                &&& d[b as int] == vs@.len()
                &&& elems_stored(h, b + 1, vs@, before)
            }
        },
        Value::Compound(vs) => {
            proof {
                assert(decreases_to!(v => vs));
                assert(decreases_to!(vs => vs@));
            }
            &&& new_block(h, before, p as int, vs@.len() as int)
            &&& elems_stored(h, p as int, vs@, before)
        },
        Value::FuncPointer(_) => false,
    }
}

/// The scalars from `base` on stand for the values `vs`, one each.
pub open spec fn elems_stored(h: Heap, base: int, vs: Seq<Value>, before: Map<usize, u32>) -> bool
    decreases vs, 1nat,
{
    if vs.len() == 0 {
        true
    } else {
        &&& elems_stored(h, base, vs.drop_last(), before)
        &&& stores_from(h, h.data@[base + vs.len() - 1], vs.last(), before)
    }
}

/// `p` stands for `v` in `h`.
pub open spec fn stores(h: Heap, p: u32, v: Value) -> bool {
    stores_from(h, p, v, Map::empty())
}

/// What a heap change keeps: every block in use that a value may use.
pub open spec fn keeps(h: Heap, h2: Heap, before: Map<usize, u32>, w: Option<usize>) -> bool {
    &&& h.data@.len() <= h2.data@.len()
    &&& forall|q: usize|
        #![trigger h.heap_debug_info.allocations@.contains_key(q)]
        h.heap_debug_info.allocations@.contains_key(q) && !before.contains_key(q) ==> {
            &&& h2.heap_debug_info.allocations@.contains_key(q)
            &&& h2.heap_debug_info.allocations@[q] == h.heap_debug_info.allocations@[q]
            &&& w != Some(q) ==> forall|j: int|
                q - 2 <= j < q + h.heap_debug_info.allocations@[q] ==> #[trigger] h2.data@[j]
                    == h.data@[j]
        }
    &&& w matches Some(b) ==> before.contains_key(b)
}

/// A value stays as it was through a change that keeps its blocks.
proof fn lemma_stores_kept(h: Heap, h2: Heap, p: u32, v: Value, before: Map<usize, u32>, w: Option<usize>)
    requires
        stores_from(h, p, v, before),
        keeps(h, h2, before, w),
    ensures
        stores_from(h2, p, v, before),
    decreases v, 0nat,
{
    let a = h.heap_debug_info.allocations@;
    let d = h.data@;
    let d2 = h2.data@;
    match v {
        Value::Scalar(_) => {},
        Value::Int(b) => {
            assert(a.contains_key(p as usize));
            assert forall|i: int| 0 <= i < b.nums@.len() implies #[trigger] d2[p + 1 + i]
                == b.nums@[i] by {
                assert(d2[p + 1 + i] == d[p + 1 + i]);
            }
            assert(d2[p as int] == d[p as int]);
        },
        Value::List(vs) => {
            assert(decreases_to!(v => vs));
            assert(decreases_to!(vs => vs@));
            assert(a.contains_key(p as usize));
            assert(d2[p as int] == d[p as int] && d2[p + 1] == d[p + 1] && d2[p + 2] == d[p + 2]);
            if vs@.len() > 0 {
                let b = d[p as int];
                assert(a.contains_key(b as usize));
                assert(d2[b as int] == d[b as int]);
                lemma_elems_kept(h, h2, b + 1, vs@, before, w);
            }
        },
        Value::Compound(vs) => {
            assert(decreases_to!(v => vs));
            assert(decreases_to!(vs => vs@));
            assert(a.contains_key(p as usize));
            lemma_elems_kept(h, h2, p as int, vs@, before, w);
        },
        Value::FuncPointer(_) => {},
    }
}

proof fn lemma_elems_kept(
    h: Heap,
    h2: Heap,
    base: int,
    vs: Seq<Value>,
    before: Map<usize, u32>,
    w: Option<usize>,
)
    requires
        elems_stored(h, base, vs, before),
        keeps(h, h2, before, w),
        forall|j: int| base <= j < base + vs.len() ==> #[trigger] h2.data@[j] == h.data@[j],
    ensures
        elems_stored(h2, base, vs, before),
    decreases vs, 1nat,
{
    if vs.len() > 0 {
        lemma_elems_kept(h, h2, base, vs.drop_last(), before, w);
        assert(h2.data@[base + vs.len() - 1] == h.data@[base + vs.len() - 1]);
        lemma_stores_kept(h, h2, h.data@[base + vs.len() - 1], vs.last(), before, w);
    }
}

} // verus!

verus! {

proof fn lemma_keeps_live(h: Heap, h2: Heap, before: Map<usize, u32>)
    requires
        h.live_blocks_kept(&h2),
    ensures
        keeps(h, h2, before, None),
{
}

proof fn lemma_keeps_write(h: Heap, h2: Heap, before: Map<usize, u32>, w: usize)
    requires
        h.live_blocks_kept_except(&h2, w),
        before.contains_key(w),
    ensures
        keeps(h, h2, before, Some(w)),
{
}

/// Fewer blocks in use before: the value's blocks are still new.
proof fn lemma_stores_weaken(h: Heap, p: u32, v: Value, before: Map<usize, u32>, b2: Map<usize, u32>)
    requires
        stores_from(h, p, v, before),
        forall|k: usize| #[trigger] b2.contains_key(k) ==> before.contains_key(k),
    ensures
        stores_from(h, p, v, b2),
    decreases v, 0nat,
{
    let d = h.data@;
    match v {
        Value::List(vs) => {
            assert(decreases_to!(v => vs));
            assert(decreases_to!(vs => vs@));
            if vs@.len() > 0 {
                lemma_elems_weaken(h, d[p as int] + 1, vs@, before, b2);
            }
        },
        Value::Compound(vs) => {
            assert(decreases_to!(v => vs));
            assert(decreases_to!(vs => vs@));
            lemma_elems_weaken(h, p as int, vs@, before, b2);
        },
        _ => {},
    }
}

proof fn lemma_elems_weaken(
    h: Heap,
    base: int,
    vs: Seq<Value>,
    before: Map<usize, u32>,
    b2: Map<usize, u32>,
)
    requires
        elems_stored(h, base, vs, before),
        forall|k: usize| #[trigger] b2.contains_key(k) ==> before.contains_key(k),
    ensures
        elems_stored(h, base, vs, b2),
    decreases vs, 1nat,
{
    if vs.len() > 0 {
        lemma_elems_weaken(h, base, vs.drop_last(), before, b2);
        lemma_stores_weaken(h, h.data@[base + vs.len() - 1], vs.last(), before, b2);
    }
}

/// One more element stored after the first `i`.
proof fn lemma_elems_push(h: Heap, base: int, vs: Seq<Value>, i: int, before: Map<usize, u32>)
    requires
        0 <= i < vs.len(),
        elems_stored(h, base, vs.take(i), before),
        stores_from(h, h.data@[base + i], vs[i], before),
    ensures
        elems_stored(h, base, vs.take(i + 1), before),
{
    assert(vs.take(i + 1).drop_last() =~= vs.take(i));
}

proof fn lemma_no_func_pointer_at(vs: Seq<Value>, i: int)
    requires
        no_func_pointers(vs),
        0 <= i < vs.len(),
    ensures
        no_func_pointer(vs[i]),
    decreases vs.len(),
{
    if i < vs.len() - 1 {
        lemma_no_func_pointer_at(vs.drop_last(), i);
    }
}

proof fn lemma_need_all_step(vs: Seq<Value>, i: int)
    requires
        0 <= i < vs.len(),
    ensures
        need_all(vs, i) == need(vs[i]) + need_all(vs, i + 1),
        need_all(vs, i + 1) <= need_all(vs, i),
{
}

proof fn lemma_need_all_le(vs: Seq<Value>, i: int)
    requires
        0 <= i <= vs.len(),
    ensures
        need_all(vs, i) <= need_all(vs, 0),
    decreases i,
{
    if i > 0 {
        lemma_need_all_le(vs, i - 1);
    }
}

/// The blocks in use in `h` are in use in `h2`.
pub open spec fn allocs_grow(h: Heap, h2: Heap) -> bool {
    forall|k: usize|
        #[trigger] h.heap_debug_info.allocations@.contains_key(k)
            ==> h2.heap_debug_info.allocations@.contains_key(k)
}

impl Heap {
    /// Puts an integer on the heap: its metadata, then its limbs.
    fn alloc_int(&mut self, n: &BigInt) -> (r: u32)
        requires
            old(self).wf(),
            n.nums@.len() + 1 < 0x8000_0000,
            old(self).data@.len() + n.nums@.len() + 1 + 2566 <= u32::MAX,
        ensures
            final(self).wf(),
            old(self).live_blocks_kept(final(self)),
            old(self).same_tables(final(self)),
            final(self).data@.len() <= old(self).data@.len() + n.nums@.len() + 1 + 2566,
            stores_from(*final(self), r, Value::Int(*n), old(self).heap_debug_info.allocations@),
    {
        let ghost h0 = *self;
        let len = n.nums.len();
        let ptr = self.allocate(len + 1);
        let ghost h1 = *self;
        let metadata: u32 = if n.is_neg {
            let m = (len as u32) | 0x8000_0000;
            proof {
                let l = len as u32;
                assert(l | 0x8000_0000u32 == l + 0x8000_0000u32) by (bit_vector)
                    requires
                        l < 0x8000_0000u32,
                ;
            }
            m
        } else {
            len as u32
        };
        self.write_in_block(ptr, ptr, metadata);
        proof {
            crate::heap::objects::lemma_kept_through_new_block(h0, h1, *self, ptr);
        }
        let mut i: usize = 0;
        while i < len
            invariant
                i <= len,
                len == n.nums@.len(),
                self.wf(),
                h0.live_blocks_kept(&*self),
                h0.same_tables(&*self),
                !h0.allocated(ptr),
                self.allocated(ptr),
                self.heap_debug_info.allocations@ == h1.heap_debug_info.allocations@,
                h1.heap_debug_info.allocations@ == h0.heap_debug_info.allocations@.insert(
                    ptr,
                    h1.heap_debug_info.allocations@[ptr],
                ),
                len + 1 <= self.heap_debug_info.allocations@[ptr],
                ptr + self.heap_debug_info.allocations@[ptr] <= self.data@.len(),
                self.data@.len() == h1.data@.len(),
                h1.data@.len() <= h0.data@.len() + len + 1 + 2560,
                self.data@[ptr as int] == int_meta(*n),
                forall|k: int| 0 <= k < i ==> #[trigger] self.data@[ptr + 1 + k] == n.nums@[k],
            decreases len - i,
        {
            let ghost before = *self;
            self.write_in_block(ptr, ptr + 1 + i, n.nums[i]);
            proof {
                crate::heap::objects::lemma_kept_through_new_block(h0, before, *self, ptr);
            }
            i = i + 1;
        }
        ptr as u32
    }

    /// Puts a value on the heap and returns what stands for it.
    pub fn alloc_value(&mut self, value: &Value) -> (r: u32)
        requires
            old(self).wf(),
            no_func_pointer(*value),
            blocks_fit(*value),
            old(self).data@.len() + need(*value) <= u32::MAX,
        ensures
            final(self).wf(),
            old(self).live_blocks_kept(final(self)),
            old(self).same_tables(final(self)),
            final(self).data@.len() <= old(self).data@.len() + need(*value),
            stores_from(*final(self), r, *value, old(self).heap_debug_info.allocations@),
            value is Scalar ==> *final(self) == *old(self),
            (value matches Value::List(vs) && vs@.len() == 0) ==> final(self).heap_debug_info.allocations@
                == old(self).heap_debug_info.allocations@.insert(r as usize, 3),
        decreases value, 0nat,
    {
        match value {
            Value::Scalar(v) => *v,
            Value::Int(n) => self.alloc_int(n),
            Value::List(vs) => {
                proof {
                    assert(decreases_to!(value => vs));
                }
                self.alloc_list(vs)
            },
            Value::Compound(vs) => {
                proof {
                    assert(decreases_to!(value => vs));
                }
                self.alloc_compound(vs)
            },
            Value::FuncPointer(_) => {
                // function pointers are not put on the heap this way; the caller rules them out
                0
            },
        }
    }

    /// Puts the values `vs` on the heap, one after the other, and writes what
    /// stands for each at `base`, `base + 1`, ... of the block in use at `blk`.
    fn alloc_elems(&mut self, vs: &Vec<Value>, blk: usize, base: usize) -> (r: ())
        requires
            old(self).wf(),
            old(self).allocated(blk),
            blk <= base,
            base + vs@.len() <= blk + old(self).heap_debug_info.allocations@[blk],
            no_func_pointers(vs@),
            all_fit(vs@),
            old(self).data@.len() + need_all(vs@, 0) <= u32::MAX,
        ensures
            final(self).wf(),
            old(self).same_tables(final(self)),
            old(self).live_blocks_kept_except(final(self), blk),
            final(self).data@.len() <= old(self).data@.len() + need_all(vs@, 0),
            forall|j: int|
                blk - 2 <= j < blk + old(self).heap_debug_info.allocations@[blk] && !(base <= j < base
                    + vs@.len()) ==> #[trigger] final(self).data@[j] == old(self).data@[j],
            elems_stored(*final(self), base as int, vs@, old(self).heap_debug_info.allocations@),
        decreases vs, 1nat,
    {
        let ghost h0 = *self;
        let ghost b0 = self.heap_debug_info.allocations@;
        let len = vs.len();
        let mut i: usize = 0;
        proof {
            assert(vs@.take(0) =~= Seq::<Value>::empty());
            crate::heap::lemmas::lemma_allocated_facts(h0, blk);
        }
        while i < len
            invariant
                i <= len,
                len == vs@.len(),
                self.wf(),
                h0.same_tables(&*self),
                h0.live_blocks_kept_except(&*self, blk),
                self.allocated(blk),
                b0 == h0.heap_debug_info.allocations@,
                b0.contains_key(blk),
                self.heap_debug_info.allocations@[blk] == b0[blk],
                2 <= blk <= base,
                base + len <= blk + b0[blk],
                blk + b0[blk] <= h0.data@.len(),
                no_func_pointers(vs@),
                all_fit(vs@),
                h0.data@.len() + need_all(vs@, 0) <= u32::MAX,
                self.data@.len() + need_all(vs@, i as int) <= h0.data@.len() + need_all(vs@, 0),
                forall|j: int|
                    blk - 2 <= j < blk + b0[blk] && !(base <= j < base + i) ==> #[trigger] self.data@[j]
                        == h0.data@[j],
                elems_stored(*self, base as int, vs@.take(i as int), b0),
            decreases len - i,
        {
            let ghost h1 = *self;
            let ghost b1 = self.heap_debug_info.allocations@;
            proof {
                lemma_no_func_pointer_at(vs@, i as int);
                lemma_fit_at(vs@, i as int);
                lemma_need_all_step(vs@, i as int);
                lemma_need_all_le(vs@, i as int);
                assert(decreases_to!(vs => vs@));
                assert(decreases_to!(vs@ => vs@[i as int]));
            }
            let vp = self.alloc_value(&vs[i]);
            let ghost h2 = *self;
            proof {
                lemma_keeps_live(h1, h2, b0);
                lemma_elems_kept(h1, h2, base as int, vs@.take(i as int), b0, None);
                assert(h1.heap_debug_info.allocations@.contains_key(blk));
                assert(forall|k: usize| #[trigger] b0.contains_key(k) ==> b1.contains_key(k));
                lemma_stores_weaken(h2, vp, vs@[i as int], b1, b0);
            }
            self.write_in_block(blk, base + i, vp);
            proof {
                assert(h1.heap_debug_info.allocations@.contains_key(blk));
                assert forall|j: int|
                    blk - 2 <= j < blk + b0[blk] && !(base <= j < base + i + 1) implies #[trigger] self.data@[j]
                        == h0.data@[j] by {
                    assert(h1.data@[j] == h0.data@[j]);
                    assert(h2.data@[j] == h1.data@[j]);
                    assert(self.data@[j] == h2.data@[j]);
                }
                lemma_keeps_write(h2, *self, b0, blk);
                lemma_elems_kept(h2, *self, base as int, vs@.take(i as int), b0, Some(blk));
                lemma_stores_kept(h2, *self, vp, vs@[i as int], b0, Some(blk));
                lemma_elems_push(*self, base as int, vs@, i as int, b0);
                assert forall|q: usize|
                    #![trigger h0.heap_debug_info.allocations@.contains_key(q)]
                    h0.heap_debug_info.allocations@.contains_key(q) implies {
                        &&& self.heap_debug_info.allocations@.contains_key(q)
                        &&& self.heap_debug_info.allocations@[q] == h0.heap_debug_info.allocations@[q]
                        &&& q != blk ==> forall|j: int|
                            q - 2 <= j < q + h0.heap_debug_info.allocations@[q] ==> #[trigger] self.data@[j]
                                == h0.data@[j]
                    } by {
                    assert(h1.heap_debug_info.allocations@.contains_key(q));
                    assert(h2.heap_debug_info.allocations@.contains_key(q));
                }
            }
            i = i + 1;
        }
        proof {
            assert(vs@.take(len as int) =~= vs@);
        }
    }

    /// The buffer of a list of the values `vs`: its length, then what
    /// stands for each value.
    fn alloc_buffer(&mut self, vs: &Vec<Value>) -> (dp: usize)
        requires
            old(self).wf(),
            vs@.len() > 0,
            no_func_pointers(vs@),
            vs@.len() + 1 < 0x8000_0000,
            all_fit(vs@),
            old(self).data@.len() + vs@.len() + 1 + 2566 + need_all(vs@, 0) <= u32::MAX,
        ensures
            final(self).wf(),
            old(self).live_blocks_kept(final(self)),
            old(self).same_tables(final(self)),
            final(self).data@.len() <= old(self).data@.len() + vs@.len() + 1 + 2560 + need_all(
                vs@,
                0,
            ),
            new_block(*final(self), old(self).heap_debug_info.allocations@, dp as int, vs@.len() + 1int),
            dp + final(self).heap_debug_info.allocations@[dp] <= final(self).data@.len(),
            final(self).data@[dp as int] == vs@.len(),
            elems_stored(*final(self), dp + 1, vs@, old(self).heap_debug_info.allocations@),
        decreases vs, 2nat,
    {
        let ghost h0 = *self;
        let ghost b0 = self.heap_debug_info.allocations@;
        let len = vs.len();
        let dp = self.allocate(len + 1);
        let ghost h1 = *self;
        self.write_in_block(dp, dp, len as u32);
        let ghost h2 = *self;
        proof {
            crate::heap::objects::lemma_kept_through_new_block(h0, h1, h2, dp);
            crate::heap::lemmas::lemma_allocated_facts(h2, dp);
        }
        self.alloc_elems(vs, dp, dp + 1);
        proof {
            lemma_elems_weaken(*self, dp + 1, vs@, h2.heap_debug_info.allocations@, b0);
            crate::heap::objects::lemma_kept_through_new_block(h0, h2, *self, dp);
            assert(h2.heap_debug_info.allocations@.contains_key(dp));
            assert(self.heap_debug_info.allocations@[dp] == h2.heap_debug_info.allocations@[dp]);
            assert(self.data@[dp as int] == h2.data@[dp as int]);
            crate::heap::lemmas::lemma_allocated_facts(*self, dp);
        }
        dp
    }

    fn alloc_list(&mut self, vs: &Vec<Value>) -> (r: u32)
        requires
            old(self).wf(),
            no_func_pointers(vs@),
            blocks_fit(Value::List(*vs)),
            old(self).data@.len() + need(Value::List(*vs)) <= u32::MAX,
        ensures
            final(self).wf(),
            old(self).live_blocks_kept(final(self)),
            old(self).same_tables(final(self)),
            final(self).data@.len() <= old(self).data@.len() + need(Value::List(*vs)),
            stores_from(*final(self), r, Value::List(*vs), old(self).heap_debug_info.allocations@),
            vs@.len() == 0 ==> final(self).heap_debug_info.allocations@
                == old(self).heap_debug_info.allocations@.insert(r as usize, 3),
        decreases vs, 3nat,
    {
        let ghost h0 = *self;
        let ghost b0 = self.heap_debug_info.allocations@;
        let len = vs.len();
        let data_ptr: usize = if len == 0 {
            0
        } else {
            self.alloc_buffer(vs)
        };
        let ghost h3 = *self;
        let p = self.new_list(data_ptr as u32, 0, len as u32);
        proof {
            lemma_live_trans(h0, h3, *self);
            if len > 0 {
                assert(h3.heap_debug_info.allocations@.contains_key(data_ptr));
                assert forall|j: int| data_ptr + 1 <= j < data_ptr + 1 + len implies #[trigger] self.data@[j]
                    == h3.data@[j] by {
                }
                assert(self.data@[data_ptr as int] == h3.data@[data_ptr as int]);
                lemma_keeps_live(h3, *self, b0);
                lemma_elems_kept(h3, *self, data_ptr + 1, vs@, b0, None);
            }
        }
        p as u32
    }

    fn alloc_compound(&mut self, vs: &Vec<Value>) -> (r: u32)
        requires
            old(self).wf(),
            no_func_pointers(vs@),
            blocks_fit(Value::Compound(*vs)),
            old(self).data@.len() + need(Value::Compound(*vs)) <= u32::MAX,
        ensures
            final(self).wf(),
            old(self).live_blocks_kept(final(self)),
            old(self).same_tables(final(self)),
            final(self).data@.len() <= old(self).data@.len() + need(Value::Compound(*vs)),
            stores_from(*final(self), r, Value::Compound(*vs), old(self).heap_debug_info.allocations@),
        decreases vs, 2nat,
    {
        let ghost h0 = *self;
        let ghost b0 = self.heap_debug_info.allocations@;
        let len = vs.len();
        let ptr = self.allocate(len);
        let ghost h1 = *self;
        proof {
            crate::heap::lemmas::lemma_allocated_facts(h1, ptr);
        }
        self.alloc_elems(vs, ptr, ptr);
        proof {
            lemma_elems_weaken(*self, ptr as int, vs@, h1.heap_debug_info.allocations@, b0);
            crate::heap::objects::lemma_kept_through_new_block(h0, h1, *self, ptr);
            assert(h1.heap_debug_info.allocations@.contains_key(ptr));
            assert(self.heap_debug_info.allocations@[ptr] == h1.heap_debug_info.allocations@[ptr]);
            assert(new_block(*self, b0, ptr as int, len as int));
        }
        ptr as u32
    }
}

} // verus!
