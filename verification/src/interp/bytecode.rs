//! Running the bytecode of one call: the instructions of a basic block and
//! the terminator that ends it.
//!
//! What a run needs from outside — nested calls, printing, sleeping, the
//! arithmetic of big integers — is handed back as an `Effect`, and the
//! caller carries it out. Where the interpreter would stop with a panic (a
//! register that is not set, an index outside the heap, an overflow, an
//! instruction that never occurs inside a block), the step returns a
//! `Fault` instead. A write must land inside a block in use, so that the
//! heap stays well-formed.
use crate::heap::value::{need, need_all, no_func_pointer, no_func_pointers, Value};
use crate::heap::layout::{block_next, lemma_tiled_ordered_all};
use crate::heap::lemmas::{lemma_allocated_facts, lemma_index_of};
use crate::heap::Heap;
use crate::interp::vm::{accessible, heap_index, read_spec, Memory, Stack};
use vstd::prelude::*;

verus! {

broadcast use vstd::std_specs::hash::group_hash_axioms;

/// A constant operand.
#[derive(Clone, Copy, Debug, PartialEq, Eq, Structural)]
pub enum InternedValue {
    /// A value of the program's data table, by its key.
    Interned(u64),
    Scalar(u32),
    /// A function, by the hash of its definition's span.
    FuncPointer(u64),
}

/// The built-in operations.
#[derive(Clone, Copy, Debug, PartialEq, Eq, Structural)]
pub enum Intrinsic {
    NegInt,
    AddInt,
    SubInt,
    MulInt,
    DivInt,
    RemInt,
    LtInt,
    EqInt,
    GtInt,
    BitAndInt,
    BitOrInt,
    ShrInt,
    ShlInt,
    Ilog2Int,
    AddScalar,
    SubScalar,
    MulScalar,
    DivScalar,
    RemScalar,
    BitAndScalar,
    BitOrScalar,
    LtScalar,
    EqScalar,
    GtScalar,
    ScalarToInt,
    IntToScalar,
    IndexList,
    LenList,
    SliceList,
    SliceRightList,
    AppendList,
    PrependList,
    Exit,
    Print,
    EPrint,
    Debug,
    RandomInt,
    Sleep,
    Nop0,
    Nop1,
}

/// An instruction inside a basic block. Registers are `u32`s, functions and
/// globals are named by the hashes of their spans, blocks by `u32` labels.
pub enum Bytecode {
    Const { value: InternedValue, dst: Memory },
    Move { src: Memory, dst: Memory },
    /// The first of the two registers that is set.
    Phi { pair: (u32, u32), dst: Memory },
    Jump(u32),
    /// A call whose result goes to `dst`; `None` is a tail call, which ends
    /// a block as a terminator instead.
    Call { func: u64, args: Vec<u32>, dst: Option<Memory> },
    /// A call of the function pointer in register `func`.
    CallDynamic { func: u32, args: Vec<u32>, dst: Option<Memory> },
    JumpIf { value: u32, label: u32 },
    TryInitGlobal { global: u64, label: u32 },
    LoadGlobal { src: u64, dst: u32 },
    StoreGlobal { src: u32, dst: u64 },
    Label(u32),
    Return(u32),
    /// A copy of the tuple of `size` scalars in register `src`, with
    /// register `value` at `index`.
    Update { src: u32, size: usize, index: usize, value: u32, dst: Memory },
    Intrinsic { intrinsic: Intrinsic, args: Vec<u32>, dst: Memory },
    InitTuple { elements: usize, dst: Memory },
    InitList { elements: usize, dst: Memory },
}

/// How a basic block ends.
pub enum Terminator {
    Jump(u32),
    TailCall { func: u64, args: Vec<u32> },
    TailCallDynamic { func: u32, args: Vec<u32> },
    /// To `t` when register `value` is not 0, else to `f`.
    JumpIf { value: u32, t: u32, f: u32 },
    /// Runs the initializer of `global` when it has no value yet, and then
    /// goes on at `label`.
    TryInitGlobal { global: u64, label: u32 },
    Return(u32),
}

pub struct BasicBlock {
    pub code: Vec<Bytecode>,
    pub terminator: Terminator,
}

/// Where the interpreter would panic.
#[derive(Clone, Copy, Debug, PartialEq, Eq, Structural)]
pub enum Fault {
    /// A register that is read is not set, a read outside the heap, or a
    /// write outside the blocks in use.
    BadAccess,
    /// Scalar arithmetic that overflows or divides by zero.
    Overflow,
    /// The heap would outgrow 32-bit pointers.
    OutOfMemory,
    /// A global value that is read before it is initialized.
    UninitializedGlobal,
    /// A function pointer that names no function, or a key that the data
    /// table lacks.
    UnknownName,
    /// An instruction that never occurs there, or one that is not supported.
    Unsupported,
}

/// `dst` is a register, or a data scalar of a block in use; a list that it
/// names is a block in use too.
pub open spec fn storable(dst: Memory, s: Map<u32, u32>, h: Heap) -> bool {
    let a = h.heap_debug_info.allocations@;
    let d = h.data@;
    match dst {
        Memory::Ssa(_) => true,
        Memory::Heap { ptr, offset } => {
            &&& s.contains_key(ptr)
            &&& a.contains_key(s[ptr] as usize)
            &&& offset < a[s[ptr] as usize]
        },
        Memory::List { ptr, offset } => {
            let p = s[ptr] as int;
            &&& s.contains_key(ptr)
            &&& a.contains_key(p as usize)
            &&& 2 <= a[p as usize]
            &&& a.contains_key(d[p] as usize)
            &&& d[p + 1] + offset + 1 < a[d[p] as usize]
        },
    }
}

/// Writing `v` at `dst` turned the registers `s0` into `s1` and the heap
/// scalars `d0` into `d1`.
pub open spec fn writes(
    dst: Memory,
    v: u32,
    s0: Map<u32, u32>,
    d0: Seq<u32>,
    s1: Map<u32, u32>,
    d1: Seq<u32>,
) -> bool {
    match dst {
        Memory::Ssa(i) => s1 == s0.insert(i, v) && d1 == d0,
        _ => s1 == s0 && d1 == d0.update(heap_index(dst, s0, d0), v),
    }
}

/// Writes `v` at `dst` where `dst` is a register or lies in a block in use;
/// else changes nothing and says so.
pub fn store(dst: &Memory, v: u32, stack: &mut Stack, heap: &mut Heap) -> (ok: bool)
    requires
        old(heap).wf(),
    ensures
        final(heap).wf(),
        ok == storable(*dst, old(stack).ssa@, *old(heap)),
        ok ==> writes(
            *dst,
            v,
            old(stack).ssa@,
            old(heap).data@,
            final(stack).ssa@,
            final(heap).data@,
        ),
        !ok ==> final(stack).ssa@ == old(stack).ssa@ && final(heap).data@ == old(heap).data@,
        old(heap).same_apart_from_data(final(heap)),
        final(stack).return_value == old(stack).return_value,
{
    match dst {
        Memory::Ssa(i) => {
            stack.ssa.insert(*i, v);
            true
        },
        Memory::Heap { ptr, offset } => {
            let p = match stack.ssa.get(ptr) {
                Some(p) => *p as usize,
                None => {
                    return false;
                },
            };
            let size = match heap.heap_debug_info.allocations.get(&p) {
                Some(n) => *n,
                None => {
                    return false;
                },
            };
            if *offset >= size {
                return false;
            }
            proof {
                lemma_allocated_facts(*heap, p);
            }
            heap.write_in_block(p, p + *offset as usize, v);
            true
        },
        Memory::List { ptr, offset } => {
            let p = match stack.ssa.get(ptr) {
                Some(p) => *p as usize,
                None => {
                    return false;
                },
            };
            match heap.heap_debug_info.allocations.get(&p) {
                Some(n) => {
                    if *n < 2 {
                        return false;
                    }
                },
                None => {
                    return false;
                },
            }
            proof {
                lemma_allocated_facts(*heap, p);
            }
            let data_ptr = heap.data[p] as usize;
            let start = heap.data[p + 1] as usize;
            let size = match heap.heap_debug_info.allocations.get(&data_ptr) {
                Some(n) => *n as usize,
                None => {
                    return false;
                },
            };
            if start as u64 + *offset as u64 + 1 >= size as u64 {
                return false;
            }
            proof {
                lemma_allocated_facts(*heap, data_ptr);
            }
            heap.write_in_block(data_ptr, data_ptr + start + *offset as usize + 1, v);
            true
        },
    }
}

/// `m` can be read.
pub fn is_accessible(m: &Memory, stack: &Stack, heap: &Heap) -> (r: bool)
    ensures
        r == accessible(*m, stack.ssa@, heap.data@),
{
    match m {
        Memory::Ssa(i) => stack.ssa.contains_key(i),
        Memory::Heap { ptr, offset } => match stack.ssa.get(ptr) {
            Some(p) => (*p as u64) + (*offset as u64) <= 0xffff_ffff && ((*p as u64) + (
            *offset as u64)) < heap.data.len() as u64,
            None => false,
        },
        Memory::List { ptr, offset } => match stack.ssa.get(ptr) {
            Some(p) => {
                let p = *p as usize;
                if p >= heap.data.len() || p + 1 >= heap.data.len() {
                    false
                } else {
                    let sum = heap.data[p] as u64 + heap.data[p + 1] as u64 + *offset as u64 + 1;
                    sum <= 0xffff_ffff && sum < heap.data.len() as u64
                }
            },
            None => false,
        },
    }
}


proof fn lemma_need_all_split(vs: Seq<Value>, i: int)
    requires
        0 <= i < vs.len(),
    ensures
        need_all(vs, i) == need(vs[i]) + need_all(vs, i + 1),
{
}

proof fn lemma_no_func_pointers_take(vs: Seq<Value>, i: int)
    requires
        0 <= i < vs.len(),
    ensures
        no_func_pointers(vs.take(i + 1)) == (no_func_pointers(vs.take(i)) && no_func_pointer(
            vs[i],
        )),
{
    assert(vs.take(i + 1).drop_last() =~= vs.take(i));
}

proof fn lemma_no_func_pointers_each(vs: Seq<Value>, i: int)
    requires
        no_func_pointers(vs),
        0 <= i < vs.len(),
    ensures
        no_func_pointer(vs[i]),
    decreases vs.len(),
{
    if i < vs.len() - 1 {
        lemma_no_func_pointers_each(vs.drop_last(), i);
    }
}

/// How many scalars putting `v` on the heap may add, where `v` holds no
/// function pointer and that bound stays under 2^31; else `None`.
pub(crate) fn value_need(v: &Value) -> (r: Option<u32>)
    ensures
        match r {
            Some(n) => no_func_pointer(*v) && n == need(*v) && n < 0x8000_0000,
            None => !no_func_pointer(*v) || need(*v) >= 0x8000_0000,
        },
    decreases v, 0nat,
{
    match v {
        Value::Scalar(_) => Some(0),
        Value::FuncPointer(_) => None,
        Value::Int(b) => {
            if b.nums.len() >= 0x8000_0000 - 2567 {
                None
            } else {
                Some(b.nums.len() as u32 + 2567)
            }
        },
        Value::List(vs) => {
            proof {
                assert(decreases_to!(v => vs));
            }
            if vs.len() >= 0x8000_0000 {
                proof {
                    lemma_need_all_nonneg(vs@);
                }
                return None;
            }
            match elems_need(vs) {
                None => None,
                Some(acc) => {
                    let extra: u64 = if vs.len() == 0 {
                        2569
                    } else {
                        vs.len() as u64 + 5136
                    };
                    if acc as u64 + extra >= 0x8000_0000 {
                        None
                    } else {
                        Some((acc as u64 + extra) as u32)
                    }
                },
            }
        },
        Value::Compound(vs) => {
            proof {
                assert(decreases_to!(v => vs));
            }
            if vs.len() >= 0x8000_0000 {
                proof {
                    lemma_need_all_nonneg(vs@);
                }
                return None;
            }
            match elems_need(vs) {
                None => None,
                Some(acc) => {
                    if acc as u64 + vs.len() as u64 + 2566 >= 0x8000_0000 {
                        None
                    } else {
                        Some((acc as u64 + vs.len() as u64 + 2566) as u32)
                    }
                },
            }
        },
    }
}

proof fn lemma_need_all_nonneg(vs: Seq<Value>)
    ensures
        need_all(vs, 0) >= 0,
{
}

/// The sum of what the elements need, as `value_need` says of each.
fn elems_need(vs: &Vec<Value>) -> (r: Option<u32>)
    ensures
        match r {
            Some(n) => no_func_pointers(vs@) && n == need_all(vs@, 0) && n < 0x8000_0000,
            None => !no_func_pointers(vs@) || need_all(vs@, 0) >= 0x8000_0000,
        },
    decreases vs, 1nat,
{
    let ghost s = vs@;
    let mut acc: u32 = 0;
    let mut i: usize = 0;
    proof {
        assert(s.take(0) =~= Seq::<Value>::empty());
    }
    while i < vs.len()
        invariant
            s == vs@,
            i <= s.len(),
            acc < 0x8000_0000,
            acc + need_all(s, i as int) == need_all(s, 0),
            no_func_pointers(s.take(i as int)),
        decreases s.len() - i,
    {
        proof {
            assert(decreases_to!(vs => vs@));
            assert(decreases_to!(vs@ => vs@[i as int]));
            lemma_need_all_split(s, i as int);
            lemma_no_func_pointers_take(s, i as int);
        }
        match value_need(&vs[i]) {
            None => {
                proof {
                    if no_func_pointers(s) {
                        lemma_no_func_pointers_each(s, i as int);
                    }
                }
                return None;
            },
            Some(n) => {
                if acc as u64 + n as u64 >= 0x8000_0000 {
                    return None;
                }
                acc = acc + n;
            },
        }
        i = i + 1;
    }
    proof {
        assert(s.take(s.len() as int) =~= s);
    }
    Some(acc)
}


/// Whether `v` holds no function pointer.
pub(crate) fn free_of_func_pointers(v: &Value) -> (r: bool)
    ensures
        r == no_func_pointer(*v),
    decreases v, 0nat,
{
    match v {
        Value::FuncPointer(_) => false,
        Value::List(vs) => {
            proof {
                assert(decreases_to!(v => vs));
            }
            all_free_of_func_pointers(vs)
        },
        Value::Compound(vs) => {
            proof {
                assert(decreases_to!(v => vs));
            }
            all_free_of_func_pointers(vs)
        },
        _ => true,
    }
}

fn all_free_of_func_pointers(vs: &Vec<Value>) -> (r: bool)
    ensures
        r == no_func_pointers(vs@),
    decreases vs, 1nat,
{
    let ghost s = vs@;
    let mut i: usize = 0;
    proof {
        assert(s.take(0) =~= Seq::<Value>::empty());
    }
    while i < vs.len()
        invariant
            s == vs@,
            i <= s.len(),
            no_func_pointers(s.take(i as int)),
        decreases s.len() - i,
    {
        proof {
            assert(decreases_to!(vs => vs@));
            assert(decreases_to!(vs@ => vs@[i as int]));
            lemma_no_func_pointers_take(s, i as int);
        }
        if !free_of_func_pointers(&vs[i]) {
            proof {
                if no_func_pointers(s) {
                    lemma_no_func_pointers_each(s, i as int);
                }
            }
            return false;
        }
        i = i + 1;
    }
    proof {
        assert(s.take(s.len() as int) =~= s);
    }
    true
}


/// Two blocks in use do not overlap.
proof fn lemma_blocks_apart(h: Heap, p: usize, q: usize)
    requires
        h.wf(),
        h.allocated(p),
        h.allocated(q),
        p != q,
    ensures
        p + h.heap_debug_info.allocations@[p] <= q - 2 || q + h.heap_debug_info.allocations@[q]
            <= p - 2,
{
    let l = h.layout@;
    let d = h.data@;
    assert(l.contains(p as int));
    assert(l.contains(q as int));
    let ip = lemma_index_of(l, p as int);
    let iq = lemma_index_of(l, q as int);
    assert(h.block_accounted(l[ip]));
    assert(h.block_accounted(l[iq]));
    lemma_tiled_ordered_all(d, l);
    if ip < iq {
        assert(block_next(d, l[ip]) <= l[iq]);
    } else {
        assert(ip != iq);
        assert(block_next(d, l[iq]) <= l[ip]);
    }
}

/// What is stored at a place is what is read back from it, where pointers
/// fit in 32 bits and a list is not its own buffer.
pub proof fn lemma_read_after_store(
    dst: Memory,
    v: u32,
    s0: Map<u32, u32>,
    h0: Heap,
    s1: Map<u32, u32>,
    d1: Seq<u32>,
)
    requires
        h0.wf(),
        h0.data@.len() <= u32::MAX,
        storable(dst, s0, h0),
        writes(dst, v, s0, h0.data@, s1, d1),
        dst matches Memory::List { ptr, .. } ==> s0[ptr] != h0.data@[s0[ptr] as int],
    ensures
        accessible(dst, s1, d1),
        read_spec(dst, s1, d1) == v,
{
    let d0 = h0.data@;
    let a = h0.heap_debug_info.allocations@;
    match dst {
        Memory::Ssa(_) => {},
        Memory::Heap { ptr, offset } => {
            lemma_allocated_facts(h0, s0[ptr] as usize);
        },
        Memory::List { ptr, offset } => {
            let p = s0[ptr] as usize;
            let dp = d0[p as int] as usize;
            lemma_allocated_facts(h0, p);
            lemma_allocated_facts(h0, dp);
            lemma_blocks_apart(h0, p, dp);
            let at = heap_index(dst, s0, d0);
            assert(at != p && at != p + 1);
            assert(d1[p as int] == d0[p as int]);
            assert(d1[p + 1] == d0[p + 1]);
        },
    }
}

} // verus!
