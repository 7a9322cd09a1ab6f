//! What one instruction and one terminator do, and what they leave to the
//! one that runs the call.
use crate::heap::objects::{list_in_bounds, list_view};
use crate::heap::value::{lemma_need_fits, need, no_func_pointer, stores_from, BigInt, Value};
use crate::heap::lemmas::lemma_allocated_facts;
use crate::heap::Heap;
use crate::interp::bytecode::{
    free_of_func_pointers, is_accessible, store, storable, value_need, writes, Bytecode, Fault,
    InternedValue, Intrinsic, Terminator,
};
use crate::interp::vm::{
    accessible, heap_index, read, read_spec, scalar_op, scalar_op_defined, scalar_op_result, Memory,
    ScalarOp, Stack,
};
use crate::interp::{int_is_neg, int_len};
use std::collections::HashMap;
use vstd::prelude::*;

verus! {

/// What a step leaves to the one that runs the call.
pub enum Effect {
    /// Go on with the next instruction.
    Next,
    /// Run `func` with the registers `stack`, and write what it returns at
    /// `dst`.
    Call { func: u64, stack: Stack, dst: Memory },
    /// End the program with this status.
    Exit(u8),
    /// Print the characters with these code points, to the standard error
    /// when `to_stderr`.
    Print { chars: Vec<u32>, to_stderr: bool },
    /// Sleep for this many milliseconds.
    Sleep(u64),
    /// Big-integer arithmetic, left to the number library: `lhs` and `rhs`
    /// are the operands (`rhs` is empty for a unary operation), `amount` is
    /// the shift of a shift. Its result goes to `dst`.
    IntOp { intrinsic: Intrinsic, lhs: BigInt, rhs: BigInt, amount: u32, dst: Memory },
}

/// How a block ends.
pub enum Flow {
    Jump(u32),
    TailCall { func: u64, stack: Stack },
    Return(u32),
    /// Run the initializer of `global` with no registers, then jump to `label`.
    InitGlobal { global: u64, label: u32 },
    /// The global is initialized already: the block runs again.
    Repeat,
}

/// The result of big-integer arithmetic.
pub enum IntResult {
    Int(BigInt),
    Bool(bool),
    Scalar(u32),
}

/// Register `args[i]` is set.
pub open spec fn set_arg(args: Seq<u32>, i: int, s: Map<u32, u32>) -> bool {
    0 <= i < args.len() && s.contains_key(args[i])
}

/// The value of register `args[i]`.
pub open spec fn arg_val(args: Seq<u32>, i: int, s: Map<u32, u32>) -> int {
    s[args[i]] as int
}

/// An integer lies at `p` inside the heap.
pub open spec fn int_ok(d: Seq<u32>, p: int) -> bool {
    0 <= p < d.len() && p + 1 + int_len(d[p]) <= d.len()
}

/// `b` is the integer at `p`.
pub open spec fn int_read(b: BigInt, d: Seq<u32>, p: int) -> bool {
    &&& b.is_neg == int_is_neg(d[p])
    &&& b.nums@ == d.subrange(p + 1, p + 1 + int_len(d[p]))
}

/// The elements of the list at `p`.
pub open spec fn list_elems(d: Seq<u32>, p: int) -> Seq<u32> {
    d.subrange(d[p] + d[p + 1] + 1, d[p] + d[p + 1] + d[p + 2] + 1)
}

/// The milliseconds that an integer of the limbs `ns` asks to sleep: its
/// value where it has one or two limbs, else the most there is.
pub open spec fn sleep_ms(ns: Seq<u32>) -> u64 {
    if ns.len() == 1 {
        ns[0] as u64
    } else if ns.len() == 2 {
        (ns[0] + ns[1] * 0x1_0000_0000) as u64
    } else {
        u64::MAX
    }
}

/// The scalar operation of an intrinsic on scalars.
pub open spec fn scalar_of(i: Intrinsic) -> Option<ScalarOp> {
    match i {
        Intrinsic::AddScalar => Some(ScalarOp::Add),
        Intrinsic::SubScalar => Some(ScalarOp::Sub),
        Intrinsic::MulScalar => Some(ScalarOp::Mul),
        Intrinsic::DivScalar => Some(ScalarOp::Div),
        Intrinsic::RemScalar => Some(ScalarOp::Rem),
        Intrinsic::BitAndScalar => Some(ScalarOp::BitAnd),
        Intrinsic::BitOrScalar => Some(ScalarOp::BitOr),
        Intrinsic::LtScalar => Some(ScalarOp::Lt),
        Intrinsic::EqScalar => Some(ScalarOp::Eq),
        Intrinsic::GtScalar => Some(ScalarOp::Gt),
        _ => None,
    }
}

/// An intrinsic on two integers that the number library computes.
pub open spec fn int_binary(i: Intrinsic) -> bool {
    ||| i == Intrinsic::AddInt
    ||| i == Intrinsic::SubInt
    ||| i == Intrinsic::MulInt
    ||| i == Intrinsic::DivInt
    ||| i == Intrinsic::RemInt
    ||| i == Intrinsic::LtInt
    ||| i == Intrinsic::EqInt
    ||| i == Intrinsic::GtInt
}

/// Writing `v` at `dst` turned `s0` and `h0` into `s1` and `h1`.
pub open spec fn stored(dst: Memory, v: u32, s0: Map<u32, u32>, h0: Heap, s1: Map<u32, u32>, h1: Heap) -> bool {
    &&& writes(dst, v, s0, h0.data@, s1, h1.data@)
    &&& h0.same_apart_from_data(&h1)
}

/// Nothing changed.
pub open spec fn unchanged(s0: Map<u32, u32>, h0: Heap, s1: Map<u32, u32>, h1: Heap) -> bool {
    &&& s1 == s0
    &&& h1.data@ == h0.data@
    &&& h0.same_apart_from_data(&h1)
}

/// `m` is `h0` with new blocks in use and the old ones as they were.
pub open spec fn grown(h0: Heap, m: Heap) -> bool {
    &&& m.wf()
    &&& h0.live_blocks_kept(&m)
    &&& h0.same_tables(&m)
}

/// `p` is a new integer of the value `n` in `m`.
pub open spec fn made_int(h0: Heap, m: Heap, p: u32, n: u32) -> bool {
    &&& grown(h0, m)
    &&& !h0.allocated(p as usize)
    &&& m.allocated(p as usize)
    &&& m.data@[p as int] == 1
    &&& m.data@[p + 1] == n
}

/// `p` stands for `v` in `m`, in blocks that are new.
pub open spec fn made_value(h0: Heap, m: Heap, p: u32, v: Value) -> bool {
    &&& grown(h0, m)
    &&& stores_from(m, p, v, h0.heap_debug_info.allocations@)
}

/// `p` is a new list of `elements` elements in `m`.
pub open spec fn made_list(h0: Heap, m: Heap, p: u32, elements: int) -> bool {
    let d = m.data@;
    &&& grown(h0, m)
    &&& m.allocated(p as usize)
    &&& d[p + 1] == 0
    &&& d[p + 2] == elements
    &&& m.allocated(d[p as int] as usize)
    &&& d[d[p as int] as int] == elements
    &&& list_in_bounds(d, p as int)
}

/// `p` is a new copy of the tuple of `size` scalars at `ptr` in `m`, with
/// `value` at `index`.
pub open spec fn made_update(h0: Heap, m: Heap, p: u32, ptr: int, size: int, index: int, value: u32) -> bool {
    &&& grown(h0, m)
    &&& m.allocated(p as usize)
    &&& !h0.allocated(p as usize)
    &&& p + size <= m.data@.len()
    &&& m.data@.subrange(p as int, p + size) == h0.data@.subrange(ptr, ptr + size).update(index, value)
}

/// `p` is a new list in `m` over the buffer of the list at `sp`, from its
/// element `start` on, of `len` elements.
pub open spec fn made_slice(h0: Heap, m: Heap, p: u32, sp: int, start: int, len: int) -> bool {
    let d0 = h0.data@;
    let d = m.data@;
    &&& grown(h0, m)
    &&& m.allocated(p as usize)
    &&& d[p as int] == d0[sp]
    &&& d[p + 1] == d0[sp + 1] + start
    &&& d[p + 2] == len
}

/// `p` is a new list in `m`: the elements of the list at `sp` and then
/// `value`, in a new buffer.
pub open spec fn made_append(h0: Heap, m: Heap, p: u32, sp: int, value: u32) -> bool {
    &&& grown(h0, m)
    &&& m.allocated(p as usize)
    &&& m.data@[p + 1] == 0
    &&& list_in_bounds(m.data@, p as int)
    &&& list_view(m.data@, p as int) == list_view(h0.data@, sp).push(value)
}

/// Where an intrinsic stops the interpreter; `None` where it does not.
pub open spec fn intrinsic_fault(i: Intrinsic, args: Seq<u32>, dst: Memory, s: Map<u32, u32>, h: Heap) -> Option<Fault> {
    let d = h.data@;
    let a0 = set_arg(args, 0, s);
    let a1 = set_arg(args, 1, s);
    let a2 = set_arg(args, 2, s);
    let v0 = arg_val(args, 0, s);
    let v1 = arg_val(args, 1, s);
    let v2 = arg_val(args, 2, s);
    let st = storable(dst, s, h);
    if scalar_of(i) is Some {
        if !a0 || !a1 || !st {
            Some(Fault::BadAccess)
        } else if !scalar_op_defined(scalar_of(i)->0, v0 as u32, v1 as u32) {
            Some(Fault::Overflow)
        } else {
            None
        }
    } else if int_binary(i) {
        if !a0 || !a1 || !int_ok(d, v0) || !int_ok(d, v1) {
            Some(Fault::BadAccess)
        } else {
            None
        }
    } else {
        match i {
            Intrinsic::NegInt | Intrinsic::Ilog2Int => if !a0 || !int_ok(d, v0) {
                Some(Fault::BadAccess)
            } else {
                None
            },
            Intrinsic::ShrInt | Intrinsic::ShlInt => if !a0 || !int_ok(d, v0) || !a1 {
                Some(Fault::BadAccess)
            } else {
                None
            },
            Intrinsic::ScalarToInt => if !a0 || !st {
                Some(Fault::BadAccess)
            } else if d.len() + 2570 > u32::MAX {
                Some(Fault::OutOfMemory)
            } else {
                None
            },
            Intrinsic::IntToScalar => if !a0 || !int_ok(d, v0) || int_len(d[v0]) < 1 || !st {
                Some(Fault::BadAccess)
            } else {
                None
            },
            Intrinsic::IndexList => if !a0 || !a1 || v0 + 1 >= d.len() || d[v0] + d[v0 + 1] + v1 + 1
                >= d.len() || !st {
                Some(Fault::BadAccess)
            } else {
                None
            },
            Intrinsic::LenList => if !a0 || v0 + 2 >= d.len() || !st {
                Some(Fault::BadAccess)
            } else {
                None
            },
            Intrinsic::SliceList => if !a0 || !a1 || !a2 || v0 + 1 >= d.len() || !st {
                Some(Fault::BadAccess)
            } else if d[v0 + 1] + v1 > u32::MAX || v1 > v2 {
                Some(Fault::Overflow)
            } else if d.len() + 2569 > u32::MAX {
                Some(Fault::OutOfMemory)
            } else {
                None
            },
            Intrinsic::SliceRightList => if !a0 || !a1 || v0 + 2 >= d.len() || !st {
                Some(Fault::BadAccess)
            } else if d[v0 + 1] + v1 > u32::MAX || v1 > d[v0 + 2] {
                Some(Fault::Overflow)
            } else if d.len() + 2569 > u32::MAX {
                Some(Fault::OutOfMemory)
            } else {
                None
            },
            Intrinsic::AppendList => if !a0 || !a1 || !list_in_bounds(d, v0) || !st {
                Some(Fault::BadAccess)
            } else if d[v0 + 2] + 2 >= 0x8000_0000 || d.len() + d[v0 + 2] + 5200 > u32::MAX {
                Some(Fault::OutOfMemory)
            } else {
                None
            },
            Intrinsic::Exit => if !a0 {
                Some(Fault::BadAccess)
            } else {
                None
            },
            Intrinsic::Print | Intrinsic::EPrint | Intrinsic::Debug => if !a0 || !list_in_bounds(
                d,
                v0,
            ) {
                Some(Fault::BadAccess)
            } else {
                None
            },
            Intrinsic::Sleep => if !a0 || !int_ok(d, v0) {
                Some(Fault::BadAccess)
            } else {
                None
            },
            Intrinsic::Nop0 => None,
            Intrinsic::Nop1 => if !a0 || !st {
                Some(Fault::BadAccess)
            } else {
                None
            },
            _ => Some(Fault::Unsupported),
        }
    }
}

/// What an intrinsic that did not stop the interpreter did.
pub open spec fn intrinsic_done(
    i: Intrinsic,
    args: Seq<u32>,
    dst: Memory,
    s0: Map<u32, u32>,
    h0: Heap,
    e: Effect,
    s1: Map<u32, u32>,
    h1: Heap,
) -> bool {
    let d = h0.data@;
    let v0 = arg_val(args, 0, s0);
    let v1 = arg_val(args, 1, s0);
    let v2 = arg_val(args, 2, s0);
    if scalar_of(i) is Some {
        e is Next && stored(dst, scalar_op_result(scalar_of(i)->0, v0 as u32, v1 as u32), s0, h0, s1, h1)
    } else if int_binary(i) || i == Intrinsic::NegInt || i == Intrinsic::Ilog2Int || i
        == Intrinsic::ShrInt || i == Intrinsic::ShlInt {
        let unary = i == Intrinsic::NegInt || i == Intrinsic::Ilog2Int || i == Intrinsic::ShrInt
            || i == Intrinsic::ShlInt;
        &&& unchanged(s0, h0, s1, h1)
        &&& e matches Effect::IntOp { intrinsic, lhs, rhs, amount, dst: ed } && {
            &&& intrinsic == i
            &&& ed == dst
            &&& int_read(lhs, d, v0)
            &&& unary ==> !rhs.is_neg && rhs.nums@.len() == 0
            &&& !unary ==> int_read(rhs, d, v1)
            &&& amount == (if i == Intrinsic::ShrInt || i == Intrinsic::ShlInt {
                v1
            } else {
                0
            })
        }
    } else {
        match i {
            Intrinsic::ScalarToInt => e is Next && exists|m: Heap, p: u32| #[trigger] made_int(h0, m, p, v0 as u32) && stored(dst, p, s0, m, s1, h1),
            Intrinsic::IntToScalar => e is Next && stored(dst, d[v0 + 1], s0, h0, s1, h1),
            Intrinsic::IndexList => e is Next && stored(dst, d[d[v0] + d[v0 + 1] + v1 + 1], s0, h0, s1, h1),
            Intrinsic::LenList => e is Next && stored(dst, d[v0 + 2], s0, h0, s1, h1),
            Intrinsic::SliceList => e is Next && exists|m: Heap, p: u32| #[trigger] made_slice(h0, m, p, v0, v1, v2 - v1) && stored(dst, p, s0, m, s1, h1),
            Intrinsic::SliceRightList => e is Next && exists|m: Heap, p: u32| #[trigger] made_slice(h0, m, p, v0, v1, d[v0 + 2] - v1) && stored(dst, p, s0, m, s1, h1),
            Intrinsic::AppendList => e is Next && exists|m: Heap, p: u32| #[trigger] made_append(h0, m, p, v0, v1 as u32) && stored(dst, p, s0, m, s1, h1),
            Intrinsic::Exit => e == Effect::Exit((v0 % 256) as u8) && unchanged(s0, h0, s1, h1),
            Intrinsic::Print | Intrinsic::EPrint | Intrinsic::Debug => {
                &&& unchanged(s0, h0, s1, h1)
                &&& e matches Effect::Print { chars, to_stderr } && chars@ == list_elems(d, v0) && to_stderr == (i == Intrinsic::EPrint)
            },
            Intrinsic::Sleep => e == Effect::Sleep(sleep_ms(d.subrange(v0 + 1, v0 + 1 + int_len(d[v0])))) && unchanged(s0, h0, s1, h1),
            Intrinsic::Nop0 => e is Next && unchanged(s0, h0, s1, h1),
            Intrinsic::Nop1 => e is Next && stored(dst, v0 as u32, s0, h0, s1, h1),
            _ => false,
        }
    }
}


/// The value of register `args[i]`, where `i < args.len()` and it is set.
fn arg(args: &Vec<u32>, i: usize, stack: &Stack) -> (r: Option<u32>)
    ensures
        match r {
            Some(v) => set_arg(args@, i as int, stack.ssa@) && v as int == arg_val(
                args@,
                i as int,
                stack.ssa@,
            ),
            None => !set_arg(args@, i as int, stack.ssa@),
        },
{
    if i < args.len() {
        match stack.ssa.get(&args[i]) {
            Some(v) => Some(*v),
            None => None,
        }
    } else {
        None
    }
}

/// Whether `dst` is storable.
pub fn is_storable(dst: &Memory, stack: &Stack, heap: &Heap) -> (r: bool)
    requires
        heap.wf(),
    ensures
        r == storable(*dst, stack.ssa@, *heap),
{
    match dst {
        Memory::Ssa(_) => true,
        Memory::Heap { ptr, offset } => match stack.ssa.get(ptr) {
            Some(p) => match heap.heap_debug_info.allocations.get(&(*p as usize)) {
                Some(n) => *offset < *n,
                None => false,
            },
            None => false,
        },
        Memory::List { ptr, offset } => {
            let p = match stack.ssa.get(ptr) {
                Some(p) => *p as usize,
                None => {
                    return false;
                },
            };
            match heap.heap_debug_info.allocations.get(&p) {
                Some(n) => {
                    if *n < 2 {
                        return false;
                    }
                },
                None => {
                    return false;
                },
            }
            proof {
                lemma_allocated_facts(*heap, p);
            }
            let data_ptr = heap.data[p] as usize;
            match heap.heap_debug_info.allocations.get(&data_ptr) {
                Some(n) => (heap.data[p + 1] as u64) + (*offset as u64) + 1 < (*n as u64),
                None => false,
            }
        },
    }
}

/// A place that is storable stays so, and names the same scalar, when the
/// blocks in use are kept.
proof fn lemma_storable_kept(dst: Memory, s: Map<u32, u32>, h0: Heap, m: Heap)
    requires
        h0.wf(),
        storable(dst, s, h0),
        h0.live_blocks_kept(&m),
    ensures
        storable(dst, s, m),
        heap_index(dst, s, m.data@) == heap_index(dst, s, h0.data@),
{
    match dst {
        Memory::Ssa(_) => {},
        Memory::Heap { ptr, offset } => {
            assert(h0.heap_debug_info.allocations@.contains_key(s[ptr] as usize));
        },
        Memory::List { ptr, offset } => {
            let p = s[ptr] as usize;
            assert(h0.heap_debug_info.allocations@.contains_key(p));
            lemma_allocated_facts(h0, p);
            assert(m.data@[p as int] == h0.data@[p as int]);
            assert(m.data@[p + 1] == h0.data@[p + 1]);
            assert(h0.heap_debug_info.allocations@.contains_key(h0.data@[p as int] as usize));
        },
    }
}

/// Whether an integer lies at `p`.
fn int_at(heap: &Heap, p: u32) -> (r: bool)
    ensures
        r == int_ok(heap.data@, p as int),
{
    if p as usize >= heap.data.len() {
        return false;
    }
    let len = heap.data[p as usize] % 0x8000_0000;
    (p as u64) + 1 + (len as u64) <= heap.data.len() as u64
}

/// The integer at `p`.
fn read_int(heap: &Heap, p: u32) -> (b: BigInt)
    requires
        int_ok(heap.data@, p as int),
    ensures
        int_read(b, heap.data@, p as int),
{
    let (is_neg, nums) = crate::interp::inspect_int(heap.data.as_slice(), p as usize);
    BigInt { is_neg, nums: vstd::slice::slice_to_vec(nums) }
}

/// Whether a list lies at `p` with its elements inside the heap.
fn list_at(heap: &Heap, p: u32) -> (r: bool)
    ensures
        r == list_in_bounds(heap.data@, p as int),
{
    let n = heap.data.len() as u64;
    if p as u64 + 2 >= n {
        return false;
    }
    let p = p as usize;
    (heap.data[p] as u64) + (heap.data[p + 1] as u64) + (heap.data[p + 2] as u64) + 1 <= n
}

fn scalar_intrinsic(i: Intrinsic) -> (r: Option<ScalarOp>)
    ensures
        r == scalar_of(i),
{
    match i {
        Intrinsic::AddScalar => Some(ScalarOp::Add),
        Intrinsic::SubScalar => Some(ScalarOp::Sub),
        Intrinsic::MulScalar => Some(ScalarOp::Mul),
        Intrinsic::DivScalar => Some(ScalarOp::Div),
        Intrinsic::RemScalar => Some(ScalarOp::Rem),
        Intrinsic::BitAndScalar => Some(ScalarOp::BitAnd),
        Intrinsic::BitOrScalar => Some(ScalarOp::BitOr),
        Intrinsic::LtScalar => Some(ScalarOp::Lt),
        Intrinsic::EqScalar => Some(ScalarOp::Eq),
        Intrinsic::GtScalar => Some(ScalarOp::Gt),
        _ => None,
    }
}

fn scalar_defined(op: ScalarOp, x: u32, y: u32) -> (r: bool)
    ensures
        r == scalar_op_defined(op, x, y),
{
    match op {
        ScalarOp::Add => x as u64 + y as u64 <= 0xffff_ffff,
        ScalarOp::Sub => x >= y,
        ScalarOp::Mul => {
            assert((x as u64) * (y as u64) <= 0xffff_ffff_ffff_ffff) by (nonlinear_arith)
                requires
                    x <= 0xffff_ffff,
                    y <= 0xffff_ffff,
            ;
            (x as u64) * (y as u64) <= 0xffff_ffff
        },
        ScalarOp::Div | ScalarOp::Rem => y != 0,
        _ => true,
    }
}


/// Runs an intrinsic: computes and writes its result, or hands out what is
/// left to the caller; stops where the interpreter would panic.
pub fn run_intrinsic(
    intrinsic: Intrinsic,
    args: &Vec<u32>,
    dst: &Memory,
    stack: &mut Stack,
    heap: &mut Heap,
) -> (r: Result<Effect, Fault>)
    requires
        old(heap).wf(),
        old(heap).func_pointers_wf(),
    ensures
        final(heap).wf(),
        final(heap).func_pointers_wf(),
        final(stack).return_value == old(stack).return_value,
        match r {
            Err(f) => intrinsic_fault(intrinsic, args@, *dst, old(stack).ssa@, *old(heap)) == Some(f)
                && unchanged(old(stack).ssa@, *old(heap), final(stack).ssa@, *final(heap)),
            Ok(e) => intrinsic_fault(intrinsic, args@, *dst, old(stack).ssa@, *old(heap)) is None
                && intrinsic_done(
                intrinsic,
                args@,
                *dst,
                old(stack).ssa@,
                *old(heap),
                e,
                final(stack).ssa@,
                *final(heap),
            ),
        },
{
    let ghost s0 = stack.ssa@;
    let ghost h0 = *heap;
    let a0 = arg(args, 0, stack);
    let a1 = arg(args, 1, stack);
    let a2 = arg(args, 2, stack);
    if let Some(op) = scalar_intrinsic(intrinsic) {
        let (x, y) = match (a0, a1) {
            (Some(x), Some(y)) => (x, y),
            _ => {
                return Err(Fault::BadAccess);
            },
        };
        if !is_storable(dst, stack, heap) {
            return Err(Fault::BadAccess);
        }
        if !scalar_defined(op, x, y) {
            return Err(Fault::Overflow);
        }
        let v = scalar_op(op, x, y);
        store(dst, v, stack, heap);
        return Ok(Effect::Next);
    }
    match intrinsic {
        Intrinsic::AddInt | Intrinsic::SubInt | Intrinsic::MulInt | Intrinsic::DivInt
        | Intrinsic::RemInt | Intrinsic::LtInt | Intrinsic::EqInt | Intrinsic::GtInt => {
            let (x, y) = match (a0, a1) {
                (Some(x), Some(y)) => (x, y),
                _ => {
                    return Err(Fault::BadAccess);
                },
            };
            if !int_at(heap, x) || !int_at(heap, y) {
                return Err(Fault::BadAccess);
            }
            let lhs = read_int(heap, x);
            let rhs = read_int(heap, y);
            Ok(Effect::IntOp { intrinsic, lhs, rhs, amount: 0, dst: *dst })
        },
        Intrinsic::NegInt | Intrinsic::Ilog2Int | Intrinsic::ShrInt | Intrinsic::ShlInt => {
            let x = match a0 {
                Some(x) => x,
                None => {
                    return Err(Fault::BadAccess);
                },
            };
            if !int_at(heap, x) {
                return Err(Fault::BadAccess);
            }
            let shift = match intrinsic {
                Intrinsic::ShrInt | Intrinsic::ShlInt => true,
                _ => false,
            };
            let amount = if shift {
                match a1 {
                    Some(y) => y,
                    None => {
                        return Err(Fault::BadAccess);
                    },
                }
            } else {
                0
            };
            let lhs = read_int(heap, x);
            let rhs = BigInt { is_neg: false, nums: Vec::new() };
            Ok(Effect::IntOp { intrinsic, lhs, rhs, amount, dst: *dst })
        },
        Intrinsic::ScalarToInt => {
            let x = match a0 {
                Some(x) => x,
                None => {
                    return Err(Fault::BadAccess);
                },
            };
            if !is_storable(dst, stack, heap) {
                return Err(Fault::BadAccess);
            }
            if heap.data.len() as u64 > 0xffff_ffff - 2570 {
                return Err(Fault::OutOfMemory);
            }
            let p = heap.alloc_int_from_u32(x);
            let ghost m = *heap;
            proof {
                lemma_storable_kept(*dst, s0, h0, m);
                assert(made_int(h0, m, p, arg_val(args@, 0, s0) as u32));
            }
            store(dst, p, stack, heap);
            Ok(Effect::Next)
        },
        Intrinsic::IntToScalar => {
            let x = match a0 {
                Some(x) => x,
                None => {
                    return Err(Fault::BadAccess);
                },
            };
            if !int_at(heap, x) || heap.data[x as usize] % 0x8000_0000 < 1 || !is_storable(
                dst,
                stack,
                heap,
            ) {
                return Err(Fault::BadAccess);
            }
            let v = heap.data[x as usize + 1];
            store(dst, v, stack, heap);
            Ok(Effect::Next)
        },
        Intrinsic::IndexList => {
            let (x, y) = match (a0, a1) {
                (Some(x), Some(y)) => (x, y),
                _ => {
                    return Err(Fault::BadAccess);
                },
            };
            let n = heap.data.len() as u64;
            if x as u64 + 1 >= n {
                return Err(Fault::BadAccess);
            }
            let at = heap.data[x as usize] as u64 + heap.data[x as usize + 1] as u64 + y as u64 + 1;
            if at >= n || !is_storable(dst, stack, heap) {
                return Err(Fault::BadAccess);
            }
            let v = heap.data[at as usize];
            store(dst, v, stack, heap);
            Ok(Effect::Next)
        },
        Intrinsic::LenList => {
            let x = match a0 {
                Some(x) => x,
                None => {
                    return Err(Fault::BadAccess);
                },
            };
            if x as u64 + 2 >= heap.data.len() as u64 || !is_storable(dst, stack, heap) {
                return Err(Fault::BadAccess);
            }
            let v = heap.data[x as usize + 2];
            store(dst, v, stack, heap);
            Ok(Effect::Next)
        },
        Intrinsic::SliceList => {
            let (x, y, z) = match (a0, a1, a2) {
                (Some(x), Some(y), Some(z)) => (x, y, z),
                _ => {
                    return Err(Fault::BadAccess);
                },
            };
            if x as u64 + 1 >= heap.data.len() as u64 || !is_storable(dst, stack, heap) {
                return Err(Fault::BadAccess);
            }
            if heap.data[x as usize + 1] as u64 + y as u64 > 0xffff_ffff || y > z {
                return Err(Fault::Overflow);
            }
            if heap.data.len() as u64 > 0xffff_ffff - 2569 {
                return Err(Fault::OutOfMemory);
            }
            let p = heap.slice_list(x as usize, y, z);
            let ghost m = *heap;
            proof {
                lemma_storable_kept(*dst, s0, h0, m);
                assert(made_slice(h0, m, p, x as int, y as int, z - y));
            }
            store(dst, p, stack, heap);
            Ok(Effect::Next)
        },
        Intrinsic::SliceRightList => {
            let (x, y) = match (a0, a1) {
                (Some(x), Some(y)) => (x, y),
                _ => {
                    return Err(Fault::BadAccess);
                },
            };
            if x as u64 + 2 >= heap.data.len() as u64 || !is_storable(dst, stack, heap) {
                return Err(Fault::BadAccess);
            }
            if heap.data[x as usize + 1] as u64 + y as u64 > 0xffff_ffff || y > heap.data[x as usize
                + 2] {
                return Err(Fault::Overflow);
            }
            if heap.data.len() as u64 > 0xffff_ffff - 2569 {
                return Err(Fault::OutOfMemory);
            }
            let p = heap.slice_right_list(x as usize, y);
            let ghost m = *heap;
            proof {
                lemma_storable_kept(*dst, s0, h0, m);
                assert(made_slice(h0, m, p, x as int, y as int, h0.data@[x + 2] - y));
            }
            store(dst, p, stack, heap);
            Ok(Effect::Next)
        },
        Intrinsic::AppendList => {
            let (x, y) = match (a0, a1) {
                (Some(x), Some(y)) => (x, y),
                _ => {
                    return Err(Fault::BadAccess);
                },
            };
            if !list_at(heap, x) || !is_storable(dst, stack, heap) {
                return Err(Fault::BadAccess);
            }
            let len = heap.data[x as usize + 2] as u64;
            if len + 2 >= 0x8000_0000 || heap.data.len() as u64 > 0xffff_ffff - 5200 - len {
                return Err(Fault::OutOfMemory);
            }
            let p = heap.append_list(x as usize, y);
            let ghost m = *heap;
            proof {
                lemma_storable_kept(*dst, s0, h0, m);
                assert(made_append(h0, m, p, x as int, arg_val(args@, 1, s0) as u32));
            }
            store(dst, p, stack, heap);
            Ok(Effect::Next)
        },
        Intrinsic::Exit => match a0 {
            Some(x) => Ok(Effect::Exit((x % 256) as u8)),
            None => Err(Fault::BadAccess),
        },
        Intrinsic::Print | Intrinsic::EPrint | Intrinsic::Debug => {
            let x = match a0 {
                Some(x) => x,
                None => {
                    return Err(Fault::BadAccess);
                },
            };
            if !list_at(heap, x) {
                return Err(Fault::BadAccess);
            }
            let chars = vstd::slice::slice_to_vec(
                crate::interp::inspect_list(heap.data.as_slice(), x as usize),
            );
            let to_stderr = match intrinsic {
                Intrinsic::EPrint => true,
                _ => false,
            };
            Ok(Effect::Print { chars, to_stderr })
        },
        Intrinsic::Sleep => {
            let x = match a0 {
                Some(x) => x,
                None => {
                    return Err(Fault::BadAccess);
                },
            };
            if !int_at(heap, x) {
                return Err(Fault::BadAccess);
            }
            let p = x as usize;
            let len = heap.data[p] % 0x8000_0000;
            let ghost ns = heap.data@.subrange(p + 1, p + 1 + int_len(heap.data@[p as int]));
            let ms: u64 = if len == 1 {
                heap.data[p + 1] as u64
            } else if len == 2 {
                let lo = heap.data[p + 1] as u64;
                let hi = heap.data[p + 2] as u64;
                assert(hi * 0x1_0000_0000 <= 0xffff_ffff_0000_0000) by (nonlinear_arith)
                    requires
                        hi <= 0xffff_ffff,
                ;
                lo + hi * 0x1_0000_0000
            } else {
                0xffff_ffff_ffff_ffff
            };
            proof {
                assert(ms == sleep_ms(ns));
            }
            Ok(Effect::Sleep(ms))
        },
        Intrinsic::Nop0 => Ok(Effect::Next),
        Intrinsic::Nop1 => {
            let x = match a0 {
                Some(x) => x,
                None => {
                    return Err(Fault::BadAccess);
                },
            };
            if !is_storable(dst, stack, heap) {
                return Err(Fault::BadAccess);
            }
            store(dst, x, stack, heap);
            Ok(Effect::Next)
        },
        _ => Err(Fault::Unsupported),
    }
}


/// Every register of `args` is set.
pub open spec fn all_set(args: Seq<u32>, s: Map<u32, u32>) -> bool {
    forall|i: int| 0 <= i < args.len() ==> s.contains_key(#[trigger] args[i])
}

/// The registers of a callee: its register `k` holds register `args[k]`.
pub open spec fn callee_regs(args: Seq<u32>, s: Map<u32, u32>) -> Map<u32, u32> {
    Map::new(|k: u32| (k as int) < args.len(), |k: u32| s[args[k as int]])
}

/// Where an instruction stops the interpreter; `None` where it does not.
pub open spec fn step_fault(code: Bytecode, s: Map<u32, u32>, h: Heap, data: Map<u64, Value>) -> Option<Fault> {
    let d = h.data@;
    match code {
        Bytecode::Const { value, dst } => if !storable(dst, s, h) {
            Some(Fault::BadAccess)
        } else {
            match value {
                InternedValue::Scalar(_) => None,
                InternedValue::Interned(k) => if !data.contains_key(k) {
                    Some(Fault::UnknownName)
                } else if !no_func_pointer(data[k]) {
                    Some(Fault::Unsupported)
                } else if need(data[k]) >= 0x8000_0000 || d.len() + need(data[k]) > u32::MAX {
                    Some(Fault::OutOfMemory)
                } else {
                    None
                },
                InternedValue::FuncPointer(_) => if h.func_pointers@.len() >= u32::MAX {
                    Some(Fault::OutOfMemory)
                } else {
                    None
                },
            }
        },
        Bytecode::Move { src, dst } => if !accessible(src, s, d) || !storable(dst, s, h) {
            Some(Fault::BadAccess)
        } else {
            None
        },
        Bytecode::Phi { pair, dst } => if !(s.contains_key(pair.0) || s.contains_key(pair.1))
            || !storable(dst, s, h) {
            Some(Fault::BadAccess)
        } else {
            None
        },
        Bytecode::Call { func, args, dst } => if dst is None {
            Some(Fault::Unsupported)
        } else if args@.len() > u32::MAX || !all_set(args@, s) {
            Some(Fault::BadAccess)
        } else {
            None
        },
        Bytecode::CallDynamic { func, args, dst } => if dst is None {
            Some(Fault::Unsupported)
        } else if args@.len() > u32::MAX || !all_set(args@, s) || !s.contains_key(func) {
            Some(Fault::BadAccess)
        } else if !h.func_pointers_rev@.contains_key(s[func]) {
            Some(Fault::UnknownName)
        } else {
            None
        },
        Bytecode::LoadGlobal { src, dst } => if !h.global_values@.contains_key(src) {
            Some(Fault::UninitializedGlobal)
        } else {
            None
        },
        Bytecode::StoreGlobal { src, dst } => if !s.contains_key(src) {
            Some(Fault::BadAccess)
        } else {
            None
        },
        Bytecode::Update { src, size, index, value, dst } => {
            let a = h.heap_debug_info.allocations@;
            if !s.contains_key(src) || !s.contains_key(value) || !storable(dst, s, h)
                || !a.contains_key(s[src] as usize) || size > a[s[src] as usize] || index >= size {
                Some(Fault::BadAccess)
            } else if size >= 0x8000_0000 || d.len() + size + 2566 > u32::MAX {
                Some(Fault::OutOfMemory)
            } else {
                None
            }
        },
        Bytecode::Intrinsic { intrinsic, args, dst } => intrinsic_fault(intrinsic, args@, dst, s, h),
        Bytecode::InitTuple { elements, dst } => if !storable(dst, s, h) {
            Some(Fault::BadAccess)
        } else if elements >= 0x8000_0000 || d.len() + elements + 2566 > u32::MAX {
            Some(Fault::OutOfMemory)
        } else {
            None
        },
        Bytecode::InitList { elements, dst } => if !storable(dst, s, h) {
            Some(Fault::BadAccess)
        } else if elements >= 0x8000_0000 || d.len() + 2 * elements + 5200 > u32::MAX {
            Some(Fault::OutOfMemory)
        } else {
            None
        },
        _ => Some(Fault::Unsupported),
    }
}

/// The function pointer that `f` gets: its old one, else the next number.
pub open spec fn pointer_of(h: Heap, f: u64) -> u32 {
    if h.func_pointers@.contains_key(f) {
        h.func_pointers@[f]
    } else {
        h.func_pointers@.len() as u32
    }
}

/// What an instruction that did not stop the interpreter did.
pub open spec fn step_done(
    code: Bytecode,
    s0: Map<u32, u32>,
    h0: Heap,
    data: Map<u64, Value>,
    e: Effect,
    s1: Map<u32, u32>,
    h1: Heap,
) -> bool {
    let d = h0.data@;
    match code {
        Bytecode::Const { value, dst } => match value {
            InternedValue::Scalar(n) => e is Next && stored(dst, n, s0, h0, s1, h1),
            InternedValue::Interned(k) => e is Next && exists|m: Heap, p: u32|
                #[trigger] made_value(h0, m, p, data[k]) && stored(dst, p, s0, m, s1, h1),
            InternedValue::FuncPointer(f) => {
                let p = pointer_of(h0, f);
                &&& e is Next
                &&& writes(dst, p, s0, d, s1, h1.data@)
                &&& h1.func_pointers@ == h0.func_pointers@.insert(f, p)
                &&& h1.func_pointers_rev@ == h0.func_pointers_rev@.insert(p, f)
                &&& h1.global_values@ == h0.global_values@
                &&& h1.heap_debug_info.allocations@ == h0.heap_debug_info.allocations@
            },
        },
        Bytecode::Move { src, dst } => e is Next && stored(dst, read_spec(src, s0, d), s0, h0, s1, h1),
        Bytecode::Phi { pair, dst } => e is Next && stored(
            dst,
            if s0.contains_key(pair.0) {
                s0[pair.0]
            } else {
                s0[pair.1]
            },
            s0,
            h0,
            s1,
            h1,
        ),
        Bytecode::Call { func, args, dst } => {
            &&& unchanged(s0, h0, s1, h1)
            &&& e matches Effect::Call { func: f, stack, dst: ed } && f == func && dst == Some(ed)
                && stack.ssa@ == callee_regs(args@, s0) && stack.return_value == 0
        },
        Bytecode::CallDynamic { func, args, dst } => {
            &&& unchanged(s0, h0, s1, h1)
            &&& e matches Effect::Call { func: f, stack, dst: ed } && f
                == h0.func_pointers_rev@[s0[func]] && dst == Some(ed) && stack.ssa@ == callee_regs(
                args@,
                s0,
            ) && stack.return_value == 0
        },
        Bytecode::LoadGlobal { src, dst } => {
            &&& e is Next
            &&& s1 == s0.insert(dst, h0.global_values@[src])
            &&& h1.data@ == d
            &&& h0.same_apart_from_data(&h1)
        },
        Bytecode::StoreGlobal { src, dst } => {
            &&& e is Next
            &&& s1 == s0
            &&& h1.data@ == d
            &&& h1.global_values@ == h0.global_values@.insert(dst, s0[src])
            &&& h1.func_pointers@ == h0.func_pointers@
            &&& h1.func_pointers_rev@ == h0.func_pointers_rev@
            &&& h1.heap_debug_info.allocations@ == h0.heap_debug_info.allocations@
        },
        Bytecode::Update { src, size, index, value, dst } => e is Next && exists|m: Heap, p: u32|
            #[trigger] made_update(h0, m, p, s0[src] as int, size as int, index as int, s0[value])
                && stored(dst, p, s0, m, s1, h1),
        Bytecode::Intrinsic { intrinsic, args, dst } => intrinsic_done(
            intrinsic,
            args@,
            dst,
            s0,
            h0,
            e,
            s1,
            h1,
        ),
        Bytecode::InitTuple { elements, dst } => e is Next && exists|m: Heap, p: u32|
            #[trigger] h0.allocation_done(&m, elements as int, p as usize) && stored(dst, p, s0, m, s1, h1),
        Bytecode::InitList { elements, dst } => e is Next && exists|m: Heap, p: u32|
            #[trigger] made_list(h0, m, p, elements as int) && stored(dst, p, s0, m, s1, h1),
        _ => false,
    }
}


/// Whether every register of `args` is set.
fn all_regs_set(args: &Vec<u32>, stack: &Stack) -> (r: bool)
    ensures
        r == all_set(args@, stack.ssa@),
{
    let mut i: usize = 0;
    while i < args.len()
        invariant
            i <= args@.len(),
            forall|j: int| 0 <= j < i ==> stack.ssa@.contains_key(#[trigger] args@[j]),
        decreases args@.len() - i,
    {
        if !stack.ssa.contains_key(&args[i]) {
            return false;
        }
        i = i + 1;
    }
    true
}

/// The registers of a call of `args`, where their number fits in 32 bits
/// and every one is set.
fn callee_stack(args: &Vec<u32>, stack: &Stack) -> (r: Option<Stack>)
    ensures
        match r {
            Some(st) => args@.len() <= u32::MAX && all_set(args@, stack.ssa@) && st.ssa@
                == callee_regs(args@, stack.ssa@) && st.return_value == 0,
            None => !(args@.len() <= u32::MAX && all_set(args@, stack.ssa@)),
        },
{
    if args.len() as u64 > 0xffff_ffff || !all_regs_set(args, stack) {
        return None;
    }
    let st = Stack::from_args(args.as_slice(), stack);
    proof {
        assert(st.ssa@ =~= callee_regs(args@, stack.ssa@));
    }
    Some(st)
}

/// Runs one instruction of a basic block: writes what it computes, or hands
/// out what is left to the caller; stops where the interpreter would panic.
/// `data` is the program's table of constant values.
pub fn run_bytecode(
    code: &Bytecode,
    stack: &mut Stack,
    heap: &mut Heap,
    data: &HashMap<u64, Value>,
) -> (r: Result<Effect, Fault>)
    requires
        old(heap).wf(),
        old(heap).func_pointers_wf(),
    ensures
        final(heap).wf(),
        final(heap).func_pointers_wf(),
        final(stack).return_value == old(stack).return_value,
        *code matches Bytecode::Call { func, args, dst } ==> (r matches Ok(e) ==> (e matches Effect::Call {
            func: f,
            stack: callee,
            dst: d,
        } && f == func && dst == Some(d) && callee.return_value == 0 && callee.ssa@ == Map::new(
            |k: u32| (k as int) < args@.len(),
            |k: u32| old(stack).ssa@[args@[k as int]],
        ))),
        *code matches Bytecode::CallDynamic { func, args, dst } ==> (r matches Ok(e) ==> (
        e matches Effect::Call { stack: callee, dst: d, .. } && dst == Some(d) && callee.return_value
            == 0 && callee.ssa@ == Map::new(
            |k: u32| (k as int) < args@.len(),
            |k: u32| old(stack).ssa@[args@[k as int]],
        ))),
        match r {
            Err(f) => step_fault(*code, old(stack).ssa@, *old(heap), data@) == Some(f) && unchanged(
                old(stack).ssa@,
                *old(heap),
                final(stack).ssa@,
                *final(heap),
            ),
            Ok(e) => step_fault(*code, old(stack).ssa@, *old(heap), data@) is None && step_done(
                *code,
                old(stack).ssa@,
                *old(heap),
                data@,
                e,
                final(stack).ssa@,
                *final(heap),
            ),
        },
{
    let ghost s0 = stack.ssa@;
    let ghost h0 = *heap;
    match code {
        Bytecode::Const { value, dst } => {
            if !is_storable(dst, stack, heap) {
                return Err(Fault::BadAccess);
            }
            match value {
                InternedValue::Scalar(n) => {
                    store(dst, *n, stack, heap);
                    Ok(Effect::Next)
                },
                InternedValue::Interned(k) => {
                    let v = match data.get(k) {
                        Some(v) => v,
                        None => {
                            return Err(Fault::UnknownName);
                        },
                    };
                    if !free_of_func_pointers(v) {
                        return Err(Fault::Unsupported);
                    }
                    let n = match value_need(v) {
                        Some(n) => n,
                        None => {
                            return Err(Fault::OutOfMemory);
                        },
                    };
                    if heap.data.len() as u64 > 0xffff_ffff - n as u64 {
                        return Err(Fault::OutOfMemory);
                    }
                    proof {
                        lemma_need_fits(*v);
                    }
                    let p = heap.alloc_value(v);
                    let ghost m = *heap;
                    proof {
                        lemma_storable_kept(*dst, s0, h0, m);
                        assert(made_value(h0, m, p, data@[*k]));
                    }
                    store(dst, p, stack, heap);
                    Ok(Effect::Next)
                },
                InternedValue::FuncPointer(f) => {
                    if heap.func_pointers.len() as u64 >= 0xffff_ffff {
                        return Err(Fault::OutOfMemory);
                    }
                    let p = heap.alloc_func_pointer(*f);
                    proof {
                        assert(heap.func_pointers@ =~= h0.func_pointers@.insert(*f, p));
                        assert(heap.func_pointers_rev@ =~= h0.func_pointers_rev@.insert(p, *f));
                        assert(heap.wf());
                        assert(storable(*dst, s0, *heap));
                    }
                    store(dst, p, stack, heap);
                    Ok(Effect::Next)
                },
            }
        },
        Bytecode::Move { src, dst } => {
            if !is_accessible(src, stack, heap) || !is_storable(dst, stack, heap) {
                return Err(Fault::BadAccess);
            }
            let v = read(src, stack, heap);
            store(dst, v, stack, heap);
            Ok(Effect::Next)
        },
        Bytecode::Phi { pair, dst } => {
            let v = match stack.ssa.get(&pair.0) {
                Some(x) => *x,
                None => match stack.ssa.get(&pair.1) {
                    Some(y) => *y,
                    None => {
                        return Err(Fault::BadAccess);
                    },
                },
            };
            if !is_storable(dst, stack, heap) {
                return Err(Fault::BadAccess);
            }
            store(dst, v, stack, heap);
            Ok(Effect::Next)
        },
        Bytecode::Call { func, args, dst } => {
            let dst = match dst {
                Some(d) => *d,
                None => {
                    return Err(Fault::Unsupported);
                },
            };
            match callee_stack(args, stack) {
                Some(st) => Ok(Effect::Call { func: *func, stack: st, dst }),
                None => Err(Fault::BadAccess),
            }
        },
        Bytecode::CallDynamic { func, args, dst } => {
            let dst = match dst {
                Some(d) => *d,
                None => {
                    return Err(Fault::Unsupported);
                },
            };
            let st = match callee_stack(args, stack) {
                Some(st) => st,
                None => {
                    return Err(Fault::BadAccess);
                },
            };
            let f = match stack.ssa.get(func) {
                Some(f) => *f,
                None => {
                    return Err(Fault::BadAccess);
                },
            };
            match heap.func_pointers_rev.get(&f) {
                Some(label) => Ok(Effect::Call { func: *label, stack: st, dst }),
                None => Err(Fault::UnknownName),
            }
        },
        Bytecode::LoadGlobal { src, dst } => {
            let v = match heap.global_values.get(src) {
                Some(v) => *v,
                None => {
                    return Err(Fault::UninitializedGlobal);
                },
            };
            stack.ssa.insert(*dst, v);
            Ok(Effect::Next)
        },
        Bytecode::StoreGlobal { src, dst } => {
            let v = match stack.ssa.get(src) {
                Some(v) => *v,
                None => {
                    return Err(Fault::BadAccess);
                },
            };
            heap.global_values.insert(*dst, v);
            Ok(Effect::Next)
        },
        Bytecode::Update { src, size, index, value, dst } => {
            let (ptr, v) = match (stack.ssa.get(src), stack.ssa.get(value)) {
                (Some(p), Some(v)) => (*p as usize, *v),
                _ => {
                    return Err(Fault::BadAccess);
                },
            };
            if !is_storable(dst, stack, heap) {
                return Err(Fault::BadAccess);
            }
            match heap.heap_debug_info.allocations.get(&ptr) {
                Some(n) => {
                    if *size > *n as usize || *index >= *size {
                        return Err(Fault::BadAccess);
                    }
                },
                None => {
                    return Err(Fault::BadAccess);
                },
            }
            if *size >= 0x8000_0000 || heap.data.len() as u64 > 0xffff_ffff - 2566 - *size as u64 {
                return Err(Fault::OutOfMemory);
            }
            let p = heap.update_tuple(ptr, *size, *index, v);
            let ghost m = *heap;
            proof {
                lemma_storable_kept(*dst, s0, h0, m);
                assert(made_update(h0, m, p, s0[*src] as int, *size as int, *index as int, s0[*value]));
            }
            store(dst, p, stack, heap);
            Ok(Effect::Next)
        },
        Bytecode::Intrinsic { intrinsic, args, dst } => run_intrinsic(*intrinsic, args, dst, stack, heap),
        Bytecode::InitTuple { elements, dst } => {
            if !is_storable(dst, stack, heap) {
                return Err(Fault::BadAccess);
            }
            if *elements >= 0x8000_0000 || heap.data.len() as u64 > 0xffff_ffff - 2566 - *elements as u64 {
                return Err(Fault::OutOfMemory);
            }
            let p = heap.init_tuple(*elements);
            let ghost m = *heap;
            proof {
                lemma_storable_kept(*dst, s0, h0, m);
                assert(h0.allocation_done(&m, *elements as int, p as usize));
            }
            store(dst, p, stack, heap);
            Ok(Effect::Next)
        },
        Bytecode::InitList { elements, dst } => {
            if !is_storable(dst, stack, heap) {
                return Err(Fault::BadAccess);
            }
            if *elements >= 0x8000_0000 || heap.data.len() as u64 > 0xffff_ffff
                || heap.data.len() as u64 + 2 * (*elements as u64) + 5200 > 0xffff_ffff {
                return Err(Fault::OutOfMemory);
            }
            let p = heap.init_list(*elements);
            let ghost m = *heap;
            proof {
                lemma_storable_kept(*dst, s0, h0, m);
                assert(made_list(h0, m, p, *elements as int));
            }
            store(dst, p, stack, heap);
            Ok(Effect::Next)
        },
        _ => Err(Fault::Unsupported),
    }
}


/// Where writing the result of big-integer arithmetic stops the interpreter.
pub open spec fn int_result_fault(res: IntResult, dst: Memory, s: Map<u32, u32>, h: Heap) -> Option<Fault> {
    if !storable(dst, s, h) {
        Some(Fault::BadAccess)
    } else {
        match res {
            IntResult::Int(b) => if b.nums@.len() + 2567 >= 0x8000_0000 || h.data@.len()
                + b.nums@.len() + 2567 > u32::MAX {
                Some(Fault::OutOfMemory)
            } else {
                None
            },
            _ => None,
        }
    }
}

/// What writing the result of big-integer arithmetic did: an integer is put
/// on the heap and its pointer written, a truth value is written as 1 or 0,
/// a scalar as itself.
pub open spec fn int_result_done(res: IntResult, dst: Memory, s0: Map<u32, u32>, h0: Heap, s1: Map<u32, u32>, h1: Heap) -> bool {
    match res {
        IntResult::Int(b) => exists|m: Heap, p: u32|
            #[trigger] made_value(h0, m, p, Value::Int(b)) && stored(dst, p, s0, m, s1, h1),
        IntResult::Bool(x) => stored(dst, if x { 1 } else { 0 }, s0, h0, s1, h1),
        IntResult::Scalar(n) => stored(dst, n, s0, h0, s1, h1),
    }
}

/// Writes the result of big-integer arithmetic at `dst`.
pub fn finish_int_op(res: IntResult, dst: &Memory, stack: &mut Stack, heap: &mut Heap) -> (r: Result<(), Fault>)
    requires
        old(heap).wf(),
        old(heap).func_pointers_wf(),
    ensures
        final(heap).wf(),
        final(heap).func_pointers_wf(),
        final(stack).return_value == old(stack).return_value,
        match r {
            Err(f) => int_result_fault(res, *dst, old(stack).ssa@, *old(heap)) == Some(f) && unchanged(
                old(stack).ssa@,
                *old(heap),
                final(stack).ssa@,
                *final(heap),
            ),
            Ok(_) => int_result_fault(res, *dst, old(stack).ssa@, *old(heap)) is None && int_result_done(
                res,
                *dst,
                old(stack).ssa@,
                *old(heap),
                final(stack).ssa@,
                *final(heap),
            ),
        },
{
    let ghost s0 = stack.ssa@;
    let ghost h0 = *heap;
    if !is_storable(dst, stack, heap) {
        return Err(Fault::BadAccess);
    }
    match res {
        IntResult::Int(b) => {
            if b.nums.len() as u64 >= 0x8000_0000 - 2567 || heap.data.len() as u64 > 0xffff_ffff
                - 2567 - b.nums.len() as u64 {
                return Err(Fault::OutOfMemory);
            }
            let ghost bb = b;
            let v = Value::Int(b);
            let p = heap.alloc_value(&v);
            let ghost m = *heap;
            proof {
                lemma_storable_kept(*dst, s0, h0, m);
                assert(made_value(h0, m, p, Value::Int(bb)));
            }
            store(dst, p, stack, heap);
            Ok(())
        },
        IntResult::Bool(x) => {
            store(dst, if x { 1 } else { 0 }, stack, heap);
            Ok(())
        },
        IntResult::Scalar(n) => {
            store(dst, n, stack, heap);
            Ok(())
        },
    }
}

/// How a terminator ends the block, or where it stops the interpreter.
pub open spec fn terminator_done(t: Terminator, s: Map<u32, u32>, h: Heap, r: Result<Flow, Fault>) -> bool {
    match t {
        Terminator::Jump(l) => r == Ok::<Flow, Fault>(Flow::Jump(l)),
        Terminator::TailCall { func, args } => if args@.len() <= u32::MAX && all_set(args@, s) {
            r matches Ok(Flow::TailCall { func: f, stack }) && f == func && stack.ssa@
                == callee_regs(args@, s) && stack.return_value == 0
        } else {
            r == Err::<Flow, Fault>(Fault::BadAccess)
        },
        Terminator::TailCallDynamic { .. } => r == Err::<Flow, Fault>(Fault::Unsupported),
        Terminator::JumpIf { value, t, f } => if s.contains_key(value) {
            r == Ok::<Flow, Fault>(Flow::Jump(if s[value] != 0 { t } else { f }))
        } else {
            r == Err::<Flow, Fault>(Fault::BadAccess)
        },
        Terminator::TryInitGlobal { global, label } => if h.global_values@.contains_key(global) {
            r == Ok::<Flow, Fault>(Flow::Repeat)
        } else {
            r == Ok::<Flow, Fault>(Flow::InitGlobal { global, label })
        },
        Terminator::Return(src) => if s.contains_key(src) {
            r == Ok::<Flow, Fault>(Flow::Return(s[src]))
        } else {
            r == Err::<Flow, Fault>(Fault::BadAccess)
        },
    }
}

/// Ends a block.
pub fn run_terminator(t: &Terminator, stack: &Stack, heap: &Heap) -> (r: Result<Flow, Fault>)
    ensures
        terminator_done(*t, stack.ssa@, *heap, r),
        t matches Terminator::TailCall { func, args } ==> ((args@.len() <= u32::MAX && forall|i: int|
            0 <= i < args@.len() ==> stack.ssa@.contains_key(#[trigger] args@[i])) ==> (r matches Ok(
            Flow::TailCall { func: f, stack: callee },
        ) && f == func && callee.return_value == 0 && callee.ssa@ == Map::new(
            |k: u32| (k as int) < args@.len(),
            |k: u32| stack.ssa@[args@[k as int]],
        ))),
        *t matches Terminator::Jump(l) ==> r == Ok::<Flow, Fault>(Flow::Jump(l)),
        *t matches Terminator::JumpIf { value, t: on_true, f: on_false } ==> (if stack.ssa@.contains_key(
            value,
        ) {
            (stack.ssa@[value] != 0 ==> r == Ok::<Flow, Fault>(Flow::Jump(on_true))) && (
            stack.ssa@[value] == 0 ==> r == Ok::<Flow, Fault>(Flow::Jump(on_false)))
        } else {
            r is Err
        }),
        *t matches Terminator::Return(src) ==> (stack.ssa@.contains_key(src) ==> r == Ok::<
            Flow,
            Fault,
        >(Flow::Return(stack.ssa@[src]))),
{
    match t {
        Terminator::Jump(l) => Ok(Flow::Jump(*l)),
        Terminator::TailCall { func, args } => match callee_stack(args, stack) {
            Some(st) => Ok(Flow::TailCall { func: *func, stack: st }),
            None => Err(Fault::BadAccess),
        },
        Terminator::TailCallDynamic { .. } => Err(Fault::Unsupported),
        Terminator::JumpIf { value, t, f } => match stack.ssa.get(value) {
            Some(v) => Ok(Flow::Jump(if *v != 0 { *t } else { *f })),
            None => Err(Fault::BadAccess),
        },
        Terminator::TryInitGlobal { global, label } => {
            if heap.global_values.contains_key(global) {
                Ok(Flow::Repeat)
            } else {
                Ok(Flow::InitGlobal { global: *global, label: *label })
            }
        },
        Terminator::Return(src) => match stack.ssa.get(src) {
            Some(v) => Ok(Flow::Return(*v)),
            None => Err(Fault::BadAccess),
        },
    }
}

} // verus!
