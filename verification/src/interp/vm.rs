//! The registers of a call and what one instruction reads and writes.
use crate::heap::Heap;
use std::collections::HashMap;
use vstd::prelude::*;

verus! {

broadcast use vstd::std_specs::hash::group_hash_axioms;

/// The registers of a call: SSA register number to scalar.
pub struct Stack {
    pub ssa: HashMap<u32, u32>,
    pub return_value: u32,
}

impl Stack {
    pub fn new() -> (r: Stack)
        ensures
            r.ssa@ == Map::<u32, u32>::empty(),
            r.return_value == 0,
    {
        Stack { ssa: HashMap::new(), return_value: 0 }
    }

    /// The registers of a callee: register `i` holds the caller's register
    /// `args[i]`.
    pub fn from_args(args: &[u32], old_stack: &Stack) -> (r: Stack)
        requires
            args@.len() <= u32::MAX,
            forall|i: int| 0 <= i < args@.len() ==> old_stack.ssa@.contains_key(#[trigger] args@[i]),
        ensures
            r.ssa@ == Map::new(
                |k: u32| (k as int) < args@.len(),
                |k: u32| old_stack.ssa@[args@[k as int]],
            ),
            r.return_value == 0,
    {
        let mut ssa: HashMap<u32, u32> = HashMap::new();
        let mut i: usize = 0;
        while i < args.len()
            invariant
                i <= args@.len() <= u32::MAX,
                forall|j: int| 0 <= j < args@.len() ==> old_stack.ssa@.contains_key(#[trigger] args@[j]),
                ssa@ == Map::new(
                    |k: u32| (k as int) < i,
                    |k: u32| old_stack.ssa@[args@[k as int]],
                ),
            decreases args@.len() - i,
        {
            let v = *old_stack.ssa.get(&args[i]).unwrap();
            ssa.insert(i as u32, v);
            i = i + 1;
            proof {
                assert(ssa@ =~= Map::new(
                    |k: u32| (k as int) < i,
                    |k: u32| old_stack.ssa@[args@[k as int]],
                ));
            }
        }
        Stack { ssa, return_value: 0 }
    }
}

/// Where an instruction reads or writes: a register, a scalar at an offset
/// from a pointer in a register, or an element of the list that a register
/// points to.
#[derive(Clone, Copy, Debug, PartialEq, Eq, Structural)]
pub enum Memory {
    Ssa(u32),
    Heap { ptr: u32, offset: u32 },
    List { ptr: u32, offset: u32 },
}

/// The heap index that `m` names, for the heap and list forms.
pub open spec fn heap_index(m: Memory, ssa: Map<u32, u32>, d: Seq<u32>) -> int {
    match m {
        Memory::Ssa(_) => -1,
        Memory::Heap { ptr, offset } => ssa[ptr] + offset,
        Memory::List { ptr, offset } => {
            let p = ssa[ptr] as int;
            d[p] + d[p + 1] + offset + 1
        },
    }
}

/// `m` can be read or written: its register is set, the sums stay within
/// 32 bits, and the index lies inside the heap.
pub open spec fn accessible(m: Memory, ssa: Map<u32, u32>, d: Seq<u32>) -> bool {
    match m {
        Memory::Ssa(i) => ssa.contains_key(i),
        Memory::Heap { ptr, offset } => {
            &&& ssa.contains_key(ptr)
            &&& ssa[ptr] + offset <= u32::MAX
            &&& ssa[ptr] + offset < d.len()
        },
        Memory::List { ptr, offset } => {
            let p = ssa[ptr] as int;
            &&& ssa.contains_key(ptr)
            &&& p + 1 < d.len()
            &&& d[p] + d[p + 1] + offset + 1 <= u32::MAX
            &&& d[p] + d[p + 1] + offset + 1 < d.len()
        },
    }
}

/// The scalar at `m`.
pub open spec fn read_spec(m: Memory, ssa: Map<u32, u32>, d: Seq<u32>) -> u32 {
    match m {
        Memory::Ssa(i) => ssa[i],
        _ => d[heap_index(m, ssa, d)],
    }
}

pub fn read(src: &Memory, stack: &Stack, heap: &Heap) -> (r: u32)
    requires
        accessible(*src, stack.ssa@, heap.data@),
    ensures
        r == read_spec(*src, stack.ssa@, heap.data@),
{
    match src {
        Memory::Ssa(i) => *stack.ssa.get(i).unwrap(),
        Memory::Heap { ptr, offset } => {
            let p = *stack.ssa.get(ptr).unwrap();
            heap.data[(p + *offset) as usize]
        },
        Memory::List { ptr, offset } => {
            let p = *stack.ssa.get(ptr).unwrap() as usize;
            let n = heap.data.len();
            let data_ptr = heap.data[p];
            let start = heap.data[p + 1];
            heap.data[(data_ptr + start + *offset + 1) as usize]
        },
    }
}

/// Writes `value` at `dst`: a register is set, or a heap scalar replaced.
pub fn update(dst: &Memory, value: u32, stack: &mut Stack, heap: &mut Heap)
    requires
        match *dst {
            Memory::Ssa(_) => true,
            _ => accessible(*dst, old(stack).ssa@, old(heap).data@),
        },
    ensures
        match *dst {
            Memory::Ssa(i) => final(stack).ssa@ == old(stack).ssa@.insert(i, value)
                && final(heap).data@ == old(heap).data@,
            _ => final(stack).ssa@ == old(stack).ssa@ && final(heap).data@ == old(heap).data@.update(
                heap_index(*dst, old(stack).ssa@, old(heap).data@),
                value,
            ),
        },
        final(stack).return_value == old(stack).return_value,
        old(heap).same_apart_from_data(final(heap)),
{
    match dst {
        Memory::Ssa(i) => {
            stack.ssa.insert(*i, value);
        },
        Memory::Heap { ptr, offset } => {
            let p = *stack.ssa.get(ptr).unwrap();
            heap.data.set((p + *offset) as usize, value);
        },
        Memory::List { ptr, offset } => {
            let p = *stack.ssa.get(ptr).unwrap() as usize;
            let n = heap.data.len();
            let data_ptr = heap.data[p];
            let start = heap.data[p + 1];
            heap.data.set((data_ptr + start + *offset + 1) as usize, value);
        },
    }
}

/// An operation of the interpreter on two scalars.
#[derive(Clone, Copy, Debug, PartialEq, Eq, Structural)]
pub enum ScalarOp {
    Add,
    Sub,
    Mul,
    Div,
    Rem,
    BitAnd,
    BitOr,
    Lt,
    Eq,
    Gt,
}

/// The operation does not overflow nor divide by zero.
pub open spec fn scalar_op_defined(op: ScalarOp, lhs: u32, rhs: u32) -> bool {
    match op {
        ScalarOp::Add => lhs + rhs <= u32::MAX,
        ScalarOp::Sub => lhs >= rhs,
        ScalarOp::Mul => lhs * rhs <= u32::MAX,
        ScalarOp::Div => rhs != 0,
        ScalarOp::Rem => rhs != 0,
        _ => true,
    }
}

/// What the operation gives; a comparison gives 1 for true and 0 for false.
pub open spec fn scalar_op_result(op: ScalarOp, lhs: u32, rhs: u32) -> u32 {
    match op {
        ScalarOp::Add => (lhs + rhs) as u32,
        ScalarOp::Sub => (lhs - rhs) as u32,
        ScalarOp::Mul => (lhs * rhs) as u32,
        ScalarOp::Div => lhs / rhs,
        ScalarOp::Rem => lhs % rhs,
        ScalarOp::BitAnd => lhs & rhs,
        ScalarOp::BitOr => lhs | rhs,
        ScalarOp::Lt => if lhs < rhs {
            1
        } else {
            0
        },
        ScalarOp::Eq => if lhs == rhs {
            1
        } else {
            0
        },
        ScalarOp::Gt => if lhs > rhs {
            1
        } else {
            0
        },
    }
}

/// What each operation means, in arithmetic on the two scalars: a sum,
/// difference or product; the quotient and remainder of a division; the bits
/// set in both or in either; and for a comparison, 1 exactly when it holds
/// and 0 exactly when it does not.
pub open spec fn scalar_op_law(op: ScalarOp, lhs: u32, rhs: u32, r: u32) -> bool {
    match op {
        ScalarOp::Add => r == lhs + rhs,
        ScalarOp::Sub => r + rhs == lhs,
        ScalarOp::Mul => r == lhs * rhs,
        ScalarOp::Div => r * rhs <= lhs < r * rhs + rhs,
        ScalarOp::Rem => r < rhs && exists|q: int| 0 <= q && #[trigger] (q * rhs) + r == lhs,
        ScalarOp::BitAnd => r <= lhs && r <= rhs && r == (lhs & rhs),
        ScalarOp::BitOr => r >= lhs && r >= rhs && r == (lhs | rhs),
        ScalarOp::Lt => (r == 1 <==> lhs < rhs) && (r == 0 <==> lhs >= rhs),
        ScalarOp::Eq => (r == 1 <==> lhs == rhs) && (r == 0 <==> lhs != rhs),
        ScalarOp::Gt => (r == 1 <==> lhs > rhs) && (r == 0 <==> lhs <= rhs),
    }
}

/// Every operation on scalars that does not overflow nor divide by zero
/// gives what it means.
pub proof fn lemma_scalar_op_law(op: ScalarOp, lhs: u32, rhs: u32)
    requires
        scalar_op_defined(op, lhs, rhs),
    ensures
        scalar_op_law(op, lhs, rhs, scalar_op_result(op, lhs, rhs)),
{
    let r = scalar_op_result(op, lhs, rhs);
    match op {
        ScalarOp::Div => {
            assert(r * rhs <= lhs < r * rhs + rhs) by (nonlinear_arith)
                requires
                    rhs != 0,
                    r == lhs / rhs,
            ;
        },
        ScalarOp::Rem => {
            let q = (lhs / rhs) as int;
            assert(0 <= q && q * rhs + r == lhs && r < rhs) by (nonlinear_arith)
                requires
                    rhs != 0,
                    r == lhs % rhs,
                    q == lhs / rhs,
            ;
        },
        ScalarOp::BitAnd => {
            assert((lhs & rhs) <= lhs && (lhs & rhs) <= rhs) by (bit_vector);
        },
        ScalarOp::BitOr => {
            assert((lhs | rhs) >= lhs && (lhs | rhs) >= rhs) by (bit_vector);
        },
        _ => {},
    }
}

pub fn scalar_op(op: ScalarOp, lhs: u32, rhs: u32) -> (r: u32)
    requires
        scalar_op_defined(op, lhs, rhs),
    ensures
        r == scalar_op_result(op, lhs, rhs),
        scalar_op_law(op, lhs, rhs, r),
{
    proof {
        lemma_scalar_op_law(op, lhs, rhs);
    }
    match op {
        ScalarOp::Add => lhs + rhs,
        ScalarOp::Sub => lhs - rhs,
        ScalarOp::Mul => lhs * rhs,
        ScalarOp::Div => lhs / rhs,
        ScalarOp::Rem => lhs % rhs,
        ScalarOp::BitAnd => lhs & rhs,
        ScalarOp::BitOr => lhs | rhs,
        ScalarOp::Lt => (lhs < rhs) as u32,
        ScalarOp::Eq => (lhs == rhs) as u32,
        ScalarOp::Gt => (lhs > rhs) as u32,
    }
}

} // verus!
