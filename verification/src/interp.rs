//! The interpreter: its errors, its registers and memory, and reading its
//! values back out of the heap.
pub mod bytecode;
pub mod step;
pub mod vm;

use vstd::prelude::*;

verus! {

/// How a run of the interpreter failed.
#[derive(Clone, Debug)]
pub enum Error {
    /// The program exited with this status, which is never 0.
    NonZeroExit(u8),
    TestFail,
    CannotFindEntry,
}

/// The top bit of an integer's first scalar: the integer is negative.
pub open spec fn int_is_neg(meta: u32) -> bool {
    meta as int >= 0x8000_0000
}

/// The other 31 bits of an integer's first scalar: how many 32-bit limbs follow.
pub open spec fn int_len(meta: u32) -> int {
    meta as int % 0x8000_0000
}

/// Reads the integer at `ptr`: its sign and its limbs, least significant first.
pub fn inspect_int(heap: &[u32], ptr: usize) -> (r: (bool, &[u32]))
    requires
        ptr < heap@.len(),
        ptr + 1 + int_len(heap@[ptr as int]) <= heap@.len(),
    ensures
        r.0 == int_is_neg(heap@[ptr as int]),
        r.1@ == heap@.subrange(ptr + 1, ptr + 1 + int_len(heap@[ptr as int])),
{
    let metadata = heap[ptr];
    let is_neg = metadata > 0x7fff_ffff;
    let length = metadata & 0x7fff_ffff;
    proof {
        assert(metadata & 0x7fff_ffff == metadata % 0x8000_0000) by (bit_vector);
    }
    let nums = &heap[(ptr + 1)..(ptr + 1 + length as usize)];
    (is_neg, nums)
}

/// Reads the elements of the list at `ptr`. A list is three scalars: a pointer
/// to its buffer, the index of its first element, and its length; the buffer's
/// first scalar is the buffer's length and its elements follow.
pub fn inspect_list(heap: &[u32], ptr: usize) -> (r: &[u32])
    requires
        ptr + 2 < heap@.len(),
        heap@[ptr as int] + heap@[ptr + 1] + heap@[ptr + 2] + 1 <= heap@.len(),
    ensures
        r@ == heap@.subrange(
            heap@[ptr as int] + heap@[ptr + 1] + 1,
            heap@[ptr as int] + heap@[ptr + 1] + heap@[ptr + 2] + 1,
        ),
{
    let slice_ptr = heap[ptr] as usize;
    let start = heap[ptr + 1] as usize;
    let length = heap[ptr + 2] as usize;
    &heap[(slice_ptr + start + 1)..(slice_ptr + start + length + 1)]
}

} // verus!
