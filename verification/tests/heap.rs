use sodigy::heap::{Heap, HeapDebugInfo};

#[test]
fn new_heap_is_empty() {
    let h = Heap::new();
    assert!(h.data.is_empty());
    assert!(h.freelist_3.is_empty());
    assert!(h.freelist_large.is_empty());
    assert!(h.heap_debug_info.allocations.is_empty());
    assert!(HeapDebugInfo::new().allocations.is_empty());
}

#[test]
fn allocate_small_expands_once() {
    let mut h = Heap::new();
    let p = h.allocate(2);
    // 512 blocks of 3 scalars (5 with the header and the ref count); the last one is used.
    assert_eq!(h.data.len(), 2560);
    assert_eq!(p, 2 + 5 * 511);
    assert_eq!(h.data[p - 2], 0x8000_0003);
    assert_eq!(h.freelist_3.len(), 511);
    assert_eq!(h.heap_debug_info.allocations.get(&p), Some(&3));
    assert!(h.check_integrity());
    let q = h.allocate(3);
    assert_eq!(q, 2 + 5 * 510);
    assert!(h.check_integrity());
}

#[test]
fn allocate_each_size_class() {
    let mut h = Heap::new();
    let a = h.allocate(8);
    assert_eq!(h.data[a - 2], 0x8000_0008);
    let b = h.allocate(38);
    assert_eq!(h.data[b - 2], 0x8000_0026);
    let c = h.allocate(158);
    assert_eq!(h.data[c - 2], 0x8000_009e);
    let d = h.allocate(638);
    assert_eq!(h.data[d - 2], 0x8000_027e);
    let e = h.allocate(1000);
    assert_eq!(h.data[e - 2] & 0x7fff_ffff, 1000);
    assert!(h.data[e - 2] >= 0x8000_0000);
    assert!(h.check_integrity());
}

#[test]
fn free_and_reuse() {
    let mut h = Heap::new();
    let p = h.allocate(3);
    h.inc_rc(p);
    assert_eq!(h.data[p - 1], 1);
    h.try_drop(p);
    assert_eq!(h.data[p - 2], 0x8000_0003);
    h.dec_rc(p);
    assert_eq!(h.data[p - 1], 0);
    h.try_drop(p);
    assert_eq!(h.data[p - 2], 3);
    assert_eq!(h.freelist_3.last(), Some(&p));
    assert!(h.heap_debug_info.allocations.get(&p).is_none());
    assert!(h.check_integrity());
    let q = h.allocate(1);
    assert_eq!(q, p);
}

#[test]
fn split_larger_free_block() {
    let mut h = Heap::new();
    h.expand_8();
    let p = h.allocate(3);
    // a block of 8 is cut into a block of 3 and a free block of 3
    assert_eq!(h.data[p - 2], 0x8000_0003);
    assert_eq!(h.data[p + 3], 3);
    assert_eq!(h.freelist_3.last(), Some(&(p + 5)));
    assert!(h.check_integrity());
}

#[test]
fn integrity_catches_a_bad_header() {
    let mut h = Heap::new();
    let p = h.allocate(3);
    assert!(h.check_integrity());
    h.data[p - 2] = 0x8000_0004;
    assert!(!h.check_integrity());
}

#[test]
fn func_pointers_are_numbered_in_order() {
    let mut h = Heap::new();
    assert_eq!(h.alloc_func_pointer(100), 0);
    assert_eq!(h.alloc_func_pointer(200), 1);
    assert_eq!(h.alloc_func_pointer(100), 0);
    assert_eq!(h.func_pointers_rev.get(&1), Some(&200));
}

#[test]
fn small_integers() {
    let mut h = Heap::new();
    let p = h.alloc_int_from_i32(-5) as usize;
    assert_eq!(h.data[p], 0x8000_0001);
    assert_eq!(h.data[p + 1], 5);
    let q = h.alloc_int_from_u32(u32::MAX) as usize;
    assert_eq!(h.data[q], 1);
    assert_eq!(h.data[q + 1], u32::MAX);
    let (neg, limbs) = sodigy::interp::inspect_int(&h.data, p);
    assert!(neg);
    assert_eq!(limbs, &[5u32][..]);
    let (neg, limbs) = sodigy::interp::inspect_int(&h.data, q);
    assert!(!neg);
    assert_eq!(limbs, &[u32::MAX][..]);
}

#[test]
fn freed_block_is_handed_out_again() {
    let mut h = Heap::new();
    let p = h.allocate(3);
    let q = h.allocate(3);
    assert_ne!(p, q);
    assert_eq!(h.data[p - 1], 0);
    h.try_drop(p);
    assert!(h.check_integrity());
    assert_eq!(h.allocate(2), p);
    let big = h.allocate(1000);
    h.try_drop(big);
    assert_eq!(h.allocate(700), big);
    assert!(h.check_integrity());
}

#[test]
fn smallest_i32_keeps_its_magnitude() {
    let mut h = Heap::new();
    let p = h.alloc_int_from_i32(i32::MIN) as usize;
    assert_eq!(h.data[p], 0x8000_0001);
    assert_eq!(h.data[p + 1], 0x8000_0000);
}

#[test]
fn large_request_appends_one_block() {
    let mut h = Heap::new();
    let p = h.allocate(1000);
    assert_eq!(p, 2);
    assert_eq!(h.data.len(), 1002);
    assert!(h.freelist_large.is_empty());
    assert!(h.freelist_3.is_empty());
}

#[test]
fn split_leaves_three_pieces_in_order() {
    let mut h = Heap::new();
    h.expand_38();
    let before = h.freelist_38.len();
    let p = h.allocate(8);
    assert_eq!(h.freelist_38.len(), before - 1);
    assert_eq!(h.freelist_8, vec![p + 10, p + 20, p + 30]);
}
