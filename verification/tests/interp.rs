use sodigy::heap::value::{BigInt, Value};
use sodigy::heap::Heap;
use sodigy::interp::inspect_list;
use sodigy::interp::vm::{read, scalar_op, update, Memory, ScalarOp, Stack};

#[test]
fn init_and_append_lists() {
    let mut h = Heap::new();
    let l = h.init_list(2) as usize;
    assert_eq!(l, 2552);
    assert_eq!(&h.data[2552..2555], &[2557u32, 0, 2][..]);
    assert_eq!(h.data[2557], 2);
    assert_eq!(h.len_list(l), 2);
    assert_eq!(h.index_list(l, 1), 0);
    let l2 = h.append_list(l, 7) as usize;
    assert_eq!(l2, 2547);
    assert_eq!(&h.data[2547..2550], &[5112u32, 0, 3][..]);
    assert_eq!(h.data[5112], 3);
    assert_eq!(inspect_list(&h.data, l2), &[0u32, 0, 7][..]);
    assert!(h.check_integrity());
}

#[test]
fn slices_of_lists() {
    let mut h = Heap::new();
    let l = h.init_list(3) as usize;
    let b = h.data[l] as usize;
    h.data[b + 1] = 10;
    h.data[b + 2] = 20;
    h.data[b + 3] = 30;
    let s = h.slice_list(l, 1, 3) as usize;
    assert_eq!(inspect_list(&h.data, s), &[20u32, 30][..]);
    let r = h.slice_right_list(s, 1) as usize;
    assert_eq!(inspect_list(&h.data, r), &[30u32][..]);
    assert_eq!(h.index_list(r, 0), 30);
}

#[test]
fn tuples() {
    let mut h = Heap::new();
    let t = h.init_tuple(3) as usize;
    assert_eq!(t, 2557);
    h.data[t] = 1;
    h.data[t + 1] = 2;
    h.data[t + 2] = 3;
    let u = h.update_tuple(t, 3, 1, 9) as usize;
    assert_eq!(u, 2552);
    assert_eq!(&h.data[u..u + 3], &[1u32, 9, 3][..]);
    assert_eq!(&h.data[t..t + 3], &[1u32, 2, 3][..]);
}

#[test]
fn values_on_the_heap() {
    let mut h = Heap::new();
    assert_eq!(h.alloc_value(&Value::Scalar(42)), 42);
    let v = Value::List(vec![
        Value::Scalar(5),
        Value::Int(BigInt { is_neg: true, nums: vec![9] }),
    ]);
    let p = h.alloc_value(&v) as usize;
    assert_eq!(p, 2547);
    assert_eq!(&h.data[2547..2550], &[2557u32, 0, 2][..]);
    assert_eq!(&h.data[2557..2560], &[2u32, 5, 2552][..]);
    assert_eq!(&h.data[2552..2554], &[0x8000_0001u32, 9][..]);
    let empty = h.alloc_value(&Value::List(vec![])) as usize;
    assert_eq!(&h.data[empty..empty + 3], &[0u32, 0, 0][..]);
    let c = h.alloc_value(&Value::Compound(vec![Value::Scalar(1), Value::Scalar(2)])) as usize;
    assert_eq!(&h.data[c..c + 2], &[1u32, 2][..]);
    assert!(h.check_integrity());
}

#[test]
fn registers_and_memory() {
    let mut s = Stack::new();
    let mut h = Heap::new();
    update(&Memory::Ssa(0), 10, &mut s, &mut h);
    update(&Memory::Ssa(2), 30, &mut s, &mut h);
    assert_eq!(read(&Memory::Ssa(2), &s, &h), 30);
    let callee = Stack::from_args(&[2, 0], &s);
    assert_eq!(callee.ssa.get(&0), Some(&30));
    assert_eq!(callee.ssa.get(&1), Some(&10));
    assert_eq!(callee.ssa.len(), 2);
    let l = h.init_list(2);
    update(&Memory::Ssa(5), l, &mut s, &mut h);
    update(&Memory::List { ptr: 5, offset: 1 }, 77, &mut s, &mut h);
    assert_eq!(read(&Memory::List { ptr: 5, offset: 1 }, &s, &h), 77);
    assert_eq!(h.index_list(l as usize, 1), 77);
    update(&Memory::Heap { ptr: 5, offset: 2 }, 1, &mut s, &mut h);
    assert_eq!(read(&Memory::Heap { ptr: 5, offset: 2 }, &s, &h), 1);
}

#[test]
fn scalar_operations() {
    assert_eq!(scalar_op(ScalarOp::Add, 2, 3), 5);
    assert_eq!(scalar_op(ScalarOp::Sub, 7, 3), 4);
    assert_eq!(scalar_op(ScalarOp::Mul, 6, 7), 42);
    assert_eq!(scalar_op(ScalarOp::Div, 7, 2), 3);
    assert_eq!(scalar_op(ScalarOp::Rem, 7, 2), 1);
    assert_eq!(scalar_op(ScalarOp::BitAnd, 6, 3), 2);
    assert_eq!(scalar_op(ScalarOp::BitOr, 6, 3), 7);
    assert_eq!(scalar_op(ScalarOp::Lt, 2, 3), 1);
    assert_eq!(scalar_op(ScalarOp::Eq, 2, 3), 0);
    assert_eq!(scalar_op(ScalarOp::Gt, 4, 3), 1);
}

#[test]
fn scalar_leaves_heap_alone_and_empty_list_takes_one_block() {
    let mut h = Heap::new();
    assert_eq!(h.alloc_value(&Value::Scalar(7)), 7);
    assert!(h.data.is_empty());
    assert!(h.heap_debug_info.allocations.is_empty());
    let p = h.alloc_value(&Value::List(vec![])) as usize;
    assert_eq!(h.heap_debug_info.allocations.len(), 1);
    assert_eq!(h.heap_debug_info.allocations.get(&p), Some(&3));
    assert_eq!(&h.data[p..p + 3], &[0u32, 0, 0][..]);
}

#[test]
fn appending_leaves_the_old_list_as_it_was() {
    let mut h = Heap::new();
    let l = h.alloc_value(&Value::List(vec![Value::Scalar(1), Value::Scalar(2)])) as usize;
    let l2 = h.append_list(l, 3) as usize;
    let s = h.slice_list(l2, 1, 3) as usize;
    assert_eq!(inspect_list(&h.data, l), &[1u32, 2][..]);
    assert_eq!(inspect_list(&h.data, l2), &[1u32, 2, 3][..]);
    assert_eq!(inspect_list(&h.data, s), &[2u32, 3][..]);
    assert!(h.check_integrity());
}
