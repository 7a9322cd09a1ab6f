use sodigy::heap::value::{BigInt, Value};
use sodigy::heap::Heap;
use sodigy::interp::bytecode::{BasicBlock, Bytecode, Fault, InternedValue, Intrinsic, Terminator};
use sodigy::interp::step::{finish_int_op, run_bytecode, run_terminator, Effect, Flow, IntResult};
use sodigy::interp::vm::{Memory, Stack};
use std::collections::HashMap;

fn konst(n: u32, r: u32) -> Bytecode {
    Bytecode::Const { value: InternedValue::Scalar(n), dst: Memory::Ssa(r) }
}

fn op(intrinsic: Intrinsic, args: Vec<u32>, r: u32) -> Bytecode {
    Bytecode::Intrinsic { intrinsic, args, dst: Memory::Ssa(r) }
}

fn run(code: &Bytecode, stack: &mut Stack, heap: &mut Heap, data: &HashMap<u64, Value>) {
    match run_bytecode(code, stack, heap, data) {
        Ok(Effect::Next) => {},
        Ok(_) => panic!("unexpected effect"),
        Err(f) => panic!("fault {:?}", f),
    }
}

fn reg(stack: &Stack, r: u32) -> u32 {
    *stack.ssa.get(&r).unwrap()
}

#[test]
fn scalar_arithmetic_and_its_faults() {
    let mut s = Stack::new();
    let mut h = Heap::new();
    let data = HashMap::new();
    run(&konst(7, 0), &mut s, &mut h, &data);
    run(&konst(5, 1), &mut s, &mut h, &data);
    run(&op(Intrinsic::SubScalar, vec![0, 1], 2), &mut s, &mut h, &data);
    assert_eq!(reg(&s, 2), 2);
    run(&op(Intrinsic::MulScalar, vec![0, 1], 3), &mut s, &mut h, &data);
    assert_eq!(reg(&s, 3), 35);
    run(&op(Intrinsic::LtScalar, vec![1, 0], 4), &mut s, &mut h, &data);
    assert_eq!(reg(&s, 4), 1);
    run(&op(Intrinsic::GtScalar, vec![1, 0], 4), &mut s, &mut h, &data);
    assert_eq!(reg(&s, 4), 0);
    let r = run_bytecode(&op(Intrinsic::SubScalar, vec![1, 0], 5), &mut s, &mut h, &data);
    assert!(matches!(r, Err(Fault::Overflow)));
    run(&konst(0, 6), &mut s, &mut h, &data);
    let r = run_bytecode(&op(Intrinsic::DivScalar, vec![0, 6], 5), &mut s, &mut h, &data);
    assert!(matches!(r, Err(Fault::Overflow)));
    let r = run_bytecode(&op(Intrinsic::AddScalar, vec![0, 9], 5), &mut s, &mut h, &data);
    assert!(matches!(r, Err(Fault::BadAccess)));
    assert!(!s.ssa.contains_key(&5));
}

#[test]
fn lists_grow_and_print() {
    let mut s = Stack::new();
    let mut h = Heap::new();
    let data = HashMap::new();
    run(&Bytecode::InitList { elements: 2, dst: Memory::Ssa(0) }, &mut s, &mut h, &data);
    run(&op(Intrinsic::LenList, vec![0], 1), &mut s, &mut h, &data);
    assert_eq!(reg(&s, 1), 2);
    run(&konst(104, 2), &mut s, &mut h, &data);
    run(&Bytecode::Move { src: Memory::Ssa(2), dst: Memory::List { ptr: 0, offset: 0 } }, &mut s, &mut h, &data);
    run(&konst(105, 2), &mut s, &mut h, &data);
    run(&Bytecode::Move { src: Memory::Ssa(2), dst: Memory::List { ptr: 0, offset: 1 } }, &mut s, &mut h, &data);
    run(&konst(33, 3), &mut s, &mut h, &data);
    run(&op(Intrinsic::AppendList, vec![0, 3], 4), &mut s, &mut h, &data);
    run(&op(Intrinsic::LenList, vec![4], 5), &mut s, &mut h, &data);
    assert_eq!(reg(&s, 5), 3);
    run(&konst(1, 6), &mut s, &mut h, &data);
    run(&op(Intrinsic::IndexList, vec![4, 6], 7), &mut s, &mut h, &data);
    assert_eq!(reg(&s, 7), 105);
    match run_bytecode(&op(Intrinsic::Print, vec![4], 8), &mut s, &mut h, &data) {
        Ok(Effect::Print { chars, to_stderr }) => {
            assert_eq!(chars, vec![104, 105, 33]);
            assert!(!to_stderr);
        },
        _ => panic!("expected a print"),
    }
    match run_bytecode(&op(Intrinsic::EPrint, vec![0], 8), &mut s, &mut h, &data) {
        Ok(Effect::Print { chars, to_stderr }) => {
            assert_eq!(chars, vec![104, 105]);
            assert!(to_stderr);
        },
        _ => panic!("expected a print"),
    }
    run(&op(Intrinsic::SliceRightList, vec![4, 6], 9), &mut s, &mut h, &data);
    run(&op(Intrinsic::LenList, vec![9], 10), &mut s, &mut h, &data);
    assert_eq!(reg(&s, 10), 2);
    assert!(h.check_integrity());
}

#[test]
fn tuples_and_heap_memory() {
    let mut s = Stack::new();
    let mut h = Heap::new();
    let data = HashMap::new();
    run(&Bytecode::InitTuple { elements: 2, dst: Memory::Ssa(0) }, &mut s, &mut h, &data);
    run(&konst(42, 1), &mut s, &mut h, &data);
    run(&Bytecode::Move { src: Memory::Ssa(1), dst: Memory::Heap { ptr: 0, offset: 1 } }, &mut s, &mut h, &data);
    run(&Bytecode::Move { src: Memory::Heap { ptr: 0, offset: 1 }, dst: Memory::Ssa(2) }, &mut s, &mut h, &data);
    assert_eq!(reg(&s, 2), 42);
    let r = run_bytecode(
        &Bytecode::Move { src: Memory::Ssa(1), dst: Memory::Heap { ptr: 0, offset: 5 } },
        &mut s,
        &mut h,
        &data,
    );
    assert!(matches!(r, Err(Fault::BadAccess)));
    run(&konst(7, 3), &mut s, &mut h, &data);
    run(
        &Bytecode::Update { src: 0, size: 2, index: 0, value: 3, dst: Memory::Ssa(4) },
        &mut s,
        &mut h,
        &data,
    );
    run(&Bytecode::Move { src: Memory::Heap { ptr: 4, offset: 0 }, dst: Memory::Ssa(5) }, &mut s, &mut h, &data);
    run(&Bytecode::Move { src: Memory::Heap { ptr: 4, offset: 1 }, dst: Memory::Ssa(6) }, &mut s, &mut h, &data);
    assert_eq!((reg(&s, 5), reg(&s, 6)), (7, 42));
    assert_ne!(reg(&s, 4), reg(&s, 0));
    let r = run_bytecode(
        &Bytecode::Update { src: 0, size: 2, index: 2, value: 3, dst: Memory::Ssa(4) },
        &mut s,
        &mut h,
        &data,
    );
    assert!(matches!(r, Err(Fault::BadAccess)));
    assert!(h.check_integrity());
}

#[test]
fn calls_and_phi() {
    let mut s = Stack::new();
    let mut h = Heap::new();
    let data = HashMap::new();
    run(&konst(10, 0), &mut s, &mut h, &data);
    run(&konst(20, 1), &mut s, &mut h, &data);
    let call = Bytecode::Call { func: 77, args: vec![1, 0], dst: Some(Memory::Ssa(3)) };
    match run_bytecode(&call, &mut s, &mut h, &data) {
        Ok(Effect::Call { func, stack, dst }) => {
            assert_eq!(func, 77);
            assert_eq!(stack.ssa.get(&0), Some(&20));
            assert_eq!(stack.ssa.get(&1), Some(&10));
            assert_eq!(stack.ssa.len(), 2);
            assert_eq!(dst, Memory::Ssa(3));
        },
        _ => panic!("expected a call"),
    }
    let tail = Bytecode::Call { func: 77, args: vec![1], dst: None };
    assert!(matches!(run_bytecode(&tail, &mut s, &mut h, &data), Err(Fault::Unsupported)));
    let missing = Bytecode::Call { func: 77, args: vec![9], dst: Some(Memory::Ssa(3)) };
    assert!(matches!(run_bytecode(&missing, &mut s, &mut h, &data), Err(Fault::BadAccess)));
    run(&Bytecode::Phi { pair: (8, 1), dst: Memory::Ssa(4) }, &mut s, &mut h, &data);
    assert_eq!(reg(&s, 4), 20);
    let dynamic = Bytecode::CallDynamic { func: 0, args: vec![], dst: Some(Memory::Ssa(3)) };
    assert!(matches!(run_bytecode(&dynamic, &mut s, &mut h, &data), Err(Fault::UnknownName)));
    let fp = Bytecode::Const { value: InternedValue::FuncPointer(555), dst: Memory::Ssa(6) };
    run(&fp, &mut s, &mut h, &data);
    assert_eq!(reg(&s, 6), 0);
    let dynamic = Bytecode::CallDynamic { func: 6, args: vec![0], dst: Some(Memory::Ssa(3)) };
    match run_bytecode(&dynamic, &mut s, &mut h, &data) {
        Ok(Effect::Call { func, stack, .. }) => {
            assert_eq!(func, 555);
            assert_eq!(stack.ssa.get(&0), Some(&10));
        },
        _ => panic!("expected a call"),
    }
}

#[test]
fn globals_load_after_store() {
    let mut s = Stack::new();
    let mut h = Heap::new();
    let data = HashMap::new();
    let load = Bytecode::LoadGlobal { src: 900, dst: 2 };
    assert!(matches!(run_bytecode(&load, &mut s, &mut h, &data), Err(Fault::UninitializedGlobal)));
    run(&konst(31, 1), &mut s, &mut h, &data);
    run(&Bytecode::StoreGlobal { src: 1, dst: 900 }, &mut s, &mut h, &data);
    run(&load, &mut s, &mut h, &data);
    assert_eq!(reg(&s, 2), 31);
}

#[test]
fn integers_go_through_the_number_library() {
    let mut s = Stack::new();
    let mut h = Heap::new();
    let mut data = HashMap::new();
    data.insert(1u64, Value::Int(BigInt { is_neg: false, nums: vec![5] }));
    data.insert(2u64, Value::FuncPointer(3));
    run(&Bytecode::Const { value: InternedValue::Interned(1), dst: Memory::Ssa(0) }, &mut s, &mut h, &data);
    let r = run_bytecode(
        &Bytecode::Const { value: InternedValue::Interned(2), dst: Memory::Ssa(9) },
        &mut s,
        &mut h,
        &data,
    );
    assert!(matches!(r, Err(Fault::Unsupported)));
    let r = run_bytecode(
        &Bytecode::Const { value: InternedValue::Interned(3), dst: Memory::Ssa(9) },
        &mut s,
        &mut h,
        &data,
    );
    assert!(matches!(r, Err(Fault::UnknownName)));
    match run_bytecode(&op(Intrinsic::AddInt, vec![0, 0], 1), &mut s, &mut h, &data) {
        Ok(Effect::IntOp { intrinsic, lhs, rhs, amount, dst }) => {
            assert_eq!(intrinsic, Intrinsic::AddInt);
            assert_eq!(lhs.nums, vec![5]);
            assert!(!lhs.is_neg);
            assert_eq!(rhs.nums, vec![5]);
            assert_eq!(amount, 0);
            assert_eq!(dst, Memory::Ssa(1));
        },
        _ => panic!("expected big-integer arithmetic"),
    }
    let sum = IntResult::Int(BigInt { is_neg: false, nums: vec![10] });
    assert!(finish_int_op(sum, &Memory::Ssa(1), &mut s, &mut h).is_ok());
    run(&op(Intrinsic::IntToScalar, vec![1], 2), &mut s, &mut h, &data);
    assert_eq!(reg(&s, 2), 10);
    assert!(finish_int_op(IntResult::Bool(true), &Memory::Ssa(3), &mut s, &mut h).is_ok());
    assert_eq!(reg(&s, 3), 1);
    run(&konst(3, 4), &mut s, &mut h, &data);
    match run_bytecode(&op(Intrinsic::ShlInt, vec![0, 4], 5), &mut s, &mut h, &data) {
        Ok(Effect::IntOp { amount, rhs, .. }) => {
            assert_eq!(amount, 3);
            assert!(rhs.nums.is_empty());
        },
        _ => panic!("expected big-integer arithmetic"),
    }
    run(&op(Intrinsic::ScalarToInt, vec![4], 6), &mut s, &mut h, &data);
    run(&op(Intrinsic::IntToScalar, vec![6], 7), &mut s, &mut h, &data);
    assert_eq!(reg(&s, 7), 3);
    assert!(matches!(
        run_bytecode(&op(Intrinsic::BitAndInt, vec![0, 0], 8), &mut s, &mut h, &data),
        Err(Fault::Unsupported)
    ));
    assert!(h.check_integrity());
}

#[test]
fn sleep_and_exit() {
    let mut s = Stack::new();
    let mut h = Heap::new();
    let mut data = HashMap::new();
    data.insert(1u64, Value::Int(BigInt { is_neg: false, nums: vec![1500] }));
    data.insert(2u64, Value::Int(BigInt { is_neg: false, nums: vec![1, 2] }));
    data.insert(3u64, Value::Int(BigInt { is_neg: false, nums: vec![1, 2, 3] }));
    for (k, want) in [(1u64, 1500u64), (2, 1 + (2u64 << 32)), (3, u64::MAX)] {
        run(&Bytecode::Const { value: InternedValue::Interned(k), dst: Memory::Ssa(0) }, &mut s, &mut h, &data);
        match run_bytecode(&op(Intrinsic::Sleep, vec![0], 1), &mut s, &mut h, &data) {
            Ok(Effect::Sleep(ms)) => assert_eq!(ms, want),
            _ => panic!("expected a sleep"),
        }
    }
    run(&konst(300, 2), &mut s, &mut h, &data);
    assert!(matches!(
        run_bytecode(&op(Intrinsic::Exit, vec![2], 3), &mut s, &mut h, &data),
        Ok(Effect::Exit(44))
    ));
}

#[test]
fn terminators() {
    let mut s = Stack::new();
    let h = Heap::new();
    s.ssa.insert(0, 0);
    s.ssa.insert(1, 8);
    let j = Terminator::JumpIf { value: 0, t: 4, f: 5 };
    assert!(matches!(run_terminator(&j, &s, &h), Ok(Flow::Jump(5))));
    let j = Terminator::JumpIf { value: 1, t: 4, f: 5 };
    assert!(matches!(run_terminator(&j, &s, &h), Ok(Flow::Jump(4))));
    assert!(matches!(run_terminator(&Terminator::Return(1), &s, &h), Ok(Flow::Return(8))));
    assert!(matches!(run_terminator(&Terminator::Return(7), &s, &h), Err(Fault::BadAccess)));
    let g = Terminator::TryInitGlobal { global: 3, label: 9 };
    assert!(matches!(run_terminator(&g, &s, &h), Ok(Flow::InitGlobal { global: 3, label: 9 })));
    match run_terminator(&Terminator::TailCall { func: 12, args: vec![1] }, &s, &h) {
        Ok(Flow::TailCall { func, stack }) => {
            assert_eq!(func, 12);
            assert_eq!(stack.ssa.get(&0), Some(&8));
        },
        _ => panic!("expected a tail call"),
    }
}

/// Runs the blocks of one call to its return, as the interpreter's call loop does.
fn run_blocks(blocks: &HashMap<u32, BasicBlock>, stack: &mut Stack, heap: &mut Heap) -> u32 {
    let data = HashMap::new();
    let mut label = 0u32;
    loop {
        let block = blocks.get(&label).unwrap();
        for code in block.code.iter() {
            run(code, stack, heap, &data);
        }
        match run_terminator(&block.terminator, stack, heap) {
            Ok(Flow::Jump(l)) => label = l,
            Ok(Flow::Return(v)) => return v,
            _ => panic!("unexpected flow"),
        }
    }
}

#[test]
fn a_loop_that_sums() {
    // r1 = 5 + 4 + 3 + 2 + 1
    let mut blocks = HashMap::new();
    blocks.insert(
        0,
        BasicBlock {
            code: vec![konst(5, 0), konst(0, 1), konst(1, 2), konst(0, 4)],
            terminator: Terminator::Jump(1),
        },
    );
    blocks.insert(
        1,
        BasicBlock {
            code: vec![op(Intrinsic::GtScalar, vec![0, 4], 3)],
            terminator: Terminator::JumpIf { value: 3, t: 2, f: 3 },
        },
    );
    blocks.insert(
        2,
        BasicBlock {
            code: vec![
                op(Intrinsic::AddScalar, vec![1, 0], 1),
                op(Intrinsic::SubScalar, vec![0, 2], 0),
            ],
            terminator: Terminator::Jump(1),
        },
    );
    blocks.insert(3, BasicBlock { code: vec![], terminator: Terminator::Return(1) });
    let mut s = Stack::new();
    let mut h = Heap::new();
    assert_eq!(run_blocks(&blocks, &mut s, &mut h), 15);
}

#[test]
fn allocations_that_do_not_fit_run_out_of_memory() {
    let mut s = Stack::new();
    let mut h = Heap::new();
    let mut data = HashMap::new();
    let r = run_bytecode(
        &Bytecode::InitTuple { elements: 0x8000_0000, dst: Memory::Ssa(0) },
        &mut s,
        &mut h,
        &data,
    );
    assert!(matches!(r, Err(Fault::OutOfMemory)));
    let big: Vec<Value> = (0..900_000)
        .map(|_| Value::Int(BigInt { is_neg: false, nums: vec![] }))
        .collect();
    data.insert(7u64, Value::List(big));
    let r = run_bytecode(
        &Bytecode::Const { value: InternedValue::Interned(7), dst: Memory::Ssa(0) },
        &mut s,
        &mut h,
        &data,
    );
    assert!(matches!(r, Err(Fault::OutOfMemory)));
    assert!(s.ssa.is_empty());
    assert_eq!(h.data.len(), 0);
}
