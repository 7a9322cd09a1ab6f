use sodigy::inter_mir::poly::{
    intersect_and_sort, ImplsByGenerics, SimpleType, StateMachine, StateMachineOrLeaves,
};
use std::collections::{HashMap, HashSet};

const T1: u64 = 100;
const T2: u64 = 101;
const INT: u64 = 10;
const BYTE: u64 = 11;
const NUMBER: u64 = 12;

fn data(c: u64) -> SimpleType {
    SimpleType::Data { constructor: c, arity: 0 }
}

fn generics(a: SimpleType, b: SimpleType) -> HashMap<u64, SimpleType> {
    let mut g = HashMap::new();
    g.insert(T1, a);
    g.insert(T2, b);
    g
}

fn set(ids: &[u64]) -> HashSet<u64> {
    ids.iter().cloned().collect()
}

// impl 1: (T, Byte), impl 2: (Int, Int), impl 3: (Byte, Number)
fn three_impls() -> ImplsByGenerics {
    vec![
        (
            T1,
            vec![
                (data(INT), vec![2, 1]),
                (data(BYTE), vec![3, 1]),
                (SimpleType::GenericParam, vec![1]),
                (SimpleType::Var, vec![1, 2, 3]),
            ],
        ),
        (
            T2,
            vec![
                (data(BYTE), vec![1]),
                (data(INT), vec![2]),
                (data(NUMBER), vec![3]),
                (SimpleType::Var, vec![1, 2, 3]),
            ],
        ),
    ]
}

#[test]
fn build_branches_on_parameter_without_generic_first() {
    let m = StateMachine::build(three_impls(), set(&[1, 2, 3]));
    assert_eq!(m.generic_param, T2);
    assert_eq!(m.branches.len(), 4);
    match m.default.as_ref() {
        StateMachineOrLeaves::Leaves(l) => assert!(l.is_empty()),
        StateMachineOrLeaves::StateMachine(_) => panic!("default should be empty leaves"),
    }
}

#[test]
fn build_candidates_follow_every_argument() {
    let m = StateMachine::build(three_impls(), set(&[1, 2, 3]));
    assert_eq!(m.get_candidates(&generics(data(INT), data(INT))), &[2u64][..]);
    assert_eq!(m.get_candidates(&generics(data(INT), data(BYTE))), &[1u64][..]);
    assert_eq!(m.get_candidates(&generics(data(INT), SimpleType::Var)), &[1u64, 2][..]);
    assert_eq!(
        m.get_candidates(&generics(SimpleType::Var, SimpleType::Var)),
        &[1u64, 2, 3][..]
    );
    assert_eq!(m.get_candidates(&generics(data(NUMBER), data(INT))), &[] as &[u64]);
    assert_eq!(m.get_candidates(&generics(data(BYTE), data(NUMBER))), &[3u64][..]);
}

#[test]
fn build_respects_the_implementations_given() {
    let m = StateMachine::build(three_impls(), set(&[1, 3]));
    assert_eq!(m.get_candidates(&generics(data(INT), data(INT))), &[] as &[u64]);
    assert_eq!(
        m.get_candidates(&generics(SimpleType::Var, SimpleType::Var)),
        &[1u64, 3][..]
    );
}

#[test]
fn build_single_parameter_has_leaves() {
    let t: ImplsByGenerics = vec![(
        T1,
        vec![
            (data(INT), vec![1]),
            (data(NUMBER), vec![2]),
            (SimpleType::Var, vec![2, 1]),
        ],
    )];
    let m = StateMachine::build(t, set(&[1, 2]));
    assert_eq!(m.generic_param, T1);
    let mut g = HashMap::new();
    g.insert(T1, data(INT));
    assert_eq!(m.get_candidates(&g), &[1u64][..]);
    g.insert(T1, SimpleType::Var);
    assert_eq!(m.get_candidates(&g), &[1u64, 2][..]);
    g.insert(T1, data(BYTE));
    assert_eq!(m.get_candidates(&g), &[] as &[u64]);
    for (_, b) in m.branches.iter() {
        assert!(matches!(b, StateMachineOrLeaves::Leaves(_)));
    }
}

#[test]
fn build_generic_default() {
    // impl 1: (T, T), impl 2: (Int, Number)
    let t: ImplsByGenerics = vec![
        (
            T1,
            vec![
                (data(INT), vec![2, 1]),
                (SimpleType::GenericParam, vec![1]),
                (SimpleType::Var, vec![1, 2]),
            ],
        ),
        (
            T2,
            vec![
                (data(NUMBER), vec![2, 1]),
                (SimpleType::GenericParam, vec![1]),
                (SimpleType::Var, vec![1, 2]),
            ],
        ),
    ];
    let m = StateMachine::build(t, set(&[1, 2]));
    assert_eq!(m.get_candidates(&generics(data(INT), data(INT))), &[1u64][..]);
    assert_eq!(m.get_candidates(&generics(data(NUMBER), data(NUMBER))), &[1u64][..]);
    assert_eq!(m.get_candidates(&generics(data(INT), data(NUMBER))), &[1u64, 2][..]);
    assert_eq!(m.get_candidates(&generics(data(NUMBER), data(INT))), &[1u64][..]);
}

#[test]
fn optimize_keeps_candidates_and_prunes() {
    let m = StateMachine::build(three_impls(), set(&[1, 2, 3]));
    let cases = [
        generics(data(INT), data(INT)),
        generics(data(INT), data(BYTE)),
        generics(data(INT), SimpleType::Var),
        generics(SimpleType::Var, SimpleType::Var),
        generics(data(NUMBER), data(INT)),
        generics(data(BYTE), data(NUMBER)),
    ];
    let before: Vec<Vec<u64>> = cases.iter().map(|g| m.get_candidates(g).to_vec()).collect();
    let mut n = StateMachineOrLeaves::StateMachine(m);
    n.optimize();
    let m2 = match n {
        StateMachineOrLeaves::StateMachine(s) => s,
        StateMachineOrLeaves::Leaves(_) => panic!("the machine should stay"),
    };
    for (g, b) in cases.iter().zip(before.iter()) {
        assert_eq!(m2.get_candidates(g), &b[..]);
    }
    // under T2 = Byte every T1 branch leads to [1], as the default does
    let byte_branch = m2.branches.iter().find(|(t, _)| *t == data(BYTE)).unwrap();
    match &byte_branch.1 {
        StateMachineOrLeaves::Leaves(l) => assert_eq!(l, &vec![1]),
        StateMachineOrLeaves::StateMachine(_) => panic!("should collapse to leaves"),
    }
    // under T2 = Int the T1 branch for Byte leads to [], as the default does
    let int_branch = m2.branches.iter().find(|(t, _)| *t == data(INT)).unwrap();
    match &int_branch.1 {
        StateMachineOrLeaves::StateMachine(s) => {
            assert_eq!(s.generic_param, T1);
            assert_eq!(s.branches.len(), 2);
        },
        StateMachineOrLeaves::Leaves(_) => panic!("T1 = Int still differs"),
    }
    assert_eq!(m2.branches.len(), 4);
}

#[test]
fn optimize_collapses_uniform_node() {
    let mut n = StateMachineOrLeaves::StateMachine(StateMachine {
        generic_param: T1,
        branches: vec![
            (data(INT), StateMachineOrLeaves::Leaves(vec![1])),
            (SimpleType::Var, StateMachineOrLeaves::Leaves(vec![1])),
        ],
        default: Box::new(StateMachineOrLeaves::Leaves(vec![1])),
    });
    n.optimize();
    match n {
        StateMachineOrLeaves::Leaves(l) => assert_eq!(l, vec![1]),
        StateMachineOrLeaves::StateMachine(_) => panic!("should collapse to leaves"),
    }
}

#[test]
fn get_candidates_takes_default() {
    let m = StateMachine {
        generic_param: T1,
        branches: vec![(data(INT), StateMachineOrLeaves::Leaves(vec![4]))],
        default: Box::new(StateMachineOrLeaves::StateMachine(StateMachine {
            generic_param: T2,
            branches: vec![(data(BYTE), StateMachineOrLeaves::Leaves(vec![5, 6]))],
            default: Box::new(StateMachineOrLeaves::Leaves(vec![])),
        })),
    };
    assert_eq!(m.get_candidates(&generics(data(INT), data(NUMBER))), &[4u64][..]);
    assert_eq!(m.get_candidates(&generics(data(NUMBER), data(BYTE))), &[5u64, 6][..]);
    assert_eq!(m.get_candidates(&generics(data(NUMBER), data(INT))), &[] as &[u64]);
}

#[test]
fn intersect_and_sort_filters_and_sorts() {
    assert_eq!(intersect_and_sort(&[5, 3, 9, 3, 7], &set(&[3, 9, 11])), vec![3, 3, 9]);
    assert_eq!(intersect_and_sort(&[], &set(&[1])), Vec::<u64>::new());
    assert_eq!(intersect_and_sort(&[8, 2], &set(&[])), Vec::<u64>::new());
}

use sodigy::inter_mir::poly::{apply_same_generic_params, ImplParam, PolySolver};

const NUM: u64 = 13;
const TUPLE: u64 = 14;
const T_DEF: u64 = 50;

fn concrete(generic: u64, shape: SimpleType) -> ImplParam {
    ImplParam { generic, shape, generic_def: None }
}

fn generic(generic: u64, def: u64) -> ImplParam {
    ImplParam { generic, shape: SimpleType::GenericParam, generic_def: Some(def) }
}

#[test]
fn solver_with_one_impl_has_no_machine() {
    let mut s = PolySolver::new();
    s.impls.push((1, vec![concrete(T1, data(INT))]));
    s.build_state_machine();
    assert!(s.state_machine.is_none());
}

#[test]
fn solver_machine_narrows_down() {
    let mut s = PolySolver::new();
    s.impls.push((1, vec![concrete(T1, data(INT)), concrete(T2, data(INT))]));
    s.impls.push((2, vec![concrete(T1, data(INT)), concrete(T2, data(NUM))]));
    s.impls.push((
        3,
        vec![
            concrete(T1, SimpleType::Data { constructor: TUPLE, arity: 2 }),
            ImplParam { generic: T2, shape: SimpleType::GenericParam, generic_def: Some(T_DEF) },
        ],
    ));
    s.build_state_machine();
    let m = s.state_machine.as_ref().unwrap();
    assert_eq!(m.generic_param, T1);
    assert_eq!(m.get_candidates(&generics(data(INT), data(INT))), &[1u64][..]);
    assert_eq!(m.get_candidates(&generics(data(INT), data(NUM))), &[2u64][..]);
    assert_eq!(m.get_candidates(&generics(data(NUM), data(INT))), &[] as &[u64]);
    let tuple = SimpleType::Data { constructor: TUPLE, arity: 2 };
    assert_eq!(m.get_candidates(&generics(tuple, data(INT))), &[3u64][..]);
    assert_eq!(
        m.get_candidates(&generics(SimpleType::Var, SimpleType::Var)),
        &[1u64, 2, 3][..]
    );
}

#[test]
fn solver_cuts_an_impl_whose_generic_would_take_two_types() {
    // impl 1: (T, T) with one generic parameter; impl 2: (Int, Number)
    let mut s = PolySolver::new();
    s.impls.push((1, vec![generic(T1, T_DEF), generic(T2, T_DEF)]));
    s.impls.push((2, vec![concrete(T1, data(INT)), concrete(T2, data(NUM))]));
    s.build_state_machine();
    let m = s.state_machine.as_ref().unwrap();
    assert_eq!(m.get_candidates(&generics(data(INT), data(INT))), &[1u64][..]);
    assert_eq!(m.get_candidates(&generics(data(NUM), data(NUM))), &[1u64][..]);
    // T1 = Int and T2 = Number cannot be one type: impl 1 is cut
    assert_eq!(m.get_candidates(&generics(data(INT), data(NUM))), &[2u64][..]);
    assert_eq!(m.get_candidates(&generics(data(NUM), data(INT))), &[1u64][..]);
    assert_eq!(
        m.get_candidates(&generics(SimpleType::Var, SimpleType::Var)),
        &[1u64, 2][..]
    );
}

#[test]
fn apply_cuts_other_data_types_only() {
    let mut m = StateMachine {
        generic_param: T1,
        branches: vec![(
            data(INT),
            StateMachineOrLeaves::StateMachine(StateMachine {
                generic_param: T2,
                branches: vec![
                    (data(INT), StateMachineOrLeaves::Leaves(vec![1, 2])),
                    (data(NUM), StateMachineOrLeaves::Leaves(vec![1, 2])),
                    (SimpleType::Var, StateMachineOrLeaves::Leaves(vec![1, 2])),
                ],
                default: Box::new(StateMachineOrLeaves::Leaves(vec![1])),
            }),
        )],
        default: Box::new(StateMachineOrLeaves::Leaves(vec![1])),
    };
    apply_same_generic_params(&mut m, 1, &[T1, T2], None, false);
    assert_eq!(m.get_candidates(&generics(data(INT), data(INT))), &[1u64, 2][..]);
    assert_eq!(m.get_candidates(&generics(data(INT), data(NUM))), &[2u64][..]);
    assert_eq!(m.get_candidates(&generics(data(INT), SimpleType::Var)), &[1u64, 2][..]);
    assert_eq!(m.get_candidates(&generics(data(INT), data(BYTE))), &[1u64][..]);
}

#[test]
fn apply_cuts_each_branch_on_its_own() {
    const T3: u64 = 102;
    let leaf_node = || {
        StateMachineOrLeaves::StateMachine(StateMachine {
            generic_param: T3,
            branches: vec![(SimpleType::Var, StateMachineOrLeaves::Leaves(vec![1]))],
            default: Box::new(StateMachineOrLeaves::Leaves(vec![1])),
        })
    };
    let mut m = StateMachine {
        generic_param: T1,
        branches: vec![(
            data(INT),
            StateMachineOrLeaves::StateMachine(StateMachine {
                generic_param: T2,
                branches: vec![(data(BYTE), leaf_node()), (data(INT), leaf_node())],
                default: Box::new(StateMachineOrLeaves::Leaves(vec![1])),
            }),
        )],
        default: Box::new(StateMachineOrLeaves::Leaves(vec![1])),
    };
    apply_same_generic_params(&mut m, 1, &[T1, T2], None, false);
    let mut g = generics(data(INT), data(BYTE));
    g.insert(T3, SimpleType::Var);
    assert_eq!(m.get_candidates(&g), &[] as &[u64]);
    // the branch for Byte came first and led to a node; the branch for Int
    // keeps the implementation all the same
    g.insert(T2, data(INT));
    assert_eq!(m.get_candidates(&g), &[1u64][..]);
}

const T3: u64 = 102;
const U_DEF: u64 = 51;

fn all_generics(args: &[SimpleType]) -> HashMap<u64, SimpleType> {
    let params = [T1, T2, T3];
    let mut g = HashMap::new();
    for (i, a) in args.iter().enumerate() {
        g.insert(params[i], *a);
    }
    g
}

fn solver_of(impls: Vec<(u64, Vec<ImplParam>)>) -> PolySolver {
    let mut s = PolySolver::new();
    for (id, params) in impls {
        s.impls.push((id, params));
    }
    s.build_state_machine();
    s
}

fn check_candidates(s: &PolySolver, args: &[SimpleType], answer: &[u64], false_positive: bool) {
    let m = s.state_machine.as_ref().unwrap();
    let c = m.get_candidates(&all_generics(args));
    let distinct: HashSet<u64> = c.iter().cloned().collect();
    assert_eq!(c.len(), distinct.len());
    if false_positive {
        assert!(answer.iter().all(|a| distinct.contains(a)));
    } else {
        assert_eq!(distinct, set(answer));
    }
}

#[test]
fn poly_solvers() {
    let int = data(INT);
    let num = data(NUM);
    let byte = data(BYTE);
    let tuple = SimpleType::Data { constructor: TUPLE, arity: 2 };
    let var = SimpleType::Var;
    let c = |i: usize, a: SimpleType| concrete([T1, T2, T3][i], a);
    let t = |i: usize| generic([T1, T2, T3][i], T_DEF);
    let u = |i: usize| generic([T1, T2, T3][i], U_DEF);

    let s = solver_of(vec![
        (1, vec![c(0, int), c(1, int)]),
        (2, vec![c(0, int), c(1, num)]),
        (3, vec![c(0, tuple), t(1)]),
    ]);
    check_candidates(&s, &[int, int], &[1], false);
    check_candidates(&s, &[int, num], &[2], false);
    check_candidates(&s, &[num, int], &[], false);
    check_candidates(&s, &[tuple, int], &[3], false);
    check_candidates(&s, &[var, var], &[1, 2, 3], false);

    let s = solver_of(vec![(1, vec![t(0), t(1)]), (2, vec![c(0, int), c(1, num)])]);
    check_candidates(&s, &[var, var], &[1], true);
    check_candidates(&s, &[int, int], &[1], false);
    check_candidates(&s, &[num, num], &[1], false);
    check_candidates(&s, &[int, num], &[2], false);
    check_candidates(&s, &[num, int], &[], true);

    let s = solver_of(vec![(1, vec![c(0, int)]), (2, vec![c(0, num)])]);
    check_candidates(&s, &[int], &[1], false);
    check_candidates(&s, &[num], &[2], false);
    check_candidates(&s, &[var], &[1, 2], false);

    let s = solver_of(vec![(1, vec![t(0), u(1)]), (2, vec![c(0, int), c(1, num)])]);
    check_candidates(&s, &[int, num], &[1, 2], false);
    check_candidates(&s, &[var, var], &[1, 2], false);

    let s = solver_of(vec![
        (1, vec![t(0), c(1, byte)]),
        (2, vec![c(0, int), c(1, int)]),
        (3, vec![c(0, byte), c(1, num)]),
    ]);
    check_candidates(&s, &[var, var], &[1, 2, 3], false);
    check_candidates(&s, &[int, int], &[2], false);
    check_candidates(&s, &[int, byte], &[1], false);
    check_candidates(&s, &[int, var], &[1, 2], false);

    let s = solver_of(vec![
        (1, vec![t(0), t(1)]),
        (2, vec![c(0, int), c(1, byte)]),
        (3, vec![c(0, int), c(1, num)]),
        (4, vec![c(0, int), c(1, tuple)]),
        (5, vec![c(0, byte), c(1, num)]),
        (6, vec![c(0, byte), c(1, int)]),
        (7, vec![c(0, num), c(1, int)]),
    ]);
    check_candidates(&s, &[int, int], &[1], false);

    let s = solver_of(vec![
        (1, vec![t(0), t(1), u(2)]),
        (2, vec![t(0), u(1), t(2)]),
        (3, vec![u(0), t(1), t(2)]),
        (4, vec![t(0), t(1), t(2)]),
        (5, vec![c(0, int), c(1, byte), c(2, num)]),
    ]);
    check_candidates(&s, &[int, int, num], &[1], true);
    check_candidates(&s, &[byte, num, byte], &[2], true);
}

#[test]
fn solver_without_a_machine_when_everything_collapses() {
    // both implementations fit every argument: the optimized machine is one
    // list of leaves, and the solver keeps no machine at all
    let mut s = solver_of(vec![(1, vec![generic(T1, T_DEF)]), (2, vec![generic(T1, U_DEF)])]);
    assert!(s.state_machine.is_none());
    s.impls.push((3, vec![concrete(T1, data(INT))]));
    s.build_state_machine();
    assert!(s.state_machine.is_some());
}
