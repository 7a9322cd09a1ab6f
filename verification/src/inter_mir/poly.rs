//! Narrowing down the implementations of a polymorphic function.
//!
//! For `#[poly] fn add<T, U>(..)` with implementations `add_int(Int, Int)`,
//! `add_homo<V>(V, V)` and so on, a state machine looks at the generic
//! arguments of a call, one generic parameter at a time, and names the
//! implementations that may match. It may name too many, never too few: the
//! type checker tries each candidate afterwards.
//!
//! Definitions and generic parameters are named by the ids of their spans.
use std::collections::{HashMap, HashSet};
use vstd::prelude::*;

verus! {

broadcast use vstd::std_specs::hash::group_hash_axioms;

/// The shape of a type as far as the state machine looks at it.
#[derive(Clone, Copy, Debug, PartialEq, Eq, Structural)]
pub enum SimpleType {
    /// A data type: its constructor and how many type arguments it takes.
    Data { constructor: u64, arity: usize },
    Func { params: usize },
    /// In an implementation's signature: any type.
    GenericParam,
    /// In a call: a type not known yet.
    Var,
}

pub enum StateMachineOrLeaves {
    StateMachine(StateMachine),
    /// The implementations that may match, sorted.
    Leaves(Vec<u64>),
}

/// Branches on the shape of the argument of `generic_param`.
pub struct StateMachine {
    pub generic_param: u64,
    pub branches: Vec<(SimpleType, StateMachineOrLeaves)>,
    /// Taken when no branch is for the argument's shape.
    pub default: Box<StateMachineOrLeaves>,
}

/// The first branch for `a`, or -1.
pub open spec fn find_branch(bs: Seq<(SimpleType, StateMachineOrLeaves)>, a: SimpleType) -> int
    decreases bs.len(),
{
    if bs.len() == 0 {
        -1
    } else if find_branch(bs.drop_last(), a) >= 0 {
        find_branch(bs.drop_last(), a)
    } else if bs.last().0 == a {
        bs.len() - 1
    } else {
        -1
    }
}

/// The implementations that the node names for the generic arguments `g`.
pub open spec fn node_candidates(n: StateMachineOrLeaves, g: Map<u64, SimpleType>) -> Seq<u64>
    decreases n,
{
    match n {
        StateMachineOrLeaves::Leaves(v) => v@,
        StateMachineOrLeaves::StateMachine(s) => {
            let k = find_branch(s.branches@, g[s.generic_param]);
            if 0 <= k < s.branches@.len() {
                proof {
                    assert(decreases_to!(n => s));
                    assert(decreases_to!(s => s.branches));
                    assert(decreases_to!(s.branches => s.branches@));
                    assert(decreases_to!(s.branches@ => s.branches@[k]));
                }
                node_candidates(s.branches@[k].1, g)
            } else {
                proof {
                    assert(decreases_to!(n => s));
                    assert(decreases_to!(s => s.default));
                }
                node_candidates(*s.default, g)
            }
        },
    }
}

/// Every generic parameter that the node looks at on the way for `g` has
/// an argument in `g`.
pub open spec fn node_defined(n: StateMachineOrLeaves, g: Map<u64, SimpleType>) -> bool
    decreases n,
{
    match n {
        StateMachineOrLeaves::Leaves(_) => true,
        StateMachineOrLeaves::StateMachine(s) => {
            &&& g.contains_key(s.generic_param)
            &&& {
                let k = find_branch(s.branches@, g[s.generic_param]);
                if 0 <= k < s.branches@.len() {
                    proof {
                        assert(decreases_to!(n => s));
                        assert(decreases_to!(s => s.branches));
                        assert(decreases_to!(s.branches => s.branches@));
                        assert(decreases_to!(s.branches@ => s.branches@[k]));
                    }
                    node_defined(s.branches@[k].1, g)
                } else {
                    proof {
                        assert(decreases_to!(n => s));
                        assert(decreases_to!(s => s.default));
                    }
                    node_defined(*s.default, g)
                }
            }
        },
    }
}

proof fn lemma_find_branch(bs: Seq<(SimpleType, StateMachineOrLeaves)>, a: SimpleType)
    ensures
        -1 <= find_branch(bs, a) < bs.len(),
        find_branch(bs, a) >= 0 ==> bs[find_branch(bs, a)].0 == a,
        find_branch(bs, a) >= 0 ==> forall|j: int| 0 <= j < find_branch(bs, a) ==> bs[j].0 != a,
        find_branch(bs, a) < 0 ==> forall|j: int| 0 <= j < bs.len() ==> bs[j].0 != a,
    decreases bs.len(),
{
    if bs.len() > 0 {
        let pre = bs.drop_last();
        lemma_find_branch(pre, a);
        assert forall|j: int| 0 <= j < pre.len() implies bs[j] == pre[j] by {}
    }
}

impl StateMachine {
    /// The implementations that may match the generic arguments `generics`.
    pub fn get_candidates<'a>(&'a self, generics: &HashMap<u64, SimpleType>) -> (r: &'a [u64])
        requires
            node_defined(StateMachineOrLeaves::StateMachine(*self), generics@),
        ensures
            r@ == node_candidates(StateMachineOrLeaves::StateMachine(*self), generics@),
        decreases *self,
    {
        let simple_type = *generics.get(&self.generic_param).unwrap();
        let mut i: usize = 0;
        proof {
            lemma_find_branch(self.branches@, simple_type);
        }
        while i < self.branches.len()
            invariant
                i <= self.branches@.len(),
                forall|j: int| 0 <= j < i ==> self.branches@[j].0 != simple_type,
                simple_type == generics@[self.generic_param],
                node_defined(StateMachineOrLeaves::StateMachine(*self), generics@),
                -1 <= find_branch(self.branches@, simple_type) < self.branches@.len(),
                find_branch(self.branches@, simple_type) >= 0 ==> self.branches@[find_branch(
                    self.branches@,
                    simple_type,
                )].0 == simple_type,
                find_branch(self.branches@, simple_type) >= 0 ==> forall|j: int|
                    0 <= j < find_branch(self.branches@, simple_type) ==> self.branches@[j].0
                        != simple_type,
                find_branch(self.branches@, simple_type) < 0 ==> forall|j: int|
                    0 <= j < self.branches@.len() ==> self.branches@[j].0 != simple_type,
            decreases self.branches@.len() - i,
        {
            if self.branches[i].0 == simple_type {
                proof {
                    assert(find_branch(self.branches@, simple_type) == i);
                    assert(decreases_to!(*self => self.branches));
                    assert(decreases_to!(self.branches => self.branches@));
                    assert(decreases_to!(self.branches@ => self.branches@[i as int]));
                }
                let ghost whole = StateMachineOrLeaves::StateMachine(*self);
                proof {
                    assert(node_candidates(whole, generics@) == node_candidates(
                        self.branches@[i as int].1,
                        generics@,
                    ));
                }
                return match &self.branches[i].1 {
                    StateMachineOrLeaves::StateMachine(s) => s.get_candidates(generics),
                    StateMachineOrLeaves::Leaves(impls) => impls.as_slice(),
                };
            }
            i = i + 1;
        }
        proof {
            assert(find_branch(self.branches@, simple_type) < 0);
            assert(node_candidates(StateMachineOrLeaves::StateMachine(*self), generics@)
                == node_candidates(*self.default, generics@));
        }
        match &*self.default {
            StateMachineOrLeaves::StateMachine(s) => s.get_candidates(generics),
            StateMachineOrLeaves::Leaves(impls) => impls.as_slice(),
        }
    }
}

} // verus!

verus! {

/// `s` is in ascending order.
pub open spec fn sorted(s: Seq<u64>) -> bool {
    forall|i: int, j: int| 0 <= i <= j < s.len() ==> s[i] <= s[j]
}

/// The elements of `s` that `set` holds, in order.
pub open spec fn members(s: Seq<u64>, set: Set<u64>) -> Seq<u64>
    decreases s.len(),
{
    if s.len() == 0 {
        seq![]
    } else if set.contains(s.last()) {
        members(s.drop_last(), set).push(s.last())
    } else {
        members(s.drop_last(), set)
    }
}

/// `slice::sort` of std: sorts `v` in ascending order, keeping each id as
/// often as it occurs.
#[verifier::external_body]
fn sort_ids(v: &mut Vec<u64>)
    ensures
        sorted(final(v)@),
        final(v)@.to_multiset() == old(v)@.to_multiset(),
{
    v.sort();
}

/// The ids of `spans` that `superset` holds, sorted, so that two lists can
/// be compared by their elements.
pub fn intersect_and_sort(spans: &[u64], superset: &HashSet<u64>) -> (r: Vec<u64>)
    ensures
        sorted(r@),
        r@.to_multiset() == members(spans@, superset@).to_multiset(),
{
    let mut s: Vec<u64> = Vec::new();
    let mut i: usize = 0;
    proof {
        assert(spans@.take(0) =~= Seq::<u64>::empty());
    }
    while i < spans.len()
        invariant
            i <= spans@.len(),
            s@ == members(spans@.take(i as int), superset@),
        decreases spans@.len() - i,
    {
        proof {
            assert(spans@.take(i + 1).drop_last() =~= spans@.take(i as int));
        }
        if superset.contains(&spans[i]) {
            s.push(spans[i]);
        }
        i = i + 1;
    }
    proof {
        assert(spans@.take(i as int) =~= spans@);
    }
    sort_ids(&mut s);
    s
}

} // verus!

verus! {

/// No two branches are for the same shape.
pub open spec fn distinct_keys(bs: Seq<(SimpleType, StateMachineOrLeaves)>) -> bool {
    forall|i: int, j: int| 0 <= i < j < bs.len() ==> #[trigger] bs[i].0 != #[trigger] bs[j].0
}

/// No node of the tree has two branches for the same shape, and no leaves
/// name an implementation twice.
pub open spec fn well_keyed(n: StateMachineOrLeaves) -> bool
    decreases n, 1nat,
{
    match n {
        StateMachineOrLeaves::Leaves(v) => v@.no_duplicates(),
        StateMachineOrLeaves::StateMachine(s) => {
            proof {
                assert(decreases_to!(n => s));
                assert(decreases_to!(s => s.branches));
                assert(decreases_to!(s.branches => s.branches@));
                assert(decreases_to!(s => s.default));
            }
            &&& distinct_keys(s.branches@)
            &&& branches_well_keyed(s.branches@)
            &&& well_keyed(*s.default)
        },
    }
}

pub open spec fn branches_well_keyed(bs: Seq<(SimpleType, StateMachineOrLeaves)>) -> bool
    decreases bs, 0nat,
{
    if bs.len() == 0 {
        true
    } else {
        proof {
            assert(decreases_to!(bs => bs[bs.len() - 1]));
        }
        branches_well_keyed(bs.drop_last()) && well_keyed(bs.last().1)
    }
}

/// `a` names the same implementations as `b` for every generic arguments
/// on which `b` is defined.
pub open spec fn same_candidates(a: StateMachineOrLeaves, b: StateMachineOrLeaves) -> bool {
    forall|g: Map<u64, SimpleType>|
        #[trigger] node_defined(b, g) ==> node_defined(a, g) && node_candidates(a, g)
            == node_candidates(b, g)
}

/// A branch that leads to exactly the leaves `l`.
pub open spec fn leads_to(b: StateMachineOrLeaves, l: Seq<u64>) -> bool {
    b matches StateMachineOrLeaves::Leaves(v) && v@ == l
}

/// The branches that do not lead to the leaves `l`, in order.
pub open spec fn kept_branches(bs: Seq<(SimpleType, StateMachineOrLeaves)>, l: Seq<u64>) -> Seq<
    (SimpleType, StateMachineOrLeaves),
>
    decreases bs.len(),
{
    if bs.len() == 0 {
        seq![]
    } else if leads_to(bs.last().1, l) {
        kept_branches(bs.drop_last(), l)
    } else {
        kept_branches(bs.drop_last(), l).push(bs.last())
    }
}

proof fn lemma_branches_well_keyed_at(bs: Seq<(SimpleType, StateMachineOrLeaves)>, i: int)
    requires
        branches_well_keyed(bs),
        0 <= i < bs.len(),
    ensures
        well_keyed(bs[i].1),
    decreases bs.len(),
{
    if i < bs.len() - 1 {
        lemma_branches_well_keyed_at(bs.drop_last(), i);
    }
}

/// A well keyed tree names no implementation twice.
pub proof fn lemma_keyed_names_once(n: StateMachineOrLeaves, g: Map<u64, SimpleType>)
    requires
        well_keyed(n),
    ensures
        node_candidates(n, g).no_duplicates(),
    decreases n,
{
    match n {
        StateMachineOrLeaves::Leaves(_) => {},
        StateMachineOrLeaves::StateMachine(s) => {
            let bs = s.branches@;
            let k = find_branch(bs, g[s.generic_param]);
            assert(decreases_to!(n => s));
            assert(decreases_to!(s => s.branches));
            assert(decreases_to!(s.branches => s.branches@));
            assert(decreases_to!(s => s.default));
            if 0 <= k < bs.len() {
                assert(decreases_to!(s.branches@ => s.branches@[k]));
                assert(decreases_to!(s.branches@[k] => s.branches@[k].1));
                lemma_branches_well_keyed_at(bs, k);
                lemma_keyed_names_once(bs[k].1, g);
            } else {
                lemma_keyed_names_once(*s.default, g);
            }
        },
    }
}

/// Among branches for distinct shapes, the kept ones still find the kept
/// branch for a shape, and find nothing where that branch led to `l`.
proof fn lemma_kept_find(bs: Seq<(SimpleType, StateMachineOrLeaves)>, l: Seq<u64>, a: SimpleType)
    requires
        distinct_keys(bs),
    ensures
        distinct_keys(kept_branches(bs, l)),
        ({
            let k = find_branch(bs, a);
            let ks = kept_branches(bs, l);
            let kk = find_branch(ks, a);
            &&& k < 0 ==> kk < 0
            &&& k >= 0 && leads_to(bs[k].1, l) ==> kk < 0
            &&& k >= 0 && !leads_to(bs[k].1, l) ==> 0 <= kk < ks.len() && ks[kk] == bs[k]
        }),
        forall|x| kept_branches(bs, l).contains(x) ==> bs.contains(x),
    decreases bs.len(),
{
    lemma_find_branch(bs, a);
    if bs.len() > 0 {
        let pre = bs.drop_last();
        assert forall|i: int, j: int| 0 <= i < j < pre.len() implies #[trigger] pre[i].0
            != #[trigger] pre[j].0 by {
            assert(pre[i] == bs[i] && pre[j] == bs[j]);
        }
        lemma_kept_find(pre, l, a);
        let ks = kept_branches(bs, l);
        let kp = kept_branches(pre, l);
        lemma_find_branch(pre, a);
        lemma_find_branch(ks, a);
        lemma_find_branch(kp, a);
        if !leads_to(bs.last().1, l) {
            assert(ks == kp.push(bs.last()));
            assert(ks.drop_last() =~= kp);
            assert forall|i: int, j: int| 0 <= i < j < ks.len() implies #[trigger] ks[i].0
                != #[trigger] ks[j].0 by {
                if j == ks.len() - 1 {
                    assert(kp.contains(ks[i]));
                    assert(pre.contains(ks[i]));
                    let ii = choose|ii: int| 0 <= ii < pre.len() && pre[ii] == ks[i];
                    assert(bs[ii] == pre[ii]);
                    assert(ks[j] == bs[bs.len() - 1]);
                } else {
                    assert(ks[i] == kp[i] && ks[j] == kp[j]);
                }
            }
            assert forall|x| ks.contains(x) implies bs.contains(x) by {
                let ii = choose|ii: int| 0 <= ii < ks.len() && ks[ii] == x;
                if ii < kp.len() {
                    assert(kp[ii] == x);
                    assert(kp.contains(x));
                    assert(pre.contains(x));
                    let jj = choose|jj: int| 0 <= jj < pre.len() && pre[jj] == x;
                    assert(bs[jj] == x);
                } else {
                    assert(bs[bs.len() - 1] == x);
                }
            }
            let fp = find_branch(pre, a);
            if fp >= 0 {
                assert(bs[fp] == pre[fp]);
                if leads_to(pre[fp].1, l) {
                    assert(bs[fp].0 != bs[bs.len() - 1].0);
                }
            }
        } else {
            assert(ks == kp);
            assert forall|x| ks.contains(x) implies bs.contains(x) by {
                assert(kp.contains(x));
                assert(pre.contains(x));
                let jj = choose|jj: int| 0 <= jj < pre.len() && pre[jj] == x;
                assert(bs[jj] == x);
            }
            let fp = find_branch(pre, a);
            if fp >= 0 {
                assert(bs[fp] == pre[fp]);
            }
        }
    }
}

} // verus!

verus! {

/// The same shapes in the same order, and branches that name the same
/// implementations.
pub open spec fn same_branches(
    a: Seq<(SimpleType, StateMachineOrLeaves)>,
    b: Seq<(SimpleType, StateMachineOrLeaves)>,
) -> bool {
    &&& a.len() == b.len()
    &&& forall|i: int|
        0 <= i < a.len() ==> #[trigger] a[i].0 == b[i].0 && same_candidates(a[i].1, b[i].1)
            && well_keyed(a[i].1)
}

fn ids_equal(a: &Vec<u64>, b: &Vec<u64>) -> (r: bool)
    ensures
        r == (a@ == b@),
{
    if a.len() != b.len() {
        return false;
    }
    let mut i: usize = 0;
    while i < a.len()
        invariant
            a@.len() == b@.len(),
            i <= a@.len(),
            forall|k: int| 0 <= k < i ==> a@[k] == b@[k],
        decreases a@.len() - i,
    {
        if a[i] != b[i] {
            return false;
        }
        i = i + 1;
    }
    assert(a@ =~= b@);
    true
}

#[verifier::spinoff_prover]
proof fn lemma_same_branches_well_keyed(
    a: Seq<(SimpleType, StateMachineOrLeaves)>,
    b: Seq<(SimpleType, StateMachineOrLeaves)>,
)
    requires
        same_branches(a, b),
        distinct_keys(b),
    ensures
        distinct_keys(a),
        branches_well_keyed(a),
        forall|x: SimpleType| find_branch(a, x) == find_branch(b, x),
    decreases a.len(),
{
    assert forall|i: int, j: int| 0 <= i < j < a.len() implies #[trigger] a[i].0
        != #[trigger] a[j].0 by {
        assert(a[i].0 == b[i].0 && a[j].0 == b[j].0);
    }
    if a.len() > 0 {
        let a2 = a.drop_last();
        let b2 = b.drop_last();
        assert forall|i: int| 0 <= i < a2.len() implies #[trigger] a2[i].0 == b2[i].0
            && same_candidates(a2[i].1, b2[i].1) && well_keyed(a2[i].1) by {
            assert(a2[i] == a[i] && b2[i] == b[i]);
        }
        assert forall|i: int, j: int| 0 <= i < j < b2.len() implies #[trigger] b2[i].0
            != #[trigger] b2[j].0 by {
            assert(b2[i] == b[i] && b2[j] == b[j]);
        }
        assert(same_branches(a2, b2));
        assert(distinct_keys(b2));
        lemma_same_branches_well_keyed(a2, b2);
        assert(a[a.len() - 1].0 == b[b.len() - 1].0);
        assert forall|x: SimpleType| find_branch(a, x) == find_branch(b, x) by {
            assert(find_branch(a2, x) == find_branch(b2, x));
        }
    }
}

proof fn lemma_branches_well_keyed_from(bs: Seq<(SimpleType, StateMachineOrLeaves)>)
    requires
        forall|i: int| 0 <= i < bs.len() ==> well_keyed(#[trigger] bs[i].1),
    ensures
        branches_well_keyed(bs),
    decreases bs.len(),
{
    if bs.len() > 0 {
        let pre = bs.drop_last();
        assert forall|i: int| 0 <= i < pre.len() implies well_keyed(#[trigger] pre[i].1) by {
            assert(pre[i] == bs[i]);
        }
        lemma_branches_well_keyed_from(pre);
        assert(well_keyed(bs[bs.len() - 1].1));
    }
}

/// A node with its branches and default replaced by equivalent ones names
/// the same implementations.
proof fn lemma_optimized_node(n: StateMachineOrLeaves, r: StateMachineOrLeaves)
    requires
        well_keyed(n),
        n matches StateMachineOrLeaves::StateMachine(s0) && r matches StateMachineOrLeaves::StateMachine(s1)
            && s1.generic_param == s0.generic_param && same_branches(s1.branches@, s0.branches@)
            && same_candidates(*s1.default, *s0.default) && well_keyed(*s1.default),
    ensures
        same_candidates(r, n),
        well_keyed(r),
{
    let s0 = n->StateMachine_0;
    let s1 = r->StateMachine_0;
    lemma_same_branches_well_keyed(s1.branches@, s0.branches@);
    assert forall|g: Map<u64, SimpleType>| #[trigger] node_defined(n, g) implies node_defined(r, g)
        && node_candidates(r, g) == node_candidates(n, g) by {
        let a = g[s0.generic_param];
        let k = find_branch(s0.branches@, a);
        lemma_find_branch(s0.branches@, a);
        if k >= 0 {
            assert(s1.branches@[k].0 == s0.branches@[k].0);
            assert(same_candidates(s1.branches@[k].1, s0.branches@[k].1));
            assert(node_defined(s0.branches@[k].1, g));
            assert(node_candidates(n, g) == node_candidates(s0.branches@[k].1, g));
            assert(node_candidates(r, g) == node_candidates(s1.branches@[k].1, g));
            assert(node_defined(r, g) == node_defined(s1.branches@[k].1, g));
        } else {
            assert(node_defined(*s0.default, g));
            assert(node_candidates(n, g) == node_candidates(*s0.default, g));
            assert(node_candidates(r, g) == node_candidates(*s1.default, g));
            assert(node_defined(r, g) == node_defined(*s1.default, g));
        }
    }
}

/// A node whose branches that lead to its default's leaves are dropped
/// names the same implementations.
proof fn lemma_optimized_leaves(
    n: StateMachineOrLeaves,
    r: StateMachineOrLeaves,
    all: Seq<(SimpleType, StateMachineOrLeaves)>,
    d: StateMachineOrLeaves,
)
    requires
        well_keyed(n),
        n matches StateMachineOrLeaves::StateMachine(s0) && same_branches(all, s0.branches@)
            && same_candidates(d, *s0.default),
        well_keyed(d),
        d matches StateMachineOrLeaves::Leaves(lv) && {
            let ks = kept_branches(all, lv@);
            ||| ks.len() == 0 && r == d
            ||| r matches StateMachineOrLeaves::StateMachine(s1) && s1.generic_param
                == n->StateMachine_0.generic_param && s1.branches@ == ks && *s1.default == d
        },
    ensures
        same_candidates(r, n),
        well_keyed(r),
{
    let s0 = n->StateMachine_0;
    let l = d->Leaves_0@;
    let ks = kept_branches(all, l);
    lemma_same_branches_well_keyed(all, s0.branches@);
    assert forall|g: Map<u64, SimpleType>| #[trigger] node_defined(n, g) implies node_defined(r, g)
        && node_candidates(r, g) == node_candidates(n, g) by {
        let a = g[s0.generic_param];
        let k = find_branch(s0.branches@, a);
        lemma_find_branch(s0.branches@, a);
        lemma_kept_find(all, l, a);
        lemma_find_branch(ks, a);
        if k >= 0 {
            assert(node_defined(s0.branches@[k].1, g));
            assert(node_candidates(n, g) == node_candidates(s0.branches@[k].1, g));
            assert(all[k].0 == s0.branches@[k].0);
            assert(same_candidates(all[k].1, s0.branches@[k].1));
            assert(node_defined(all[k].1, g));
        } else {
            assert(node_defined(*s0.default, g));
            assert(node_candidates(n, g) == node_candidates(*s0.default, g));
            assert(node_defined(d, g));
        }
        if r != d {
            let s1 = r->StateMachine_0;
            let kk = find_branch(ks, a);
            if kk >= 0 {
                assert(node_candidates(r, g) == node_candidates(ks[kk].1, g));
                assert(node_defined(r, g) == node_defined(ks[kk].1, g));
            } else {
                assert(node_candidates(r, g) == node_candidates(d, g));
                assert(node_defined(r, g) == node_defined(d, g));
            }
        }
    }
    if r != d {
        lemma_kept_find(all, l, SimpleType::Var);
        assert forall|i: int| 0 <= i < ks.len() implies well_keyed(#[trigger] ks[i].1) by {
            assert(ks.contains(ks[i]));
            assert(all.contains(ks[i]));
            let j = choose|j: int| 0 <= j < all.len() && all[j] == ks[i];
            assert(all[j].0 == s0.branches@[j].0);
            assert(well_keyed(all[j].1));
        }
        lemma_branches_well_keyed_from(ks);
    }
}

/// The leaves that the optimized node comes down to, where it comes down to
/// leaves: a node does so where its optimized default is leaves and every
/// optimized branch is those same leaves.
pub open spec fn opt_leaves(n: StateMachineOrLeaves) -> Option<Seq<u64>>
    decreases n, 1nat,
{
    match n {
        StateMachineOrLeaves::Leaves(v) => Some(v@),
        StateMachineOrLeaves::StateMachine(s) => {
            proof {
                assert(decreases_to!(n => s));
                assert(decreases_to!(s => s.default));
                assert(decreases_to!(s => s.branches));
                assert(decreases_to!(s.branches => s.branches@));
            }
            match opt_leaves(*s.default) {
                Some(l) => if all_lead(s.branches@, l) {
                    Some(l)
                } else {
                    None
                },
                None => None,
            }
        },
    }
}

/// Every branch comes down to the leaves `l` when optimized.
pub open spec fn all_lead(bs: Seq<(SimpleType, StateMachineOrLeaves)>, l: Seq<u64>) -> bool
    decreases bs, 0nat,
{
    if bs.len() == 0 {
        true
    } else {
        proof {
            assert(decreases_to!(bs => bs[bs.len() - 1]));
        }
        all_lead(bs.drop_last(), l) && opt_leaves(bs.last().1) == Some(l)
    }
}

/// `r` is the node `n` optimized: leaves stay; a node whose optimized
/// default is the leaves `l` loses the branches that come down to `l`, and
/// becomes those leaves where no branch is left; the other branches and the
/// default are optimized in place.
pub open spec fn opt_rel(n: StateMachineOrLeaves, r: StateMachineOrLeaves) -> bool
    decreases n, 1nat,
{
    match n {
        StateMachineOrLeaves::Leaves(v) => r matches StateMachineOrLeaves::Leaves(v2) && v2@ == v@,
        StateMachineOrLeaves::StateMachine(s) => {
            proof {
                assert(decreases_to!(n => s));
                assert(decreases_to!(s => s.default));
                assert(decreases_to!(s => s.branches));
                assert(decreases_to!(s.branches => s.branches@));
            }
            match opt_leaves(*s.default) {
                Some(l) => if all_lead(s.branches@, l) {
                    r matches StateMachineOrLeaves::Leaves(v2) && v2@ == l
                } else {
                    r matches StateMachineOrLeaves::StateMachine(s2) && s2.generic_param
                        == s.generic_param && (*s2.default matches StateMachineOrLeaves::Leaves(
                        l2) && l2@ == l) && kept_rel(s.branches@, s2.branches@, l)
                },
                None => r matches StateMachineOrLeaves::StateMachine(s2) && s2.generic_param
                    == s.generic_param && opt_rel(*s.default, *s2.default) && map_rel(
                    s.branches@,
                    s2.branches@,
                ),
            }
        },
    }
}

/// `bs2` is `bs` with each branch optimized, in order, but for the branches
/// that come down to the leaves `l`, which go.
pub open spec fn kept_rel(
    bs: Seq<(SimpleType, StateMachineOrLeaves)>,
    bs2: Seq<(SimpleType, StateMachineOrLeaves)>,
    l: Seq<u64>,
) -> bool
    decreases bs, 0nat,
{
    if bs.len() == 0 {
        bs2.len() == 0
    } else {
        proof {
            assert(decreases_to!(bs => bs[bs.len() - 1]));
        }
        if opt_leaves(bs.last().1) == Some(l) {
            kept_rel(bs.drop_last(), bs2, l)
        } else {
            &&& bs2.len() > 0
            &&& bs2.last().0 == bs.last().0
            &&& opt_rel(bs.last().1, bs2.last().1)
            &&& kept_rel(bs.drop_last(), bs2.drop_last(), l)
        }
    }
}

/// `bs2` is `bs` with each branch optimized, in order.
pub open spec fn map_rel(
    bs: Seq<(SimpleType, StateMachineOrLeaves)>,
    bs2: Seq<(SimpleType, StateMachineOrLeaves)>,
) -> bool
    decreases bs, 0nat,
{
    if bs.len() == 0 {
        bs2.len() == 0
    } else {
        proof {
            assert(decreases_to!(bs => bs[bs.len() - 1]));
        }
        &&& bs2.len() == bs.len()
        &&& bs2.last().0 == bs.last().0
        &&& opt_rel(bs.last().1, bs2.last().1)
        &&& map_rel(bs.drop_last(), bs2.drop_last())
    }
}

/// An optimized node is leaves just where the node comes down to leaves,
/// and then those leaves.
proof fn lemma_opt_leaves(n: StateMachineOrLeaves, r: StateMachineOrLeaves)
    requires
        opt_rel(n, r),
    ensures
        (r is Leaves) == (opt_leaves(n) is Some),
        r matches StateMachineOrLeaves::Leaves(v) ==> opt_leaves(n) == Some(v@),
{
}

proof fn lemma_map_rel_at(
    bs: Seq<(SimpleType, StateMachineOrLeaves)>,
    bs2: Seq<(SimpleType, StateMachineOrLeaves)>,
)
    requires
        map_rel(bs, bs2),
    ensures
        bs2.len() == bs.len(),
        forall|i: int| 0 <= i < bs.len() ==> #[trigger] bs2[i].0 == bs[i].0 && opt_rel(bs[i].1, bs2[i].1),
    decreases bs.len(),
{
    if bs.len() > 0 {
        lemma_map_rel_at(bs.drop_last(), bs2.drop_last());
        assert forall|i: int| 0 <= i < bs.len() implies #[trigger] bs2[i].0 == bs[i].0 && opt_rel(bs[i].1, bs2[i].1) by {
            if i < bs.len() - 1 {
                assert(bs.drop_last()[i] == bs[i]);
                assert(bs2.drop_last()[i] == bs2[i]);
                assert(bs2.drop_last()[i].0 == bs.drop_last()[i].0);
            }
        }
    }
}

/// No node keeps a branch that is just the leaves of its default.
pub open spec fn tidy(n: StateMachineOrLeaves) -> bool
    decreases n, 1nat,
{
    match n {
        StateMachineOrLeaves::Leaves(_) => true,
        StateMachineOrLeaves::StateMachine(s) => {
            proof {
                assert(decreases_to!(n => s));
                assert(decreases_to!(s => s.branches));
                assert(decreases_to!(s.branches => s.branches@));
                assert(decreases_to!(s => s.default));
            }
            &&& (*s.default matches StateMachineOrLeaves::Leaves(d) ==> forall|i: int|
                0 <= i < s.branches@.len() ==> !(#[trigger] s.branches@[i].1 matches StateMachineOrLeaves::Leaves(
                    v,
                ) && v@ == d@))
            &&& branches_tidy(s.branches@)
            &&& tidy(*s.default)
        },
    }
}

pub open spec fn branches_tidy(bs: Seq<(SimpleType, StateMachineOrLeaves)>) -> bool
    decreases bs, 0nat,
{
    if bs.len() == 0 {
        true
    } else {
        proof {
            assert(decreases_to!(bs => bs[bs.len() - 1]));
        }
        branches_tidy(bs.drop_last()) && tidy(bs.last().1)
    }
}

proof fn lemma_branches_tidy_from(bs: Seq<(SimpleType, StateMachineOrLeaves)>)
    requires
        forall|i: int| 0 <= i < bs.len() ==> tidy(#[trigger] bs[i].1),
    ensures
        branches_tidy(bs),
    decreases bs.len(),
{
    if bs.len() > 0 {
        let pre = bs.drop_last();
        assert forall|i: int| 0 <= i < pre.len() implies tidy(#[trigger] pre[i].1) by {
            assert(pre[i] == bs[i]);
        }
        lemma_branches_tidy_from(pre);
        assert(tidy(bs[bs.len() - 1].1));
    }
}

/// Each kept branch is an optimized branch that does not come down to `l`.
proof fn lemma_kept_rel_at(
    bs: Seq<(SimpleType, StateMachineOrLeaves)>,
    bs2: Seq<(SimpleType, StateMachineOrLeaves)>,
    l: Seq<u64>,
    j: int,
) -> (i: int)
    requires
        kept_rel(bs, bs2, l),
        0 <= j < bs2.len(),
    ensures
        0 <= i < bs.len(),
        opt_rel(bs[i].1, bs2[j].1),
        opt_leaves(bs[i].1) != Some(l),
    decreases bs.len(),
{
    let pre = bs.drop_last();
    if opt_leaves(bs.last().1) == Some(l) {
        let i = lemma_kept_rel_at(pre, bs2, l, j);
        assert(pre[i] == bs[i]);
        i
    } else if j == bs2.len() - 1 {
        bs.len() - 1
    } else {
        let i = lemma_kept_rel_at(pre, bs2.drop_last(), l, j);
        assert(pre[i] == bs[i]);
        assert(bs2.drop_last()[j] == bs2[j]);
        i
    }
}

/// An optimized tree keeps no branch that is just its default's leaves.
pub proof fn lemma_optimized_tidy(n: StateMachineOrLeaves, r: StateMachineOrLeaves)
    requires
        opt_rel(n, r),
    ensures
        tidy(r),
    decreases n,
{
    match n {
        StateMachineOrLeaves::Leaves(_) => {
            let v = r->Leaves_0;
            assert(r == StateMachineOrLeaves::Leaves(v));
            assert(tidy(StateMachineOrLeaves::Leaves(v)));
            assert(tidy(r));
        },
        StateMachineOrLeaves::StateMachine(s) => {
            let bs = s.branches@;
            assert(decreases_to!(n => s));
            assert(decreases_to!(s => s.branches));
            assert(decreases_to!(s.branches => s.branches@));
            assert(decreases_to!(s => s.default));
            match opt_leaves(*s.default) {
                Some(l) => {
                    if all_lead(bs, l) {
                        let v = r->Leaves_0;
                        assert(r == StateMachineOrLeaves::Leaves(v));
                        assert(tidy(StateMachineOrLeaves::Leaves(v)));
                    } else {
                        let s2 = r->StateMachine_0;
                        let bs2 = s2.branches@;
                        assert forall|j: int| 0 <= j < bs2.len() implies tidy(#[trigger] bs2[j].1)
                            && !(bs2[j].1 matches StateMachineOrLeaves::Leaves(v) && v@ == l) by {
                            let i = lemma_kept_rel_at(bs, bs2, l, j);
                            assert(decreases_to!(s.branches@ => s.branches@[i]));
                            lemma_optimized_tidy(bs[i].1, bs2[j].1);
                            lemma_opt_leaves(bs[i].1, bs2[j].1);
                        }
                        lemma_branches_tidy_from(bs2);
                        let l2 = s2.default->Leaves_0;
                        assert(*s2.default == StateMachineOrLeaves::Leaves(l2));
                        assert(tidy(*s2.default));
                        assert(r == StateMachineOrLeaves::StateMachine(s2));
                        assert(tidy(r));
                    }
                },
                None => {
                    let s2 = r->StateMachine_0;
                    let bs2 = s2.branches@;
                    lemma_map_rel_at(bs, bs2);
                    lemma_opt_leaves(*s.default, *s2.default);
                    lemma_optimized_tidy(*s.default, *s2.default);
                    assert forall|j: int| 0 <= j < bs2.len() implies tidy(#[trigger] bs2[j].1) by {
                        assert(decreases_to!(s.branches@ => s.branches@[j]));
                        assert(bs2[j].0 == bs[j].0);
                        lemma_optimized_tidy(bs[j].1, bs2[j].1);
                    }
                    lemma_branches_tidy_from(bs2);
                    assert(r == StateMachineOrLeaves::StateMachine(s2));
                    assert(!(*s2.default is Leaves));
                    assert(tidy(r));
                },
            }
        },
    }
}

/// No branch is kept just where every branch comes down to the leaves.
proof fn lemma_kept_rel_empty(
    bs: Seq<(SimpleType, StateMachineOrLeaves)>,
    bs2: Seq<(SimpleType, StateMachineOrLeaves)>,
    l: Seq<u64>,
)
    requires
        kept_rel(bs, bs2, l),
    ensures
        (bs2.len() == 0) == all_lead(bs, l),
    decreases bs.len(),
{
    if bs.len() > 0 {
        if opt_leaves(bs.last().1) == Some(l) {
            lemma_kept_rel_empty(bs.drop_last(), bs2, l);
        }
    }
}

/// The optimized tree: branches whose leaves are those of the default go,
/// and a node left with no branch becomes its default's leaves.
pub fn optimized(n: StateMachineOrLeaves) -> (r: StateMachineOrLeaves)
    requires
        well_keyed(n),
    ensures
        opt_rel(n, r),
        same_candidates(r, n),
        well_keyed(r),
    decreases n,
{
    match n {
        StateMachineOrLeaves::Leaves(v) => StateMachineOrLeaves::Leaves(v),
        StateMachineOrLeaves::StateMachine(s) => {
            let ghost orig = s.branches@;
            let ghost s0 = s;
            let StateMachine { generic_param, branches, default } = s;
            let mut rest = branches;
            let mut done: Vec<(SimpleType, StateMachineOrLeaves)> = Vec::new();
            proof {
                assert(orig.skip(0) =~= orig);
            }
            while rest.len() > 0
                invariant
                    done@.len() + rest@.len() == orig.len(),
                    rest@ == orig.skip(done@.len() as int),
                    same_branches(done@, orig.take(done@.len() as int)),
                    map_rel(orig.take(done@.len() as int), done@),
                    branches_well_keyed(orig),
                    n == StateMachineOrLeaves::StateMachine(s0),
                    s0.branches@ == orig,
                decreases rest@.len(),
            {
                let ghost j = done@.len() as int;
                let (t, b) = rest.remove(0);
                proof {
                    assert(orig.skip(j)[0] == orig[j]);
                    lemma_branches_well_keyed_at(orig, j);
                    assert(decreases_to!(n => n->StateMachine_0));
                    assert(decreases_to!(s0 => s0.branches));
                    assert(decreases_to!(s0.branches => s0.branches@));
                    assert(decreases_to!(s0.branches@ => s0.branches@[j]));
                }
                let ghost d0 = done@;
                let b2 = optimized(b);
                done.push((t, b2));
                proof {
                    assert(orig.take(j + 1).drop_last() =~= orig.take(j));
                    assert(done@.drop_last() =~= d0);
                    assert(orig.take(j + 1).last() == orig[j]);
                    assert(map_rel(orig.take(j + 1), done@));
                    assert(rest@ =~= orig.skip(j + 1));
                    let d = done@;
                    let o = orig.take(j + 1);
                    assert forall|i: int| 0 <= i < d.len() implies #[trigger] d[i].0 == o[i].0
                        && same_candidates(d[i].1, o[i].1) && well_keyed(d[i].1) by {
                        if i < j {
                            assert(orig.take(j)[i] == o[i]);
                        }
                    }
                }
            }
            proof {
                assert(orig.take(orig.len() as int) =~= orig);
                lemma_map_rel_at(orig, done@);
                lemma_same_branches_well_keyed(done@, orig);
                assert(decreases_to!(n => n->StateMachine_0));
                assert(decreases_to!(s0 => s0.default));
            }
            let d = optimized(*default);
            let ghost dg = d;
            proof {
                lemma_opt_leaves(*s0.default, d);
            }
            match d {
                StateMachineOrLeaves::Leaves(leaves) => {
                    let ghost l = leaves@;
                    let ghost all = done@;
                    let mut kept: Vec<(SimpleType, StateMachineOrLeaves)> = Vec::new();
                    let mut i: usize = 0;
                    let len = done.len();
                    proof {
                        assert(all.take(0) =~= Seq::<(SimpleType, StateMachineOrLeaves)>::empty());
                    }
                    while done.len() > 0
                        invariant
                            i + done@.len() == len,
                            len == all.len(),
                            done@ == all.skip(i as int),
                            kept@ == kept_branches(all.take(i as int), l),
                            kept_rel(orig.take(i as int), kept@, l),
                            all.len() == orig.len(),
                            forall|x: int| 0 <= x < orig.len() ==> #[trigger] all[x].0 == orig[x].0
                                && opt_rel(orig[x].1, all[x].1),
                            l == leaves@,
                        decreases done@.len(),
                    {
                        let (t, b) = done.remove(0);
                        proof {
                            assert(all.skip(i as int)[0] == all[i as int]);
                            assert(all.take(i + 1).drop_last() =~= all.take(i as int));
                        }
                        let drop = match &b {
                            StateMachineOrLeaves::Leaves(bl) => ids_equal(bl, &leaves),
                            StateMachineOrLeaves::StateMachine(_) => false,
                        };
                        let ghost k0 = kept@;
                        proof {
                            assert(all[i as int].0 == orig[i as int].0);
                            lemma_opt_leaves(orig[i as int].1, all[i as int].1);
                            assert(orig.take(i + 1).drop_last() =~= orig.take(i as int));
                            assert(orig.take(i + 1).last() == orig[i as int]);
                        }
                        if !drop {
                            kept.push((t, b));
                            proof {
                                assert(kept@.drop_last() =~= k0);
                            }
                        }
                        proof {
                            assert(kept_rel(orig.take(i + 1), kept@, l));
                        }
                        i = i + 1;
                        proof {
                            assert(done@ =~= all.skip(i as int));
                        }
                    }
                    proof {
                        assert(all.take(len as int) =~= all);
                        assert(orig.take(len as int) =~= orig);
                        lemma_kept_rel_empty(orig, kept@, l);
                    }
                    let r = if kept.len() == 0 {
                        StateMachineOrLeaves::Leaves(leaves)
                    } else {
                        StateMachineOrLeaves::StateMachine(
                            StateMachine {
                                generic_param,
                                branches: kept,
                                default: Box::new(StateMachineOrLeaves::Leaves(leaves)),
                            },
                        )
                    };
                    proof {
                        lemma_optimized_leaves(n, r, all, dg);
                    }
                    r
                },
                other => {
                    let r = StateMachineOrLeaves::StateMachine(
                        StateMachine { generic_param, branches: done, default: Box::new(other) },
                    );
                    proof {
                        lemma_optimized_node(n, r);
                    }
                    r
                },
            }
        },
    }
}

} // verus!

verus! {

impl StateMachineOrLeaves {
    /// Optimizes the tree as `opt_rel` says: drops the branches that lead to
    /// the same leaves as their default, and turns a node with no branch left
    /// into its default's leaves. The node names the same implementations as
    /// before for every generic arguments.
    pub fn optimize(&mut self)
        requires
            well_keyed(*old(self)),
        ensures
            opt_rel(*old(self), *final(self)),
            same_candidates(*final(self), *old(self)),
            well_keyed(*final(self)),
            tidy(*final(self)),
    {
        let mut n = StateMachineOrLeaves::Leaves(Vec::new());
        std::mem::swap(&mut n, self);
        let ghost n0 = n;
        *self = optimized(n);
        proof {
            lemma_optimized_tidy(n0, *self);
        }
    }
}

} // verus!

verus! {

/// For each generic parameter of a poly, the implementations that fit each
/// shape of its argument: the implementations whose signature has that
/// shape there, and, under `GenericParam`, those whose signature has a
/// generic parameter there (which fit any shape).
pub type ImplsByGenerics = Vec<(u64, Vec<(SimpleType, Vec<u64>)>)>;

/// The first entry for the shape `a`, or -1.
pub open spec fn first_entry(es: Seq<(SimpleType, Vec<u64>)>, a: SimpleType) -> int
    decreases es.len(),
{
    if es.len() == 0 {
        -1
    } else if first_entry(es.drop_last(), a) >= 0 {
        first_entry(es.drop_last(), a)
    } else if es.last().0 == a {
        es.len() - 1
    } else {
        -1
    }
}

/// The implementation `i` fits the argument shape `a` by the entries `es`:
/// it is listed for `a`, or, where no entry is for `a`, for `GenericParam`.
pub open spec fn fits(es: Seq<(SimpleType, Vec<u64>)>, a: SimpleType, i: u64) -> bool {
    let k = first_entry(es, a);
    let kg = first_entry(es, SimpleType::GenericParam);
    if a != SimpleType::GenericParam && k >= 0 {
        es[k].1@.contains(i)
    } else if kg >= 0 {
        es[kg].1@.contains(i)
    } else {
        false
    }
}

/// `i` fits the arguments `g` for every generic parameter still `live`.
pub open spec fn fits_all(
    t: Seq<(u64, Vec<(SimpleType, Vec<u64>)>)>,
    live: Seq<bool>,
    g: Map<u64, SimpleType>,
    i: u64,
) -> bool {
    forall|j: int| 0 <= j < t.len() && live[j] ==> #[trigger] fits(t[j].1@, g[t[j].0], i)
}

/// `g` has an argument for every generic parameter still `live`.
pub open spec fn covers(t: Seq<(u64, Vec<(SimpleType, Vec<u64>)>)>, live: Seq<bool>, g: Map<u64, SimpleType>) -> bool {
    forall|j: int| 0 <= j < t.len() && live[j] ==> g.contains_key(#[trigger] t[j].0)
}

/// The node names exactly the implementations of `a` that fit the arguments
/// for every live generic parameter.
pub open spec fn machine_law(
    m: StateMachineOrLeaves,
    t: Seq<(u64, Vec<(SimpleType, Vec<u64>)>)>,
    live: Seq<bool>,
    a: Set<u64>,
) -> bool {
    forall|g: Map<u64, SimpleType>|
        #[trigger] covers(t, live, g) ==> node_defined(m, g) && forall|i: u64|
            #[trigger] node_candidates(m, g).contains(i) <==> a.contains(i) && fits_all(
                t,
                live,
                g,
                i,
            )
}

/// The implementations of `a` that `list` names.
pub open spec fn listed(list: Seq<u64>, a: Set<u64>) -> Set<u64> {
    Set::new(|i: u64| list.contains(i) && a.contains(i))
}

pub open spec fn live_count(live: Seq<bool>) -> nat
    decreases live.len(),
{
    if live.len() == 0 {
        0
    } else {
        live_count(live.drop_last()) + if live.last() {
            1nat
        } else {
            0nat
        }
    }
}

proof fn lemma_contains_push(pre: Seq<u64>, x: u64, i: u64)
    ensures
        pre.push(x).contains(i) <==> pre.contains(i) || x == i,
{
    let s = pre.push(x);
    if s.contains(i) {
        let j = choose|j: int| 0 <= j < s.len() && s[j] == i;
        if j < pre.len() {
            assert(pre[j] == i);
        }
    }
    if pre.contains(i) {
        let j = choose|j: int| 0 <= j < pre.len() && pre[j] == i;
        assert(s[j] == i);
    }
    if x == i {
        assert(s[s.len() - 1] == i);
    }
}

proof fn lemma_members_contains(s: Seq<u64>, set: Set<u64>, i: u64)
    ensures
        members(s, set).contains(i) <==> s.contains(i) && set.contains(i),
    decreases s.len(),
{
    if s.len() > 0 {
        let pre = s.drop_last();
        lemma_members_contains(pre, set, i);
        assert(s =~= pre.push(s.last()));
        lemma_contains_push(pre, s.last(), i);
        if set.contains(s.last()) {
            lemma_contains_push(members(pre, set), s.last(), i);
        }
    }
}

/// Leaves hold the implementations of `a` that `list` names, when no
/// generic parameter is left to look at.
proof fn lemma_leaves_law(
    v: Vec<u64>,
    list: Seq<u64>,
    t: Seq<(u64, Vec<(SimpleType, Vec<u64>)>)>,
    live: Seq<bool>,
    a: Set<u64>,
)
    requires
        v@.to_multiset() == members(list, a).to_multiset(),
        live.len() == t.len(),
        forall|j: int| 0 <= j < live.len() ==> !live[j],
    ensures
        machine_law(StateMachineOrLeaves::Leaves(v), t, live, listed(list, a)),
{
    broadcast use vstd::seq_lib::group_to_multiset_ensures;

    assert forall|g: Map<u64, SimpleType>| #[trigger] covers(t, live, g) implies node_defined(
        StateMachineOrLeaves::Leaves(v),
        g,
    ) && forall|i: u64|
        #[trigger] node_candidates(StateMachineOrLeaves::Leaves(v), g).contains(i) <==> listed(
            list,
            a,
        ).contains(i) && fits_all(t, live, g, i) by {
        assert forall|i: u64|
            #[trigger] node_candidates(StateMachineOrLeaves::Leaves(v), g).contains(i) <==> listed(
                list,
                a,
            ).contains(i) && fits_all(t, live, g, i) by {
            lemma_members_contains(list, a, i);
            assert(v@.contains(i) <==> v@.to_multiset().count(i) > 0);
            assert(members(list, a).contains(i) <==> members(list, a).to_multiset().count(i) > 0);
        }
    }
}

} // verus!

verus! {

proof fn lemma_first_entry(es: Seq<(SimpleType, Vec<u64>)>, a: SimpleType)
    ensures
        -1 <= first_entry(es, a) < es.len(),
        first_entry(es, a) >= 0 ==> es[first_entry(es, a)].0 == a,
        first_entry(es, a) >= 0 ==> forall|j: int| 0 <= j < first_entry(es, a) ==> es[j].0 != a,
        first_entry(es, a) < 0 ==> forall|j: int| 0 <= j < es.len() ==> es[j].0 != a,
    decreases es.len(),
{
    if es.len() > 0 {
        let pre = es.drop_last();
        lemma_first_entry(pre, a);
        assert forall|j: int| 0 <= j < pre.len() implies es[j] == pre[j] by {}
    }
}

proof fn lemma_live_count_zero(live: Seq<bool>)
    ensures
        live_count(live) == 0 <==> forall|j: int| 0 <= j < live.len() ==> !live[j],
    decreases live.len(),
{
    if live.len() > 0 {
        let pre = live.drop_last();
        lemma_live_count_zero(pre);
        assert forall|j: int| 0 <= j < pre.len() implies live[j] == pre[j] by {}
        if live_count(live) == 0 {
            assert forall|j: int| 0 <= j < live.len() implies !live[j] by {
                if j < pre.len() {
                    assert(live[j] == pre[j]);
                }
            }
        }
    }
}

proof fn lemma_live_count_update(live: Seq<bool>, p: int)
    requires
        0 <= p < live.len(),
        live[p],
    ensures
        live_count(live.update(p, false)) + 1 == live_count(live),
    decreases live.len(),
{
    let u = live.update(p, false);
    if p == live.len() - 1 {
        assert(u.drop_last() =~= live.drop_last());
    } else {
        assert(u.drop_last() =~= live.drop_last().update(p, false));
        lemma_live_count_update(live.drop_last(), p);
    }
}

proof fn lemma_live_count_all(n: nat)
    ensures
        live_count(Seq::new(n, |j: int| true)) == n,
    decreases n,
{
    if n > 0 {
        assert(Seq::new(n, |j: int| true).drop_last() =~= Seq::new((n - 1) as nat, |j: int| true));
        lemma_live_count_all((n - 1) as nat);
    }
}

/// The first entry of `es` for the shape `a`.
fn find_entry(es: &Vec<(SimpleType, Vec<u64>)>, a: SimpleType) -> (k: Option<usize>)
    ensures
        match k {
            Some(k) => k as int == first_entry(es@, a),
            None => first_entry(es@, a) < 0,
        },
{
    proof {
        lemma_first_entry(es@, a);
    }
    let mut i: usize = 0;
    while i < es.len()
        invariant
            i <= es@.len(),
            forall|j: int| 0 <= j < i ==> es@[j].0 != a,
            -1 <= first_entry(es@, a) < es@.len(),
            first_entry(es@, a) >= 0 ==> es@[first_entry(es@, a)].0 == a,
            first_entry(es@, a) >= 0 ==> forall|j: int|
                0 <= j < first_entry(es@, a) ==> es@[j].0 != a,
            first_entry(es@, a) < 0 ==> forall|j: int| 0 <= j < es@.len() ==> es@[j].0 != a,
        decreases es@.len() - i,
    {
        if es[i].0 == a {
            return Some(i);
        }
        i = i + 1;
    }
    None
}

/// Some generic parameter is still live.
fn any_live(live: &Vec<bool>) -> (r: bool)
    ensures
        r <==> live_count(live@) >= 1,
{
    proof {
        lemma_live_count_zero(live@);
    }
    let mut i: usize = 0;
    while i < live.len()
        invariant
            i <= live@.len(),
            forall|j: int| 0 <= j < i ==> !live@[j],
            live_count(live@) == 0 <==> forall|j: int| 0 <= j < live@.len() ==> !live@[j],
        decreases live@.len() - i,
    {
        if live[i] {
            return true;
        }
        i = i + 1;
    }
    false
}

/// The set of the ids in `v`.
fn to_set(v: &Vec<u64>) -> (s: HashSet<u64>)
    ensures
        forall|x: u64| s@.contains(x) <==> v@.contains(x),
{
    let mut s: HashSet<u64> = HashSet::new();
    let mut i: usize = 0;
    while i < v.len()
        invariant
            i <= v@.len(),
            forall|x: u64| s@.contains(x) <==> exists|j: int| 0 <= j < i && v@[j] == x,
        decreases v@.len() - i,
    {
        s.insert(v[i]);
        proof {
            assert forall|x: u64| s@.contains(x) implies exists|j: int|
                0 <= j < i + 1 && v@[j] == x by {
                if x == v@[i as int] {
                    assert(v@[i as int] == x);
                }
            }
        }
        i = i + 1;
    }
    s
}


/// The entries `es` have one for `GenericParam`.
pub open spec fn has_generic_entry(es: Seq<(SimpleType, Vec<u64>)>) -> bool {
    exists|k: int| 0 <= k < es.len() && es[k].0 == SimpleType::GenericParam
}

/// The generic parameter at `j` is branched on before the one at `p`: it has
/// no entry for `GenericParam` where `p` has one, or, alike in that, it has
/// more entries.
pub open spec fn preferred(t: Seq<(u64, Vec<(SimpleType, Vec<u64>)>)>, j: int, p: int) -> bool {
    let gj = has_generic_entry(t[j].1@);
    let gp = has_generic_entry(t[p].1@);
    (!gj && gp) || (gj == gp && t[j].1@.len() > t[p].1@.len())
}

fn has_generic(es: &Vec<(SimpleType, Vec<u64>)>) -> (r: bool)
    ensures
        r == has_generic_entry(es@),
{
    let k = find_entry(es, SimpleType::GenericParam);
    proof {
        lemma_first_entry(es@, SimpleType::GenericParam);
    }
    k.is_some()
}

/// A live generic parameter that no other live one is preferred to.
fn choose_param(t: &ImplsByGenerics, live: &Vec<bool>) -> (p: usize)
    requires
        live@.len() == t@.len(),
        live_count(live@) >= 1,
    ensures
        p < t@.len(),
        live@[p as int],
        forall|j: int| 0 <= j < t@.len() && live@[j] ==> !preferred(t@, j, p as int),
{
    let mut best: Option<usize> = None;
    let mut best_generic = false;
    let mut best_len: usize = 0;
    let mut i: usize = 0;
    while i < t.len()
        invariant
            i <= t@.len(),
            live@.len() == t@.len(),
            match best {
                None => forall|j: int| 0 <= j < i ==> !live@[j],
                Some(b) => {
                    &&& b < i
                    &&& live@[b as int]
                    &&& best_generic == has_generic_entry(t@[b as int].1@)
                    &&& best_len == t@[b as int].1@.len()
                    &&& forall|j: int| 0 <= j < i && live@[j] ==> !preferred(t@, j, b as int)
                },
            },
        decreases t@.len() - i,
    {
        if live[i] {
            let g = has_generic(&t[i].1);
            let n = t[i].1.len();
            let better = match best {
                None => true,
                Some(_) => (!g && best_generic) || (g == best_generic && n > best_len),
            };
            if better {
                best = Some(i);
                best_generic = g;
                best_len = n;
            }
        }
        i = i + 1;
    }
    match best {
        Some(b) => b,
        None => {
            proof {
                lemma_live_count_zero(live@);
            }
            0
        },
    }
}


/// For each generic parameter, no two entries are for the same shape, and
/// no entry lists an implementation twice.
pub open spec fn keys_distinct(t: Seq<(u64, Vec<(SimpleType, Vec<u64>)>)>) -> bool {
    &&& forall|p: int, i: int, j: int|
        0 <= p < t.len() && 0 <= i < j < t[p].1@.len() ==> #[trigger] t[p].1@[i].0
            != #[trigger] t[p].1@[j].0
    &&& forall|p: int, i: int|
        0 <= p < t.len() && 0 <= i < t[p].1@.len() ==> (#[trigger] t[p].1@[i]).1@.no_duplicates()
}

/// Two lists with the same elements, as often each, are both free of
/// repeats or neither is.
proof fn lemma_same_multiset_no_dups(a: Seq<u64>, b: Seq<u64>)
    requires
        a.to_multiset() == b.to_multiset(),
        a.no_duplicates(),
    ensures
        b.no_duplicates(),
{
    a.lemma_multiset_has_no_duplicates();
    b.lemma_multiset_has_no_duplicates_conv();
}

/// The members of a list free of repeats are free of repeats.
proof fn lemma_members_no_dups(l: Seq<u64>, set: Set<u64>)
    requires
        l.no_duplicates(),
    ensures
        members(l, set).no_duplicates(),
    decreases l.len(),
{
    if l.len() > 0 {
        let pre = l.drop_last();
        assert(pre.no_duplicates());
        lemma_members_no_dups(pre, set);
        if set.contains(l.last()) {
            lemma_members_contains(pre, set, l.last());
            if pre.contains(l.last()) {
                let j = choose|j: int| 0 <= j < pre.len() && pre[j] == l.last();
                assert(l[j] == l[l.len() - 1]);
            }
            lemma_push_fresh(members(pre, set), l.last());
        }
    }
}

/// What the branches built from the entries `es` keep: none is for
/// `GenericParam`; for every other shape there is a branch just where there
/// is an entry, and that branch obeys the law for the implementations that
/// the entry lists.
spec fn branches_follow(
    bs: Seq<(SimpleType, StateMachineOrLeaves)>,
    es: Seq<(SimpleType, Vec<u64>)>,
    t: Seq<(u64, Vec<(SimpleType, Vec<u64>)>)>,
    live: Seq<bool>,
    all: Set<u64>,
) -> bool {
    &&& forall|j: int| 0 <= j < bs.len() ==> (#[trigger] bs[j]).0 != SimpleType::GenericParam
    &&& forall|a: SimpleType|
        a != SimpleType::GenericParam ==> ((#[trigger] first_entry(es, a) < 0 <==> find_branch(bs, a) < 0)
            && (first_entry(es, a) >= 0 ==> machine_law(
            bs[find_branch(bs, a)].1,
            t,
            live,
            listed(es[first_entry(es, a)].1@, all),
        )))
}

/// The default built from the entries `es`: the law for the implementations
/// listed under `GenericParam`, or no implementation where none is.
spec fn default_follows(
    d: StateMachineOrLeaves,
    es: Seq<(SimpleType, Vec<u64>)>,
    t: Seq<(u64, Vec<(SimpleType, Vec<u64>)>)>,
    live: Seq<bool>,
    all: Set<u64>,
) -> bool {
    let kg = first_entry(es, SimpleType::GenericParam);
    if kg >= 0 {
        machine_law(d, t, live, listed(es[kg].1@, all))
    } else {
        d matches StateMachineOrLeaves::Leaves(v) && v@.len() == 0
    }
}

proof fn lemma_follow_step(
    bs: Seq<(SimpleType, StateMachineOrLeaves)>,
    bs2: Seq<(SimpleType, StateMachineOrLeaves)>,
    es: Seq<(SimpleType, Vec<u64>)>,
    i: int,
    c: StateMachineOrLeaves,
    t: Seq<(u64, Vec<(SimpleType, Vec<u64>)>)>,
    live: Seq<bool>,
    all: Set<u64>,
)
    requires
        0 <= i < es.len(),
        branches_follow(bs, es.take(i), t, live, all),
        es[i].0 == SimpleType::GenericParam ==> bs2 == bs,
        es[i].0 != SimpleType::GenericParam ==> bs2 == bs.push((es[i].0, c)) && machine_law(
            c,
            t,
            live,
            listed(es[i].1@, all),
        ),
    ensures
        branches_follow(bs2, es.take(i + 1), t, live, all),
{
    let e1 = es.take(i);
    let e2 = es.take(i + 1);
    assert(e2.drop_last() =~= e1);
    if es[i].0 != SimpleType::GenericParam {
        assert(bs2.drop_last() =~= bs);
    }
    assert forall|j: int| 0 <= j < bs2.len() implies (#[trigger] bs2[j]).0
        != SimpleType::GenericParam by {
        if j < bs.len() {
            assert(bs2[j] == bs[j]);
        }
    }
    assert forall|a: SimpleType| a != SimpleType::GenericParam implies ((#[trigger] first_entry(
        e2,
        a,
    ) < 0 <==> find_branch(bs2, a) < 0) && (first_entry(e2, a) >= 0 ==> machine_law(
        bs2[find_branch(bs2, a)].1,
        t,
        live,
        listed(e2[first_entry(e2, a)].1@, all),
    ))) by {
        lemma_first_entry(e1, a);
        lemma_find_branch(bs, a);
        let k1 = first_entry(e1, a);
        if k1 >= 0 {
            assert(e2[k1] == e1[k1]);
            assert(bs2[find_branch(bs, a)] == bs[find_branch(bs, a)]);
        }
    }
}

proof fn lemma_keyed_step(
    bs: Seq<(SimpleType, StateMachineOrLeaves)>,
    es: Seq<(SimpleType, Vec<u64>)>,
    i: int,
    c: StateMachineOrLeaves,
    t: Seq<(u64, Vec<(SimpleType, Vec<u64>)>)>,
    live: Seq<bool>,
    all: Set<u64>,
)
    requires
        0 <= i < es.len(),
        es[i].0 != SimpleType::GenericParam,
        branches_follow(bs, es.take(i), t, live, all),
        forall|x: int, y: int| 0 <= x < y < es.len() ==> #[trigger] es[x].0 != #[trigger] es[y].0,
        distinct_keys(bs),
        branches_well_keyed(bs),
        well_keyed(c),
    ensures
        distinct_keys(bs.push((es[i].0, c))),
        branches_well_keyed(bs.push((es[i].0, c))),
{
    let a = es[i].0;
    let e1 = es.take(i);
    lemma_first_entry(e1, a);
    if first_entry(e1, a) >= 0 {
        let k = first_entry(e1, a);
        assert(e1[k] == es[k]);
        assert(es[k].0 != es[i].0);
    }
    assert(first_entry(e1, a) < 0);
    lemma_find_branch(bs, a);
    let b2 = bs.push((a, c));
    assert(b2.drop_last() =~= bs);
    assert forall|x: int, y: int| 0 <= x < y < b2.len() implies #[trigger] b2[x].0
        != #[trigger] b2[y].0 by {
        assert(b2[x] == bs[x]);
        if y < bs.len() {
            assert(b2[y] == bs[y]);
        }
    }
}

/// The node that branches on `t[p]` obeys the law for `live` when its
/// branches and default obey it for the other live parameters.
proof fn lemma_node_law(
    s: StateMachine,
    t: Seq<(u64, Vec<(SimpleType, Vec<u64>)>)>,
    live: Seq<bool>,
    all: Set<u64>,
    p: int,
)
    requires
        0 <= p < t.len(),
        live.len() == t.len(),
        live[p],
        s.generic_param == t[p].0,
        branches_follow(s.branches@, t[p].1@, t, live.update(p, false), all),
        default_follows(*s.default, t[p].1@, t, live.update(p, false), all),
    ensures
        machine_law(StateMachineOrLeaves::StateMachine(s), t, live, all),
{
    let rest = live.update(p, false);
    let es = t[p].1@;
    let bs = s.branches@;
    let n = StateMachineOrLeaves::StateMachine(s);
    assert forall|g: Map<u64, SimpleType>| #[trigger] covers(t, live, g) implies node_defined(n, g)
        && forall|i: u64|
        #[trigger] node_candidates(n, g).contains(i) <==> all.contains(i) && fits_all(
            t,
            live,
            g,
            i,
        ) by {
        assert forall|j: int| 0 <= j < t.len() && rest[j] implies g.contains_key(
            #[trigger] t[j].0,
        ) by {
            assert(live[j]);
        }
        assert(covers(t, rest, g));
        assert(g.contains_key(t[p].0));
        let a = g[t[p].0];
        lemma_first_entry(es, a);
        lemma_first_entry(es, SimpleType::GenericParam);
        lemma_find_branch(bs, a);
        let k = first_entry(es, a);
        let kb = find_branch(bs, a);
        let kg = first_entry(es, SimpleType::GenericParam);
        let child = if a != SimpleType::GenericParam && k >= 0 {
            bs[kb].1
        } else {
            *s.default
        };
        if a != SimpleType::GenericParam && k >= 0 {
            assert(kb >= 0);
        } else if a == SimpleType::GenericParam {
            if kb >= 0 {
                assert(bs[kb].0 != SimpleType::GenericParam);
            }
            assert(kb < 0);
        } else {
            assert(kb < 0);
        }
        assert(node_candidates(n, g) == node_candidates(child, g));
        assert(node_defined(n, g) == (g.contains_key(t[p].0) && node_defined(child, g)));
        if !(a == SimpleType::GenericParam || k < 0) || kg >= 0 {
            assert(node_defined(child, g));
        }
        assert forall|i: u64| #[trigger]
            node_candidates(n, g).contains(i) <==> all.contains(i) && fits_all(t, live, g, i) by {
            assert(fits_all(t, live, g, i) <==> fits(es, a, i) && fits_all(t, rest, g, i)) by {
                if fits_all(t, live, g, i) {
                    assert(fits(t[p].1@, g[t[p].0], i));
                    assert forall|j: int| 0 <= j < t.len() && rest[j] implies #[trigger] fits(
                        t[j].1@,
                        g[t[j].0],
                        i,
                    ) by {
                        assert(live[j]);
                    }
                }
                if fits(es, a, i) && fits_all(t, rest, g, i) {
                    assert forall|j: int| 0 <= j < t.len() && live[j] implies #[trigger] fits(
                        t[j].1@,
                        g[t[j].0],
                        i,
                    ) by {
                        if j != p {
                            assert(rest[j]);
                        }
                    }
                }
            }
            if !(a != SimpleType::GenericParam && k >= 0) && kg < 0 {
                assert(!node_candidates(child, g).contains(i));
            }
        }
    }
}

fn build_child(
    t: &ImplsByGenerics,
    live: &mut Vec<bool>,
    more: bool,
    impls: &Vec<u64>,
    all: &HashSet<u64>,
) -> (c: StateMachineOrLeaves)
    requires
        old(live)@.len() == t@.len(),
        more <==> live_count(old(live)@) >= 1,
        keys_distinct(t@) ==> impls@.no_duplicates(),
    ensures
        final(live)@ == old(live)@,
        machine_law(c, t@, old(live)@, listed(impls@, all@)),
        keys_distinct(t@) ==> well_keyed(c),
    decreases live_count(old(live)@), 1nat,
{
    broadcast use vstd::seq_lib::group_to_multiset_ensures;

    let v = intersect_and_sort(impls.as_slice(), all);
    if more {
        let set = to_set(&v);
        proof {
            assert forall|x: u64| set@.contains(x) <==> listed(impls@, all@).contains(x) by {
                lemma_members_contains(impls@, all@, x);
                assert(v@.contains(x) <==> v@.to_multiset().count(x) > 0);
                assert(members(impls@, all@).contains(x) <==> members(
                    impls@,
                    all@,
                ).to_multiset().count(x) > 0);
            }
            assert(set@ =~= listed(impls@, all@));
        }
        let m = build_from(t, live, &set);
        StateMachineOrLeaves::StateMachine(m)
    } else {
        proof {
            lemma_live_count_zero(live@);
            lemma_leaves_law(v, impls@, t@, live@, all@);
            if keys_distinct(t@) {
                lemma_members_no_dups(impls@, all@);
                lemma_same_multiset_no_dups(members(impls@, all@), v@);
            }
        }
        StateMachineOrLeaves::Leaves(v)
    }
}

fn build_from(t: &ImplsByGenerics, live: &mut Vec<bool>, all: &HashSet<u64>) -> (r: StateMachine)
    requires
        old(live)@.len() == t@.len(),
        live_count(old(live)@) >= 1,
    ensures
        final(live)@ == old(live)@,
        machine_law(StateMachineOrLeaves::StateMachine(r), t@, old(live)@, all@),
        keys_distinct(t@) ==> well_keyed(StateMachineOrLeaves::StateMachine(r)),
    decreases live_count(old(live)@), 0nat,
{
    let ghost live0 = live@;
    let p = choose_param(t, live);
    live.set(p, false);
    proof {
        lemma_live_count_update(live0, p as int);
    }
    let more = any_live(live);
    let es = &t[p].1;
    let mut branches: Vec<(SimpleType, StateMachineOrLeaves)> = Vec::new();
    let mut i: usize = 0;
    proof {
        assert(es@.take(0) =~= Seq::<(SimpleType, Vec<u64>)>::empty());
        assert forall|a: SimpleType| #[trigger] first_entry(es@.take(0), a) < 0 by {}
    }
    while i < es.len()
        invariant
            i <= es@.len(),
            p < t@.len(),
            es@ == t@[p as int].1@,
            live0 == old(live)@,
            live@ == live0.update(p as int, false),
            live@.len() == t@.len(),
            live_count(live@) + 1 == live_count(live0),
            more <==> live_count(live@) >= 1,
            branches_follow(branches@, es@.take(i as int), t@, live@, all@),
            keys_distinct(t@) ==> distinct_keys(branches@) && branches_well_keyed(branches@),
        decreases es@.len() - i,
    {
        let shape = es[i].0;
        let ghost bs = branches@;
        if shape != SimpleType::GenericParam {
            let c = build_child(t, live, more, &es[i].1, all);
            proof {
                if keys_distinct(t@) {
                    assert forall|x: int, y: int| 0 <= x < y < es@.len() implies #[trigger] es@[x].0
                        != #[trigger] es@[y].0 by {
                        assert(t@[p as int].1@[x] == es@[x]);
                        assert(t@[p as int].1@[y] == es@[y]);
                    }
                    lemma_keyed_step(bs, es@, i as int, c, t@, live@, all@);
                }
            }
            branches.push((shape, c));
        }
        proof {
            lemma_follow_step(bs, branches@, es@, i as int, branches@.last().1, t@, live@, all@);
        }
        i = i + 1;
    }
    proof {
        assert(es@.take(es@.len() as int) =~= es@);
        lemma_first_entry(es@, SimpleType::GenericParam);
    }
    let default = match find_entry(es, SimpleType::GenericParam) {
        Some(k) => build_child(t, live, more, &es[k].1, all),
        None => StateMachineOrLeaves::Leaves(Vec::new()),
    };
    live.set(p, true);
    proof {
        assert(live@ =~= live0);
    }
    let r = StateMachine { generic_param: t[p].0, branches, default: Box::new(default) };
    proof {
        lemma_node_law(r, t@, live0, all@, p as int);
        if keys_distinct(t@) {
            assert(well_keyed(*r.default));
            assert(well_keyed(StateMachineOrLeaves::StateMachine(r)));
        }
    }
    r
}

impl StateMachine {
    /// The state machine for the implementations of `all_impls`, from the
    /// implementations that fit each shape of each generic parameter's
    /// argument. It names, for generic arguments that give every parameter
    /// an argument, exactly the implementations of `all_impls` that fit
    /// every argument. It branches first on a parameter that has no entry
    /// for `GenericParam`, and among those on one with the most entries.
    pub fn build(impls_by_generics: ImplsByGenerics, all_impls: HashSet<u64>) -> (r: StateMachine)
        requires
            impls_by_generics@.len() >= 1,
        ensures
            machine_law(
                StateMachineOrLeaves::StateMachine(r),
                impls_by_generics@,
                Seq::new(impls_by_generics@.len(), |j: int| true),
                all_impls@,
            ),
            keys_distinct(impls_by_generics@) ==> well_keyed(StateMachineOrLeaves::StateMachine(r)),
    {
        let mut live: Vec<bool> = Vec::new();
        let mut i: usize = 0;
        while i < impls_by_generics.len()
            invariant
                i <= impls_by_generics@.len(),
                live@ == Seq::new(i as nat, |j: int| true),
            decreases impls_by_generics@.len() - i,
        {
            live.push(true);
            i = i + 1;
            proof {
                assert(live@ =~= Seq::new(i as nat, |j: int| true));
            }
        }
        proof {
            lemma_live_count_all(impls_by_generics@.len());
        }
        build_from(&impls_by_generics, &mut live, &all_impls)
    }
}

} // verus!

verus! {

/// `l` without the implementation `imp`.
pub open spec fn without(l: Seq<u64>, imp: u64) -> Seq<u64>
    decreases l.len(),
{
    if l.len() == 0 {
        seq![]
    } else if l.last() == imp {
        without(l.drop_last(), imp)
    } else {
        without(l.drop_last(), imp).push(l.last())
    }
}

/// The leaves of a branch for `t` lose the implementation.
pub open spec fn leaves_cut(t: SimpleType, in_gds: bool, target: Option<SimpleType>, flag: bool) -> bool {
    if !in_gds {
        flag
    } else {
        match target {
            None => false,
            Some(tt) => flag || (t is Data && t != tt),
        }
    }
}

/// The type that the node below a branch for `t` compares with.
pub open spec fn child_target(t: SimpleType, in_gds: bool, target: Option<SimpleType>) -> Option<SimpleType> {
    if in_gds && target is None {
        if t is Data {
            Some(t)
        } else {
            None
        }
    } else {
        target
    }
}

/// The flag that the node below a branch for `t` starts with.
pub open spec fn child_flag(t: SimpleType, in_gds: bool, target: Option<SimpleType>, flag: bool) -> bool {
    if in_gds {
        match target {
            None => false,
            Some(tt) => flag || (t is Data && t != tt),
        }
    } else {
        flag
    }
}

/// `n2` is the branch `n` for `t` after the implementation `imp` was cut
/// where the parameters `gds` cannot have one type.
pub open spec fn node_applied(
    n: StateMachineOrLeaves,
    n2: StateMachineOrLeaves,
    imp: u64,
    gds: Seq<u64>,
    t: SimpleType,
    in_gds: bool,
    target: Option<SimpleType>,
    flag: bool,
) -> bool
    decreases n, 0nat, 0int,
{
    match n {
        StateMachineOrLeaves::Leaves(l) => n2 matches StateMachineOrLeaves::Leaves(l2) && l2@ == (
        if leaves_cut(t, in_gds, target, flag) {
            without(l@, imp)
        } else {
            l@
        }),
        StateMachineOrLeaves::StateMachine(s) => {
            proof {
                assert(decreases_to!(n => s));
            }
            n2 matches StateMachineOrLeaves::StateMachine(s2) && machine_applied(
                s,
                s2,
                imp,
                gds,
                child_target(t, in_gds, target),
                child_flag(t, in_gds, target, flag),
            )
        },
    }
}

/// `s2` is the node `s` after the implementation `imp` was cut where the
/// parameters `gds` cannot have one type: the same parameter, shapes and
/// default, and each branch as `node_applied` says.
pub open spec fn machine_applied(
    s: StateMachine,
    s2: StateMachine,
    imp: u64,
    gds: Seq<u64>,
    target: Option<SimpleType>,
    unr: bool,
) -> bool
    decreases s, 2nat, 0int,
{
    proof {
        assert(decreases_to!(s => s.branches));
        assert(decreases_to!(s.branches => s.branches@));
    }
    &&& s2.generic_param == s.generic_param
    &&& s2.default == s.default
    &&& branches_applied(
        s.branches@,
        s2.branches@,
        s.branches@.len() as int,
        imp,
        gds,
        gds.contains(s.generic_param),
        target,
        unr,
    )
}

/// The first `k` branches of `bs2` are those of `bs` as `node_applied` says.
pub open spec fn branches_applied(
    bs: Seq<(SimpleType, StateMachineOrLeaves)>,
    bs2: Seq<(SimpleType, StateMachineOrLeaves)>,
    k: int,
    imp: u64,
    gds: Seq<u64>,
    in_gds: bool,
    target: Option<SimpleType>,
    unr: bool,
) -> bool
    decreases bs, 1nat, k,
{
    if k <= 0 || k > bs.len() {
        bs2.len() == bs.len()
    } else {
        proof {
            assert(decreases_to!(bs => bs[k - 1]));
        }
        &&& branches_applied(bs, bs2, k - 1, imp, gds, in_gds, target, unr)
        &&& bs2[k - 1].0 == bs[k - 1].0
        &&& node_applied(
            bs[k - 1].1,
            bs2[k - 1].1,
            imp,
            gds,
            bs[k - 1].0,
            in_gds,
            target,
            unr,
        )
    }
}

proof fn lemma_branches_applied_at(
    bs: Seq<(SimpleType, StateMachineOrLeaves)>,
    bs2: Seq<(SimpleType, StateMachineOrLeaves)>,
    k: int,
    imp: u64,
    gds: Seq<u64>,
    in_gds: bool,
    target: Option<SimpleType>,
    unr: bool,
)
    requires
        0 <= k <= bs.len(),
        branches_applied(bs, bs2, k, imp, gds, in_gds, target, unr),
    ensures
        bs2.len() == bs.len(),
        forall|i: int| 0 <= i < k ==> #[trigger] bs2[i].0 == bs[i].0,
        forall|i: int|
            0 <= i < k ==> node_applied(
                bs[i].1,
                #[trigger] bs2[i].1,
                imp,
                gds,
                bs[i].0,
                in_gds,
                target,
                unr,
            ),
    decreases k,
{
    if k > 0 {
        lemma_branches_applied_at(bs, bs2, k - 1, imp, gds, in_gds, target, unr);
        assert(bs2.len() == bs.len());
    }
}

proof fn lemma_branches_applied_from(
    bs: Seq<(SimpleType, StateMachineOrLeaves)>,
    bs2: Seq<(SimpleType, StateMachineOrLeaves)>,
    k: int,
    imp: u64,
    gds: Seq<u64>,
    in_gds: bool,
    target: Option<SimpleType>,
    unr: bool,
)
    requires
        0 <= k <= bs.len(),
        bs2.len() == bs.len(),
        forall|i: int|
            0 <= i < k ==> #[trigger] bs2[i].0 == bs[i].0 && node_applied(
                bs[i].1,
                bs2[i].1,
                imp,
                gds,
                bs[i].0,
                in_gds,
                target,
                unr,
            ),
    ensures
        branches_applied(bs, bs2, k, imp, gds, in_gds, target, unr),
    decreases k,
{
    if k > 0 {
        lemma_branches_applied_from(bs, bs2, k - 1, imp, gds, in_gds, target, unr);
        assert(bs2[k - 1].0 == bs[k - 1].0);
    }
}

proof fn lemma_without_contains(l: Seq<u64>, imp: u64, x: u64)
    ensures
        without(l, imp).contains(x) <==> l.contains(x) && x != imp,
    decreases l.len(),
{
    if l.len() > 0 {
        let pre = l.drop_last();
        lemma_without_contains(pre, imp, x);
        assert(l =~= pre.push(l.last()));
        lemma_contains_push(pre, l.last(), x);
        if l.last() != imp {
            lemma_contains_push(without(pre, imp), l.last(), x);
        }
    }
}

/// Leaving an implementation out keeps a list free of repeats.
proof fn lemma_without_no_dups(l: Seq<u64>, imp: u64)
    requires
        l.no_duplicates(),
    ensures
        without(l, imp).no_duplicates(),
    decreases l.len(),
{
    if l.len() > 0 {
        let pre = l.drop_last();
        assert(pre.no_duplicates());
        lemma_without_no_dups(pre, imp);
        if l.last() != imp {
            lemma_without_contains(pre, imp, l.last());
            if pre.contains(l.last()) {
                let j = choose|j: int| 0 <= j < pre.len() && pre[j] == l.last();
                assert(l[j] == l[l.len() - 1]);
            }
            lemma_push_fresh(without(pre, imp), l.last());
        }
    }
}

/// Branches with the same shapes at the same places find the same branch.
proof fn lemma_same_shapes_find(
    a: Seq<(SimpleType, StateMachineOrLeaves)>,
    b: Seq<(SimpleType, StateMachineOrLeaves)>,
    x: SimpleType,
)
    requires
        a.len() == b.len(),
        forall|i: int| 0 <= i < a.len() ==> #[trigger] a[i].0 == b[i].0,
    ensures
        find_branch(a, x) == find_branch(b, x),
    decreases a.len(),
{
    if a.len() > 0 {
        let pa = a.drop_last();
        let pb = b.drop_last();
        assert forall|i: int| 0 <= i < pa.len() implies #[trigger] pa[i].0 == pb[i].0 by {
            assert(pa[i] == a[i] && pb[i] == b[i]);
        }
        lemma_same_shapes_find(pa, pb, x);
        assert(a.last().0 == b.last().0);
    }
}

/// Cutting an implementation names, for any generic arguments, what was
/// named before, or that without the implementation; and it is defined
/// where it was.
pub proof fn lemma_applied_names_fewer(
    s: StateMachine,
    s2: StateMachine,
    imp: u64,
    gds: Seq<u64>,
    target: Option<SimpleType>,
    unr: bool,
    g: Map<u64, SimpleType>,
)
    requires
        machine_applied(s, s2, imp, gds, target, unr),
    ensures
        node_defined(StateMachineOrLeaves::StateMachine(s2), g) == node_defined(
            StateMachineOrLeaves::StateMachine(s),
            g,
        ),
        node_candidates(StateMachineOrLeaves::StateMachine(s2), g) == node_candidates(
            StateMachineOrLeaves::StateMachine(s),
            g,
        ) || node_candidates(StateMachineOrLeaves::StateMachine(s2), g) == without(
            node_candidates(StateMachineOrLeaves::StateMachine(s), g),
            imp,
        ),
    decreases s,
{
    let bs = s.branches@;
    let bs2 = s2.branches@;
    let in_gds = gds.contains(s.generic_param);
    assert(s2.generic_param == s.generic_param);
    assert(s2.default == s.default);
    assert(branches_applied(bs, bs2, bs.len() as int, imp, gds, in_gds, target, unr));
    lemma_branches_applied_at(bs, bs2, bs.len() as int, imp, gds, in_gds, target, unr);
    let a = g[s.generic_param];
    assert forall|i: int| 0 <= i < bs2.len() implies #[trigger] bs2[i].0 == bs[i].0 by {}
    lemma_same_shapes_find(bs2, bs, a);
    lemma_find_branch(bs, a);
    let k = find_branch(bs, a);
    if 0 <= k < bs.len() {
        assert(bs2[k].0 == bs[k].0);
        assert(node_applied(bs[k].1, bs2[k].1, imp, gds, bs[k].0, in_gds, target, unr));
        assert(node_candidates(StateMachineOrLeaves::StateMachine(s), g) == node_candidates(bs[k].1, g));
        assert(node_candidates(StateMachineOrLeaves::StateMachine(s2), g) == node_candidates(bs2[k].1, g));
        assert(node_defined(StateMachineOrLeaves::StateMachine(s), g) == (g.contains_key(
            s.generic_param,
        ) && node_defined(bs[k].1, g)));
        assert(node_defined(StateMachineOrLeaves::StateMachine(s2), g) == (g.contains_key(
            s.generic_param,
        ) && node_defined(bs2[k].1, g)));
        match bs[k].1 {
            StateMachineOrLeaves::Leaves(l) => {},
            StateMachineOrLeaves::StateMachine(c) => {
                let c2 = bs2[k].1->StateMachine_0;
                assert(decreases_to!(s => s.branches));
                assert(decreases_to!(s.branches => s.branches@));
                assert(decreases_to!(s.branches@ => s.branches@[k]));
                assert(decreases_to!(s.branches@[k] => s.branches@[k].1));
                assert(decreases_to!(s.branches@[k].1 => c));
                lemma_applied_names_fewer(
                    c,
                    c2,
                    imp,
                    gds,
                    child_target(bs[k].0, in_gds, target),
                    child_flag(bs[k].0, in_gds, target, unr),
                    g,
                );
            },
        }
    } else {
        assert(node_defined(StateMachineOrLeaves::StateMachine(s), g) == (g.contains_key(
            s.generic_param,
        ) && node_defined(*s.default, g)));
        assert(node_defined(StateMachineOrLeaves::StateMachine(s2), g) == (g.contains_key(
            s.generic_param,
        ) && node_defined(*s2.default, g)));
    }
}

/// Cutting an implementation keeps a tree well keyed.
proof fn lemma_applied_keyed(
    s: StateMachine,
    s2: StateMachine,
    imp: u64,
    gds: Seq<u64>,
    target: Option<SimpleType>,
    unr: bool,
)
    requires
        machine_applied(s, s2, imp, gds, target, unr),
        well_keyed(StateMachineOrLeaves::StateMachine(s)),
    ensures
        well_keyed(StateMachineOrLeaves::StateMachine(s2)),
    decreases s,
{
    let bs = s.branches@;
    let bs2 = s2.branches@;
    let in_gds = gds.contains(s.generic_param);
    lemma_branches_applied_at(bs, bs2, bs.len() as int, imp, gds, in_gds, target, unr);
    assert forall|i: int, j: int| 0 <= i < j < bs2.len() implies #[trigger] bs2[i].0
        != #[trigger] bs2[j].0 by {
        assert(bs2[i].0 == bs[i].0);
        assert(bs2[j].0 == bs[j].0);
        assert(bs[i].0 != bs[j].0);
    }
    assert forall|i: int| 0 <= i < bs2.len() implies well_keyed(#[trigger] bs2[i].1) by {
        lemma_branches_well_keyed_at(bs, i);
        assert(bs2[i].0 == bs[i].0);
        assert(node_applied(bs[i].1, bs2[i].1, imp, gds, bs[i].0, in_gds, target, unr));
        match bs[i].1 {
            StateMachineOrLeaves::Leaves(l) => {
                lemma_without_no_dups(l@, imp);
            },
            StateMachineOrLeaves::StateMachine(c) => {
                let c2 = bs2[i].1->StateMachine_0;
                assert(decreases_to!(s => s.branches));
                assert(decreases_to!(s.branches => s.branches@));
                assert(decreases_to!(s.branches@ => s.branches@[i]));
                assert(decreases_to!(s.branches@[i] => s.branches@[i].1));
                assert(decreases_to!(s.branches@[i].1 => c));
                lemma_applied_keyed(
                    c,
                    c2,
                    imp,
                    gds,
                    child_target(bs[i].0, in_gds, target),
                    child_flag(bs[i].0, in_gds, target, unr),
                );
            },
        }
    }
    lemma_branches_well_keyed_from(bs2);
}


fn ids_contain(ids: &[u64], x: u64) -> (r: bool)
    ensures
        r == ids@.contains(x),
{
    let mut i: usize = 0;
    while i < ids.len()
        invariant
            i <= ids@.len(),
            forall|j: int| 0 <= j < i ==> ids@[j] != x,
        decreases ids@.len() - i,
    {
        if ids[i] == x {
            return true;
        }
        i = i + 1;
    }
    false
}

fn without_ids(l: Vec<u64>, imp: u64) -> (r: Vec<u64>)
    ensures
        r@ == without(l@, imp),
{
    let mut r: Vec<u64> = Vec::new();
    let mut i: usize = 0;
    proof {
        assert(l@.take(0) =~= Seq::<u64>::empty());
    }
    while i < l.len()
        invariant
            i <= l@.len(),
            r@ == without(l@.take(i as int), imp),
        decreases l@.len() - i,
    {
        proof {
            assert(l@.take(i + 1).drop_last() =~= l@.take(i as int));
        }
        if l[i] != imp {
            r.push(l[i]);
        }
        i = i + 1;
    }
    proof {
        assert(l@.take(l@.len() as int) =~= l@);
    }
    r
}

fn is_data(t: SimpleType) -> (r: bool)
    ensures
        r == t is Data,
{
    match t {
        SimpleType::Data { .. } => true,
        _ => false,
    }
}

/// Cuts the implementation `impl_def_span` from the leaves it cannot reach
/// because the generic parameters `generic_def_spans` of the poly are one
/// generic of the implementation and cannot have two different data types.
/// Below a branch for a data type at one of them, that type is the target;
/// below a branch for another data type at another of them, the subtree is
/// unreachable. A node keeps its parameter, shapes and default; each branch
/// is visited on its own, so that a branch for another data type makes only
/// its own subtree unreachable.
pub fn apply_same_generic_params(
    state_machine: &mut StateMachine,
    impl_def_span: u64,
    generic_def_spans: &[u64],
    target_type: Option<SimpleType>,
    unreachable: bool,
)
    ensures
        machine_applied(
            *old(state_machine),
            *final(state_machine),
            impl_def_span,
            generic_def_spans@,
            target_type,
            unreachable,
        ),
    decreases *old(state_machine),
{
    let ghost s0 = *state_machine;
    let in_gds = ids_contain(generic_def_spans, state_machine.generic_param);
    let mut rest: Vec<(SimpleType, StateMachineOrLeaves)> = Vec::new();
    std::mem::swap(&mut rest, &mut state_machine.branches);
    let ghost orig = rest@;
    let mut done: Vec<(SimpleType, StateMachineOrLeaves)> = Vec::new();
    proof {
        assert(orig.skip(0) =~= orig);
    }
    while rest.len() > 0
        invariant
            s0 == *old(state_machine),
            orig == s0.branches@,
            done@.len() + rest@.len() == orig.len(),
            rest@ == orig.skip(done@.len() as int),
            in_gds == generic_def_spans@.contains(s0.generic_param),
            forall|i: int| 0 <= i < done@.len() ==> #[trigger] done@[i].0 == orig[i].0,
            forall|i: int|
                0 <= i < done@.len() ==> node_applied(
                    orig[i].1,
                    #[trigger] done@[i].1,
                    impl_def_span,
                    generic_def_spans@,
                    orig[i].0,
                    in_gds,
                    target_type,
                    unreachable,
                ),
            state_machine.generic_param == s0.generic_param,
            state_machine.default == s0.default,
        decreases rest@.len(),
    {
        let ghost j = done@.len() as int;
        let (t, b) = rest.remove(0);
        proof {
            assert(orig.skip(j)[0] == orig[j]);
        }
        let is_node = match &b {
            StateMachineOrLeaves::StateMachine(_) => true,
            StateMachineOrLeaves::Leaves(_) => false,
        };
        let nb = match b {
            StateMachineOrLeaves::Leaves(l) => {
                let cut = if !in_gds {
                    unreachable
                } else {
                    match target_type {
                        None => false,
                        Some(tt) => unreachable || (is_data(t) && t != tt),
                    }
                };
                if cut {
                    StateMachineOrLeaves::Leaves(without_ids(l, impl_def_span))
                } else {
                    StateMachineOrLeaves::Leaves(l)
                }
            },
            StateMachineOrLeaves::StateMachine(mut s) => {
                proof {
                    assert(decreases_to!(s0 => s0.branches));
                    assert(decreases_to!(s0.branches => s0.branches@));
                    assert(decreases_to!(s0.branches@ => s0.branches@[j]));
                    assert(decreases_to!(s0.branches@[j] => s0.branches@[j].1));
                    assert(decreases_to!(s0.branches@[j].1 => s));
                }
                let ct = if in_gds && target_type.is_none() {
                    if is_data(t) {
                        Some(t)
                    } else {
                        None
                    }
                } else {
                    target_type
                };
                let cf = if in_gds {
                    match target_type {
                        None => false,
                        Some(tt) => unreachable || (is_data(t) && t != tt),
                    }
                } else {
                    unreachable
                };
                apply_same_generic_params(&mut s, impl_def_span, generic_def_spans, ct, cf);
                StateMachineOrLeaves::StateMachine(s)
            },
        };
        done.push((t, nb));
        proof {
            assert(rest@ =~= orig.skip(j + 1));
            assert(done@[j].0 == orig[j].0);
            assert(node_applied(
                orig[j].1,
                done@[j].1,
                impl_def_span,
                generic_def_spans@,
                orig[j].0,
                in_gds,
                target_type,
                unreachable,
            ));
        }
    }
    proof {
        lemma_branches_applied_from(
            orig,
            done@,
            orig.len() as int,
            impl_def_span,
            generic_def_spans@,
            in_gds,
            target_type,
            unreachable,
        );
    }
    state_machine.branches = done;
}

} // verus!

verus! {

/// How an implementation fills in one generic parameter of the poly: the
/// shape of its type there, and, where that type is a generic parameter of
/// the implementation, that parameter's definition.
#[derive(Clone, Copy, Debug, PartialEq, Eq, Structural)]
pub struct ImplParam {
    pub generic: u64,
    pub shape: SimpleType,
    pub generic_def: Option<u64>,
}

/// `i` is one of the implementations.
pub open spec fn is_impl(impls: Seq<(u64, Vec<ImplParam>)>, i: u64) -> bool {
    exists|k: int| 0 <= k < impls.len() && #[trigger] impls[k].0 == i
}

/// An implementation gives the generic parameter `g` a type of shape `a`.
pub open spec fn has_shape(impls: Seq<(u64, Vec<ImplParam>)>, g: u64, a: SimpleType) -> bool {
    exists|k: int, q: int|
        #![trigger impls[k].1@[q]]
        0 <= k < impls.len() && 0 <= q < impls[k].1@.len() && impls[k].1@[q].generic == g
            && impls[k].1@[q].shape == a
}

/// The implementation `i` gives the generic parameter `g` a type of shape
/// `a`.
pub open spec fn shaped(impls: Seq<(u64, Vec<ImplParam>)>, i: u64, g: u64, a: SimpleType) -> bool {
    exists|k: int, q: int|
        #![trigger impls[k].1@[q]]
        0 <= k < impls.len() && 0 <= q < impls[k].1@.len() && impls[k].0 == i
            && impls[k].1@[q].generic == g && impls[k].1@[q].shape == a
}

/// `g` is a generic parameter of the poly that an implementation fills in.
pub open spec fn is_param(impls: Seq<(u64, Vec<ImplParam>)>, g: u64) -> bool {
    exists|k: int, q: int|
        #![trigger impls[k].1@[q]]
        0 <= k < impls.len() && 0 <= q < impls[k].1@.len() && impls[k].1@[q].generic == g
}

fn impl_ids(impls: &Vec<(u64, Vec<ImplParam>)>) -> (r: Vec<u64>)
    ensures
        forall|i: u64| r@.contains(i) <==> is_impl(impls@, i),
        r@.no_duplicates(),
{
    let mut r: Vec<u64> = Vec::new();
    let mut k: usize = 0;
    while k < impls.len()
        invariant
            k <= impls@.len(),
            forall|i: u64| r@.contains(i) <==> exists|j: int| 0 <= j < k && #[trigger] impls@[j].0 == i,
            r@.no_duplicates(),
        decreases impls@.len() - k,
    {
        let i = impls[k].0;
        let ghost r0 = r@;
        if !ids_contain(r.as_slice(), i) {
            r.push(i);
            proof {
                lemma_push_fresh(r0, i);
            }
        }
        proof {
            assert forall|x: u64| r@.contains(x) <==> exists|j: int| 0 <= j < k + 1 && #[trigger] impls@[j].0 == x by {
                lemma_contains_push(r0, i, x);
                if exists|j: int| 0 <= j < k + 1 && #[trigger] impls@[j].0 == x {
                    let j = choose|j: int| 0 <= j < k + 1 && #[trigger] impls@[j].0 == x;
                    if j < k {
                        assert(r0.contains(x));
                    }
                }
            }
        }
        k = k + 1;
    }
    proof {
        assert forall|i: u64| r@.contains(i) <==> is_impl(impls@, i) by {
            if is_impl(impls@, i) {
                let j = choose|j: int| 0 <= j < impls@.len() && #[trigger] impls@[j].0 == i;
                assert(exists|j: int| 0 <= j < k && #[trigger] impls@[j].0 == i);
            }
        }
    }
    r
}

/// Pushing an id that is not there yet keeps a list free of repeats.
proof fn lemma_push_fresh(r: Seq<u64>, x: u64)
    requires
        r.no_duplicates(),
        !r.contains(x),
    ensures
        r.push(x).no_duplicates(),
{
    let s = r.push(x);
    assert forall|a: int, b: int| 0 <= a < s.len() && 0 <= b < s.len() && a != b implies s[a] != s[b] by {
        if a < r.len() && b < r.len() {
            assert(s[a] == r[a] && s[b] == r[b]);
        } else if a < r.len() {
            assert(r.contains(r[a]));
        } else {
            assert(r.contains(r[b]));
        }
    }
}

/// The generic parameters that the implementations fill in, each once.
fn poly_params(impls: &Vec<(u64, Vec<ImplParam>)>) -> (r: Vec<u64>)
    ensures
        forall|g: u64| r@.contains(g) <==> is_param(impls@, g),
        forall|x: int, y: int| 0 <= x < y < r@.len() ==> r@[x] != r@[y],
{
    let mut r: Vec<u64> = Vec::new();
    let mut k: usize = 0;
    while k < impls.len()
        invariant
            k <= impls@.len(),
            forall|x: int, y: int| 0 <= x < y < r@.len() ==> r@[x] != r@[y],
            forall|g: u64|
                r@.contains(g) <==> exists|k2: int, q: int|
                    #![trigger impls@[k2].1@[q]]
                    0 <= k2 < k && 0 <= q < impls@[k2].1@.len() && impls@[k2].1@[q].generic == g,
        decreases impls@.len() - k,
    {
        let ps = &impls[k].1;
        let mut q: usize = 0;
        while q < ps.len()
            invariant
                k < impls@.len(),
                ps@ == impls@[k as int].1@,
                q <= ps@.len(),
                forall|x: int, y: int| 0 <= x < y < r@.len() ==> r@[x] != r@[y],
                forall|g: u64|
                    r@.contains(g) <==> (exists|k2: int, q2: int|
                        #![trigger impls@[k2].1@[q2]]
                        0 <= k2 < k && 0 <= q2 < impls@[k2].1@.len() && impls@[k2].1@[q2].generic
                            == g) || (exists|q2: int| 0 <= q2 < q && #[trigger] ps@[q2].generic == g),
            decreases ps@.len() - q,
        {
            let g = ps[q].generic;
            let ghost r0 = r@;
            if !ids_contain(r.as_slice(), g) {
                r.push(g);
            }
            proof {
                assert forall|x: u64| r@.contains(x) <==> (exists|k2: int, q2: int|
                    #![trigger impls@[k2].1@[q2]]
                    0 <= k2 < k && 0 <= q2 < impls@[k2].1@.len() && impls@[k2].1@[q2].generic
                        == x) || (exists|q2: int| 0 <= q2 < q + 1 && #[trigger] ps@[q2].generic
                    == x) by {
                    if r@ != r0 {
                        lemma_contains_push(r0, g, x);
                    }
                    if x == g {
                        assert(ps@[q as int].generic == x);
                    }
                    if exists|q2: int| 0 <= q2 < q + 1 && #[trigger] ps@[q2].generic == x {
                        let q2 = choose|q2: int| 0 <= q2 < q + 1 && #[trigger] ps@[q2].generic == x;
                        if q2 < q {
                            assert(r0.contains(x));
                        }
                    }
                }
            }
            q = q + 1;
        }
        proof {
            assert forall|x: u64| r@.contains(x) <==> exists|k2: int, q2: int|
                #![trigger impls@[k2].1@[q2]]
                0 <= k2 < k + 1 && 0 <= q2 < impls@[k2].1@.len() && impls@[k2].1@[q2].generic
                    == x by {
                if exists|q2: int| 0 <= q2 < ps@.len() && #[trigger] ps@[q2].generic == x {
                    let q2 = choose|q2: int| 0 <= q2 < ps@.len() && #[trigger] ps@[q2].generic == x;
                    assert(impls@[k as int].1@[q2].generic == x);
                }
                if exists|k2: int, q2: int|
                    #![trigger impls@[k2].1@[q2]]
                    0 <= k2 < k + 1 && 0 <= q2 < impls@[k2].1@.len() && impls@[k2].1@[q2].generic
                        == x {
                    let (k2, q2) = choose|k2: int, q2: int|
                        #![trigger impls@[k2].1@[q2]]
                        0 <= k2 < k + 1 && 0 <= q2 < impls@[k2].1@.len()
                            && impls@[k2].1@[q2].generic == x;
                    if k2 == k {
                        assert(ps@[q2].generic == x);
                    }
                }
            }
        }
        k = k + 1;
    }
    r
}



/// The parameter `q` of the implementation at `k` is for `g`, and of shape
/// `a` or generic.
pub open spec fn fills(impls: Seq<(u64, Vec<ImplParam>)>, k: int, q: int, g: u64, a: SimpleType) -> bool {
    &&& impls[k].1@[q].generic == g
    &&& (impls[k].1@[q].shape == a || impls[k].1@[q].shape == SimpleType::GenericParam)
}

/// The implementations that give `g` a type of shape `a` or a generic one,
/// in order, each once.
fn collect(impls: &Vec<(u64, Vec<ImplParam>)>, g: u64, a: SimpleType) -> (r: Vec<u64>)
    ensures
        r@.no_duplicates(),
        forall|i: u64|
            r@.contains(i) <==> shaped(impls@, i, g, a) || shaped(
                impls@,
                i,
                g,
                SimpleType::GenericParam,
            ),
{
    let mut r: Vec<u64> = Vec::new();
    let mut k: usize = 0;
    while k < impls.len()
        invariant
            k <= impls@.len(),
            forall|i: u64|
                r@.contains(i) <==> exists|k2: int, q2: int|
                    #![trigger impls@[k2].1@[q2]]
                    0 <= k2 < k && 0 <= q2 < impls@[k2].1@.len() && impls@[k2].0 == i && fills(
                        impls@,
                        k2,
                        q2,
                        g,
                        a,
                    ),
            r@.no_duplicates(),
        decreases impls@.len() - k,
    {
        let ps = &impls[k].1;
        let i = impls[k].0;
        let mut q: usize = 0;
        while q < ps.len()
            invariant
                k < impls@.len(),
                ps@ == impls@[k as int].1@,
                i == impls@[k as int].0,
                q <= ps@.len(),
                forall|x: u64|
                    r@.contains(x) <==> (exists|k2: int, q2: int|
                        #![trigger impls@[k2].1@[q2]]
                        0 <= k2 < k && 0 <= q2 < impls@[k2].1@.len() && impls@[k2].0 == x
                            && fills(impls@, k2, q2, g, a)) || (x == i && exists|q2: int|
                        0 <= q2 < q && #[trigger] fills(impls@, k as int, q2, g, a)),
                r@.no_duplicates(),
            decreases ps@.len() - q,
        {
            let ghost r0 = r@;
            let pq = ps[q];
            if pq.generic == g && (pq.shape == a || pq.shape == SimpleType::GenericParam)
                && !ids_contain(r.as_slice(), i) {
                r.push(i);
                proof {
                    lemma_push_fresh(r0, i);
                }
            }
            proof {
                assert forall|x: u64|
                    r@.contains(x) <==> (exists|k2: int, q2: int|
                        #![trigger impls@[k2].1@[q2]]
                        0 <= k2 < k && 0 <= q2 < impls@[k2].1@.len() && impls@[k2].0 == x
                            && fills(impls@, k2, q2, g, a)) || (x == i && exists|q2: int|
                        0 <= q2 < q + 1 && #[trigger] fills(impls@, k as int, q2, g, a)) by {
                    if r@ != r0 {
                        lemma_contains_push(r0, i, x);
                    }
                    if fills(impls@, k as int, q as int, g, a) && x == i {
                        assert(r@.contains(x));
                    }
                    if x == i && exists|q2: int|
                        0 <= q2 < q + 1 && #[trigger] fills(impls@, k as int, q2, g, a) {
                        let q2 = choose|q2: int|
                            0 <= q2 < q + 1 && #[trigger] fills(impls@, k as int, q2, g, a);
                        if q2 < q {
                            assert(r0.contains(x));
                        }
                    }
                }
            }
            q = q + 1;
        }
        proof {
            assert forall|x: u64|
                r@.contains(x) <==> exists|k2: int, q2: int|
                    #![trigger impls@[k2].1@[q2]]
                    0 <= k2 < k + 1 && 0 <= q2 < impls@[k2].1@.len() && impls@[k2].0 == x && fills(
                        impls@,
                        k2,
                        q2,
                        g,
                        a,
                    ) by {
                if x == i && exists|q2: int| 0 <= q2 < ps@.len() && #[trigger] fills(impls@, k as int, q2, g, a) {
                    let q2 = choose|q2: int| 0 <= q2 < ps@.len() && #[trigger] fills(impls@, k as int, q2, g, a);
                    assert(impls@[k as int].1@[q2] == impls@[k as int].1@[q2]);
                }
                if exists|k2: int, q2: int|
                    #![trigger impls@[k2].1@[q2]]
                    0 <= k2 < k + 1 && 0 <= q2 < impls@[k2].1@.len() && impls@[k2].0 == x && fills(
                        impls@,
                        k2,
                        q2,
                        g,
                        a,
                    ) {
                    let (k2, q2) = choose|k2: int, q2: int|
                        #![trigger impls@[k2].1@[q2]]
                        0 <= k2 < k + 1 && 0 <= q2 < impls@[k2].1@.len() && impls@[k2].0 == x
                            && fills(impls@, k2, q2, g, a);
                    if k2 == k {
                        assert(fills(impls@, k as int, q2, g, a));
                    }
                }
            }
        }
        k = k + 1;
    }
    proof {
        assert forall|x: u64|
            r@.contains(x) <==> shaped(impls@, x, g, a) || shaped(
                impls@,
                x,
                g,
                SimpleType::GenericParam,
            ) by {
            if r@.contains(x) {
                let (k2, q2) = choose|k2: int, q2: int|
                    #![trigger impls@[k2].1@[q2]]
                    0 <= k2 < k && 0 <= q2 < impls@[k2].1@.len() && impls@[k2].0 == x && fills(
                        impls@,
                        k2,
                        q2,
                        g,
                        a,
                    );
                assert(impls@[k2].1@[q2] == impls@[k2].1@[q2]);
            }
            if shaped(impls@, x, g, a) {
                let (k2, q2) = choose|k2: int, q2: int|
                    #![trigger impls@[k2].1@[q2]]
                    0 <= k2 < impls@.len() && 0 <= q2 < impls@[k2].1@.len() && impls@[k2].0 == x
                        && impls@[k2].1@[q2].generic == g && impls@[k2].1@[q2].shape == a;
                assert(fills(impls@, k2, q2, g, a));
            }
            if shaped(impls@, x, g, SimpleType::GenericParam) {
                let (k2, q2) = choose|k2: int, q2: int|
                    #![trigger impls@[k2].1@[q2]]
                    0 <= k2 < impls@.len() && 0 <= q2 < impls@[k2].1@.len() && impls@[k2].0 == x
                        && impls@[k2].1@[q2].generic == g && impls@[k2].1@[q2].shape
                        == SimpleType::GenericParam;
                assert(fills(impls@, k2, q2, g, a));
            }
        }
    }
    r
}


fn shapes_contain(v: &Vec<SimpleType>, a: SimpleType) -> (r: bool)
    ensures
        r == v@.contains(a),
{
    let mut i: usize = 0;
    while i < v.len()
        invariant
            i <= v@.len(),
            forall|j: int| 0 <= j < i ==> v@[j] != a,
        decreases v@.len() - i,
    {
        if v[i] == a {
            return true;
        }
        i = i + 1;
    }
    false
}

/// The parameter `q` of the implementation at `k` is for `g`, of shape `a`,
/// which is neither generic nor unknown.
pub open spec fn concrete_at(impls: Seq<(u64, Vec<ImplParam>)>, k: int, q: int, g: u64, a: SimpleType) -> bool {
    &&& impls[k].1@[q].generic == g
    &&& impls[k].1@[q].shape == a
    &&& a != SimpleType::GenericParam
    &&& a != SimpleType::Var
}

/// The shapes that the implementations give `g`, but the generic and the
/// unknown one, each once.
fn shapes_at(impls: &Vec<(u64, Vec<ImplParam>)>, g: u64) -> (r: Vec<SimpleType>)
    ensures
        forall|a: SimpleType|
            r@.contains(a) <==> has_shape(impls@, g, a) && a != SimpleType::GenericParam && a
                != SimpleType::Var,
        forall|x: int, y: int| 0 <= x < y < r@.len() ==> r@[x] != r@[y],
{
    let mut r: Vec<SimpleType> = Vec::new();
    let mut k: usize = 0;
    while k < impls.len()
        invariant
            k <= impls@.len(),
            forall|x: int, y: int| 0 <= x < y < r@.len() ==> r@[x] != r@[y],
            forall|a: SimpleType|
                r@.contains(a) <==> exists|k2: int, q2: int|
                    #![trigger impls@[k2].1@[q2]]
                    0 <= k2 < k && 0 <= q2 < impls@[k2].1@.len() && concrete_at(impls@, k2, q2, g, a),
        decreases impls@.len() - k,
    {
        let ps = &impls[k].1;
        let mut q: usize = 0;
        while q < ps.len()
            invariant
                k < impls@.len(),
                ps@ == impls@[k as int].1@,
                q <= ps@.len(),
                forall|x: int, y: int| 0 <= x < y < r@.len() ==> r@[x] != r@[y],
                forall|a: SimpleType|
                    r@.contains(a) <==> (exists|k2: int, q2: int|
                        #![trigger impls@[k2].1@[q2]]
                        0 <= k2 < k && 0 <= q2 < impls@[k2].1@.len() && concrete_at(impls@, k2, q2, g, a))
                        || (exists|q2: int| 0 <= q2 < q && #[trigger] concrete_at(impls@, k as int, q2, g, a)),
            decreases ps@.len() - q,
        {
            let ghost r0 = r@;
            let pq = ps[q];
            if pq.generic == g && pq.shape != SimpleType::GenericParam && pq.shape != SimpleType::Var
                && !shapes_contain(&r, pq.shape) {
                r.push(pq.shape);
            }
            proof {
                assert forall|x: int, y: int| 0 <= x < y < r@.len() implies r@[x] != r@[y] by {
                    if y == r0.len() {
                        assert(r0[x] == r@[x]);
                        assert(r0.contains(r0[x]));
                    } else {
                        assert(r0[x] == r@[x] && r0[y] == r@[y]);
                    }
                }
                assert forall|a: SimpleType|
                    r@.contains(a) <==> (exists|k2: int, q2: int|
                        #![trigger impls@[k2].1@[q2]]
                        0 <= k2 < k && 0 <= q2 < impls@[k2].1@.len() && concrete_at(impls@, k2, q2, g, a))
                        || (exists|q2: int| 0 <= q2 < q + 1 && #[trigger] concrete_at(impls@, k as int, q2, g, a)) by {
                    if r@ != r0 {
                        assert(r@ == r0.push(pq.shape));
                        if r@.contains(a) && a != pq.shape {
                            let j = choose|j: int| 0 <= j < r@.len() && r@[j] == a;
                            assert(r0[j] == a);
                            assert(r0.contains(a));
                        }
                        if r0.contains(a) {
                            let j = choose|j: int| 0 <= j < r0.len() && r0[j] == a;
                            assert(r@[j] == a);
                        }
                        if a == pq.shape {
                            assert(r@[r0.len() as int] == a);
                        }
                    }
                    if concrete_at(impls@, k as int, q as int, g, a) {
                        assert(r@.contains(a));
                    }
                    if exists|q2: int| 0 <= q2 < q + 1 && #[trigger] concrete_at(impls@, k as int, q2, g, a) {
                        let q2 = choose|q2: int| 0 <= q2 < q + 1 && #[trigger] concrete_at(impls@, k as int, q2, g, a);
                        if q2 < q {
                            assert(r0.contains(a));
                        }
                    }
                }
            }
            q = q + 1;
        }
        proof {
            assert forall|a: SimpleType|
                r@.contains(a) <==> exists|k2: int, q2: int|
                    #![trigger impls@[k2].1@[q2]]
                    0 <= k2 < k + 1 && 0 <= q2 < impls@[k2].1@.len() && concrete_at(impls@, k2, q2, g, a) by {
                if exists|q2: int| 0 <= q2 < ps@.len() && #[trigger] concrete_at(impls@, k as int, q2, g, a) {
                    let q2 = choose|q2: int| 0 <= q2 < ps@.len() && #[trigger] concrete_at(impls@, k as int, q2, g, a);
                    assert(impls@[k as int].1@[q2] == impls@[k as int].1@[q2]);
                }
                if exists|k2: int, q2: int|
                    #![trigger impls@[k2].1@[q2]]
                    0 <= k2 < k + 1 && 0 <= q2 < impls@[k2].1@.len() && concrete_at(impls@, k2, q2, g, a) {
                    let (k2, q2) = choose|k2: int, q2: int|
                        #![trigger impls@[k2].1@[q2]]
                        0 <= k2 < k + 1 && 0 <= q2 < impls@[k2].1@.len() && concrete_at(impls@, k2, q2, g, a);
                    if k2 == k {
                        assert(concrete_at(impls@, k as int, q2, g, a));
                    }
                }
            }
        }
        k = k + 1;
    }
    proof {
        assert forall|a: SimpleType|
            r@.contains(a) <==> has_shape(impls@, g, a) && a != SimpleType::GenericParam && a
                != SimpleType::Var by {
            if r@.contains(a) {
                let (k2, q2) = choose|k2: int, q2: int|
                    #![trigger impls@[k2].1@[q2]]
                    0 <= k2 < k && 0 <= q2 < impls@[k2].1@.len() && concrete_at(impls@, k2, q2, g, a);
                assert(impls@[k2].1@[q2] == impls@[k2].1@[q2]);
            }
            if has_shape(impls@, g, a) && a != SimpleType::GenericParam && a != SimpleType::Var {
                let (k2, q2) = choose|k2: int, q2: int|
                    #![trigger impls@[k2].1@[q2]]
                    0 <= k2 < impls@.len() && 0 <= q2 < impls@[k2].1@.len() && impls@[k2].1@[q2].generic == g
                        && impls@[k2].1@[q2].shape == a;
                assert(concrete_at(impls@, k2, q2, g, a));
            }
        }
    }
    r
}


/// The list `l` of an entry for the shape `a` at `g` names the
/// implementations that fit that shape there: those that give `g` that
/// shape or a generic one; for the unknown shape, every implementation.
pub open spec fn entry_holds(impls: Seq<(u64, Vec<ImplParam>)>, g: u64, a: SimpleType, l: Seq<u64>) -> bool {
    forall|i: u64|
        l.contains(i) <==> if a == SimpleType::Var {
            is_impl(impls, i)
        } else {
            shaped(impls, i, g, a) || shaped(impls, i, g, SimpleType::GenericParam)
        }
}

/// The entries `es` for `g`: one for each shape that an implementation
/// gives `g` and one for the unknown shape, each once, each as
/// `entry_holds` says.
pub open spec fn entries_hold(impls: Seq<(u64, Vec<ImplParam>)>, g: u64, es: Seq<(SimpleType, Vec<u64>)>) -> bool {
    &&& forall|x: int, y: int| 0 <= x < y < es.len() ==> #[trigger] es[x].0 != #[trigger] es[y].0
    &&& forall|e: int| 0 <= e < es.len() ==> entry_holds(impls, g, #[trigger] es[e].0, es[e].1@)
    &&& forall|a: SimpleType|
        #[trigger] first_entry(es, a) >= 0 <==> (a == SimpleType::Var || has_shape(impls, g, a))
}

/// The table of the implementations: an entry list for each generic
/// parameter that they fill in, each once, as `entries_hold` says.
pub open spec fn table_holds(t: Seq<(u64, Vec<(SimpleType, Vec<u64>)>)>, impls: Seq<(u64, Vec<ImplParam>)>) -> bool {
    &&& forall|x: int, y: int| 0 <= x < y < t.len() ==> #[trigger] t[x].0 != #[trigger] t[y].0
    &&& forall|g: u64| (exists|j: int| 0 <= j < t.len() && #[trigger] t[j].0 == g) <==> is_param(impls, g)
    &&& forall|j: int| 0 <= j < t.len() ==> entries_hold(impls, #[trigger] t[j].0, t[j].1@)
}

proof fn lemma_has_shape_some(impls: Seq<(u64, Vec<ImplParam>)>, g: u64, a: SimpleType)
    ensures
        has_shape(impls, g, a) <==> exists|i: u64| shaped(impls, i, g, a),
{
    if has_shape(impls, g, a) {
        let (k, q) = choose|k: int, q: int|
            #![trigger impls[k].1@[q]]
            0 <= k < impls.len() && 0 <= q < impls[k].1@.len() && impls[k].1@[q].generic == g
                && impls[k].1@[q].shape == a;
        assert(shaped(impls, impls[k].0, g, a));
    }
    if exists|i: u64| shaped(impls, i, g, a) {
        let i = choose|i: u64| shaped(impls, i, g, a);
        let (k, q) = choose|k: int, q: int|
            #![trigger impls[k].1@[q]]
            0 <= k < impls.len() && 0 <= q < impls[k].1@.len() && impls[k].0 == i
                && impls[k].1@[q].generic == g && impls[k].1@[q].shape == a;
        assert(impls[k].1@[q] == impls[k].1@[q]);
    }
}

/// `s` with each run of equal adjacent ids kept once.
pub open spec fn dedup_adjacent(s: Seq<u64>) -> Seq<u64>
    decreases s.len(),
{
    if s.len() == 0 {
        seq![]
    } else {
        let p = dedup_adjacent(s.drop_last());
        if p.len() > 0 && p.last() == s.last() {
            p
        } else {
            p.push(s.last())
        }
    }
}

/// A list free of repeats has no adjacent equal ids to drop.
proof fn lemma_dedup_same(v: Seq<u64>)
    requires
        v.no_duplicates(),
    ensures
        dedup_adjacent(v) == v,
    decreases v.len(),
{
    if v.len() > 0 {
        let pre = v.drop_last();
        assert(pre.no_duplicates());
        lemma_dedup_same(pre);
        if pre.len() > 0 {
            assert(pre.last() == v[v.len() - 2]);
        }
        assert(pre.push(v.last()) =~= v);
    }
}

/// `v` without repeats of adjacent equal ids.
fn dedup_ids(v: Vec<u64>) -> (r: Vec<u64>)
    ensures
        r@ == dedup_adjacent(v@),
        forall|i: u64| r@.contains(i) <==> v@.contains(i),
{
    let mut r: Vec<u64> = Vec::new();
    let mut i: usize = 0;
    while i < v.len()
        invariant
            i <= v@.len(),
            forall|x: u64| r@.contains(x) <==> exists|j: int| 0 <= j < i && v@[j] == x,
            r@.len() > 0 ==> i > 0 && r@.last() == v@[i - 1],
            r@ == dedup_adjacent(v@.take(i as int)),
        decreases v@.len() - i,
    {
        let ghost r0 = r@;
        proof {
            assert(v@.take(i + 1).drop_last() =~= v@.take(i as int));
            assert(v@.take(i + 1).last() == v@[i as int]);
        }
        if r.len() == 0 || r[r.len() - 1] != v[i] {
            r.push(v[i]);
            proof {
                assert forall|x: u64| r@.contains(x) <==> exists|j: int| 0 <= j < i + 1 && v@[j] == x by {
                    lemma_contains_push(r0, v@[i as int], x);
                    if exists|j: int| 0 <= j < i + 1 && v@[j] == x {
                        let j = choose|j: int| 0 <= j < i + 1 && v@[j] == x;
                        if j < i {
                            assert(r0.contains(x));
                        }
                    }
                }
            }
        } else {
            proof {
                assert(r0.contains(r0.last()));
                assert forall|x: u64| r@.contains(x) <==> exists|j: int| 0 <= j < i + 1 && v@[j] == x by {
                    if exists|j: int| 0 <= j < i + 1 && v@[j] == x {
                        let j = choose|j: int| 0 <= j < i + 1 && v@[j] == x;
                        if j < i {
                            assert(r0.contains(x));
                        } else {
                            assert(r0[r0.len() - 1] == x);
                        }
                    }
                }
            }
        }
        i = i + 1;
    }
    proof {
        assert(v@.take(v@.len() as int) =~= v@);
        assert forall|x: u64| r@.contains(x) <==> v@.contains(x) by {
            if v@.contains(x) {
                let j = choose|j: int| 0 <= j < v@.len() && v@[j] == x;
                assert(exists|j: int| 0 <= j < i && v@[j] == x);
            }
        }
    }
    r
}

/// The entries for the generic parameter `g`.
fn entries_for(impls: &Vec<(u64, Vec<ImplParam>)>, g: u64) -> (es: Vec<(SimpleType, Vec<u64>)>)
    ensures
        entries_hold(impls@, g, es@),
        forall|e: int| 0 <= e < es@.len() ==> (#[trigger] es@[e]).1@.no_duplicates(),
{
    let ss = shapes_at(impls, g);
    let mut es: Vec<(SimpleType, Vec<u64>)> = Vec::new();
    let mut i: usize = 0;
    while i < ss.len()
        invariant
            i <= ss@.len(),
            es@.len() == i,
            forall|a: SimpleType|
                ss@.contains(a) <==> has_shape(impls@, g, a) && a != SimpleType::GenericParam && a
                    != SimpleType::Var,
            forall|x: int| 0 <= x < i ==> #[trigger] es@[x].0 == ss@[x],
            forall|e: int| 0 <= e < i ==> entry_holds(impls@, g, #[trigger] es@[e].0, es@[e].1@),
            forall|e: int| 0 <= e < i ==> (#[trigger] es@[e]).1@.no_duplicates(),
        decreases ss@.len() - i,
    {
        let l = collect(impls, g, ss[i]);
        let ghost lv = l@;
        proof {
            assert(ss@.contains(ss@[i as int]));
            assert(ss@[i as int] != SimpleType::Var);
            assert(entry_holds(impls@, g, ss@[i as int], lv));
        }
        es.push((ss[i], l));
        proof {
            assert(es@[i as int].0 == ss@[i as int]);
            assert(es@[i as int].1@ == lv);
        }
        i = i + 1;
    }
    let ghost n = es@.len();
    let generics = collect(impls, g, SimpleType::GenericParam);
    proof {
        lemma_has_shape_some(impls@, g, SimpleType::GenericParam);
        if has_shape(impls@, g, SimpleType::GenericParam) {
            let w = choose|w: u64| shaped(impls@, w, g, SimpleType::GenericParam);
            assert(generics@.contains(w));
        }
    }
    let has_generic = generics.len() > 0;
    if has_generic {
        proof {
            assert(generics@.contains(generics@[0]));
        }
        let mut sorted_generics = generics;
        sort_ids(&mut sorted_generics);
        proof {
            broadcast use vstd::seq_lib::group_to_multiset_ensures;
            assert forall|x: u64| sorted_generics@.contains(x) <==> generics@.contains(x) by {
                assert(sorted_generics@.contains(x) <==> sorted_generics@.to_multiset().count(x) > 0);
                assert(generics@.contains(x) <==> generics@.to_multiset().count(x) > 0);
            }
        }
        let ghost sg = sorted_generics@;
        let unique = dedup_ids(sorted_generics);
        proof {
            lemma_same_multiset_no_dups(generics@, sg);
            lemma_dedup_same(sg);
        }
        es.push((SimpleType::GenericParam, unique));
    }
    let all = impl_ids(impls);
    es.push((SimpleType::Var, all));
    proof {
        let e = es@;
        assert forall|x: int, y: int| 0 <= x < y < e.len() implies #[trigger] e[x].0 != #[trigger] e[y].0 by {
            if y < n {
                assert(ss@[x] != ss@[y]);
            } else if x < n {
                assert(e[x].0 == ss@[x]);
                assert(ss@.contains(ss@[x]));
            }
        }
        assert forall|q: int| 0 <= q < e.len() implies entry_holds(impls@, g, #[trigger] e[q].0, e[q].1@) by {
            if q < n {
                assert(e[q] == es@[q]);
            }
        }
        assert forall|a: SimpleType| #[trigger] first_entry(e, a) >= 0 <==> (a == SimpleType::Var
            || has_shape(impls@, g, a)) by {
            lemma_first_entry(e, a);
            if a == SimpleType::Var {
                assert(e[e.len() - 1].0 == a);
            } else if a == SimpleType::GenericParam {
                if has_shape(impls@, g, a) {
                    assert(e[n as int].0 == a);
                }
                if first_entry(e, a) >= 0 {
                    let f = first_entry(e, a);
                    if f < n {
                        assert(e[f].0 == ss@[f]);
                        assert(ss@.contains(ss@[f]));
                    }
                }
            } else {
                if has_shape(impls@, g, a) {
                    assert(ss@.contains(a));
                    let x = choose|x: int| 0 <= x < ss@.len() && ss@[x] == a;
                    assert(e[x].0 == a);
                }
                if first_entry(e, a) >= 0 {
                    let f = first_entry(e, a);
                    assert(f < n);
                    assert(e[f].0 == ss@[f]);
                    assert(ss@.contains(ss@[f]));
                }
            }
        }
    }
    es
}


/// The parameter `q` of the implementation at `k` is a generic parameter
/// of the implementation `i`, defined at `d`.
pub open spec fn generic_of(impls: Seq<(u64, Vec<ImplParam>)>, k: int, q: int, i: u64, d: u64) -> bool {
    &&& impls[k].0 == i
    &&& impls[k].1@[q].shape == SimpleType::GenericParam
    &&& impls[k].1@[q].generic_def == Some(d)
}

/// Two parameters of the implementation `i` are one generic parameter of
/// it.
pub open spec fn grouped(impls: Seq<(u64, Vec<ImplParam>)>, i: u64) -> bool {
    exists|k1: int, q1: int, k2: int, q2: int, d: u64|
        #![trigger impls[k1].1@[q1], impls[k2].1@[q2], generic_of(impls, k1, q1, i, d), generic_of(impls, k2, q2, i, d)]
        0 <= k1 < impls.len() && 0 <= q1 < impls[k1].1@.len() && 0 <= k2 < impls.len() && 0 <= q2
            < impls[k2].1@.len() && (k1 != k2 || q1 != q2) && generic_of(impls, k1, q1, i, d)
            && generic_of(impls, k2, q2, i, d)
}

fn pairs_contain(v: &Vec<(u64, u64)>, x: (u64, u64)) -> (r: bool)
    ensures
        r == v@.contains(x),
{
    let mut i: usize = 0;
    while i < v.len()
        invariant
            i <= v@.len(),
            forall|j: int| 0 <= j < i ==> v@[j] != x,
        decreases v@.len() - i,
    {
        if v[i].0 == x.0 && v[i].1 == x.1 {
            return true;
        }
        i = i + 1;
    }
    false
}

/// The parameter `q` of the implementation at `k` is a generic parameter of
/// the implementation with a definition.
pub open spec fn has_generic_def(impls: Seq<(u64, Vec<ImplParam>)>, k: int, q: int) -> bool {
    impls[k].1@[q].shape == SimpleType::GenericParam && impls[k].1@[q].generic_def is Some
}

/// The pair of the implementation at `k` and the definition of its generic
/// parameter that is its parameter `q`.
pub open spec fn generic_key(impls: Seq<(u64, Vec<ImplParam>)>, k: int, q: int) -> (u64, u64) {
    (impls[k].0, impls[k].1@[q].generic_def->0)
}

/// Each implementation with a generic parameter, with where that is
/// defined: each such pair once.
fn group_keys(impls: &Vec<(u64, Vec<ImplParam>)>) -> (r: Vec<(u64, u64)>)
    ensures
        forall|i: u64, d: u64|
            r@.contains((i, d)) ==> exists|k: int, q: int|
                #![trigger impls@[k].1@[q]]
                0 <= k < impls@.len() && 0 <= q < impls@[k].1@.len() && generic_of(impls@, k, q, i, d),
        forall|k: int, q: int|
            0 <= k < impls@.len() && 0 <= q < impls@[k].1@.len() && has_generic_def(impls@, k, q)
                ==> r@.contains(#[trigger] generic_key(impls@, k, q)),
        forall|x: int, y: int| 0 <= x < y < r@.len() ==> r@[x] != r@[y],
{
    let mut r: Vec<(u64, u64)> = Vec::new();
    let mut k: usize = 0;
    while k < impls.len()
        invariant
            k <= impls@.len(),
            forall|i: u64, d: u64|
                r@.contains((i, d)) ==> exists|k2: int, q2: int|
                    #![trigger impls@[k2].1@[q2]]
                    0 <= k2 < impls@.len() && 0 <= q2 < impls@[k2].1@.len() && generic_of(impls@, k2, q2, i, d),
            forall|k2: int, q2: int|
                0 <= k2 < k && 0 <= q2 < impls@[k2].1@.len() && has_generic_def(impls@, k2, q2)
                    ==> r@.contains(#[trigger] generic_key(impls@, k2, q2)),
            forall|x: int, y: int| 0 <= x < y < r@.len() ==> r@[x] != r@[y],
        decreases impls@.len() - k,
    {
        let ps = &impls[k].1;
        let i = impls[k].0;
        let mut q: usize = 0;
        while q < ps.len()
            invariant
                k < impls@.len(),
                ps@ == impls@[k as int].1@,
                i == impls@[k as int].0,
                q <= ps@.len(),
                forall|i2: u64, d: u64|
                    r@.contains((i2, d)) ==> exists|k2: int, q2: int|
                        #![trigger impls@[k2].1@[q2]]
                        0 <= k2 < impls@.len() && 0 <= q2 < impls@[k2].1@.len() && generic_of(impls@, k2, q2, i2, d),
                forall|k2: int, q2: int|
                    0 <= k2 < k && 0 <= q2 < impls@[k2].1@.len() && has_generic_def(impls@, k2, q2)
                        ==> r@.contains(#[trigger] generic_key(impls@, k2, q2)),
                forall|q2: int|
                    0 <= q2 < q && has_generic_def(impls@, k as int, q2) ==> r@.contains(
                        #[trigger] generic_key(impls@, k as int, q2),
                    ),
                forall|x: int, y: int| 0 <= x < y < r@.len() ==> r@[x] != r@[y],
            decreases ps@.len() - q,
        {
            let ghost r0 = r@;
            let pq = ps[q];
            if pq.shape == SimpleType::GenericParam {
                if let Some(d) = pq.generic_def {
                    if !pairs_contain(&r, (i, d)) {
                        r.push((i, d));
                        proof {
                            assert(generic_of(impls@, k as int, q as int, i, d));
                            assert forall|i2: u64, d2: u64| r@.contains((i2, d2)) implies exists|k2: int, q2: int|
                                #![trigger impls@[k2].1@[q2]]
                                0 <= k2 < impls@.len() && 0 <= q2 < impls@[k2].1@.len() && generic_of(impls@, k2, q2, i2, d2) by {
                                if (i2, d2) == (i, d) {
                                    assert(impls@[k as int].1@[q as int] == impls@[k as int].1@[q as int]);
                                } else {
                                    let j = choose|j: int| 0 <= j < r@.len() && r@[j] == (i2, d2);
                                    assert(r0[j] == (i2, d2));
                                    assert(r0.contains((i2, d2)));
                                }
                            }
                            assert forall|x: (u64, u64)| r0.contains(x) implies r@.contains(x) by {
                                let j = choose|j: int| 0 <= j < r0.len() && r0[j] == x;
                                assert(r@[j] == x);
                            }
                            assert(r@[r0.len() as int] == (i, d));
                            assert(r@.contains((i, d)));
                            assert forall|x: int, y: int| 0 <= x < y < r@.len() implies r@[x] != r@[y] by {
                                if y == r0.len() {
                                    assert(r@[x] == r0[x]);
                                    assert(r0.contains(r0[x]));
                                } else {
                                    assert(r@[x] == r0[x] && r@[y] == r0[y]);
                                }
                            }
                        }
                    }
                }
            }
            proof {
                assert forall|k2: int, q2: int|
                    0 <= k2 < k && 0 <= q2 < impls@[k2].1@.len() && has_generic_def(impls@, k2, q2)
                        implies r@.contains(#[trigger] generic_key(impls@, k2, q2)) by {
                    if r@ != r0 {
                        let j = choose|j: int| 0 <= j < r0.len() && r0[j] == generic_key(impls@, k2, q2);
                        assert(r@[j] == r0[j]);
                    }
                }
                assert forall|q2: int|
                    0 <= q2 < q + 1 && has_generic_def(impls@, k as int, q2) implies r@.contains(
                        #[trigger] generic_key(impls@, k as int, q2),
                    ) by {
                    if q2 < q && r@ != r0 {
                        let j = choose|j: int| 0 <= j < r0.len() && r0[j] == generic_key(impls@, k as int, q2);
                        assert(r@[j] == r0[j]);
                    }
                    if q2 == q {
                        assert(generic_key(impls@, k as int, q2) == (i, pq.generic_def->0));
                    }
                }
            }
            q = q + 1;
        }
        k = k + 1;
    }
    r
}

/// The generic parameters of the poly that the implementation `imp` gives
/// its generic parameter defined at `d`; where they are two or more,
/// `imp` is grouped.
fn group_of(impls: &Vec<(u64, Vec<ImplParam>)>, imp: u64, d: u64) -> (r: Vec<u64>)
    ensures
        forall|g: u64|
            r@.contains(g) <==> exists|k: int, q: int|
                #![trigger impls@[k].1@[q]]
                0 <= k < impls@.len() && 0 <= q < impls@[k].1@.len() && generic_of(impls@, k, q, imp, d)
                    && impls@[k].1@[q].generic == g,
        r@.len() >= 2 ==> grouped(impls@, imp),
{
    let mut r: Vec<u64> = Vec::new();
    let mut k: usize = 0;
    while k < impls.len()
        invariant
            k <= impls@.len(),
            forall|g: u64|
                r@.contains(g) <==> exists|k2: int, q2: int|
                    #![trigger impls@[k2].1@[q2]]
                    0 <= k2 < k && 0 <= q2 < impls@[k2].1@.len() && generic_of(impls@, k2, q2, imp, d)
                        && impls@[k2].1@[q2].generic == g,
            r@.len() >= 1 ==> exists|k2: int, q2: int|
                #![trigger impls@[k2].1@[q2]]
                0 <= k2 < k && 0 <= q2 < impls@[k2].1@.len() && generic_of(impls@, k2, q2, imp, d),
            r@.len() >= 2 ==> grouped(impls@, imp),
        decreases impls@.len() - k,
    {
        let ps = &impls[k].1;
        let i = impls[k].0;
        let mut q: usize = 0;
        while q < ps.len()
            invariant
                k < impls@.len(),
                ps@ == impls@[k as int].1@,
                i == impls@[k as int].0,
                q <= ps@.len(),
                forall|g: u64|
                    r@.contains(g) <==> (exists|k2: int, q2: int|
                        #![trigger impls@[k2].1@[q2]]
                        0 <= k2 < k && 0 <= q2 < impls@[k2].1@.len() && generic_of(impls@, k2, q2, imp, d)
                            && impls@[k2].1@[q2].generic == g) || (exists|q2: int|
                        0 <= q2 < q && #[trigger] generic_of(impls@, k as int, q2, imp, d)
                            && impls@[k as int].1@[q2].generic == g),
                r@.len() >= 1 ==> (exists|k2: int, q2: int|
                    #![trigger impls@[k2].1@[q2]]
                    0 <= k2 < k && 0 <= q2 < impls@[k2].1@.len() && generic_of(impls@, k2, q2, imp, d))
                    || (exists|q2: int| 0 <= q2 < q && #[trigger] generic_of(impls@, k as int, q2, imp, d)),
                r@.len() >= 2 ==> grouped(impls@, imp),
            decreases ps@.len() - q,
        {
            let ghost r0 = r@;
            let pq = ps[q];
            if i == imp && pq.shape == SimpleType::GenericParam && pq.generic_def == Some(d) {
                r.push(pq.generic);
                proof {
                    assert(generic_of(impls@, k as int, q as int, imp, d));
                    if r0.len() >= 1 {
                        if exists|k2: int, q2: int|
                            #![trigger impls@[k2].1@[q2]]
                            0 <= k2 < k && 0 <= q2 < impls@[k2].1@.len() && generic_of(impls@, k2, q2, imp, d) {
                            let (k2, q2) = choose|k2: int, q2: int|
                                #![trigger impls@[k2].1@[q2]]
                                0 <= k2 < k && 0 <= q2 < impls@[k2].1@.len() && generic_of(impls@, k2, q2, imp, d);
                            assert(impls@[k2].1@[q2] == impls@[k2].1@[q2]);
                            assert(impls@[k as int].1@[q as int] == impls@[k as int].1@[q as int]);
                            assert(grouped(impls@, imp));
                        } else {
                            let q2 = choose|q2: int| 0 <= q2 < q && #[trigger] generic_of(impls@, k as int, q2, imp, d);
                            assert(impls@[k as int].1@[q2] == impls@[k as int].1@[q2]);
                            assert(impls@[k as int].1@[q as int] == impls@[k as int].1@[q as int]);
                            assert(grouped(impls@, imp));
                        }
                    }
                }
            }
            proof {
                assert forall|g: u64|
                    r@.contains(g) <==> (exists|k2: int, q2: int|
                        #![trigger impls@[k2].1@[q2]]
                        0 <= k2 < k && 0 <= q2 < impls@[k2].1@.len() && generic_of(impls@, k2, q2, imp, d)
                            && impls@[k2].1@[q2].generic == g) || (exists|q2: int|
                        0 <= q2 < q + 1 && #[trigger] generic_of(impls@, k as int, q2, imp, d)
                            && impls@[k as int].1@[q2].generic == g) by {
                    if r@ != r0 {
                        lemma_contains_push(r0, pq.generic, g);
                    }
                    if generic_of(impls@, k as int, q as int, imp, d) && impls@[k as int].1@[q as int].generic == g {
                        assert(r@.contains(g));
                    }
                    if exists|q2: int| 0 <= q2 < q + 1 && #[trigger] generic_of(impls@, k as int, q2, imp, d)
                        && impls@[k as int].1@[q2].generic == g {
                        let q2 = choose|q2: int| 0 <= q2 < q + 1 && #[trigger] generic_of(impls@, k as int, q2, imp, d)
                            && impls@[k as int].1@[q2].generic == g;
                        if q2 < q {
                            assert(r0.contains(g));
                        }
                    }
                }
            }
            q = q + 1;
        }
        proof {
            assert forall|g: u64|
                r@.contains(g) <==> exists|k2: int, q2: int|
                    #![trigger impls@[k2].1@[q2]]
                    0 <= k2 < k + 1 && 0 <= q2 < impls@[k2].1@.len() && generic_of(impls@, k2, q2, imp, d)
                        && impls@[k2].1@[q2].generic == g by {
                if exists|q2: int| 0 <= q2 < ps@.len() && #[trigger] generic_of(impls@, k as int, q2, imp, d)
                    && impls@[k as int].1@[q2].generic == g {
                    let q2 = choose|q2: int| 0 <= q2 < ps@.len() && #[trigger] generic_of(impls@, k as int, q2, imp, d)
                        && impls@[k as int].1@[q2].generic == g;
                    assert(impls@[k as int].1@[q2] == impls@[k as int].1@[q2]);
                }
                if exists|k2: int, q2: int|
                    #![trigger impls@[k2].1@[q2]]
                    0 <= k2 < k + 1 && 0 <= q2 < impls@[k2].1@.len() && generic_of(impls@, k2, q2, imp, d)
                        && impls@[k2].1@[q2].generic == g {
                    let (k2, q2) = choose|k2: int, q2: int|
                        #![trigger impls@[k2].1@[q2]]
                        0 <= k2 < k + 1 && 0 <= q2 < impls@[k2].1@.len() && generic_of(impls@, k2, q2, imp, d)
                            && impls@[k2].1@[q2].generic == g;
                    if k2 == k {
                        assert(generic_of(impls@, k as int, q2, imp, d));
                    }
                }
            }
            if r@.len() >= 1 {
                if exists|q2: int| 0 <= q2 < ps@.len() && #[trigger] generic_of(impls@, k as int, q2, imp, d) {
                    let q2 = choose|q2: int| 0 <= q2 < ps@.len() && #[trigger] generic_of(impls@, k as int, q2, imp, d);
                    assert(impls@[k as int].1@[q2] == impls@[k as int].1@[q2]);
                } else {
                    let (k2, q2) = choose|k2: int, q2: int|
                        #![trigger impls@[k2].1@[q2]]
                        0 <= k2 < k && 0 <= q2 < impls@[k2].1@.len() && generic_of(impls@, k2, q2, imp, d);
                    assert(impls@[k2].1@[q2] == impls@[k2].1@[q2]);
                }
            }
        }
        k = k + 1;
    }
    r
}


/// The table of the implementations.
fn impls_table(impls: &Vec<(u64, Vec<ImplParam>)>) -> (t: ImplsByGenerics)
    ensures
        table_holds(t@, impls@),
        forall|x: int, e: int|
            0 <= x < t@.len() && 0 <= e < t@[x].1@.len() ==> (#[trigger] t@[x].1@[e]).1@.no_duplicates(),
{
    let gs = poly_params(impls);
    let mut t: ImplsByGenerics = Vec::new();
    let mut j: usize = 0;
    while j < gs.len()
        invariant
            j <= gs@.len(),
            t@.len() == j,
            forall|x: int| 0 <= x < j ==> #[trigger] t@[x].0 == gs@[x],
            forall|x: int| 0 <= x < j ==> entries_hold(impls@, #[trigger] t@[x].0, t@[x].1@),
            forall|x: int, e: int|
                0 <= x < j && 0 <= e < t@[x].1@.len() ==> (#[trigger] t@[x].1@[e]).1@.no_duplicates(),
        decreases gs@.len() - j,
    {
        let es = entries_for(impls, gs[j]);
        t.push((gs[j], es));
        proof {
            assert(t@[j as int].0 == gs@[j as int]);
        }
        j = j + 1;
    }
    proof {
        assert forall|x: int, y: int| 0 <= x < y < t@.len() implies #[trigger] t@[x].0 != #[trigger] t@[y].0 by {
            assert(gs@[x] != gs@[y]);
        }
        assert forall|g: u64| (exists|x: int| 0 <= x < t@.len() && #[trigger] t@[x].0 == g) <==> is_param(impls@, g) by {
            if exists|x: int| 0 <= x < t@.len() && #[trigger] t@[x].0 == g {
                let x = choose|x: int| 0 <= x < t@.len() && #[trigger] t@[x].0 == g;
                assert(gs@[x] == g);
                assert(gs@.contains(g));
            }
            if is_param(impls@, g) {
                assert(gs@.contains(g));
                let x = choose|x: int| 0 <= x < gs@.len() && gs@[x] == g;
                assert(t@[x].0 == g);
            }
        }
    }
    t
}

/// The generic arguments `g` give every parameter that the implementations
/// fill in an argument.
pub open spec fn covers_params(impls: Seq<(u64, Vec<ImplParam>)>, g: Map<u64, SimpleType>) -> bool {
    forall|p: u64| is_param(impls, p) ==> #[trigger] g.contains_key(p)
}

/// The implementation `i` fits the argument of shape `a` at `p`: the
/// argument is unknown, or `i` gives `p` that shape or a generic one.
pub open spec fn fits_impl(impls: Seq<(u64, Vec<ImplParam>)>, i: u64, p: u64, a: SimpleType) -> bool {
    if a == SimpleType::Var {
        is_impl(impls, i)
    } else {
        shaped(impls, i, p, a) || shaped(impls, i, p, SimpleType::GenericParam)
    }
}

/// The implementation `i` fits every argument of `g`.
pub open spec fn fits_every(impls: Seq<(u64, Vec<ImplParam>)>, i: u64, g: Map<u64, SimpleType>) -> bool {
    forall|p: u64| is_param(impls, p) ==> #[trigger] fits_impl(impls, i, p, g[p])
}

/// For generic arguments that give every parameter an argument, the node
/// names just the implementations that fit every argument.
pub open spec fn names_fitting(n: StateMachineOrLeaves, impls: Seq<(u64, Vec<ImplParam>)>) -> bool {
    forall|g: Map<u64, SimpleType>|
        #[trigger] covers_params(impls, g) ==> node_defined(n, g) && forall|i: u64|
            #[trigger] node_candidates(n, g).contains(i) <==> is_impl(impls, i) && fits_every(
                impls,
                i,
                g,
            )
}

proof fn lemma_fits_entry(impls: Seq<(u64, Vec<ImplParam>)>, p: u64, es: Seq<(SimpleType, Vec<u64>)>, a: SimpleType, i: u64)
    requires
        entries_hold(impls, p, es),
    ensures
        fits(es, a, i) == fits_impl(impls, i, p, a),
{
    lemma_first_entry(es, a);
    lemma_first_entry(es, SimpleType::GenericParam);
    lemma_has_shape_some(impls, p, a);
    lemma_has_shape_some(impls, p, SimpleType::GenericParam);
    assert(first_entry(es, a) >= 0 <==> (a == SimpleType::Var || has_shape(impls, p, a)));
    assert(first_entry(es, SimpleType::GenericParam) >= 0 <==> has_shape(impls, p, SimpleType::GenericParam));
    let k = first_entry(es, a);
    let kg = first_entry(es, SimpleType::GenericParam);
    if k >= 0 {
        assert(entry_holds(impls, p, es[k].0, es[k].1@));
    }
    if kg >= 0 {
        assert(entry_holds(impls, p, es[kg].0, es[kg].1@));
    }
    if !has_shape(impls, p, a) {
        assert(!shaped(impls, i, p, a));
    }
    if !has_shape(impls, p, SimpleType::GenericParam) {
        assert(!shaped(impls, i, p, SimpleType::GenericParam));
    }
}

/// The state machine built from the table of the implementations names
/// just the implementations that fit every argument.
proof fn lemma_table_law(
    n: StateMachineOrLeaves,
    t: Seq<(u64, Vec<(SimpleType, Vec<u64>)>)>,
    impls: Seq<(u64, Vec<ImplParam>)>,
    all: Set<u64>,
)
    requires
        table_holds(t, impls),
        machine_law(n, t, Seq::new(t.len(), |j: int| true), all),
        forall|i: u64| all.contains(i) <==> is_impl(impls, i),
    ensures
        names_fitting(n, impls),
{
    let live = Seq::new(t.len(), |j: int| true);
    assert forall|g: Map<u64, SimpleType>| #[trigger] covers_params(impls, g) implies node_defined(n, g) && forall|i: u64|
        #[trigger] node_candidates(n, g).contains(i) <==> is_impl(impls, i) && fits_every(impls, i, g) by {
        assert forall|j: int| 0 <= j < t.len() && live[j] implies g.contains_key(#[trigger] t[j].0) by {
            assert(is_param(impls, t[j].0));
        }
        assert(covers(t, live, g));
        assert forall|i: u64| #[trigger] node_candidates(n, g).contains(i) <==> is_impl(impls, i) && fits_every(impls, i, g) by {
            assert(node_candidates(n, g).contains(i) <==> all.contains(i) && fits_all(t, live, g, i));
            if fits_all(t, live, g, i) {
                assert forall|p: u64| is_param(impls, p) implies #[trigger] fits_impl(impls, i, p, g[p]) by {
                    let j = choose|j: int| 0 <= j < t.len() && #[trigger] t[j].0 == p;
                    assert(fits(t[j].1@, g[t[j].0], i));
                    lemma_fits_entry(impls, p, t[j].1@, g[p], i);
                }
            }
            if fits_every(impls, i, g) {
                assert forall|j: int| 0 <= j < t.len() && live[j] implies #[trigger] fits(t[j].1@, g[t[j].0], i) by {
                    assert(is_param(impls, t[j].0));
                    assert(fits_impl(impls, i, t[j].0, g[t[j].0]));
                    lemma_fits_entry(impls, t[j].0, t[j].1@, g[t[j].0], i);
                }
            }
        }
    }
}


/// The poly's parameter `p` is, in the implementation `i`, the generic
/// parameter defined at `d`.
pub open spec fn in_group(impls: Seq<(u64, Vec<ImplParam>)>, i: u64, d: u64, p: u64) -> bool {
    exists|k: int, q: int|
        #![trigger impls[k].1@[q]]
        0 <= k < impls.len() && 0 <= q < impls[k].1@.len() && generic_of(impls, k, q, i, d)
            && impls[k].1@[q].generic == p
}

/// The arguments `g` give no two of the poly's parameters that one generic
/// parameter of the implementation `i` stands for two different data types.
pub open spec fn consistent(impls: Seq<(u64, Vec<ImplParam>)>, i: u64, g: Map<u64, SimpleType>) -> bool {
    forall|d: u64, p1: u64, p2: u64|
        #![trigger in_group(impls, i, d, p1), in_group(impls, i, d, p2)]
        in_group(impls, i, d, p1) && in_group(impls, i, d, p2) && g[p1] is Data && g[p2] is Data
            ==> g[p1] == g[p2]
}

/// For generic arguments that give every parameter an argument, the node
/// names only implementations that fit every argument, and every
/// implementation that fits every argument and whose generic parameters
/// get one data type each.
pub open spec fn solver_law(n: StateMachineOrLeaves, impls: Seq<(u64, Vec<ImplParam>)>) -> bool {
    forall|g: Map<u64, SimpleType>|
        #[trigger] covers_params(impls, g) ==> node_defined(n, g) && forall|i: u64|
            (#[trigger] node_candidates(n, g).contains(i) ==> is_impl(impls, i) && fits_every(
                impls,
                i,
                g,
            )) && (is_impl(impls, i) && fits_every(impls, i, g) && consistent(impls, i, g)
                ==> node_candidates(n, g).contains(i))
}

/// Each implementation occurs once, as the key of a map would.
pub open spec fn impls_keyed(impls: Seq<(u64, Vec<ImplParam>)>) -> bool {
    forall|k1: int, k2: int|
        0 <= k1 < k2 < impls.len() ==> #[trigger] impls[k1].0 != #[trigger] impls[k2].0
}

/// The implementations of a poly, and the state machine that narrows them
/// down for a call.
pub struct PolySolver {
    /// Each implementation, by its definition, with how it fills in the
    /// poly's generic parameters.
    pub impls: Vec<(u64, Vec<ImplParam>)>,
    pub state_machine: Option<StateMachine>,
}

/// Cutting an implementation where the parameters `gds` would get two data
/// types names the same as before for arguments that give each of `gds` one
/// data type, the `target` if there is one.
proof fn lemma_applied_keeps_consistent(
    s: StateMachine,
    s2: StateMachine,
    imp: u64,
    gds: Seq<u64>,
    target: Option<SimpleType>,
    g: Map<u64, SimpleType>,
)
    requires
        machine_applied(s, s2, imp, gds, target, false),
        forall|p1: u64, p2: u64|
            #![trigger gds.contains(p1), gds.contains(p2)]
            gds.contains(p1) && gds.contains(p2) && g[p1] is Data && g[p2] is Data ==> g[p1] == g[p2],
        target is Some ==> target->0 is Data && forall|p: u64|
            gds.contains(p) && g[p] is Data ==> #[trigger] g[p] == target->0,
    ensures
        node_candidates(StateMachineOrLeaves::StateMachine(s2), g) == node_candidates(
            StateMachineOrLeaves::StateMachine(s),
            g,
        ),
    decreases s,
{
    let bs = s.branches@;
    let bs2 = s2.branches@;
    let in_gds = gds.contains(s.generic_param);
    assert(branches_applied(bs, bs2, bs.len() as int, imp, gds, in_gds, target, false));
    lemma_branches_applied_at(bs, bs2, bs.len() as int, imp, gds, in_gds, target, false);
    let a = g[s.generic_param];
    assert forall|i: int| 0 <= i < bs2.len() implies #[trigger] bs2[i].0 == bs[i].0 by {}
    lemma_same_shapes_find(bs2, bs, a);
    lemma_find_branch(bs, a);
    let k = find_branch(bs, a);
    if 0 <= k < bs.len() {
        let t = bs[k].0;
        assert(t == a);
        assert(node_applied(bs[k].1, bs2[k].1, imp, gds, t, in_gds, target, false));
        assert(node_candidates(StateMachineOrLeaves::StateMachine(s), g) == node_candidates(bs[k].1, g));
        assert(node_candidates(StateMachineOrLeaves::StateMachine(s2), g) == node_candidates(bs2[k].1, g));
        if in_gds && target is Some && t is Data {
            assert(g[s.generic_param] == target->0);
        }
        assert(!leaves_cut(t, in_gds, target, false));
        assert(child_flag(t, in_gds, target, false) == false);
        match bs[k].1 {
            StateMachineOrLeaves::Leaves(l) => {},
            StateMachineOrLeaves::StateMachine(c) => {
                let c2 = bs2[k].1->StateMachine_0;
                assert(decreases_to!(s => s.branches));
                assert(decreases_to!(s.branches => s.branches@));
                assert(decreases_to!(s.branches@ => s.branches@[k]));
                assert(decreases_to!(s.branches@[k] => s.branches@[k].1));
                assert(decreases_to!(s.branches@[k].1 => c));
                let ct = child_target(t, in_gds, target);
                if in_gds && target is None && t is Data {
                    assert forall|p: u64| gds.contains(p) && g[p] is Data implies #[trigger] g[p] == ct->0 by {
                        assert(gds.contains(s.generic_param));
                    }
                }
                lemma_applied_keeps_consistent(c, c2, imp, gds, ct, g);
            },
        }
    }
}

/// Following `g`, every node on the way takes a branch for its argument,
/// none its default.
pub open spec fn branch_path(n: StateMachineOrLeaves, g: Map<u64, SimpleType>) -> bool
    decreases n,
{
    match n {
        StateMachineOrLeaves::Leaves(_) => true,
        StateMachineOrLeaves::StateMachine(s) => {
            let k = find_branch(s.branches@, g[s.generic_param]);
            proof {
                assert(decreases_to!(n => s));
                assert(decreases_to!(s => s.branches));
                assert(decreases_to!(s.branches => s.branches@));
            }
            0 <= k < s.branches@.len() && {
                proof {
                    assert(decreases_to!(s.branches@ => s.branches@[k]));
                }
                branch_path(s.branches@[k].1, g)
            }
        },
    }
}

/// Following the branches for `g`, a node tests the argument of `p`.
pub open spec fn tested(n: StateMachineOrLeaves, g: Map<u64, SimpleType>, p: u64) -> bool
    decreases n,
{
    match n {
        StateMachineOrLeaves::Leaves(_) => false,
        StateMachineOrLeaves::StateMachine(s) => {
            let k = find_branch(s.branches@, g[s.generic_param]);
            proof {
                assert(decreases_to!(n => s));
                assert(decreases_to!(s => s.branches));
                assert(decreases_to!(s.branches => s.branches@));
            }
            s.generic_param == p || (0 <= k < s.branches@.len() && {
                proof {
                    assert(decreases_to!(s.branches@ => s.branches@[k]));
                }
                tested(s.branches@[k].1, g, p)
            })
        },
    }
}

/// For generic arguments `g` on which the node takes a branch at every
/// node it passes, the implementation `i` is not named where the node tests
/// two of the poly's parameters that `i`'s generic parameter defined at `d`
/// stands for, and their arguments are two different data types.
pub open spec fn cut_law_for(n: StateMachineOrLeaves, impls: Seq<(u64, Vec<ImplParam>)>, i: u64, d: u64) -> bool {
    forall|g: Map<u64, SimpleType>, p1: u64, p2: u64|
        #![trigger node_candidates(n, g), in_group(impls, i, d, p1), in_group(impls, i, d, p2)]
        branch_path(n, g) && tested(n, g, p1) && tested(n, g, p2) && in_group(impls, i, d, p1)
            && in_group(impls, i, d, p2) && g[p1] is Data && g[p2] is Data && g[p1] != g[p2]
            ==> !node_candidates(n, g).contains(i)
}

/// `cut_law_for` every implementation and every generic parameter of it.
pub open spec fn cut_law(n: StateMachineOrLeaves, impls: Seq<(u64, Vec<ImplParam>)>) -> bool {
    forall|i: u64, d: u64| #[trigger] cut_law_for(n, impls, i, d)
}

/// What the cut of `imp` has to remove on the way for `g`: the flag is set;
/// or a parameter of `gds` that the node tests has another data type than
/// the target; or two of them have two different data types.
pub open spec fn conflict(
    n: StateMachineOrLeaves,
    g: Map<u64, SimpleType>,
    gds: Seq<u64>,
    target: Option<SimpleType>,
    unr: bool,
) -> bool {
    ||| unr
    ||| exists|p: u64|
        #![trigger tested(n, g, p)]
        gds.contains(p) && tested(n, g, p) && g[p] is Data && target is Some && g[p] != target->0
    ||| exists|p1: u64, p2: u64|
        #![trigger tested(n, g, p1), tested(n, g, p2)]
        gds.contains(p1) && gds.contains(p2) && tested(n, g, p1) && tested(n, g, p2) && g[p1] is Data
            && g[p2] is Data && g[p1] != g[p2]
}

/// Where the way for `g` takes a branch at every node and meets a
/// conflict, the cut has removed `imp`.
proof fn lemma_cut_excludes(
    s: StateMachine,
    s2: StateMachine,
    imp: u64,
    gds: Seq<u64>,
    target: Option<SimpleType>,
    unr: bool,
    g: Map<u64, SimpleType>,
)
    requires
        machine_applied(s, s2, imp, gds, target, unr),
        target is None ==> !unr,
        target is Some ==> target->0 is Data,
        branch_path(StateMachineOrLeaves::StateMachine(s2), g),
        conflict(StateMachineOrLeaves::StateMachine(s2), g, gds, target, unr),
    ensures
        !node_candidates(StateMachineOrLeaves::StateMachine(s2), g).contains(imp),
    decreases s,
{
    let n2 = StateMachineOrLeaves::StateMachine(s2);
    let bs = s.branches@;
    let bs2 = s2.branches@;
    let in_gds = gds.contains(s.generic_param);
    assert(branches_applied(bs, bs2, bs.len() as int, imp, gds, in_gds, target, unr));
    lemma_branches_applied_at(bs, bs2, bs.len() as int, imp, gds, in_gds, target, unr);
    let a = g[s.generic_param];
    assert(s2.generic_param == s.generic_param);
    assert forall|i: int| 0 <= i < bs2.len() implies #[trigger] bs2[i].0 == bs[i].0 by {}
    lemma_same_shapes_find(bs2, bs, a);
    lemma_find_branch(bs2, a);
    let k = find_branch(bs2, a);
    assert(0 <= k < bs2.len());
    let t = bs[k].0;
    assert(t == a);
    let c2n = bs2[k].1;
    assert(node_applied(bs[k].1, c2n, imp, gds, t, in_gds, target, unr));
    assert(node_candidates(n2, g) == node_candidates(c2n, g));
    assert(branch_path(c2n, g));
    assert(forall|p: u64| #[trigger] tested(n2, g, p) == (s.generic_param == p || tested(c2n, g, p)));
    match bs[k].1 {
        StateMachineOrLeaves::Leaves(l) => {
            assert(forall|p: u64| !#[trigger] tested(c2n, g, p));
            if !unr {
                if exists|p: u64|
                    #![trigger tested(n2, g, p)]
                    gds.contains(p) && tested(n2, g, p) && g[p] is Data && target is Some && g[p]
                        != target->0 {
                    let p = choose|p: u64|
                        #![trigger tested(n2, g, p)]
                        gds.contains(p) && tested(n2, g, p) && g[p] is Data && target is Some && g[p]
                            != target->0;
                    assert(p == s.generic_param);
                } else {
                    let (p1, p2) = choose|p1: u64, p2: u64|
                        #![trigger tested(n2, g, p1), tested(n2, g, p2)]
                        gds.contains(p1) && gds.contains(p2) && tested(n2, g, p1) && tested(n2, g, p2)
                            && g[p1] is Data && g[p2] is Data && g[p1] != g[p2];
                    assert(p1 == s.generic_param && p2 == s.generic_param);
                }
            }
            assert(leaves_cut(t, in_gds, target, unr));
            let l2 = c2n->Leaves_0;
            lemma_without_contains(l@, imp, imp);
        },
        StateMachineOrLeaves::StateMachine(c) => {
            let c2 = c2n->StateMachine_0;
            assert(decreases_to!(s => s.branches));
            assert(decreases_to!(s.branches => s.branches@));
            assert(decreases_to!(s.branches@ => s.branches@[k]));
            assert(decreases_to!(s.branches@[k] => s.branches@[k].1));
            assert(decreases_to!(s.branches@[k].1 => c));
            let ct = child_target(t, in_gds, target);
            let cf = child_flag(t, in_gds, target, unr);
            assert(machine_applied(c, c2, imp, gds, ct, cf));
            if !cf {
                assert(!unr);
                if exists|p: u64|
                    #![trigger tested(n2, g, p)]
                    gds.contains(p) && tested(n2, g, p) && g[p] is Data && target is Some && g[p]
                        != target->0 {
                    let p = choose|p: u64|
                        #![trigger tested(n2, g, p)]
                        gds.contains(p) && tested(n2, g, p) && g[p] is Data && target is Some && g[p]
                            != target->0;
                    if p == s.generic_param {
                        assert(cf);
                    } else {
                        assert(tested(c2n, g, p));
                        assert(ct == target);
                    }
                } else {
                    let (p1, p2) = choose|p1: u64, p2: u64|
                        #![trigger tested(n2, g, p1), tested(n2, g, p2)]
                        gds.contains(p1) && gds.contains(p2) && tested(n2, g, p1) && tested(n2, g, p2)
                            && g[p1] is Data && g[p2] is Data && g[p1] != g[p2];
                    if p1 == s.generic_param {
                        assert(p2 != s.generic_param);
                        assert(tested(c2n, g, p2));
                        assert(ct == Some(g[p1]));
                    } else if p2 == s.generic_param {
                        assert(tested(c2n, g, p1));
                        assert(ct == Some(g[p2]));
                    } else {
                        assert(tested(c2n, g, p1) && tested(c2n, g, p2));
                    }
                }
            }
            lemma_cut_excludes(c, c2, imp, gds, ct, cf, g);
        },
    }
}

/// A cut keeps the nodes and branches: every way takes the same branches
/// and tests the same parameters.
proof fn lemma_applied_same_paths(
    s: StateMachine,
    s2: StateMachine,
    imp: u64,
    gds: Seq<u64>,
    target: Option<SimpleType>,
    unr: bool,
    g: Map<u64, SimpleType>,
    p: u64,
)
    requires
        machine_applied(s, s2, imp, gds, target, unr),
    ensures
        branch_path(StateMachineOrLeaves::StateMachine(s2), g) == branch_path(
            StateMachineOrLeaves::StateMachine(s),
            g,
        ),
        tested(StateMachineOrLeaves::StateMachine(s2), g, p) == tested(
            StateMachineOrLeaves::StateMachine(s),
            g,
            p,
        ),
    decreases s,
{
    let bs = s.branches@;
    let bs2 = s2.branches@;
    let in_gds = gds.contains(s.generic_param);
    assert(branches_applied(bs, bs2, bs.len() as int, imp, gds, in_gds, target, unr));
    lemma_branches_applied_at(bs, bs2, bs.len() as int, imp, gds, in_gds, target, unr);
    let a = g[s.generic_param];
    assert forall|i: int| 0 <= i < bs2.len() implies #[trigger] bs2[i].0 == bs[i].0 by {}
    lemma_same_shapes_find(bs2, bs, a);
    lemma_find_branch(bs, a);
    let k = find_branch(bs, a);
    let n = StateMachineOrLeaves::StateMachine(s);
    let n2 = StateMachineOrLeaves::StateMachine(s2);
    assert(s2.generic_param == s.generic_param);
    if 0 <= k < bs.len() {
        assert(node_applied(bs[k].1, bs2[k].1, imp, gds, bs[k].0, in_gds, target, unr));
        assert(branch_path(n, g) == branch_path(bs[k].1, g));
        assert(branch_path(n2, g) == branch_path(bs2[k].1, g));
        assert(tested(n, g, p) == (s.generic_param == p || tested(bs[k].1, g, p)));
        assert(tested(n2, g, p) == (s.generic_param == p || tested(bs2[k].1, g, p)));
        match bs[k].1 {
            StateMachineOrLeaves::Leaves(_) => {},
            StateMachineOrLeaves::StateMachine(c) => {
                let c2 = bs2[k].1->StateMachine_0;
                assert(decreases_to!(s => s.branches));
                assert(decreases_to!(s.branches => s.branches@));
                assert(decreases_to!(s.branches@ => s.branches@[k]));
                assert(decreases_to!(s.branches@[k] => s.branches@[k].1));
                assert(decreases_to!(s.branches@[k].1 => c));
                lemma_applied_same_paths(
                    c,
                    c2,
                    imp,
                    gds,
                    child_target(bs[k].0, in_gds, target),
                    child_flag(bs[k].0, in_gds, target, unr),
                    g,
                    p,
                );
            },
        }
    } else {
        assert(!branch_path(n, g) && !branch_path(n2, g));
        assert(tested(n, g, p) == (s.generic_param == p));
        assert(tested(n2, g, p) == (s.generic_param == p));
    }
}

/// A later cut keeps what an earlier one removed.
proof fn lemma_cut_law_kept(
    s: StateMachine,
    s2: StateMachine,
    imp: u64,
    gds: Seq<u64>,
    impls: Seq<(u64, Vec<ImplParam>)>,
    i: u64,
    d: u64,
)
    requires
        machine_applied(s, s2, imp, gds, None, false),
        cut_law_for(StateMachineOrLeaves::StateMachine(s), impls, i, d),
    ensures
        cut_law_for(StateMachineOrLeaves::StateMachine(s2), impls, i, d),
{
    let n = StateMachineOrLeaves::StateMachine(s);
    let n2 = StateMachineOrLeaves::StateMachine(s2);
    assert forall|g: Map<u64, SimpleType>, p1: u64, p2: u64|
        #![trigger node_candidates(n2, g), in_group(impls, i, d, p1), in_group(impls, i, d, p2)]
        branch_path(n2, g) && tested(n2, g, p1) && tested(n2, g, p2) && in_group(impls, i, d, p1)
            && in_group(impls, i, d, p2) && g[p1] is Data && g[p2] is Data && g[p1] != g[p2]
            implies !node_candidates(n2, g).contains(i) by {
        lemma_applied_same_paths(s, s2, imp, gds, None, false, g, p1);
        lemma_applied_same_paths(s, s2, imp, gds, None, false, g, p2);
        lemma_applied_names_fewer(s, s2, imp, gds, None, false, g);
        lemma_without_contains(node_candidates(n, g), imp, i);
        assert(!node_candidates(n, g).contains(i));
    }
}

/// The cut of `imp` where its generic parameter defined at `d` would get
/// two data types obeys `cut_law_for` that parameter.
proof fn lemma_cut_law_new(
    s: StateMachine,
    s2: StateMachine,
    imp: u64,
    d: u64,
    gds: Seq<u64>,
    impls: Seq<(u64, Vec<ImplParam>)>,
)
    requires
        machine_applied(s, s2, imp, gds, None, false),
        forall|p: u64| #[trigger] gds.contains(p) <==> in_group(impls, imp, d, p),
    ensures
        cut_law_for(StateMachineOrLeaves::StateMachine(s2), impls, imp, d),
{
    let n2 = StateMachineOrLeaves::StateMachine(s2);
    assert forall|g: Map<u64, SimpleType>, p1: u64, p2: u64|
        #![trigger node_candidates(n2, g), in_group(impls, imp, d, p1), in_group(impls, imp, d, p2)]
        branch_path(n2, g) && tested(n2, g, p1) && tested(n2, g, p2) && in_group(impls, imp, d, p1)
            && in_group(impls, imp, d, p2) && g[p1] is Data && g[p2] is Data && g[p1] != g[p2]
            implies !node_candidates(n2, g).contains(imp) by {
        assert(gds.contains(p1) && gds.contains(p2));
        assert(conflict(n2, g, gds, None, false));
        lemma_cut_excludes(s, s2, imp, gds, None, false, g);
    }
}

/// A generic parameter that stands for one parameter of the poly at most
/// meets no conflict.
proof fn lemma_cut_law_single(
    n: StateMachineOrLeaves,
    imp: u64,
    d: u64,
    gds: Seq<u64>,
    impls: Seq<(u64, Vec<ImplParam>)>,
)
    requires
        gds.len() < 2,
        forall|p: u64| #[trigger] gds.contains(p) <==> in_group(impls, imp, d, p),
    ensures
        cut_law_for(n, impls, imp, d),
{
    assert forall|g: Map<u64, SimpleType>, p1: u64, p2: u64|
        #![trigger node_candidates(n, g), in_group(impls, imp, d, p1), in_group(impls, imp, d, p2)]
        branch_path(n, g) && tested(n, g, p1) && tested(n, g, p2) && in_group(impls, imp, d, p1)
            && in_group(impls, imp, d, p2) && g[p1] is Data && g[p2] is Data && g[p1] != g[p2]
            implies !node_candidates(n, g).contains(imp) by {
        assert(gds.contains(p1) && gds.contains(p2));
        let j1 = choose|j: int| 0 <= j < gds.len() && gds[j] == p1;
        let j2 = choose|j: int| 0 <= j < gds.len() && gds[j] == p2;
        assert(j1 == j2);
    }
}

/// Cutting an implementation where one of its generic parameters, defined
/// at `d`, would get two data types keeps the law.
proof fn lemma_cut_keeps_law(
    s: StateMachine,
    s2: StateMachine,
    imp: u64,
    d: u64,
    gds: Seq<u64>,
    impls: Seq<(u64, Vec<ImplParam>)>,
)
    requires
        solver_law(StateMachineOrLeaves::StateMachine(s), impls),
        machine_applied(s, s2, imp, gds, None, false),
        forall|p: u64| #[trigger] gds.contains(p) <==> in_group(impls, imp, d, p),
    ensures
        solver_law(StateMachineOrLeaves::StateMachine(s2), impls),
{
    let n = StateMachineOrLeaves::StateMachine(s);
    let n2 = StateMachineOrLeaves::StateMachine(s2);
    assert forall|g: Map<u64, SimpleType>| #[trigger] covers_params(impls, g) implies node_defined(n2, g) && forall|i: u64|
        (#[trigger] node_candidates(n2, g).contains(i) ==> is_impl(impls, i) && fits_every(impls, i, g))
            && (is_impl(impls, i) && fits_every(impls, i, g) && consistent(impls, i, g) ==> node_candidates(n2, g).contains(i)) by {
        lemma_applied_names_fewer(s, s2, imp, gds, None, false, g);
        assert forall|i: u64|
            (#[trigger] node_candidates(n2, g).contains(i) ==> is_impl(impls, i) && fits_every(impls, i, g))
                && (is_impl(impls, i) && fits_every(impls, i, g) && consistent(impls, i, g) ==> node_candidates(n2, g).contains(i)) by {
            lemma_without_contains(node_candidates(n, g), imp, i);
            assert(node_candidates(n, g).contains(i) ==> is_impl(impls, i) && fits_every(impls, i, g));
            if is_impl(impls, i) && fits_every(impls, i, g) && consistent(impls, i, g) {
                assert(node_candidates(n, g).contains(i));
                if i == imp {
                    assert forall|p1: u64, p2: u64|
                        #![trigger gds.contains(p1), gds.contains(p2)]
                        gds.contains(p1) && gds.contains(p2) && g[p1] is Data && g[p2] is Data implies g[p1] == g[p2] by {
                        assert(in_group(impls, imp, d, p1) && in_group(impls, imp, d, p2));
                    }
                    lemma_applied_keeps_consistent(s, s2, imp, gds, None, g);
                }
            }
        }
    }
}

impl PolySolver {
    pub fn new() -> (r: PolySolver)
        ensures
            r.impls@.len() == 0,
            r.state_machine is None,
    {
        PolySolver { impls: Vec::new(), state_machine: None }
    }

    /// Builds the state machine, where there are two implementations or
    /// more: from the table of which implementations fit each shape of each
    /// generic parameter's argument; then each implementation whose generic
    /// parameter stands for two or more of the poly's is cut where those
    /// cannot have one type; then the machine is optimized. Where it ends up
    /// as plain leaves, the solver is left without a machine, so that every
    /// implementation stays a candidate. The machine names the implementations
    /// that fit and whose generic parameters get one data type each
    /// (`solver_law`), each once; it is the optimized form of a machine that,
    /// on every way that takes a branch at each node, names no implementation
    /// whose generic parameter stands for two tested parameters with two
    /// different data types (`cut_law`); a way through a default may keep it.
    pub fn build_state_machine(&mut self)
        requires
            old(self).impls@.len() >= 2 ==> exists|p: u64| is_param(old(self).impls@, p),
            impls_keyed(old(self).impls@),
        ensures
            final(self).impls@ == old(self).impls@,
            old(self).impls@.len() < 2 ==> final(self).state_machine is None,
            old(self).impls@.len() >= 2 ==> exists|pre: StateMachineOrLeaves, n: StateMachineOrLeaves|
                #![trigger solver_law(n, old(self).impls@), cut_law(pre, old(self).impls@)]
                solver_law(n, old(self).impls@) && well_keyed(n) && (forall|
                    g: Map<u64, SimpleType>,
                | #[trigger] node_candidates(n, g).no_duplicates()) && cut_law(pre, old(self).impls@)
                    && opt_rel(pre, n) && same_candidates(n, pre) && match n {
                    StateMachineOrLeaves::StateMachine(sm) => final(self).state_machine == Some(sm),
                    StateMachineOrLeaves::Leaves(_) => final(self).state_machine is None,
                },
    {
        if self.impls.len() < 2 {
            self.state_machine = None;
            return;
        }
        let ghost impls = self.impls@;
        let all = impl_ids(&self.impls);
        let all_set = to_set(&all);
        let t = impls_table(&self.impls);
        let ghost tv = t@;
        proof {
            let p = choose|p: u64| is_param(impls, p);
            let j = choose|j: int| 0 <= j < tv.len() && #[trigger] tv[j].0 == p;
            assert forall|p2: int, x: int, y: int|
                0 <= p2 < tv.len() && 0 <= x < y < tv[p2].1@.len() implies #[trigger] tv[p2].1@[x].0
                    != #[trigger] tv[p2].1@[y].0 by {
                assert(entries_hold(impls, tv[p2].0, tv[p2].1@));
            }
            assert(keys_distinct(tv));
            assert forall|i: u64| all_set@.contains(i) <==> is_impl(impls, i) by {}
        }
        let ghost all_v = all_set@;
        let mut sm = StateMachine::build(t, all_set);
        proof {
            lemma_table_law(StateMachineOrLeaves::StateMachine(sm), tv, impls, all_v);
        }
        let keys = group_keys(&self.impls);
        let mut x: usize = 0;
        while x < keys.len()
            invariant
                impls == self.impls@,
                x <= keys@.len(),
                solver_law(StateMachineOrLeaves::StateMachine(sm), impls),
                well_keyed(StateMachineOrLeaves::StateMachine(sm)),
                forall|j: int|
                    0 <= j < x ==> cut_law_for(
                        StateMachineOrLeaves::StateMachine(sm),
                        impls,
                        (#[trigger] keys@[j]).0,
                        keys@[j].1,
                    ),
            decreases keys@.len() - x,
        {
            let (imp, d) = keys[x];
            let gds = group_of(&self.impls, imp, d);
            proof {
                assert forall|p: u64| #[trigger] gds@.contains(p) <==> in_group(impls, imp, d, p) by {}
            }
            if gds.len() >= 2 {
                let ghost before = sm;
                apply_same_generic_params(&mut sm, imp, gds.as_slice(), None, false);
                proof {
                    lemma_cut_keeps_law(before, sm, imp, d, gds@, impls);
                    lemma_applied_keyed(before, sm, imp, gds@, None, false);
                    assert forall|j: int| 0 <= j < x implies cut_law_for(
                        StateMachineOrLeaves::StateMachine(sm),
                        impls,
                        (#[trigger] keys@[j]).0,
                        keys@[j].1,
                    ) by {
                        lemma_cut_law_kept(before, sm, imp, gds@, impls, keys@[j].0, keys@[j].1);
                    }
                    lemma_cut_law_new(before, sm, imp, d, gds@, impls);
                }
            } else {
                proof {
                    lemma_cut_law_single(StateMachineOrLeaves::StateMachine(sm), imp, d, gds@, impls);
                }
            }
            x = x + 1;
        }
        proof {
            let sn = StateMachineOrLeaves::StateMachine(sm);
            assert forall|i: u64, d: u64| #[trigger] cut_law_for(sn, impls, i, d) by {
                if exists|k: int, q: int|
                    #![trigger impls[k].1@[q]]
                    0 <= k < impls.len() && 0 <= q < impls[k].1@.len() && generic_of(impls, k, q, i, d) {
                    let (k, q) = choose|k: int, q: int|
                        #![trigger impls[k].1@[q]]
                        0 <= k < impls.len() && 0 <= q < impls[k].1@.len() && generic_of(impls, k, q, i, d);
                    assert(has_generic_def(impls, k, q));
                    assert(keys@.contains(generic_key(impls, k, q)));
                    let j = choose|j: int| 0 <= j < keys@.len() && keys@[j] == generic_key(impls, k, q);
                    assert(keys@[j] == (i, d));
                } else {
                    assert forall|g: Map<u64, SimpleType>, p1: u64, p2: u64|
                        #![trigger node_candidates(sn, g), in_group(impls, i, d, p1), in_group(impls, i, d, p2)]
                        branch_path(sn, g) && tested(sn, g, p1) && tested(sn, g, p2) && in_group(impls, i, d, p1)
                            && in_group(impls, i, d, p2) && g[p1] is Data && g[p2] is Data && g[p1] != g[p2]
                            implies !node_candidates(sn, g).contains(i) by {
                        assert(in_group(impls, i, d, p1));
                    }
                }
            }
            assert(cut_law(sn, impls));
        }
        let mut n = StateMachineOrLeaves::StateMachine(sm);
        let ghost n0 = n;
        n.optimize();
        proof {
            assert forall|g: Map<u64, SimpleType>| #[trigger] covers_params(impls, g) implies node_defined(n, g) && forall|i: u64|
                (#[trigger] node_candidates(n, g).contains(i) ==> is_impl(impls, i) && fits_every(impls, i, g))
                    && (is_impl(impls, i) && fits_every(impls, i, g) && consistent(impls, i, g) ==> node_candidates(n, g).contains(i)) by {
                assert(node_defined(n0, g));
                assert(node_candidates(n, g) == node_candidates(n0, g));
            }
            assert(solver_law(n, impls));
        }
        let ghost n1 = n;
        match n {
            StateMachineOrLeaves::StateMachine(s) => {
                self.state_machine = Some(s);
            },
            StateMachineOrLeaves::Leaves(_) => {
                self.state_machine = None;
            },
        }
        proof {
            assert forall|g: Map<u64, SimpleType>| #[trigger] node_candidates(n1, g).no_duplicates() by {
                lemma_keyed_names_once(n1, g);
            }
            assert(solver_law(n1, impls) && well_keyed(n1));
            assert(cut_law(n0, impls) && opt_rel(n0, n1) && same_candidates(n1, n0));
        }
    }
}

} // verus!
