use vstd::prelude::*;

use crate::graph::{Dag, Op, RefValue, Value};
use crate::scalar::ScalarOps;

verus! {

/// The value of a left fold that sums the nodes named by `xs`, starting from
/// the zero code.
pub open spec fn fold_sum<S: ScalarOps>(nodes: Seq<Value>, xs: Seq<RefValue>) -> u64
    decreases xs.len(),
{
    if xs.len() == 0 {
        0u64
    } else {
        S::s_add(fold_sum::<S>(nodes, xs.drop_last()), nodes[xs.last().idx()].value)
    }
}

impl RefValue {
    /// Negation, derived as multiplication by a fresh leaf holding minus
    /// one: two nodes are appended and no new derivative rule exists.
    pub fn neg<S: ScalarOps>(self, dag: &mut Dag, ops: &S) -> (r: RefValue)
        requires
            old(dag).wf(),
            self.in_dag(*old(dag)),
        ensures
            final(dag).wf(),
            final(dag)@ == old(dag)@.push(
                (Value { value: S::s_neg_one(), grad: 0u64, prev: None }),
            ).push(
                (Value {
                    value: S::s_mul(old(dag)@[self.idx()].value, S::s_neg_one()),
                    grad: 0u64,
                    prev: Some(Op::Mul(self, (RefValue { i: old(dag)@.len() as usize }))),
                }),
            ),
            r.i == old(dag)@.len() + 1,
            r.in_dag(*final(dag)),
    {
        let minus = RefValue::new(dag, ops.neg_one());
        self.mul(minus, dag, ops)
    }

    /// Subtraction, derived as addition of a negation: three nodes are
    /// appended.
    pub fn sub<S: ScalarOps>(self, other: RefValue, dag: &mut Dag, ops: &S) -> (r: RefValue)
        requires
            old(dag).wf(),
            self.in_dag(*old(dag)),
            other.in_dag(*old(dag)),
        ensures
            final(dag).wf(),
            final(dag)@ == old(dag)@.push(
                (Value { value: S::s_neg_one(), grad: 0u64, prev: None }),
            ).push(
                (Value {
                    value: S::s_mul(old(dag)@[other.idx()].value, S::s_neg_one()),
                    grad: 0u64,
                    prev: Some(Op::Mul(other, (RefValue { i: old(dag)@.len() as usize }))),
                }),
            ).push(
                (Value {
                    value: S::s_add(
                        old(dag)@[self.idx()].value,
                        S::s_mul(old(dag)@[other.idx()].value, S::s_neg_one()),
                    ),
                    grad: 0u64,
                    prev: Some(Op::Add(self, (RefValue { i: (old(dag)@.len() + 1) as usize }))),
                }),
            ),
            r.i == old(dag)@.len() + 2,
            r.in_dag(*final(dag)),
    {
        let negated = other.neg(dag, ops);
        self.add(negated, dag, ops)
    }

    /// Division, derived as multiplication by the divisor raised to the
    /// power minus one: two nodes are appended.
    pub fn div<S: ScalarOps>(self, other: RefValue, dag: &mut Dag, ops: &S) -> (r: RefValue)
        requires
            old(dag).wf(),
            self.in_dag(*old(dag)),
            other.in_dag(*old(dag)),
        ensures
            final(dag).wf(),
            final(dag)@ == old(dag)@.push(
                (Value {
                    value: S::s_pow(old(dag)@[other.idx()].value, S::s_neg_one()),
                    grad: 0u64,
                    prev: Some(Op::Pow(other, S::s_neg_one())),
                }),
            ).push(
                (Value {
                    value: S::s_mul(
                        old(dag)@[self.idx()].value,
                        S::s_pow(old(dag)@[other.idx()].value, S::s_neg_one()),
                    ),
                    grad: 0u64,
                    prev: Some(Op::Mul(self, (RefValue { i: old(dag)@.len() as usize }))),
                }),
            ),
            r.i == old(dag)@.len() + 1,
            r.in_dag(*final(dag)),
    {
        let inverse = other.powf(ops.neg_one(), dag, ops);
        self.mul(inverse, dag, ops)
    }

    /// Addition of a plain scalar: the scalar is promoted to a fresh leaf of
    /// its own, never shared with any other expression.
    pub fn add_value<S: ScalarOps>(self, c: u64, dag: &mut Dag, ops: &S) -> (r: RefValue)
        requires
            old(dag).wf(),
            self.in_dag(*old(dag)),
        ensures
            final(dag).wf(),
            final(dag)@ == old(dag)@.push(
                (Value { value: c, grad: 0u64, prev: None }),
            ).push(
                (Value {
                    value: S::s_add(old(dag)@[self.idx()].value, c),
                    grad: 0u64,
                    prev: Some(Op::Add(self, (RefValue { i: old(dag)@.len() as usize }))),
                }),
            ),
            r.i == old(dag)@.len() + 1,
            r.in_dag(*final(dag)),
    {
        let leaf = RefValue::new(dag, c);
        self.add(leaf, dag, ops)
    }

    /// Multiplication by a plain scalar, promoted to a fresh leaf.
    pub fn mul_value<S: ScalarOps>(self, c: u64, dag: &mut Dag, ops: &S) -> (r: RefValue)
        requires
            old(dag).wf(),
            self.in_dag(*old(dag)),
        ensures
            final(dag).wf(),
            final(dag)@ == old(dag)@.push(
                (Value { value: c, grad: 0u64, prev: None }),
            ).push(
                (Value {
                    value: S::s_mul(old(dag)@[self.idx()].value, c),
                    grad: 0u64,
                    prev: Some(Op::Mul(self, (RefValue { i: old(dag)@.len() as usize }))),
                }),
            ),
            r.i == old(dag)@.len() + 1,
            r.in_dag(*final(dag)),
    {
        let leaf = RefValue::new(dag, c);
        self.mul(leaf, dag, ops)
    }

    /// Subtraction of a plain scalar, promoted to a fresh leaf; four nodes
    /// are appended in all.
    pub fn sub_value<S: ScalarOps>(self, c: u64, dag: &mut Dag, ops: &S) -> (r: RefValue)
        requires
            old(dag).wf(),
            self.in_dag(*old(dag)),
        ensures
            final(dag).wf(),
            final(dag)@.len() == old(dag)@.len() + 4,
            final(dag)@.subrange(0, old(dag)@.len() as int) == old(dag)@,
            final(dag)@[old(dag)@.len() as int] == (Value { value: c, grad: 0u64, prev: None }),
            final(dag)@[r.idx()] == (Value {
                value: S::s_add(old(dag)@[self.idx()].value, S::s_mul(c, S::s_neg_one())),
                grad: 0u64,
                prev: Some(
                    Op::Add(self, (RefValue { i: (old(dag)@.len() + 2) as usize })),
                ),
            }),
            r.i == old(dag)@.len() + 3,
            r.in_dag(*final(dag)),
    {
        let leaf = RefValue::new(dag, c);
        self.sub(leaf, dag, ops)
    }

    /// A plain scalar minus this node, the scalar promoted to a fresh leaf;
    /// four nodes are appended in all.
    pub fn value_sub<S: ScalarOps>(self, c: u64, dag: &mut Dag, ops: &S) -> (r: RefValue)
        requires
            old(dag).wf(),
            self.in_dag(*old(dag)),
        ensures
            final(dag).wf(),
            final(dag)@.len() == old(dag)@.len() + 4,
            final(dag)@.subrange(0, old(dag)@.len() as int) == old(dag)@,
            final(dag)@[old(dag)@.len() as int] == (Value { value: c, grad: 0u64, prev: None }),
            final(dag)@[r.idx()] == (Value {
                value: S::s_add(
                    c,
                    S::s_mul(old(dag)@[self.idx()].value, S::s_neg_one()),
                ),
                grad: 0u64,
                prev: Some(
                    Op::Add(
                        (RefValue { i: old(dag)@.len() as usize }),
                        (RefValue { i: (old(dag)@.len() + 2) as usize }),
                    ),
                ),
            }),
            r.i == old(dag)@.len() + 3,
            r.in_dag(*final(dag)),
    {
        let leaf = RefValue::new(dag, c);
        leaf.sub(self, dag, ops)
    }
}

/// Sums a list of nodes by a left fold of additions that starts from a fresh
/// zero leaf, exactly as collecting a sum over an iterator of nodes would:
/// the zero leaf is appended first, then one sum node per summand, each
/// adding the next summand to the running total.
pub fn sum<S: ScalarOps>(xs: &Vec<RefValue>, dag: &mut Dag, ops: &S) -> (r: RefValue)
    requires
        old(dag).wf(),
        forall|k: int| 0 <= k < xs@.len() ==> (#[trigger] xs@[k]).in_dag(*old(dag)),
    ensures
        final(dag).wf(),
        final(dag)@.len() == old(dag)@.len() + xs@.len() + 1,
        final(dag)@.subrange(0, old(dag)@.len() as int) == old(dag)@,
        r.i == final(dag)@.len() - 1,
        r.in_dag(*final(dag)),
        final(dag)@[r.idx()].value == fold_sum::<S>(old(dag)@, xs@),
        final(dag)@[old(dag)@.len() as int] == (Value { value: 0u64, grad: 0u64, prev: None }),
        forall|k: int|
            0 <= k < xs@.len() ==> final(dag)@[old(dag)@.len() + 1 + k] == (Value {
                value: fold_sum::<S>(old(dag)@, xs@.subrange(0, k + 1)),
                grad: 0u64,
                prev: Some(
                    Op::Add(
                        (RefValue { i: (old(dag)@.len() + k) as usize }),
                        (#[trigger] xs@[k]),
                    ),
                ),
            }),
{
    let mut acc = RefValue::new(dag, 0u64);
    let ghost base = old(dag)@;
    let mut k: usize = 0;
    while k < xs.len()
        invariant
            k <= xs@.len(),
            forall|j: int| 0 <= j < xs@.len() ==> (#[trigger] xs@[j]).i < base.len(),
            dag.wf(),
            dag@.len() == base.len() + k + 1,
            dag@.subrange(0, base.len() as int) == base,
            acc.i == dag@.len() - 1,
            acc.in_dag(*dag),
            dag@[acc.idx()].value == fold_sum::<S>(base, xs@.subrange(0, k as int)),
            dag@[base.len() as int] == (Value { value: 0u64, grad: 0u64, prev: None }),
            forall|q: int|
                0 <= q < k ==> dag@[base.len() + 1 + q] == (Value {
                    value: fold_sum::<S>(base, xs@.subrange(0, q + 1)),
                    grad: 0u64,
                    prev: Some(
                        Op::Add(
                            (RefValue { i: (base.len() + q) as usize }),
                            (#[trigger] xs@[q]),
                        ),
                    ),
                }),
        decreases xs@.len() - k,
    {
        proof {
            assert(dag@.subrange(0, base.len() as int)[xs@[k as int].idx()] == dag@[xs@[
                k as int
            ].idx()]);
            assert(dag@[xs@[k as int].idx()] == base[xs@[k as int].idx()]);
        }
        proof {
            assert(acc == (RefValue { i: (base.len() + k) as usize }));
        }
        let next = acc.add(xs[k], dag, ops);
        acc = next;
        k = k + 1;
        proof {
            assert(xs@.subrange(0, k as int).drop_last() =~= xs@.subrange(0, k as int - 1));
            assert(xs@.subrange(0, k as int).last() == xs@[k as int - 1]);
        }
    }
    proof {
        assert(xs@.subrange(0, xs@.len() as int) =~= xs@);
    }
    acc
}

} // verus!
