use vstd::prelude::*;

use crate::graph::{Dag, Op, RefValue, Value};
use crate::scalar::ScalarOps;

verus! {

/// The value of the weighted sum `w[0]*x[0] + ... + w[k-1]*x[k-1]`, folded
/// from the left starting at the zero code, over the node values in `nodes`.
pub open spec fn weighted_sum<S: ScalarOps>(
    nodes: Seq<crate::graph::Value>,
    w: Seq<RefValue>,
    x: Seq<RefValue>,
    k: int,
) -> u64
    decreases k,
{
    if k <= 0 {
        0u64
    } else {
        S::s_add(
            weighted_sum::<S>(nodes, w, x, k - 1),
            S::s_mul(nodes[w[k - 1].idx()].value, nodes[x[k - 1].idx()].value),
        )
    }
}

/// The weighted sum reads only the operand nodes, so it is the same over a
/// grown graph as over the part the operands live in.
proof fn lemma_weighted_sum_prefix<S: ScalarOps>(
    big: Seq<crate::graph::Value>,
    base: Seq<crate::graph::Value>,
    w: Seq<RefValue>,
    x: Seq<RefValue>,
    k: int,
)
    requires
        big.len() >= base.len(),
        big.subrange(0, base.len() as int) == base,
        k <= w.len(),
        k <= x.len(),
        forall|j: int| 0 <= j < k ==> (#[trigger] w[j]).idx() < base.len(),
        forall|j: int| 0 <= j < k ==> (#[trigger] x[j]).idx() < base.len(),
    ensures
        weighted_sum::<S>(big, w, x, k) == weighted_sum::<S>(base, w, x, k),
    decreases k,
{
    if k > 0 {
        lemma_weighted_sum_prefix::<S>(big, base, w, x, k - 1);
        assert(big.subrange(0, base.len() as int)[w[k - 1].idx()] == big[w[k - 1].idx()]);
        assert(big.subrange(0, base.len() as int)[x[k - 1].idx()] == big[x[k - 1].idx()]);
    }
}

/// How many weight-input pairs a neuron with `wlen` weights forms over
/// `xlen` inputs: as many as both lists reach.
pub open spec fn pair_count(wlen: int, xlen: int) -> int {
    if wlen <= xlen {
        wlen
    } else {
        xlen
    }
}

/// The nodes one neuron application appends, laid out from position
/// `start`: the fresh zero leaf, then one product node and one running-sum
/// node per weight-input pair, then the bias addition and the hyperbolic
/// tangent of the whole pre-activation. Operand values are read from
/// `base`, the graph as it stood before the application.
#[verifier::opaque]
pub open spec fn call_segment<S: ScalarOps>(
    base: Seq<crate::graph::Value>,
    nodes: Seq<crate::graph::Value>,
    n: Neuron,
    x: Seq<RefValue>,
    start: int,
) -> bool {
    let pairs = pair_count(n.w@.len() as int, x.len() as int);
    &&& nodes[start] == (Value { value: 0u64, grad: 0u64, prev: None })
    &&& forall|k: int|
        0 <= k < pairs ==> nodes[start + 1 + 2 * k] == (Value {
            value: S::s_mul(base[(#[trigger] n.w@[k]).idx()].value, base[x[k].idx()].value),
            grad: 0u64,
            prev: Some(Op::Mul(n.w@[k], x[k])),
        })
    &&& forall|k: int|
        0 <= k < pairs ==> nodes[start + 2 + 2 * k] == (Value {
            value: S::s_add(
                weighted_sum::<S>(base, n.w@, x, k),
                S::s_mul(base[(#[trigger] n.w@[k]).idx()].value, base[x[k].idx()].value),
            ),
            grad: 0u64,
            prev: Some(
                Op::Add(
                    (RefValue { i: (start + 2 * k) as usize }),
                    (RefValue { i: (start + 1 + 2 * k) as usize }),
                ),
            ),
        })
    &&& nodes[start + 2 * pairs + 1] == (Value {
        value: S::s_add(weighted_sum::<S>(base, n.w@, x, pairs), base[n.b.idx()].value),
        grad: 0u64,
        prev: Some(Op::Add((RefValue { i: (start + 2 * pairs) as usize }), n.b)),
    })
    &&& nodes[start + 2 * pairs + 2] == (Value {
        value: S::s_tanh(
            S::s_add(weighted_sum::<S>(base, n.w@, x, pairs), base[n.b.idx()].value),
        ),
        grad: 0u64,
        prev: Some(Op::Tanh((RefValue { i: (start + 2 * pairs + 1) as usize }))),
    })
}

/// One neuron: a list of weight leaves and a bias leaf.
///
/// The caller hands the initial codes in; whoever wants random
/// initialization draws the numbers outside and passes them.
pub struct Neuron {
    pub w: Vec<RefValue>,
    pub b: RefValue,
}

impl Neuron {
    /// All handles of the neuron point into a graph of length `len`.
    pub open spec fn valid(self, len: int) -> bool {
        &&& self.b.idx() < len
        &&& forall|k: int| 0 <= k < self.w@.len() ==> (#[trigger] self.w@[k]).idx() < len
    }

    /// The parameter enumeration the trainer walks: bias first, then the
    /// weights in order.
    pub open spec fn params_spec(self) -> Seq<RefValue> {
        seq![self.b] + self.w@
    }

    /// Creates a neuron with one weight leaf per entry of `weights` and a
    /// bias leaf, all appended to the graph.
    pub fn new(dag: &mut Dag, weights: &Vec<u64>, bias: u64) -> (n: Neuron)
        requires
            old(dag).wf(),
        ensures
            final(dag).wf(),
            final(dag)@.len() == old(dag)@.len() + weights@.len() + 1,
            final(dag)@.subrange(0, old(dag)@.len() as int) == old(dag)@,
            n.valid(final(dag)@.len() as int),
            n.w@.len() == weights@.len(),
            forall|k: int|
                0 <= k < weights@.len() ==> final(dag)@[(#[trigger] n.w@[k]).idx()].value
                    == weights@[k],
            forall|k: int|
                0 <= k < weights@.len() ==> final(dag)@[(#[trigger] n.w@[k]).idx()].prev is None,
            forall|k: int|
                0 <= k < weights@.len() ==> final(dag)@[(#[trigger] n.w@[k]).idx()].grad == 0u64,
            final(dag)@[n.params_spec()[0].idx()].value == bias,
            final(dag)@[n.params_spec()[0].idx()].prev is None,
            final(dag)@[n.params_spec()[0].idx()].grad == 0u64,
    {
        let ghost base = old(dag)@;
        let mut w: Vec<RefValue> = Vec::new();
        let mut k: usize = 0;
        while k < weights.len()
            invariant
                dag.wf(),
                k <= weights@.len(),
                dag@.len() == base.len() + k,
                dag@.subrange(0, base.len() as int) == base,
                w@.len() == k,
                forall|j: int| 0 <= j < k ==> (#[trigger] w@[j]).idx() < dag@.len(),
                forall|j: int|
                    0 <= j < k ==> dag@[(#[trigger] w@[j]).idx()].value == weights@[j],
                forall|j: int| 0 <= j < k ==> dag@[(#[trigger] w@[j]).idx()].prev is None,
                forall|j: int| 0 <= j < k ==> dag@[(#[trigger] w@[j]).idx()].grad == 0u64,
            decreases weights@.len() - k,
        {
            let ghost before = dag@;
            let leaf = RefValue::new(dag, weights[k]);
            w.push(leaf);
            k = k + 1;
            proof {
                assert(dag@.subrange(0, base.len() as int) =~= before.subrange(
                    0,
                    base.len() as int,
                ));
            }
        }
        let ghost before_bias = dag@;
        let b = RefValue::new(dag, bias);
        proof {
            assert(dag@.subrange(0, base.len() as int) =~= before_bias.subrange(
                0,
                base.len() as int,
            ));
        }
        let n = Neuron { w, b };
        proof {
            assert(n.params_spec()[0] == b);
        }
        n
    }

    /// Hands the trainer every parameter leaf: the bias, then the weights.
    pub fn parameters(&self) -> (ps: Vec<RefValue>)
        ensures
            ps@ == self.params_spec(),
    {
        let mut ps: Vec<RefValue> = Vec::new();
        ps.push(self.b);
        let mut k: usize = 0;
        while k < self.w.len()
            invariant
                k <= self.w@.len(),
                ps@.len() == k + 1,
                ps@[0] == self.b,
                forall|j: int| 0 <= j < k ==> ps@[j + 1] == self.w@[j],
            decreases self.w@.len() - k,
        {
            ps.push(self.w[k]);
            k = k + 1;
        }
        proof {
            assert(ps@ =~= seq![self.b] + self.w@);
        }
        ps
    }

    /// Applies the neuron: pairs the weights with the inputs as far as both
    /// reach, sums the products by a left fold from a fresh zero leaf, adds
    /// the bias, and applies the hyperbolic tangent to that whole
    /// pre-activation.
    pub fn call<S: ScalarOps>(&self, x: &Vec<RefValue>, dag: &mut Dag, ops: &S) -> (r: RefValue)
        requires
            old(dag).wf(),
            self.valid(old(dag)@.len() as int),
            forall|k: int| 0 <= k < x@.len() ==> (#[trigger] x@[k]).idx() < old(dag)@.len(),
        ensures
            final(dag).wf(),
            final(dag)@.len() == old(dag)@.len() + 2 * (
            if self.w@.len() <= x@.len() {
                self.w@.len() as int
            } else {
                x@.len() as int
            }) + 3,
            final(dag)@.subrange(0, old(dag)@.len() as int) == old(dag)@,
            final(dag)@[old(dag)@.len() as int] == (Value {
                value: 0u64,
                grad: 0u64,
                prev: None,
            }),
            forall|k: int|
                0 <= k < (if self.w@.len() <= x@.len() {
                    self.w@.len() as int
                } else {
                    x@.len() as int
                }) ==> final(dag)@[old(dag)@.len() + 1 + 2 * k] == (Value {
                    value: S::s_mul(
                        old(dag)@[(#[trigger] self.w@[k]).idx()].value,
                        old(dag)@[x@[k].idx()].value,
                    ),
                    grad: 0u64,
                    prev: Some(Op::Mul(self.w@[k], x@[k])),
                }),
            forall|k: int|
                0 <= k < (if self.w@.len() <= x@.len() {
                    self.w@.len() as int
                } else {
                    x@.len() as int
                }) ==> final(dag)@[old(dag)@.len() + 2 + 2 * k] == (Value {
                    value: S::s_add(
                        weighted_sum::<S>(old(dag)@, self.w@, x@, k),
                        S::s_mul(
                            old(dag)@[(#[trigger] self.w@[k]).idx()].value,
                            old(dag)@[x@[k].idx()].value,
                        ),
                    ),
                    grad: 0u64,
                    prev: Some(
                        Op::Add(
                            (RefValue { i: (old(dag)@.len() + 2 * k) as usize }),
                            (RefValue { i: (old(dag)@.len() + 1 + 2 * k) as usize }),
                        ),
                    ),
                }),
            final(dag)@[final(dag)@.len() - 2].prev == Some(
                Op::Add(
                    (RefValue { i: (final(dag)@.len() - 3) as usize }),
                    self.b,
                ),
            ),
            final(dag)@[final(dag)@.len() - 2].value == S::s_add(
                weighted_sum::<S>(
                    old(dag)@,
                    self.w@,
                    x@,
                    if self.w@.len() <= x@.len() {
                        self.w@.len() as int
                    } else {
                        x@.len() as int
                    },
                ),
                old(dag)@[self.b.idx()].value,
            ),
            final(dag)@[final(dag)@.len() - 2].grad == 0u64,
            r.i == final(dag)@.len() - 1,
            r.in_dag(*final(dag)),
            final(dag)@[r.idx()].prev == Some(
                Op::Tanh((RefValue { i: (final(dag)@.len() - 2) as usize })),
            ),
            final(dag)@[r.idx()].grad == 0u64,
            call_segment::<S>(old(dag)@, final(dag)@, *self, x@, old(dag)@.len() as int),
            final(dag)@[r.idx()].value == S::s_tanh(
                S::s_add(
                    weighted_sum::<S>(
                        old(dag)@,
                        self.w@,
                        x@,
                        if self.w@.len() <= x@.len() {
                            self.w@.len() as int
                        } else {
                            x@.len() as int
                        },
                    ),
                    old(dag)@[self.b.idx()].value,
                ),
            ),
    {
        let ghost base = old(dag)@;
        let pairs = if self.w.len() <= x.len() {
            self.w.len()
        } else {
            x.len()
        };
        let mut acc = RefValue::new(dag, 0u64);
        let mut k: usize = 0;
        while k < pairs
            invariant
                dag.wf(),
                k <= pairs,
                pairs <= self.w@.len(),
                pairs <= x@.len(),
                forall|j: int| 0 <= j < self.w@.len() ==> (#[trigger] self.w@[j]).idx()
                    < base.len(),
                forall|j: int| 0 <= j < x@.len() ==> (#[trigger] x@[j]).idx() < base.len(),
                self.b.idx() < base.len(),
                dag@.len() == base.len() + 2 * k + 1,
                dag@.subrange(0, base.len() as int) == base,
                acc.i == dag@.len() - 1,
                acc.in_dag(*dag),
                dag@[acc.idx()].value == weighted_sum::<S>(base, self.w@, x@, k as int),
                dag@[base.len() as int] == (Value { value: 0u64, grad: 0u64, prev: None }),
                forall|q: int|
                    0 <= q < k ==> dag@[base.len() + 1 + 2 * q] == (Value {
                        value: S::s_mul(
                            base[(#[trigger] self.w@[q]).idx()].value,
                            base[x@[q].idx()].value,
                        ),
                        grad: 0u64,
                        prev: Some(Op::Mul(self.w@[q], x@[q])),
                    }),
                forall|q: int|
                    0 <= q < k ==> dag@[base.len() + 2 + 2 * q] == (Value {
                        value: S::s_add(
                            weighted_sum::<S>(base, self.w@, x@, q),
                            S::s_mul(
                                base[(#[trigger] self.w@[q]).idx()].value,
                                base[x@[q].idx()].value,
                            ),
                        ),
                        grad: 0u64,
                        prev: Some(
                            Op::Add(
                                (RefValue { i: (base.len() + 2 * q) as usize }),
                                (RefValue { i: (base.len() + 1 + 2 * q) as usize }),
                            ),
                        ),
                    }),
            decreases pairs - k,
        {
            let ghost before = dag@;
            proof {
                assert(before.subrange(0, base.len() as int)[self.w@[k as int].idx()]
                    == before[self.w@[k as int].idx()]);
                assert(before.subrange(0, base.len() as int)[x@[k as int].idx()] == before[x@[
                    k as int
                ].idx()]);
            }
            proof {
                assert(acc == (RefValue { i: (base.len() + 2 * (k as int)) as usize }));
            }
            let p = self.w[k].mul(x[k], dag, ops);
            proof {
                assert(p == (RefValue { i: (base.len() + 1 + 2 * (k as int)) as usize }));
            }
            let next = acc.add(p, dag, ops);
            acc = next;
            k = k + 1;
            proof {
                assert(dag@.subrange(0, base.len() as int) =~= base);
            }
        }
        let ghost before_bias = dag@;
        proof {
            assert(before_bias.subrange(0, base.len() as int)[self.b.idx()] == before_bias[
                self.b.idx()
            ]);
        }
        let pre = acc.add(self.b, dag, ops);
        let r = pre.tanh(dag, ops);
        proof {
            reveal(call_segment);
            assert(dag@.subrange(0, base.len() as int) =~= base);
        }
        r
    }
}

/// A segment's values may be read from the part of the graph its operands
/// live in: the segment looks the same over the grown graph as over that
/// part.
proof fn lemma_call_segment_rebase<S: ScalarOps>(
    mid: Seq<crate::graph::Value>,
    base: Seq<crate::graph::Value>,
    nodes: Seq<crate::graph::Value>,
    n: Neuron,
    x: Seq<RefValue>,
    start: int,
)
    requires
        call_segment::<S>(mid, nodes, n, x, start),
        mid.len() >= base.len(),
        mid.subrange(0, base.len() as int) == base,
        n.valid(base.len() as int),
        forall|k: int| 0 <= k < x.len() ==> (#[trigger] x[k]).idx() < base.len(),
    ensures
        call_segment::<S>(base, nodes, n, x, start),
{
    reveal(call_segment);
    let pairs = pair_count(n.w@.len() as int, x.len() as int);
    assert forall|k: int|
        0 <= k < pairs implies nodes[start + 1 + 2 * k] == (Value {
        value: S::s_mul(base[(#[trigger] n.w@[k]).idx()].value, base[x[k].idx()].value),
        grad: 0u64,
        prev: Some(Op::Mul(n.w@[k], x[k])),
    }) by {
        assert(mid.subrange(0, base.len() as int)[n.w@[k].idx()] == mid[n.w@[k].idx()]);
        assert(mid.subrange(0, base.len() as int)[x[k].idx()] == mid[x[k].idx()]);
    }
    assert forall|k: int|
        0 <= k < pairs implies nodes[start + 2 + 2 * k] == (Value {
        value: S::s_add(
            weighted_sum::<S>(base, n.w@, x, k),
            S::s_mul(base[(#[trigger] n.w@[k]).idx()].value, base[x[k].idx()].value),
        ),
        grad: 0u64,
        prev: Some(
            Op::Add(
                (RefValue { i: (start + 2 * k) as usize }),
                (RefValue { i: (start + 1 + 2 * k) as usize }),
            ),
        ),
    }) by {
        lemma_weighted_sum_prefix::<S>(mid, base, n.w@, x, k);
        assert(mid.subrange(0, base.len() as int)[n.w@[k].idx()] == mid[n.w@[k].idx()]);
        assert(mid.subrange(0, base.len() as int)[x[k].idx()] == mid[x[k].idx()]);
    }
    lemma_weighted_sum_prefix::<S>(mid, base, n.w@, x, pairs);
    assert(mid.subrange(0, base.len() as int)[n.b.idx()] == mid[n.b.idx()]);
}

/// A segment that fits inside a graph stays the same when the graph grows.
#[verifier::rlimit(50)]
proof fn lemma_call_segment_grows<S: ScalarOps>(
    base: Seq<crate::graph::Value>,
    small: Seq<crate::graph::Value>,
    big: Seq<crate::graph::Value>,
    n: Neuron,
    x: Seq<RefValue>,
    start: int,
)
    requires
        call_segment::<S>(base, small, n, x, start),
        big.len() >= small.len(),
        big.subrange(0, small.len() as int) == small,
        0 <= start,
        start + 2 * pair_count(n.w@.len() as int, x.len() as int) + 3 <= small.len(),
    ensures
        call_segment::<S>(base, big, n, x, start),
{
    reveal(call_segment);
    let pairs = pair_count(n.w@.len() as int, x.len() as int);
    assert(big.subrange(0, small.len() as int)[start] == big[start]);
    assert forall|k: int|
        0 <= k < pairs implies big[start + 1 + 2 * k] == (Value {
        value: S::s_mul(base[(#[trigger] n.w@[k]).idx()].value, base[x[k].idx()].value),
        grad: 0u64,
        prev: Some(Op::Mul(n.w@[k], x[k])),
    }) by {
        assert(big.subrange(0, small.len() as int)[start + 1 + 2 * k] == big[start + 1 + 2 * k]);
    }
    assert forall|k: int|
        0 <= k < pairs implies big[start + 2 + 2 * k] == (Value {
        value: S::s_add(
            weighted_sum::<S>(base, n.w@, x, k),
            S::s_mul(base[(#[trigger] n.w@[k]).idx()].value, base[x[k].idx()].value),
        ),
        grad: 0u64,
        prev: Some(
            Op::Add(
                (RefValue { i: (start + 2 * k) as usize }),
                (RefValue { i: (start + 1 + 2 * k) as usize }),
            ),
        ),
    }) by {
        assert(big.subrange(0, small.len() as int)[start + 2 + 2 * k] == big[start + 2 + 2 * k]);
    }
    assert(big.subrange(0, small.len() as int)[start + 2 * pairs + 1] == big[start + 2 * pairs
        + 1]);
    assert(big.subrange(0, small.len() as int)[start + 2 * pairs + 2] == big[start + 2 * pairs
        + 2]);
}

/// Where the `j`-th neuron's segment starts, relative to where the layer
/// began appending: the sizes of the segments before it, summed.
pub open spec fn segments_before(neurons: Seq<Neuron>, xlen: int, j: int) -> int
    decreases j,
{
    if j <= 0 {
        0
    } else {
        segments_before(neurons, xlen, j - 1) + 2 * pair_count(
            neurons[j - 1].w@.len() as int,
            xlen,
        ) + 3
    }
}

/// Segment starts never move backwards.
proof fn lemma_segments_before_mono(neurons: Seq<Neuron>, xlen: int, a: int, b: int)
    requires
        a <= b,
        0 <= xlen,
    ensures
        segments_before(neurons, xlen, a) <= segments_before(neurons, xlen, b),
    decreases b - a,
{
    if a < b {
        lemma_segments_before_mono(neurons, xlen, a, b - 1);
    }
}

/// A layer of neurons applied in parallel to the same inputs.
pub struct Layer {
    pub neurons: Vec<Neuron>,
}

impl Layer {
    /// All handles of every neuron point into a graph of length `len`.
    pub open spec fn valid(self, len: int) -> bool {
        forall|j: int| 0 <= j < self.neurons@.len() ==> (#[trigger] self.neurons@[j]).valid(len)
    }

    /// The parameters of the first `k` neurons, in neuron order.
    pub open spec fn params_upto(self, k: int) -> Seq<RefValue>
        decreases k,
    {
        if k <= 0 {
            Seq::<RefValue>::empty()
        } else {
            self.params_upto(k - 1) + self.neurons@[k - 1].params_spec()
        }
    }

    /// Creates `nout` neurons of `nin` weights each; `init` supplies the
    /// initial codes, `nin` weights then one bias per neuron, in order.
    pub fn new(dag: &mut Dag, nin: usize, nout: usize, init: &Vec<u64>) -> (l: Layer)
        requires
            old(dag).wf(),
            init@.len() == nout * (nin + 1),
        ensures
            final(dag).wf(),
            final(dag)@.len() == old(dag)@.len() + init@.len(),
            final(dag)@.subrange(0, old(dag)@.len() as int) == old(dag)@,
            l.neurons@.len() == nout,
            l.valid(final(dag)@.len() as int),
            forall|j: int|
                0 <= j < nout ==> (#[trigger] l.neurons@[j]).w@.len() == nin,
            forall|j: int, k: int|
                0 <= j < nout && 0 <= k < nin ==> final(dag)@[(#[trigger] l.neurons@[j].w@[
                    k
                ]).idx()] == (Value { value: init@[j * (nin + 1) + k], grad: 0u64, prev: None }),
            forall|j: int|
                0 <= j < nout ==> final(dag)@[(#[trigger] l.neurons@[j]).b.idx()] == (Value {
                    value: init@[j * (nin + 1) + nin],
                    grad: 0u64,
                    prev: None,
                }),
    {
        let ghost base = old(dag)@;
        let total = init.len();
        let mut neurons: Vec<Neuron> = Vec::new();
        let mut pos: usize = 0;
        let mut j: usize = 0;
        while j < nout
            invariant
                dag.wf(),
                j <= nout,
                total == init@.len(),
                init@.len() == nout * (nin + 1),
                pos == j * (nin + 1),
                dag@.len() == base.len() + pos,
                dag@.subrange(0, base.len() as int) == base,
                neurons@.len() == j,
                forall|q: int|
                    0 <= q < j ==> (#[trigger] neurons@[q]).valid(dag@.len() as int),
                forall|q: int| 0 <= q < j ==> (#[trigger] neurons@[q]).w@.len() == nin,
                forall|q: int, k2: int|
                    0 <= q < j && 0 <= k2 < nin ==> dag@[(#[trigger] neurons@[q].w@[
                        k2
                    ]).idx()] == (Value { value: init@[q * (nin + 1) + k2], grad: 0u64, prev: None }),
                forall|q: int|
                    0 <= q < j ==> dag@[(#[trigger] neurons@[q]).b.idx()] == (Value {
                        value: init@[q * (nin + 1) + nin],
                        grad: 0u64,
                        prev: None,
                    }),
            decreases nout - j,
        {
            proof {
                assert((j + 1) * (nin + 1) <= nout * (nin + 1)) by (nonlinear_arith)
                    requires
                        j < nout,
                ;
                assert(j * (nin + 1) + (nin + 1) == (j + 1) * (nin + 1)) by (nonlinear_arith);
            }
            let mut weights: Vec<u64> = Vec::new();
            let mut k: usize = 0;
            proof {
                assert(pos + nin + 1 <= init@.len());
            }
            while k < nin
                invariant
                    k <= nin,
                    weights@.len() == k,
                    total == init@.len(),
                    pos + nin + 1 <= total,
                    forall|q: int| 0 <= q < k ==> weights@[q] == init@[pos + q],
                decreases nin - k,
            {
                weights.push(init[pos + k]);
                k = k + 1;
            }
            let bias = init[pos + nin];
            let ghost start = pos as int;
            let ghost before = dag@;
            let n = Neuron::new(dag, &weights, bias);
            neurons.push(n);
            pos = pos + nin + 1;
            j = j + 1;
            proof {
                assert(dag@.subrange(0, base.len() as int) =~= base);
                assert forall|q: int|
                    0 <= q < j implies (#[trigger] neurons@[q]).valid(dag@.len() as int) by {
                    if q < j - 1 {
                        assert(neurons@[q].valid(before.len() as int));
                    }
                }
                assert forall|q: int, k2: int|
                    0 <= q < j && 0 <= k2 < nin implies dag@[(#[trigger] neurons@[q].w@[
                    k2
                ]).idx()] == (Value { value: init@[q * (nin + 1) + k2], grad: 0u64, prev: None })
                    by {
                    if q < j - 1 {
                        assert(neurons@[q].valid(before.len() as int));
                        assert(dag@.subrange(0, before.len() as int)[neurons@[q].w@[k2].idx()]
                            == dag@[neurons@[q].w@[k2].idx()]);
                        assert(before[neurons@[q].w@[k2].idx()] == (Value {
                            value: init@[q * (nin + 1) + k2],
                            grad: 0u64,
                            prev: None,
                        }));
                    } else {
                        assert(q * (nin + 1) == start);
                        assert(dag@[n.w@[k2].idx()].value == weights@[k2]);
                        assert(dag@[n.w@[k2].idx()].grad == 0u64);
                        assert(dag@[n.w@[k2].idx()].prev is None);
                        assert(weights@[k2] == init@[start + k2]);
                    }
                }
                assert forall|q: int|
                    0 <= q < j implies dag@[(#[trigger] neurons@[q]).b.idx()] == (Value {
                    value: init@[q * (nin + 1) + nin],
                    grad: 0u64,
                    prev: None,
                }) by {
                    if q < j - 1 {
                        assert(neurons@[q].valid(before.len() as int));
                        assert(dag@.subrange(0, before.len() as int)[neurons@[q].b.idx()] == dag@[
                            neurons@[q].b.idx()]);
                        assert(before[neurons@[q].b.idx()] == (Value {
                            value: init@[q * (nin + 1) + nin],
                            grad: 0u64,
                            prev: None,
                        }));
                    } else {
                        assert(q * (nin + 1) == start);
                        assert(n.params_spec()[0] == n.b);
                        assert(dag@[n.b.idx()].value == bias);
                        assert(dag@[n.b.idx()].grad == 0u64);
                        assert(dag@[n.b.idx()].prev is None);
                    }
                }
            }
        }
        Layer { neurons }
    }

    /// Hands the trainer every parameter of every neuron, neuron by neuron.
    pub fn parameters(&self) -> (ps: Vec<RefValue>)
        ensures
            ps@ == self.params_upto(self.neurons@.len() as int),
    {
        let mut ps: Vec<RefValue> = Vec::new();
        let mut j: usize = 0;
        while j < self.neurons.len()
            invariant
                j <= self.neurons@.len(),
                ps@ == self.params_upto(j as int),
            decreases self.neurons@.len() - j,
        {
            let mut next = self.neurons[j].parameters();
            ps.append(&mut next);
            j = j + 1;
        }
        ps
    }

    /// Applies every neuron to the same inputs and collects the outputs in
    /// neuron order.
    #[verifier::rlimit(100)]
    pub fn call<S: ScalarOps>(&self, x: &Vec<RefValue>, dag: &mut Dag, ops: &S) -> (res: Vec<
        RefValue,
    >)
        requires
            old(dag).wf(),
            self.valid(old(dag)@.len() as int),
            forall|k: int| 0 <= k < x@.len() ==> (#[trigger] x@[k]).idx() < old(dag)@.len(),
        ensures
            final(dag).wf(),
            final(dag)@.len() >= old(dag)@.len(),
            final(dag)@.len() == old(dag)@.len() + segments_before(
                self.neurons@,
                x@.len() as int,
                self.neurons@.len() as int,
            ),
            final(dag)@.subrange(0, old(dag)@.len() as int) == old(dag)@,
            res@.len() == self.neurons@.len(),
            forall|j: int| 0 <= j < res@.len() ==> (#[trigger] res@[j]).idx()
                < final(dag)@.len(),
            forall|j: int|
                0 <= j < self.neurons@.len() ==> call_segment::<S>(
                    old(dag)@,
                    final(dag)@,
                    (#[trigger] self.neurons@[j]),
                    x@,
                    old(dag)@.len() + segments_before(self.neurons@, x@.len() as int, j),
                ),
            forall|j: int|
                0 <= j < res@.len() ==> (#[trigger] res@[j]).i == old(dag)@.len()
                    + segments_before(self.neurons@, x@.len() as int, j + 1) - 1,
            forall|j: int|
                0 <= j < res@.len() ==> final(dag)@[(#[trigger] res@[j]).idx()].value
                    == S::s_tanh(
                    S::s_add(
                        weighted_sum::<S>(
                            old(dag)@,
                            self.neurons@[j].w@,
                            x@,
                            if self.neurons@[j].w@.len() <= x@.len() {
                                self.neurons@[j].w@.len() as int
                            } else {
                                x@.len() as int
                            },
                        ),
                        old(dag)@[self.neurons@[j].b.idx()].value,
                    ),
                ),
    {
        let ghost base = old(dag)@;
        let mut res: Vec<RefValue> = Vec::new();
        let mut j: usize = 0;
        while j < self.neurons.len()
            invariant
                dag.wf(),
                j <= self.neurons@.len(),
                self.valid(base.len() as int),
                forall|k: int| 0 <= k < x@.len() ==> (#[trigger] x@[k]).idx() < base.len(),
                dag@.len() >= base.len(),
                dag@.len() == base.len() + segments_before(
                    self.neurons@,
                    x@.len() as int,
                    j as int,
                ),
                dag@.subrange(0, base.len() as int) == base,
                res@.len() == j,
                forall|q: int| 0 <= q < j ==> (#[trigger] res@[q]).idx() < dag@.len(),
                forall|q: int|
                    0 <= q < j ==> call_segment::<S>(
                        base,
                        dag@,
                        (#[trigger] self.neurons@[q]),
                        x@,
                        base.len() + segments_before(self.neurons@, x@.len() as int, q),
                    ),
                forall|q: int|
                    0 <= q < j ==> (#[trigger] res@[q]).i == base.len() + segments_before(
                        self.neurons@,
                        x@.len() as int,
                        q + 1,
                    ) - 1,
                forall|q: int|
                    0 <= q < j ==> dag@[(#[trigger] res@[q]).idx()].value == S::s_tanh(
                        S::s_add(
                            weighted_sum::<S>(
                                base,
                                self.neurons@[q].w@,
                                x@,
                                if self.neurons@[q].w@.len() <= x@.len() {
                                    self.neurons@[q].w@.len() as int
                                } else {
                                    x@.len() as int
                                },
                            ),
                            base[self.neurons@[q].b.idx()].value,
                        ),
                    ),
            decreases self.neurons@.len() - j,
        {
            proof {
                assert(self.neurons@[j as int].valid(base.len() as int));
                assert forall|k: int|
                    0 <= k < self.neurons@[j as int].w@.len() implies (#[trigger] self.neurons@[
                    j as int
                ].w@[k]).idx() < dag@.len() by {
                    assert(self.neurons@[j as int].w@[k].idx() < base.len());
                }
            }
            let ghost before = dag@;
            let out = self.neurons[j].call(x, dag, ops);
            res.push(out);
            j = j + 1;
            proof {
                assert(dag@.subrange(0, base.len() as int) =~= base);
                let neuron = self.neurons@[j - 1];
                let pairs = if neuron.w@.len() <= x@.len() {
                    neuron.w@.len() as int
                } else {
                    x@.len() as int
                };
                lemma_weighted_sum_prefix::<S>(before, base, neuron.w@, x@, pairs);
                assert(before.subrange(0, base.len() as int)[neuron.b.idx()] == before[
                    neuron.b.idx()
                ]);
                lemma_call_segment_rebase::<S>(
                    before,
                    base,
                    dag@,
                    neuron,
                    x@,
                    before.len() as int,
                );
                assert(segments_before(self.neurons@, x@.len() as int, j as int)
                    == segments_before(self.neurons@, x@.len() as int, j - 1) + 2 * pair_count(
                    neuron.w@.len() as int,
                    x@.len() as int,
                ) + 3);
                assert forall|q: int|
                    0 <= q < j implies call_segment::<S>(
                    base,
                    dag@,
                    (#[trigger] self.neurons@[q]),
                    x@,
                    base.len() + segments_before(self.neurons@, x@.len() as int, q),
                ) by {
                    if q < j - 1 {
                        lemma_segments_before_mono(self.neurons@, x@.len() as int, 0, q);
                        lemma_segments_before_mono(self.neurons@, x@.len() as int, q + 1, j - 1);
                        assert(segments_before(self.neurons@, x@.len() as int, q + 1)
                            == segments_before(self.neurons@, x@.len() as int, q) + 2
                            * pair_count(self.neurons@[q].w@.len() as int, x@.len() as int) + 3);
                        lemma_call_segment_grows::<S>(
                            base,
                            before,
                            dag@,
                            self.neurons@[q],
                            x@,
                            base.len() + segments_before(self.neurons@, x@.len() as int, q),
                        );
                    }
                }
                assert forall|q: int|
                    0 <= q < j implies dag@[(#[trigger] res@[q]).idx()].value == S::s_tanh(
                    S::s_add(
                        weighted_sum::<S>(
                            base,
                            self.neurons@[q].w@,
                            x@,
                            if self.neurons@[q].w@.len() <= x@.len() {
                                self.neurons@[q].w@.len() as int
                            } else {
                                x@.len() as int
                            },
                        ),
                        base[self.neurons@[q].b.idx()].value,
                    ),
                ) by {
                    if q < j - 1 {
                        assert(dag@.subrange(0, before.len() as int)[res@[q].idx()] == dag@[res@[
                            q
                        ].idx()]);
                    }
                }
            }
        }
        res
    }
}


/// The values of the nodes named by a list of handles.
pub open spec fn handle_values(nodes: Seq<crate::graph::Value>, hs: Seq<RefValue>) -> Seq<u64> {
    Seq::new(hs.len(), |k: int| nodes[hs[k].idx()].value)
}

/// The weighted sum at the level of plain value codes.
pub open spec fn dot_sum<S: ScalarOps>(ws: Seq<u64>, xs: Seq<u64>, k: int) -> u64
    decreases k,
{
    if k <= 0 {
        0u64
    } else {
        S::s_add(dot_sum::<S>(ws, xs, k - 1), S::s_mul(ws[k - 1], xs[k - 1]))
    }
}

/// What one neuron computes, at the level of plain value codes: the
/// hyperbolic tangent of the whole pre-activation — the weighted sum over
/// the pairs both lists reach, plus the bias.
pub open spec fn neuron_out<S: ScalarOps>(ws: Seq<u64>, bval: u64, xs: Seq<u64>) -> u64 {
    S::s_tanh(
        S::s_add(
            dot_sum::<S>(
                ws,
                xs,
                if ws.len() <= xs.len() {
                    ws.len() as int
                } else {
                    xs.len() as int
                },
            ),
            bval,
        ),
    )
}

/// What one layer computes over given input values, reading its weights and
/// biases out of `nodes`.
pub open spec fn layer_out<S: ScalarOps>(
    nodes: Seq<crate::graph::Value>,
    l: Layer,
    xs: Seq<u64>,
) -> Seq<u64> {
    Seq::new(
        l.neurons@.len(),
        |j: int| neuron_out::<S>(
            handle_values(nodes, l.neurons@[j].w@),
            nodes[l.neurons@[j].b.idx()].value,
            xs,
        ),
    )
}

/// What the first `j` layers compute over given input values, each feeding
/// the next.
pub open spec fn mlp_out<S: ScalarOps>(
    nodes: Seq<crate::graph::Value>,
    layers: Seq<Layer>,
    xs: Seq<u64>,
    j: int,
) -> Seq<u64>
    decreases j,
{
    if j <= 0 {
        xs
    } else {
        layer_out::<S>(nodes, layers[j - 1], mlp_out::<S>(nodes, layers, xs, j - 1))
    }
}

/// The handle-level weighted sum is the value-level one over the values the
/// handles name.
proof fn lemma_weighted_sum_as_values<S: ScalarOps>(
    nodes: Seq<crate::graph::Value>,
    w: Seq<RefValue>,
    x: Seq<RefValue>,
    k: int,
)
    requires
        k <= w.len(),
        k <= x.len(),
    ensures
        weighted_sum::<S>(nodes, w, x, k) == dot_sum::<S>(
            handle_values(nodes, w),
            handle_values(nodes, x),
            k,
        ),
    decreases k,
{
    if k > 0 {
        lemma_weighted_sum_as_values::<S>(nodes, w, x, k - 1);
    }
}

/// Handle values read only the named nodes, so they are the same over a
/// grown graph as over the part the handles live in.
proof fn lemma_handle_values_prefix(
    big: Seq<crate::graph::Value>,
    base: Seq<crate::graph::Value>,
    hs: Seq<RefValue>,
)
    requires
        big.len() >= base.len(),
        big.subrange(0, base.len() as int) == base,
        forall|j: int| 0 <= j < hs.len() ==> (#[trigger] hs[j]).idx() < base.len(),
    ensures
        handle_values(big, hs) == handle_values(base, hs),
{
    assert forall|j: int|
        0 <= j < hs.len() implies handle_values(big, hs)[j] == handle_values(base, hs)[j] by {
        assert(big.subrange(0, base.len() as int)[hs[j].idx()] == big[hs[j].idx()]);
    }
    assert(handle_values(big, hs) =~= handle_values(base, hs));
}

/// A layer's outputs read only its weight and bias nodes, so they are the
/// same over a grown graph as over the part the layer lives in.
proof fn lemma_layer_out_prefix<S: ScalarOps>(
    big: Seq<crate::graph::Value>,
    base: Seq<crate::graph::Value>,
    l: Layer,
    xs: Seq<u64>,
)
    requires
        big.len() >= base.len(),
        big.subrange(0, base.len() as int) == base,
        l.valid(base.len() as int),
    ensures
        layer_out::<S>(big, l, xs) == layer_out::<S>(base, l, xs),
{
    assert forall|j: int|
        0 <= j < l.neurons@.len() implies layer_out::<S>(big, l, xs)[j] == layer_out::<S>(
        base,
        l,
        xs,
    )[j] by {
        assert(l.neurons@[j].valid(base.len() as int));
        lemma_handle_values_prefix(big, base, l.neurons@[j].w@);
        assert(big.subrange(0, base.len() as int)[l.neurons@[j].b.idx()] == big[l.neurons@[
            j
        ].b.idx()]);
    }
    assert(layer_out::<S>(big, l, xs) =~= layer_out::<S>(base, l, xs));
}

/// A multilayer perceptron: layers applied one after another.
pub struct MLP {
    pub layers: Vec<Layer>,
}

impl MLP {
    /// All handles of every layer point into a graph of length `len`.
    pub open spec fn valid(self, len: int) -> bool {
        forall|j: int| 0 <= j < self.layers@.len() ==> (#[trigger] self.layers@[j]).valid(len)
    }

    /// The fan-in of layer `j`: the input width for the first layer, the
    /// previous layer's width after that.
    pub open spec fn fan_in(nin: usize, nouts: Seq<usize>, j: int) -> int {
        if j == 0 {
            nin as int
        } else {
            nouts[j - 1] as int
        }
    }

    /// The parameters of the first `k` layers, in layer order.
    pub open spec fn params_upto(self, k: int) -> Seq<RefValue>
        decreases k,
    {
        if k <= 0 {
            Seq::<RefValue>::empty()
        } else {
            self.params_upto(k - 1) + self.layers@[k - 1].params_upto(
                self.layers@[k - 1].neurons@.len() as int,
            )
        }
    }

    /// Creates one layer per entry of `nouts`, each fed by the one before;
    /// `inits` supplies one vector of initial codes per layer.
    pub fn new(dag: &mut Dag, nin: usize, nouts: &Vec<usize>, inits: &Vec<Vec<u64>>) -> (m: MLP)
        requires
            old(dag).wf(),
            inits@.len() == nouts@.len(),
            forall|j: int|
                0 <= j < nouts@.len() ==> (#[trigger] inits@[j])@.len() == nouts@[j] * (
                Self::fan_in(nin, nouts@, j) + 1),
        ensures
            final(dag).wf(),
            final(dag)@.len() >= old(dag)@.len(),
            final(dag)@.subrange(0, old(dag)@.len() as int) == old(dag)@,
            m.layers@.len() == nouts@.len(),
            m.valid(final(dag)@.len() as int),
            forall|j: int|
                0 <= j < nouts@.len() ==> (#[trigger] m.layers@[j]).neurons@.len() == nouts@[j],
            forall|j: int, q: int|
                0 <= j < nouts@.len() && 0 <= q < nouts@[j] ==> (#[trigger] m.layers@[j].neurons@[
                    q
                ]).w@.len() == Self::fan_in(nin, nouts@, j),
            forall|j: int, q: int, k: int|
                0 <= j < nouts@.len() && 0 <= q < nouts@[j] && 0 <= k < Self::fan_in(
                    nin,
                    nouts@,
                    j,
                ) ==> final(dag)@[(#[trigger] m.layers@[j].neurons@[q].w@[k]).idx()] == (Value {
                    value: inits@[j]@[q * (Self::fan_in(nin, nouts@, j) + 1) + k],
                    grad: 0u64,
                    prev: None,
                }),
            forall|j: int, q: int|
                0 <= j < nouts@.len() && 0 <= q < nouts@[j] ==> final(dag)@[(
                #[trigger] m.layers@[j].neurons@[q]).b.idx()] == (Value {
                    value: inits@[j]@[q * (Self::fan_in(nin, nouts@, j) + 1) + Self::fan_in(
                        nin,
                        nouts@,
                        j,
                    )],
                    grad: 0u64,
                    prev: None,
                }),
    {
        let ghost base = old(dag)@;
        let mut layers: Vec<Layer> = Vec::new();
        let mut j: usize = 0;
        while j < nouts.len()
            invariant
                dag.wf(),
                j <= nouts@.len(),
                inits@.len() == nouts@.len(),
                forall|q: int|
                    0 <= q < nouts@.len() ==> (#[trigger] inits@[q])@.len() == nouts@[q] * (
                    Self::fan_in(nin, nouts@, q) + 1),
                dag@.len() >= base.len(),
                dag@.subrange(0, base.len() as int) == base,
                layers@.len() == j,
                forall|q: int| 0 <= q < j ==> (#[trigger] layers@[q]).valid(dag@.len() as int),
                forall|q: int|
                    0 <= q < j ==> (#[trigger] layers@[q]).neurons@.len() == nouts@[q],
                forall|p: int, q: int|
                    0 <= p < j && 0 <= q < nouts@[p] ==> (#[trigger] layers@[p].neurons@[
                        q
                    ]).w@.len() == Self::fan_in(nin, nouts@, p),
                forall|p: int, q: int, k: int|
                    0 <= p < j && 0 <= q < nouts@[p] && 0 <= k < Self::fan_in(nin, nouts@, p)
                        ==> dag@[(#[trigger] layers@[p].neurons@[q].w@[k]).idx()] == (Value {
                        value: inits@[p]@[q * (Self::fan_in(nin, nouts@, p) + 1) + k],
                        grad: 0u64,
                        prev: None,
                    }),
                forall|p: int, q: int|
                    0 <= p < j && 0 <= q < nouts@[p] ==> dag@[(#[trigger] layers@[p].neurons@[
                        q
                    ]).b.idx()] == (Value {
                        value: inits@[p]@[q * (Self::fan_in(nin, nouts@, p) + 1) + Self::fan_in(
                            nin,
                            nouts@,
                            p,
                        )],
                        grad: 0u64,
                        prev: None,
                    }),
            decreases nouts@.len() - j,
        {
            let fan = if j == 0 {
                nin
            } else {
                nouts[j - 1]
            };
            let width = nouts[j];
            let ghost before = dag@;
            let layer = Layer::new(dag, fan, width, &inits[j]);
            layers.push(layer);
            j = j + 1;
            proof {
                assert(dag@.subrange(0, base.len() as int) =~= base);
                assert(fan as int == Self::fan_in(nin, nouts@, j - 1));
                assert forall|q: int|
                    0 <= q < j implies (#[trigger] layers@[q]).valid(dag@.len() as int) by {
                    if q < j - 1 {
                        assert(layers@[q].valid(before.len() as int));
                    }
                }
                assert forall|p: int, q: int, k: int|
                    0 <= p < j && 0 <= q < nouts@[p] && 0 <= k < Self::fan_in(nin, nouts@, p)
                        implies dag@[(#[trigger] layers@[p].neurons@[q].w@[k]).idx()] == (Value {
                    value: inits@[p]@[q * (Self::fan_in(nin, nouts@, p) + 1) + k],
                    grad: 0u64,
                    prev: None,
                }) by {
                    if p < j - 1 {
                        assert(layers@[p].valid(before.len() as int));
                        assert(layers@[p].neurons@[q].valid(before.len() as int));
                        assert(dag@.subrange(0, before.len() as int)[layers@[p].neurons@[q].w@[
                            k
                        ].idx()] == dag@[layers@[p].neurons@[q].w@[k].idx()]);
                        assert(before[layers@[p].neurons@[q].w@[k].idx()] == (Value {
                            value: inits@[p]@[q * (Self::fan_in(nin, nouts@, p) + 1) + k],
                            grad: 0u64,
                            prev: None,
                        }));
                    } else {
                        assert(dag@[layer.neurons@[q].w@[k].idx()] == (Value {
                            value: inits@[p]@[q * (fan as int + 1) + k],
                            grad: 0u64,
                            prev: None,
                        }));
                    }
                }
                assert forall|p: int, q: int|
                    0 <= p < j && 0 <= q < nouts@[p] implies dag@[(#[trigger] layers@[p].neurons@[
                    q
                ]).b.idx()] == (Value {
                    value: inits@[p]@[q * (Self::fan_in(nin, nouts@, p) + 1) + Self::fan_in(
                        nin,
                        nouts@,
                        p,
                    )],
                    grad: 0u64,
                    prev: None,
                }) by {
                    if p < j - 1 {
                        assert(layers@[p].valid(before.len() as int));
                        assert(layers@[p].neurons@[q].valid(before.len() as int));
                        assert(dag@.subrange(0, before.len() as int)[layers@[p].neurons@[
                            q
                        ].b.idx()] == dag@[layers@[p].neurons@[q].b.idx()]);
                        assert(before[layers@[p].neurons@[q].b.idx()] == (Value {
                            value: inits@[p]@[q * (Self::fan_in(nin, nouts@, p) + 1)
                                + Self::fan_in(nin, nouts@, p)],
                            grad: 0u64,
                            prev: None,
                        }));
                    } else {
                        assert(dag@[layer.neurons@[q].b.idx()] == (Value {
                            value: inits@[p]@[q * (fan as int + 1) + fan as int],
                            grad: 0u64,
                            prev: None,
                        }));
                    }
                }
            }
        }
        MLP { layers }
    }

    /// Hands the trainer every parameter of every layer, layer by layer.
    pub fn parameters(&self) -> (ps: Vec<RefValue>)
        ensures
            ps@ == self.params_upto(self.layers@.len() as int),
    {
        let mut ps: Vec<RefValue> = Vec::new();
        let mut j: usize = 0;
        while j < self.layers.len()
            invariant
                j <= self.layers@.len(),
                ps@ == self.params_upto(j as int),
            decreases self.layers@.len() - j,
        {
            let mut next = self.layers[j].parameters();
            ps.append(&mut next);
            j = j + 1;
        }
        ps
    }

    /// Applies the layers one after another, feeding each layer's outputs
    /// to the next; with no layers the inputs come back as they are.
    pub fn call<S: ScalarOps>(&self, x: &Vec<RefValue>, dag: &mut Dag, ops: &S) -> (res: Vec<
        RefValue,
    >)
        requires
            old(dag).wf(),
            self.valid(old(dag)@.len() as int),
            forall|k: int| 0 <= k < x@.len() ==> (#[trigger] x@[k]).idx() < old(dag)@.len(),
        ensures
            final(dag).wf(),
            final(dag)@.len() >= old(dag)@.len(),
            final(dag)@.subrange(0, old(dag)@.len() as int) == old(dag)@,
            forall|k: int| 0 <= k < res@.len() ==> (#[trigger] res@[k]).idx()
                < final(dag)@.len(),
            self.layers@.len() > 0 ==> res@.len() == self.layers@.last().neurons@.len(),
            self.layers@.len() == 0 ==> res@ == x@,
            handle_values(final(dag)@, res@) == mlp_out::<S>(
                old(dag)@,
                self.layers@,
                handle_values(old(dag)@, x@),
                self.layers@.len() as int,
            ),
    {
        let ghost base = old(dag)@;
        let mut val: Vec<RefValue> = Vec::new();
        let mut k: usize = 0;
        while k < x.len()
            invariant
                k <= x@.len(),
                val@ =~= x@.subrange(0, k as int),
            decreases x@.len() - k,
        {
            val.push(x[k]);
            k = k + 1;
        }
        proof {
            assert(val@ =~= x@);
        }
        let mut j: usize = 0;
        while j < self.layers.len()
            invariant
                dag.wf(),
                j <= self.layers@.len(),
                self.valid(base.len() as int),
                dag@.len() >= base.len(),
                dag@.subrange(0, base.len() as int) == base,
                forall|q: int| 0 <= q < val@.len() ==> (#[trigger] val@[q]).idx() < dag@.len(),
                j > 0 ==> val@.len() == self.layers@[j - 1].neurons@.len(),
                j == 0 ==> val@ == x@,
                handle_values(dag@, val@) == mlp_out::<S>(
                    base,
                    self.layers@,
                    handle_values(base, x@),
                    j as int,
                ),
            decreases self.layers@.len() - j,
        {
            proof {
                assert(self.layers@[j as int].valid(base.len() as int));
                assert forall|q: int|
                    0 <= q < self.layers@[j as int].neurons@.len() implies (#[trigger] self.layers@[
                    j as int
                ].neurons@[q]).valid(dag@.len() as int) by {
                    assert(self.layers@[j as int].neurons@[q].valid(base.len() as int));
                }
            }
            let ghost head = dag@;
            let ghost xs_now = handle_values(dag@, val@);
            let out = self.layers[j].call(&val, dag, ops);
            proof {
                let layer = self.layers@[j as int];
                assert forall|q: int|
                    0 <= q < out@.len() implies handle_values(dag@, out@)[q] == layer_out::<S>(
                    base,
                    layer,
                    xs_now,
                )[q] by {
                    let neuron = layer.neurons@[q];
                    let pairs = if neuron.w@.len() <= val@.len() {
                        neuron.w@.len() as int
                    } else {
                        val@.len() as int
                    };
                    lemma_weighted_sum_as_values::<S>(head, neuron.w@, val@, pairs);
                    assert(neuron.valid(base.len() as int));
                    lemma_handle_values_prefix(head, base, neuron.w@);
                    assert(head.subrange(0, base.len() as int)[neuron.b.idx()] == head[
                        neuron.b.idx()
                    ]);
                }
                assert(handle_values(dag@, out@) =~= layer_out::<S>(base, layer, xs_now));
            }
            val = out;
            j = j + 1;
        }
        val
    }
}

} // verus!
