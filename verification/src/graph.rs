use vstd::prelude::*;
use vstd::pervasive::VecAdditionalExecFns;

use crate::scalar::ScalarOps;

verus! {

/// A handle to one node of a [`Dag`]: the node's index in the arena.
///
/// The index doubles as the node's identity. It is assigned at creation,
/// never changes, and is what the backward pass uses to recognize a node it
/// has already visited; it says nothing about the node's value.
#[derive(Clone, Copy)]
pub struct RefValue {
    pub i: usize,
}

/// The operation that produced a node, holding the handles of its operands.
///
/// A node produced by `Pow` keeps the exponent as a scalar code rather than
/// as a node: the exponent is a constant that the backward pass never
/// differentiates with respect to.
#[derive(Clone, Copy)]
pub enum Op {
    Add(RefValue, RefValue),
    Mul(RefValue, RefValue),
    Tanh(RefValue),
    Exp(RefValue),
    Relu(RefValue),
    Pow(RefValue, u64),
}

/// One scalar node of the graph.
///
/// `value` is the scalar code computed when the node was built, `grad` the
/// accumulated partial derivative of the most recent backward target with
/// respect to this node, and `prev` either nothing (a leaf) or the operation
/// that produced the node.
#[derive(Clone, Copy)]
pub struct Value {
    pub value: u64,
    pub grad: u64,
    pub prev: Option<Op>,
}

/// The arena that owns every node of one computation graph.
///
/// Nodes only ever refer to nodes created before them, so the graph is
/// acyclic by construction; sharing a handle is how one node becomes an
/// operand of many others.
pub struct Dag {
    nodes: Vec<Value>,
}

impl View for Dag {
    type V = Seq<Value>;

    closed spec fn view(&self) -> Seq<Value> {
        self.nodes@
    }
}

/// Every operand handle of `op` points strictly below position `n`.
pub open spec fn op_in_bounds(op: Op, n: int) -> bool {
    match op {
        Op::Add(a, b) => a.i < n && b.i < n,
        Op::Mul(a, b) => a.i < n && b.i < n,
        Op::Tanh(a) => a.i < n,
        Op::Exp(a) => a.i < n,
        Op::Relu(a) => a.i < n,
        Op::Pow(a, _) => a.i < n,
    }
}

/// The node at position `n` refers only to earlier nodes.
pub open spec fn node_wf(nodes: Seq<Value>, n: int) -> bool {
    match nodes[n].prev {
        None => true,
        Some(op) => op_in_bounds(op, n),
    }
}

/// Every node of the arena refers only to earlier nodes: the graph is
/// acyclic, whichever node one starts from.
pub open spec fn dag_wf(nodes: Seq<Value>) -> bool {
    forall|n: int| 0 <= n < nodes.len() ==> #[trigger] node_wf(nodes, n)
}

/// `after` holds the same nodes as `before` — same values, same origins —
/// and differs at most in gradients.
pub open spec fn same_shape(before: Seq<Value>, after: Seq<Value>) -> bool {
    &&& after.len() == before.len()
    &&& forall|m: int|
        0 <= m < before.len() ==> ((#[trigger] after[m]).value == before[m].value && after[m].prev
            == before[m].prev)
}

impl Dag {
    /// Every node refers only to earlier nodes: the graph is acyclic.
    pub open spec fn wf(self) -> bool {
        dag_wf(self@)
    }

    /// An empty arena, ready to grow a graph.
    pub fn new() -> (d: Dag)
        ensures
            d@ =~= Seq::<Value>::empty(),
            d.wf(),
    {
        Dag { nodes: Vec::new() }
    }

    /// How many nodes the arena holds.
    pub fn len(&self) -> (n: usize)
        ensures
            n == self@.len(),
    {
        self.nodes.len()
    }

    /// Appends a node and hands back its handle.
    fn push_node(&mut self, value: u64, prev: Option<Op>) -> (r: RefValue)
        requires
            old(self).wf(),
            match prev {
                None => true,
                Some(op) => op_in_bounds(op, old(self)@.len() as int),
            },
        ensures
            final(self)@ == old(self)@.push((Value { value, grad: 0u64, prev })),
            r.i == old(self)@.len(),
            final(self).wf(),
    {
        let r = RefValue { i: self.nodes.len() };
        self.nodes.push(Value { value, grad: 0u64, prev });
        proof {
            assert forall|n: int| 0 <= n < self@.len() implies #[trigger] node_wf(self@, n) by {
                if n < old(self)@.len() {
                    assert(self@[n] == old(self)@[n]);
                    assert(node_wf(old(self)@, n));
                }
            }
        }
        r
    }

    /// The order phase of a backward pass: a depth-first post-order walk of
    /// everything reachable from `target` through origin links.
    fn topo_from(&self, target: usize) -> (topo: Vec<usize>)
        requires
            self.wf(),
            target < self@.len(),
        ensures
            topo@ == dfs_spec(self@, Seq::<usize>::empty(), target),
            order_in_bounds(topo@, self@.len() as int),
    {
        let n = self.nodes.len();
        let mut visited: Vec<bool> = Vec::new();
        while visited.len() < n
            invariant
                visited@.len() <= n,
                forall|j: int| 0 <= j < visited@.len() ==> #[trigger] visited@[j] == false,
            decreases n - visited.len(),
        {
            visited.push(false);
        }
        let mut topo: Vec<usize> = Vec::new();
        dfs(&self.nodes, &mut visited, &mut topo, target);
        topo
    }
}

/// The propagation step for one node, executable side: reads the node's
/// operation and accumulates into its operands exactly as [`back_step`]
/// describes.
fn calc_grad<S: ScalarOps>(dag: &mut Dag, n: usize, ops: &S)
    requires
        old(dag).wf(),
        n < old(dag)@.len(),
    ensures
        final(dag)@ == back_step::<S>(old(dag)@, n as int),
        same_shape(old(dag)@, final(dag)@),
        final(dag).wf(),
{
    let out = dag.nodes[n];
    match out.prev {
        None => {},
        Some(op) => {
            proof {
                assert(node_wf(dag@, n as int));
            }
            match op {
                Op::Add(a, b) => {
                    let inc = ops.mul(ops.one(), out.grad);
                    let na = dag.nodes[a.i];
                    dag.nodes.set(
                        a.i,
                        Value { value: na.value, grad: ops.add(na.grad, inc), prev: na.prev },
                    );
                    let nb = dag.nodes[b.i];
                    dag.nodes.set(
                        b.i,
                        Value { value: nb.value, grad: ops.add(nb.grad, inc), prev: nb.prev },
                    );
                },
                Op::Mul(a, b) => {
                    let va = dag.nodes[a.i].value;
                    let vb = dag.nodes[b.i].value;
                    let na = dag.nodes[a.i];
                    dag.nodes.set(
                        a.i,
                        Value {
                            value: na.value,
                            grad: ops.add(na.grad, ops.mul(vb, out.grad)),
                            prev: na.prev,
                        },
                    );
                    let nb = dag.nodes[b.i];
                    dag.nodes.set(
                        b.i,
                        Value {
                            value: nb.value,
                            grad: ops.add(nb.grad, ops.mul(va, out.grad)),
                            prev: nb.prev,
                        },
                    );
                },
                Op::Tanh(a) => {
                    let factor = ops.sub(ops.one(), ops.mul(out.value, out.value));
                    let inc = ops.mul(factor, out.grad);
                    let na = dag.nodes[a.i];
                    dag.nodes.set(
                        a.i,
                        Value { value: na.value, grad: ops.add(na.grad, inc), prev: na.prev },
                    );
                },
                Op::Exp(a) => {
                    let inc = ops.mul(out.value, out.grad);
                    let na = dag.nodes[a.i];
                    dag.nodes.set(
                        a.i,
                        Value { value: na.value, grad: ops.add(na.grad, inc), prev: na.prev },
                    );
                },
                Op::Pow(a, p) => {
                    let va = dag.nodes[a.i].value;
                    let inc = ops.mul(ops.mul(p, ops.pow(va, ops.sub(p, ops.one()))), out.grad);
                    let na = dag.nodes[a.i];
                    dag.nodes.set(
                        a.i,
                        Value { value: na.value, grad: ops.add(na.grad, inc), prev: na.prev },
                    );
                },
                Op::Relu(a) => {
                    let sel = if ops.is_pos(out.value) {
                        ops.one()
                    } else {
                        0u64
                    };
                    let inc = ops.mul(sel, out.grad);
                    let na = dag.nodes[a.i];
                    dag.nodes.set(
                        a.i,
                        Value { value: na.value, grad: ops.add(na.grad, inc), prev: na.prev },
                    );
                },
            }
        },
    }
    proof {
        assert forall|m: int|
            0 <= m < old(dag)@.len() implies ((#[trigger] dag@[m]).value == old(dag)@[m].value
                && dag@[m].prev == old(dag)@[m].prev) by {}
        lemma_grad_only_update_keeps_wf(old(dag)@, dag@);
    }
}

impl RefValue {
    /// The handle's position in the arena, for use in contracts.
    pub open spec fn idx(self) -> int {
        self.i as int
    }

    /// The handle points at a node of `dag`.
    pub open spec fn in_dag(self, dag: Dag) -> bool {
        self.i < dag@.len()
    }

    /// Creates a leaf: a raw input or trainable parameter. Its gradient
    /// starts at the zero code and no operation produced it.
    pub fn new(dag: &mut Dag, value: u64) -> (r: RefValue)
        requires
            old(dag).wf(),
        ensures
            final(dag).wf(),
            final(dag)@ == old(dag)@.push((Value { value, grad: 0u64, prev: None })),
            r.i == old(dag)@.len(),
            r.in_dag(*final(dag)),
    {
        dag.push_node(value, None)
    }

    /// The node's current value code.
    pub fn item(self, dag: &Dag) -> (r: u64)
        requires
            self.in_dag(*dag),
        ensures
            r == dag@[self.idx()].value,
    {
        dag.nodes[self.i].value
    }

    /// The node's accumulated gradient code.
    pub fn grad(self, dag: &Dag) -> (r: u64)
        requires
            self.in_dag(*dag),
        ensures
            r == dag@[self.idx()].grad,
    {
        dag.nodes[self.i].grad
    }

    /// Overwrites the node's value, as a trainer does when it steps a
    /// parameter. Nothing else about the graph changes.
    pub fn set_value(self, dag: &mut Dag, value: u64)
        requires
            old(dag).wf(),
            self.in_dag(*old(dag)),
        ensures
            final(dag).wf(),
            final(dag)@ == old(dag)@.update(
                self.idx(),
                (Value {
                    value,
                    grad: old(dag)@[self.idx()].grad,
                    prev: old(dag)@[self.idx()].prev,
                }),
            ),
    {
        let node = dag.nodes[self.i];
        dag.nodes.set(self.i, Value { value, grad: node.grad, prev: node.prev });
        proof {
            lemma_grad_only_update_keeps_wf(old(dag)@, dag@);
        }
    }

    /// Overwrites the node's gradient, as a trainer does when it resets a
    /// parameter before a fresh backward pass.
    pub fn set_grad(self, dag: &mut Dag, grad: u64)
        requires
            old(dag).wf(),
            self.in_dag(*old(dag)),
        ensures
            final(dag).wf(),
            final(dag)@ == old(dag)@.update(
                self.idx(),
                (Value {
                    value: old(dag)@[self.idx()].value,
                    grad,
                    prev: old(dag)@[self.idx()].prev,
                }),
            ),
    {
        let node = dag.nodes[self.i];
        dag.nodes.set(self.i, Value { value: node.value, grad, prev: node.prev });
        proof {
            lemma_grad_only_update_keeps_wf(old(dag)@, dag@);
        }
    }

    /// Adds two nodes: a new node whose value is the sum of the operands'
    /// values and whose origin records both operands.
    pub fn add<S: ScalarOps>(self, other: RefValue, dag: &mut Dag, ops: &S) -> (r: RefValue)
        requires
            old(dag).wf(),
            self.in_dag(*old(dag)),
            other.in_dag(*old(dag)),
        ensures
            final(dag).wf(),
            final(dag)@ == old(dag)@.push((Value {
                value: S::s_add(old(dag)@[self.idx()].value, old(dag)@[other.idx()].value),
                grad: 0u64,
                prev: Some(Op::Add(self, other)),
            })),
            r.i == old(dag)@.len(),
            r.in_dag(*final(dag)),
    {
        let value = ops.add(dag.nodes[self.i].value, dag.nodes[other.i].value);
        dag.push_node(value, Some(Op::Add(self, other)))
    }

    /// Multiplies two nodes.
    pub fn mul<S: ScalarOps>(self, other: RefValue, dag: &mut Dag, ops: &S) -> (r: RefValue)
        requires
            old(dag).wf(),
            self.in_dag(*old(dag)),
            other.in_dag(*old(dag)),
        ensures
            final(dag).wf(),
            final(dag)@ == old(dag)@.push((Value {
                value: S::s_mul(old(dag)@[self.idx()].value, old(dag)@[other.idx()].value),
                grad: 0u64,
                prev: Some(Op::Mul(self, other)),
            })),
            r.i == old(dag)@.len(),
            r.in_dag(*final(dag)),
    {
        let value = ops.mul(dag.nodes[self.i].value, dag.nodes[other.i].value);
        dag.push_node(value, Some(Op::Mul(self, other)))
    }

    /// Hyperbolic tangent of a node.
    pub fn tanh<S: ScalarOps>(self, dag: &mut Dag, ops: &S) -> (r: RefValue)
        requires
            old(dag).wf(),
            self.in_dag(*old(dag)),
        ensures
            final(dag).wf(),
            final(dag)@ == old(dag)@.push((Value {
                value: S::s_tanh(old(dag)@[self.idx()].value),
                grad: 0u64,
                prev: Some(Op::Tanh(self)),
            })),
            r.i == old(dag)@.len(),
            r.in_dag(*final(dag)),
    {
        let value = ops.tanh(dag.nodes[self.i].value);
        dag.push_node(value, Some(Op::Tanh(self)))
    }

    /// Exponential of a node.
    pub fn exp<S: ScalarOps>(self, dag: &mut Dag, ops: &S) -> (r: RefValue)
        requires
            old(dag).wf(),
            self.in_dag(*old(dag)),
        ensures
            final(dag).wf(),
            final(dag)@ == old(dag)@.push((Value {
                value: S::s_exp(old(dag)@[self.idx()].value),
                grad: 0u64,
                prev: Some(Op::Exp(self)),
            })),
            r.i == old(dag)@.len(),
            r.in_dag(*final(dag)),
    {
        let value = ops.exp(dag.nodes[self.i].value);
        dag.push_node(value, Some(Op::Exp(self)))
    }

    /// Raises a node to a constant power. The exponent is not a node and
    /// receives no gradient.
    pub fn powf<S: ScalarOps>(self, exponent: u64, dag: &mut Dag, ops: &S) -> (r: RefValue)
        requires
            old(dag).wf(),
            self.in_dag(*old(dag)),
        ensures
            final(dag).wf(),
            final(dag)@ == old(dag)@.push((Value {
                value: S::s_pow(old(dag)@[self.idx()].value, exponent),
                grad: 0u64,
                prev: Some(Op::Pow(self, exponent)),
            })),
            r.i == old(dag)@.len(),
            r.in_dag(*final(dag)),
    {
        let value = ops.pow(dag.nodes[self.i].value, exponent);
        dag.push_node(value, Some(Op::Pow(self, exponent)))
    }

    /// Rectified linear unit: the node's value where it is at least zero,
    /// the zero code otherwise.
    pub fn relu<S: ScalarOps>(self, dag: &mut Dag, ops: &S) -> (r: RefValue)
        requires
            old(dag).wf(),
            self.in_dag(*old(dag)),
        ensures
            final(dag).wf(),
            final(dag)@ == old(dag)@.push((Value {
                value: if S::s_is_nonneg(old(dag)@[self.idx()].value) {
                    old(dag)@[self.idx()].value
                } else {
                    0u64
                },
                grad: 0u64,
                prev: Some(Op::Relu(self)),
            })),
            r.i == old(dag)@.len(),
            r.in_dag(*final(dag)),
    {
        let v = dag.nodes[self.i].value;
        let value = if ops.is_nonneg(v) {
            v
        } else {
            0u64
        };
        dag.push_node(value, Some(Op::Relu(self)))
    }

    /// The backward pass: seeds this node's gradient with the unit, lays out
    /// everything reachable from it in a depth-first post-order, then walks
    /// that order in reverse, each node accumulating its operation's local
    /// derivative into its operands. Values and origins are untouched; the
    /// handle comes back unchanged so calls can be chained.
    ///
    /// Gradients that already hold something keep it and accumulate on top:
    /// resetting them between passes is the caller's task.
    pub fn backward<S: ScalarOps>(self, dag: &mut Dag, ops: &S) -> (r: RefValue)
        requires
            old(dag).wf(),
            self.in_dag(*old(dag)),
        ensures
            r.i == self.i,
            final(dag).wf(),
            final(dag)@ == backward_spec::<S>(old(dag)@, self.i),
            same_shape(old(dag)@, final(dag)@),
    {
        let topo = dag.topo_from(self.i);
        let node = dag.nodes[self.i];
        dag.nodes.set(self.i, Value { value: node.value, grad: ops.one(), prev: node.prev });
        proof {
            assert(dag@ == seeded::<S>(old(dag)@, self.i as int));
            lemma_grad_only_update_keeps_wf(old(dag)@, dag@);
            assert(topo@.subrange(0, topo@.len() as int) =~= topo@);
        }
        let mut k = topo.len();
        while k > 0
            invariant
                k <= topo@.len(),
                dag.wf(),
                same_shape(old(dag)@, dag@),
                order_in_bounds(topo@, old(dag)@.len() as int),
                propagate::<S>(dag@, topo@.subrange(0, k as int)) == propagate::<S>(
                    seeded::<S>(old(dag)@, self.i as int),
                    topo@,
                ),
            decreases k,
        {
            k = k - 1;
            let n = topo[k];
            let ghost before = dag@;
            calc_grad(dag, n, ops);
            proof {
                assert(topo@.subrange(0, k as int + 1).last() == topo@[k as int]);
                assert(topo@.subrange(0, k as int + 1).drop_last() =~= topo@.subrange(
                    0,
                    k as int,
                ));
                assert(propagate::<S>(before, topo@.subrange(0, k as int + 1)) == propagate::<S>(
                    back_step::<S>(before, topo@[k as int] as int),
                    topo@.subrange(0, k as int),
                ));
            }
        }
        proof {
            assert(topo@.subrange(0, 0) =~= Seq::<usize>::empty());
            assert(propagate::<S>(dag@, Seq::<usize>::empty()) == dag@);
        }
        self
    }
}

/// The order in which a depth-first walk from `v` lays out the graph, given
/// everything already laid out in `acc`.
///
/// A node already in `acc` is not visited again. Otherwise the walk descends
/// into the node's operands first, left before right, and appends the node
/// itself after them: a post-order. The guards on the operand indices only
/// restate what holds of every well-formed graph, so that the walk is a
/// total function.
pub open spec fn dfs_spec(nodes: Seq<Value>, acc: Seq<usize>, v: usize) -> Seq<usize>
    decreases v,
{
    if acc.contains(v) {
        acc
    } else {
        let descended = match nodes[v as int].prev {
            None => acc,
            Some(op) => match op {
                Op::Add(a, b) => if a.i < v && b.i < v {
                    dfs_spec(nodes, dfs_spec(nodes, acc, a.i), b.i)
                } else {
                    acc
                },
                Op::Mul(a, b) => if a.i < v && b.i < v {
                    dfs_spec(nodes, dfs_spec(nodes, acc, a.i), b.i)
                } else {
                    acc
                },
                Op::Tanh(a) => if a.i < v {
                    dfs_spec(nodes, acc, a.i)
                } else {
                    acc
                },
                Op::Exp(a) => if a.i < v {
                    dfs_spec(nodes, acc, a.i)
                } else {
                    acc
                },
                Op::Relu(a) => if a.i < v {
                    dfs_spec(nodes, acc, a.i)
                } else {
                    acc
                },
                Op::Pow(a, _) => if a.i < v {
                    dfs_spec(nodes, acc, a.i)
                } else {
                    acc
                },
            },
        };
        descended.push(v)
    }
}

/// The node at position `to` contributes to the node at position `from`:
/// they are equal, or an operand of `from` reaches `to`.
pub open spec fn reaches(nodes: Seq<Value>, from: usize, to: usize) -> bool
    decreases from,
{
    from == to || (match nodes[from as int].prev {
        None => false,
        Some(op) => match op {
            Op::Add(a, b) => (a.i < from && reaches(nodes, a.i, to)) || (b.i < from
                && reaches(nodes, b.i, to)),
            Op::Mul(a, b) => (a.i < from && reaches(nodes, a.i, to)) || (b.i < from
                && reaches(nodes, b.i, to)),
            Op::Tanh(a) => a.i < from && reaches(nodes, a.i, to),
            Op::Exp(a) => a.i < from && reaches(nodes, a.i, to),
            Op::Relu(a) => a.i < from && reaches(nodes, a.i, to),
            Op::Pow(a, _) => a.i < from && reaches(nodes, a.i, to),
        },
    })
}

/// The visited marks agree with membership in the order built so far.
spec fn marks_match(visited: Seq<bool>, topo: Seq<usize>) -> bool {
    forall|j: usize| j < visited.len() ==> (#[trigger] visited[j as int] <==> topo.contains(j))
}

/// All positions recorded in the order lie inside the arena.
spec fn order_in_bounds(topo: Seq<usize>, len: int) -> bool {
    forall|k: int| 0 <= k < topo.len() ==> #[trigger] topo[k] < len
}

/// The depth-first walk itself, keeping the visited marks in step with the
/// order being built.
fn dfs(nodes: &Vec<Value>, visited: &mut Vec<bool>, topo: &mut Vec<usize>, v: usize)
    requires
        dag_wf(nodes@),
        v < nodes@.len(),
        old(visited)@.len() == nodes@.len(),
        marks_match(old(visited)@, old(topo)@),
        order_in_bounds(old(topo)@, nodes@.len() as int),
    ensures
        final(topo)@ == dfs_spec(nodes@, old(topo)@, v),
        final(visited)@.len() == nodes@.len(),
        marks_match(final(visited)@, final(topo)@),
        order_in_bounds(final(topo)@, nodes@.len() as int),
    decreases v,
{
    if !visited[v] {
        proof {
            assert(node_wf(nodes@, v as int));
        }
        let node = nodes[v];
        match node.prev {
            None => {},
            Some(op) => match op {
                Op::Add(a, b) => {
                    dfs(nodes, visited, topo, a.i);
                    dfs(nodes, visited, topo, b.i);
                },
                Op::Mul(a, b) => {
                    dfs(nodes, visited, topo, a.i);
                    dfs(nodes, visited, topo, b.i);
                },
                Op::Tanh(a) => {
                    dfs(nodes, visited, topo, a.i);
                },
                Op::Exp(a) => {
                    dfs(nodes, visited, topo, a.i);
                },
                Op::Relu(a) => {
                    dfs(nodes, visited, topo, a.i);
                },
                Op::Pow(a, _) => {
                    dfs(nodes, visited, topo, a.i);
                },
            },
        }
        let ghost before_push = topo@;
        let ghost marks_before = visited@;
        topo.push(v);
        visited.set(v, true);
        proof {
            lemma_push_contains(before_push, v);
            assert forall|j: usize| j < visited@.len() implies (#[trigger] visited@[j as int]
                <==> topo@.contains(j)) by {
                assert(topo@ == before_push.push(v));
                if j != v {
                    assert(visited@[j as int] == marks_before[j as int]);
                    assert(marks_before[j as int] <==> before_push.contains(j));
                    assert(before_push.push(v).contains(j) <==> before_push.contains(j) || j == v);
                } else {
                    assert(before_push.push(v).contains(v));
                }
            }
        }
    }
}

/// The arena with the gradient at position `t` increased by `inc`, under the
/// scalar system `S`. Accumulation never overwrites: the increment is added
/// to whatever gradient is already there.
pub open spec fn bump_grad<S: ScalarOps>(nodes: Seq<Value>, t: int, inc: u64) -> Seq<Value> {
    nodes.update(
        t,
        (Value { value: nodes[t].value, grad: S::s_add(nodes[t].grad, inc), prev: nodes[t].prev }),
    )
}

/// One step of the propagation phase: the node at position `n` applies its
/// operation's local derivative rule and accumulates into its operands'
/// gradients, scaled by its own current gradient. A leaf changes nothing.
///
/// The rules, one per operation, with `g` the node's gradient and `out` its
/// value: addition passes `1 * g` to both operands; multiplication passes
/// the other operand's value times `g` to each; the hyperbolic tangent
/// passes `(1 - out * out) * g`; the exponential passes `out * g`; a
/// constant power `p` passes `(p * a^(p-1)) * g` where `a` is the operand's
/// value; the rectifier passes `1 * g` where its output is positive and
/// `0 * g` elsewhere. When both operands of a binary node are the same
/// node, the left contribution lands before the right one is computed, so
/// both accumulate.
pub open spec fn back_step<S: ScalarOps>(nodes: Seq<Value>, n: int) -> Seq<Value> {
    match nodes[n].prev {
        None => nodes,
        Some(op) => {
            let g = nodes[n].grad;
            match op {
                Op::Add(a, b) => {
                    let part = bump_grad::<S>(nodes, a.i as int, S::s_mul(S::s_one(), g));
                    bump_grad::<S>(part, b.i as int, S::s_mul(S::s_one(), g))
                },
                Op::Mul(a, b) => {
                    let part = bump_grad::<S>(
                        nodes,
                        a.i as int,
                        S::s_mul(nodes[b.i as int].value, g),
                    );
                    bump_grad::<S>(part, b.i as int, S::s_mul(nodes[a.i as int].value, g))
                },
                Op::Tanh(a) => bump_grad::<S>(
                    nodes,
                    a.i as int,
                    S::s_mul(S::s_sub(S::s_one(), S::s_mul(nodes[n].value, nodes[n].value)), g),
                ),
                Op::Exp(a) => bump_grad::<S>(nodes, a.i as int, S::s_mul(nodes[n].value, g)),
                Op::Pow(a, p) => bump_grad::<S>(
                    nodes,
                    a.i as int,
                    S::s_mul(
                        S::s_mul(p, S::s_pow(nodes[a.i as int].value, S::s_sub(p, S::s_one()))),
                        g,
                    ),
                ),
                Op::Relu(a) => bump_grad::<S>(
                    nodes,
                    a.i as int,
                    S::s_mul(
                        if S::s_is_pos(nodes[n].value) {
                            S::s_one()
                        } else {
                            0u64
                        },
                        g,
                    ),
                ),
            }
        },
    }
}

/// The propagation phase: walks the order from its last element to its
/// first, letting each node push into its operands in turn.
pub open spec fn propagate<S: ScalarOps>(nodes: Seq<Value>, order: Seq<usize>) -> Seq<Value>
    decreases order.len(),
{
    if order.len() == 0 {
        nodes
    } else {
        propagate::<S>(back_step::<S>(nodes, order.last() as int), order.drop_last())
    }
}

/// The arena with the gradient at position `t` overwritten by the unit: the
/// seed that starts a backward pass at its target.
pub open spec fn seeded<S: ScalarOps>(nodes: Seq<Value>, t: int) -> Seq<Value> {
    nodes.update(
        t,
        (Value { value: nodes[t].value, grad: S::s_one(), prev: nodes[t].prev }),
    )
}

/// Everything a backward pass from `t` does to the arena: seed the target's
/// gradient with the unit, lay the reachable nodes out in post-order, then
/// propagate along that order in reverse.
pub open spec fn backward_spec<S: ScalarOps>(nodes: Seq<Value>, t: usize) -> Seq<Value> {
    propagate::<S>(seeded::<S>(nodes, t as int), dfs_spec(nodes, Seq::empty(), t))
}

/// Membership in a pushed sequence: the new element, or one already there.
pub(crate) proof fn lemma_push_contains(s: Seq<usize>, v: usize)
    ensures
        forall|x: usize| #[trigger] s.push(v).contains(x) <==> s.contains(x) || x == v,
{
    assert forall|x: usize| #[trigger] s.push(v).contains(x) implies s.contains(x) || x == v by {
        let k = choose|k: int| 0 <= k < s.push(v).len() && s.push(v)[k] == x;
        if k < s.len() {
            assert(s[k] == x);
        }
    }
    assert forall|x: usize| s.contains(x) || x == v implies #[trigger] s.push(v).contains(x) by {
        if s.contains(x) {
            let k = choose|k: int| 0 <= k < s.len() && s[k] == x;
            assert(s.push(v)[k] == x);
        } else {
            assert(s.push(v)[s.len() as int] == x);
        }
    }
}

/// A pointwise update that leaves every `prev` field alone keeps the graph
/// well formed.
pub(crate) proof fn lemma_grad_only_update_keeps_wf(before: Seq<Value>, after: Seq<Value>)
    requires
        after.len() == before.len(),
        forall|n: int| 0 <= n < before.len() ==> (#[trigger] after[n]).prev == before[n].prev,
        forall|n: int| 0 <= n < before.len() ==> #[trigger] node_wf(before, n),
    ensures
        forall|n: int| 0 <= n < after.len() ==> #[trigger] node_wf(after, n),
{
    assert forall|n: int| 0 <= n < after.len() implies #[trigger] node_wf(after, n) by {
        assert(node_wf(before, n));
        assert(after[n].prev == before[n].prev);
    }
}

} // verus!
