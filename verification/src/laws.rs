use vstd::prelude::*;

use crate::graph::{
    back_step, backward_spec, bump_grad, dag_wf, dfs_spec, lemma_push_contains, node_wf,
    propagate, reaches, same_shape, seeded, Op, RefValue, Value,
};
use crate::scalar::{IntScalar, ScalarOps};

verus! {

/// The set named by `s` is closed under origin links: whenever a node is in
/// it, so is every operand of that node.
spec fn closed_under_origins(nodes: Seq<Value>, s: Seq<usize>) -> bool {
    forall|x: usize|
        #[trigger] s.contains(x) && x < nodes.len() ==> (match nodes[x as int].prev {
            None => true,
            Some(op) => match op {
                Op::Add(a, b) => s.contains(a.i) && s.contains(b.i),
                Op::Mul(a, b) => s.contains(a.i) && s.contains(b.i),
                Op::Tanh(a) => s.contains(a.i),
                Op::Exp(a) => s.contains(a.i),
                Op::Relu(a) => s.contains(a.i),
                Op::Pow(a, _) => s.contains(a.i),
            },
        })
}

/// Whatever is already laid out stays laid out: the walk only appends.
proof fn lemma_dfs_keeps(nodes: Seq<Value>, acc: Seq<usize>, v: usize, x: usize)
    requires
        acc.contains(x),
    ensures
        dfs_spec(nodes, acc, v).contains(x),
    decreases v,
{
    if !acc.contains(v) {
        match nodes[v as int].prev {
            None => lemma_push_contains(acc, v),
            Some(op) => match op {
                Op::Add(a, b) => {
                    if a.i < v && b.i < v {
                        lemma_dfs_keeps(nodes, acc, a.i, x);
                        lemma_dfs_keeps(nodes, dfs_spec(nodes, acc, a.i), b.i, x);
                        lemma_push_contains(dfs_spec(nodes, dfs_spec(nodes, acc, a.i), b.i), v);
                    } else {
                        lemma_push_contains(acc, v);
                    }
                },
                Op::Mul(a, b) => {
                    if a.i < v && b.i < v {
                        lemma_dfs_keeps(nodes, acc, a.i, x);
                        lemma_dfs_keeps(nodes, dfs_spec(nodes, acc, a.i), b.i, x);
                        lemma_push_contains(dfs_spec(nodes, dfs_spec(nodes, acc, a.i), b.i), v);
                    } else {
                        lemma_push_contains(acc, v);
                    }
                },
                Op::Tanh(a) => {
                    if a.i < v {
                        lemma_dfs_keeps(nodes, acc, a.i, x);
                        lemma_push_contains(dfs_spec(nodes, acc, a.i), v);
                    } else {
                        lemma_push_contains(acc, v);
                    }
                },
                Op::Exp(a) => {
                    if a.i < v {
                        lemma_dfs_keeps(nodes, acc, a.i, x);
                        lemma_push_contains(dfs_spec(nodes, acc, a.i), v);
                    } else {
                        lemma_push_contains(acc, v);
                    }
                },
                Op::Relu(a) => {
                    if a.i < v {
                        lemma_dfs_keeps(nodes, acc, a.i, x);
                        lemma_push_contains(dfs_spec(nodes, acc, a.i), v);
                    } else {
                        lemma_push_contains(acc, v);
                    }
                },
                Op::Pow(a, _) => {
                    if a.i < v {
                        lemma_dfs_keeps(nodes, acc, a.i, x);
                        lemma_push_contains(dfs_spec(nodes, acc, a.i), v);
                    } else {
                        lemma_push_contains(acc, v);
                    }
                },
            },
        }
    }
}

/// The walk from `v` lays out the root itself.
proof fn lemma_dfs_adds_root(nodes: Seq<Value>, acc: Seq<usize>, v: usize)
    ensures
        dfs_spec(nodes, acc, v).contains(v),
{
    if !acc.contains(v) {
        let r = dfs_spec(nodes, acc, v);
        assert(r[r.len() - 1] == v);
        assert(r.contains(v));
    }
}

/// Whatever the walk from `v` newly lays out lies at or below `v`.
proof fn lemma_dfs_new_below(nodes: Seq<Value>, acc: Seq<usize>, v: usize, x: usize)
    requires
        dfs_spec(nodes, acc, v).contains(x),
        !acc.contains(x),
    ensures
        x <= v,
    decreases v,
{
    if !acc.contains(v) {
        match nodes[v as int].prev {
            None => lemma_push_contains(acc, v),
            Some(op) => match op {
                Op::Add(a, b) => {
                    if a.i < v && b.i < v {
                        let mid = dfs_spec(nodes, acc, a.i);
                        lemma_push_contains(dfs_spec(nodes, mid, b.i), v);
                        if x != v {
                            assert(dfs_spec(nodes, mid, b.i).contains(x));
                            if mid.contains(x) {
                                lemma_dfs_new_below(nodes, acc, a.i, x);
                            } else {
                                lemma_dfs_new_below(nodes, mid, b.i, x);
                            }
                        }
                    } else {
                        lemma_push_contains(acc, v);
                    }
                },
                Op::Mul(a, b) => {
                    if a.i < v && b.i < v {
                        let mid = dfs_spec(nodes, acc, a.i);
                        lemma_push_contains(dfs_spec(nodes, mid, b.i), v);
                        if x != v {
                            assert(dfs_spec(nodes, mid, b.i).contains(x));
                            if mid.contains(x) {
                                lemma_dfs_new_below(nodes, acc, a.i, x);
                            } else {
                                lemma_dfs_new_below(nodes, mid, b.i, x);
                            }
                        }
                    } else {
                        lemma_push_contains(acc, v);
                    }
                },
                Op::Tanh(a) => {
                    if a.i < v {
                        lemma_push_contains(dfs_spec(nodes, acc, a.i), v);
                        if x != v {
                            lemma_dfs_new_below(nodes, acc, a.i, x);
                        }
                    } else {
                        lemma_push_contains(acc, v);
                    }
                },
                Op::Exp(a) => {
                    if a.i < v {
                        lemma_push_contains(dfs_spec(nodes, acc, a.i), v);
                        if x != v {
                            lemma_dfs_new_below(nodes, acc, a.i, x);
                        }
                    } else {
                        lemma_push_contains(acc, v);
                    }
                },
                Op::Relu(a) => {
                    if a.i < v {
                        lemma_push_contains(dfs_spec(nodes, acc, a.i), v);
                        if x != v {
                            lemma_dfs_new_below(nodes, acc, a.i, x);
                        }
                    } else {
                        lemma_push_contains(acc, v);
                    }
                },
                Op::Pow(a, _) => {
                    if a.i < v {
                        lemma_push_contains(dfs_spec(nodes, acc, a.i), v);
                        if x != v {
                            lemma_dfs_new_below(nodes, acc, a.i, x);
                        }
                    } else {
                        lemma_push_contains(acc, v);
                    }
                },
            },
        }
    }
}

/// The node at `x` has all its operands inside the set named by `s`.
pub open spec fn origin_covered(nodes: Seq<Value>, s: Seq<usize>, x: usize) -> bool {
    match nodes[x as int].prev {
        None => true,
        Some(op) => match op {
            Op::Add(a, b) => s.contains(a.i) && s.contains(b.i),
            Op::Mul(a, b) => s.contains(a.i) && s.contains(b.i),
            Op::Tanh(a) => s.contains(a.i),
            Op::Exp(a) => s.contains(a.i),
            Op::Relu(a) => s.contains(a.i),
            Op::Pow(a, _) => s.contains(a.i),
        },
    }
}

/// A sequence without duplicates stays without them when an element not yet
/// present is appended.
proof fn lemma_distinct_push(s: Seq<usize>, v: usize)
    requires
        s.no_duplicates(),
        !s.contains(v),
    ensures
        s.push(v).no_duplicates(),
{
    let r = s.push(v);
    assert forall|i: int, j: int|
        0 <= i < r.len() && 0 <= j < r.len() && i != j implies r[i] != r[j] by {
        if i < s.len() && j < s.len() {
            assert(s[i] != s[j]);
        } else if i < s.len() && j == s.len() {
            if s[i] == v {
                assert(s.contains(v));
            }
        } else if j < s.len() && i == s.len() {
            if s[j] == v {
                assert(s.contains(v));
            }
        }
    }
}

/// Covering operands survives appending one more element to the set.
proof fn lemma_covered_push(nodes: Seq<Value>, s: Seq<usize>, v: usize, x: usize)
    requires
        origin_covered(nodes, s, x),
    ensures
        origin_covered(nodes, s.push(v), x),
{
    lemma_push_contains(s, v);
}

/// A closed set stays closed when a node whose operands it already holds is
/// appended.
proof fn lemma_closed_push(nodes: Seq<Value>, s: Seq<usize>, v: usize)
    requires
        closed_under_origins(nodes, s),
        origin_covered(nodes, s, v),
    ensures
        closed_under_origins(nodes, s.push(v)),
{
    lemma_push_contains(s, v);
    assert forall|x: usize|
        #[trigger] s.push(v).contains(x) && x < nodes.len() implies origin_covered(
        nodes,
        s.push(v),
        x,
    ) by {
        if s.contains(x) {
            assert(origin_covered(nodes, s, x));
            lemma_covered_push(nodes, s, v, x);
        } else {
            assert(x == v);
            lemma_covered_push(nodes, s, v, x);
        }
    }
}

/// The walk never lays a node out twice.
proof fn lemma_dfs_distinct(nodes: Seq<Value>, acc: Seq<usize>, v: usize)
    requires
        acc.no_duplicates(),
    ensures
        dfs_spec(nodes, acc, v).no_duplicates(),
    decreases v,
{
    if !acc.contains(v) {
        match nodes[v as int].prev {
            None => lemma_distinct_push(acc, v),
            Some(op) => match op {
                Op::Add(a, b) => {
                    if a.i < v && b.i < v {
                        lemma_dfs_distinct(nodes, acc, a.i);
                        let mid = dfs_spec(nodes, acc, a.i);
                        lemma_dfs_distinct(nodes, mid, b.i);
                        let des = dfs_spec(nodes, mid, b.i);
                        if des.contains(v) {
                            if mid.contains(v) {
                                lemma_dfs_new_below(nodes, acc, a.i, v);
                            } else {
                                lemma_dfs_new_below(nodes, mid, b.i, v);
                            }
                        }
                        lemma_distinct_push(des, v);
                    } else {
                        lemma_distinct_push(acc, v);
                    }
                },
                Op::Mul(a, b) => {
                    if a.i < v && b.i < v {
                        lemma_dfs_distinct(nodes, acc, a.i);
                        let mid = dfs_spec(nodes, acc, a.i);
                        lemma_dfs_distinct(nodes, mid, b.i);
                        let des = dfs_spec(nodes, mid, b.i);
                        if des.contains(v) {
                            if mid.contains(v) {
                                lemma_dfs_new_below(nodes, acc, a.i, v);
                            } else {
                                lemma_dfs_new_below(nodes, mid, b.i, v);
                            }
                        }
                        lemma_distinct_push(des, v);
                    } else {
                        lemma_distinct_push(acc, v);
                    }
                },
                Op::Tanh(a) => {
                    if a.i < v {
                        lemma_dfs_distinct(nodes, acc, a.i);
                        let mid = dfs_spec(nodes, acc, a.i);
                        if mid.contains(v) {
                            lemma_dfs_new_below(nodes, acc, a.i, v);
                        }
                        lemma_distinct_push(mid, v);
                    } else {
                        lemma_distinct_push(acc, v);
                    }
                },
                Op::Exp(a) => {
                    if a.i < v {
                        lemma_dfs_distinct(nodes, acc, a.i);
                        let mid = dfs_spec(nodes, acc, a.i);
                        if mid.contains(v) {
                            lemma_dfs_new_below(nodes, acc, a.i, v);
                        }
                        lemma_distinct_push(mid, v);
                    } else {
                        lemma_distinct_push(acc, v);
                    }
                },
                Op::Relu(a) => {
                    if a.i < v {
                        lemma_dfs_distinct(nodes, acc, a.i);
                        let mid = dfs_spec(nodes, acc, a.i);
                        if mid.contains(v) {
                            lemma_dfs_new_below(nodes, acc, a.i, v);
                        }
                        lemma_distinct_push(mid, v);
                    } else {
                        lemma_distinct_push(acc, v);
                    }
                },
                Op::Pow(a, _) => {
                    if a.i < v {
                        lemma_dfs_distinct(nodes, acc, a.i);
                        let mid = dfs_spec(nodes, acc, a.i);
                        if mid.contains(v) {
                            lemma_dfs_new_below(nodes, acc, a.i, v);
                        }
                        lemma_distinct_push(mid, v);
                    } else {
                        lemma_distinct_push(acc, v);
                    }
                },
            },
        }
    }
}

/// Starting from a closed set, the walk returns a closed set.
proof fn lemma_dfs_closed(nodes: Seq<Value>, acc: Seq<usize>, v: usize)
    requires
        dag_wf(nodes),
        v < nodes.len(),
        closed_under_origins(nodes, acc),
    ensures
        closed_under_origins(nodes, dfs_spec(nodes, acc, v)),
    decreases v,
{
    if !acc.contains(v) {
        assert(node_wf(nodes, v as int));
        match nodes[v as int].prev {
            None => lemma_closed_push(nodes, acc, v),
            Some(op) => match op {
                Op::Add(a, b) => {
                    assert(a.i < v && b.i < v);
                    lemma_dfs_closed(nodes, acc, a.i);
                    let mid = dfs_spec(nodes, acc, a.i);
                    lemma_dfs_closed(nodes, mid, b.i);
                    let des = dfs_spec(nodes, mid, b.i);
                    lemma_dfs_adds_root(nodes, acc, a.i);
                    lemma_dfs_keeps(nodes, mid, b.i, a.i);
                    lemma_dfs_adds_root(nodes, mid, b.i);
                    assert(origin_covered(nodes, des, v));
                    lemma_closed_push(nodes, des, v);
                },
                Op::Mul(a, b) => {
                    assert(a.i < v && b.i < v);
                    lemma_dfs_closed(nodes, acc, a.i);
                    let mid = dfs_spec(nodes, acc, a.i);
                    lemma_dfs_closed(nodes, mid, b.i);
                    let des = dfs_spec(nodes, mid, b.i);
                    lemma_dfs_adds_root(nodes, acc, a.i);
                    lemma_dfs_keeps(nodes, mid, b.i, a.i);
                    lemma_dfs_adds_root(nodes, mid, b.i);
                    assert(origin_covered(nodes, des, v));
                    lemma_closed_push(nodes, des, v);
                },
                Op::Tanh(a) => {
                    assert(a.i < v);
                    lemma_dfs_closed(nodes, acc, a.i);
                    let mid = dfs_spec(nodes, acc, a.i);
                    lemma_dfs_adds_root(nodes, acc, a.i);
                    assert(origin_covered(nodes, mid, v));
                    lemma_closed_push(nodes, mid, v);
                },
                Op::Exp(a) => {
                    assert(a.i < v);
                    lemma_dfs_closed(nodes, acc, a.i);
                    let mid = dfs_spec(nodes, acc, a.i);
                    lemma_dfs_adds_root(nodes, acc, a.i);
                    assert(origin_covered(nodes, mid, v));
                    lemma_closed_push(nodes, mid, v);
                },
                Op::Relu(a) => {
                    assert(a.i < v);
                    lemma_dfs_closed(nodes, acc, a.i);
                    let mid = dfs_spec(nodes, acc, a.i);
                    lemma_dfs_adds_root(nodes, acc, a.i);
                    assert(origin_covered(nodes, mid, v));
                    lemma_closed_push(nodes, mid, v);
                },
                Op::Pow(a, _) => {
                    assert(a.i < v);
                    lemma_dfs_closed(nodes, acc, a.i);
                    let mid = dfs_spec(nodes, acc, a.i);
                    lemma_dfs_adds_root(nodes, acc, a.i);
                    assert(origin_covered(nodes, mid, v));
                    lemma_closed_push(nodes, mid, v);
                },
            },
        }
    }
}

/// A closed set that holds a node holds everything that node reaches.
proof fn lemma_closed_absorbs(nodes: Seq<Value>, s: Seq<usize>, v: usize, x: usize)
    requires
        dag_wf(nodes),
        v < nodes.len(),
        closed_under_origins(nodes, s),
        s.contains(v),
        reaches(nodes, v, x),
    ensures
        s.contains(x),
    decreases v,
{
    if v != x {
        assert(node_wf(nodes, v as int));
        assert(origin_covered(nodes, s, v));
        match nodes[v as int].prev {
            None => {},
            Some(op) => match op {
                Op::Add(a, b) => {
                    if a.i < v && reaches(nodes, a.i, x) {
                        lemma_closed_absorbs(nodes, s, a.i, x);
                    } else {
                        assert(b.i < v && reaches(nodes, b.i, x));
                        lemma_closed_absorbs(nodes, s, b.i, x);
                    }
                },
                Op::Mul(a, b) => {
                    if a.i < v && reaches(nodes, a.i, x) {
                        lemma_closed_absorbs(nodes, s, a.i, x);
                    } else {
                        assert(b.i < v && reaches(nodes, b.i, x));
                        lemma_closed_absorbs(nodes, s, b.i, x);
                    }
                },
                Op::Tanh(a) => {
                    assert(a.i < v && reaches(nodes, a.i, x));
                    lemma_closed_absorbs(nodes, s, a.i, x);
                },
                Op::Exp(a) => {
                    assert(a.i < v && reaches(nodes, a.i, x));
                    lemma_closed_absorbs(nodes, s, a.i, x);
                },
                Op::Relu(a) => {
                    assert(a.i < v && reaches(nodes, a.i, x));
                    lemma_closed_absorbs(nodes, s, a.i, x);
                },
                Op::Pow(a, _) => {
                    assert(a.i < v && reaches(nodes, a.i, x));
                    lemma_closed_absorbs(nodes, s, a.i, x);
                },
            },
        }
    }
}

/// Starting from a closed set, the walk from `v` reaches everything that
/// `v` reaches.
proof fn lemma_dfs_complete(nodes: Seq<Value>, acc: Seq<usize>, v: usize, x: usize)
    requires
        dag_wf(nodes),
        v < nodes.len(),
        closed_under_origins(nodes, acc),
        reaches(nodes, v, x),
    ensures
        dfs_spec(nodes, acc, v).contains(x),
    decreases v,
{
    if acc.contains(v) {
        lemma_closed_absorbs(nodes, acc, v, x);
    } else if x == v {
        lemma_dfs_adds_root(nodes, acc, v);
    } else {
        assert(node_wf(nodes, v as int));
        match nodes[v as int].prev {
            None => {},
            Some(op) => match op {
                Op::Add(a, b) => {
                    assert(a.i < v && b.i < v);
                    let mid = dfs_spec(nodes, acc, a.i);
                    let des = dfs_spec(nodes, mid, b.i);
                    if a.i < v && reaches(nodes, a.i, x) {
                        lemma_dfs_complete(nodes, acc, a.i, x);
                        lemma_dfs_keeps(nodes, mid, b.i, x);
                    } else {
                        assert(b.i < v && reaches(nodes, b.i, x));
                        lemma_dfs_closed(nodes, acc, a.i);
                        lemma_dfs_complete(nodes, mid, b.i, x);
                    }
                    lemma_push_contains(des, v);
                },
                Op::Mul(a, b) => {
                    assert(a.i < v && b.i < v);
                    let mid = dfs_spec(nodes, acc, a.i);
                    let des = dfs_spec(nodes, mid, b.i);
                    if a.i < v && reaches(nodes, a.i, x) {
                        lemma_dfs_complete(nodes, acc, a.i, x);
                        lemma_dfs_keeps(nodes, mid, b.i, x);
                    } else {
                        assert(b.i < v && reaches(nodes, b.i, x));
                        lemma_dfs_closed(nodes, acc, a.i);
                        lemma_dfs_complete(nodes, mid, b.i, x);
                    }
                    lemma_push_contains(des, v);
                },
                Op::Tanh(a) => {
                    assert(a.i < v && reaches(nodes, a.i, x));
                    lemma_dfs_complete(nodes, acc, a.i, x);
                    lemma_push_contains(dfs_spec(nodes, acc, a.i), v);
                },
                Op::Exp(a) => {
                    assert(a.i < v && reaches(nodes, a.i, x));
                    lemma_dfs_complete(nodes, acc, a.i, x);
                    lemma_push_contains(dfs_spec(nodes, acc, a.i), v);
                },
                Op::Relu(a) => {
                    assert(a.i < v && reaches(nodes, a.i, x));
                    lemma_dfs_complete(nodes, acc, a.i, x);
                    lemma_push_contains(dfs_spec(nodes, acc, a.i), v);
                },
                Op::Pow(a, _) => {
                    assert(a.i < v && reaches(nodes, a.i, x));
                    lemma_dfs_complete(nodes, acc, a.i, x);
                    lemma_push_contains(dfs_spec(nodes, acc, a.i), v);
                },
            },
        }
    }
}

/// Whatever the walk from `v` newly lays out is reachable from `v`.
proof fn lemma_dfs_sound(nodes: Seq<Value>, acc: Seq<usize>, v: usize, x: usize)
    requires
        dag_wf(nodes),
        v < nodes.len(),
        dfs_spec(nodes, acc, v).contains(x),
        !acc.contains(x),
    ensures
        reaches(nodes, v, x),
    decreases v,
{
    if !acc.contains(v) {
        assert(node_wf(nodes, v as int));
        match nodes[v as int].prev {
            None => lemma_push_contains(acc, v),
            Some(op) => match op {
                Op::Add(a, b) => {
                    assert(a.i < v && b.i < v);
                    let mid = dfs_spec(nodes, acc, a.i);
                    let des = dfs_spec(nodes, mid, b.i);
                    lemma_push_contains(des, v);
                    if x != v {
                        assert(des.contains(x));
                        if mid.contains(x) {
                            lemma_dfs_sound(nodes, acc, a.i, x);
                        } else {
                            lemma_dfs_sound(nodes, mid, b.i, x);
                        }
                    }
                },
                Op::Mul(a, b) => {
                    assert(a.i < v && b.i < v);
                    let mid = dfs_spec(nodes, acc, a.i);
                    let des = dfs_spec(nodes, mid, b.i);
                    lemma_push_contains(des, v);
                    if x != v {
                        assert(des.contains(x));
                        if mid.contains(x) {
                            lemma_dfs_sound(nodes, acc, a.i, x);
                        } else {
                            lemma_dfs_sound(nodes, mid, b.i, x);
                        }
                    }
                },
                Op::Tanh(a) => {
                    assert(a.i < v);
                    let mid = dfs_spec(nodes, acc, a.i);
                    lemma_push_contains(mid, v);
                    if x != v {
                        assert(mid.contains(x));
                        lemma_dfs_sound(nodes, acc, a.i, x);
                    }
                },
                Op::Exp(a) => {
                    assert(a.i < v);
                    let mid = dfs_spec(nodes, acc, a.i);
                    lemma_push_contains(mid, v);
                    if x != v {
                        assert(mid.contains(x));
                        lemma_dfs_sound(nodes, acc, a.i, x);
                    }
                },
                Op::Relu(a) => {
                    assert(a.i < v);
                    let mid = dfs_spec(nodes, acc, a.i);
                    lemma_push_contains(mid, v);
                    if x != v {
                        assert(mid.contains(x));
                        lemma_dfs_sound(nodes, acc, a.i, x);
                    }
                },
                Op::Pow(a, _) => {
                    assert(a.i < v);
                    let mid = dfs_spec(nodes, acc, a.i);
                    lemma_push_contains(mid, v);
                    if x != v {
                        assert(mid.contains(x));
                        lemma_dfs_sound(nodes, acc, a.i, x);
                    }
                },
            },
        }
    }
}


/// The order lays no node out before its operands: whatever stands at
/// position `k` has every operand among the positions before `k`.
pub open spec fn order_respects_deps(nodes: Seq<Value>, s: Seq<usize>) -> bool {
    forall|k: int|
        0 <= k < s.len() ==> #[trigger] origin_covered(nodes, s.subrange(0, k), s[k])
}

/// Appending a node whose operands the order already holds keeps the order
/// dependency-respecting.
proof fn lemma_ordered_push(nodes: Seq<Value>, s: Seq<usize>, v: usize)
    requires
        order_respects_deps(nodes, s),
        origin_covered(nodes, s, v),
    ensures
        order_respects_deps(nodes, s.push(v)),
{
    let r = s.push(v);
    assert forall|k: int|
        0 <= k < r.len() implies #[trigger] origin_covered(nodes, r.subrange(0, k), r[k]) by {
        if k < s.len() {
            assert(r.subrange(0, k) =~= s.subrange(0, k));
            assert(origin_covered(nodes, s.subrange(0, k), s[k]));
        } else {
            assert(r.subrange(0, k) =~= s);
            assert(r[k] == v);
        }
    }
}

/// Starting from a dependency-respecting order, the walk returns one.
proof fn lemma_dfs_ordered(nodes: Seq<Value>, acc: Seq<usize>, v: usize)
    requires
        dag_wf(nodes),
        v < nodes.len(),
        order_respects_deps(nodes, acc),
    ensures
        order_respects_deps(nodes, dfs_spec(nodes, acc, v)),
    decreases v,
{
    if !acc.contains(v) {
        assert(node_wf(nodes, v as int));
        match nodes[v as int].prev {
            None => lemma_ordered_push(nodes, acc, v),
            Some(op) => match op {
                Op::Add(a, b) => {
                    assert(a.i < v && b.i < v);
                    lemma_dfs_ordered(nodes, acc, a.i);
                    let mid = dfs_spec(nodes, acc, a.i);
                    lemma_dfs_ordered(nodes, mid, b.i);
                    let des = dfs_spec(nodes, mid, b.i);
                    lemma_dfs_adds_root(nodes, acc, a.i);
                    lemma_dfs_keeps(nodes, mid, b.i, a.i);
                    lemma_dfs_adds_root(nodes, mid, b.i);
                    lemma_ordered_push(nodes, des, v);
                },
                Op::Mul(a, b) => {
                    assert(a.i < v && b.i < v);
                    lemma_dfs_ordered(nodes, acc, a.i);
                    let mid = dfs_spec(nodes, acc, a.i);
                    lemma_dfs_ordered(nodes, mid, b.i);
                    let des = dfs_spec(nodes, mid, b.i);
                    lemma_dfs_adds_root(nodes, acc, a.i);
                    lemma_dfs_keeps(nodes, mid, b.i, a.i);
                    lemma_dfs_adds_root(nodes, mid, b.i);
                    lemma_ordered_push(nodes, des, v);
                },
                Op::Tanh(a) => {
                    assert(a.i < v);
                    lemma_dfs_ordered(nodes, acc, a.i);
                    let mid = dfs_spec(nodes, acc, a.i);
                    lemma_dfs_adds_root(nodes, acc, a.i);
                    lemma_ordered_push(nodes, mid, v);
                },
                Op::Exp(a) => {
                    assert(a.i < v);
                    lemma_dfs_ordered(nodes, acc, a.i);
                    let mid = dfs_spec(nodes, acc, a.i);
                    lemma_dfs_adds_root(nodes, acc, a.i);
                    lemma_ordered_push(nodes, mid, v);
                },
                Op::Relu(a) => {
                    assert(a.i < v);
                    lemma_dfs_ordered(nodes, acc, a.i);
                    let mid = dfs_spec(nodes, acc, a.i);
                    lemma_dfs_adds_root(nodes, acc, a.i);
                    lemma_ordered_push(nodes, mid, v);
                },
                Op::Pow(a, _) => {
                    assert(a.i < v);
                    lemma_dfs_ordered(nodes, acc, a.i);
                    let mid = dfs_spec(nodes, acc, a.i);
                    lemma_dfs_adds_root(nodes, acc, a.i);
                    lemma_ordered_push(nodes, mid, v);
                },
            },
        }
    }
}

/// Topological-order exactness: in a well-formed graph, the order phase of a
/// backward pass from `target` lays out every node reachable from `target`
/// exactly once — no node appears twice, however many distinct paths lead to
/// it, and no reachable node is missing — and in dependency order: every
/// node's operands stand strictly before it, so the propagation phase, which
/// walks the order in reverse, lets every consumer finish contributing to a
/// node before that node pushes into its own operands.
pub proof fn lemma_topological_order_exact(nodes: Seq<Value>, target: usize)
    requires
        dag_wf(nodes),
        target < nodes.len(),
    ensures
        dfs_spec(nodes, Seq::<usize>::empty(), target).no_duplicates(),
        forall|x: usize|
            #[trigger] dfs_spec(nodes, Seq::<usize>::empty(), target).contains(x) <==> reaches(
                nodes,
                target,
                x,
            ),
        order_respects_deps(nodes, dfs_spec(nodes, Seq::<usize>::empty(), target)),
{
    let acc = Seq::<usize>::empty();
    lemma_dfs_distinct(nodes, acc, target);
    lemma_dfs_ordered(nodes, acc, target);
    assert forall|x: usize|
        #[trigger] dfs_spec(nodes, acc, target).contains(x) <==> reaches(nodes, target, x) by {
        if dfs_spec(nodes, acc, target).contains(x) {
            lemma_dfs_sound(nodes, acc, target, x);
        }
        if reaches(nodes, target, x) {
            lemma_dfs_complete(nodes, acc, target, x);
        }
    }
}

/// Local derivative correctness for addition: with two leaves holding `x`
/// and `y` and their sum as the backward target, each leaf's gradient is one
/// unit — its fresh zero plus `1 * 1`, the local partial times the seed —
/// and the target keeps the seed itself.
pub proof fn lemma_backward_add_partials<S: ScalarOps>(x: u64, y: u64)
    ensures
        ({
            let nodes = seq![
                (Value { value: x, grad: 0u64, prev: None }),
                (Value { value: y, grad: 0u64, prev: None }),
                (Value {
                    value: S::s_add(x, y),
                    grad: 0u64,
                    prev: Some(Op::Add((RefValue { i: 0 }), (RefValue { i: 1 }))),
                }),
            ];
            let after = backward_spec::<S>(nodes, 2);
            after[0].grad == S::s_add(0u64, S::s_mul(S::s_one(), S::s_one())) && after[1].grad
                == S::s_add(0u64, S::s_mul(S::s_one(), S::s_one())) && after[2].grad
                == S::s_one()
        }),
{
    let nodes = seq![
        (Value { value: x, grad: 0u64, prev: None }),
        (Value { value: y, grad: 0u64, prev: None }),
        (Value {
            value: S::s_add(x, y),
            grad: 0u64,
            prev: Some(Op::Add((RefValue { i: 0 }), (RefValue { i: 1 }))),
        }),
    ];
    let empty = Seq::<usize>::empty();
    assert(!empty.contains(0usize));
    assert(dfs_spec(nodes, empty, 0) =~= seq![0usize]);
    assert(!seq![0usize].contains(1usize));
    assert(dfs_spec(nodes, seq![0usize], 1) =~= seq![0usize, 1usize]);
    assert(!seq![0usize, 1usize].contains(2usize));
    assert(dfs_spec(nodes, empty, 2) =~= seq![0usize, 1usize, 2usize]);
    let started = seeded::<S>(nodes, 2);
    let order = seq![0usize, 1usize, 2usize];
    assert(order.last() == 2usize);
    assert(order.drop_last() =~= seq![0usize, 1usize]);
    assert(seq![0usize, 1usize].drop_last() =~= seq![0usize]);
    assert(seq![0usize].drop_last() =~= empty);
    let stepped = back_step::<S>(started, 2);
    assert(stepped[0].grad == S::s_add(0u64, S::s_mul(S::s_one(), S::s_one())));
    assert(stepped[1].grad == S::s_add(0u64, S::s_mul(S::s_one(), S::s_one())));
    assert(back_step::<S>(stepped, 1) == stepped);
    assert(back_step::<S>(stepped, 0) == stepped);
    assert(propagate::<S>(started, order) == propagate::<S>(stepped, seq![0usize, 1usize]));
    assert(propagate::<S>(stepped, seq![0usize, 1usize]) == propagate::<S>(stepped, seq![0usize]));
    assert(propagate::<S>(stepped, seq![0usize]) == propagate::<S>(stepped, empty));
    assert(propagate::<S>(stepped, empty) == stepped);
    assert(backward_spec::<S>(nodes, 2) == propagate::<S>(started, order));
}

/// Local derivative correctness for multiplication: with two leaves holding
/// `x` and `y` and their product as the backward target, each leaf's
/// gradient is the other leaf's value times the seed.
pub proof fn lemma_backward_mul_partials<S: ScalarOps>(x: u64, y: u64)
    ensures
        ({
            let nodes = seq![
                (Value { value: x, grad: 0u64, prev: None }),
                (Value { value: y, grad: 0u64, prev: None }),
                (Value {
                    value: S::s_mul(x, y),
                    grad: 0u64,
                    prev: Some(Op::Mul((RefValue { i: 0 }), (RefValue { i: 1 }))),
                }),
            ];
            let after = backward_spec::<S>(nodes, 2);
            after[0].grad == S::s_add(0u64, S::s_mul(y, S::s_one())) && after[1].grad == S::s_add(
                0u64,
                S::s_mul(x, S::s_one()),
            ) && after[2].grad == S::s_one()
        }),
{
    let nodes = seq![
        (Value { value: x, grad: 0u64, prev: None }),
        (Value { value: y, grad: 0u64, prev: None }),
        (Value {
            value: S::s_mul(x, y),
            grad: 0u64,
            prev: Some(Op::Mul((RefValue { i: 0 }), (RefValue { i: 1 }))),
        }),
    ];
    let empty = Seq::<usize>::empty();
    assert(!empty.contains(0usize));
    assert(dfs_spec(nodes, empty, 0) =~= seq![0usize]);
    assert(!seq![0usize].contains(1usize));
    assert(dfs_spec(nodes, seq![0usize], 1) =~= seq![0usize, 1usize]);
    assert(!seq![0usize, 1usize].contains(2usize));
    assert(dfs_spec(nodes, empty, 2) =~= seq![0usize, 1usize, 2usize]);
    let started = seeded::<S>(nodes, 2);
    let order = seq![0usize, 1usize, 2usize];
    assert(order.drop_last() =~= seq![0usize, 1usize]);
    assert(seq![0usize, 1usize].drop_last() =~= seq![0usize]);
    assert(seq![0usize].drop_last() =~= empty);
    let stepped = back_step::<S>(started, 2);
    assert(stepped[0].grad == S::s_add(0u64, S::s_mul(y, S::s_one())));
    assert(stepped[1].grad == S::s_add(0u64, S::s_mul(x, S::s_one())));
    assert(back_step::<S>(stepped, 1) == stepped);
    assert(back_step::<S>(stepped, 0) == stepped);
    assert(propagate::<S>(started, order) == propagate::<S>(stepped, seq![0usize, 1usize]));
    assert(propagate::<S>(stepped, seq![0usize, 1usize]) == propagate::<S>(stepped, seq![0usize]));
    assert(propagate::<S>(stepped, seq![0usize]) == propagate::<S>(stepped, empty));
    assert(propagate::<S>(stepped, empty) == stepped);
    assert(backward_spec::<S>(nodes, 2) == propagate::<S>(started, order));
}

/// Local derivative correctness for the hyperbolic tangent: with one leaf
/// holding `x` and its tangent as the backward target, the leaf's gradient
/// is one minus the square of the output, times the seed.
pub proof fn lemma_backward_tanh_partial<S: ScalarOps>(x: u64)
    ensures
        ({
            let nodes = seq![
                (Value { value: x, grad: 0u64, prev: None }),
                (Value { value: S::s_tanh(x), grad: 0u64, prev: Some(Op::Tanh((RefValue { i: 0 }))) }),
            ];
            let after = backward_spec::<S>(nodes, 1);
            after[0].grad == S::s_add(0u64, S::s_mul(S::s_sub(S::s_one(), S::s_mul(S::s_tanh(x), S::s_tanh(x))), S::s_one())) && after[1].grad == S::s_one()
        }),
{
    let nodes = seq![
        (Value { value: x, grad: 0u64, prev: None }),
        (Value { value: S::s_tanh(x), grad: 0u64, prev: Some(Op::Tanh((RefValue { i: 0 }))) }),
    ];
    let empty = Seq::<usize>::empty();
    assert(!empty.contains(0usize));
    assert(dfs_spec(nodes, empty, 0) =~= seq![0usize]);
    assert(!seq![0usize].contains(1usize));
    assert(dfs_spec(nodes, empty, 1) =~= seq![0usize, 1usize]);
    let started = seeded::<S>(nodes, 1);
    let order = seq![0usize, 1usize];
    assert(order.drop_last() =~= seq![0usize]);
    assert(seq![0usize].drop_last() =~= empty);
    let stepped = back_step::<S>(started, 1);
    assert(stepped[0].grad == S::s_add(0u64, S::s_mul(S::s_sub(S::s_one(), S::s_mul(S::s_tanh(x), S::s_tanh(x))), S::s_one())));
    assert(back_step::<S>(stepped, 0) == stepped);
    assert(propagate::<S>(started, order) == propagate::<S>(stepped, seq![0usize]));
    assert(propagate::<S>(stepped, seq![0usize]) == propagate::<S>(stepped, empty));
    assert(propagate::<S>(stepped, empty) == stepped);
    assert(backward_spec::<S>(nodes, 1) == propagate::<S>(started, order));
}


/// Local derivative correctness for the exponential: the leaf's gradient
/// is the output itself, times the seed.
pub proof fn lemma_backward_exp_partial<S: ScalarOps>(x: u64)
    ensures
        ({
            let nodes = seq![
                (Value { value: x, grad: 0u64, prev: None }),
                (Value { value: S::s_exp(x), grad: 0u64, prev: Some(Op::Exp((RefValue { i: 0 }))) }),
            ];
            let after = backward_spec::<S>(nodes, 1);
            after[0].grad == S::s_add(0u64, S::s_mul(S::s_exp(x), S::s_one())) && after[1].grad == S::s_one()
        }),
{
    let nodes = seq![
        (Value { value: x, grad: 0u64, prev: None }),
        (Value { value: S::s_exp(x), grad: 0u64, prev: Some(Op::Exp((RefValue { i: 0 }))) }),
    ];
    let empty = Seq::<usize>::empty();
    assert(!empty.contains(0usize));
    assert(dfs_spec(nodes, empty, 0) =~= seq![0usize]);
    assert(!seq![0usize].contains(1usize));
    assert(dfs_spec(nodes, empty, 1) =~= seq![0usize, 1usize]);
    let started = seeded::<S>(nodes, 1);
    let order = seq![0usize, 1usize];
    assert(order.drop_last() =~= seq![0usize]);
    assert(seq![0usize].drop_last() =~= empty);
    let stepped = back_step::<S>(started, 1);
    assert(stepped[0].grad == S::s_add(0u64, S::s_mul(S::s_exp(x), S::s_one())));
    assert(back_step::<S>(stepped, 0) == stepped);
    assert(propagate::<S>(started, order) == propagate::<S>(stepped, seq![0usize]));
    assert(propagate::<S>(stepped, seq![0usize]) == propagate::<S>(stepped, empty));
    assert(propagate::<S>(stepped, empty) == stepped);
    assert(backward_spec::<S>(nodes, 1) == propagate::<S>(started, order));
}


/// Local derivative correctness for the rectifier: the leaf's gradient is
/// the seed where the output is positive and a zeroed seed elsewhere.
pub proof fn lemma_backward_relu_partial<S: ScalarOps>(x: u64)
    ensures
        ({
            let nodes = seq![
                (Value { value: x, grad: 0u64, prev: None }),
                (Value { value: if S::s_is_nonneg(x) { x } else { 0u64 }, grad: 0u64, prev: Some(Op::Relu((RefValue { i: 0 }))) }),
            ];
            let after = backward_spec::<S>(nodes, 1);
            after[0].grad == S::s_add(0u64, S::s_mul(
        if S::s_is_pos(if S::s_is_nonneg(x) { x } else { 0u64 }) { S::s_one() } else { 0u64 },
        S::s_one(),
    )) && after[1].grad == S::s_one()
        }),
{
    let nodes = seq![
        (Value { value: x, grad: 0u64, prev: None }),
        (Value { value: if S::s_is_nonneg(x) { x } else { 0u64 }, grad: 0u64, prev: Some(Op::Relu((RefValue { i: 0 }))) }),
    ];
    let empty = Seq::<usize>::empty();
    assert(!empty.contains(0usize));
    assert(dfs_spec(nodes, empty, 0) =~= seq![0usize]);
    assert(!seq![0usize].contains(1usize));
    assert(dfs_spec(nodes, empty, 1) =~= seq![0usize, 1usize]);
    let started = seeded::<S>(nodes, 1);
    let order = seq![0usize, 1usize];
    assert(order.drop_last() =~= seq![0usize]);
    assert(seq![0usize].drop_last() =~= empty);
    let stepped = back_step::<S>(started, 1);
    assert(stepped[0].grad == S::s_add(0u64, S::s_mul(
        if S::s_is_pos(if S::s_is_nonneg(x) { x } else { 0u64 }) { S::s_one() } else { 0u64 },
        S::s_one(),
    )));
    assert(back_step::<S>(stepped, 0) == stepped);
    assert(propagate::<S>(started, order) == propagate::<S>(stepped, seq![0usize]));
    assert(propagate::<S>(stepped, seq![0usize]) == propagate::<S>(stepped, empty));
    assert(propagate::<S>(stepped, empty) == stepped);
    assert(backward_spec::<S>(nodes, 1) == propagate::<S>(started, order));
}


/// Local derivative correctness for a constant power: the leaf's gradient
/// is the exponent times the leaf's value raised to the exponent less one,
/// times the seed; the exponent itself gets no gradient.
pub proof fn lemma_backward_pow_partial<S: ScalarOps>(x: u64, p: u64)
    ensures
        ({
            let nodes = seq![
                (Value { value: x, grad: 0u64, prev: None }),
                (Value { value: S::s_pow(x, p), grad: 0u64, prev: Some(Op::Pow((RefValue { i: 0 }), p)) }),
            ];
            let after = backward_spec::<S>(nodes, 1);
            after[0].grad == S::s_add(0u64, S::s_mul(S::s_mul(p, S::s_pow(x, S::s_sub(p, S::s_one()))), S::s_one())) && after[1].grad == S::s_one()
        }),
{
    let nodes = seq![
        (Value { value: x, grad: 0u64, prev: None }),
        (Value { value: S::s_pow(x, p), grad: 0u64, prev: Some(Op::Pow((RefValue { i: 0 }), p)) }),
    ];
    let empty = Seq::<usize>::empty();
    assert(!empty.contains(0usize));
    assert(dfs_spec(nodes, empty, 0) =~= seq![0usize]);
    assert(!seq![0usize].contains(1usize));
    assert(dfs_spec(nodes, empty, 1) =~= seq![0usize, 1usize]);
    let started = seeded::<S>(nodes, 1);
    let order = seq![0usize, 1usize];
    assert(order.drop_last() =~= seq![0usize]);
    assert(seq![0usize].drop_last() =~= empty);
    let stepped = back_step::<S>(started, 1);
    assert(stepped[0].grad == S::s_add(0u64, S::s_mul(S::s_mul(p, S::s_pow(x, S::s_sub(p, S::s_one()))), S::s_one())));
    assert(back_step::<S>(stepped, 0) == stepped);
    assert(propagate::<S>(started, order) == propagate::<S>(stepped, seq![0usize]));
    assert(propagate::<S>(stepped, seq![0usize]) == propagate::<S>(stepped, empty));
    assert(propagate::<S>(stepped, empty) == stepped);
    assert(backward_spec::<S>(nodes, 1) == propagate::<S>(started, order));
}

/// Fan-out accumulation: when one leaf is both operands of a single
/// addition, the backward pass accumulates a unit for each use — the leaf's
/// gradient holds two contributions, never just the last one.
pub proof fn lemma_backward_fanout_accumulates<S: ScalarOps>(x: u64)
    ensures
        ({
            let nodes = seq![
                (Value { value: x, grad: 0u64, prev: None }),
                (Value {
                    value: S::s_add(x, x),
                    grad: 0u64,
                    prev: Some(Op::Add((RefValue { i: 0 }), (RefValue { i: 0 }))),
                }),
            ];
            let after = backward_spec::<S>(nodes, 1);
            after[0].grad == S::s_add(
                S::s_add(0u64, S::s_mul(S::s_one(), S::s_one())),
                S::s_mul(S::s_one(), S::s_one()),
            )
        }),
{
    let nodes = seq![
        (Value { value: x, grad: 0u64, prev: None }),
        (Value {
            value: S::s_add(x, x),
            grad: 0u64,
            prev: Some(Op::Add((RefValue { i: 0 }), (RefValue { i: 0 }))),
        }),
    ];
    let empty = Seq::<usize>::empty();
    assert(!empty.contains(0usize));
    assert(dfs_spec(nodes, empty, 0) =~= seq![0usize]);
    assert(seq![0usize][0] == 0usize);
    assert(seq![0usize].contains(0usize));
    assert(dfs_spec(nodes, seq![0usize], 0) =~= seq![0usize]);
    assert(!seq![0usize].contains(1usize));
    assert(dfs_spec(nodes, empty, 1) =~= seq![0usize, 1usize]);
    let started = seeded::<S>(nodes, 1);
    let order = seq![0usize, 1usize];
    assert(order.drop_last() =~= seq![0usize]);
    assert(seq![0usize].drop_last() =~= empty);
    let stepped = back_step::<S>(started, 1);
    assert(stepped[0].grad == S::s_add(
        S::s_add(0u64, S::s_mul(S::s_one(), S::s_one())),
        S::s_mul(S::s_one(), S::s_one()),
    ));
    assert(back_step::<S>(stepped, 0) == stepped);
    assert(propagate::<S>(started, order) == propagate::<S>(stepped, seq![0usize]));
    assert(propagate::<S>(stepped, seq![0usize]) == propagate::<S>(stepped, empty));
    assert(propagate::<S>(stepped, empty) == stepped);
    assert(backward_spec::<S>(nodes, 1) == propagate::<S>(started, order));
}

/// Fan-out accumulation in the integer scalar system, with the arithmetic
/// carried out: the doubly used leaf ends with gradient two, not one.
pub proof fn lemma_backward_fanout_counts_two(x: u64)
    ensures
        ({
            let nodes = seq![
                (Value { value: x, grad: 0u64, prev: None }),
                (Value {
                    value: IntScalar::s_add(x, x),
                    grad: 0u64,
                    prev: Some(Op::Add((RefValue { i: 0 }), (RefValue { i: 0 }))),
                }),
            ];
            backward_spec::<IntScalar>(nodes, 1)[0].grad == 2u64
        }),
{
    lemma_backward_fanout_accumulates::<IntScalar>(x);
}

/// Negation derives its gradient from the multiplication rule alone: the
/// graph negation builds — a leaf holding minus one and a product — leaves
/// the negated leaf with minus one times the seed as its gradient.
pub proof fn lemma_backward_neg_partial<S: ScalarOps>(x: u64)
    ensures
        ({
            let nodes = seq![
                (Value { value: x, grad: 0u64, prev: None }),
                (Value { value: S::s_neg_one(), grad: 0u64, prev: None }),
                (Value {
                    value: S::s_mul(x, S::s_neg_one()),
                    grad: 0u64,
                    prev: Some(Op::Mul((RefValue { i: 0 }), (RefValue { i: 1 }))),
                }),
            ];
            backward_spec::<S>(nodes, 2)[0].grad == S::s_add(
                0u64,
                S::s_mul(S::s_neg_one(), S::s_one()),
            )
        }),
{
    lemma_backward_mul_partials::<S>(x, S::s_neg_one());
}

/// Division derives its gradients from the power and multiplication rules
/// alone. In the graph division builds — the divisor raised to the power
/// minus one, then a product — the dividend's gradient is the inverse of
/// the divisor times the seed, and the divisor's gradient is minus one
/// times the divisor to the power minus two, times the dividend's
/// contribution: the closed forms `1/b` and `-a/b^2` spelled over the
/// scalar system.
pub proof fn lemma_backward_div_partials<S: ScalarOps>(x: u64, y: u64)
    ensures
        ({
            let nodes = seq![
                (Value { value: x, grad: 0u64, prev: None }),
                (Value { value: y, grad: 0u64, prev: None }),
                (Value {
                    value: S::s_pow(y, S::s_neg_one()),
                    grad: 0u64,
                    prev: Some(Op::Pow((RefValue { i: 1 }), S::s_neg_one())),
                }),
                (Value {
                    value: S::s_mul(x, S::s_pow(y, S::s_neg_one())),
                    grad: 0u64,
                    prev: Some(Op::Mul((RefValue { i: 0 }), (RefValue { i: 2 }))),
                }),
            ];
            let after = backward_spec::<S>(nodes, 3);
            after[0].grad == S::s_add(0u64, S::s_mul(S::s_pow(y, S::s_neg_one()), S::s_one()))
                && after[1].grad == S::s_add(
                0u64,
                S::s_mul(
                    S::s_mul(S::s_neg_one(), S::s_pow(y, S::s_sub(S::s_neg_one(), S::s_one()))),
                    S::s_add(0u64, S::s_mul(x, S::s_one())),
                ),
            ) && after[2].grad == S::s_add(0u64, S::s_mul(x, S::s_one()))
        }),
{
    let nodes = seq![
        (Value { value: x, grad: 0u64, prev: None }),
        (Value { value: y, grad: 0u64, prev: None }),
        (Value {
            value: S::s_pow(y, S::s_neg_one()),
            grad: 0u64,
            prev: Some(Op::Pow((RefValue { i: 1 }), S::s_neg_one())),
        }),
        (Value {
            value: S::s_mul(x, S::s_pow(y, S::s_neg_one())),
            grad: 0u64,
            prev: Some(Op::Mul((RefValue { i: 0 }), (RefValue { i: 2 }))),
        }),
    ];
    let empty = Seq::<usize>::empty();
    assert(!empty.contains(0usize));
    assert(dfs_spec(nodes, empty, 0) =~= seq![0usize]);
    assert(!seq![0usize].contains(1usize));
    assert(dfs_spec(nodes, seq![0usize], 1) =~= seq![0usize, 1usize]);
    assert(!seq![0usize].contains(2usize));
    assert(!seq![0usize, 1usize].contains(2usize));
    assert(dfs_spec(nodes, seq![0usize], 2) =~= seq![0usize, 1usize, 2usize]);
    assert(!seq![0usize, 1usize, 2usize].contains(3usize));
    assert(dfs_spec(nodes, empty, 3) =~= seq![0usize, 1usize, 2usize, 3usize]);
    let started = seeded::<S>(nodes, 3);
    let order = seq![0usize, 1usize, 2usize, 3usize];
    assert(order.drop_last() =~= seq![0usize, 1usize, 2usize]);
    assert(seq![0usize, 1usize, 2usize].drop_last() =~= seq![0usize, 1usize]);
    assert(seq![0usize, 1usize].drop_last() =~= seq![0usize]);
    assert(seq![0usize].drop_last() =~= empty);
    let first = back_step::<S>(started, 3);
    assert(first[0].grad == S::s_add(0u64, S::s_mul(S::s_pow(y, S::s_neg_one()), S::s_one())));
    assert(first[2].grad == S::s_add(0u64, S::s_mul(x, S::s_one())));
    let second = back_step::<S>(first, 2);
    assert(second[1].grad == S::s_add(
        0u64,
        S::s_mul(
            S::s_mul(S::s_neg_one(), S::s_pow(y, S::s_sub(S::s_neg_one(), S::s_one()))),
            S::s_add(0u64, S::s_mul(x, S::s_one())),
        ),
    ));
    assert(second[0].grad == first[0].grad);
    assert(back_step::<S>(second, 1) == second);
    assert(back_step::<S>(second, 0) == second);
    assert(propagate::<S>(started, order) == propagate::<S>(first, seq![0usize, 1usize, 2usize]));
    assert(propagate::<S>(first, seq![0usize, 1usize, 2usize]) == propagate::<S>(
        second,
        seq![0usize, 1usize],
    ));
    assert(propagate::<S>(second, seq![0usize, 1usize]) == propagate::<S>(second, seq![0usize]));
    assert(propagate::<S>(second, seq![0usize]) == propagate::<S>(second, empty));
    assert(propagate::<S>(second, empty) == second);
    assert(backward_spec::<S>(nodes, 3) == propagate::<S>(started, order));
}

/// The arena with every gradient reset to the zero code.
pub open spec fn zero_grads(nodes: Seq<Value>) -> Seq<Value> {
    Seq::new(
        nodes.len(),
        |k: int| Value { value: nodes[k].value, grad: 0u64, prev: nodes[k].prev },
    )
}

/// Gradient reset contract: once every gradient is reset, a backward pass
/// is a function of values and origins alone. Two arenas that agree on
/// those — say, the same graph before and after an earlier backward pass —
/// give identical gradients after reset and rerun: nothing leaks from a
/// prior pass.
pub proof fn lemma_gradient_reset<S: ScalarOps>(first: Seq<Value>, second: Seq<Value>, t: usize)
    requires
        same_shape(first, second),
    ensures
        backward_spec::<S>(zero_grads(first), t) == backward_spec::<S>(zero_grads(second), t),
{
    assert forall|k: int|
        0 <= k < zero_grads(first).len() implies zero_grads(first)[k] == zero_grads(second)[k] by {
        assert(second[k].value == first[k].value && second[k].prev == first[k].prev);
    }
    assert(zero_grads(first) =~= zero_grads(second));
}

/// The addition partials in the integer scalar system, with the arithmetic
/// carried out: each leaf ends with gradient exactly one.
pub proof fn lemma_backward_add_closed_form(x: u64, y: u64)
    ensures
        ({
            let nodes = seq![
                (Value { value: x, grad: 0u64, prev: None }),
                (Value { value: y, grad: 0u64, prev: None }),
                (Value {
                    value: IntScalar::s_add(x, y),
                    grad: 0u64,
                    prev: Some(Op::Add((RefValue { i: 0 }), (RefValue { i: 1 }))),
                }),
            ];
            let after = backward_spec::<IntScalar>(nodes, 2);
            after[0].grad == 1u64 && after[1].grad == 1u64
        }),
{
    lemma_backward_add_partials::<IntScalar>(x, y);
}

/// The multiplication partials in the integer scalar system, with the
/// arithmetic carried out: each leaf ends with exactly the other leaf's
/// value as its gradient — the closed forms themselves.
pub proof fn lemma_backward_mul_closed_form(x: u64, y: u64)
    ensures
        ({
            let nodes = seq![
                (Value { value: x, grad: 0u64, prev: None }),
                (Value { value: y, grad: 0u64, prev: None }),
                (Value {
                    value: IntScalar::s_mul(x, y),
                    grad: 0u64,
                    prev: Some(Op::Mul((RefValue { i: 0 }), (RefValue { i: 1 }))),
                }),
            ];
            let after = backward_spec::<IntScalar>(nodes, 2);
            after[0].grad == y && after[1].grad == x
        }),
{
    lemma_backward_mul_partials::<IntScalar>(x, y);
}

/// Where a position lands when everything at or above `p` moves up by `d`.
pub open spec fn moved_idx(p: int, d: int, i: usize) -> usize {
    if i < p {
        i
    } else {
        (i + d) as usize
    }
}

/// The same move applied to a handle.
pub open spec fn moved_ref(p: int, d: int, h: RefValue) -> RefValue {
    RefValue { i: moved_idx(p, d, h.i) }
}

/// The same move applied to every operand handle of an operation.
pub open spec fn moved_op(p: int, d: int, op: Op) -> Op {
    match op {
        Op::Add(a, b) => Op::Add(moved_ref(p, d, a), moved_ref(p, d, b)),
        Op::Mul(a, b) => Op::Mul(moved_ref(p, d, a), moved_ref(p, d, b)),
        Op::Tanh(a) => Op::Tanh(moved_ref(p, d, a)),
        Op::Exp(a) => Op::Exp(moved_ref(p, d, a)),
        Op::Relu(a) => Op::Relu(moved_ref(p, d, a)),
        Op::Pow(a, e) => Op::Pow(moved_ref(p, d, a), e),
    }
}

/// The node `big` is the node `small` with its operand handles moved.
pub open spec fn node_moved(p: int, d: int, small: Value, big: Value) -> bool {
    &&& big.value == small.value
    &&& big.grad == small.grad
    &&& big.prev == (match small.prev {
        None => None::<Op>,
        Some(op) => Some(moved_op(p, d, op)),
    })
}

/// The arena `big` embeds the arena `small`: positions below `p` stay where
/// they are, everything from `p` on moves up by `d`, and whatever occupies
/// the `d` positions in between is no part of the embedded graph. Such a
/// `big` arises exactly when a graph is rebuilt over the same low-numbered
/// parameter leaves after other nodes were appended in between.
pub open spec fn embeds(small: Seq<Value>, big: Seq<Value>, p: int, d: int) -> bool {
    &&& 0 <= p <= small.len()
    &&& 0 <= d
    &&& small.len() + d <= big.len()
    &&& small.len() + d <= usize::MAX
    &&& forall|z: usize|
        z < small.len() ==> node_moved(p, d, small[z as int], big[#[trigger] moved_idx(p, d, z) as int])
}

/// The move applied to a whole order of positions.
pub open spec fn moved_all(p: int, d: int, s: Seq<usize>) -> Seq<usize> {
    Seq::new(s.len(), |k: int| moved_idx(p, d, s[k]))
}

/// Moving commutes with membership: the move is injective.
proof fn lemma_moved_contains(p: int, d: int, s: Seq<usize>, x: usize)
    requires
        0 <= d,
        forall|k: int| 0 <= k < s.len() ==> #[trigger] s[k] + d <= usize::MAX,
        x + d <= usize::MAX,
    ensures
        moved_all(p, d, s).contains(moved_idx(p, d, x)) <==> s.contains(x),
{
    if s.contains(x) {
        let k = choose|k: int| 0 <= k < s.len() && s[k] == x;
        assert(moved_all(p, d, s)[k] == moved_idx(p, d, x));
    }
    if moved_all(p, d, s).contains(moved_idx(p, d, x)) {
        let k = choose|k: int|
            0 <= k < moved_all(p, d, s).len() && moved_all(p, d, s)[k] == moved_idx(p, d, x);
        assert(moved_all(p, d, s)[k] == moved_idx(p, d, s[k]));
        assert(s[k] == x);
    }
}

/// Moving commutes with appending.
proof fn lemma_moved_push(p: int, d: int, s: Seq<usize>, v: usize)
    ensures
        moved_all(p, d, s.push(v)) == moved_all(p, d, s).push(moved_idx(p, d, v)),
{
    assert(moved_all(p, d, s.push(v)) =~= moved_all(p, d, s).push(moved_idx(p, d, v)));
}

/// The order phase of the embedded graph is the moved order phase of the
/// small graph: the walk descends structurally, so moving every position
/// moves the whole order and nothing else.
proof fn lemma_dfs_moved(small: Seq<Value>, big: Seq<Value>, p: int, d: int, acc: Seq<usize>, v: usize)
    requires
        embeds(small, big, p, d),
        dag_wf(small),
        v < small.len(),
        forall|k: int| 0 <= k < acc.len() ==> #[trigger] acc[k] < small.len(),
    ensures
        dfs_spec(big, moved_all(p, d, acc), moved_idx(p, d, v)) == moved_all(
            p,
            d,
            dfs_spec(small, acc, v),
        ),
    decreases v,
{
    lemma_moved_contains(p, d, acc, v);
    assert(node_moved(p, d, small[v as int], big[moved_idx(p, d, v) as int]));
    if !acc.contains(v) {
        assert(node_wf(small, v as int));
        match small[v as int].prev {
            None => lemma_moved_push(p, d, acc, v),
            Some(op) => match op {
                Op::Add(a, b) => {
                    assert(a.i < v && b.i < v);
                    lemma_dfs_moved(small, big, p, d, acc, a.i);
                    let mid = dfs_spec(small, acc, a.i);
                    assert forall|k: int|
                        0 <= k < mid.len() implies #[trigger] mid[k] < small.len() by {
                        assert(mid.contains(mid[k]));
                        if !acc.contains(mid[k]) {
                            lemma_dfs_new_below(small, acc, a.i, mid[k]);
                        } else {
                            let q = choose|q: int| 0 <= q < acc.len() && acc[q] == mid[k];
                            assert(acc[q] < small.len());
                        }
                    }
                    lemma_dfs_moved(small, big, p, d, mid, b.i);
                    lemma_moved_push(p, d, dfs_spec(small, mid, b.i), v);
                },
                Op::Mul(a, b) => {
                    assert(a.i < v && b.i < v);
                    lemma_dfs_moved(small, big, p, d, acc, a.i);
                    let mid = dfs_spec(small, acc, a.i);
                    assert forall|k: int|
                        0 <= k < mid.len() implies #[trigger] mid[k] < small.len() by {
                        assert(mid.contains(mid[k]));
                        if !acc.contains(mid[k]) {
                            lemma_dfs_new_below(small, acc, a.i, mid[k]);
                        } else {
                            let q = choose|q: int| 0 <= q < acc.len() && acc[q] == mid[k];
                            assert(acc[q] < small.len());
                        }
                    }
                    lemma_dfs_moved(small, big, p, d, mid, b.i);
                    lemma_moved_push(p, d, dfs_spec(small, mid, b.i), v);
                },
                Op::Tanh(a) => {
                    assert(a.i < v);
                    lemma_dfs_moved(small, big, p, d, acc, a.i);
                    lemma_moved_push(p, d, dfs_spec(small, acc, a.i), v);
                },
                Op::Exp(a) => {
                    assert(a.i < v);
                    lemma_dfs_moved(small, big, p, d, acc, a.i);
                    lemma_moved_push(p, d, dfs_spec(small, acc, a.i), v);
                },
                Op::Relu(a) => {
                    assert(a.i < v);
                    lemma_dfs_moved(small, big, p, d, acc, a.i);
                    lemma_moved_push(p, d, dfs_spec(small, acc, a.i), v);
                },
                Op::Pow(a, _) => {
                    assert(a.i < v);
                    lemma_dfs_moved(small, big, p, d, acc, a.i);
                    lemma_moved_push(p, d, dfs_spec(small, acc, a.i), v);
                },
            },
        }
    }
}

/// Accumulating the same increment at corresponding positions keeps the
/// embedding.
proof fn lemma_bump_moved<S: ScalarOps>(
    small: Seq<Value>,
    big: Seq<Value>,
    p: int,
    d: int,
    t: usize,
    inc: u64,
)
    requires
        embeds(small, big, p, d),
        t < small.len(),
    ensures
        embeds(
            bump_grad::<S>(small, t as int, inc),
            bump_grad::<S>(big, moved_idx(p, d, t) as int, inc),
            p,
            d,
        ),
{
    let small2 = bump_grad::<S>(small, t as int, inc);
    let big2 = bump_grad::<S>(big, moved_idx(p, d, t) as int, inc);
    assert(node_moved(p, d, small[t as int], big[moved_idx(p, d, t) as int]));
    assert forall|z: usize|
        z < small2.len() implies node_moved(
        p,
        d,
        small2[z as int],
        big2[#[trigger] moved_idx(p, d, z) as int],
    ) by {
        assert(node_moved(p, d, small[z as int], big[moved_idx(p, d, z) as int]));
        if z != t {
            assert(moved_idx(p, d, z) != moved_idx(p, d, t));
        }
    }
}

/// One propagation step at corresponding positions keeps the embedding: the
/// step reads only corresponding values and gradients and accumulates the
/// same increments.
proof fn lemma_back_step_moved<S: ScalarOps>(
    small: Seq<Value>,
    big: Seq<Value>,
    p: int,
    d: int,
    n: usize,
)
    requires
        embeds(small, big, p, d),
        dag_wf(small),
        n < small.len(),
    ensures
        embeds(back_step::<S>(small, n as int), back_step::<S>(big, moved_idx(p, d, n) as int), p, d),
{
    assert(node_moved(p, d, small[n as int], big[moved_idx(p, d, n) as int]));
    assert(node_wf(small, n as int));
    let g = small[n as int].grad;
    match small[n as int].prev {
        None => {},
        Some(op) => match op {
            Op::Add(a, b) => {
                let inc_left = S::s_mul(S::s_one(), g);
                let inc_right = S::s_mul(S::s_one(), g);
                lemma_bump_moved::<S>(small, big, p, d, a.i, inc_left);
                lemma_bump_moved::<S>(
                    bump_grad::<S>(small, a.i as int, inc_left),
                    bump_grad::<S>(big, moved_idx(p, d, a.i) as int, inc_left),
                    p,
                    d,
                    b.i,
                    inc_right,
                );
            },
            Op::Mul(a, b) => {
                assert(node_moved(p, d, small[a.i as int], big[moved_idx(p, d, a.i) as int]));
                assert(node_moved(p, d, small[b.i as int], big[moved_idx(p, d, b.i) as int]));
                let inc_left = S::s_mul(small[b.i as int].value, g);
                let inc_right = S::s_mul(small[a.i as int].value, g);
                lemma_bump_moved::<S>(small, big, p, d, a.i, inc_left);
                lemma_bump_moved::<S>(
                    bump_grad::<S>(small, a.i as int, inc_left),
                    bump_grad::<S>(big, moved_idx(p, d, a.i) as int, inc_left),
                    p,
                    d,
                    b.i,
                    inc_right,
                );
            },
            Op::Tanh(a) => {
                lemma_bump_moved::<S>(
                    small,
                    big,
                    p,
                    d,
                    a.i,
                    S::s_mul(
                        S::s_sub(
                            S::s_one(),
                            S::s_mul(small[n as int].value, small[n as int].value),
                        ),
                        g,
                    ),
                );
            },
            Op::Exp(a) => {
                lemma_bump_moved::<S>(small, big, p, d, a.i, S::s_mul(small[n as int].value, g));
            },
            Op::Pow(a, e) => {
                assert(node_moved(p, d, small[a.i as int], big[moved_idx(p, d, a.i) as int]));
                lemma_bump_moved::<S>(
                    small,
                    big,
                    p,
                    d,
                    a.i,
                    S::s_mul(
                        S::s_mul(e, S::s_pow(small[a.i as int].value, S::s_sub(e, S::s_one()))),
                        g,
                    ),
                );
            },
            Op::Relu(a) => {
                lemma_bump_moved::<S>(
                    small,
                    big,
                    p,
                    d,
                    a.i,
                    S::s_mul(
                        if S::s_is_pos(small[n as int].value) {
                            S::s_one()
                        } else {
                            0u64
                        },
                        g,
                    ),
                );
            },
        },
    }
}

/// Accumulating into one gradient moves no value and no origin.
proof fn lemma_bump_keeps_shape<S: ScalarOps>(s: Seq<Value>, t: int, inc: u64)
    requires
        0 <= t < s.len(),
    ensures
        bump_grad::<S>(s, t, inc).len() == s.len(),
        forall|z: int|
            0 <= z < s.len() ==> ((#[trigger] bump_grad::<S>(s, t, inc)[z]).prev == s[z].prev
                && bump_grad::<S>(s, t, inc)[z].value == s[z].value),
{
    let after = bump_grad::<S>(s, t, inc);
    assert forall|z: int|
        0 <= z < s.len() implies ((#[trigger] after[z]).prev == s[z].prev && after[z].value == s[
        z
    ].value) by {
        if z != t {
            assert(after[z] == s[z]);
        }
    }
}

/// A propagation step changes gradients only, so it keeps the graph well
/// formed.
proof fn lemma_back_step_wf<S: ScalarOps>(nodes: Seq<Value>, n: int)
    requires
        dag_wf(nodes),
        0 <= n < nodes.len(),
    ensures
        dag_wf(back_step::<S>(nodes, n)),
        back_step::<S>(nodes, n).len() == nodes.len(),
        forall|z: int|
            0 <= z < nodes.len() ==> (#[trigger] back_step::<S>(nodes, n)[z]).prev == nodes[
                z
            ].prev,
{
    let after = back_step::<S>(nodes, n);
    let g = nodes[n].grad;
    assert(node_wf(nodes, n));
    match nodes[n].prev {
        None => {},
        Some(op) => match op {
            Op::Add(a, b) => {
                lemma_bump_keeps_shape::<S>(nodes, a.i as int, S::s_mul(S::s_one(), g));
                lemma_bump_keeps_shape::<S>(
                    bump_grad::<S>(nodes, a.i as int, S::s_mul(S::s_one(), g)),
                    b.i as int,
                    S::s_mul(S::s_one(), g),
                );
            },
            Op::Mul(a, b) => {
                lemma_bump_keeps_shape::<S>(nodes, a.i as int, S::s_mul(nodes[b.i as int].value, g));
                lemma_bump_keeps_shape::<S>(
                    bump_grad::<S>(nodes, a.i as int, S::s_mul(nodes[b.i as int].value, g)),
                    b.i as int,
                    S::s_mul(nodes[a.i as int].value, g),
                );
            },
            Op::Tanh(a) => {
                lemma_bump_keeps_shape::<S>(
                    nodes,
                    a.i as int,
                    S::s_mul(
                        S::s_sub(S::s_one(), S::s_mul(nodes[n].value, nodes[n].value)),
                        g,
                    ),
                );
            },
            Op::Exp(a) => {
                lemma_bump_keeps_shape::<S>(nodes, a.i as int, S::s_mul(nodes[n].value, g));
            },
            Op::Pow(a, e) => {
                lemma_bump_keeps_shape::<S>(
                    nodes,
                    a.i as int,
                    S::s_mul(
                        S::s_mul(e, S::s_pow(nodes[a.i as int].value, S::s_sub(e, S::s_one()))),
                        g,
                    ),
                );
            },
            Op::Relu(a) => {
                lemma_bump_keeps_shape::<S>(
                    nodes,
                    a.i as int,
                    S::s_mul(
                        if S::s_is_pos(nodes[n].value) {
                            S::s_one()
                        } else {
                            0u64
                        },
                        g,
                    ),
                );
            },
        },
    }
    assert forall|z: int|
        0 <= z < nodes.len() implies (#[trigger] after[z]).prev == nodes[z].prev by {}
    crate::graph::lemma_grad_only_update_keeps_wf(nodes, after);
}

/// The whole propagation phase at corresponding orders keeps the embedding.
proof fn lemma_propagate_moved<S: ScalarOps>(
    small: Seq<Value>,
    big: Seq<Value>,
    p: int,
    d: int,
    order: Seq<usize>,
)
    requires
        embeds(small, big, p, d),
        dag_wf(small),
        forall|k: int| 0 <= k < order.len() ==> #[trigger] order[k] < small.len(),
    ensures
        embeds(propagate::<S>(small, order), propagate::<S>(big, moved_all(p, d, order)), p, d),
    decreases order.len(),
{
    if order.len() == 0 {
        assert(moved_all(p, d, order).len() == 0);
    } else {
        let n = order.last();
        assert(moved_all(p, d, order).last() == moved_idx(p, d, n));
        assert(moved_all(p, d, order).drop_last() =~= moved_all(p, d, order.drop_last()));
        lemma_back_step_moved::<S>(small, big, p, d, n);
        lemma_back_step_wf::<S>(small, n as int);
        assert forall|k: int|
            0 <= k < order.drop_last().len() implies #[trigger] order.drop_last()[k] < back_step::<
            S,
        >(small, n as int).len() by {
            assert(order[k] < small.len());
        }
        lemma_propagate_moved::<S>(
            back_step::<S>(small, n as int),
            back_step::<S>(big, moved_idx(p, d, n) as int),
            p,
            d,
            order.drop_last(),
        );
    }
}

/// Seeding corresponding targets keeps the embedding.
proof fn lemma_seeded_moved<S: ScalarOps>(
    small: Seq<Value>,
    big: Seq<Value>,
    p: int,
    d: int,
    t: usize,
)
    requires
        embeds(small, big, p, d),
        t < small.len(),
    ensures
        embeds(seeded::<S>(small, t as int), seeded::<S>(big, moved_idx(p, d, t) as int), p, d),
{
    let small2 = seeded::<S>(small, t as int);
    let big2 = seeded::<S>(big, moved_idx(p, d, t) as int);
    assert(node_moved(p, d, small[t as int], big[moved_idx(p, d, t) as int]));
    assert forall|z: usize|
        z < small2.len() implies node_moved(
        p,
        d,
        small2[z as int],
        big2[#[trigger] moved_idx(p, d, z) as int],
    ) by {
        assert(node_moved(p, d, small[z as int], big[moved_idx(p, d, z) as int]));
        if z != t {
            assert(moved_idx(p, d, z) != moved_idx(p, d, t));
        }
    }
}

/// Seeding changes one gradient only, so it keeps the graph well formed.
proof fn lemma_seeded_wf<S: ScalarOps>(nodes: Seq<Value>, t: int)
    requires
        dag_wf(nodes),
        0 <= t < nodes.len(),
    ensures
        dag_wf(seeded::<S>(nodes, t)),
{
    let after = seeded::<S>(nodes, t);
    assert forall|z: int|
        0 <= z < nodes.len() implies (#[trigger] after[z]).prev == nodes[z].prev by {
        if z != t {
            assert(after[z] == nodes[z]);
        }
    }
    crate::graph::lemma_grad_only_update_keeps_wf(nodes, after);
}

/// Gradient reset in its rebuilt-graph form: when a graph is rebuilt over
/// the same low-numbered parameter leaves — with any number of stale nodes
/// from earlier passes sitting in between, untouched and unreachable — a
/// backward pass through the rebuilt graph leaves every embedded node,
/// parameters included, with exactly the gradient the fresh renumbered
/// graph would get. Nothing leaks from the prior pass.
pub proof fn lemma_backward_renumbered<S: ScalarOps>(
    small: Seq<Value>,
    big: Seq<Value>,
    p: int,
    d: int,
    t: usize,
)
    requires
        embeds(small, big, p, d),
        dag_wf(small),
        t < small.len(),
    ensures
        embeds(
            backward_spec::<S>(small, t),
            backward_spec::<S>(big, moved_idx(p, d, t)),
            p,
            d,
        ),
{
    let order = dfs_spec(small, Seq::<usize>::empty(), t);
    assert(moved_all(p, d, Seq::<usize>::empty()).len() == 0);
    assert(moved_all(p, d, Seq::<usize>::empty()) =~= Seq::<usize>::empty());
    lemma_dfs_moved(small, big, p, d, Seq::<usize>::empty(), t);
    assert forall|k: int| 0 <= k < order.len() implies #[trigger] order[k] < small.len() by {
        assert(order.contains(order[k]));
        lemma_dfs_new_below(small, Seq::<usize>::empty(), t, order[k]);
    }
    lemma_seeded_moved::<S>(small, big, p, d, t);
    lemma_seeded_wf::<S>(small, t as int);
    lemma_propagate_moved::<S>(
        seeded::<S>(small, t as int),
        seeded::<S>(big, moved_idx(p, d, t) as int),
        p,
        d,
        order,
    );
}

} // verus!
