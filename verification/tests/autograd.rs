use rustygrad::graph::{Dag, RefValue};
use rustygrad::scalar::ScalarOps;

/// IEEE double-precision arithmetic as a scalar system: a code is the bit
/// pattern of an `f64`, and every operation mirrors the ordinary one.
struct FloatOps;

impl ScalarOps for FloatOps {
    fn s_one() -> u64 {
        1.0f64.to_bits()
    }

    fn s_neg_one() -> u64 {
        (-1.0f64).to_bits()
    }

    fn s_add(a: u64, b: u64) -> u64 {
        (f64::from_bits(a) + f64::from_bits(b)).to_bits()
    }

    fn s_sub(a: u64, b: u64) -> u64 {
        (f64::from_bits(a) - f64::from_bits(b)).to_bits()
    }

    fn s_mul(a: u64, b: u64) -> u64 {
        (f64::from_bits(a) * f64::from_bits(b)).to_bits()
    }

    fn s_pow(a: u64, b: u64) -> u64 {
        f64::from_bits(a).powf(f64::from_bits(b)).to_bits()
    }

    fn s_tanh(a: u64) -> u64 {
        f64::from_bits(a).tanh().to_bits()
    }

    fn s_exp(a: u64) -> u64 {
        f64::from_bits(a).exp().to_bits()
    }

    fn s_is_pos(a: u64) -> bool {
        f64::from_bits(a) > 0.0
    }

    fn s_is_nonneg(a: u64) -> bool {
        f64::from_bits(a) >= 0.0
    }

    fn one(&self) -> u64 {
        1.0f64.to_bits()
    }

    fn neg_one(&self) -> u64 {
        (-1.0f64).to_bits()
    }

    fn add(&self, a: u64, b: u64) -> u64 {
        (f64::from_bits(a) + f64::from_bits(b)).to_bits()
    }

    fn sub(&self, a: u64, b: u64) -> u64 {
        (f64::from_bits(a) - f64::from_bits(b)).to_bits()
    }

    fn mul(&self, a: u64, b: u64) -> u64 {
        (f64::from_bits(a) * f64::from_bits(b)).to_bits()
    }

    fn pow(&self, a: u64, b: u64) -> u64 {
        f64::from_bits(a).powf(f64::from_bits(b)).to_bits()
    }

    fn tanh(&self, a: u64) -> u64 {
        f64::from_bits(a).tanh().to_bits()
    }

    fn exp(&self, a: u64) -> u64 {
        f64::from_bits(a).exp().to_bits()
    }

    fn is_pos(&self, a: u64) -> bool {
        f64::from_bits(a) > 0.0
    }

    fn is_nonneg(&self, a: u64) -> bool {
        f64::from_bits(a) >= 0.0
    }
}

fn bits(x: f64) -> u64 {
    x.to_bits()
}

fn num(x: u64) -> f64 {
    f64::from_bits(x)
}

fn close(a: f64, b: f64) -> bool {
    (a - b).abs() < 1e-9
}

#[test]
fn add_partials() {
    let ops = FloatOps;
    let mut dag = Dag::new();
    let a = RefValue::new(&mut dag, bits(2.0));
    let b = RefValue::new(&mut dag, bits(3.0));
    let c = a.add(b, &mut dag, &ops);
    assert_eq!(num(c.item(&dag)), 5.0);
    c.backward(&mut dag, &ops);
    assert_eq!(num(a.grad(&dag)), 1.0);
    assert_eq!(num(b.grad(&dag)), 1.0);
    assert_eq!(num(c.grad(&dag)), 1.0);
}

#[test]
fn mul_partials() {
    let ops = FloatOps;
    let mut dag = Dag::new();
    let a = RefValue::new(&mut dag, bits(2.0));
    let b = RefValue::new(&mut dag, bits(3.0));
    let c = a.mul(b, &mut dag, &ops);
    assert_eq!(num(c.item(&dag)), 6.0);
    c.backward(&mut dag, &ops);
    assert_eq!(num(a.grad(&dag)), 3.0);
    assert_eq!(num(b.grad(&dag)), 2.0);
}

#[test]
fn tanh_partial() {
    let ops = FloatOps;
    let mut dag = Dag::new();
    let a = RefValue::new(&mut dag, bits(0.5));
    let t = a.tanh(&mut dag, &ops);
    let out = num(t.item(&dag));
    assert!(close(out, 0.5f64.tanh()));
    t.backward(&mut dag, &ops);
    assert!(close(num(a.grad(&dag)), 1.0 - out * out));
}

#[test]
fn exp_partial() {
    let ops = FloatOps;
    let mut dag = Dag::new();
    let a = RefValue::new(&mut dag, bits(1.3));
    let e = a.exp(&mut dag, &ops);
    assert!(close(num(e.item(&dag)), 1.3f64.exp()));
    e.backward(&mut dag, &ops);
    assert!(close(num(a.grad(&dag)), 1.3f64.exp()));
}

#[test]
fn relu_partial_positive() {
    let ops = FloatOps;
    let mut dag = Dag::new();
    let a = RefValue::new(&mut dag, bits(2.5));
    let r = a.relu(&mut dag, &ops);
    assert_eq!(num(r.item(&dag)), 2.5);
    r.backward(&mut dag, &ops);
    assert_eq!(num(a.grad(&dag)), 1.0);
}

#[test]
fn relu_partial_negative() {
    let ops = FloatOps;
    let mut dag = Dag::new();
    let a = RefValue::new(&mut dag, bits(-3.0));
    let r = a.relu(&mut dag, &ops);
    assert_eq!(num(r.item(&dag)), 0.0);
    r.backward(&mut dag, &ops);
    assert_eq!(num(a.grad(&dag)), 0.0);
}

#[test]
fn relu_at_zero() {
    let ops = FloatOps;
    let mut dag = Dag::new();
    let a = RefValue::new(&mut dag, bits(0.0));
    let r = a.relu(&mut dag, &ops);
    assert_eq!(num(r.item(&dag)), 0.0);
    r.backward(&mut dag, &ops);
    // The output is not strictly positive, so nothing flows back.
    assert_eq!(num(a.grad(&dag)), 0.0);
}

#[test]
fn pow_partial() {
    let ops = FloatOps;
    let mut dag = Dag::new();
    let a = RefValue::new(&mut dag, bits(3.0));
    let p = a.powf(bits(4.0), &mut dag, &ops);
    assert_eq!(num(p.item(&dag)), 81.0);
    p.backward(&mut dag, &ops);
    assert!(close(num(a.grad(&dag)), 4.0 * 27.0));
}

#[test]
fn fanout_accumulates() {
    let ops = FloatOps;
    let mut dag = Dag::new();
    let a = RefValue::new(&mut dag, bits(1.5));
    let c = a.add(a, &mut dag, &ops);
    c.backward(&mut dag, &ops);
    assert_eq!(num(a.grad(&dag)), 2.0);
}

#[test]
fn fanout_through_square() {
    let ops = FloatOps;
    let mut dag = Dag::new();
    let a = RefValue::new(&mut dag, bits(3.0));
    let b = a.add(a, &mut dag, &ops);
    let c = b.mul(b, &mut dag, &ops);
    assert_eq!(num(c.item(&dag)), 36.0);
    c.backward(&mut dag, &ops);
    // c = (2a)^2, so dc/da = 8a = 24; a single-visit traversal in the
    // wrong order, or a double visit, would give something else.
    assert_eq!(num(b.grad(&dag)), 12.0);
    assert_eq!(num(a.grad(&dag)), 24.0);
}

#[test]
fn chain_rule_end_to_end() {
    let ops = FloatOps;
    let mut dag = Dag::new();
    let x1 = RefValue::new(&mut dag, bits(2.0));
    let x2 = RefValue::new(&mut dag, bits(0.0));
    let w1 = RefValue::new(&mut dag, bits(-3.0));
    let w2 = RefValue::new(&mut dag, bits(1.0));
    let b = RefValue::new(&mut dag, bits(6.8813735870195432));
    let x1w1 = x1.mul(w1, &mut dag, &ops);
    let x2w2 = x2.mul(w2, &mut dag, &ops);
    let s = x1w1.add(x2w2, &mut dag, &ops);
    let n = s.add(b, &mut dag, &ops);
    let o = n.tanh(&mut dag, &ops);
    assert!(close(num(o.item(&dag)), 0.7071067811865476));
    o.backward(&mut dag, &ops);
    assert!(close(num(x1.grad(&dag)), -1.5));
    assert!(close(num(w1.grad(&dag)), 1.0));
    assert!(close(num(x2.grad(&dag)), 0.5));
    assert!(close(num(w2.grad(&dag)), 0.0));
}

#[test]
fn exp_identity_matches_tanh() {
    // The same value computed the long way round, as the training demo
    // does: tanh(n) == (exp(2n) - 1) / (exp(2n) + 1).
    let ops = FloatOps;
    let mut dag = Dag::new();
    let n = RefValue::new(&mut dag, bits(0.8813735870195432));
    let two_n = n.mul_value(bits(2.0), &mut dag, &ops);
    let e = two_n.exp(&mut dag, &ops);
    let upper = e.sub_value(bits(1.0), &mut dag, &ops);
    let lower = e.add_value(bits(1.0), &mut dag, &ops);
    let o = upper.div(lower, &mut dag, &ops);
    let t = n.tanh(&mut dag, &ops);
    assert!(close(num(o.item(&dag)), num(t.item(&dag))));
}

#[test]
fn idempotent_forward() {
    let ops = FloatOps;
    let mut dag = Dag::new();
    let a = RefValue::new(&mut dag, bits(1.25));
    let b = a.exp(&mut dag, &ops);
    let first = b.item(&dag);
    let second = b.item(&dag);
    assert_eq!(first, second);
    b.backward(&mut dag, &ops);
    // The backward pass touches gradients only.
    assert_eq!(b.item(&dag), first);
    assert_eq!(num(a.item(&dag)), 1.25);
}

#[test]
fn division_and_negation_derived() {
    let ops = FloatOps;
    let mut dag = Dag::new();
    let a = RefValue::new(&mut dag, bits(6.0));
    let b = RefValue::new(&mut dag, bits(3.0));
    let d = a.div(b, &mut dag, &ops);
    assert_eq!(num(d.item(&dag)), 2.0);
    d.backward(&mut dag, &ops);
    assert!(close(num(a.grad(&dag)), 1.0 / 3.0));
    assert!(close(num(b.grad(&dag)), -6.0 / 9.0));
}

#[test]
fn negation_partial() {
    let ops = FloatOps;
    let mut dag = Dag::new();
    let a = RefValue::new(&mut dag, bits(2.0));
    let n = a.neg(&mut dag, &ops);
    assert_eq!(num(n.item(&dag)), -2.0);
    n.backward(&mut dag, &ops);
    assert_eq!(num(a.grad(&dag)), -1.0);
}

#[test]
fn subtraction_partials() {
    let ops = FloatOps;
    let mut dag = Dag::new();
    let a = RefValue::new(&mut dag, bits(5.0));
    let b = RefValue::new(&mut dag, bits(1.5));
    let d = a.sub(b, &mut dag, &ops);
    assert_eq!(num(d.item(&dag)), 3.5);
    d.backward(&mut dag, &ops);
    assert_eq!(num(a.grad(&dag)), 1.0);
    assert_eq!(num(b.grad(&dag)), -1.0);
}

#[test]
fn scalar_promotion_each_side() {
    let ops = FloatOps;
    let mut dag = Dag::new();
    let a = RefValue::new(&mut dag, bits(4.0));
    let s = a.add_value(bits(1.0), &mut dag, &ops);
    assert_eq!(num(s.item(&dag)), 5.0);
    let m = a.mul_value(bits(2.5), &mut dag, &ops);
    assert_eq!(num(m.item(&dag)), 10.0);
    let d = a.sub_value(bits(1.0), &mut dag, &ops);
    assert_eq!(num(d.item(&dag)), 3.0);
    let r = a.value_sub(bits(1.0), &mut dag, &ops);
    assert_eq!(num(r.item(&dag)), -3.0);
}

#[test]
fn promotion_makes_fresh_leaves() {
    let ops = FloatOps;
    let mut dag = Dag::new();
    let a = RefValue::new(&mut dag, bits(1.0));
    let before = dag.len();
    let first = a.add_value(bits(2.0), &mut dag, &ops);
    let second = a.add_value(bits(2.0), &mut dag, &ops);
    // Each promotion appends its own leaf and its own sum node.
    assert_eq!(dag.len(), before + 4);
    assert_eq!(num(first.item(&dag)), 3.0);
    assert_eq!(num(second.item(&dag)), 3.0);
}

#[test]
fn backward_seeds_target_with_one() {
    let ops = FloatOps;
    let mut dag = Dag::new();
    let a = RefValue::new(&mut dag, bits(7.0));
    let c = a.mul_value(bits(2.0), &mut dag, &ops);
    c.backward(&mut dag, &ops);
    assert_eq!(num(c.grad(&dag)), 1.0);
}

#[test]
fn reentrant_backward_accumulates() {
    let ops = FloatOps;
    let mut dag = Dag::new();
    let a = RefValue::new(&mut dag, bits(2.0));
    let b = RefValue::new(&mut dag, bits(3.0));
    let c = a.mul(b, &mut dag, &ops);
    c.backward(&mut dag, &ops);
    c.backward(&mut dag, &ops);
    // Without a reset in between, the second pass adds on top.
    assert_eq!(num(a.grad(&dag)), 6.0);
    assert_eq!(num(b.grad(&dag)), 4.0);
}

#[test]
fn gradient_reset_no_leakage() {
    let ops = FloatOps;

    // One arena, two rounds with a reset and a different input in between.
    let mut dag = Dag::new();
    let w = RefValue::new(&mut dag, bits(1.5));
    let b = RefValue::new(&mut dag, bits(-2.0));
    let x1 = RefValue::new(&mut dag, bits(3.0));
    let wx1 = w.mul(x1, &mut dag, &ops);
    let y1 = wx1.add(b, &mut dag, &ops);
    let o1 = y1.tanh(&mut dag, &ops);
    o1.backward(&mut dag, &ops);
    w.set_grad(&mut dag, bits(0.0));
    b.set_grad(&mut dag, bits(0.0));
    let x2 = RefValue::new(&mut dag, bits(4.0));
    let wx2 = w.mul(x2, &mut dag, &ops);
    let y2 = wx2.add(b, &mut dag, &ops);
    let o2 = y2.tanh(&mut dag, &ops);
    o2.backward(&mut dag, &ops);
    let w_grad = num(w.grad(&dag));
    let b_grad = num(b.grad(&dag));

    // A fresh arena computing only the second round.
    let mut fresh = Dag::new();
    let fw = RefValue::new(&mut fresh, bits(1.5));
    let fb = RefValue::new(&mut fresh, bits(-2.0));
    let fx = RefValue::new(&mut fresh, bits(4.0));
    let fwx = fw.mul(fx, &mut fresh, &ops);
    let fy = fwx.add(fb, &mut fresh, &ops);
    let fo = fy.tanh(&mut fresh, &ops);
    fo.backward(&mut fresh, &ops);

    assert_eq!(w_grad, num(fw.grad(&fresh)));
    assert_eq!(b_grad, num(fb.grad(&fresh)));
}

#[test]
fn set_value_steps_a_parameter() {
    let ops = FloatOps;
    let mut dag = Dag::new();
    let w = RefValue::new(&mut dag, bits(1.0));
    let x = RefValue::new(&mut dag, bits(2.0));
    let y = w.mul(x, &mut dag, &ops);
    y.backward(&mut dag, &ops);
    let step = 0.1 * num(w.grad(&dag));
    let stepped = num(w.item(&dag)) - step;
    w.set_value(&mut dag, bits(stepped));
    assert!(close(num(w.item(&dag)), 0.8));
    // The rest of the graph keeps its recorded values.
    assert_eq!(num(y.item(&dag)), 2.0);
}

#[test]
fn sum_folds_from_zero() {
    let ops = FloatOps;
    let mut dag = Dag::new();
    let xs = vec![
        RefValue::new(&mut dag, bits(1.0)),
        RefValue::new(&mut dag, bits(2.5)),
        RefValue::new(&mut dag, bits(-0.5)),
    ];
    let total = rustygrad::ops::sum(&xs, &mut dag, &ops);
    assert_eq!(num(total.item(&dag)), 3.0);
    let empty: Vec<RefValue> = Vec::new();
    let nothing = rustygrad::ops::sum(&empty, &mut dag, &ops);
    assert_eq!(num(nothing.item(&dag)), 0.0);
}

#[test]
fn nan_and_infinity_propagate() {
    let ops = FloatOps;
    let mut dag = Dag::new();
    let a = RefValue::new(&mut dag, bits(0.0));
    let b = RefValue::new(&mut dag, bits(0.0));
    let d = a.div(b, &mut dag, &ops);
    // 0 * (0^-1) = 0 * inf = NaN, untouched by the engine.
    assert!(num(d.item(&dag)).is_nan());
    d.backward(&mut dag, &ops);
    assert!(num(b.grad(&dag)).is_nan());

    let mut dag2 = Dag::new();
    let big = RefValue::new(&mut dag2, bits(1.0e308));
    let doubled = big.add(big, &mut dag2, &ops);
    assert!(num(doubled.item(&dag2)).is_infinite());
}
