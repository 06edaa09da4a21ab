use rustygrad::graph::{Dag, RefValue};
use rustygrad::mlp::{Layer, Neuron, MLP};
use rustygrad::scalar::{IntScalar, ScalarOps};

/// IEEE double-precision arithmetic as a scalar system, for these tests.
struct FloatOps;

impl ScalarOps for FloatOps {
    fn s_one() -> u64 {
        1.0f64.to_bits()
    }

    fn s_neg_one() -> u64 {
        (-1.0f64).to_bits()
    }

    fn s_add(a: u64, b: u64) -> u64 {
        (f64::from_bits(a) + f64::from_bits(b)).to_bits()
    }

    fn s_sub(a: u64, b: u64) -> u64 {
        (f64::from_bits(a) - f64::from_bits(b)).to_bits()
    }

    fn s_mul(a: u64, b: u64) -> u64 {
        (f64::from_bits(a) * f64::from_bits(b)).to_bits()
    }

    fn s_pow(a: u64, b: u64) -> u64 {
        f64::from_bits(a).powf(f64::from_bits(b)).to_bits()
    }

    fn s_tanh(a: u64) -> u64 {
        f64::from_bits(a).tanh().to_bits()
    }

    fn s_exp(a: u64) -> u64 {
        f64::from_bits(a).exp().to_bits()
    }

    fn s_is_pos(a: u64) -> bool {
        f64::from_bits(a) > 0.0
    }

    fn s_is_nonneg(a: u64) -> bool {
        f64::from_bits(a) >= 0.0
    }

    fn one(&self) -> u64 {
        1.0f64.to_bits()
    }

    fn neg_one(&self) -> u64 {
        (-1.0f64).to_bits()
    }

    fn add(&self, a: u64, b: u64) -> u64 {
        (f64::from_bits(a) + f64::from_bits(b)).to_bits()
    }

    fn sub(&self, a: u64, b: u64) -> u64 {
        (f64::from_bits(a) - f64::from_bits(b)).to_bits()
    }

    fn mul(&self, a: u64, b: u64) -> u64 {
        (f64::from_bits(a) * f64::from_bits(b)).to_bits()
    }

    fn pow(&self, a: u64, b: u64) -> u64 {
        f64::from_bits(a).powf(f64::from_bits(b)).to_bits()
    }

    fn tanh(&self, a: u64) -> u64 {
        f64::from_bits(a).tanh().to_bits()
    }

    fn exp(&self, a: u64) -> u64 {
        f64::from_bits(a).exp().to_bits()
    }

    fn is_pos(&self, a: u64) -> bool {
        f64::from_bits(a) > 0.0
    }

    fn is_nonneg(&self, a: u64) -> bool {
        f64::from_bits(a) >= 0.0
    }
}

fn bits(x: f64) -> u64 {
    x.to_bits()
}

fn num(x: u64) -> f64 {
    f64::from_bits(x)
}

fn close(a: f64, b: f64) -> bool {
    (a - b).abs() < 1e-9
}

#[test]
fn neuron_tanh_of_weighted_sum_plus_bias() {
    let ops = FloatOps;
    let mut dag = Dag::new();
    let n = Neuron::new(&mut dag, &vec![bits(1.0), bits(2.0)], bits(0.5));
    let x = vec![RefValue::new(&mut dag, bits(3.0)), RefValue::new(&mut dag, bits(4.0))];
    let out = n.call(&x, &mut dag, &ops);
    // The nonlinearity wraps the whole pre-activation: tanh(1*3 + 2*4 + 0.5).
    assert!(close(num(out.item(&dag)), (3.0 + 8.0 + 0.5f64).tanh()));
}

#[test]
fn neuron_parameters_bias_first() {
    let mut dag = Dag::new();
    let n = Neuron::new(&mut dag, &vec![bits(0.25), bits(0.75)], bits(-0.5));
    let ps = n.parameters();
    assert_eq!(ps.len(), 3);
    assert_eq!(num(ps[0].item(&dag)), -0.5);
    assert_eq!(num(ps[1].item(&dag)), 0.25);
    assert_eq!(num(ps[2].item(&dag)), 0.75);
}

#[test]
fn layer_shapes_and_parameters() {
    let ops = FloatOps;
    let mut dag = Dag::new();
    let init: Vec<u64> = (0..6).map(|k| bits(0.1 * k as f64)).collect();
    let layer = Layer::new(&mut dag, 2, 2, &init);
    let ps = layer.parameters();
    assert_eq!(ps.len(), 6);
    let x = vec![RefValue::new(&mut dag, bits(1.0)), RefValue::new(&mut dag, bits(-1.0))];
    let out = layer.call(&x, &mut dag, &ops);
    assert_eq!(out.len(), 2);
    // First neuron: weights 0.0 and 0.1, bias 0.2.
    assert!(close(num(out[0].item(&dag)), (0.0 - 0.1 + 0.2f64).tanh()));
    // Second neuron: weights 0.3 and 0.4, bias 0.5.
    assert!(close(num(out[1].item(&dag)), (0.3 - 0.4 + 0.5f64).tanh()));
}

#[test]
fn mlp_shapes_and_parameter_count() {
    let ops = FloatOps;
    let mut dag = Dag::new();
    let nouts = vec![4usize, 4, 1];
    let inits = vec![
        (0..16).map(|k| bits(0.01 * k as f64)).collect::<Vec<u64>>(),
        (0..20).map(|k| bits(-0.01 * k as f64)).collect::<Vec<u64>>(),
        (0..5).map(|k| bits(0.02 * k as f64)).collect::<Vec<u64>>(),
    ];
    let mlp = MLP::new(&mut dag, 3, &nouts, &inits);
    assert_eq!(mlp.parameters().len(), 16 + 20 + 5);
    let x = vec![
        RefValue::new(&mut dag, bits(2.0)),
        RefValue::new(&mut dag, bits(3.0)),
        RefValue::new(&mut dag, bits(-1.0)),
    ];
    let out = mlp.call(&x, &mut dag, &ops);
    assert_eq!(out.len(), 1);
    assert!(num(out[0].item(&dag)).is_finite());
}

#[test]
fn training_reduces_loss() {
    let ops = FloatOps;
    let mut dag = Dag::new();
    let nouts = vec![2usize, 1];
    let inits = vec![
        vec![bits(0.3), bits(-0.2), bits(0.1), bits(-0.4), bits(0.2), bits(0.3)],
        vec![bits(0.5), bits(-0.3), bits(0.1)],
    ];
    let mlp = MLP::new(&mut dag, 2, &nouts, &inits);
    let x = vec![RefValue::new(&mut dag, bits(1.0)), RefValue::new(&mut dag, bits(-1.0))];
    let target = RefValue::new(&mut dag, bits(0.5));

    let mut first_loss = None;
    let mut last_loss = 0.0;
    for _ in 0..100 {
        let out = mlp.call(&x, &mut dag, &ops);
        let diff = out[0].sub(target, &mut dag, &ops);
        let loss = diff.powf(bits(2.0), &mut dag, &ops);
        last_loss = num(loss.item(&dag));
        if first_loss.is_none() {
            first_loss = Some(last_loss);
        }
        for p in mlp.parameters() {
            p.set_grad(&mut dag, bits(0.0));
        }
        loss.backward(&mut dag, &ops);
        for p in mlp.parameters() {
            let stepped = num(p.item(&dag)) - 0.05 * num(p.grad(&dag));
            p.set_value(&mut dag, bits(stepped));
        }
    }
    assert!(last_loss < first_loss.unwrap());
    assert!(last_loss < 1.0e-3);
}

#[test]
fn mlp_with_no_layers_returns_inputs() {
    let ops = FloatOps;
    let mut dag = Dag::new();
    let nouts: Vec<usize> = Vec::new();
    let inits: Vec<Vec<u64>> = Vec::new();
    let mlp = MLP::new(&mut dag, 3, &nouts, &inits);
    assert_eq!(mlp.parameters().len(), 0);
    let x = vec![RefValue::new(&mut dag, bits(1.0)), RefValue::new(&mut dag, bits(2.0))];
    let out = mlp.call(&x, &mut dag, &ops);
    assert_eq!(out.len(), 2);
    assert_eq!(num(out[0].item(&dag)), 1.0);
    assert_eq!(num(out[1].item(&dag)), 2.0);
}

#[test]
fn integer_scalars_fanout_counts_two() {
    let ops = IntScalar;
    let mut dag = Dag::new();
    let a = RefValue::new(&mut dag, 5u64);
    let c = a.add(a, &mut dag, &ops);
    assert_eq!(c.item(&dag), 10u64);
    c.backward(&mut dag, &ops);
    assert_eq!(a.grad(&dag), 2u64);
}

#[test]
fn integer_scalars_clamp_and_saturate() {
    let ops = IntScalar;
    let mut dag = Dag::new();
    let a = RefValue::new(&mut dag, 5u64);
    let t = a.tanh(&mut dag, &ops);
    assert_eq!(t.item(&dag), 1u64);
    let b = RefValue::new(&mut dag, 2u64);
    let p = b.powf(10u64, &mut dag, &ops);
    assert_eq!(p.item(&dag), 1024u64);
    let unit = b.powf(0u64, &mut dag, &ops);
    assert_eq!(unit.item(&dag), 1u64);
    let big = RefValue::new(&mut dag, u64::MAX);
    let two = RefValue::new(&mut dag, 2u64);
    let sat = big.mul(two, &mut dag, &ops);
    assert_eq!(sat.item(&dag), u64::MAX);
    let bumped = big.exp(&mut dag, &ops);
    assert_eq!(bumped.item(&dag), u64::MAX);
}
