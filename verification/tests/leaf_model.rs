//! Leaf heads.

use perceptree::arith::Arith;
use perceptree::data::{make_synthetic, Column, Dataset, FeatureKind, Rng, Schema};
use perceptree::encoding::{
    expand_row, push_numeric, EncCol, EncodedMatrix, Encoders, FeatureEncoder, NumericEnc,
};
use perceptree::float::{F32, F64};
use perceptree::leaf_model::{fit_leaf, Leaf};
use perceptree::{Config, LeafKind};

/// The machine's floating-point arithmetic.
struct Native;

fn d(x: F64) -> f64 {
    f64::from_bits(x.bits)
}

fn s(x: F32) -> f32 {
    f32::from_bits(x.bits)
}

fn f64v(x: f64) -> F64 {
    F64 { bits: x.to_bits() }
}

fn f32v(x: f32) -> F32 {
    F32 { bits: x.to_bits() }
}

impl Arith for Native {
    fn sum(a: F64, b: F64) -> F64 {
        f64v(d(a) + d(b))
    }
    fn diff(a: F64, b: F64) -> F64 {
        f64v(d(a) - d(b))
    }
    fn prod(a: F64, b: F64) -> F64 {
        f64v(d(a) * d(b))
    }
    fn quot(a: F64, b: F64) -> F64 {
        f64v(d(a) / d(b))
    }
    fn sqrt(a: F64) -> F64 {
        f64v(d(a).sqrt())
    }
    fn exp(a: F64) -> F64 {
        f64v(d(a).exp())
    }
    fn ln(a: F64) -> F64 {
        f64v(d(a).ln())
    }
    fn round(a: F64) -> F64 {
        f64v(d(a).round())
    }
    fn from_int(n: i128) -> F64 {
        f64v(n as f64)
    }
    fn to_index(a: F64) -> usize {
        d(a) as usize
    }
    fn sum32(a: F32, b: F32) -> F32 {
        f32v(s(a) + s(b))
    }
    fn diff32(a: F32, b: F32) -> F32 {
        f32v(s(a) - s(b))
    }
    fn prod32(a: F32, b: F32) -> F32 {
        f32v(s(a) * s(b))
    }
    fn quot32(a: F32, b: F32) -> F32 {
        f32v(s(a) / s(b))
    }
    fn exp32(a: F32) -> F32 {
        f32v(s(a).exp())
    }
    fn ln_1p32(n: u32) -> F32 {
        f32v((n as f32).ln_1p())
    }
    fn narrow(a: F64) -> F32 {
        f32v(d(a) as f32)
    }
}

/// On a single leaf with one numeric feature carrying a clean linear
/// log-odds slope, IRLS should recover a positive slope and converge.
#[test]
fn irls_recovers_linear_signal() {
    let n = 4000;
    let mut rng = Rng::new(5);
    let mut col = Vec::new();
    let mut labels: Vec<u8> = Vec::new();
    for _ in 0..n {
        let x = s(rng.next_f32()) * 2.0 - 1.0; // [-1,1]
        col.push(f32v(x));
        let score = 2.0 * x; // true slope
        let p = 1.0 / (1.0 + (-score).exp());
        labels.push((s(rng.next_f32()) < p) as u8);
    }
    let schema = Schema::new(vec!["x".into()], vec![FeatureKind::Numeric]);
    let ds = Dataset::new(schema, vec![Column::Numeric(col)], labels.clone());
    let mut cfg = Config::default();
    cfg.lambda = f32v(0.01);
    cfg.irls_iters = 25;
    let (enc, m) = Encoders::fit::<Native>(&ds, &cfg);

    let rate = labels.iter().map(|&y| y as f64).sum::<f64>() / n as f64;
    let s0 = (rate / (1.0 - rate)).ln() as f32;
    let rows: Vec<u32> = (0..n as u32).collect();
    let leaf = fit_leaf::<Native>(&rows, &enc, &m, &labels, &ds.weights, f32v(s0), &cfg);

    // Score at x=+1 should exceed score at x=-1 (monotone increasing).
    let knots = match &enc.features[0] {
        FeatureEncoder::Numeric(e) => &e.knots,
        _ => unreachable!(),
    };
    let mut phi_hi = Vec::new();
    push_numeric::<Native>(knots, 0, f32v(0.95), &mut phi_hi);
    let mut phi_lo = Vec::new();
    push_numeric::<Native>(knots, 0, f32v(-0.95), &mut phi_lo);
    let s_hi = s0 + s(leaf.dot::<Native>(&phi_hi));
    let s_lo = s0 + s(leaf.dot::<Native>(&phi_lo));
    assert!(s_hi > s_lo + 0.5, "expected increasing: s_lo={s_lo} s_hi={s_hi}");
}

#[test]
fn constant_leaf_predicts_base_rate() {
    let n = 1000;
    let labels: Vec<u8> = (0..n).map(|i| (i % 4 == 0) as u8).collect(); // 25% rate
    let col = vec![f32v(0.0); n];
    let schema = Schema::new(vec!["x".into()], vec![FeatureKind::Numeric]);
    let ds = Dataset::new(schema, vec![Column::Numeric(col)], labels.clone());
    let mut cfg = Config::default();
    cfg.leaf_model = LeafKind::Constant;
    let (enc, m) = Encoders::fit::<Native>(&ds, &cfg);
    let s0 = 0.0f32; // pretend global base is 0
    let rows: Vec<u32> = (0..n as u32).collect();
    let leaf = fit_leaf::<Native>(&rows, &enc, &m, &labels, &ds.weights, f32v(s0), &cfg);
    let p = 1.0 / (1.0 + (-(s0 + s(leaf.bias)) as f64).exp());
    assert!((p - 0.25).abs() < 0.02, "p={p}");
}

#[test]
fn dot_skips_slots_without_a_weight() {
    let leaf = Leaf {
        idx: vec![2, 5, 9],
        w: vec![f32v(0.5), f32v(2.0), f32v(8.0)],
        bias: f32v(1.0),
    };
    let phi = vec![(5, f32v(3.0)), (1, f32v(10.0)), (2, f32v(4.0)), (10, f32v(7.0))];
    assert_eq!(s(leaf.dot::<Native>(&phi)), 9.0);
    assert_eq!(s(leaf.dot::<Native>(&Vec::new())), 1.0);
    // A repeated slot counts as often as it occurs.
    assert_eq!(s(leaf.dot::<Native>(&vec![(9, f32v(1.0)), (9, f32v(1.0))])), 17.0);
}

#[test]
fn base_rate_is_relative_to_the_base_score() {
    let schema = Schema::new(vec!["x".into()], vec![FeatureKind::Numeric]);
    let labels = vec![1, 0, 1, 1];
    let ds = Dataset::new(schema, vec![Column::Numeric(vec![f32v(0.0); 4])], labels.clone());
    let mut cfg = Config::default();
    cfg.leaf_model = LeafKind::Constant;
    let (enc, m) = Encoders::fit::<Native>(&ds, &cfg);
    let fit = |rows: Vec<u32>, s0: f32| {
        s(fit_leaf::<Native>(&rows, &enc, &m, &labels, &ds.weights, f32v(s0), &cfg).bias)
    };
    // Half positives: log-odds zero.
    assert_eq!(fit(vec![0, 1], 0.25), -0.25);
    // No rows count as one half.
    assert_eq!(fit(vec![], 1.0), -1.0);
    // A pure leaf is kept away from certainty.
    let top = 1.0f64 - 1e-6;
    assert_eq!(fit(vec![0, 2], 0.0), (top / (1.0 - top)).ln() as f32);
}

#[test]
fn linear_leaf_starts_at_its_base_rate() {
    let ds = make_synthetic::<Native>(400, 2);
    let mut cfg = Config::default();
    let (enc, m) = Encoders::fit::<Native>(&ds, &cfg);
    let rows: Vec<u32> = (0..400).step_by(3).collect();
    let s0 = f32v(-2.0);
    cfg.leaf_model = LeafKind::Constant;
    let constant = fit_leaf::<Native>(&rows, &enc, &m, &ds.labels, &ds.weights, s0, &cfg);
    assert!(constant.idx.is_empty() && constant.w.is_empty());
    cfg.leaf_model = LeafKind::Linear;
    cfg.irls_iters = 0;
    let start = fit_leaf::<Native>(&rows, &enc, &m, &ds.labels, &ds.weights, s0, &cfg);
    assert_eq!(start.bias.bits, constant.bias.bits);
    assert!(!start.idx.is_empty());
    assert!(start.w.iter().all(|&w| s(w) == 0.0));
    // The two score every finite basis alike.
    let mut phi = Vec::new();
    for r in 0..400 {
        expand_row::<Native>(&enc, &m, r, &mut phi);
        assert_eq!(s(start.dot::<Native>(&phi)), s(constant.bias));
        assert_eq!(s(constant.dot::<Native>(&phi)), s(constant.bias));
    }
    let odd = vec![(start.idx[0], f32v(-3.0e30)), (start.idx[1], f32v(7.5))];
    assert_eq!(s(start.dot::<Native>(&odd)), s(constant.bias));
}

#[test]
fn fitted_slots_ascend_and_stay_in_range() {
    let ds = make_synthetic::<Native>(400, 2);
    let cfg = Config::default();
    let (enc, m) = Encoders::fit::<Native>(&ds, &cfg);
    let rows: Vec<u32> = (100..300).collect();
    let leaf = fit_leaf::<Native>(&rows, &enc, &m, &ds.labels, &ds.weights, f32v(-2.0), &cfg);
    assert_eq!(leaf.idx.len(), leaf.w.len());
    for w in leaf.idx.windows(2) {
        assert!(w[0] < w[1]);
    }
    assert!(leaf.idx.iter().all(|&i| i < enc.basis_dim));
    assert!(leaf.w.iter().any(|&w| s(w) != 0.0));
}

#[test]
fn one_newton_step_is_exact() {
    // One feature that is always missing: the design is [1, 1] for both rows.
    let schema = Schema::new(vec!["x".into()], vec![FeatureKind::Numeric]);
    let labels = vec![1, 0];
    let nan = f32v(f32::NAN);
    let ds = Dataset::new(schema, vec![Column::Numeric(vec![nan, nan])], labels.clone());
    let mut cfg = Config::default();
    cfg.irls_iters = 1;
    let (enc, m) = Encoders::fit::<Native>(&ds, &cfg);
    let leaf = fit_leaf::<Native>(&vec![0, 1], &enc, &m, &labels, &ds.weights, f32v(0.0), &cfg);
    // p = 1/2 on both rows: the gradient is zero, and the step stays at zero.
    assert_eq!(leaf.idx, vec![1]);
    assert_eq!(s(leaf.w[0]), 0.0);
    assert_eq!(s(leaf.bias), 0.0);
    // Base score 0 with one positive row: the bias starts at its log-odds and takes one step
    // of a 2x2 system.
    cfg.lambda = f32v(1.0);
    let leaf = fit_leaf::<Native>(&vec![0], &enc, &m, &labels, &ds.weights, f32v(0.0), &cfg);
    let rate = 1.0f64 - 1e-6;
    let b0 = (rate / (1.0 - rate)).ln();
    let p = 1.0 / (1.0 + (-b0).exp());
    let (g, h) = (p - 1.0, p * (1.0 - p));
    // [[h, h], [h, h + 1]] δ = [g, g]: δ = [g/h, 0].
    assert!((s(leaf.bias) as f64 - (b0 - g / h)).abs() < 1e-4);
    assert!((s(leaf.w[0]) as f64).abs() < 1e-4);
}

#[test]
fn newton_step_solves_the_normal_equations() {
    let values: Vec<f32> = vec![0.0, 1.0, 2.0, 3.0, 4.0, 5.0, 6.0, f32::NAN];
    let labels: Vec<u8> = vec![0, 0, 1, 0, 1, 1, 0, 1];
    let n = values.len();
    let schema = Schema::new(vec!["x".into()], vec![FeatureKind::Numeric]);
    let col = values.iter().map(|&v| f32v(v)).collect();
    let ds = Dataset::new(schema, vec![Column::Numeric(col)], labels.clone());
    let mut cfg = Config::default();
    cfg.knots = 4;
    cfg.lambda = f32v(0.5);
    cfg.irls_iters = 1;
    let (enc, m) = Encoders::fit::<Native>(&ds, &cfg);
    let rows: Vec<u32> = (0..n as u32).collect();
    let s0 = 0.25f32;
    let leaf = fit_leaf::<Native>(&rows, &enc, &m, &labels, &ds.weights, f32v(s0), &cfg);

    // x = [1, φ], with φ over the leaf's slots.
    let d_len = leaf.idx.len() + 1;
    let mut xs = Vec::new();
    for r in 0..n {
        let mut phi = Vec::new();
        expand_row::<Native>(&enc, &m, r, &mut phi);
        let mut x = vec![0.0f64; d_len];
        x[0] = 1.0;
        for (gi, v) in phi {
            let at = leaf.idx.iter().position(|&i| i == gi).unwrap();
            x[at + 1] += s(v) as f64;
        }
        xs.push(x);
    }
    // Half of the labels are positive: the score is zero everywhere and p = 1/2.
    let start = -(s0 as f64);
    let mut w = vec![s(leaf.bias) as f64];
    w.extend(leaf.w.iter().map(|&v| s(v) as f64));
    let mut delta: Vec<f64> = w.iter().map(|v| -v).collect();
    delta[0] += start;
    let mut moved = 0.0f64;
    for i in 0..d_len {
        let mut lhs = 0.0;
        let mut rhs = 0.0;
        for (x, &y) in xs.iter().zip(&labels) {
            let step: f64 = x.iter().zip(&delta).map(|(a, b)| a * b).sum();
            lhs += 0.25 * x[i] * step;
            rhs += (0.5 - y as f64) * x[i];
        }
        if i > 0 {
            lhs += 0.5 * delta[i];
        }
        assert!((lhs - rhs).abs() < 1e-5, "row {i}: {lhs} {rhs}");
        moved += delta[i].abs();
    }
    assert!(moved > 0.1);
}

#[test]
fn leaf_fit_is_reproducible() {
    let ds = make_synthetic::<Native>(400, 8);
    let mut cfg = Config::default();
    cfg.irls_iters = 3;
    let (enc, m) = Encoders::fit::<Native>(&ds, &cfg);
    let rows: Vec<u32> = (0..400).filter(|r| r % 3 != 0).collect();
    let fit = || fit_leaf::<Native>(&rows, &enc, &m, &ds.labels, &ds.weights, f32v(-2.0), &cfg);
    let (a, b) = (fit(), fit());
    assert_eq!(a.idx, b.idx);
    assert_eq!(a.bias.bits, b.bias.bits);
    assert!(a.w.len() > 100);
    assert!(a.w.iter().zip(&b.w).all(|(x, y)| x.bits == y.bits));
}

#[test]
fn constant_leaf_reads_no_features() {
    // A matrix that does not go with the encoders, and has fewer rows than the leaf.
    let knots = vec![f32v(0.0)];
    let numeric = FeatureEncoder::Numeric(NumericEnc { knots, basis_off: 9 });
    let enc = Encoders { features: vec![numeric], basis_dim: 0 };
    let m = EncodedMatrix { cols: vec![EncCol::Cat(vec![])], n_rows: 0 };
    let mut cfg = Config::default();
    cfg.leaf_model = LeafKind::Constant;
    let weights = vec![f32v(1.0); 4];
    let leaf =
        fit_leaf::<Native>(&vec![0, 1, 2, 3], &enc, &m, &vec![1, 0, 0, 0], &weights, f32v(0.0), &cfg);
    assert_eq!(s(leaf.bias), (0.25f64 / 0.75).ln() as f32);
}

#[test]
fn linear_leaf_needs_no_more_than_its_rows() {
    // Slots beyond the declared dimension, and a column longer than the matrix says.
    let knots = vec![f32v(0.0), f32v(1.0)];
    let numeric = FeatureEncoder::Numeric(NumericEnc { knots, basis_off: 40 });
    let enc = Encoders { features: vec![numeric], basis_dim: 1 };
    let col = vec![f32v(0.0), f32v(1.0), f32v(0.5), f32v(f32::NAN)];
    let m = EncodedMatrix { cols: vec![EncCol::Num(col)], n_rows: 2 };
    let weights = vec![f32v(1.0); 4];
    let cfg = Config::default();
    let rows = vec![1, 2, 3];
    let leaf = fit_leaf::<Native>(&rows, &enc, &m, &vec![0, 1, 0, 1], &weights, f32v(0.0), &cfg);
    assert_eq!(leaf.idx, vec![40, 41, 42]);
}
