//! Training and the two scoring paths.

use perceptree::arith::Arith;
use perceptree::data::{make_synthetic, Column, Dataset, FeatureKind, Schema, MISSING_CAT};
use perceptree::eval;
use perceptree::float::{F32, F64};
use perceptree::encoding::{Encoders, FeatureEncoder, NumericEnc};
use perceptree::infer::{Model, RawValue};
use perceptree::leaf_model::Leaf;
use perceptree::train::train;
use perceptree::tree::{NodeKind, Split};
use perceptree::{Config, LeafKind};

/// The machine's floating-point arithmetic.
struct Native;

fn d(x: F64) -> f64 {
    f64::from_bits(x.bits)
}

fn s(x: F32) -> f32 {
    f32::from_bits(x.bits)
}

fn f64v(x: f64) -> F64 {
    F64 { bits: x.to_bits() }
}

fn f32v(x: f32) -> F32 {
    F32 { bits: x.to_bits() }
}

impl Arith for Native {
    fn sum(a: F64, b: F64) -> F64 {
        f64v(d(a) + d(b))
    }
    fn diff(a: F64, b: F64) -> F64 {
        f64v(d(a) - d(b))
    }
    fn prod(a: F64, b: F64) -> F64 {
        f64v(d(a) * d(b))
    }
    fn quot(a: F64, b: F64) -> F64 {
        f64v(d(a) / d(b))
    }
    fn sqrt(a: F64) -> F64 {
        f64v(d(a).sqrt())
    }
    fn exp(a: F64) -> F64 {
        f64v(d(a).exp())
    }
    fn ln(a: F64) -> F64 {
        f64v(d(a).ln())
    }
    fn round(a: F64) -> F64 {
        f64v(d(a).round())
    }
    fn from_int(n: i128) -> F64 {
        f64v(n as f64)
    }
    fn to_index(a: F64) -> usize {
        d(a) as usize
    }
    fn sum32(a: F32, b: F32) -> F32 {
        f32v(s(a) + s(b))
    }
    fn diff32(a: F32, b: F32) -> F32 {
        f32v(s(a) - s(b))
    }
    fn prod32(a: F32, b: F32) -> F32 {
        f32v(s(a) * s(b))
    }
    fn quot32(a: F32, b: F32) -> F32 {
        f32v(s(a) / s(b))
    }
    fn exp32(a: F32) -> F32 {
        f32v(s(a).exp())
    }
    fn ln_1p32(n: u32) -> F32 {
        f32v((n as f32).ln_1p())
    }
    fn narrow(a: F64) -> F32 {
        f32v(d(a) as f32)
    }
}

#[test]
fn trains_and_beats_constant_baseline() {
    let ds = make_synthetic::<Native>(40_000, 7);
    let (tr, va) = ds.temporal_split::<Native>(f64v(0.75)).unwrap();
    let mut cfg = Config::default();
    cfg.num_leaves = 16;
    let model = train::<Native>(&tr, &cfg);

    let preds = model.predict_dataset::<Native>(&va);
    let pr_auc = d(eval::pr_auc::<Native>(&preds, &va.labels));
    // A trivial constant predictor has PR-AUC ≈ positive rate.
    let base_rate = va.labels.iter().map(|&y| y as f64).sum::<f64>() / va.n_rows() as f64;
    assert!(
        pr_auc > base_rate * 1.5,
        "PR-AUC {pr_auc} not clearly above base rate {base_rate}"
    );
    // ROC-AUC should be well above chance on this learnable target.
    let roc = d(eval::roc_auc::<Native>(&preds, &va.labels));
    assert!(roc > 0.7, "ROC-AUC too low: {roc}");
}

#[test]
fn raw_and_encoded_paths_agree() {
    let ds = make_synthetic::<Native>(8_000, 3);
    let (tr, va) = ds.temporal_split::<Native>(f64v(0.8)).unwrap();
    let cfg = Config::default();
    let model = train::<Native>(&tr, &cfg);

    let m = model.encoders.transform::<Native>(&va);
    for r in 0..va.n_rows().min(500) {
        let enc_p = s(model.predict_proba_encoded::<Native>(&m, r));
        let raw = Model::raw_row(&va, r);
        let raw_p = s(model.predict_proba::<Native>(&raw));
        assert!((enc_p - raw_p).abs() < 1e-5, "row {r}: encoded {enc_p} vs raw {raw_p}");
    }
}

#[test]
fn paths_agree_to_the_bit() {
    let ds = make_synthetic::<Native>(2_000, 13);
    let (tr, va) = ds.temporal_split::<Native>(f64v(0.5)).unwrap();
    let mut cfg = Config::default();
    cfg.num_leaves = 5;
    for use_count in [true, false] {
        cfg.hc_use_count = use_count;
        let model = train::<Native>(&tr, &cfg);
        let m = model.encoders.transform::<Native>(&va);
        let preds = model.predict_dataset::<Native>(&va);
        assert_eq!(preds.len(), va.n_rows());
        for r in 0..va.n_rows() {
            let row = Model::raw_row(&va, r);
            assert_eq!(row.len(), 25);
            let p = model.predict_proba::<Native>(&row);
            assert_eq!(p.bits, model.predict_proba_encoded::<Native>(&m, r).bits);
            assert_eq!(p.bits, preds[r].bits);
            assert!(model.route_leaf_encoded(&m, r) < model.leaves.len());
        }
    }
}

#[test]
fn one_constant_leaf_predicts_the_rate() {
    let schema = Schema::new(
        vec!["x".into(), "c".into()],
        vec![FeatureKind::Numeric, FeatureKind::BoundedCat],
    );
    let x = Column::Numeric(vec![f32v(1.0), f32v(2.0), f32v(3.0), f32v(4.0)]);
    let c = Column::Categorical(vec![1, 2, 1, MISSING_CAT]);
    let ds = Dataset::new(schema, vec![x, c], vec![1, 0, 0, 0]);
    let mut cfg = Config::default();
    cfg.num_leaves = 1;
    cfg.leaf_model = LeafKind::Constant;
    let model = train::<Native>(&ds, &cfg);
    assert_eq!(model.leaves.len(), 1);
    let row = vec![RawValue::Num(f32v(f32::NAN)), RawValue::Cat(77)];
    assert!((s(model.predict_proba::<Native>(&row)) - 0.25).abs() < 1e-6);
    assert!((s(model.s0) - (1.0f32 / 3.0).ln()).abs() < 1e-6);
    // Positives that count three times make the rate one half.
    cfg.pos_weight = f32v(3.0);
    let model = train::<Native>(&ds, &cfg);
    assert_eq!(s(model.s0), 0.0);
    assert_eq!(s(model.predict_proba::<Native>(&row)), 0.5);
}

#[test]
fn training_does_not_exceed_the_leaves() {
    let ds = make_synthetic::<Native>(3_000, 17);
    let mut cfg = Config::default();
    cfg.num_leaves = 4;
    cfg.irls_iters = 2;
    let model = train::<Native>(&ds, &cfg);
    assert!(model.leaves.len() >= 2 && model.leaves.len() <= 4);
    assert_eq!(model.nodes.len(), 2 * model.leaves.len() - 1);
    for leaf in &model.leaves {
        assert!(leaf.idx.iter().all(|&i| i < model.encoders.basis_dim));
    }
    let p = model.predict_dataset::<Native>(&ds);
    assert!(p.iter().all(|&x| s(x) > 0.0 && s(x) < 1.0));
}

#[test]
fn gradients_cancel_at_the_base_score() {
    let ds = make_synthetic::<Native>(2000, 5);
    let mut cfg = Config::default();
    cfg.pos_weight = f32v(4.0);
    cfg.num_leaves = 1;
    cfg.irls_iters = 1;
    let model = train::<Native>(&ds, &cfg);
    let p0 = 1.0 / (1.0 + (-s(model.s0) as f64).exp());
    let (mut sum, mut size) = (0.0, 0.0);
    for &y in &ds.labels {
        let c = if y == 1 { 4.0 } else { 1.0 };
        sum += c * (p0 - y as f64);
        size += c * (p0 - y as f64).abs();
    }
    assert!(size > 100.0);
    assert!(sum.abs() < 1e-3, "{sum}");
}

#[test]
fn earlier_weights_have_no_influence() {
    let a = make_synthetic::<Native>(1500, 9);
    let mut b = a.clone();
    for (i, w) in b.weights.iter_mut().enumerate() {
        *w = f32v(0.25 + (i % 7) as f32);
    }
    let kept: Vec<u32> = b.weights.iter().map(|w| w.bits).collect();
    let mut cfg = Config::default();
    cfg.num_leaves = 4;
    cfg.irls_iters = 2;
    cfg.pos_weight = f32v(3.0);
    let (p, q) = (train::<Native>(&a, &cfg), train::<Native>(&b, &cfg));
    assert_eq!(p.s0.bits, q.s0.bits);
    let (x, y) = (p.predict_dataset::<Native>(&a), q.predict_dataset::<Native>(&a));
    assert!(x.iter().zip(&y).all(|(u, v)| u.bits == v.bits));
    assert_eq!(kept, b.weights.iter().map(|w| w.bits).collect::<Vec<_>>());
}

#[test]
fn missing_and_unseen_ids_score_alike() {
    let ds = make_synthetic::<Native>(3000, 21);
    let mut cfg = Config::default();
    cfg.num_leaves = 6;
    cfg.irls_iters = 2;
    for use_count in [true, false] {
        cfg.hc_use_count = use_count;
        let model = train::<Native>(&ds, &cfg);
        for r in 0..50 {
            let mut row = Model::raw_row(&ds, r);
            for f in 20..25 {
                row[f] = RawValue::Cat(MISSING_CAT);
                let missing = model.predict_proba::<Native>(&row);
                for id in [-1, 5000, 77_777_777, i64::MAX] {
                    row[f] = RawValue::Cat(id);
                    assert_eq!(model.predict_proba::<Native>(&row).bits, missing.bits);
                }
            }
        }
    }
}

#[test]
fn nodes_may_stand_in_any_order() {
    // The root is the last node, its children come before it, and two nodes share a leaf.
    let knots = vec![f32v(0.0), f32v(10.0)];
    let feature = FeatureEncoder::Numeric(NumericEnc { knots, basis_off: 0 });
    let leaf = |bias: f32| Leaf { idx: vec![], w: vec![], bias: f32v(bias) };
    let inner = |thr: f32, left: usize, right: usize| NodeKind::Internal {
        feature: 0,
        split: Split::Numeric { thr: f32v(thr) },
        default_left: true,
        left,
        right,
    };
    let model = Model {
        encoders: Encoders { features: vec![feature], basis_dim: 3 },
        nodes: vec![
            NodeKind::Leaf(0),
            NodeKind::Leaf(1),
            inner(2.0, 1, 0),
            // No path leads here: it splits on a feature that there is not.
            NodeKind::Internal {
                feature: 9,
                split: Split::Numeric { thr: f32v(0.0) },
                default_left: true,
                left: 3,
                right: 70,
            },
            inner(5.0, 2, 0),
        ],
        root: 4,
        leaves: vec![leaf(-1.0), leaf(2.0)],
        s0: f32v(0.0),
    };
    let p = |x: f32| s(model.predict_proba::<Native>(&vec![RawValue::Num(f32v(x))]));
    let high = 1.0 / (1.0 + (-2.0f32).exp());
    let low = 1.0 / (1.0 + 1.0f32.exp());
    assert_eq!((p(1.0), p(3.0), p(6.0), p(f32::NAN)), (high, low, low, high));
}
