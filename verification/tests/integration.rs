//! End-to-end regression tests on a held-out temporal split, plus robustness
//! checks: unseen high-card routing, the leaf-aware gain at fewer leaves, and the
//! agreement of the two scorer paths.

use perceptree::arith::Arith;
use perceptree::data::{make_synthetic, Column, Dataset, MISSING_CAT};
use perceptree::eval;
use perceptree::float::{F32, F64};
use perceptree::infer::{Model, RawValue};
use perceptree::train::train;
use perceptree::{Config, GainKind, LeafKind};

/// The machine's floating-point arithmetic.
struct Native;

fn d(x: F64) -> f64 {
    f64::from_bits(x.bits)
}

fn s(x: F32) -> f32 {
    f32::from_bits(x.bits)
}

fn f64v(x: f64) -> F64 {
    F64 { bits: x.to_bits() }
}

fn f32v(x: f32) -> F32 {
    F32 { bits: x.to_bits() }
}

impl Arith for Native {
    fn sum(a: F64, b: F64) -> F64 {
        f64v(d(a) + d(b))
    }
    fn diff(a: F64, b: F64) -> F64 {
        f64v(d(a) - d(b))
    }
    fn prod(a: F64, b: F64) -> F64 {
        f64v(d(a) * d(b))
    }
    fn quot(a: F64, b: F64) -> F64 {
        f64v(d(a) / d(b))
    }
    fn sqrt(a: F64) -> F64 {
        f64v(d(a).sqrt())
    }
    fn exp(a: F64) -> F64 {
        f64v(d(a).exp())
    }
    fn ln(a: F64) -> F64 {
        f64v(d(a).ln())
    }
    fn round(a: F64) -> F64 {
        f64v(d(a).round())
    }
    fn from_int(n: i128) -> F64 {
        f64v(n as f64)
    }
    fn to_index(a: F64) -> usize {
        d(a) as usize
    }
    fn sum32(a: F32, b: F32) -> F32 {
        f32v(s(a) + s(b))
    }
    fn diff32(a: F32, b: F32) -> F32 {
        f32v(s(a) - s(b))
    }
    fn prod32(a: F32, b: F32) -> F32 {
        f32v(s(a) * s(b))
    }
    fn quot32(a: F32, b: F32) -> F32 {
        f32v(s(a) / s(b))
    }
    fn exp32(a: F32) -> F32 {
        f32v(s(a).exp())
    }
    fn ln_1p32(n: u32) -> F32 {
        f32v((n as f32).ln_1p())
    }
    fn narrow(a: F64) -> F32 {
        f32v(d(a) as f32)
    }
}

fn split() -> (Dataset, Dataset) {
    make_synthetic::<Native>(60_000, 99).temporal_split::<Native>(f64v(0.75)).unwrap()
}

#[test]
fn linear_leaf_at_least_matches_constant_leaf() {
    let (tr, va) = split();
    let mut cfg = Config::default();
    cfg.num_leaves = 16;

    cfg.leaf_model = LeafKind::Constant;
    let m_const = train::<Native>(&tr, &cfg);
    let p_const = m_const.predict_dataset::<Native>(&va);
    let pr_const = d(eval::pr_auc::<Native>(&p_const, &va.labels));

    cfg.leaf_model = LeafKind::Linear;
    let m_lin = train::<Native>(&tr, &cfg);
    let p_lin = m_lin.predict_dataset::<Native>(&va);
    let pr_lin = d(eval::pr_auc::<Native>(&p_lin, &va.labels));

    // Linear leaves should not be worse than constant leaves at equal K
    // (the within-region slope is the whole point).
    assert!(
        pr_lin >= pr_const - 0.01,
        "linear PR-AUC {pr_lin} fell below constant {pr_const}"
    );
}

#[test]
fn leaf_aware_competitive_at_fewer_leaves() {
    let (tr, va) = split();

    let mut c = Config::default();
    c.leaf_model = LeafKind::Linear;

    // Constant gain at K=16.
    c.gain = GainKind::Constant;
    c.num_leaves = 16;
    let big = train::<Native>(&tr, &c);
    let pr_big = d(eval::pr_auc::<Native>(&big.predict_dataset::<Native>(&va), &va.labels));

    // Leaf-aware gain at K=8 should remain competitive (within a margin),
    // demonstrating a coarser, better-matched partition.
    c.gain = GainKind::LeafAware;
    c.num_leaves = 8;
    let small = train::<Native>(&tr, &c);
    let pr_small = d(eval::pr_auc::<Native>(&small.predict_dataset::<Native>(&va), &va.labels));

    assert!(
        pr_small > pr_big - 0.05,
        "leaf-aware K=8 PR-AUC {pr_small} not competitive with constant K=16 {pr_big}"
    );
}

#[test]
fn unseen_highcard_routes_via_prior_and_default() {
    let (tr, _va) = split();
    let cfg = Config::default();
    let model = train::<Native>(&tr, &cfg);

    // Build a raw row whose high-card features carry never-before-seen ids and
    // whose numerics are missing — must score finitely via prior + default dir.
    let mut row: Vec<RawValue> = Vec::new();
    for c in &tr.columns {
        match c {
            Column::Numeric(_) => row.push(RawValue::Num(f32v(f32::NAN))),
            Column::Categorical(_) => row.push(RawValue::Cat(i64::MAX - 1)), // unseen
        }
    }
    // Override one categorical to explicitly missing for good measure.
    row[10] = RawValue::Cat(MISSING_CAT);

    let p = s(model.predict_proba::<Native>(&row));
    assert!(p.is_finite() && p > 0.0 && p < 1.0, "degraded score not finite: {p}");
}

#[test]
fn scorer_paths_match_within_tolerance() {
    let (tr, va) = split();
    let cfg = Config::default();
    let model = train::<Native>(&tr, &cfg);
    let m = model.encoders.transform::<Native>(&va);
    for r in 0..va.n_rows().min(1000) {
        let a = s(model.predict_proba_encoded::<Native>(&m, r));
        let b = s(model.predict_proba::<Native>(&Model::raw_row(&va, r)));
        assert!((a - b).abs() < 1e-5, "row {r}: {a} vs {b}");
    }
}

#[test]
fn end_to_end_metric_is_strong() {
    let (tr, va) = split();
    let mut cfg = Config::default();
    cfg.num_leaves = 16;
    let model = train::<Native>(&tr, &cfg);
    let preds = model.predict_dataset::<Native>(&va);
    let metrics = eval::evaluate::<Native>(&preds, &va.labels);
    assert!(d(metrics.roc_auc) > 0.70, "roc {}", d(metrics.roc_auc));
    assert!(d(metrics.lift_top10pct) > 2.0, "lift {}", d(metrics.lift_top10pct));
}
