//! The synthetic data, its generator, and the temporal split.

use perceptree::arith::Arith;
use perceptree::data::{make_synthetic, Column, Dataset, FeatureKind, Rng, Schema, MISSING_CAT};
use perceptree::float::{F32, F64};
use perceptree::{Config, GainKind, LeafKind};

/// The machine's floating-point arithmetic.
struct Native;

fn d(x: F64) -> f64 {
    f64::from_bits(x.bits)
}

fn s(x: F32) -> f32 {
    f32::from_bits(x.bits)
}

fn f64v(x: f64) -> F64 {
    F64 { bits: x.to_bits() }
}

fn f32v(x: f32) -> F32 {
    F32 { bits: x.to_bits() }
}

impl Arith for Native {
    fn sum(a: F64, b: F64) -> F64 {
        f64v(d(a) + d(b))
    }
    fn diff(a: F64, b: F64) -> F64 {
        f64v(d(a) - d(b))
    }
    fn prod(a: F64, b: F64) -> F64 {
        f64v(d(a) * d(b))
    }
    fn quot(a: F64, b: F64) -> F64 {
        f64v(d(a) / d(b))
    }
    fn sqrt(a: F64) -> F64 {
        f64v(d(a).sqrt())
    }
    fn exp(a: F64) -> F64 {
        f64v(d(a).exp())
    }
    fn ln(a: F64) -> F64 {
        f64v(d(a).ln())
    }
    fn round(a: F64) -> F64 {
        f64v(d(a).round())
    }
    fn from_int(n: i128) -> F64 {
        f64v(n as f64)
    }
    fn to_index(a: F64) -> usize {
        d(a) as usize
    }
    fn sum32(a: F32, b: F32) -> F32 {
        f32v(s(a) + s(b))
    }
    fn diff32(a: F32, b: F32) -> F32 {
        f32v(s(a) - s(b))
    }
    fn prod32(a: F32, b: F32) -> F32 {
        f32v(s(a) * s(b))
    }
    fn quot32(a: F32, b: F32) -> F32 {
        f32v(s(a) / s(b))
    }
    fn exp32(a: F32) -> F32 {
        f32v(s(a).exp())
    }
    fn ln_1p32(n: u32) -> F32 {
        f32v((n as f32).ln_1p())
    }
    fn narrow(a: F64) -> F32 {
        f32v(d(a) as f32)
    }
}

fn tiny() -> Dataset {
    let schema = Schema::new(
        vec!["x".to_string(), "c".to_string()],
        vec![FeatureKind::Numeric, FeatureKind::BoundedCat],
    );
    let x = Column::Numeric(vec![f32v(1.0), f32v(2.0), f32v(3.0), f32v(4.0)]);
    let c = Column::Categorical(vec![10, 20, MISSING_CAT, 40]);
    Dataset::new(schema, vec![x, c], vec![0, 1, 1, 0])
}

#[test]
fn synthetic_shapes_and_imbalance() {
    let ds = make_synthetic::<Native>(20_000, 42);
    assert_eq!(ds.n_rows(), 20_000);
    assert_eq!(ds.columns.len(), 25);
    let pos: usize = ds.labels.iter().map(|&y| y as usize).sum();
    let rate = pos as f64 / ds.n_rows() as f64;
    // Imbalanced but not degenerate.
    assert!(rate > 0.01 && rate < 0.30, "rate={rate}");
}

#[test]
fn temporal_split_sizes() {
    let ds = make_synthetic::<Native>(1000, 1);
    let (tr, va) = ds.temporal_split::<Native>(f64v(0.8)).unwrap();
    assert_eq!(tr.n_rows(), 800);
    assert_eq!(va.n_rows(), 200);
}

#[test]
fn rng_is_deterministic() {
    let mut a = Rng::new(7);
    let mut b = Rng::new(7);
    assert_eq!(a.next_u64(), b.next_u64());
}

#[test]
fn rng_draws_are_xorshift() {
    let mut r = Rng::new(7);
    assert_eq!(r.next_u64(), 0x1c38ee1c7);
    assert_eq!(r.next_u64(), 0x7001c71224016dc4);
    assert_eq!(s(r.next_f32()), 12671007.0 / 16777216.0);
    assert_eq!(r.below(10), 7);
    // An even seed is made odd.
    assert_eq!(Rng::new(6).next_u64(), 0x1c38ee1c7);
}

#[test]
fn rng_normal_adds_six_uniforms() {
    let mut r = Rng::new(7);
    assert_eq!(r.next_normal::<Native>().bits, 0xbe6e03a8);
    assert_eq!(r.next_u64(), 0x48b36c52f6649ad1);
}

#[test]
fn rng_stays_in_range_and_never_stops() {
    let mut r = Rng::new(0);
    for _ in 0..10_000 {
        let u = s(r.next_f32());
        assert!((0.0..1.0).contains(&u));
        assert!(r.below(17) < 17);
        assert_ne!(r.next_u64(), 0);
    }
}

#[test]
fn synthetic_is_reproducible() {
    let a = make_synthetic::<Native>(50, 5);
    let b = make_synthetic::<Native>(50, 5);
    let c = make_synthetic::<Native>(50, 6);
    assert_eq!(a.labels, b.labels);
    let mut differs = false;
    for i in 0..25 {
        match (&a.columns[i], &b.columns[i], &c.columns[i]) {
            (Column::Numeric(x), Column::Numeric(y), Column::Numeric(z)) => {
                for r in 0..50 {
                    assert_eq!(x[r].bits, y[r].bits);
                    differs = differs || x[r].bits != z[r].bits;
                }
            }
            (Column::Categorical(x), Column::Categorical(y), Column::Categorical(_)) => {
                assert_eq!(x, y);
            }
            _ => panic!("kinds differ"),
        }
    }
    assert!(differs);
}

#[test]
fn synthetic_schema_and_value_ranges() {
    let ds = make_synthetic::<Native>(400, 3);
    assert_eq!(ds.schema.n_features(), 25);
    assert_eq!(ds.schema.names[0], "num_0");
    assert_eq!(ds.schema.names[19], "bcat_9");
    assert_eq!(ds.schema.names[24], "hcat_4");
    assert_eq!(ds.schema.kinds[9], FeatureKind::Numeric);
    assert_eq!(ds.schema.kinds[10], FeatureKind::BoundedCat);
    assert_eq!(ds.schema.kinds[20], FeatureKind::HighCardCat);
    let mut missing_num = 0;
    let mut missing_cat = 0;
    for (i, c) in ds.columns.iter().enumerate() {
        assert_eq!(c.len(), 400);
        assert!(!c.is_empty());
        match c {
            Column::Numeric(v) => missing_num += v.iter().filter(|x| x.is_nan()).count(),
            Column::Categorical(v) => {
                for &x in v {
                    if x == MISSING_CAT {
                        missing_cat += 1;
                        assert!(i < 20);
                    } else {
                        assert!(x >= 0 && x < if i < 20 { 8 } else { 5000 });
                    }
                }
            }
        }
    }
    assert!(missing_num > 0 && missing_num < 400);
    assert!(missing_cat > 0 && missing_cat < 300);
    assert!(ds.weights.iter().all(|&w| s(w) == 1.0));
}

#[test]
fn class_weights_follow_labels() {
    let mut ds = tiny();
    assert!(ds.weights.iter().all(|&w| s(w) == 1.0));
    ds.set_class_weights(f32v(2.5));
    let w: Vec<f32> = ds.weights.iter().map(|&w| s(w)).collect();
    assert_eq!(w, vec![1.0, 2.5, 2.5, 1.0]);
}

#[test]
fn split_keeps_every_row_in_order() {
    let mut ds = tiny();
    ds.set_class_weights(f32v(3.0));
    let (tr, va) = ds.temporal_split::<Native>(f64v(0.6)).unwrap();
    // 4 * 0.6 rounds to 2.
    assert_eq!(tr.labels, vec![0, 1]);
    assert_eq!(va.labels, vec![1, 0]);
    assert_eq!(s(va.weights[0]), 3.0);
    match (&tr.columns[1], &va.columns[1]) {
        (Column::Categorical(a), Column::Categorical(b)) => {
            assert_eq!(a, &vec![10, 20]);
            assert_eq!(b, &vec![MISSING_CAT, 40]);
        }
        _ => panic!("kind"),
    }
    assert_eq!(tr.schema.names, ds.schema.names);
}

#[test]
fn split_edges() {
    let ds = tiny();
    let (tr, va) = ds.temporal_split::<Native>(f64v(1.0)).unwrap();
    assert_eq!((tr.n_rows(), va.n_rows()), (4, 0));
    let (tr, va) = ds.temporal_split::<Native>(f64v(0.0)).unwrap();
    assert_eq!((tr.n_rows(), va.n_rows()), (0, 4));
    // More rows than there are.
    assert!(ds.temporal_split::<Native>(f64v(1.5)).is_none());
}

#[test]
fn default_configuration() {
    let cfg = Config::default();
    assert_eq!(cfg.num_leaves, 16);
    assert_eq!(s(cfg.lambda), 1.0);
    assert_eq!(cfg.knots, 16);
    assert_eq!(cfg.hc_knots, 16);
    assert_eq!(s(cfg.alpha), 20.0);
    assert_eq!(cfg.n_folds, 5);
    assert_eq!(s(cfg.pos_weight), 1.0);
    assert_eq!(cfg.gain, GainKind::Constant);
    assert_eq!(cfg.leaf_model, LeafKind::Linear);
    assert_eq!(cfg.irls_iters, 8);
    assert_eq!(cfg.min_leaf_samples, 50);
    assert!(cfg.hc_use_count);
}

#[test]
fn smaller_benchmark_starts_the_larger() {
    let large = make_synthetic::<Native>(60, 77);
    for n in [0usize, 1, 17, 60] {
        let small = make_synthetic::<Native>(n, 77);
        assert_eq!(small.labels, large.labels[..n].to_vec());
        assert_eq!(small.schema.names, large.schema.names);
        for (a, b) in small.columns.iter().zip(&large.columns) {
            match (a, b) {
                (Column::Numeric(x), Column::Numeric(y)) => {
                    assert_eq!(x.len(), n);
                    assert!(x.iter().zip(y).all(|(p, q)| p.bits == q.bits));
                }
                (Column::Categorical(x), Column::Categorical(y)) => assert_eq!(x[..], y[..n]),
                _ => panic!("kind"),
            }
        }
    }
}
