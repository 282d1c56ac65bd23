//! Split-finding and growth.

use perceptree::arith::Arith;
use perceptree::data::{make_synthetic, Column, Dataset, FeatureKind, Rng, Schema};
use perceptree::encoding::{EncCol, EncodedMatrix, Encoders, FeatureEncoder};
use perceptree::float::{F32, F64};
use perceptree::tree::{
    best_categorical, best_numeric, find_best_split, grow, partition, score_const, score_linear,
    sends_left, znorm, NodeKind, Split,
};
use perceptree::{Config, GainKind};

/// The machine's floating-point arithmetic.
struct Native;

fn d(x: F64) -> f64 {
    f64::from_bits(x.bits)
}

fn s(x: F32) -> f32 {
    f32::from_bits(x.bits)
}

fn f64v(x: f64) -> F64 {
    F64 { bits: x.to_bits() }
}

fn f32v(x: f32) -> F32 {
    F32 { bits: x.to_bits() }
}

impl Arith for Native {
    fn sum(a: F64, b: F64) -> F64 {
        f64v(d(a) + d(b))
    }
    fn diff(a: F64, b: F64) -> F64 {
        f64v(d(a) - d(b))
    }
    fn prod(a: F64, b: F64) -> F64 {
        f64v(d(a) * d(b))
    }
    fn quot(a: F64, b: F64) -> F64 {
        f64v(d(a) / d(b))
    }
    fn sqrt(a: F64) -> F64 {
        f64v(d(a).sqrt())
    }
    fn exp(a: F64) -> F64 {
        f64v(d(a).exp())
    }
    fn ln(a: F64) -> F64 {
        f64v(d(a).ln())
    }
    fn round(a: F64) -> F64 {
        f64v(d(a).round())
    }
    fn from_int(n: i128) -> F64 {
        f64v(n as f64)
    }
    fn to_index(a: F64) -> usize {
        d(a) as usize
    }
    fn sum32(a: F32, b: F32) -> F32 {
        f32v(s(a) + s(b))
    }
    fn diff32(a: F32, b: F32) -> F32 {
        f32v(s(a) - s(b))
    }
    fn prod32(a: F32, b: F32) -> F32 {
        f32v(s(a) * s(b))
    }
    fn quot32(a: F32, b: F32) -> F32 {
        f32v(s(a) / s(b))
    }
    fn exp32(a: F32) -> F32 {
        f32v(s(a).exp())
    }
    fn ln_1p32(n: u32) -> F32 {
        f32v((n as f32).ln_1p())
    }
    fn narrow(a: F64) -> F32 {
        f32v(d(a) as f32)
    }
}

fn nums(v: &[f32]) -> Vec<F32> {
    v.iter().map(|&x| f32v(x)).collect()
}

fn plain(min: usize) -> Config {
    let mut cfg = Config::default();
    cfg.lambda = f32v(0.0);
    cfg.min_leaf_samples = min;
    cfg
}

/// Brute-force best constant-gain numeric threshold over candidate knots,
/// compared against the histogram split-finder.
#[test]
fn numeric_gain_matches_brute_force() {
    // One numeric feature, a clean threshold effect at ~0.
    let n = 2000;
    let mut col = Vec::new();
    let mut labels: Vec<u8> = Vec::new();
    let mut rng = Rng::new(3);
    for _ in 0..n {
        let x = rng.next_normal::<Native>();
        col.push(x);
        labels.push(if s(x) > 0.0 {
            (s(rng.next_f32()) < 0.7) as u8
        } else {
            (s(rng.next_f32()) < 0.1) as u8
        });
    }
    let schema = Schema::new(vec!["x".into()], vec![FeatureKind::Numeric]);
    let ds = Dataset::new(schema, vec![Column::Numeric(col.clone())], labels.clone());
    let mut cfg = Config::default();
    cfg.min_leaf_samples = 1;
    cfg.gain = GainKind::Constant;
    let (enc, _m) = Encoders::fit::<Native>(&ds, &cfg);

    // Stats at base score.
    let rate = labels.iter().map(|&y| y as f64).sum::<f64>() / n as f64;
    let p0 = rate as f32;
    let g: Vec<f32> = labels.iter().map(|&y| p0 - y as f32).collect();
    let h: Vec<f32> = vec![p0 * (1.0 - p0); n];

    let rows: Vec<u32> = (0..n as u32).collect();
    let knots = match &enc.features[0] {
        FeatureEncoder::Numeric(e) => e.knots.clone(),
        _ => unreachable!(),
    };
    let parent = score_const::<Native>(
        f64v(g.iter().map(|&x| x as f64).sum()),
        f64v(h.iter().map(|&x| x as f64).sum()),
        f64v(s(cfg.lambda) as f64),
    );
    let found =
        best_numeric::<Native>(&rows, &col, &knots, &nums(&g), &nums(&h), &cfg, parent).unwrap();

    // Brute force over the same candidate thresholds.
    let mut brute = f64::MIN;
    for t in 0..knots.len() {
        let thr = s(knots[t]);
        let (mut lg, mut lh, mut rg, mut rh) = (0.0, 0.0, 0.0, 0.0);
        for i in 0..n {
            if s(col[i]) < thr {
                lg += g[i] as f64;
                lh += h[i] as f64;
            } else {
                rg += g[i] as f64;
                rh += h[i] as f64;
            }
        }
        let lam = f64v(s(cfg.lambda) as f64);
        let gain = d(score_const::<Native>(f64v(lg), f64v(lh), lam))
            + d(score_const::<Native>(f64v(rg), f64v(rh), lam))
            - d(parent);
        if gain > brute {
            brute = gain;
        }
    }
    let gain = s(found.gain);
    assert!((gain as f64 - brute).abs() < 1e-3, "histogram gain {} vs brute {}", gain, brute);
}

#[test]
fn grows_to_requested_leaves() {
    let ds = make_synthetic::<Native>(8000, 11);
    let mut cfg = Config::default();
    cfg.num_leaves = 8;
    let (enc, matrix) = Encoders::fit::<Native>(&ds, &cfg);
    let rate = ds.labels.iter().map(|&y| y as f64).sum::<f64>() / ds.n_rows() as f64;
    let p0 = rate as f32;
    let g: Vec<F32> = ds.labels.iter().map(|&y| f32v(p0 - y as f32)).collect();
    let h: Vec<F32> = vec![f32v(p0 * (1.0 - p0)); ds.n_rows()];
    let tree = grow::<Native>(&enc, &matrix, &g, &h, &cfg);
    assert!(tree.leaf_rows.len() <= 8 && tree.leaf_rows.len() >= 2);
    // All rows accounted for exactly once.
    let total: usize = tree.leaf_rows.iter().map(|r| r.len()).sum();
    assert_eq!(total, ds.n_rows());
}

#[test]
fn scores_are_exact() {
    assert_eq!(d(score_const::<Native>(f64v(3.0), f64v(1.0), f64v(2.0))), 3.0);
    // a = 2, d = 2, det = 4, x = [1, 2].
    let r = score_linear::<Native>(
        f64v(1.0),
        f64v(0.0),
        f64v(1.0),
        f64v(2.0),
        f64v(4.0),
        f64v(1.0),
    );
    assert_eq!(d(r), 10.0);
    // A determinant of zero falls back to the constant score.
    let r = score_linear::<Native>(
        f64v(4.0),
        f64v(0.0),
        f64v(0.0),
        f64v(2.0),
        f64v(5.0),
        f64v(0.0),
    );
    assert_eq!(d(r), 1.0);
}

#[test]
fn values_are_normalized_over_the_knots() {
    let knots = nums(&[2.0, 3.0, 6.0]);
    assert_eq!(d(znorm::<Native>(&knots, f32v(3.0))), 0.25);
    assert_eq!(d(znorm::<Native>(&knots, f32v(1.0))), 0.0);
    assert_eq!(d(znorm::<Native>(&knots, f32v(9.0))), 1.0);
    assert_eq!(d(znorm::<Native>(&nums(&[2.0]), f32v(9.0))), 0.0);
}

#[test]
fn numeric_split_has_the_highest_gain() {
    let rows = vec![0, 1, 2, 3];
    let vals = nums(&[0.0, 1.0, 2.0, 3.0]);
    let knots = nums(&[1.0, 2.0, 3.0]);
    let g = nums(&[1.0, 1.0, -1.0, -1.0]);
    let h = nums(&[1.0; 4]);
    let c = best_numeric::<Native>(&rows, &vals, &knots, &g, &h, &plain(1), f64v(0.0)).unwrap();
    assert_eq!(s(c.gain), 4.0);
    assert!(matches!(c.split, Split::Numeric { thr } if s(thr) == 2.0));
    assert!(c.default_left);
    // Only the middle threshold leaves two rows on both sides; none leaves three.
    let c = best_numeric::<Native>(&rows, &vals, &knots, &g, &h, &plain(2), f64v(0.0)).unwrap();
    assert!(matches!(c.split, Split::Numeric { thr } if s(thr) == 2.0));
    assert!(best_numeric::<Native>(&rows, &vals, &knots, &g, &h, &plain(3), f64v(0.0)).is_none());
    // No rows, no knots.
    let none = Vec::new();
    assert!(best_numeric::<Native>(&none, &vals, &knots, &g, &h, &plain(1), f64v(0.0)).is_none());
    assert!(best_numeric::<Native>(&none, &vals, &Vec::new(), &g, &h, &plain(0), f64v(0.0)).is_none());
}

#[test]
fn equal_gains_keep_the_first_threshold() {
    let rows = vec![0, 1, 2];
    let vals = nums(&[0.0, 5.0, 10.0]);
    let knots = nums(&[1.0, 6.0]);
    // A split at either knot gains the same.
    let g = nums(&[1.0, 0.0, 1.0]);
    let h = nums(&[1.0, 0.0, 1.0]);
    let c = best_numeric::<Native>(&rows, &vals, &knots, &g, &h, &plain(1), f64v(0.0)).unwrap();
    assert!(matches!(c.split, Split::Numeric { thr } if s(thr) == 1.0));
}

#[test]
fn missing_rows_take_the_better_direction() {
    let rows = vec![0, 1, 2];
    let vals = nums(&[0.0, 2.0, f32::NAN]);
    let knots = nums(&[1.0]);
    let h = nums(&[1.0; 3]);
    let like_right = nums(&[1.0, -1.0, -1.0]);
    let c =
        best_numeric::<Native>(&rows, &vals, &knots, &like_right, &h, &plain(1), f64v(0.0)).unwrap();
    assert!(!c.default_left);
    assert_eq!(s(c.gain), 3.0);
    let like_left = nums(&[1.0, -1.0, 1.0]);
    let c =
        best_numeric::<Native>(&rows, &vals, &knots, &like_left, &h, &plain(1), f64v(0.0)).unwrap();
    assert!(c.default_left);
}

#[test]
fn leaf_aware_gain_discounts_a_linear_trend() {
    // g is linear in the value: the constant criterion sees far more in a split than the
    // leaf-aware one.
    let n = 64;
    let rows: Vec<u32> = (0..n).collect();
    let vals: Vec<F32> = (0..n).map(|i| f32v(i as f32)).collect();
    let knots: Vec<F32> = (0..8).map(|i| f32v(i as f32 * 9.0)).collect();
    let g: Vec<F32> = (0..n).map(|i| f32v(i as f32 - 31.5)).collect();
    let h = nums(&vec![1.0; n as usize]);
    let matrix = EncodedMatrix { cols: vec![EncCol::Num(vals)], n_rows: n as usize };
    let feature = FeatureEncoder::Numeric(perceptree::encoding::NumericEnc { knots, basis_off: 0 });
    let enc = Encoders { features: vec![feature], basis_dim: 9 };
    let mut cfg = Config::default();
    cfg.lambda = f32v(0.001);
    cfg.min_leaf_samples = 1;
    let constant = find_best_split::<Native>(&rows, &enc, &matrix, &g, &h, &cfg).unwrap();
    cfg.gain = GainKind::LeafAware;
    let aware = find_best_split::<Native>(&rows, &enc, &matrix, &g, &h, &cfg);
    let gain = match &aware {
        Some(c) => s(c.gain),
        None => 0.0,
    };
    assert!(gain < s(constant.gain) * 0.01, "{gain} vs {}", s(constant.gain));
}

#[test]
fn categories_are_sorted_by_gradient_ratio() {
    let rows = vec![0, 1, 2, 3, 4, 5];
    let codes = vec![0, 0, 1, 1, 2, 2];
    let g = nums(&[2.0, 2.0, -1.0, -1.0, 1.0, 1.0]);
    let h = nums(&[1.0; 6]);
    // Order 1, 2, 0; the prefix {1} gains 2 + 9, the prefix {1, 2} gains 0 + 8.
    let c = best_categorical::<Native>(&rows, &codes, &g, &h, &plain(1), f64v(0.0)).unwrap();
    assert_eq!(s(c.gain), 11.0);
    assert!(c.default_left);
    assert!(matches!(&c.split, Split::Categorical { left_set } if left_set == &vec![1]));
    // With three rows needed on each side only the whole row set is left.
    assert!(best_categorical::<Native>(&rows, &codes, &g, &h, &plain(3), f64v(0.0)).is_none());
    // One category cannot be split.
    let same = vec![4; 6];
    assert!(best_categorical::<Native>(&rows, &same, &g, &h, &plain(0), f64v(0.0)).is_none());
    assert!(best_categorical::<Native>(&Vec::new(), &same, &g, &h, &plain(0), f64v(0.0)).is_none());
}

#[test]
fn small_hessians_count_in_the_ratio() {
    // G/H is 4 for code 7 and 1 for code 9, though the gradient of code 9 is greater.
    let rows = vec![0, 1];
    let codes = vec![7, 9];
    let g = nums(&[1.0, 2.0]);
    let h = nums(&[0.25, 2.0]);
    let c = best_categorical::<Native>(&rows, &codes, &g, &h, &plain(1), f64v(0.0)).unwrap();
    assert!(matches!(&c.split, Split::Categorical { left_set } if left_set == &vec![9]));
}

#[test]
fn splits_route_values() {
    let num = Split::Numeric { thr: f32v(1.5) };
    assert!(sends_left(&num, false, Ok(f32v(1.0))));
    assert!(!sends_left(&num, true, Ok(f32v(1.5))));
    assert!(sends_left(&num, true, Ok(f32v(f32::NAN))));
    assert!(!sends_left(&num, false, Ok(f32v(f32::NAN))));
    let cat = Split::Categorical { left_set: vec![3, 5] };
    assert!(sends_left(&cat, false, Err(5)));
    assert!(!sends_left(&cat, true, Err(4)));
    // A split of the other kind takes the default direction.
    assert!(sends_left(&num, true, Err(0)));
    assert!(!sends_left(&cat, false, Ok(f32v(0.0))));
}

#[test]
fn partition_keeps_row_order() {
    let matrix = EncodedMatrix {
        cols: vec![
            EncCol::Num(nums(&[5.0, f32::NAN, 1.0, 2.0])),
            EncCol::Cat(vec![0, 1, 0, 2]),
            EncCol::HighCard { enc: nums(&[0.1, 0.9, 0.2, 0.8]), cnt: nums(&[0.0; 4]) },
        ],
        n_rows: 4,
    };
    let rows = vec![0, 1, 2, 3];
    let num = Split::Numeric { thr: f32v(2.0) };
    assert_eq!(partition(&rows, 0, &num, true, &matrix), (vec![1, 2], vec![0, 3]));
    assert_eq!(partition(&rows, 0, &num, false, &matrix), (vec![2], vec![0, 1, 3]));
    let cat = Split::Categorical { left_set: vec![2, 0] };
    assert_eq!(partition(&rows, 1, &cat, true, &matrix), (vec![0, 2, 3], vec![1]));
    let half = Split::Numeric { thr: f32v(0.5) };
    assert_eq!(partition(&vec![3, 0], 2, &half, true, &matrix), (vec![0], vec![3]));
}

#[test]
fn grown_trees_partition_and_route_the_rows() {
    let ds = make_synthetic::<Native>(3000, 21);
    for (leaves, gain) in
        [(0, GainKind::Constant), (1, GainKind::Constant), (6, GainKind::LeafAware), (12, GainKind::Constant)]
    {
        let mut cfg = Config::default();
        cfg.num_leaves = leaves;
        cfg.gain = gain;
        let (enc, matrix) = Encoders::fit::<Native>(&ds, &cfg);
        let g: Vec<F32> = ds.labels.iter().map(|&y| f32v(0.1 - y as f32)).collect();
        let h: Vec<F32> = vec![f32v(0.09); ds.n_rows()];
        let tree = grow::<Native>(&enc, &matrix, &g, &h, &cfg);
        let n = tree.leaf_rows.len();
        assert!(n >= 1 && n <= leaves.max(1));
        assert_eq!(tree.nodes.len(), 2 * n - 1);
        let mut seen = vec![0; 3000];
        for (leaf, rows) in tree.leaf_rows.iter().enumerate() {
            assert!(n == 1 || rows.len() >= cfg.min_leaf_samples);
            for &r in rows {
                seen[r as usize] += 1;
                // Follow the nodes.
                let mut node = tree.root;
                let id = loop {
                    match &tree.nodes[node] {
                        NodeKind::Leaf(id) => break *id,
                        NodeKind::Internal { feature, split, default_left, left, right } => {
                            let v = match &matrix.cols[*feature as usize] {
                                EncCol::Num(v) => Ok(v[r as usize]),
                                EncCol::HighCard { enc, .. } => Ok(enc[r as usize]),
                                EncCol::Cat(c) => Err(c[r as usize]),
                            };
                            assert!(*left > node && *right > node);
                            node = if sends_left(split, *default_left, v) { *left } else { *right };
                        }
                    }
                };
                assert_eq!(id, leaf);
            }
        }
        assert!(seen.iter().all(|&k| k == 1));
    }
}

#[test]
fn no_gain_means_no_split() {
    let matrix = EncodedMatrix { cols: vec![EncCol::Cat(vec![0, 0, 0])], n_rows: 3 };
    let schema = Schema::new(vec!["c".into()], vec![FeatureKind::BoundedCat]);
    let ds = Dataset::new(schema, vec![Column::Categorical(vec![5, 5, 5])], vec![0, 1, 0]);
    let (enc, _) = Encoders::fit::<Native>(&ds, &Config::default());
    let g = nums(&[1.0, -1.0, 1.0]);
    let h = nums(&[1.0; 3]);
    assert!(find_best_split::<Native>(&vec![0, 1, 2], &enc, &matrix, &g, &h, &plain(1)).is_none());
    let tree = grow::<Native>(&enc, &matrix, &g, &h, &plain(1));
    assert_eq!(tree.leaf_rows, vec![vec![0, 1, 2]]);
    assert!(matches!(tree.nodes[0], NodeKind::Leaf(0)));
}

/// Leaf-aware score of the rows that `keep` picks, summed up row by row.
fn brute_linear(keep: &dyn Fn(usize) -> bool, z: &[f64], g: &[f32], h: &[f32], lam: f64) -> f64 {
    let (mut sg, mut sh, mut sgz, mut shz, mut shzz) = (0.0, 0.0, 0.0, 0.0, 0.0);
    for i in (0..z.len()).filter(|&i| keep(i)) {
        let (gi, hi) = (g[i] as f64, h[i] as f64);
        sg += gi;
        sh += hi;
        sgz += gi * z[i];
        shz += hi * z[i];
        shzz += hi * z[i] * z[i];
    }
    d(score_linear::<Native>(f64v(sh), f64v(shz), f64v(shzz), f64v(sg), f64v(sgz), f64v(lam)))
}

#[test]
fn leaf_aware_gain_matches_brute_force() {
    let n = 300;
    let mut rng = Rng::new(17);
    let vals: Vec<f32> = (0..n)
        .map(|_| {
            let v = s(rng.next_f32()) * 8.0;
            if rng.below(10) == 0 { f32::NAN } else { v }
        })
        .collect();
    let g: Vec<f32> = vals
        .iter()
        .map(|&v| s(rng.next_f32()) - if v > 3.0 { 0.8 } else { 0.1 })
        .collect();
    let h: Vec<f32> = (0..n).map(|_| 0.1 + s(rng.next_f32())).collect();
    let knots = [0.5f32, 1.5, 3.0, 4.25, 6.0, 7.5];
    let z: Vec<f64> = vals
        .iter()
        .map(|&v| if v.is_nan() { 0.0 } else { (((v - 0.5) / 7.0) as f64).clamp(0.0, 1.0) })
        .collect();
    let mut cfg = plain(1);
    cfg.gain = GainKind::LeafAware;
    cfg.lambda = f32v(0.5);
    let parent = brute_linear(&|_| true, &z, &g, &h, 0.5);
    let rows: Vec<u32> = (0..n as u32).collect();
    let found = best_numeric::<Native>(
        &rows,
        &nums(&vals),
        &nums(&knots),
        &nums(&g),
        &nums(&h),
        &cfg,
        f64v(parent),
    )
    .unwrap();
    let mut brute = f64::MIN;
    for thr in knots {
        for default_left in [true, false] {
            let left = |i: usize| if vals[i].is_nan() { default_left } else { vals[i] < thr };
            let gain = brute_linear(&left, &z, &g, &h, 0.5)
                + brute_linear(&|i| !left(i), &z, &g, &h, 0.5)
                - parent;
            brute = brute.max(gain);
        }
    }
    assert!(brute > 0.1);
    assert!((s(found.gain) as f64 - brute).abs() < 1e-4, "{} vs {brute}", s(found.gain));
}

#[test]
fn linear_trend_earns_nothing_without_l2() {
    let n = 64usize;
    let vals: Vec<f32> = (0..n).map(|i| i as f32).collect();
    let h: Vec<f32> = (0..n).map(|i| 1.0 + (i % 3) as f32).collect();
    // g = h·(z/2 - 1/4) with z = v/63.
    let g: Vec<f32> = vals.iter().zip(&h).map(|(v, h)| h * (v / 63.0 * 0.5 - 0.25)).collect();
    let knots: Vec<f32> = (0..8).map(|i| i as f32 * 9.0).collect();
    let z: Vec<f64> = vals.iter().map(|&v| (v / 63.0) as f64).collect();
    let mut cfg = plain(4);
    cfg.gain = GainKind::LeafAware;
    cfg.lambda = f32v(0.0);
    let parent = brute_linear(&|_| true, &z, &g, &h, 0.0);
    let rows: Vec<u32> = (0..n as u32).collect();
    let found = best_numeric::<Native>(
        &rows,
        &nums(&vals),
        &nums(&knots),
        &nums(&g),
        &nums(&h),
        &cfg,
        f64v(parent),
    )
    .unwrap();
    assert!(parent > 1.0);
    assert!(s(found.gain).abs() < 1e-5, "{}", s(found.gain));
}
