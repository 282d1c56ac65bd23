//! Quantile knots, target encoding, and the sparse basis.

use perceptree::arith::Arith;
use perceptree::data::{make_synthetic, Column, Dataset, FeatureKind, Schema, MISSING_CAT};
use perceptree::encoding::{
    expand_row, push_numeric, quantile_knots, target_enc_map, weighted_rate, EncCol, Encoders,
    FeatureEncoder,
};
use perceptree::float::{F32, F64};
use perceptree::Config;

/// The machine's floating-point arithmetic.
struct Native;

fn d(x: F64) -> f64 {
    f64::from_bits(x.bits)
}

fn s(x: F32) -> f32 {
    f32::from_bits(x.bits)
}

fn f64v(x: f64) -> F64 {
    F64 { bits: x.to_bits() }
}

fn f32v(x: f32) -> F32 {
    F32 { bits: x.to_bits() }
}

impl Arith for Native {
    fn sum(a: F64, b: F64) -> F64 {
        f64v(d(a) + d(b))
    }
    fn diff(a: F64, b: F64) -> F64 {
        f64v(d(a) - d(b))
    }
    fn prod(a: F64, b: F64) -> F64 {
        f64v(d(a) * d(b))
    }
    fn quot(a: F64, b: F64) -> F64 {
        f64v(d(a) / d(b))
    }
    fn sqrt(a: F64) -> F64 {
        f64v(d(a).sqrt())
    }
    fn exp(a: F64) -> F64 {
        f64v(d(a).exp())
    }
    fn ln(a: F64) -> F64 {
        f64v(d(a).ln())
    }
    fn round(a: F64) -> F64 {
        f64v(d(a).round())
    }
    fn from_int(n: i128) -> F64 {
        f64v(n as f64)
    }
    fn to_index(a: F64) -> usize {
        d(a) as usize
    }
    fn sum32(a: F32, b: F32) -> F32 {
        f32v(s(a) + s(b))
    }
    fn diff32(a: F32, b: F32) -> F32 {
        f32v(s(a) - s(b))
    }
    fn prod32(a: F32, b: F32) -> F32 {
        f32v(s(a) * s(b))
    }
    fn quot32(a: F32, b: F32) -> F32 {
        f32v(s(a) / s(b))
    }
    fn exp32(a: F32) -> F32 {
        f32v(s(a).exp())
    }
    fn ln_1p32(n: u32) -> F32 {
        f32v((n as f32).ln_1p())
    }
    fn narrow(a: F64) -> F32 {
        f32v(d(a) as f32)
    }
}

fn nums(v: &[f32]) -> Vec<F32> {
    v.iter().map(|&x| f32v(x)).collect()
}

fn floats(v: &[F32]) -> Vec<f32> {
    v.iter().map(|&x| s(x)).collect()
}

fn entries(v: &[(u32, F32)]) -> Vec<(u32, f32)> {
    v.iter().map(|&(i, x)| (i, s(x))).collect()
}

fn one_column(kind: FeatureKind, column: Column, labels: Vec<u8>) -> Dataset {
    Dataset::new(Schema::new(vec!["f".to_string()], vec![kind]), vec![column], labels)
}

#[test]
fn knots_strictly_increasing() {
    let v: Vec<F32> = (0..1000).map(|i| f32v((i as f32 * 0.01).sin())).collect();
    let k = floats(&quantile_knots::<Native>(&v, 16));
    for w in k.windows(2) {
        assert!(w[1] > w[0], "knots not strictly increasing: {:?}", k);
    }
}

#[test]
fn numeric_basis_partition_of_unity() {
    let knots = nums(&[0.0, 1.0, 2.0, 3.0]);
    let mut out = Vec::new();
    push_numeric::<Native>(&knots, 0, f32v(1.25), &mut out);
    let out = entries(&out);
    let sum: f32 = out.iter().map(|&(_, w)| w).sum();
    assert!((sum - 1.0).abs() < 1e-6);
    // 1.25 brackets knots[1]=1 and knots[2]=2, weight 0.75 / 0.25.
    assert_eq!(out.len(), 2);
    assert!((out[0].1 - 0.75).abs() < 1e-6 && out[0].0 == 1);
    assert!((out[1].1 - 0.25).abs() < 1e-6 && out[1].0 == 2);
}

#[test]
fn numeric_missing_goes_to_reserved_slot() {
    let knots = nums(&[0.0, 1.0, 2.0]);
    let mut out = Vec::new();
    push_numeric::<Native>(&knots, 10, f32v(f32::NAN), &mut out);
    assert_eq!(entries(&out), vec![(13, 1.0)]); // off=10 + K=3
}

#[test]
fn target_encoder_is_out_of_fold_for_unique_ids() {
    // Each row a unique category → in-fold encoding would equal its own
    // label; out-of-fold encoding must fall back to the prior instead.
    let mut cfg = Config::default();
    cfg.alpha = f32v(0.0); // no smoothing: makes leakage maximally visible
    cfg.n_folds = 5;
    let n = 500;
    let mut codes = Vec::new();
    let mut labels = Vec::new();
    for i in 0..n {
        codes.push(i as i64); // unique id per row
        labels.push((i % 2) as u8);
    }
    let weights = vec![f32v(1.0); n];
    let prior = weighted_rate::<Native>(&labels, &weights);

    let nf = cfg.n_folds;
    let mut oof = vec![s(prior); n];
    for f in 0..nf {
        let train_rows: Vec<usize> = (0..n).filter(|i| i % nf != f).collect();
        let (m, _) =
            target_enc_map::<Native>(&codes, &labels, &weights, &train_rows, cfg.alpha, prior);
        for i in (f..n).step_by(nf) {
            oof[i] = s(*m.get(&codes[i]).unwrap_or(&prior));
        }
    }
    // Every category is unique → never present out-of-fold → all prior.
    let prior = s(prior);
    for (i, &e) in oof.iter().enumerate() {
        assert!((e - prior).abs() < 1e-6, "row {i} leaked: enc={e} prior={prior}");
    }
}

#[test]
fn fit_transform_consistent_dims() {
    let ds = make_synthetic::<Native>(3000, 9);
    let cfg = Config::default();
    let (enc, train_m) = Encoders::fit::<Native>(&ds, &cfg);
    let eval_m = enc.transform::<Native>(&ds);
    assert_eq!(train_m.cols.len(), eval_m.cols.len());
    assert!(enc.basis_dim > 0);

    let mut buf = Vec::new();
    expand_row::<Native>(&enc, &eval_m, 0, &mut buf);
    // Every active basis index is within the declared dimension.
    for &(idx, _) in &buf {
        assert!(idx < enc.basis_dim, "idx {idx} >= dim {}", enc.basis_dim);
    }
}

#[test]
fn knots_are_quantiles_of_the_finite_values() {
    let five = nums(&[3.0, 1.0, 5.0, 2.0, 4.0]);
    assert_eq!(floats(&quantile_knots::<Native>(&five, 5)), vec![1.0, 2.0, 3.0, 4.0, 5.0]);
    assert_eq!(floats(&quantile_knots::<Native>(&five, 2)), vec![1.0, 5.0]);
    assert_eq!(floats(&quantile_knots::<Native>(&five, 3)), vec![1.0, 3.0, 5.0]);
    // At least two are asked for.
    assert_eq!(floats(&quantile_knots::<Native>(&five, 0)), vec![1.0, 5.0]);
    // Missing and infinite values are left out.
    let odd = nums(&[f32::NAN, 3.0, f32::INFINITY, 1.0, f32::NEG_INFINITY]);
    assert_eq!(floats(&quantile_knots::<Native>(&odd, 2)), vec![1.0, 3.0]);
    // Repeated values are kept once.
    assert_eq!(floats(&quantile_knots::<Native>(&nums(&[2.0; 7]), 4)), vec![2.0]);
    // One knot where there is nothing to span.
    assert_eq!(floats(&quantile_knots::<Native>(&nums(&[f32::NAN]), 4)), vec![0.0]);
    assert_eq!(floats(&quantile_knots::<Native>(&Vec::new(), 4)), vec![0.0]);
}

#[test]
fn knots_span_the_values() {
    let v: Vec<F32> = (0..777).map(|i| f32v(((i * 37) % 101) as f32 - 50.0)).collect();
    let k = floats(&quantile_knots::<Native>(&v, 16));
    assert_eq!(k[0], -50.0);
    assert_eq!(k[k.len() - 1], 50.0);
    assert!(k.len() <= 16);
}

#[test]
fn weighted_rate_is_weighted() {
    let w = nums(&[3.0, 1.0, 1.0, 3.0]);
    assert_eq!(s(weighted_rate::<Native>(&vec![1, 0, 1, 0], &w)), 0.5);
    assert_eq!(s(weighted_rate::<Native>(&vec![1, 0, 0, 0], &w)), 0.375);
    assert_eq!(s(weighted_rate::<Native>(&vec![1, 1], &nums(&[0.0, 0.0]))), 0.0);
    assert_eq!(s(weighted_rate::<Native>(&Vec::new(), &Vec::new())), 0.0);
}

#[test]
fn target_encoding_is_smoothed() {
    let codes = vec![1, 1, 2, MISSING_CAT, 3];
    let labels = vec![1, 0, 1, 1, 1];
    let weights = vec![f32v(1.0); 5];
    let rows = vec![0, 1, 2, 3];
    let (enc, cnt) =
        target_enc_map::<Native>(&codes, &labels, &weights, &rows, f32v(2.0), f32v(0.5));
    // (1 + 2·0.5) / (2 + 2) and (1 + 2·0.5) / (1 + 2).
    assert_eq!(s(enc[&1]), 0.5);
    assert_eq!(s(enc[&2]), 2.0 / 3.0);
    assert_eq!(cnt[&1], 2);
    assert_eq!(cnt[&2], 1);
    // Neither the missing category nor one outside the rows.
    assert_eq!(enc.len(), 2);
    assert_eq!(cnt.len(), 2);
}

#[test]
fn bounded_codes_reserve_missing_and_unseen() {
    let raw = vec![7, MISSING_CAT, 9, 7];
    let ds = one_column(FeatureKind::BoundedCat, Column::Categorical(raw), vec![0, 1, 0, 1]);
    let (enc, m) = Encoders::fit::<Native>(&ds, &Config::default());
    match (&enc.features[0], &m.cols[0]) {
        (FeatureEncoder::BoundedCat(e), EncCol::Cat(codes)) => {
            assert_eq!(codes, &vec![0, 2, 1, 0]);
            assert_eq!(e.n_vocab, 2);
            assert_eq!(e.missing_id(), 2);
            assert_eq!(e.unseen_id(), 3);
            assert_eq!(e.n_slots(), 4);
            assert_eq!(e.code_of(9), 1);
            assert_eq!(e.code_of(5), 3);
            assert_eq!(e.code_of(-5), 3);
            assert_eq!(e.code_of(MISSING_CAT), 2);
        }
        _ => panic!("kind"),
    }
    assert_eq!(enc.basis_dim, 4);
    assert_eq!(enc.features[0].basis_len(), 4);
    let mut phi = Vec::new();
    expand_row::<Native>(&enc, &m, 1, &mut phi);
    assert_eq!(entries(&phi), vec![(2, 1.0)]);
}

#[test]
fn highcard_unseen_and_missing_get_the_prior() {
    let raw = vec![1, 1, 1, 2, MISSING_CAT, 2];
    let ds = one_column(FeatureKind::HighCardCat, Column::Categorical(raw), vec![1, 0, 0, 1, 0, 1]);
    let (enc, _) = Encoders::fit::<Native>(&ds, &Config::default());
    match &enc.features[0] {
        FeatureEncoder::HighCard(e) => {
            assert_eq!(s(e.prior), 0.5);
            assert_eq!(s(e.enc_of(MISSING_CAT)), 0.5);
            assert_eq!(s(e.enc_of(99)), 0.5);
            // (1 + 20·0.5) / (3 + 20).
            assert_eq!(s(e.enc_of(1)), (11.0f64 / 23.0) as f32);
            assert_eq!(s(e.count_of::<Native>(1)), 3f32.ln_1p());
            assert_eq!(s(e.count_of::<Native>(99)), 0.0);
            assert_eq!(s(e.count_of::<Native>(MISSING_CAT)), 0.0);
        }
        _ => panic!("kind"),
    }
}

fn training_cells(raw: &[i64], labels: Vec<u8>, cfg: &Config) -> (Vec<f32>, Vec<f32>) {
    let ds = one_column(FeatureKind::HighCardCat, Column::Categorical(raw.to_vec()), labels);
    let (_, m) = Encoders::fit::<Native>(&ds, cfg);
    match &m.cols[0] {
        EncCol::HighCard { enc, cnt } => (floats(enc), floats(cnt)),
        _ => panic!("kind"),
    }
}

#[test]
fn training_encoding_ignores_its_own_fold() {
    // Two folds: even rows and odd rows. The two label sets differ inside the even fold
    // alone, also in the number of positives.
    let raw = [1, 1, 1, 1, 2, 2, 2, 2, MISSING_CAT, 3];
    let a = vec![1, 0, 0, 1, 0, 1, 0, 1, 0, 1];
    let b = vec![0, 0, 1, 1, 1, 1, 1, 1, 1, 1];
    let mut cfg = Config::default();
    cfg.n_folds = 2;
    cfg.alpha = f32v(1.0);
    let (ea, ca) = training_cells(&raw, a, &cfg);
    let (eb, cb) = training_cells(&raw, b, &cfg);
    for i in (0..10).step_by(2) {
        assert_eq!((ea[i], ca[i]), (eb[i], cb[i]), "row {i} leaks its own fold");
    }
    assert_ne!(ea[1], eb[1]);
    // Row 0: the odd rows of category 1 hold one positive of two; four of the five odd rows
    // are positive.
    assert_eq!(ea[0], ((1.0 + 0.8f32 as f64) / 3.0) as f32);
    // A missing category is encoded as the rate of the odd rows.
    assert_eq!((ea[8], ca[8]), (0.8, 0.0));
    // Category 3 is in no even row: the rate of the even rows.
    assert_eq!((ea[9], eb[9]), (0.2, 0.8));
}

#[test]
fn own_label_never_informs_own_encoding() {
    let raw = [7, 7, 3, 7, 3, MISSING_CAT, 9, 3, 7, 7, 3];
    let labels: Vec<u8> = vec![1, 0, 0, 1, 1, 0, 1, 0, 0, 1, 0];
    for n_folds in [1, 2, 3, 5, 20] {
        let mut cfg = Config::default();
        cfg.n_folds = n_folds;
        cfg.alpha = f32v(2.0);
        let (e, c) = training_cells(&raw, labels.clone(), &cfg);
        for i in 0..raw.len() {
            let mut flipped = labels.clone();
            flipped[i] = 1 - flipped[i];
            let (f, d) = training_cells(&raw, flipped, &cfg);
            assert_eq!((e[i], c[i]), (f[i], d[i]), "row {i} of {n_folds} folds");
            assert_ne!(e, f);
        }
    }
    // One row: nothing is known of the other folds, whatever its label.
    let cfg = Config::default();
    assert_eq!(training_cells(&[4], vec![1], &cfg), (vec![0.0], vec![0.0]));
    assert_eq!(training_cells(&[4], vec![0], &cfg), (vec![0.0], vec![0.0]));
}

#[test]
fn unique_category_is_encoded_as_the_rate_of_the_others() {
    let mut cfg = Config::default();
    cfg.alpha = f32v(0.0);
    // Five folds: rows 0 and 5 share one.
    let (enc, cnt) = training_cells(&[1, 2, 3, 4, 5, 6], vec![1, 0, 1, 0, 1, 0], &cfg);
    assert_eq!(enc, vec![0.5, 0.6, 0.4, 0.6, 0.4, 0.5]);
    assert_eq!(cnt, vec![0.0; 6]);
}

#[test]
fn numeric_basis_edges() {
    let knots = nums(&[0.0, 1.0, 2.0]);
    let basis = |v: f32| {
        let mut out = Vec::new();
        push_numeric::<Native>(&knots, 4, f32v(v), &mut out);
        entries(&out)
    };
    assert_eq!(basis(-7.0), vec![(4, 1.0)]);
    assert_eq!(basis(0.0), vec![(4, 1.0)]);
    assert_eq!(basis(-0.0), vec![(4, 1.0)]);
    assert_eq!(basis(1.0), vec![(5, 1.0), (6, 0.0)]);
    assert_eq!(basis(2.0), vec![(6, 1.0)]);
    assert_eq!(basis(f32::INFINITY), vec![(6, 1.0)]);
    assert_eq!(basis(f32::NEG_INFINITY), vec![(4, 1.0)]);
    // One knot takes every value.
    let mut out = Vec::new();
    push_numeric::<Native>(&nums(&[3.0]), 0, f32v(9.0), &mut out);
    push_numeric::<Native>(&nums(&[3.0]), 0, f32v(f32::NAN), &mut out);
    assert_eq!(entries(&out), vec![(0, 1.0), (1, 1.0)]);
}

#[test]
fn features_have_slots_of_their_own() {
    let ds = make_synthetic::<Native>(500, 4);
    let mut cfg = Config::default();
    for use_count in [true, false] {
        cfg.hc_use_count = use_count;
        let (enc, m) = Encoders::fit::<Native>(&ds, &cfg);
        let mut starts = vec![0u32];
        for f in &enc.features {
            starts.push(starts[starts.len() - 1] + f.basis_len());
        }
        assert_eq!(starts[25], enc.basis_dim);
        let mut phi = Vec::new();
        for r in 0..500 {
            expand_row::<Native>(&enc, &m, r, &mut phi);
            let mut used = vec![0; 25];
            for &(i, _) in &phi {
                let f = (0..25).find(|&f| starts[f] <= i && i < starts[f + 1]).unwrap();
                used[f] += 1;
            }
            for f in 0..25 {
                let most = if f < 10 { 2 } else if f < 20 { 1 } else if use_count { 4 } else { 2 };
                assert!(used[f] >= 1 && used[f] <= most);
            }
        }
    }
}

#[test]
fn only_highcard_columns_differ_from_the_transform() {
    let ds = make_synthetic::<Native>(300, 8);
    let (enc, train_m) = Encoders::fit::<Native>(&ds, &Config::default());
    let m = enc.transform::<Native>(&ds);
    assert_eq!(m.n_rows, 300);
    for i in 0..25 {
        match (&train_m.cols[i], &m.cols[i]) {
            (EncCol::Num(a), EncCol::Num(b)) => {
                for r in 0..300 {
                    assert_eq!(a[r].bits, b[r].bits);
                }
            }
            (EncCol::Cat(a), EncCol::Cat(b)) => assert_eq!(a, b),
            (EncCol::HighCard { enc: a, .. }, EncCol::HighCard { enc: b, .. }) => {
                assert!(i >= 20);
                assert!((0..300).any(|r| a[r].bits != b[r].bits));
            }
            _ => panic!("kinds differ at {i}"),
        }
    }
}

#[test]
fn weights_interpolate_between_knots() {
    let knots = nums(&[-2.0, 0.0, 1.0, 5.0]);
    for v in [-1.5f32, -0.5, 0.0, 0.25, 2.0, 4.0] {
        let mut out = Vec::new();
        push_numeric::<Native>(&knots, 0, f32v(v), &mut out);
        let sum: f32 = out.iter().map(|&(_, w)| s(w)).sum();
        let at: f32 = out.iter().map(|&(i, w)| s(w) * s(knots[i as usize])).sum();
        assert_eq!((sum, at), (1.0, v));
    }
}

#[test]
fn missing_value_needs_no_knots() {
    let mut out = Vec::new();
    push_numeric::<Native>(&Vec::new(), u32::MAX, f32v(f32::NAN), &mut out);
    assert_eq!(entries(&out), vec![(u32::MAX, 1.0)]);
    // The last slot of a value is that of the last knot.
    push_numeric::<Native>(&nums(&[0.0, 1.0]), u32::MAX - 1, f32v(2.0), &mut out);
    assert_eq!(entries(&out)[1], (u32::MAX, 1.0));
}
