//! With deterministic arithmetic training has one outcome: a training set and a configuration
//! fix the model, and with it every prediction.

use vstd::prelude::*;
use crate::arith::{
    deterministic, folds, is_diff, is_diff32, is_index, is_int, is_ln, is_log_odds, is_logistic32,
    is_narrow, is_prod, is_prod32, is_quot, is_round, is_sum, is_sum32, is_trace, item_step,
    lemma_folds_agree, lemma_folds_unique, lemma_run_passes, lemma_runs_last, lemma_runs_unique,
    max_rate, min_rate, runs, Arith,
};
use crate::data::{same_column, Column, Dataset};
use crate::encoding::{
    add_weight, add_weighted_label, all_rows, are_knot_positions, are_quantile_knots, are_rate_sums,
    are_row_counts, are_row_parts, distinct, finite_values, is_feature_basis, is_fit, is_fitted,
    is_highcard_basis, is_highcard_fit, is_knot_position, is_label_added, is_out_of_fold_enc,
    is_quantile, is_quantile_position, is_rate, is_row_basis, is_seen, is_sorted_copy, is_transform,
    is_transformed, is_weighted_rate, layout_start, lemma_features_within_slots,
    lemma_out_of_fold_unique, lemma_target_enc_unique, max_int, min_int, picked, rising, rows_with,
    value_keys, EncCol, EncodedMatrix, Encoders, FeatureEncoder, HighCardEnc,
};
use crate::determinism::{
    lemma_leaf_fit_is_reproducible, lemma_linear_fit_parts, lemma_row_basis_unique, same_leaf,
};
use crate::float::{F32, F64};
use crate::infer::{lemma_leaf_proba_unique, Model};
use crate::leaf_model::{are_row_bases, is_initial_bias, is_leaf_fit, is_linear_fit, Leaf};
use crate::moments::lemma_row_z;
use crate::seqs::{lemma_filter_agree, lemma_filter_props};
use crate::sort::{lemma_orders_unique, orders};
use crate::tree::{
    add_bin, add_missing, add_parent_row, add_stat, add_value, are_bins, are_code_stats,
    are_feature_splits, are_leading_sums, are_left_sides, are_numeric_gains, are_prefix_gains,
    are_prefix_sums, are_ratios, are_threshold_gains, arrives, ends_within, goes_left, growth,
    has_code, in_bin, is_best_categorical, is_best_numeric, is_best_split, is_bin_diff, is_bin_of,
    is_bin_sum, is_categorical_pick, is_cross_diff, is_cross_sum, is_determinant, is_direction_gain,
    is_feature_split, is_finished, is_gain, is_grown, is_growth_start, is_growth_step,
    is_missing_added, is_moment_added, is_numeric_pick, is_open_node, is_opened,
    is_parent_row_added, is_parent_score, is_parent_z, is_prefix_gain, is_product_sum,
    is_quadratic_score, is_ratio, is_score_const, is_score_linear, is_scored_split, is_side,
    is_side_score, is_split_pick, is_stat_added, is_stat_of, is_stat_sum, is_value_added, is_znorm,
    lacks_value, left_before, lemma_arrives_next, lemma_arrives_where_it_stops, lemma_paths_stop,
    lemma_scan_best_in_range, min_determinant, next_node, next_open, positive_gain, positive_gains,
    ratio_keys, root_rows, row_goes_left, row_goes_right, row_values, rows_in_bins, scan_best,
    seen_codes, stat_before, threshold_view, without, Bin, Candidate, CatStat, GrownTree, NodeKind,
    Open, Split,
};
use crate::train::{
    are_base_stats, are_leaf_fits, is_base_score, is_global_rate, is_gradient, is_hessian,
    is_trained, is_trained_on, is_weighted_copy, same_but_weights,
};
use crate::{Config, GainKind, LeafKind};

verus! {

/// Two encoders hold the same.
pub open spec fn same_encoder(a: FeatureEncoder, b: FeatureEncoder) -> bool {
    match (a, b) {
        (FeatureEncoder::Numeric(x), FeatureEncoder::Numeric(y)) => x.knots@ == y.knots@
            && x.basis_off == y.basis_off,
        (FeatureEncoder::BoundedCat(x), FeatureEncoder::BoundedCat(y)) => x.vocab@ == y.vocab@
            && x.n_vocab == y.n_vocab && x.basis_off == y.basis_off,
        (FeatureEncoder::HighCard(x), FeatureEncoder::HighCard(y)) => same_highcard(x, y),
        _ => false,
    }
}

/// Two high-card encoders hold the same.
pub open spec fn same_highcard(x: HighCardEnc, y: HighCardEnc) -> bool {
    &&& x.enc@ == y.enc@
    &&& x.count@ == y.count@
    &&& x.prior == y.prior
    &&& x.enc_knots@ == y.enc_knots@
    &&& x.enc_off == y.enc_off
    &&& x.cnt_knots@ == y.cnt_knots@
    &&& x.cnt_off == y.cnt_off
    &&& x.use_count == y.use_count
}

/// Two encoded columns hold the same.
pub open spec fn same_encoded(a: EncCol, b: EncCol) -> bool {
    match (a, b) {
        (EncCol::Num(x), EncCol::Num(y)) => x@ == y@,
        (EncCol::Cat(x), EncCol::Cat(y)) => x@ == y@,
        (EncCol::HighCard { enc: x, cnt: u }, EncCol::HighCard { enc: y, cnt: v }) => x@ == y@
            && u@ == v@,
        _ => false,
    }
}

/// The encoders of all features hold the same.
pub open spec fn same_encoders(a: Encoders, b: Encoders) -> bool {
    &&& a.features.len() == b.features.len()
    &&& forall|i: int|
        0 <= i < a.features.len() ==> same_encoder(#[trigger] a.features[i], b.features[i])
    &&& a.basis_dim == b.basis_dim
}

/// Two encoded matrices hold the same.
pub open spec fn same_matrix(a: EncodedMatrix, b: EncodedMatrix) -> bool {
    &&& a.cols.len() == b.cols.len()
    &&& forall|i: int| 0 <= i < a.cols.len() ==> same_encoded(#[trigger] a.cols[i], b.cols[i])
    &&& a.n_rows == b.n_rows
}

/// Two datasets hold the same.
pub open spec fn same_data(a: Dataset, b: Dataset) -> bool {
    &&& a.schema.kinds@ == b.schema.kinds@
    &&& a.columns.len() == b.columns.len()
    &&& forall|i: int|
        0 <= i < a.columns.len() ==> same_column(#[trigger] a.columns[i], b.columns[i])
    &&& a.labels@ == b.labels@
    &&& a.weights@ == b.weights@
}

proof fn lemma_rate_sums_unique<A: Arith>(
    labels: Seq<u8>,
    weights: Seq<F32>,
    n: nat,
    a: F64,
    b: F64,
    x: F64,
    y: F64,
)
    requires
        deterministic::<A>(),
        are_rate_sums::<A>(labels, weights, n, a, b),
        are_rate_sums::<A>(labels, weights, n, x, y),
    ensures
        a == x,
        b == y,
{
    let (s1, s2) = (add_weighted_label::<A>(labels, weights), add_weight::<A>(weights));
    assert forall|i: int, p: F64, q: F64, r: F64|
        0 <= i < n && #[trigger] s1(i, p, q) && #[trigger] s1(i, p, r) implies q == r by {
        assert(is_label_added::<A>(labels[i], weights[i], p, q));
        assert(is_label_added::<A>(labels[i], weights[i], p, r));
    }
    assert forall|i: int, p: F64, q: F64, r: F64|
        0 <= i < n && #[trigger] s2(i, p, q) && #[trigger] s2(i, p, r) implies q == r by {
        assert(is_sum::<A>(p, weights[i].spec_widened(), q));
        assert(is_sum::<A>(p, weights[i].spec_widened(), r));
    }
    lemma_runs_unique(F64::zero(), n, s1, a, x);
    lemma_runs_unique(F64::zero(), n, s2, b, y);
}

proof fn lemma_weighted_rate_unique<A: Arith>(labels: Seq<u8>, weights: Seq<F32>, p: F32, q: F32)
    requires
        deterministic::<A>(),
        is_weighted_rate::<A>(labels, weights, p),
        is_weighted_rate::<A>(labels, weights, q),
    ensures
        p == q,
{
    let n = min_int(labels.len() as int, weights.len() as int) as nat;
    let (a, b) = choose|num: F64, den: F64| #[trigger]
        are_rate_sums::<A>(labels, weights, n, num, den) && is_rate::<A>(num, den, p);
    let (x, y) = choose|num: F64, den: F64| #[trigger]
        are_rate_sums::<A>(labels, weights, n, num, den) && is_rate::<A>(num, den, q);
    lemma_rate_sums_unique::<A>(labels, weights, n, a, b, x, y);
}

proof fn lemma_knot_position_unique<A: Arith>(i: int, k: int, n: int, a: int, b: int)
    requires
        deterministic::<A>(),
        is_knot_position::<A>(i, k, n, a),
        is_knot_position::<A>(i, k, n, b),
    ensures
        a == b,
{
    let p = choose|q: F64| #[trigger]
        is_quantile::<A>(i, k, q) && is_quantile_position::<A>(q, n, a);
    let q = choose|q: F64| #[trigger]
        is_quantile::<A>(i, k, q) && is_quantile_position::<A>(q, n, b);
    let one = F64::one();
    let (x1, y1, d1) = choose|x: F64, y: F64, d: F64| #[trigger]
        is_int::<A>(i, x) && #[trigger] is_int::<A>(k, y) && #[trigger] is_diff::<A>(y, one, d)
            && is_quot::<A>(x, d, p);
    let (x2, y2, d2) = choose|x: F64, y: F64, d: F64| #[trigger]
        is_int::<A>(i, x) && #[trigger] is_int::<A>(k, y) && #[trigger] is_diff::<A>(y, one, d)
            && is_quot::<A>(x, d, q);
    assert(x1 == x2 && y1 == y2);
    assert(d1 == d2);
    assert(p == q);
    let (n1, m1, p1, r1, j1) = choose|x: F64, m: F64, p: F64, r: F64, j: usize| #[trigger]
        is_int::<A>(n, x) && #[trigger] is_diff::<A>(x, one, m) && #[trigger] is_prod::<A>(q, m, p)
            && #[trigger] is_round::<A>(p, r) && #[trigger] is_index::<A>(r, j) && a == min_int(
            j as int,
            n - 1,
        );
    let (n2, m2, p2, r2, j2) = choose|x: F64, m: F64, p: F64, r: F64, j: usize| #[trigger]
        is_int::<A>(n, x) && #[trigger] is_diff::<A>(x, one, m) && #[trigger] is_prod::<A>(q, m, p)
            && #[trigger] is_round::<A>(p, r) && #[trigger] is_index::<A>(r, j) && b == min_int(
            j as int,
            n - 1,
        );
    assert(n1 == n2);
    assert(m1 == m2);
    assert(p1 == p2);
    assert(r1 == r2);
    assert(j1 == j2);
}

proof fn lemma_knots_unique<A: Arith>(values: Seq<F32>, k: int, a: Seq<F32>, b: Seq<F32>)
    requires
        deterministic::<A>(),
        are_quantile_knots::<A>(values, k, a),
        are_quantile_knots::<A>(values, k, b),
    ensures
        a == b,
{
    let v = finite_values(values);
    if v.len() > 0 {
        let kk = max_int(k, 2);
        let n = v.len() as int;
        let (s, i) = choose|s: Seq<F32>, idx: Seq<int>| #[trigger]
            is_sorted_copy(v, s) && #[trigger] are_knot_positions::<A>(kk, n, idx) && a == rising(
                picked(s, idx),
            );
        let (t, j) = choose|s: Seq<F32>, idx: Seq<int>| #[trigger]
            is_sorted_copy(v, s) && #[trigger] are_knot_positions::<A>(kk, n, idx) && b == rising(
                picked(s, idx),
            );
        let p = choose|order: Seq<usize>| #[trigger]
            orders(value_keys(v), 0, n, order) && s == order.map_values(|p: usize| v[p as int]);
        let q = choose|order: Seq<usize>| #[trigger]
            orders(value_keys(v), 0, n, order) && t == order.map_values(|p: usize| v[p as int]);
        lemma_orders_unique(value_keys(v), 0, n, p, q);
        assert forall|m: int| 0 <= m < kk implies i[m] == j[m] by {
            lemma_knot_position_unique::<A>(m, kk, n, i[m], j[m]);
        }
        assert(i =~= j);
    }
}

proof fn lemma_highcard_fit_unique<A: Arith>(
    raw: Seq<i64>,
    labels: Seq<u8>,
    weights: Seq<F32>,
    cfg: Config,
    prior: F32,
    off: int,
    x: HighCardEnc,
    e1: Seq<F32>,
    c1: Seq<F32>,
    y: HighCardEnc,
    e2: Seq<F32>,
    c2: Seq<F32>,
)
    requires
        deterministic::<A>(),
        is_highcard_fit::<A>(raw, labels, weights, cfg, prior, off, x, e1, c1),
        is_highcard_fit::<A>(raw, labels, weights, cfg, prior, off, y, e2, c2),
    ensures
        same_highcard(x, y),
        e1 == e2,
        c1 == c2,
{
    let rows = all_rows(raw.len() as int);
    assert forall|c: i64| #[trigger] x.enc@.contains_key(c) implies x.enc@[c] == y.enc@[c] by {
        assert(is_seen(raw, rows, c));
        lemma_target_enc_unique::<A>(
            raw,
            labels,
            weights,
            rows,
            cfg.alpha,
            prior,
            c,
            x.enc@[c],
            y.enc@[c],
        );
    }
    assert forall|c: i64| x.enc@.contains_key(c) <==> y.enc@.contains_key(c) by {
        assert(x.enc@.contains_key(c) <==> is_seen(raw, rows, c));
        assert(y.enc@.contains_key(c) <==> is_seen(raw, rows, c));
    }
    assert(x.enc@ =~= y.enc@);
    assert forall|c: i64| #[trigger] x.count@.contains_key(c) implies x.count@[c]
        == y.count@[c] by {
        assert(x.count@[c] == rows_with(raw, rows, c).len());
        assert(y.count@[c] == rows_with(raw, rows, c).len());
    }
    assert forall|c: i64| x.count@.contains_key(c) <==> y.count@.contains_key(c) by {
        assert(x.count@.contains_key(c) <==> is_seen(raw, rows, c));
        assert(y.count@.contains_key(c) <==> is_seen(raw, rows, c));
    }
    assert(x.count@ =~= y.count@);
    assert(raw.map_values(|c: i64| x.spec_enc_of(c)) =~= raw.map_values(
        |c: i64| y.spec_enc_of(c),
    ));
    lemma_knots_unique::<A>(
        raw.map_values(|c: i64| x.spec_enc_of(c)),
        cfg.hc_knots as int,
        x.enc_knots@,
        y.enc_knots@,
    );
    let u = choose|cnts: Seq<F32>| #[trigger]
        are_row_counts::<A>(raw, x.count@, cnts) && are_quantile_knots::<A>(
            cnts,
            cfg.hc_knots as int,
            x.cnt_knots@,
        );
    let v = choose|cnts: Seq<F32>| #[trigger]
        are_row_counts::<A>(raw, y.count@, cnts) && are_quantile_knots::<A>(
            cnts,
            cfg.hc_knots as int,
            y.cnt_knots@,
        );
    assert forall|i: int| 0 <= i < raw.len() implies u[i] == v[i] by {
        assert(u[i] == u[i] && v[i] == v[i]);
    }
    assert(u =~= v);
    lemma_knots_unique::<A>(u, cfg.hc_knots as int, x.cnt_knots@, y.cnt_knots@);
    let nf = max_int(cfg.n_folds as int, 2);
    assert forall|i: int| 0 <= i < raw.len() implies e1[i] == e2[i] && c1[i] == c2[i] by {
        assert(is_out_of_fold_enc::<A>(raw, labels, weights, nf, cfg.alpha, i, e1[i], c1[i]));
        assert(is_out_of_fold_enc::<A>(raw, labels, weights, nf, cfg.alpha, i, e2[i], c2[i]));
        lemma_out_of_fold_unique::<A>(
            raw,
            labels,
            weights,
            nf,
            cfg.alpha,
            i,
            e1[i],
            c1[i],
            e2[i],
            c2[i],
        );
    }
    assert(e1 =~= e2);
    assert(c1 =~= c2);
}

proof fn lemma_fitted_unique<A: Arith>(
    d1: Dataset,
    d2: Dataset,
    cfg: Config,
    prior: F32,
    fi: int,
    off: int,
    x: FeatureEncoder,
    u: EncCol,
    y: FeatureEncoder,
    v: EncCol,
)
    requires
        deterministic::<A>(),
        same_data(d1, d2),
        0 <= fi < d1.columns.len(),
        is_fitted::<A>(d1, cfg, prior, fi, off, x, u),
        is_fitted::<A>(d2, cfg, prior, fi, off, y, v),
    ensures
        same_encoder(x, y),
        same_encoded(u, v),
{
    assert(same_column(d1.columns[fi], d2.columns[fi]));
    assert(d1.schema.kinds@[fi] == d2.schema.kinds@[fi]);
    match (d1.columns[fi], x, y, u, v) {
        (Column::Numeric(raw), FeatureEncoder::Numeric(e), FeatureEncoder::Numeric(f), _, _) => {
            lemma_knots_unique::<A>(raw@, cfg.knots as int, e.knots@, f.knots@);
        },
        (
            Column::Categorical(raw),
            FeatureEncoder::BoundedCat(e),
            FeatureEncoder::BoundedCat(f),
            EncCol::Cat(p),
            EncCol::Cat(q),
        ) => {
            let d = distinct(raw@);
            assert forall|c: i64| #[trigger] e.vocab@.contains_key(c) implies e.vocab@[c]
                == f.vocab@[c] by {
                assert(d.contains(c));
                let k = choose|k: int| 0 <= k < d.len() && d[k] == c;
                assert(e.vocab@[d[k]] == k && f.vocab@[d[k]] == k);
            }
            assert forall|c: i64| e.vocab@.contains_key(c) <==> f.vocab@.contains_key(c) by {
                assert(e.vocab@.contains_key(c) <==> d.contains(c));
                assert(f.vocab@.contains_key(c) <==> d.contains(c));
            }
            assert(e.vocab@ =~= f.vocab@);
            assert forall|r: int| 0 <= r < p.len() implies p@[r] == q@[r] by {
                assert(p[r] == e.spec_code_of(raw[r]) && q[r] == f.spec_code_of(raw[r]));
            }
            assert(p@ =~= q@);
        },
        (
            Column::Categorical(raw),
            FeatureEncoder::HighCard(e),
            FeatureEncoder::HighCard(f),
            EncCol::HighCard { enc: e1, cnt: c1 },
            EncCol::HighCard { enc: e2, cnt: c2 },
        ) => {
            lemma_highcard_fit_unique::<A>(
                raw@,
                d1.labels@,
                d1.weights@,
                cfg,
                prior,
                off,
                e,
                e1@,
                c1@,
                f,
                e2@,
                c2@,
            );
        },
        _ => {},
    }
}

/// The encoders of a training set, and its training matrix, have one outcome.
proof fn lemma_fit_unique<A: Arith>(
    d1: Dataset,
    d2: Dataset,
    cfg: Config,
    p: F32,
    q: F32,
    x: Encoders,
    u: EncodedMatrix,
    y: Encoders,
    v: EncodedMatrix,
)
    requires
        deterministic::<A>(),
        same_data(d1, d2),
        is_fit::<A>(d1, cfg, p, x, u),
        is_fit::<A>(d2, cfg, q, y, v),
    ensures
        same_encoders(x, y),
        same_matrix(u, v),
{
    lemma_weighted_rate_unique::<A>(d1.labels@, d1.weights@, p, q);
    assert forall|m: int| 0 <= m < d1.columns.len() implies same_encoder(
        #[trigger] x.features[m],
        y.features[m],
    ) && same_encoded(u.cols[m], v.cols[m]) by {
        lemma_fit_unique_upto::<A>(d1, d2, cfg, p, x, u, y, v, m + 1);
    }
    lemma_fit_unique_upto::<A>(d1, d2, cfg, p, x, u, y, v, d1.columns@.len() as int);
    assert forall|m: int| 0 <= m < u.cols.len() implies same_encoded(
        #[trigger] u.cols[m],
        v.cols[m],
    ) by {
        assert(same_encoder(x.features[m], y.features[m]));
    }
}

proof fn lemma_fit_unique_upto<A: Arith>(
    d1: Dataset,
    d2: Dataset,
    cfg: Config,
    prior: F32,
    x: Encoders,
    u: EncodedMatrix,
    y: Encoders,
    v: EncodedMatrix,
    m: int,
)
    requires
        deterministic::<A>(),
        same_data(d1, d2),
        is_fit::<A>(d1, cfg, prior, x, u),
        is_fit::<A>(d2, cfg, prior, y, v),
        0 <= m <= d1.columns.len(),
    ensures
        layout_start(x.features@, m) == layout_start(y.features@, m),
        m > 0 ==> same_encoder(x.features[m - 1], y.features[m - 1]) && same_encoded(
            u.cols[m - 1],
            v.cols[m - 1],
        ),
    decreases m,
{
    if m > 0 {
        lemma_fit_unique_upto::<A>(d1, d2, cfg, prior, x, u, y, v, m - 1);
        lemma_fitted_unique::<A>(
            d1,
            d2,
            cfg,
            prior,
            m - 1,
            layout_start(x.features@, m - 1),
            x.features[m - 1],
            u.cols[m - 1],
            y.features[m - 1],
            v.cols[m - 1],
        );
    }
}

proof fn lemma_score_const_unique<A: Arith>(g: F64, h: F64, lam: F64, r: F64, s: F64)
    requires
        deterministic::<A>(),
        is_score_const::<A>(g, h, lam, r),
        is_score_const::<A>(g, h, lam, s),
    ensures
        r == s,
{
    let (q1, d1) = choose|sq: F64, d: F64| #[trigger]
        is_prod::<A>(g, g, sq) && #[trigger] is_sum::<A>(h, lam, d) && is_quot::<A>(sq, d, r);
    let (q2, d2) = choose|sq: F64, d: F64| #[trigger]
        is_prod::<A>(g, g, sq) && #[trigger] is_sum::<A>(h, lam, d) && is_quot::<A>(sq, d, s);
    assert(q1 == q2 && d1 == d2);
}

proof fn lemma_product_sum_unique<A: Arith>(p: F64, q: F64, r: F64, s: F64, x: F64, y: F64)
    requires
        deterministic::<A>(),
        is_product_sum::<A>(p, q, r, s, x),
        is_product_sum::<A>(p, q, r, s, y),
    ensures
        x == y,
{
    let (u1, v1) = choose|u: F64, v: F64| #[trigger]
        is_prod::<A>(p, q, u) && #[trigger] is_prod::<A>(r, s, v) && is_sum::<A>(u, v, x);
    let (u2, v2) = choose|u: F64, v: F64| #[trigger]
        is_prod::<A>(p, q, u) && #[trigger] is_prod::<A>(r, s, v) && is_sum::<A>(u, v, y);
    assert(u1 == u2 && v1 == v2);
}

proof fn lemma_quadratic_unique<A: Arith>(
    a: F64,
    b: F64,
    d: F64,
    det: F64,
    g: F64,
    gz: F64,
    r: F64,
    s: F64,
)
    requires
        deterministic::<A>(),
        is_quadratic_score::<A>(a, b, d, det, g, gz, r),
        is_quadratic_score::<A>(a, b, d, det, g, gz, s),
    ensures
        r == s,
{
    let minus = b.spec_negated();
    let (x0, x1) = choose|x0: F64, x1: F64| #[trigger]
        is_cross_diff::<A>(d, g, b, gz, det, x0) && #[trigger] is_cross_sum::<A>(
            minus,
            g,
            a,
            gz,
            det,
            x1,
        ) && is_product_sum::<A>(g, x0, gz, x1, r);
    let (y0, y1) = choose|x0: F64, x1: F64| #[trigger]
        is_cross_diff::<A>(d, g, b, gz, det, x0) && #[trigger] is_cross_sum::<A>(
            minus,
            g,
            a,
            gz,
            det,
            x1,
        ) && is_product_sum::<A>(g, x0, gz, x1, s);
    assert(x0 == y0) by {
        let (u1, v1, w1) = choose|u: F64, v: F64, w: F64| #[trigger]
            is_prod::<A>(d, g, u) && #[trigger] is_prod::<A>(b, gz, v) && #[trigger] is_diff::<A>(
                u,
                v,
                w,
            ) && is_quot::<A>(w, det, x0);
        let (u2, v2, w2) = choose|u: F64, v: F64, w: F64| #[trigger]
            is_prod::<A>(d, g, u) && #[trigger] is_prod::<A>(b, gz, v) && #[trigger] is_diff::<A>(
                u,
                v,
                w,
            ) && is_quot::<A>(w, det, y0);
        assert(u1 == u2 && v1 == v2);
        assert(w1 == w2);
    }
    assert(x1 == y1) by {
        let w1 = choose|w: F64| #[trigger]
            is_product_sum::<A>(minus, g, a, gz, w) && is_quot::<A>(w, det, x1);
        let w2 = choose|w: F64| #[trigger]
            is_product_sum::<A>(minus, g, a, gz, w) && is_quot::<A>(w, det, y1);
        lemma_product_sum_unique::<A>(minus, g, a, gz, w1, w2);
    }
    lemma_product_sum_unique::<A>(g, x0, gz, x1, r, s);
}

proof fn lemma_score_linear_unique<A: Arith>(
    h: F64,
    hz: F64,
    hzz: F64,
    g: F64,
    gz: F64,
    lam: F64,
    r: F64,
    s: F64,
)
    requires
        deterministic::<A>(),
        is_score_linear::<A>(h, hz, hzz, g, gz, lam, r),
        is_score_linear::<A>(h, hz, hzz, g, gz, lam, s),
    ensures
        r == s,
{
    let (a1, d1, t1) = choose|a: F64, d: F64, det: F64| #[trigger]
        is_sum::<A>(h, lam, a) && #[trigger] is_sum::<A>(hzz, lam, d) && #[trigger] is_determinant::<
            A,
        >(a, hz, d, det) && if det.le(min_determinant()) {
            is_score_const::<A>(g, h, lam, r)
        } else {
            is_quadratic_score::<A>(a, hz, d, det, g, gz, r)
        };
    let (a2, d2, t2) = choose|a: F64, d: F64, det: F64| #[trigger]
        is_sum::<A>(h, lam, a) && #[trigger] is_sum::<A>(hzz, lam, d) && #[trigger] is_determinant::<
            A,
        >(a, hz, d, det) && if det.le(min_determinant()) {
            is_score_const::<A>(g, h, lam, s)
        } else {
            is_quadratic_score::<A>(a, hz, d, det, g, gz, s)
        };
    assert(a1 == a2 && d1 == d2);
    assert(t1 == t2) by {
        let (p1, q1) = choose|ad: F64, bb: F64| #[trigger]
            is_prod::<A>(a1, d1, ad) && #[trigger] is_prod::<A>(hz, hz, bb) && is_diff::<A>(
                ad,
                bb,
                t1,
            );
        let (p2, q2) = choose|ad: F64, bb: F64| #[trigger]
            is_prod::<A>(a1, d1, ad) && #[trigger] is_prod::<A>(hz, hz, bb) && is_diff::<A>(
                ad,
                bb,
                t2,
            );
        assert(p1 == p2 && q1 == q2);
    }
    if t1.le(min_determinant()) {
        lemma_score_const_unique::<A>(g, h, lam, r, s);
    } else {
        lemma_quadratic_unique::<A>(a1, hz, d1, t1, g, gz, r, s);
    }
}

proof fn lemma_side_score_unique<A: Arith>(kind: GainKind, b: Bin, lam: F64, r: F64, s: F64)
    requires
        deterministic::<A>(),
        is_side_score::<A>(kind, b, lam, r),
        is_side_score::<A>(kind, b, lam, s),
    ensures
        r == s,
{
    match kind {
        GainKind::LeafAware => {
            lemma_score_linear_unique::<A>(b.h, b.hz, b.hzz, b.g, b.gz, lam, r, s);
        },
        GainKind::Constant => {
            lemma_score_const_unique::<A>(b.g, b.h, lam, r, s);
        },
    }
}

proof fn lemma_gain_unique<A: Arith>(sl: F64, sr: F64, parent: F64, x: F32, y: F32)
    requires
        deterministic::<A>(),
        is_gain::<A>(sl, sr, parent, x),
        is_gain::<A>(sl, sr, parent, y),
    ensures
        x == y,
{
    let (t1, u1) = choose|t: F64, u: F64| #[trigger]
        is_sum::<A>(sl, sr, t) && #[trigger] is_diff::<A>(t, parent, u) && is_narrow::<A>(u, x);
    let (t2, u2) = choose|t: F64, u: F64| #[trigger]
        is_sum::<A>(sl, sr, t) && #[trigger] is_diff::<A>(t, parent, u) && is_narrow::<A>(u, y);
    assert(t1 == t2);
    assert(u1 == u2);
}

proof fn lemma_moment_unique<A: Arith>(gi: F64, hi: F64, z: F64, a: Bin, b: Bin, c: Bin)
    requires
        deterministic::<A>(),
        is_moment_added::<A>(gi, hi, z, a, b),
        is_moment_added::<A>(gi, hi, z, a, c),
    ensures
        b == c,
{
    let (g1, h1, k1) = choose|gz: F64, hz: F64, hzz: F64|
        {
            &&& #[trigger] is_prod::<A>(gi, z, gz)
            &&& #[trigger] is_prod::<A>(hi, z, hz)
            &&& #[trigger] is_prod::<A>(hz, z, hzz)
            &&& is_sum::<A>(a.g, gi, b.g)
            &&& is_sum::<A>(a.h, hi, b.h)
            &&& is_sum::<A>(a.gz, gz, b.gz)
            &&& is_sum::<A>(a.hz, hz, b.hz)
            &&& is_sum::<A>(a.hzz, hzz, b.hzz)
            &&& b.n == a.n + 1
        };
    let (g2, h2, k2) = choose|gz: F64, hz: F64, hzz: F64|
        {
            &&& #[trigger] is_prod::<A>(gi, z, gz)
            &&& #[trigger] is_prod::<A>(hi, z, hz)
            &&& #[trigger] is_prod::<A>(hz, z, hzz)
            &&& is_sum::<A>(a.g, gi, c.g)
            &&& is_sum::<A>(a.h, hi, c.h)
            &&& is_sum::<A>(a.gz, gz, c.gz)
            &&& is_sum::<A>(a.hz, hz, c.hz)
            &&& is_sum::<A>(a.hzz, hzz, c.hzz)
            &&& c.n == a.n + 1
        };
    assert(g1 == g2 && h1 == h2);
    assert(k1 == k2);
}

proof fn lemma_bins_unique<A: Arith>(
    rows: Seq<u32>,
    vals: Seq<F32>,
    knots: Seq<F32>,
    g: Seq<F32>,
    h: Seq<F32>,
    b1: Seq<Bin>,
    m1: Bin,
    b2: Seq<Bin>,
    m2: Bin,
)
    requires
        deterministic::<A>(),
        are_bins::<A>(rows, vals, knots, g, h, b1, m1),
        are_bins::<A>(rows, vals, knots, g, h, b2, m2),
    ensures
        b1 == b2,
        m1 == m2,
{
    let step = add_value::<A>(vals, knots, g, h);
    let none = Bin::empty();
    assert forall|b: int| 0 <= b < b1.len() implies b1[b] == b2[b] by {
        assert(is_bin_of::<A>(rows, vals, knots, g, h, b, b1[b]));
        assert(is_bin_of::<A>(rows, vals, knots, g, h, b, b2[b]));
        let pred = in_bin(vals, knots, b);
        let own = rows.filter(pred);
        lemma_filter_props(rows, pred);
        let at = item_step(own, step);
        assert forall|i: int, x: Bin, y: Bin, z: Bin|
            0 <= i < own.len() && #[trigger] at(i, x, y) && #[trigger] at(i, x, z) implies y
            == z by {
            let r = own[i] as int;
            assert(pred(own[i]));
            let v = vals[r];
            assert(is_value_added::<A>(knots, v, g[r], h[r], x, y));
            assert(is_value_added::<A>(knots, v, g[r], h[r], x, z));
            let (gi, hi) = (g[r].spec_widened(), h[r].spec_widened());
            let p = choose|p: F64| #[trigger]
                is_znorm::<A>(knots, v, p) && is_moment_added::<A>(gi, hi, p, x, y);
            let q = choose|q: F64| #[trigger]
                is_znorm::<A>(knots, v, q) && is_moment_added::<A>(gi, hi, q, x, z);
            assert(is_parent_z::<A>(knots, v, p) && is_parent_z::<A>(knots, v, q));
            lemma_row_z::<A>(knots, v, p);
            lemma_row_z::<A>(knots, v, q);
            lemma_moment_unique::<A>(gi, hi, p, x, y, z);
        }
        lemma_runs_unique(none, own.len(), at, b1[b], b2[b]);
    }
    assert(b1 =~= b2);
    let lacking = rows.filter(lacks_value(vals));
    let miss = add_missing::<A>(g, h);
    assert forall|r: u32, x: Bin, y: Bin, z: Bin| #[trigger]
        miss(r, x, y) && #[trigger] miss(r, x, z) implies y == z by {
        assert(is_missing_added::<A>(g[r as int], h[r as int], x, y));
        assert(is_missing_added::<A>(g[r as int], h[r as int], x, z));
    }
    lemma_folds_unique(none, lacking, miss, m1, m2);
}

proof fn lemma_direction_gain_unique<A: Arith>(
    cfg: Config,
    left: Bin,
    right: Bin,
    miss: Bin,
    parent: F64,
    default_left: bool,
    x: Option<F32>,
    y: Option<F32>,
)
    requires
        deterministic::<A>(),
        is_direction_gain::<A>(cfg, left, right, miss, parent, default_left, x),
        is_direction_gain::<A>(cfg, left, right, miss, parent, default_left, y),
    ensures
        x == y,
{
    if x is Some {
        let (dl, dr) = (default_left, !default_left);
        let lam = cfg.lambda.spec_widened();
        assert(is_scored_split::<A>(cfg, left, right, miss, parent, dl, dr, x->0));
        assert(is_scored_split::<A>(cfg, left, right, miss, parent, dl, dr, y->0));
        let (l1, r1, s1, t1) = choose|l: Bin, r: Bin, sl: F64, sr: F64| #[trigger]
            is_side::<A>(left, miss, dl, l) && #[trigger] is_side::<A>(right, miss, dr, r)
                && #[trigger] is_side_score::<A>(cfg.gain, l, lam, sl)
                && #[trigger] is_side_score::<A>(cfg.gain, r, lam, sr) && is_gain::<A>(
                sl,
                sr,
                parent,
                x->0,
            );
        let (l2, r2, s2, t2) = choose|l: Bin, r: Bin, sl: F64, sr: F64| #[trigger]
            is_side::<A>(left, miss, dl, l) && #[trigger] is_side::<A>(right, miss, dr, r)
                && #[trigger] is_side_score::<A>(cfg.gain, l, lam, sl)
                && #[trigger] is_side_score::<A>(cfg.gain, r, lam, sr) && is_gain::<A>(
                sl,
                sr,
                parent,
                y->0,
            );
        assert(l1 == l2);
        assert(r1 == r2);
        lemma_side_score_unique::<A>(cfg.gain, l1, lam, s1, s2);
        lemma_side_score_unique::<A>(cfg.gain, r1, lam, t1, t2);
        lemma_gain_unique::<A>(s1, t1, parent, x->0, y->0);
    }
}

proof fn lemma_left_sides_unique<A: Arith>(bins: Seq<Bin>, a: Seq<Bin>, b: Seq<Bin>, t: int)
    requires
        deterministic::<A>(),
        are_left_sides::<A>(bins, a),
        are_left_sides::<A>(bins, b),
        0 <= t < a.len(),
    ensures
        a[t] == b[t],
    decreases t,
{
    if t > 0 {
        lemma_left_sides_unique::<A>(bins, a, b, t - 1);
    }
    assert(is_bin_sum::<A>(left_before(a, t), bins[t], a[t]));
    assert(is_bin_sum::<A>(left_before(b, t), bins[t], b[t]));
}

/// A numeric column has one best split.
proof fn lemma_best_numeric_unique<A: Arith>(
    rows: Seq<u32>,
    vals: Seq<F32>,
    knots: Seq<F32>,
    g: Seq<F32>,
    h: Seq<F32>,
    cfg: Config,
    parent: F64,
    x: Option<Candidate>,
    y: Option<Candidate>,
)
    requires
        deterministic::<A>(),
        is_best_numeric::<A>(rows, vals, knots, g, h, cfg, parent, x),
        is_best_numeric::<A>(rows, vals, knots, g, h, cfg, parent, y),
    ensures
        x == y,
{
    let none = Bin::empty();
    let step = add_bin::<A>();
    let (b1, m1, t1, l1, g1) = choose|
        bins: Seq<Bin>,
        miss: Bin,
        tot: Bin,
        lefts: Seq<Bin>,
        gains: Seq<Option<F32>>,
    |
        {
            &&& #[trigger] are_bins::<A>(rows, vals, knots, g, h, bins, miss)
            &&& #[trigger] folds(none, bins, step, tot)
            &&& tot.n == rows_in_bins(bins, bins.len() as int)
            &&& #[trigger] are_left_sides::<A>(bins, lefts)
            &&& #[trigger] are_numeric_gains::<A>(cfg, tot, lefts, miss, parent, gains)
            &&& is_numeric_pick(gains, knots, x)
        };
    let (b2, m2, t2, l2, g2) = choose|
        bins: Seq<Bin>,
        miss: Bin,
        tot: Bin,
        lefts: Seq<Bin>,
        gains: Seq<Option<F32>>,
    |
        {
            &&& #[trigger] are_bins::<A>(rows, vals, knots, g, h, bins, miss)
            &&& #[trigger] folds(none, bins, step, tot)
            &&& tot.n == rows_in_bins(bins, bins.len() as int)
            &&& #[trigger] are_left_sides::<A>(bins, lefts)
            &&& #[trigger] are_numeric_gains::<A>(cfg, tot, lefts, miss, parent, gains)
            &&& is_numeric_pick(gains, knots, y)
        };
    lemma_bins_unique::<A>(rows, vals, knots, g, h, b1, m1, b2, m2);
    assert forall|p: Bin, a: Bin, b: Bin, c: Bin| #[trigger]
        step(p, a, b) && #[trigger] step(p, a, c) implies b == c by {
        assert(is_bin_sum::<A>(a, p, b) && is_bin_sum::<A>(a, p, c));
    }
    lemma_folds_unique(none, b1, step, t1, t2);
    assert forall|t: int| 0 <= t < l1.len() implies l1[t] == l2[t] by {
        lemma_left_sides_unique::<A>(b1, l1, l2, t);
    }
    assert(l1 =~= l2);
    assert forall|j: int| 0 <= j < g1.len() implies g1[j] == g2[j] by {
        let t = j / 2;
        let left = l1[t];
        assert(are_threshold_gains::<A>(cfg, t1, left, m1, parent, g1[2 * t], g1[2 * t + 1]));
        assert(are_threshold_gains::<A>(cfg, t1, left, m1, parent, g2[2 * t], g2[2 * t + 1]));
        let r1 = choose|right: Bin| #[trigger]
            is_bin_diff::<A>(t1, left, right) && is_direction_gain::<A>(
                cfg,
                left,
                right,
                m1,
                parent,
                true,
                g1[2 * t],
            ) && is_direction_gain::<A>(cfg, left, right, m1, parent, false, g1[2 * t + 1]);
        let r2 = choose|right: Bin| #[trigger]
            is_bin_diff::<A>(t1, left, right) && is_direction_gain::<A>(
                cfg,
                left,
                right,
                m1,
                parent,
                true,
                g2[2 * t],
            ) && is_direction_gain::<A>(cfg, left, right, m1, parent, false, g2[2 * t + 1]);
        assert(r1 == r2);
        lemma_direction_gain_unique::<A>(
            cfg,
            left,
            r1,
            m1,
            parent,
            true,
            g1[2 * t],
            g2[2 * t],
        );
        lemma_direction_gain_unique::<A>(
            cfg,
            left,
            r1,
            m1,
            parent,
            false,
            g1[2 * t + 1],
            g2[2 * t + 1],
        );
        assert(j == 2 * t || j == 2 * t + 1);
    }
    assert(g1 =~= g2);
}

/// Two splits send the same values to the same side.
pub open spec fn same_split(a: Split, b: Split) -> bool {
    match (a, b) {
        (Split::Numeric { thr: x }, Split::Numeric { thr: y }) => x == y,
        (Split::Categorical { left_set: x }, Split::Categorical { left_set: y }) => x@ == y@,
        _ => false,
    }
}

/// Two candidates are the same split with the same gain, or both none.
pub open spec fn same_candidate(a: Option<Candidate>, b: Option<Candidate>) -> bool {
    match (a, b) {
        (Some(x), Some(y)) => x.gain == y.gain && x.feature == y.feature && same_split(
            x.split,
            y.split,
        ) && x.default_left == y.default_left,
        (None, None) => true,
        _ => false,
    }
}

proof fn lemma_stats_unique<A: Arith>(
    rows: Seq<u32>,
    g: Seq<F32>,
    h: Seq<F32>,
    a: CatStat,
    b: CatStat,
)
    requires
        deterministic::<A>(),
        folds(CatStat::empty(), rows, add_stat::<A>(g, h), a),
        folds(CatStat::empty(), rows, add_stat::<A>(g, h), b),
    ensures
        a == b,
{
    let step = add_stat::<A>(g, h);
    assert forall|r: u32, x: CatStat, y: CatStat, z: CatStat| #[trigger]
        step(r, x, y) && #[trigger] step(r, x, z) implies y == z by {
        assert(is_stat_added::<A>(g[r as int], h[r as int], x, y));
        assert(is_stat_added::<A>(g[r as int], h[r as int], x, z));
    }
    lemma_folds_unique(CatStat::empty(), rows, step, a, b);
}

proof fn lemma_leading_sums_unique<A: Arith>(
    stats: Seq<CatStat>,
    order: Seq<usize>,
    a: Seq<CatStat>,
    b: Seq<CatStat>,
    i: int,
)
    requires
        deterministic::<A>(),
        are_leading_sums::<A>(stats, order, a),
        are_leading_sums::<A>(stats, order, b),
        0 <= i < a.len(),
        a.len() == b.len(),
    ensures
        a[i] == b[i],
    decreases i,
{
    if i > 0 {
        lemma_leading_sums_unique::<A>(stats, order, a, b, i - 1);
    }
    assert(is_stat_sum::<A>(stat_before(a, i), stats[order[i] as int], a[i]));
    assert(is_stat_sum::<A>(stat_before(b, i), stats[order[i] as int], b[i]));
}

proof fn lemma_prefix_gain_unique<A: Arith>(
    cfg: Config,
    tot: CatStat,
    left: CatStat,
    parent: F64,
    x: Option<F32>,
    y: Option<F32>,
)
    requires
        deterministic::<A>(),
        is_prefix_gain::<A>(cfg, tot, left, parent, x),
        is_prefix_gain::<A>(cfg, tot, left, parent, y),
    ensures
        x == y,
{
    if x is Some {
        let lam = cfg.lambda.spec_widened();
        let (a1, b1, s1, t1) = choose|rg: F64, rh: F64, sl: F64, sr: F64| #[trigger]
            is_diff::<A>(tot.g, left.g, rg) && #[trigger] is_diff::<A>(tot.h, left.h, rh)
                && #[trigger] is_score_const::<A>(left.g, left.h, lam, sl)
                && #[trigger] is_score_const::<A>(rg, rh, lam, sr) && is_gain::<A>(
                sl,
                sr,
                parent,
                x->0,
            );
        let (a2, b2, s2, t2) = choose|rg: F64, rh: F64, sl: F64, sr: F64| #[trigger]
            is_diff::<A>(tot.g, left.g, rg) && #[trigger] is_diff::<A>(tot.h, left.h, rh)
                && #[trigger] is_score_const::<A>(left.g, left.h, lam, sl)
                && #[trigger] is_score_const::<A>(rg, rh, lam, sr) && is_gain::<A>(
                sl,
                sr,
                parent,
                y->0,
            );
        assert(a1 == a2 && b1 == b2);
        lemma_score_const_unique::<A>(left.g, left.h, lam, s1, s2);
        lemma_score_const_unique::<A>(a1, b1, lam, t1, t2);
        lemma_gain_unique::<A>(s1, t1, parent, x->0, y->0);
    }
}

/// What stands behind the best split on a categorical column.
proof fn lemma_best_categorical_parts<A: Arith>(
    rows: Seq<u32>,
    codes: Seq<u32>,
    g: Seq<F32>,
    h: Seq<F32>,
    cfg: Config,
    parent: F64,
    r: Option<Candidate>,
) -> (p: (Seq<CatStat>, CatStat, Seq<F64>, Seq<usize>, Seq<CatStat>, Seq<Option<F32>>))
    requires
        is_best_categorical::<A>(rows, codes, g, h, cfg, parent, r),
    ensures
        are_code_stats::<A>(rows, codes, g, h, seen_codes(rows, codes), p.0),
        folds(CatStat::empty(), rows, add_stat::<A>(g, h), p.1),
        are_ratios::<A>(p.0, p.2),
        orders(ratio_keys(p.2), 0, p.2.len() as int, p.3),
        are_prefix_sums::<A>(p.0, p.3, p.4),
        are_prefix_gains::<A>(cfg, p.1, p.4, parent, p.5),
        is_categorical_pick(p.5, seen_codes(rows, codes), p.3, r),
{
    let (stats, tot, ratios, order, lefts, gains) = choose|
        stats: Seq<CatStat>,
        tot: CatStat,
        ratios: Seq<F64>,
        order: Seq<usize>,
        lefts: Seq<CatStat>,
        gains: Seq<Option<F32>>,
    |
        {
            &&& #[trigger] are_code_stats::<A>(
                rows,
                codes,
                g,
                h,
                seen_codes(rows, codes),
                stats,
            )
            &&& #[trigger] folds(CatStat::empty(), rows, add_stat::<A>(g, h), tot)
            &&& tot.n == rows.len()
            &&& #[trigger] are_ratios::<A>(stats, ratios)
            &&& #[trigger] orders(ratio_keys(ratios), 0, ratios.len() as int, order)
            &&& #[trigger] are_prefix_sums::<A>(stats, order, lefts)
            &&& #[trigger] are_prefix_gains::<A>(cfg, tot, lefts, parent, gains)
            &&& is_categorical_pick(gains, seen_codes(rows, codes), order, r)
        };
    (stats, tot, ratios, order, lefts, gains)
}

/// A categorical column has one best split.
proof fn lemma_best_categorical_unique<A: Arith>(
    rows: Seq<u32>,
    codes: Seq<u32>,
    g: Seq<F32>,
    h: Seq<F32>,
    cfg: Config,
    parent: F64,
    x: Option<Candidate>,
    y: Option<Candidate>,
)
    requires
        deterministic::<A>(),
        is_best_categorical::<A>(rows, codes, g, h, cfg, parent, x),
        is_best_categorical::<A>(rows, codes, g, h, cfg, parent, y),
    ensures
        same_candidate(x, y),
{
    let (s1, t1, q1, o1, l1, g1) = lemma_best_categorical_parts::<A>(
        rows,
        codes,
        g,
        h,
        cfg,
        parent,
        x,
    );
    let (s2, t2, q2, o2, l2, g2) = lemma_best_categorical_parts::<A>(
        rows,
        codes,
        g,
        h,
        cfg,
        parent,
        y,
    );
    let seen = seen_codes(rows, codes);
    assert forall|i: int| 0 <= i < s1.len() implies s1[i] == s2[i] by {
        assert(is_stat_of::<A>(rows, codes, g, h, seen[i], s1[i]));
        assert(is_stat_of::<A>(rows, codes, g, h, seen[i], s2[i]));
        lemma_stats_unique::<A>(rows.filter(has_code(codes, seen[i])), g, h, s1[i], s2[i]);
    }
    assert(s1 =~= s2);
    lemma_stats_unique::<A>(rows, g, h, t1, t2);
    assert forall|i: int| 0 <= i < q1.len() implies q1[i] == q2[i] by {
        assert(is_ratio::<A>(s1[i], q1[i]) && is_ratio::<A>(s1[i], q2[i]));
    }
    assert(q1 =~= q2);
    lemma_orders_unique(ratio_keys(q1), 0, q1.len() as int, o1, o2);
    assert forall|i: int| 0 <= i < l1.len() implies l1[i] == l2[i] by {
        lemma_leading_sums_unique::<A>(s1, o1, l1, l2, i);
    }
    assert(l1 =~= l2);
    assert forall|i: int| 0 <= i < g1.len() implies g1[i] == g2[i] by {
        assert(is_prefix_gain::<A>(cfg, t1, l1[i], parent, g1[i]));
        assert(is_prefix_gain::<A>(cfg, t1, l1[i], parent, g2[i]));
        lemma_prefix_gain_unique::<A>(cfg, t1, l1[i], parent, g1[i], g2[i]);
    }
    assert(g1 =~= g2);
}

proof fn lemma_parent_score_unique<A: Arith>(
    rows: Seq<u32>,
    fe: FeatureEncoder,
    col: EncCol,
    g: Seq<F32>,
    h: Seq<F32>,
    cfg: Config,
    r: F64,
    s: F64,
)
    requires
        deterministic::<A>(),
        is_parent_score::<A>(rows, fe, col, g, h, cfg, r),
        is_parent_score::<A>(rows, fe, col, g, h, cfg, s),
    ensures
        r == s,
{
    let lam = cfg.lambda.spec_widened();
    match (cfg.gain, threshold_view(fe, col)) {
        (GainKind::LeafAware, Some((knots, vals))) => {
            let step = add_parent_row::<A>(vals, knots, g, h);
            let a = choose|b: Bin| #[trigger]
                folds(Bin::empty(), rows, step, b) && is_score_linear::<A>(
                    b.h,
                    b.hz,
                    b.hzz,
                    b.g,
                    b.gz,
                    lam,
                    r,
                );
            let b = choose|b: Bin| #[trigger]
                folds(Bin::empty(), rows, step, b) && is_score_linear::<A>(
                    b.h,
                    b.hz,
                    b.hzz,
                    b.g,
                    b.gz,
                    lam,
                    s,
                );
            assert forall|i: u32, x: Bin, y: Bin, z: Bin| #[trigger]
                step(i, x, y) && #[trigger] step(i, x, z) implies y == z by {
                let v = vals[i as int];
                let (gi, hi) = (g[i as int].spec_widened(), h[i as int].spec_widened());
                assert(is_parent_row_added::<A>(knots, v, g[i as int], h[i as int], x, y));
                assert(is_parent_row_added::<A>(knots, v, g[i as int], h[i as int], x, z));
                let p = choose|p: F64| #[trigger]
                    is_parent_z::<A>(knots, v, p) && is_moment_added::<A>(gi, hi, p, x, y);
                let q = choose|q: F64| #[trigger]
                    is_parent_z::<A>(knots, v, q) && is_moment_added::<A>(gi, hi, q, x, z);
                lemma_row_z::<A>(knots, v, p);
                lemma_row_z::<A>(knots, v, q);
                lemma_moment_unique::<A>(gi, hi, p, x, y, z);
            }
            lemma_folds_unique(Bin::empty(), rows, step, a, b);
            lemma_score_linear_unique::<A>(a.h, a.hz, a.hzz, a.g, a.gz, lam, r, s);
        },
        _ => {
            let step = add_stat::<A>(g, h);
            let a = choose|b: CatStat| #[trigger]
                folds(CatStat::empty(), rows, step, b) && is_score_const::<A>(b.g, b.h, lam, r);
            let b = choose|b: CatStat| #[trigger]
                folds(CatStat::empty(), rows, step, b) && is_score_const::<A>(b.g, b.h, lam, s);
            lemma_stats_unique::<A>(rows, g, h, a, b);
            lemma_score_const_unique::<A>(a.g, a.h, lam, r, s);
        },
    }
}

/// A feature has one best split, whatever holds its encoder and column.
proof fn lemma_feature_split_unique<A: Arith>(
    rows: Seq<u32>,
    fe: FeatureEncoder,
    col: EncCol,
    fe2: FeatureEncoder,
    col2: EncCol,
    g: Seq<F32>,
    h: Seq<F32>,
    cfg: Config,
    x: Option<Candidate>,
    y: Option<Candidate>,
)
    requires
        deterministic::<A>(),
        same_encoder(fe, fe2),
        same_encoded(col, col2),
        is_feature_split::<A>(rows, fe, col, g, h, cfg, x),
        is_feature_split::<A>(rows, fe2, col2, g, h, cfg, y),
    ensures
        same_candidate(x, y),
{
    let p = choose|parent: F64| #[trigger]
        is_parent_score::<A>(rows, fe, col, g, h, cfg, parent) && match (fe, col) {
            (FeatureEncoder::Numeric(e), EncCol::Num(vals)) => is_best_numeric::<A>(
                rows,
                vals@,
                e.knots@,
                g,
                h,
                cfg,
                parent,
                x,
            ),
            (FeatureEncoder::HighCard(e), EncCol::HighCard { enc, .. }) => is_best_numeric::<A>(
                rows,
                enc@,
                e.enc_knots@,
                g,
                h,
                cfg,
                parent,
                x,
            ),
            (FeatureEncoder::BoundedCat(_), EncCol::Cat(codes)) => is_best_categorical::<A>(
                rows,
                codes@,
                g,
                h,
                cfg,
                parent,
                x,
            ),
            _ => x is None,
        };
    let q = choose|parent: F64| #[trigger]
        is_parent_score::<A>(rows, fe2, col2, g, h, cfg, parent) && match (fe2, col2) {
            (FeatureEncoder::Numeric(e), EncCol::Num(vals)) => is_best_numeric::<A>(
                rows,
                vals@,
                e.knots@,
                g,
                h,
                cfg,
                parent,
                y,
            ),
            (FeatureEncoder::HighCard(e), EncCol::HighCard { enc, .. }) => is_best_numeric::<A>(
                rows,
                enc@,
                e.enc_knots@,
                g,
                h,
                cfg,
                parent,
                y,
            ),
            (FeatureEncoder::BoundedCat(_), EncCol::Cat(codes)) => is_best_categorical::<A>(
                rows,
                codes@,
                g,
                h,
                cfg,
                parent,
                y,
            ),
            _ => y is None,
        };
    assert(threshold_view(fe, col) == threshold_view(fe2, col2));
    assert(is_parent_score::<A>(rows, fe, col, g, h, cfg, q));
    lemma_parent_score_unique::<A>(rows, fe, col, g, h, cfg, p, q);
    match (fe, col) {
        (FeatureEncoder::Numeric(e), EncCol::Num(vals)) => {
            lemma_best_numeric_unique::<A>(rows, vals@, e.knots@, g, h, cfg, p, x, y);
        },
        (FeatureEncoder::HighCard(e), EncCol::HighCard { enc, .. }) => {
            lemma_best_numeric_unique::<A>(rows, enc@, e.enc_knots@, g, h, cfg, p, x, y);
        },
        (FeatureEncoder::BoundedCat(_), EncCol::Cat(codes)) => {
            lemma_best_categorical_unique::<A>(rows, codes@, g, h, cfg, p, x, y);
        },
        _ => {},
    }
    if x is Some && x->0.split is Numeric {
        assert(same_split(x->0.split, y->0.split));
    }
}

/// A node has one best split.
proof fn lemma_best_split_unique<A: Arith>(
    rows: Seq<u32>,
    e1: Encoders,
    m1: EncodedMatrix,
    e2: Encoders,
    m2: EncodedMatrix,
    g: Seq<F32>,
    h: Seq<F32>,
    cfg: Config,
    x: Option<Candidate>,
    y: Option<Candidate>,
)
    requires
        deterministic::<A>(),
        same_encoders(e1, e2),
        same_matrix(m1, m2),
        e1.features.len() <= u32::MAX,
        is_best_split::<A>(rows, e1, m1, g, h, cfg, x),
        is_best_split::<A>(rows, e2, m2, g, h, cfg, y),
    ensures
        same_candidate(x, y),
        x is Some ==> x->0.feature < m1.cols.len(),
{
    let a = choose|cands: Seq<Option<Candidate>>| #[trigger]
        are_feature_splits::<A>(rows, e1.features@, m1.cols@, g, h, cfg, cands) && is_split_pick(
            cands,
            x,
        );
    let b = choose|cands: Seq<Option<Candidate>>| #[trigger]
        are_feature_splits::<A>(rows, e2.features@, m2.cols@, g, h, cfg, cands) && is_split_pick(
            cands,
            y,
        );
    assert forall|i: int| 0 <= i < a.len() implies same_candidate(#[trigger] a[i], b[i]) by {
        assert(same_encoder(e1.features[i], e2.features[i]));
        assert(same_encoded(m1.cols[i], m2.cols[i]));
        assert(is_feature_split::<A>(rows, e1.features@[i], m1.cols@[i], g, h, cfg, a[i]));
        assert(is_feature_split::<A>(rows, e2.features@[i], m2.cols@[i], g, h, cfg, b[i]));
        lemma_feature_split_unique::<A>(
            rows,
            e1.features[i],
            m1.cols[i],
            e2.features[i],
            m2.cols[i],
            g,
            h,
            cfg,
            a[i],
            b[i],
        );
    }
    assert forall|i: int| 0 <= i < a.len() implies positive_gains(a)[i] == positive_gains(
        b,
    )[i] by {
        assert(same_candidate(a[i], b[i]));
    }
    assert(positive_gains(a) =~= positive_gains(b));
    lemma_scan_best_in_range(positive_gains(a));
    if let Some(j) = scan_best(positive_gains(a)) {
        assert(same_candidate(a[j], b[j]));
        assert(positive_gains(a)[j] == positive_gain(a[j]));
    }
}

/// Two nodes are the same.
pub open spec fn same_node(a: NodeKind, b: NodeKind) -> bool {
    match (a, b) {
        (NodeKind::Leaf(i), NodeKind::Leaf(j)) => i == j,
        (
            NodeKind::Internal { feature: f, split: s, default_left: d, left: l, right: r },
            NodeKind::Internal { feature: g, split: t, default_left: e, left: m, right: q },
        ) => f == g && same_split(s, t) && d == e && l == m && r == q,
        _ => false,
    }
}

/// Two lists of nodes are the same.
pub open spec fn same_nodes(a: Seq<NodeKind>, b: Seq<NodeKind>) -> bool {
    &&& a.len() == b.len()
    &&& forall|i: int| 0 <= i < a.len() ==> same_node(#[trigger] a[i], b[i])
}

/// Two open leaves are the same, and split on one of `n` features if at all.
spec fn same_open(n: int, a: Open, b: Open) -> bool {
    &&& a.node == b.node
    &&& a.rows@ == b.rows@
    &&& same_candidate(a.cand, b.cand)
    &&& a.cand is Some ==> a.cand->0.feature < n
}

spec fn same_opens(n: int, a: Seq<Open>, b: Seq<Open>) -> bool {
    &&& a.len() == b.len()
    &&& forall|i: int| 0 <= i < a.len() ==> same_open(n, #[trigger] a[i], b[i])
}

/// Two states of growth are the same.
spec fn same_state(
    n: int,
    a: (Seq<NodeKind>, Seq<Open>),
    b: (Seq<NodeKind>, Seq<Open>),
) -> bool {
    &&& same_nodes(a.0, b.0)
    &&& same_opens(n, a.1, b.1)
    &&& forall|i: int| 0 <= i < a.1.len() ==> (#[trigger] a.1[i]).node < a.0.len()
}

proof fn lemma_next_open_same(n: int, a: Seq<Open>, b: Seq<Open>)
    requires
        same_opens(n, a, b),
    ensures
        next_open(a) == next_open(b),
        next_open(a) matches Some(j) ==> 0 <= j < a.len() && a[j].cand is Some,
    decreases a.len(),
{
    if a.len() > 0 {
        let (p, q) = (a.drop_last(), b.drop_last());
        assert forall|i: int| 0 <= i < p.len() implies same_open(n, #[trigger] p[i], q[i]) by {
            assert(same_open(n, a[i], b[i]));
        }
        lemma_next_open_same(n, p, q);
        assert(same_open(n, a[a.len() - 1], b[b.len() - 1]));
        if let Some(j) = next_open(p) {
            assert(same_open(n, a[j], b[j]));
            assert(p[j] == a[j]);
        }
    }
}

proof fn lemma_opened_same<A: Arith>(
    e1: Encoders,
    m1: EncodedMatrix,
    e2: Encoders,
    m2: EncodedMatrix,
    g: Seq<F32>,
    h: Seq<F32>,
    cfg: Config,
    node: int,
    rows: Seq<u32>,
    a: Open,
    b: Open,
)
    requires
        deterministic::<A>(),
        same_encoders(e1, e2),
        same_matrix(m1, m2),
        e1.features.len() <= u32::MAX,
        is_opened::<A>(e1, m1, g, h, cfg, node, rows, a),
        is_opened::<A>(e2, m2, g, h, cfg, node, rows, b),
    ensures
        same_open(m1.cols@.len() as int, a, b),
{
    lemma_best_split_unique::<A>(rows, e1, m1, e2, m2, g, h, cfg, a.cand, b.cand);
}

/// The rows that the same split sends to a side are the same.
proof fn lemma_sides_same(rows: Seq<u32>, a: Candidate, b: Candidate, c: EncCol, d: EncCol)
    requires
        same_candidate(Some(a), Some(b)),
        same_encoded(c, d),
    ensures
        rows.filter(row_goes_left(a.split, a.default_left, c)) == rows.filter(
            row_goes_left(b.split, b.default_left, d),
        ),
        rows.filter(row_goes_right(a.split, a.default_left, c)) == rows.filter(
            row_goes_right(b.split, b.default_left, d),
        ),
{
    lemma_filter_agree(
        rows,
        row_goes_left(a.split, a.default_left, c),
        row_goes_left(b.split, b.default_left, d),
    );
    lemma_filter_agree(
        rows,
        row_goes_right(a.split, a.default_left, c),
        row_goes_right(b.split, b.default_left, d),
    );
}

proof fn lemma_growth_step_same<A: Arith>(
    e1: Encoders,
    m1: EncodedMatrix,
    e2: Encoders,
    m2: EncodedMatrix,
    g: Seq<F32>,
    h: Seq<F32>,
    cfg: Config,
    a: (Seq<NodeKind>, Seq<Open>),
    b: (Seq<NodeKind>, Seq<Open>),
    x: (Seq<NodeKind>, Seq<Open>),
    y: (Seq<NodeKind>, Seq<Open>),
)
    requires
        deterministic::<A>(),
        same_encoders(e1, e2),
        same_matrix(m1, m2),
        e1.features.len() <= u32::MAX,
        same_state(m1.cols@.len() as int, a, x),
        is_growth_step::<A>(e1, m1, g, h, cfg, a, b),
        is_growth_step::<A>(e2, m2, g, h, cfg, x, y),
    ensures
        same_state(m1.cols@.len() as int, b, y),
{
    let n = m1.cols@.len() as int;
    lemma_next_open_same(n, a.1, x.1);
    let i = next_open(a.1)->0;
    let k = a.1.len() as int;
    let (o, p) = (a.1[i], x.1[i]);
    assert(same_open(n, o, p));
    let (c, d) = (o.cand->0, p.cand->0);
    let (u, v) = (m1.cols[c.feature as int], m2.cols[d.feature as int]);
    assert(same_encoded(u, v));
    lemma_sides_same(o.rows@, c, d, u, v);
    lemma_opened_same::<A>(
        e1,
        m1,
        e2,
        m2,
        g,
        h,
        cfg,
        a.0.len() as int,
        o.rows@.filter(row_goes_left(c.split, c.default_left, u)),
        b.1[k - 1],
        y.1[k - 1],
    );
    lemma_opened_same::<A>(
        e1,
        m1,
        e2,
        m2,
        g,
        h,
        cfg,
        a.0.len() as int + 1,
        o.rows@.filter(row_goes_right(c.split, c.default_left, u)),
        b.1[k],
        y.1[k],
    );
    assert(b.0.len() == a.0.len() + 2);
    assert forall|j: int| 0 <= j < b.1.len() implies same_open(n, #[trigger] b.1[j], y.1[j])
        && b.1[j].node < b.0.len() by {
        if j < k - 1 {
            assert(b.1.take(k - 1)[j] == b.1[j] && y.1.take(k - 1)[j] == y.1[j]);
            assert(without(a.1, i)[j] == if j == i {
                a.1[k - 1]
            } else {
                a.1[j]
            });
            assert(without(x.1, i)[j] == if j == i {
                x.1[k - 1]
            } else {
                x.1[j]
            });
            assert(same_open(n, a.1[k - 1], x.1[k - 1]) && a.1[k - 1].node < a.0.len());
            assert(same_open(n, a.1[j], x.1[j]) && a.1[j].node < a.0.len());
        }
    }
    assert forall|j: int| 0 <= j < b.0.len() implies same_node(#[trigger] b.0[j], y.0[j]) by {
        if j < a.0.len() {
            assert(same_node(a.0[j], x.0[j]));
        }
    }
}

proof fn lemma_growth_runs_same<A: Arith>(
    e1: Encoders,
    m1: EncodedMatrix,
    e2: Encoders,
    m2: EncodedMatrix,
    g: Seq<F32>,
    h: Seq<F32>,
    cfg: Config,
    s: (Seq<NodeKind>, Seq<Open>),
    t: (Seq<NodeKind>, Seq<Open>),
    n: nat,
    b: (Seq<NodeKind>, Seq<Open>),
    y: (Seq<NodeKind>, Seq<Open>),
)
    requires
        deterministic::<A>(),
        same_encoders(e1, e2),
        same_matrix(m1, m2),
        e1.features.len() <= u32::MAX,
        is_growth_start::<A>(e1, m1, g, h, cfg, s),
        is_growth_start::<A>(e2, m2, g, h, cfg, t),
        runs(s, n, growth::<A>(e1, m1, g, h, cfg), b),
        runs(t, n, growth::<A>(e2, m2, g, h, cfg), y),
    ensures
        same_state(m1.cols@.len() as int, b, y),
    decreases n,
{
    let (f1, f2) = (growth::<A>(e1, m1, g, h, cfg), growth::<A>(e2, m2, g, h, cfg));
    if n > 0 {
        let a = lemma_runs_last(s, n, f1, b);
        let x = lemma_runs_last(t, n, f2, y);
        lemma_growth_runs_same::<A>(e1, m1, e2, m2, g, h, cfg, s, t, (n - 1) as nat, a, x);
        assert(is_growth_step::<A>(e1, m1, g, h, cfg, a, b));
        assert(is_growth_step::<A>(e2, m2, g, h, cfg, x, y));
        lemma_growth_step_same::<A>(e1, m1, e2, m2, g, h, cfg, a, b, x, y);
    } else {
        let p = choose|tr: Seq<(Seq<NodeKind>, Seq<Open>)>| #[trigger]
            is_trace(s, n, f1, tr) && tr[0] == b;
        let q = choose|tr: Seq<(Seq<NodeKind>, Seq<Open>)>| #[trigger]
            is_trace(t, n, f2, tr) && tr[0] == y;
        lemma_opened_same::<A>(
            e1,
            m1,
            e2,
            m2,
            g,
            h,
            cfg,
            0,
            root_rows(m1.n_rows as int),
            s.1[0],
            t.1[0],
        );
        assert(same_node(s.0[0], t.0[0]));
    }
}

/// Two grown trees are the same.
pub open spec fn same_tree(a: GrownTree, b: GrownTree) -> bool {
    &&& same_nodes(a.nodes@, b.nodes@)
    &&& a.root == b.root
    &&& a.leaf_rows.len() == b.leaf_rows.len()
    &&& forall|j: int|
        0 <= j < a.leaf_rows.len() ==> (#[trigger] a.leaf_rows[j])@ == b.leaf_rows[j]@
}

proof fn lemma_finished_same(
    n: int,
    s: (Seq<NodeKind>, Seq<Open>),
    t: (Seq<NodeKind>, Seq<Open>),
    a: GrownTree,
    b: GrownTree,
)
    requires
        same_state(n, s, t),
        is_finished(s, a),
        is_finished(t, b),
    ensures
        same_tree(a, b),
{
    assert forall|k: int| 0 <= k < a.nodes.len() implies same_node(
        #[trigger] a.nodes@[k],
        b.nodes@[k],
    ) by {
        assert(same_node(s.0[k], t.0[k]));
        if is_open_node(s.1, k) {
            let j = choose|j: int| 0 <= j < s.1.len() && (#[trigger] s.1[j]).node == k;
            assert(same_open(n, s.1[j], t.1[j]));
            assert(b.nodes[t.1[j].node as int] == NodeKind::Leaf(j as usize));
        } else {
            if is_open_node(t.1, k) {
                let j = choose|j: int| 0 <= j < t.1.len() && (#[trigger] t.1[j]).node == k;
                assert(same_open(n, s.1[j], t.1[j]));
            }
            assert(a.nodes[k] == s.0[k] && b.nodes[k] == t.0[k]);
        }
    }
    assert forall|j: int| 0 <= j < a.leaf_rows.len() implies (#[trigger] a.leaf_rows[j])@
        == b.leaf_rows[j]@ by {
        assert(same_open(n, s.1[j], t.1[j]));
    }
}

/// Growth has one outcome.
proof fn lemma_grown_unique<A: Arith>(
    e1: Encoders,
    m1: EncodedMatrix,
    e2: Encoders,
    m2: EncodedMatrix,
    g: Seq<F32>,
    h: Seq<F32>,
    cfg: Config,
    a: GrownTree,
    b: GrownTree,
)
    requires
        deterministic::<A>(),
        same_encoders(e1, e2),
        same_matrix(m1, m2),
        e1.features.len() <= u32::MAX,
        is_grown::<A>(e1, m1, g, h, cfg, a),
        is_grown::<A>(e2, m2, g, h, cfg, b),
    ensures
        same_tree(a, b),
{
    let (f1, f2) = (growth::<A>(e1, m1, g, h, cfg), growth::<A>(e2, m2, g, h, cfg));
    let k = m1.cols@.len() as int;
    let (s, m, p) = choose|
        start: (Seq<NodeKind>, Seq<Open>),
        steps: nat,
        last: (Seq<NodeKind>, Seq<Open>),
    |
        {
            &&& #[trigger] is_growth_start::<A>(e1, m1, g, h, cfg, start)
            &&& #[trigger] runs(start, steps, f1, last)
            &&& steps == 0 || steps + 1 <= cfg.num_leaves
            &&& steps + 1 >= cfg.num_leaves || next_open(last.1) is None
            &&& is_finished(last, a)
        };
    let (t, n, q) = choose|
        start: (Seq<NodeKind>, Seq<Open>),
        steps: nat,
        last: (Seq<NodeKind>, Seq<Open>),
    |
        {
            &&& #[trigger] is_growth_start::<A>(e2, m2, g, h, cfg, start)
            &&& #[trigger] runs(start, steps, f2, last)
            &&& steps == 0 || steps + 1 <= cfg.num_leaves
            &&& steps + 1 >= cfg.num_leaves || next_open(last.1) is None
            &&& is_finished(last, b)
        };
    if m < n {
        let (u, v) = lemma_run_passes(t, m, n, f2, q);
        lemma_growth_runs_same::<A>(e1, m1, e2, m2, g, h, cfg, s, t, m, p, u);
        lemma_next_open_same(k, p.1, u.1);
        assert(is_growth_step::<A>(e2, m2, g, h, cfg, u, v));
    }
    if n < m {
        let (u, v) = lemma_run_passes(s, n, m, f1, p);
        lemma_growth_runs_same::<A>(e1, m1, e2, m2, g, h, cfg, s, t, n, u, q);
        lemma_next_open_same(k, u.1, q.1);
        assert(is_growth_step::<A>(e1, m1, g, h, cfg, u, v));
    }
    lemma_growth_runs_same::<A>(e1, m1, e2, m2, g, h, cfg, s, t, m, p, q);
    lemma_finished_same(k, p, q, a, b);
}

proof fn lemma_log_odds_unique<A: Arith>(rate: F64, a: F64, b: F64)
    requires
        deterministic::<A>(),
        is_log_odds::<A>(rate, a),
        is_log_odds::<A>(rate, b),
    ensures
        a == b,
{
    let (d1, q1) = choose|d: F64, q: F64| #[trigger]
        is_diff::<A>(F64::one(), rate, d) && #[trigger] is_quot::<A>(rate, d, q) && is_ln::<A>(
            q,
            a,
        );
    let (d2, q2) = choose|d: F64, q: F64| #[trigger]
        is_diff::<A>(F64::one(), rate, d) && #[trigger] is_quot::<A>(rate, d, q) && is_ln::<A>(
            q,
            b,
        );
    assert(d1 == d2);
    assert(q1 == q2);
}

proof fn lemma_global_rate_unique<A: Arith>(d1: Dataset, d2: Dataset, a: F64, b: F64)
    requires
        deterministic::<A>(),
        same_data(d1, d2),
        is_global_rate::<A>(d1, a),
        is_global_rate::<A>(d2, b),
    ensures
        a == b,
{
    let (labels, weights) = (d1.labels@, d1.weights@);
    let n = labels.len();
    let (y1, w1, q1) = choose|wy: F64, wsum: F64, q: F64| #[trigger]
        are_rate_sums::<A>(labels, weights, n, wy, wsum) && #[trigger] is_quot::<A>(wy, wsum, q)
            && a == q.spec_clamped(min_rate(), max_rate());
    let (y2, w2, q2) = choose|wy: F64, wsum: F64, q: F64| #[trigger]
        are_rate_sums::<A>(labels, weights, n, wy, wsum) && #[trigger] is_quot::<A>(wy, wsum, q)
            && b == q.spec_clamped(min_rate(), max_rate());
    lemma_rate_sums_unique::<A>(labels, weights, n, y1, w1, y2, w2);
    assert(q1 == q2);
}

proof fn lemma_base_stats_unique<A: Arith>(
    d1: Dataset,
    d2: Dataset,
    p0: F32,
    g1: Seq<F32>,
    h1: Seq<F32>,
    g2: Seq<F32>,
    h2: Seq<F32>,
)
    requires
        deterministic::<A>(),
        same_data(d1, d2),
        are_base_stats::<A>(d1, p0, g1, h1),
        are_base_stats::<A>(d2, p0, g2, h2),
    ensures
        g1 == g2,
        h1 == h2,
{
    assert forall|i: int| 0 <= i < g1.len() implies g1[i] == g2[i] by {
        let (c, label) = (d1.weights@[i], d1.labels@[i]);
        assert(is_gradient::<A>(c, p0, label, g1[i]) && is_gradient::<A>(c, p0, label, g2[i]));
        let (y1, u1) = choose|y: F32, u: F32| #[trigger]
            is_narrow::<A>(F64::of_byte(label), y) && #[trigger] is_diff32::<A>(p0, y, u)
                && is_prod32::<A>(c, u, g1[i]);
        let (y2, u2) = choose|y: F32, u: F32| #[trigger]
            is_narrow::<A>(F64::of_byte(label), y) && #[trigger] is_diff32::<A>(p0, y, u)
                && is_prod32::<A>(c, u, g2[i]);
        assert(y1 == y2);
        assert(u1 == u2);
    }
    assert(g1 =~= g2);
    assert forall|i: int| 0 <= i < h1.len() implies h1[i] == h2[i] by {
        let c = d1.weights@[i];
        assert(is_hessian::<A>(c, p0, h1[i]) && is_hessian::<A>(c, p0, h2[i]));
        let (a1, b1) = choose|cp: F32, q: F32| #[trigger]
            is_prod32::<A>(c, p0, cp) && #[trigger] is_diff32::<A>(F32::one(), p0, q)
                && is_prod32::<A>(cp, q, h1[i]);
        let (a2, b2) = choose|cp: F32, q: F32| #[trigger]
            is_prod32::<A>(c, p0, cp) && #[trigger] is_diff32::<A>(F32::one(), p0, q)
                && is_prod32::<A>(cp, q, h2[i]);
        assert(a1 == a2 && b1 == b2);
    }
    assert(h1 =~= h2);
}

/// A basis of a row is one whatever holds the encoders and the matrix.
proof fn lemma_row_basis_same<A: Arith>(
    e1: Encoders,
    m1: EncodedMatrix,
    e2: Encoders,
    m2: EncodedMatrix,
    row: int,
    phi: Seq<(u32, F32)>,
)
    requires
        same_encoders(e1, e2),
        same_matrix(m1, m2),
        is_row_basis::<A>(e1, m1, row, phi),
    ensures
        is_row_basis::<A>(e2, m2, row, phi),
{
    let parts = choose|parts: Seq<Seq<(u32, F32)>>| #[trigger]
        are_row_parts::<A>(e1.features@, m1.cols@, row, parts) && phi == parts.flatten();
    assert forall|i: int| 0 <= i < parts.len() implies is_feature_basis::<A>(
        e2.features@[i],
        m2.cols@[i],
        row,
        #[trigger] parts[i],
    ) by {
        assert(same_encoder(e1.features[i], e2.features[i]));
        assert(same_encoded(m1.cols[i], m2.cols[i]));
        assert(is_feature_basis::<A>(e1.features@[i], m1.cols@[i], row, parts[i]));
        lemma_feature_basis_same::<A>(
            e1.features[i],
            m1.cols[i],
            e2.features[i],
            m2.cols[i],
            row,
            parts[i],
        );
    }
    assert(are_row_parts::<A>(e2.features@, m2.cols@, row, parts));
}

proof fn lemma_highcard_basis_same<A: Arith>(
    f: HighCardEnc,
    g: HighCardEnc,
    enc: F32,
    cnt: F32,
    e: Seq<(u32, F32)>,
)
    requires
        same_highcard(f, g),
        is_highcard_basis::<A>(f, enc, cnt, e),
    ensures
        is_highcard_basis::<A>(g, enc, cnt, e),
{
}

proof fn lemma_feature_basis_same<A: Arith>(
    fe: FeatureEncoder,
    col: EncCol,
    fe2: FeatureEncoder,
    col2: EncCol,
    row: int,
    e: Seq<(u32, F32)>,
)
    requires
        same_encoder(fe, fe2),
        same_encoded(col, col2),
        is_feature_basis::<A>(fe, col, row, e),
    ensures
        is_feature_basis::<A>(fe2, col2, row, e),
{
    match (fe, fe2, col, col2) {
        (
            FeatureEncoder::HighCard(f),
            FeatureEncoder::HighCard(g),
            EncCol::HighCard { enc, cnt },
            EncCol::HighCard { enc: enc2, cnt: cnt2 },
        ) => {
            assert(enc@ == enc2@ && cnt@ == cnt2@);
            lemma_highcard_basis_same::<A>(f, g, enc[row], cnt[row], e);
        },
        _ => {},
    }
}

proof fn lemma_leaf_fit_same<A: Arith>(
    rows: Seq<u32>,
    e1: Encoders,
    m1: EncodedMatrix,
    e2: Encoders,
    m2: EncodedMatrix,
    labels: Seq<u8>,
    weights: Seq<F32>,
    s0: F32,
    cfg: Config,
    leaf: Leaf,
)
    requires
        same_encoders(e1, e2),
        same_matrix(m1, m2),
        is_leaf_fit::<A>(rows, e1, m1, labels, weights, s0, cfg, leaf),
    ensures
        is_leaf_fit::<A>(rows, e2, m2, labels, weights, s0, cfg, leaf),
{
    let x = choose|bias: F64| #[trigger]
        is_initial_bias::<A>(rows, labels, weights, s0, bias) && match cfg.leaf_model {
            LeafKind::Constant => leaf.idx@ == Seq::<u32>::empty() && leaf.w@ == Seq::<
                F32,
            >::empty() && is_narrow::<A>(bias, leaf.bias),
            LeafKind::Linear => is_linear_fit::<A>(
                rows,
                e1,
                m1,
                labels,
                weights,
                s0,
                cfg,
                bias,
                leaf,
            ),
        };
    if cfg.leaf_model is Linear {
        let (phis, w) = lemma_linear_fit_parts::<A>(
            rows,
            e1,
            m1,
            labels,
            weights,
            s0,
            cfg,
            x,
            leaf,
        );
        assert forall|k: int| 0 <= k < rows.len() implies is_row_basis::<A>(
            e2,
            m2,
            rows[k] as int,
            #[trigger] phis[k],
        ) by {
            lemma_row_basis_same::<A>(e1, m1, e2, m2, rows[k] as int, phis[k]);
        }
        assert(are_row_bases::<A>(e2, m2, rows, phis));
        assert(is_linear_fit::<A>(rows, e2, m2, labels, weights, s0, cfg, x, leaf));
    }
}

/// Two models are the same.
pub open spec fn same_model(a: Model, b: Model) -> bool {
    &&& same_encoders(a.encoders, b.encoders)
    &&& same_nodes(a.nodes@, b.nodes@)
    &&& a.root == b.root
    &&& a.leaves.len() == b.leaves.len()
    &&& forall|j: int| 0 <= j < a.leaves.len() ==> same_leaf(#[trigger] a.leaves[j], b.leaves[j])
    &&& a.s0 == b.s0
}

/// Two weighted training sets that hold the same train the same model.
proof fn lemma_trained_on_unique<A: Arith>(
    d1: Dataset,
    d2: Dataset,
    cfg: Config,
    p: F32,
    q: F32,
    m1: EncodedMatrix,
    m2: EncodedMatrix,
    a: Model,
    b: Model,
)
    requires
        deterministic::<A>(),
        same_data(d1, d2),
        is_trained_on::<A>(d1, cfg, p, m1, a),
        is_trained_on::<A>(d2, cfg, q, m2, b),
        a.encoders.features.len() <= u32::MAX,
        b.encoders.wf(),
    ensures
        same_model(a, b),
{
    let (e1, e2) = (a.encoders, b.encoders);
    let (r1, p1, g1, h1, t1) = choose|
        rate: F64,
        p0: F32,
        g: Seq<F32>,
        h: Seq<F32>,
        tree: GrownTree,
    |
        {
            &&& #[trigger] is_global_rate::<A>(d1, rate)
            &&& is_base_score::<A>(rate, a.s0)
            &&& #[trigger] is_narrow::<A>(rate, p0)
            &&& #[trigger] are_base_stats::<A>(d1, p0, g, h)
            &&& #[trigger] is_grown::<A>(a.encoders, m1, g, h, cfg, tree)
            &&& a.nodes == tree.nodes
            &&& a.root == tree.root
            &&& are_leaf_fits::<A>(tree, a.encoders, m1, d1, a.s0, cfg, a.leaves@)
        };
    let (r2, p2, g2, h2, t2) = choose|
        rate: F64,
        p0: F32,
        g: Seq<F32>,
        h: Seq<F32>,
        tree: GrownTree,
    |
        {
            &&& #[trigger] is_global_rate::<A>(d2, rate)
            &&& is_base_score::<A>(rate, b.s0)
            &&& #[trigger] is_narrow::<A>(rate, p0)
            &&& #[trigger] are_base_stats::<A>(d2, p0, g, h)
            &&& #[trigger] is_grown::<A>(b.encoders, m2, g, h, cfg, tree)
            &&& b.nodes == tree.nodes
            &&& b.root == tree.root
            &&& are_leaf_fits::<A>(tree, b.encoders, m2, d2, b.s0, cfg, b.leaves@)
        };
    lemma_fit_unique::<A>(d1, d2, cfg, p, q, e1, m1, e2, m2);
    lemma_global_rate_unique::<A>(d1, d2, r1, r2);
    assert(a.s0 == b.s0) by {
        let l1 = choose|l: F64| #[trigger] is_log_odds::<A>(r1, l) && is_narrow::<A>(l, a.s0);
        let l2 = choose|l: F64| #[trigger] is_log_odds::<A>(r1, l) && is_narrow::<A>(l, b.s0);
        lemma_log_odds_unique::<A>(r1, l1, l2);
    }
    assert(p1 == p2);
    lemma_base_stats_unique::<A>(d1, d2, p1, g1, h1, g2, h2);
    lemma_grown_unique::<A>(e1, m1, e2, m2, g1, h1, cfg, t1, t2);
    assert forall|j: int| 0 <= j < a.leaves.len() implies same_leaf(
        #[trigger] a.leaves[j],
        b.leaves[j],
    ) by {
        let rows = t1.leaf_rows[j]@;
        assert(rows == t2.leaf_rows[j]@);
        assert(is_leaf_fit::<A>(
            rows,
            e1,
            m1,
            d1.labels@,
            d1.weights@,
            a.s0,
            cfg,
            a.leaves@[j],
        ));
        assert(is_leaf_fit::<A>(
            rows,
            e2,
            m2,
            d1.labels@,
            d1.weights@,
            a.s0,
            cfg,
            b.leaves@[j],
        ));
        lemma_leaf_fit_same::<A>(
            rows,
            e1,
            m1,
            e2,
            m2,
            d1.labels@,
            d1.weights@,
            a.s0,
            cfg,
            a.leaves[j],
        );
        lemma_leaf_fit_is_reproducible::<A>(
            rows,
            e2,
            m2,
            d1.labels@,
            d1.weights@,
            a.s0,
            cfg,
            a.leaves[j],
            b.leaves[j],
        );
    }
}

/// Training has one outcome: with deterministic arithmetic, training sets that differ in
/// nothing but weights set beforehand give the same model.
pub proof fn lemma_training_is_reproducible<A: Arith>(
    d1: Dataset,
    d2: Dataset,
    cfg: Config,
    a: Model,
    b: Model,
)
    requires
        deterministic::<A>(),
        same_but_weights(d1, d2),
        is_trained::<A>(d1, cfg, a),
        is_trained::<A>(d2, cfg, b),
        a.wf(),
        b.wf(),
    ensures
        same_model(a, b),
{
    let (x, p, m1) = choose|ds: Dataset, prior: F32, matrix: EncodedMatrix| #[trigger]
        is_weighted_copy(d1, cfg.pos_weight, ds) && #[trigger] is_trained_on::<A>(
            ds,
            cfg,
            prior,
            matrix,
            a,
        );
    let (y, q, m2) = choose|ds: Dataset, prior: F32, matrix: EncodedMatrix| #[trigger]
        is_weighted_copy(d2, cfg.pos_weight, ds) && #[trigger] is_trained_on::<A>(
            ds,
            cfg,
            prior,
            matrix,
            b,
        );
    assert forall|i: int| 0 <= i < x.columns.len() implies same_column(
        #[trigger] x.columns[i],
        y.columns[i],
    ) by {
        assert(same_column(d1.columns[i], x.columns[i]));
        assert(same_column(d2.columns[i], y.columns[i]));
        assert(same_column(d1.columns[i], d2.columns[i]));
    }
    lemma_features_within_slots(a.encoders, a.encoders.features@.len() as int);
    lemma_trained_on_unique::<A>(x, y, cfg, p, q, m1, m2, a, b);
}

proof fn lemma_paths_end_same(
    a: Seq<NodeKind>,
    b: Seq<NodeKind>,
    n: int,
    leaves: int,
    node: int,
    k: nat,
)
    requires
        same_nodes(a, b),
        ends_within(a, n, leaves, node, k),
    ensures
        ends_within(b, n, leaves, node, k),
    decreases k,
{
    assert(same_node(a[node], b[node]));
    if let NodeKind::Internal { left, right, .. } = a[node] {
        lemma_paths_end_same(a, b, n, leaves, left as int, (k - 1) as nat);
        lemma_paths_end_same(a, b, n, leaves, right as int, (k - 1) as nat);
    }
}

/// The same tree routes the same values to the same leaf.
proof fn lemma_arrives_same(
    a: Seq<NodeKind>,
    b: Seq<NodeKind>,
    n: int,
    leaves: int,
    f: spec_fn(int) -> Result<F32, u32>,
    g: spec_fn(int) -> Result<F32, u32>,
    node: int,
    k: nat,
)
    requires
        same_nodes(a, b),
        ends_within(a, n, leaves, node, k),
        forall|i: int| 0 <= i < n ==> f(i) == #[trigger] g(i),
    ensures
        arrives(a, f, node) == arrives(b, g, node),
    decreases k,
{
    lemma_paths_end_same(a, b, n, leaves, node, k);
    lemma_arrives_next(a, n, leaves, f, node, k);
    lemma_arrives_next(b, n, leaves, g, node, k);
    assert(same_node(a[node], b[node]));
    match (a[node], b[node]) {
        (
            NodeKind::Internal { feature, split, default_left, .. },
            NodeKind::Internal { split: split2, .. },
        ) => {
            assert(f(feature as int) == g(feature as int));
            assert(goes_left(split, default_left, f(feature as int)) == goes_left(
                split2,
                default_left,
                f(feature as int),
            ));
            let next = next_node(a, f, node);
            assert(next == next_node(b, g, node));
            lemma_arrives_same(a, b, n, leaves, f, g, next, (k - 1) as nat);
        },
        _ => {},
    }
}

/// The same encoders transform a dataset into the same matrix.
proof fn lemma_transforms_same<A: Arith>(
    e1: Encoders,
    e2: Encoders,
    ds: Dataset,
    m1: EncodedMatrix,
    m2: EncodedMatrix,
)
    requires
        deterministic::<A>(),
        same_encoders(e1, e2),
        is_transform::<A>(e1, ds, m1),
        is_transform::<A>(e2, ds, m2),
    ensures
        same_matrix(m1, m2),
{
    assert forall|i: int| 0 <= i < m1.cols.len() implies same_encoded(
        #[trigger] m1.cols[i],
        m2.cols[i],
    ) by {
        assert(same_encoder(e1.features[i], e2.features[i]));
        assert(is_transformed::<A>(e1.features[i], ds.columns[i], m1.cols[i]));
        assert(is_transformed::<A>(e2.features[i], ds.columns[i], m2.cols[i]));
        match (e1.features[i], e2.features[i], ds.columns[i], m1.cols[i], m2.cols[i]) {
            (
                FeatureEncoder::BoundedCat(e),
                FeatureEncoder::BoundedCat(f),
                Column::Categorical(raw),
                EncCol::Cat(x),
                EncCol::Cat(y),
            ) => {
                assert forall|r: int| 0 <= r < x.len() implies x@[r] == y@[r] by {
                    assert(x[r] == e.spec_code_of(raw[r]) && y[r] == f.spec_code_of(raw[r]));
                }
                assert(x@ =~= y@);
            },
            (
                FeatureEncoder::HighCard(e),
                FeatureEncoder::HighCard(f),
                Column::Categorical(raw),
                EncCol::HighCard { enc: x, cnt: u },
                EncCol::HighCard { enc: y, cnt: v },
            ) => {
                assert(x@ =~= y@);
                assert forall|r: int| 0 <= r < u.len() implies u@[r] == v@[r] by {
                    assert(e.is_count_of::<A>(raw[r], u[r]) && f.is_count_of::<A>(raw[r], v[r]));
                }
                assert(u@ =~= v@);
            },
            _ => {},
        }
    }
}

proof fn lemma_leaf_proba_same<A: Arith>(
    a: Model,
    b: Model,
    leaf: int,
    phi: Seq<(u32, F32)>,
    p: F32,
)
    requires
        same_model(a, b),
        0 <= leaf < a.leaves.len(),
        a.is_leaf_proba::<A>(leaf, phi, p),
    ensures
        b.is_leaf_proba::<A>(leaf, phi, p),
{
    let (x, y) = (a.leaves[leaf], b.leaves[leaf]);
    assert(same_leaf(x, y));
    let (d, s) = choose|d: F32, s: F32| #[trigger]
        x.is_dot::<A>(phi, d) && #[trigger] is_sum32::<A>(a.s0, d, s) && is_logistic32::<A>(s, p);
    let (f, g) = (x.score_entry::<A>(), y.score_entry::<A>());
    assert forall|i: int, u: F32, v: F32|
        0 <= i < phi.len() && #[trigger] f(phi[i], u, v) implies g(phi[i], u, v) by {
        assert(x.is_entry_scored::<A>(phi[i], u, v));
        if x.idx@.contains(phi[i].0) {
            let j = x.idx@.index_of(phi[i].0);
            assert(x.w@[j] == y.w@[j]);
        }
        assert(y.is_entry_scored::<A>(phi[i], u, v));
    }
    lemma_folds_agree(x.bias, phi, f, g, d);
    assert(y.is_dot::<A>(phi, d));
}

/// The same models predict the same: with deterministic arithmetic they give every row of a
/// dataset the same probability.
pub proof fn lemma_same_models_predict_alike<A: Arith>(
    a: Model,
    b: Model,
    ds: Dataset,
    x: Seq<F32>,
    y: Seq<F32>,
)
    requires
        deterministic::<A>(),
        same_model(a, b),
        a.wf(),
        b.wf(),
        a.are_predictions::<A>(ds, x),
        b.are_predictions::<A>(ds, y),
    ensures
        x == y,
{
    let m1 = choose|m: EncodedMatrix| #[trigger]
        is_transform::<A>(a.encoders, ds, m) && a.are_matrix_predictions::<A>(m, x);
    let m2 = choose|m: EncodedMatrix| #[trigger]
        is_transform::<A>(b.encoders, ds, m) && b.are_matrix_predictions::<A>(m, y);
    lemma_transforms_same::<A>(a.encoders, b.encoders, ds, m1, m2);
    let (n, leaves) = (a.encoders.features@.len() as int, a.leaves@.len() as int);
    let root = a.root as int;
    let k = choose|k: nat| ends_within(a.nodes@, n, leaves, root, k);
    assert forall|r: int| 0 <= r < x.len() implies x[r] == y[r] by {
        let (f, g) = (row_values(m1, r), row_values(m2, r));
        assert forall|i: int| 0 <= i < n implies f(i) == #[trigger] g(i) by {
            assert(same_encoded(m1.cols[i], m2.cols[i]));
        }
        lemma_arrives_same(a.nodes@, b.nodes@, n, leaves, f, g, root, k);
        lemma_paths_stop(a.nodes@, n, leaves, f, root, k);
        lemma_arrives_where_it_stops(a.nodes@, f, root, k);
        let leaf = a.encoded_leaf(m1, r);
        let at = arrives(a.nodes@, f, root);
        assert(same_node(a.nodes@[at], b.nodes@[at]));
        assert(leaf == b.encoded_leaf(m2, r));
        assert(a.is_encoded_proba::<A>(m1, r, x[r]) && b.is_encoded_proba::<A>(m2, r, y[r]));
        let phi = choose|phi: Seq<(u32, F32)>| #[trigger]
            is_row_basis::<A>(a.encoders, m1, r, phi) && a.is_leaf_proba::<A>(leaf, phi, x[r]);
        let psi = choose|phi: Seq<(u32, F32)>| #[trigger]
            is_row_basis::<A>(b.encoders, m2, r, phi) && b.is_leaf_proba::<A>(leaf, phi, y[r]);
        lemma_row_basis_same::<A>(a.encoders, m1, b.encoders, m2, r, phi);
        lemma_row_basis_unique::<A>(b.encoders, m2, r, phi, psi);
        lemma_leaf_proba_same::<A>(a, b, leaf, phi, x[r]);
        lemma_leaf_proba_unique::<A>(b, leaf, phi, x[r], y[r]);
    }
    assert(x =~= y);
}

/// Training fixes every prediction: with deterministic arithmetic, models trained on training
/// sets that differ in nothing but weights set beforehand give every row of a dataset the same
/// probability.
pub proof fn lemma_training_fixes_predictions<A: Arith>(
    d1: Dataset,
    d2: Dataset,
    cfg: Config,
    a: Model,
    b: Model,
    ds: Dataset,
    x: Seq<F32>,
    y: Seq<F32>,
)
    requires
        deterministic::<A>(),
        same_but_weights(d1, d2),
        is_trained::<A>(d1, cfg, a),
        is_trained::<A>(d2, cfg, b),
        a.wf(),
        b.wf(),
        a.are_predictions::<A>(ds, x),
        b.are_predictions::<A>(ds, y),
    ensures
        x == y,
{
    lemma_training_is_reproducible::<A>(d1, d2, cfg, a, b);
    lemma_same_models_predict_alike::<A>(a, b, ds, x, y);
}

} // verus!
