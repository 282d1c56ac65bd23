//! What the encodings are: rates, smoothed category rates and basis weights in terms of the
//! rows.

use vstd::prelude::*;
use crate::arith::{
    folds, is_diff, is_diff32, is_index, is_int, is_ln_1p32, is_narrow, is_prod, is_quot, is_quot32,
    is_round, is_sum, item_step, lemma_runs_agree, runs, Arith,
};
use crate::data::{Column, Dataset, MISSING_CAT};
use crate::encoding::{
    add_weight, add_weighted_label, all_rows, are_bracket_entries, are_category_sums,
    are_knot_positions, are_quantile_knots, are_rate_sums, are_row_counts, are_target_maps, carries,
    distinct, finite_values, is_encoded_from, is_fit, is_fitted, is_fold_rate, is_interpolation,
    is_knot_position, is_label_added, is_numeric_basis, is_out_of_fold_enc, is_quantile,
    is_quantile_position, is_rate, is_seen, is_smoothed, is_sorted_copy, is_target_enc,
    is_transform, is_transformed, is_weighted_rate, layout_start, lemma_bracket_interpolates,
    lemma_codes_tell_apart, lemma_distinct_holds, max_int, min_int, numbers, out_of_fold,
    outside_fold, picked, rising, rows_with, value_keys, BoundedCatEnc, EncCol, EncodedMatrix,
    Encoders, FeatureEncoder,
};
use crate::exact::{
    converts_exactly, is_kept_inside, labels_stand, lemma_fold_stays, lemma_fold_total,
    lemma_run_total, never_leaves, stays_exact, stays_exact32, Ring,
};
use crate::float::{F32, F64};
use crate::seqs::{lemma_filter_agree, lemma_filter_props};
use crate::sort::{before, orders};
use crate::sums::{lemma_sum_at_least, lemma_sum_at_most, lemma_sum_permuted, sum_to};
use crate::tree::is_parent_z;
use crate::Config;

verus! {

/// The weight of a row.
pub open spec fn weight_at<T>(val: spec_fn(F64) -> Option<T>, weights: Seq<F32>) -> spec_fn(int) -> T {
    |i: int| val(weights[i].spec_widened())->0
}

/// The weight of a row times its label.
pub open spec fn positive_weight_at<T>(
    ring: Ring<T>,
    val: spec_fn(F64) -> Option<T>,
    labels: Seq<u8>,
    weights: Seq<F32>,
) -> spec_fn(int) -> T {
    |i: int| ring.product(val(weights[i].spec_widened())->0, ring.count(labels[i] as int))
}

/// The weights of the rows are exact.
pub open spec fn weights_exact<T>(
    val: spec_fn(F64) -> Option<T>,
    weights: Seq<F32>,
    rows: Seq<int>,
) -> bool {
    forall|i: int| 0 <= i < rows.len() ==> val(weights[#[trigger] rows[i]].spec_widened()) is Some
}

/// `r` is the share of the rows' weight that positives have: times the weight it is the weight
/// of the positives. `w` is the weight, and where that is not positive the share is zero.
pub open spec fn is_positive_share<A: Arith, T>(
    ring: Ring<T>,
    val: spec_fn(F64) -> Option<T>,
    labels: Seq<u8>,
    weights: Seq<F32>,
    rows: Seq<int>,
    w: F64,
    r: F32,
) -> bool {
    let all = ring.total(weight_at(val, weights), rows);
    let pos = ring.total(positive_weight_at(ring, val, labels, weights), rows);
    &&& val(w) is Some ==> val(w)->0 == all
    &&& !F64::zero().lt(w) ==> r == F32::zero()
    &&& F64::zero().lt(w) && val(r.spec_widened()) is Some ==> ring.product(
        val(r.spec_widened())->0,
        all,
    ) == pos
    &&& never_leaves::<A, T>(ring, val) && weights_exact(val, weights, rows) ==> val(w) is Some
    &&& never_leaves::<A, T>(ring, val) && weights_exact(val, weights, rows) && F64::zero().lt(w)
        && all != ring.zero ==> val(r.spec_widened()) is Some
}

/// `e` is the positive share of the rows, shrunk toward the prior as if rows of weight `alpha`
/// with the prior's share were among them: times the weight and `alpha` it is the weight of the
/// positives and `alpha` times the prior.
pub open spec fn is_shrunk_share<A: Arith, T>(
    ring: Ring<T>,
    val: spec_fn(F64) -> Option<T>,
    labels: Seq<u8>,
    weights: Seq<F32>,
    rows: Seq<int>,
    alpha: F32,
    prior: F32,
    e: F32,
) -> bool {
    let (a, p) = (val(alpha.spec_widened()), val(prior.spec_widened()));
    let all = ring.sum_of(ring.total(weight_at(val, weights), rows), a->0);
    let pos = ring.sum_of(
        ring.total(positive_weight_at(ring, val, labels, weights), rows),
        ring.product(a->0, p->0),
    );
    &&& val(e.spec_widened()) is Some ==> ring.product(val(e.spec_widened())->0, all) == pos
    &&& never_leaves::<A, T>(ring, val) && weights_exact(val, weights, rows) && a is Some
        && p is Some && all != ring.zero ==> val(e.spec_widened()) is Some
}

proof fn lemma_weights_total<A: Arith, T>(
    ring: Ring<T>,
    val: spec_fn(F64) -> Option<T>,
    weights: Seq<F32>,
    rows: Seq<int>,
    w: F64,
)
    requires
        stays_exact::<A, T>(ring, val),
        folds(F64::zero(), rows, add_weight::<A>(weights), w),
    ensures
        val(w) is Some ==> val(w)->0 == ring.total(weight_at(val, weights), rows),
        never_leaves::<A, T>(ring, val) && weights_exact(val, weights, rows) ==> val(w) is Some,
{
    let step = add_weight::<A>(weights);
    if val(w) is Some {
        lemma_fold_total(ring, val, rows, step, weight_at(val, weights), w);
    }
    if never_leaves::<A, T>(ring, val) && weights_exact(val, weights, rows) {
        assert forall|i: int, a: F64, b: F64|
            0 <= i < rows.len() && #[trigger] step(rows[i], a, b) && val(a) is Some implies val(b)
            is Some by {
            assert(is_sum::<A>(a, weights[rows[i]].spec_widened(), b));
        }
        lemma_fold_stays(val, F64::zero(), rows, step, w);
    }
}

proof fn lemma_label_step<A: Arith, T>(
    ring: Ring<T>,
    val: spec_fn(F64) -> Option<T>,
    label: u8,
    weight: F32,
    a: F64,
    b: F64,
)
    requires
        stays_exact::<A, T>(ring, val),
        labels_stand(ring, val),
        is_label_added::<A>(label, weight, a, b),
    ensures
        val(b) is Some ==> val(a) is Some && val(b)->0 == ring.sum_of(
            val(a)->0,
            ring.product(val(weight.spec_widened())->0, ring.count(label as int)),
        ),
        never_leaves::<A, T>(ring, val) && val(a) is Some && val(weight.spec_widened()) is Some
            ==> val(b) is Some,
{
    let p = choose|p: F64| #[trigger]
        is_prod::<A>(weight.spec_widened(), F64::of_byte(label), p) && is_sum::<A>(a, p, b);
}

proof fn lemma_positives_total<A: Arith, T>(
    ring: Ring<T>,
    val: spec_fn(F64) -> Option<T>,
    labels: Seq<u8>,
    weights: Seq<F32>,
    rows: Seq<int>,
    w: F64,
)
    requires
        stays_exact::<A, T>(ring, val),
        labels_stand(ring, val),
        folds(F64::zero(), rows, add_weighted_label::<A>(labels, weights), w),
    ensures
        val(w) is Some ==> val(w)->0 == ring.total(
            positive_weight_at(ring, val, labels, weights),
            rows,
        ),
        never_leaves::<A, T>(ring, val) && weights_exact(val, weights, rows) ==> val(w) is Some,
{
    let step = add_weighted_label::<A>(labels, weights);
    let f = positive_weight_at(ring, val, labels, weights);
    if val(w) is Some {
        assert forall|i: int, a: F64, b: F64|
            0 <= i < rows.len() && #[trigger] step(rows[i], a, b) && val(b) is Some implies val(a)
            is Some && val(b)->0 == ring.sum_of(val(a)->0, f(rows[i])) by {
            lemma_label_step::<A, T>(ring, val, labels[rows[i]], weights[rows[i]], a, b);
        }
        lemma_fold_total(ring, val, rows, step, f, w);
    }
    if never_leaves::<A, T>(ring, val) && weights_exact(val, weights, rows) {
        assert forall|i: int, a: F64, b: F64|
            0 <= i < rows.len() && #[trigger] step(rows[i], a, b) && val(a) is Some implies val(b)
            is Some by {
            lemma_label_step::<A, T>(ring, val, labels[rows[i]], weights[rows[i]], a, b);
            assert(val(weights[rows[i]].spec_widened()) is Some);
        }
        lemma_fold_stays(val, F64::zero(), rows, step, w);
    }
}

/// A fold's rate is the positive share of its rows.
pub proof fn lemma_fold_rate_is_share<A: Arith, T>(
    ring: Ring<T>,
    val: spec_fn(F64) -> Option<T>,
    labels: Seq<u8>,
    weights: Seq<F32>,
    rows: Seq<int>,
    r: F32,
) -> (w: F64)
    requires
        ring.obeys_laws(),
        stays_exact::<A, T>(ring, val),
        stays_exact32::<A, T>(ring, val),
        labels_stand(ring, val),
        is_fold_rate::<A>(labels, weights, rows, r),
    ensures
        is_positive_share::<A, T>(ring, val, labels, weights, rows, w, r),
{
    let (num, den) = choose|num: F64, den: F64| #[trigger]
        folds(F64::zero(), rows, add_weighted_label::<A>(labels, weights), num) && #[trigger] folds(
            F64::zero(),
            rows,
            add_weight::<A>(weights),
            den,
        ) && is_rate::<A>(num, den, r);
    lemma_weights_total::<A, T>(ring, val, weights, rows, den);
    lemma_positives_total::<A, T>(ring, val, labels, weights, rows, num);
    if F64::zero().lt(den) {
        let q = choose|q: F64| #[trigger] is_quot::<A>(num, den, q) && is_narrow::<A>(q, r);
    }
    den
}

/// The weighted rate is the positive share of all rows that have a label and a weight.
pub proof fn lemma_weighted_rate_is_share<A: Arith, T>(
    ring: Ring<T>,
    val: spec_fn(F64) -> Option<T>,
    labels: Seq<u8>,
    weights: Seq<F32>,
    r: F32,
) -> (w: F64)
    requires
        ring.obeys_laws(),
        stays_exact::<A, T>(ring, val),
        stays_exact32::<A, T>(ring, val),
        labels_stand(ring, val),
        is_weighted_rate::<A>(labels, weights, r),
    ensures
        is_positive_share::<A, T>(
            ring,
            val,
            labels,
            weights,
            Seq::new(
                if labels.len() < weights.len() {
                    labels.len()
                } else {
                    weights.len()
                },
                |i: int| i,
            ),
            w,
            r,
        ),
{
    let n = min_int(labels.len() as int, weights.len() as int);
    let (num, den) = choose|num: F64, den: F64| #[trigger]
        are_rate_sums::<A>(labels, weights, n as nat, num, den) && is_rate::<A>(num, den, r);
    let rows = all_rows(n);
    lemma_runs_fold(F64::zero(), n as nat, add_weighted_label::<A>(labels, weights), num);
    lemma_runs_fold(F64::zero(), n as nat, add_weight::<A>(weights), den);
    assert(is_fold_rate::<A>(labels, weights, rows, r));
    assert(rows =~= Seq::new(
        if labels.len() < weights.len() {
            labels.len()
        } else {
            weights.len()
        },
        |i: int| i,
    ));
    lemma_fold_rate_is_share::<A, T>(ring, val, labels, weights, rows, r)
}

/// A run through the first rows is a fold over them.
proof fn lemma_runs_fold(init: F64, n: nat, step: spec_fn(int, F64, F64) -> bool, x: F64)
    requires
        runs(init, n, step, x),
    ensures
        folds(init, all_rows(n as int), step, x),
{
    let rows = all_rows(n as int);
    let by_item = item_step(rows, step);
    assert forall|i: int, a: F64, b: F64| 0 <= i < n && #[trigger] step(i, a, b) implies by_item(
        i,
        a,
        b,
    ) by {
        assert(rows[i] == i);
    }
    lemma_runs_agree(init, n, step, by_item, x);
}

proof fn lemma_target_enc_shrinks<A: Arith, T>(
    ring: Ring<T>,
    val: spec_fn(F64) -> Option<T>,
    codes: Seq<i64>,
    labels: Seq<u8>,
    weights: Seq<F32>,
    rows: Seq<int>,
    alpha: F32,
    prior: F32,
    c: i64,
    e: F32,
)
    requires
        ring.obeys_laws(),
        stays_exact::<A, T>(ring, val),
        stays_exact32::<A, T>(ring, val),
        labels_stand(ring, val),
        is_target_enc::<A>(codes, labels, weights, rows, alpha, prior, c, e),
    ensures
        is_shrunk_share::<A, T>(
            ring,
            val,
            labels,
            weights,
            rows.filter(|i: int| codes[i] == c),
            alpha,
            prior,
            e,
        ),
{
    let own = rows.filter(|i: int| codes[i] == c);
    lemma_filter_agree(rows, carries(codes, c), |i: int| codes[i] == c);
    let (wy, ws) = choose|wy: F64, ws: F64| #[trigger]
        are_category_sums::<A>(codes, labels, weights, rows, c, wy, ws) && is_smoothed::<A>(
            wy,
            ws,
            alpha,
            prior,
            e,
        );
    lemma_weights_total::<A, T>(ring, val, weights, own, ws);
    lemma_positives_total::<A, T>(ring, val, labels, weights, own, wy);
    let a = alpha.spec_widened();
    let (p, num, den, v) = choose|p: F64, num: F64, den: F64, v: F64| #[trigger]
        is_prod::<A>(a, prior.spec_widened(), p) && #[trigger] is_sum::<A>(wy, p, num)
            && #[trigger] is_sum::<A>(ws, a, den) && #[trigger] is_quot::<A>(num, den, v)
            && is_narrow::<A>(v, e);
}

/// A category occurs among the rows, and is not the missing one.
pub open spec fn occurs(codes: Seq<i64>, rows: Seq<int>, c: i64) -> bool {
    c != MISSING_CAT && exists|i: int| 0 <= i < rows.len() && codes[#[trigger] rows[i]] == c
}

proof fn lemma_seen_occurs(codes: Seq<i64>, rows: Seq<int>, c: i64)
    ensures
        is_seen(codes, rows, c) <==> occurs(codes, rows, c),
        rows_with(codes, rows, c) == rows.filter(|i: int| codes[i] == c),
{
    let own = rows_with(codes, rows, c);
    lemma_filter_agree(rows, carries(codes, c), |i: int| codes[i] == c);
    lemma_filter_props(rows, carries(codes, c));
    if own.len() > 0 {
        assert(carries(codes, c)(own[0]));
        assert(rows.contains(own[0]));
    }
    if exists|i: int| 0 <= i < rows.len() && codes[#[trigger] rows[i]] == c {
        let i = choose|i: int| 0 <= i < rows.len() && codes[#[trigger] rows[i]] == c;
        assert(carries(codes, c)(rows[i]));
        assert(own.contains(rows[i]));
    }
}

/// The maps of a high-card feature hold every category that occurs, with the number of its rows
/// and their positive share shrunk toward the prior, whatever their labels.
pub proof fn lemma_target_maps_shrink<A: Arith, T>(
    ring: Ring<T>,
    val: spec_fn(F64) -> Option<T>,
    codes: Seq<i64>,
    labels: Seq<u8>,
    weights: Seq<F32>,
    rows: Seq<int>,
    alpha: F32,
    prior: F32,
    enc: Map<i64, F32>,
    cnt: Map<i64, u32>,
    c: i64,
)
    requires
        ring.obeys_laws(),
        stays_exact::<A, T>(ring, val),
        stays_exact32::<A, T>(ring, val),
        labels_stand(ring, val),
        are_target_maps::<A>(codes, labels, weights, rows, alpha, prior, enc, cnt),
    ensures
        enc.contains_key(c) <==> occurs(codes, rows, c),
        cnt.contains_key(c) <==> occurs(codes, rows, c),
        occurs(codes, rows, c) ==> cnt[c] == rows.filter(|i: int| codes[i] == c).len(),
        occurs(codes, rows, c) ==> is_shrunk_share::<A, T>(
            ring,
            val,
            labels,
            weights,
            rows.filter(|i: int| codes[i] == c),
            alpha,
            prior,
            enc[c],
        ),
{
    lemma_seen_occurs(codes, rows, c);
    if is_seen(codes, rows, c) {
        lemma_target_enc_shrinks::<A, T>(
            ring,
            val,
            codes,
            labels,
            weights,
            rows,
            alpha,
            prior,
            c,
            enc[c],
        );
    }
}

/// The rows of the folds that row `i` is not in.
pub open spec fn other_folds(n: int, nf: int, i: int) -> Seq<int> {
    Seq::new(n as nat, |k: int| k).filter(|k: int| k % nf != i % nf)
}

/// `enc` and `cnt` are what `rows` tell of category `c`: their positive share shrunk toward the
/// prior, and `ln(1 + n)` of their number; the prior where they tell nothing.
pub open spec fn is_told_by<A: Arith, T>(
    ring: Ring<T>,
    val: spec_fn(F64) -> Option<T>,
    codes: Seq<i64>,
    labels: Seq<u8>,
    weights: Seq<F32>,
    rows: Seq<int>,
    alpha: F32,
    prior: F32,
    c: i64,
    enc: F32,
    cnt: F32,
) -> bool {
    let own = rows.filter(|i: int| codes[i] == c);
    &&& if occurs(codes, rows, c) {
        is_shrunk_share::<A, T>(ring, val, labels, weights, own, alpha, prior, enc)
    } else {
        enc == prior
    }
    &&& if c == MISSING_CAT {
        cnt == F32::zero()
    } else {
        is_ln_1p32::<A>(own.len() as u32, cnt)
    }
}

/// A training row's encoding is what the rows of the other folds tell of its category, with
/// their positive share as the prior.
pub proof fn lemma_out_of_fold_shrinks<A: Arith, T>(
    ring: Ring<T>,
    val: spec_fn(F64) -> Option<T>,
    codes: Seq<i64>,
    labels: Seq<u8>,
    weights: Seq<F32>,
    nf: int,
    alpha: F32,
    i: int,
    enc: F32,
    cnt: F32,
) -> (r: (F32, F64))
    requires
        ring.obeys_laws(),
        stays_exact::<A, T>(ring, val),
        stays_exact32::<A, T>(ring, val),
        labels_stand(ring, val),
        is_out_of_fold_enc::<A>(codes, labels, weights, nf, alpha, i, enc, cnt),
    ensures
        is_positive_share::<A, T>(
            ring,
            val,
            labels,
            weights,
            other_folds(codes.len() as int, nf, i),
            r.1,
            r.0,
        ),
        is_told_by::<A, T>(
            ring,
            val,
            codes,
            labels,
            weights,
            other_folds(codes.len() as int, nf, i),
            alpha,
            r.0,
            codes[i],
            enc,
            cnt,
        ),
{
    let n = codes.len() as int;
    let rows = other_folds(n, nf, i);
    lemma_filter_agree(all_rows(n), outside_fold(nf, i % nf), |k: int| k % nf != i % nf);
    assert(out_of_fold(n, nf, i % nf) == rows);
    let prior = choose|prior: F32| #[trigger]
        is_fold_rate::<A>(labels, weights, rows, prior) && is_encoded_from::<A>(
            codes,
            labels,
            weights,
            rows,
            alpha,
            prior,
            i,
            enc,
            cnt,
        );
    let w = lemma_fold_rate_is_share::<A, T>(ring, val, labels, weights, rows, prior);
    let c = codes[i];
    lemma_seen_occurs(codes, rows, c);
    if is_seen(codes, rows, c) {
        lemma_target_enc_shrinks::<A, T>(
            ring,
            val,
            codes,
            labels,
            weights,
            rows,
            alpha,
            prior,
            c,
            enc,
        );
    }
    (prior, w)
}

/// What fitting makes of a high-card feature. For scoring, every category that occurs has the
/// positive share of its rows, shrunk toward that of all rows, and its count, and the others
/// have the prior; a training row has what the other folds tell of its category.
pub proof fn lemma_highcard_fit_shrinks<A: Arith, T>(
    ring: Ring<T>,
    val: spec_fn(F64) -> Option<T>,
    train: Dataset,
    cfg: Config,
    prior: F32,
    encoders: Encoders,
    matrix: EncodedMatrix,
    fi: int,
    c: i64,
    i: int,
) -> (r: (F64, F32, F64))
    requires
        ring.obeys_laws(),
        stays_exact::<A, T>(ring, val),
        stays_exact32::<A, T>(ring, val),
        labels_stand(ring, val),
        is_fit::<A>(train, cfg, prior, encoders, matrix),
        0 <= fi < train.columns.len(),
        train.schema.kinds[fi] is HighCardCat,
        0 <= i < train.columns[fi]->Categorical_0.len(),
    ensures
        is_positive_share::<A, T>(
            ring,
            val,
            train.labels@,
            train.weights@,
            Seq::new(
                if train.labels.len() < train.weights.len() {
                    train.labels@.len()
                } else {
                    train.weights@.len()
                },
                |k: int| k,
            ),
            r.0,
            prior,
        ),
        ({
            let e = encoders.features[fi]->HighCard_0;
            let codes = train.columns[fi]->Categorical_0@;
            let rows = Seq::new(codes.len(), |k: int| k);
            let own = rows.filter(|k: int| codes[k] == c);
            &&& encoders.features[fi] is HighCard
            &&& train.columns[fi] is Categorical
            &&& if occurs(codes, rows, c) {
                &&& is_shrunk_share::<A, T>(
                    ring,
                    val,
                    train.labels@,
                    train.weights@,
                    own,
                    cfg.alpha,
                    prior,
                    e.spec_enc_of(c),
                )
                &&& e.count@.contains_key(c)
                &&& e.count@[c] == own.len()
            } else {
                &&& e.spec_enc_of(c) == prior
                &&& !e.count@.contains_key(c)
            }
        }),
        ({
            let codes = train.columns[fi]->Categorical_0@;
            let nf = if cfg.n_folds < 2 {
                2
            } else {
                cfg.n_folds as int
            };
            &&& matrix.cols[fi] is HighCard
            &&& is_positive_share::<A, T>(
                ring,
                val,
                train.labels@,
                train.weights@,
                other_folds(codes.len() as int, nf, i),
                r.2,
                r.1,
            )
            &&& is_told_by::<A, T>(
                ring,
                val,
                codes,
                train.labels@,
                train.weights@,
                other_folds(codes.len() as int, nf, i),
                cfg.alpha,
                r.1,
                codes[i],
                matrix.cols[fi]->enc[i],
                matrix.cols[fi]->cnt[i],
            )
        }),
{
    assert(is_fitted::<A>(
        train,
        cfg,
        prior,
        fi,
        layout_start(encoders.features@, fi),
        encoders.features[fi],
        matrix.cols[fi],
    ));
    let e = encoders.features[fi]->HighCard_0;
    let codes = train.columns[fi]->Categorical_0@;
    let (labels, weights) = (train.labels@, train.weights@);
    let w = lemma_weighted_rate_is_share::<A, T>(ring, val, labels, weights, prior);
    let nf = max_int(cfg.n_folds as int, 2);
    let rows = all_rows(codes.len() as int);
    assert(rows == Seq::new(codes.len(), |k: int| k));
    lemma_target_maps_shrink::<A, T>(
        ring,
        val,
        codes,
        labels,
        weights,
        rows,
        cfg.alpha,
        prior,
        e.enc@,
        e.count@,
        c,
    );
    let (enc, cnt) = (matrix.cols[fi]->enc[i], matrix.cols[fi]->cnt[i]);
    assert(is_out_of_fold_enc::<A>(codes, labels, weights, nf, cfg.alpha, i, enc, cnt));
    let (rate, v) = lemma_out_of_fold_shrinks::<A, T>(
        ring,
        val,
        codes,
        labels,
        weights,
        nf,
        cfg.alpha,
        i,
        enc,
        cnt,
    );
    (w, rate, v)
}

/// Sums over the first rows that were computed exactly are those of the rows.
pub proof fn lemma_rate_sums_total<A: Arith, T>(
    ring: Ring<T>,
    val: spec_fn(F64) -> Option<T>,
    labels: Seq<u8>,
    weights: Seq<F32>,
    n: nat,
    num: F64,
    den: F64,
)
    requires
        stays_exact::<A, T>(ring, val),
        labels_stand(ring, val),
        are_rate_sums::<A>(labels, weights, n, num, den),
    ensures
        val(num) is Some ==> val(num)->0 == ring.sum_to(
            positive_weight_at(ring, val, labels, weights),
            n as int,
        ),
        val(den) is Some ==> val(den)->0 == ring.sum_to(weight_at(val, weights), n as int),
{
    if val(den) is Some {
        lemma_run_total(ring, val, n, add_weight::<A>(weights), weight_at(val, weights), den);
    }
    if val(num) is Some {
        let step = add_weighted_label::<A>(labels, weights);
        let f = positive_weight_at(ring, val, labels, weights);
        assert forall|i: int, a: F64, b: F64|
            0 <= i < n && #[trigger] step(i, a, b) && val(b) is Some implies val(a) is Some
            && val(b)->0 == ring.sum_of(val(a)->0, f(i)) by {
            lemma_label_step::<A, T>(ring, val, labels[i], weights[i], a, b);
        }
        lemma_run_total(ring, val, n, step, f, num);
    }
}

/// The weight of a basis entry times the knot of its slot.
pub open spec fn knot_share<T>(
    ring: Ring<T>,
    val: spec_fn(F64) -> Option<T>,
    knots: Seq<F32>,
    off: int,
) -> spec_fn((u32, F32)) -> T {
    |e: (u32, F32)|
        ring.product(val(e.1.spec_widened())->0, val(knots[e.0 - off].spec_widened())->0)
}

/// The basis of a number gives it back: every entry has the slot of a knot, the weights sum to
/// one, and the knots in these weights give the number, kept between the first knot and the
/// last. A missing number has the reserved slot instead, with weight one.
pub proof fn lemma_basis_gives_value_back<A: Arith, T>(
    ring: Ring<T>,
    val: spec_fn(F64) -> Option<T>,
    knots: Seq<F32>,
    off: int,
    v: F32,
    e: Seq<(u32, F32)>,
)
    requires
        ring.obeys_laws(),
        stays_exact32::<A, T>(ring, val),
        knots.len() > 0,
        0 <= off,
        off + knots.len() <= u32::MAX,
        is_numeric_basis::<A>(knots, off, v, e),
        forall|i: int| 0 <= i < e.len() ==> val((#[trigger] e[i]).1.spec_widened()) is Some,
    ensures
        v.spec_is_nan() ==> e.len() == 1 && e[0].0 == off + knots.len() && e[0].1 == F32::one(),
        !v.spec_is_nan() ==> forall|i: int|
            0 <= i < e.len() ==> off <= (#[trigger] e[i]).0 < off + knots.len(),
        ring.total(|x: (u32, F32)| val(x.1.spec_widened())->0, e) == ring.one,
        !v.spec_is_nan() ==> ring.total(knot_share(ring, val, knots, off), e) == if v.le(knots[0])
            || knots.len() == 1 {
            val(knots[0].spec_widened())->0
        } else if knots.last().le(v) {
            val(knots.last().spec_widened())->0
        } else {
            val(v.spec_widened())->0
        },
        !v.spec_is_nan() && knots.len() > 1 && !v.le(knots[0]) && !knots.last().le(v) ==> e.len()
            == 2 && e[1].0 == e[0].0 + 1 && knots[e[0].0 - off].le(v) && v.lt(
            knots[e[1].0 - off],
        ),
{
    let w = |x: (u32, F32)| val(x.1.spec_widened())->0;
    let f = knot_share(ring, val, knots, off);
    reveal_with_fuel(Ring::total, 3);
    if v.spec_is_nan() {
        assert(e[0] == ((off + knots.len()) as u32, F32::one()));
        ring.lemma_sum_with_zero(ring.one);
    } else if knots.len() == 1 || v.le(knots[0]) {
        assert(e[0] == (off as u32, F32::one()));
        ring.lemma_sum_with_zero(ring.one);
        ring.lemma_sum_with_zero(f(e[0]));
        ring.lemma_product_with_one(val(knots[0].spec_widened())->0);
    } else if knots.last().le(v) {
        assert(e[0] == ((off + knots.len() - 1) as u32, F32::one()));
        ring.lemma_sum_with_zero(ring.one);
        ring.lemma_sum_with_zero(f(e[0]));
        ring.lemma_product_with_one(val(knots.last().spec_widened())->0);
    } else {
        let j = choose|j: int| #[trigger] are_bracket_entries::<A>(knots, off, v, j, e);
        assert(val(e[0].1.spec_widened()) is Some);
        lemma_bracket_interpolates::<A, T>(ring, val, knots, off, v, j, e);
        assert(e.drop_last()[0] == e[0]);
        ring.lemma_sum_with_zero(w(e[0]));
        ring.lemma_sum_with_zero(f(e[0]));
    }
}

/// The position of the `i`-th of `k` equally spaced quantiles among `n` sorted values: the share
/// `i / (k - 1)` of `n - 1`, rounded, and at most the last.
pub open spec fn is_quantile_place<A: Arith, T>(
    ring: Ring<T>,
    val: spec_fn(F64) -> Option<T>,
    i: int,
    k: int,
    n: int,
    at: int,
) -> bool {
    exists|p: F64, r: F64, j: usize|
        {
            &&& val(p) is Some ==> ring.product(
                val(p)->0,
                ring.difference(ring.count(k), ring.one),
            ) == ring.product(ring.count(i), ring.difference(ring.count(n), ring.one))
            &&& #[trigger] is_round::<A>(p, r)
            &&& #[trigger] is_index::<A>(r, j)
            &&& at == if j < n {
                j as int
            } else {
                n - 1
            }
        }
}

/// `x` is at place `at` of the sorted values: at most `at` values are less, and more than `at`
/// are not greater.
pub open spec fn is_value_at(values: Seq<F32>, at: int, x: F32) -> bool {
    &&& values.contains(x)
    &&& sum_to(
        |i: int|
            if values[i].lt(x) {
                1int
            } else {
                0
            },
        values.len() as int,
    ) <= at
    &&& at < sum_to(
        |i: int|
            if values[i].le(x) {
                1int
            } else {
                0
            },
        values.len() as int,
    )
}

proof fn lemma_quantile_place<A: Arith, T>(
    ring: Ring<T>,
    val: spec_fn(F64) -> Option<T>,
    i: int,
    k: int,
    n: int,
    at: int,
)
    requires
        ring.obeys_laws(),
        stays_exact::<A, T>(ring, val),
        converts_exactly::<A, T>(ring, val),
        0 <= i,
        0 <= k,
        0 < n,
        is_knot_position::<A>(i, k, n, at),
    ensures
        is_quantile_place::<A, T>(ring, val, i, k, n, at),
{
    let q = choose|q: F64| #[trigger]
        is_quantile::<A>(i, k, q) && is_quantile_position::<A>(q, n, at);
    let (x, y, d) = choose|x: F64, y: F64, d: F64| #[trigger]
        is_int::<A>(i, x) && #[trigger] is_int::<A>(k, y) && #[trigger] is_diff::<A>(
            y,
            F64::one(),
            d,
        ) && is_quot::<A>(x, d, q);
    let (c, m, p, r, j) = choose|c: F64, m: F64, p: F64, r: F64, j: usize| #[trigger]
        is_int::<A>(n, c) && #[trigger] is_diff::<A>(c, F64::one(), m) && #[trigger] is_prod::<A>(
            q,
            m,
            p,
        ) && #[trigger] is_round::<A>(p, r) && #[trigger] is_index::<A>(r, j) && at == min_int(
            j as int,
            n - 1,
        );
    if val(p) is Some {
        let (qv, mv, dv) = (val(q)->0, val(m)->0, val(d)->0);
        ring.lemma_product_commutes(ring.product(qv, mv), dv);
        ring.lemma_factors_move(dv, qv, mv);
        ring.lemma_product_commutes(mv, ring.product(dv, qv));
        ring.lemma_product_commutes(qv, dv);
        ring.lemma_product_associates(dv, qv, mv);
        assert(ring.product(val(p)->0, dv) == ring.product(val(x)->0, mv));
    }
}

proof fn lemma_sorted_value(v: Seq<F32>, s: Seq<F32>, at: int)
    requires
        is_sorted_copy(v, s),
        0 <= at < v.len() <= usize::MAX,
        forall|i: int| 0 <= i < v.len() ==> !(#[trigger] v[i]).spec_is_nan(),
    ensures
        is_value_at(v, at, s[at]),
{
    let n = v.len() as int;
    let keys = value_keys(v);
    let order = choose|order: Seq<usize>| #[trigger]
        orders(keys, 0, n, order) && s == order.map_values(|p: usize| v[p as int]);
    let x = s[at];
    assert(0 <= order[at] < n);
    assert(x == v[order[at] as int]);
    let less = |i: int|
        if v[i].lt(x) {
            1int
        } else {
            0
        };
    let upto = |i: int|
        if v[i].le(x) {
            1int
        } else {
            0
        };
    let less_at = |k: int| less(order[k] as int);
    let upto_at = |k: int| upto(order[k] as int);
    assert forall|i: int, j: int| 0 <= i < j < order.len() implies #[trigger] order[i]
        != #[trigger] order[j] && v[order[i] as int].le(v[order[j] as int]) by {
        assert(before(keys, order[i] as int, order[j] as int));
        assert(0 <= order[i] < n && 0 <= order[j] < n);
        assert(!v[order[i] as int].spec_is_nan() && !v[order[j] as int].spec_is_nan());
        assert(keys[order[i] as int] == v[order[i] as int].key() as u128);
        assert(keys[order[j] as int] == v[order[j] as int].key() as u128);
    }
    lemma_sum_permuted(less, less_at, order, n);
    lemma_sum_permuted(upto, upto_at, order, n);
    assert forall|k: int| at <= k < n implies #[trigger] less_at(k) == 0 by {
        if at < k {
            assert(order[at] != order[k]);
        }
    }
    assert forall|k: int| 0 <= k < at + 1 implies 1 <= #[trigger] upto_at(k) by {
        assert(0 <= order[k] < n);
        assert(!v[order[k] as int].spec_is_nan());
        if k < at {
            assert(order[k] != order[at]);
        }
    }
    lemma_sum_at_most(less_at, n, at);
    lemma_sum_at_least(upto_at, n, at + 1);
}

/// The value at `i` exceeds all values before it.
pub open spec fn exceeds_before(vals: Seq<F32>, i: int) -> bool {
    forall|j: int| 0 <= j < i ==> (#[trigger] vals[j]).lt(vals[i])
}

proof fn lemma_rising_keeps(vals: Seq<F32>)
    requires
        forall|i: int| 0 <= i < vals.len() ==> !(#[trigger] vals[i]).spec_is_nan(),
    ensures
        vals.len() > 0 ==> rising(vals).len() > 0,
        forall|i: int| 0 <= i < vals.len() ==> (#[trigger] vals[i]).le(rising(vals).last()),
        forall|i: int| 0 <= i < rising(vals).len() ==> vals.contains(#[trigger] rising(vals)[i]),
    decreases vals.len(),
{
    if vals.len() > 0 {
        let front = vals.drop_last();
        let (kept, all) = (rising(front), rising(vals));
        assert forall|i: int| 0 <= i < front.len() implies !(#[trigger] front[i]).spec_is_nan() by {
            assert(front[i] == vals[i]);
        }
        lemma_rising_keeps(front);
        assert(!vals[vals.len() - 1].spec_is_nan());
        if kept.len() > 0 {
            assert(front.contains(kept[kept.len() - 1]));
            let p = choose|p: int| 0 <= p < front.len() && front[p] == kept[kept.len() - 1];
            assert(!front[p].spec_is_nan());
        }
        assert forall|i: int| 0 <= i < vals.len() implies (#[trigger] vals[i]).le(all.last()) by {
            if i < front.len() {
                assert(front[i].le(kept.last()));
            }
        }
        assert forall|i: int| 0 <= i < all.len() implies vals.contains(#[trigger] all[i]) by {
            if i < kept.len() {
                assert(all[i] == kept[i]);
                assert(front.contains(kept[i]));
                let p = choose|p: int| 0 <= p < front.len() && front[p] == kept[i];
                assert(vals[p] == all[i]);
            } else {
                assert(vals[vals.len() - 1] == all[i]);
            }
        }
    }
}

proof fn lemma_rising_holds(vals: Seq<F32>, i: int)
    requires
        forall|i: int| 0 <= i < vals.len() ==> !(#[trigger] vals[i]).spec_is_nan(),
        0 <= i < vals.len(),
        exceeds_before(vals, i),
    ensures
        rising(vals).contains(vals[i]),
    decreases vals.len(),
{
    let front = vals.drop_last();
    let (kept, all) = (rising(front), rising(vals));
    assert forall|j: int| 0 <= j < front.len() implies !(#[trigger] front[j]).spec_is_nan() by {
        assert(front[j] == vals[j]);
    }
    lemma_rising_keeps(front);
    if i < front.len() {
        assert(front[i] == vals[i]);
        assert forall|j: int| 0 <= j < i implies (#[trigger] front[j]).lt(front[i]) by {
            assert(vals[j].lt(vals[i]));
        }
        lemma_rising_holds(front, i);
        let p = choose|p: int| 0 <= p < kept.len() && kept[p] == front[i];
        assert(all[p] == vals[i]);
    } else {
        if kept.len() > 0 {
            assert(front.contains(kept[kept.len() - 1]));
            let p = choose|p: int| 0 <= p < front.len() && front[p] == kept[kept.len() - 1];
            assert(vals[p].lt(vals[i]));
        }
        assert(all[all.len() - 1] == vals[i]);
    }
}

/// Quantile knots are quantiles: among the finite values, the `i`-th pick is at the place of the
/// `i`-th of `k` equally spaced quantiles, at least two; the knots are the picks that exceed all
/// picks before. There is one knot, zero, where no value is finite.
pub proof fn lemma_knots_are_quantiles<A: Arith, T>(
    ring: Ring<T>,
    val: spec_fn(F64) -> Option<T>,
    values: Seq<F32>,
    k: int,
    knots: Seq<F32>,
) -> (found: (Seq<F32>, Seq<int>))
    requires
        ring.obeys_laws(),
        stays_exact::<A, T>(ring, val),
        converts_exactly::<A, T>(ring, val),
        values.len() <= usize::MAX,
        are_quantile_knots::<A>(values, k, knots),
    ensures
        ({
            let (picks, places) = found;
            let m = if k < 2 {
                2
            } else {
                k
            };
            let finite = values.filter(|x: F32| x.spec_is_finite());
            if finite.len() == 0 {
                knots == seq![F32::zero()]
            } else {
                &&& picks.len() == m
                &&& places.len() == m
                &&& forall|i: int|
                    0 <= i < m ==> is_quantile_place::<A, T>(
                        ring,
                        val,
                        i,
                        m,
                        finite.len() as int,
                        #[trigger] places[i],
                    )
                &&& forall|i: int|
                    0 <= i < m ==> is_value_at(finite, places[i], #[trigger] picks[i])
                &&& forall|i: int| 0 <= i < knots.len() ==> picks.contains(#[trigger] knots[i])
                &&& forall|i: int|
                    0 <= i < m && exceeds_before(picks, i) ==> knots.contains(#[trigger] picks[i])
            }
        }),
{
    let finite = finite_values(values);
    let pred = |x: F32| x.spec_is_finite();
    lemma_filter_agree(values, pred, |x: F32| x.spec_is_finite());
    lemma_filter_props(values, pred);
    let n = finite.len() as int;
    if n > 0 {
        let m = max_int(k, 2);
        let (s, idx) = choose|s: Seq<F32>, idx: Seq<int>| #[trigger]
            is_sorted_copy(finite, s) && #[trigger] are_knot_positions::<A>(m, n, idx) && knots
                == rising(picked(s, idx));
        let picks = picked(s, idx);
        assert forall|i: int| 0 <= i < n implies !(#[trigger] finite[i]).spec_is_nan() by {
            assert(pred(finite[i]));
        }
        assert forall|i: int| 0 <= i < m implies is_quantile_place::<A, T>(
            ring,
            val,
            i,
            m,
            n,
            #[trigger] idx[i],
        ) && is_value_at(finite, idx[i], picks[i]) by {
            assert(is_knot_position::<A>(i, m, n, idx[i]));
            lemma_quantile_place::<A, T>(ring, val, i, m, n, idx[i]);
            assert(0 <= idx[i] < n);
            lemma_sorted_value(finite, s, idx[i]);
        }
        assert forall|i: int| 0 <= i < picks.len() implies !(#[trigger] picks[i]).spec_is_nan() by {
            assert(is_value_at(finite, idx[i], picks[i]));
            assert(finite.contains(picks[i]));
        }
        assert forall|i: int| 0 <= i < m implies is_value_at(
            finite,
            idx[i],
            #[trigger] picks[i],
        ) by {
            assert(is_quantile_place::<A, T>(ring, val, i, m, n, idx[i]));
        }
        lemma_rising_keeps(picks);
        assert forall|i: int| 0 <= i < m && exceeds_before(picks, i) implies knots.contains(
            #[trigger] picks[i],
        ) by {
            lemma_rising_holds(picks, i);
        }
        (picks, idx)
    } else {
        (Seq::empty(), Seq::empty())
    }
}

/// The normalized value of a number is where it lies between the first knot and the last, from
/// zero to one: `t (hi - lo) = v - lo`, kept there; zero where the knots span nothing, or where
/// the number is missing.
pub proof fn lemma_normalized_is_position<A: Arith, T>(
    ring: Ring<T>,
    val: spec_fn(F64) -> Option<T>,
    knots: Seq<F32>,
    v: F32,
    z: F64,
) -> (t: F32)
    requires
        ring.obeys_laws(),
        stays_exact32::<A, T>(ring, val),
        is_parent_z::<A>(knots, v, z),
    ensures
        ({
            let (lo, hi) = (knots[0], knots[knots.len() - 1]);
            if v.spec_is_nan() || hi.le(lo) {
                z == F64::zero()
            } else {
                &&& is_kept_inside(t.spec_widened(), F64::zero(), F64::one(), z)
                &&& val(t.spec_widened()) is Some ==> ring.product(
                    val(t.spec_widened())->0,
                    ring.difference(val(hi.spec_widened())->0, val(lo.spec_widened())->0),
                ) == ring.difference(val(v.spec_widened())->0, val(lo.spec_widened())->0)
            }
        }),
{
    let (lo, hi) = (knots[0], knots[knots.len() - 1]);
    if v.spec_is_nan() || hi.le(lo) {
        v
    } else {
        let t = choose|t: F32| #[trigger]
            is_interpolation::<A>(lo, hi, v, t) && z == t.spec_widened().spec_clamped(
                F64::zero(),
                F64::one(),
            );
        let (a, b) = choose|a: F32, b: F32| #[trigger]
            is_diff32::<A>(v, lo, a) && #[trigger] is_diff32::<A>(hi, lo, b) && is_quot32::<A>(
                a,
                b,
                t,
            );
        t
    }
}

proof fn lemma_distinct_prefix(raw: Seq<i64>, q: int)
    requires
        0 <= q <= raw.len(),
    ensures
        distinct(raw.take(q)).len() <= distinct(raw).len(),
        forall|i: int|
            0 <= i < distinct(raw.take(q)).len() ==> #[trigger] distinct(raw)[i] == distinct(
                raw.take(q),
            )[i],
    decreases raw.len(),
{
    if q < raw.len() {
        let front = raw.drop_last();
        lemma_distinct_prefix(front, q);
        assert(front.take(q) =~= raw.take(q));
        let (d, all) = (distinct(front), distinct(raw));
        assert forall|i: int| 0 <= i < distinct(raw.take(q)).len() implies #[trigger] all[i]
            == distinct(raw.take(q))[i] by {
            assert(all[i] == d[i]);
        }
    } else {
        assert(raw.take(q) =~= raw);
    }
}

/// Ids follow first appearance: a category that appears for the first time after another has the
/// greater id.
pub proof fn lemma_ids_follow_first_appearance(e: BoundedCatEnc, raw: Seq<i64>, p: int, q: int)
    requires
        numbers(e.vocab@, distinct(raw)),
        0 <= p < q < raw.len(),
        raw[p] != MISSING_CAT,
        raw[q] != MISSING_CAT,
        !raw.take(q).contains(raw[q]),
    ensures
        e.spec_code_of(raw[p]) < e.spec_code_of(raw[q]),
{
    let (some, more) = (raw.take(q), raw.take(q + 1));
    let (d, all) = (distinct(some), distinct(raw));
    assert(more.drop_last() =~= some);
    assert(more.last() == raw[q]);
    assert(some[p] == raw[p]);
    lemma_distinct_holds(some, raw[p]);
    lemma_distinct_holds(some, raw[q]);
    assert(distinct(more) == d.push(raw[q]));
    lemma_distinct_prefix(raw, q + 1);
    let n = d.len() as int;
    assert(distinct(more)[n] == raw[q]);
    assert(all[n] == raw[q]);
    assert(e.vocab@[all[n]] == n);
    assert(all.contains(all[n]));
    let x = choose|x: int| 0 <= x < d.len() && d[x] == raw[p];
    assert(distinct(more)[x] == raw[p]);
    assert(all[x] == raw[p]);
    assert(e.vocab@[all[x]] == x);
    assert(all.contains(all[x]));
}

/// Encoding a dataset uses the full-data maps: numbers stay as they are; a bounded category gets
/// its id, the first after the vocabulary where it is missing, and the second where it is
/// unknown; a high-card category gets its encoding, or the prior, and the logarithm of one plus
/// its count, or zero where it is missing.
pub proof fn lemma_transform_uses_maps<A: Arith>(
    encoders: Encoders,
    ds: Dataset,
    m: EncodedMatrix,
    i: int,
    r: int,
)
    requires
        is_transform::<A>(encoders, ds, m),
        0 <= i < encoders.features.len(),
        0 <= r < ds.columns[i].rows(),
    ensures
        m.n_rows == ds.labels.len(),
        m.cols.len() == encoders.features.len(),
        match (encoders.features[i], ds.columns[i], m.cols[i]) {
            (FeatureEncoder::Numeric(_), Column::Numeric(raw), EncCol::Num(v)) => v[r] == raw[r],
            (FeatureEncoder::BoundedCat(e), Column::Categorical(raw), EncCol::Cat(codes)) => {
                let c = raw[r];
                &&& c == MISSING_CAT ==> codes[r] == e.n_vocab
                &&& c != MISSING_CAT && e.vocab@.contains_key(c) ==> codes[r] == e.vocab@[c]
                &&& c != MISSING_CAT && !e.vocab@.contains_key(c) ==> codes[r] == e.n_vocab + 1
            },
            (
                FeatureEncoder::HighCard(e),
                Column::Categorical(raw),
                EncCol::HighCard { enc, cnt },
            ) => {
                let c = raw[r];
                let known = c != MISSING_CAT && e.enc@.contains_key(c);
                &&& known ==> enc[r] == e.enc@[c]
                &&& !known ==> enc[r] == e.prior
                &&& c == MISSING_CAT ==> cnt[r] == F32::zero()
                &&& c != MISSING_CAT && e.count@.contains_key(c) ==> is_ln_1p32::<A>(
                    e.count@[c],
                    cnt[r],
                )
                &&& c != MISSING_CAT && !e.count@.contains_key(c) ==> is_ln_1p32::<A>(0, cnt[r])
            },
            _ => false,
        },
{
    assert(is_transformed::<A>(encoders.features[i], ds.columns[i], m.cols[i]));
    match (encoders.features[i], ds.columns[i], m.cols[i]) {
        (FeatureEncoder::BoundedCat(e), Column::Categorical(raw), EncCol::Cat(codes)) => {
            assert(codes[r] == e.spec_code_of(raw[r]));
        },
        (
            FeatureEncoder::HighCard(e),
            Column::Categorical(raw),
            EncCol::HighCard { enc, cnt },
        ) => {
            assert(enc@[r] == e.spec_enc_of(raw@[r]));
            assert(e.is_count_of::<A>(raw[r], cnt[r]));
        },
        _ => {},
    }
}

/// Where the knots come from. The knots of a numeric feature are quantiles of its training
/// values, which the training matrix has as they are. Those of a high-card feature are quantiles
/// of the full-data encodings of its training rows, and of the logarithms of one plus their
/// counts, `cnts`.
pub proof fn lemma_fit_takes_quantiles<A: Arith>(
    train: Dataset,
    cfg: Config,
    prior: F32,
    encoders: Encoders,
    matrix: EncodedMatrix,
    fi: int,
) -> (cnts: Seq<F32>)
    requires
        is_fit::<A>(train, cfg, prior, encoders, matrix),
        0 <= fi < train.columns.len(),
    ensures
        encoders.features.len() == train.columns.len(),
        matrix.cols.len() == train.columns.len(),
        matrix.n_rows == train.labels.len(),
        match (encoders.features[fi], train.columns[fi], matrix.cols[fi]) {
            (FeatureEncoder::Numeric(e), Column::Numeric(raw), EncCol::Num(v)) => {
                &&& train.schema.kinds[fi] is Numeric
                &&& are_quantile_knots::<A>(raw@, cfg.knots as int, e.knots@)
                &&& v@ == raw@
            },
            (FeatureEncoder::BoundedCat(e), Column::Categorical(raw), EncCol::Cat(codes)) => {
                &&& train.schema.kinds[fi] is BoundedCat
                &&& codes.len() == raw.len()
                &&& forall|r: int|
                    0 <= r < raw.len() ==> #[trigger] codes[r] == if raw[r] == MISSING_CAT {
                        e.n_vocab
                    } else {
                        e.vocab@[raw[r]]
                    }
            },
            (
                FeatureEncoder::HighCard(e),
                Column::Categorical(raw),
                EncCol::HighCard { enc, cnt },
            ) => {
                &&& train.schema.kinds[fi] is HighCardCat
                &&& e.prior == prior
                &&& e.use_count == cfg.hc_use_count
                &&& are_quantile_knots::<A>(
                    Seq::new(
                        raw@.len(),
                        |r: int|
                            if raw[r] != MISSING_CAT && e.enc@.contains_key(raw[r]) {
                                e.enc@[raw[r]]
                            } else {
                                prior
                            },
                    ),
                    cfg.hc_knots as int,
                    e.enc_knots@,
                )
                &&& cnts.len() == raw.len()
                &&& forall|r: int|
                    0 <= r < raw.len() ==> is_ln_1p32::<A>(
                        if e.count@.contains_key(raw[r]) {
                            e.count@[raw[r]]
                        } else {
                            0
                        },
                        #[trigger] cnts[r],
                    )
                &&& are_quantile_knots::<A>(cnts, cfg.hc_knots as int, e.cnt_knots@)
            },
            _ => false,
        },
{
    assert(is_fitted::<A>(
        train,
        cfg,
        prior,
        fi,
        layout_start(encoders.features@, fi),
        encoders.features[fi],
        matrix.cols[fi],
    ));
    match (encoders.features[fi], train.columns[fi], matrix.cols[fi]) {
        (FeatureEncoder::BoundedCat(e), Column::Categorical(raw), EncCol::Cat(codes)) => {
            assert forall|r: int| 0 <= r < raw.len() implies #[trigger] codes[r] == if raw[r]
                == MISSING_CAT {
                e.n_vocab
            } else {
                e.vocab@[raw[r]]
            } by {
                assert(codes[r] == e.spec_code_of(raw[r]));
                lemma_codes_tell_apart(e, raw@, raw[r], raw[r]);
                assert(raw@.contains(raw@[r]));
            }
            Seq::empty()
        },
        (FeatureEncoder::HighCard(e), Column::Categorical(raw), EncCol::HighCard { .. }) => {
            assert(raw@.map_values(|c: i64| e.spec_enc_of(c)) =~= Seq::new(
                raw@.len(),
                |r: int|
                    if raw[r] != MISSING_CAT && e.enc@.contains_key(raw[r]) {
                        e.enc@[raw[r]]
                    } else {
                        prior
                    },
            ));
            choose|cnts: Seq<F32>| #[trigger]
                are_row_counts::<A>(raw@, e.count@, cnts) && are_quantile_knots::<A>(
                    cnts,
                    cfg.hc_knots as int,
                    e.cnt_knots@,
                )
        },
        _ => Seq::empty(),
    }
}

/// `positive` tells which numbers are greater than zero.
pub open spec fn signs<T>(ring: Ring<T>, positive: spec_fn(T) -> bool) -> bool {
    &&& forall|a: T, b: T|
        positive(a) && positive(b) ==> positive(#[trigger] ring.product(a, b))
    &&& forall|a: T, b: T|
        positive(a) && positive(b) ==> positive(#[trigger] ring.sum_of(a, b))
    &&& forall|a: T, b: T|
        positive(b) && positive(#[trigger] ring.product(a, b)) ==> positive(a)
}

proof fn lemma_scaled_difference<T>(ring: Ring<T>, x: T, y: T, t: T)
    requires
        ring.obeys_laws(),
    ensures
        ring.sum_of(ring.product(ring.difference(x, y), t), ring.product(y, t)) == ring.product(
            x,
            t,
        ),
{
    let d = ring.difference(x, y);
    ring.lemma_difference_undone(x, y);
    ring.lemma_product_commutes(d, t);
    ring.lemma_product_commutes(y, t);
    ring.lemma_product_commutes(x, t);
    ring.lemma_product_distributes(t, d, y);
}

proof fn lemma_same_added<T>(ring: Ring<T>, x: T, y: T, z: T)
    requires
        ring.obeys_laws(),
        ring.sum_of(x, z) == ring.sum_of(y, z),
    ensures
        x == y,
{
    ring.lemma_sum_undone(x, z);
    ring.lemma_sum_undone(y, z);
}

/// How far a weighted mean is from either side, either way round: `(e - p)(s + a) = (r - p) s`
/// and `(r - e)(s + a) = (r - p) a`.
proof fn lemma_mean_between<T>(ring: Ring<T>, e: T, r: T, p: T, s: T, a: T)
    requires
        ring.obeys_laws(),
        ring.product(e, ring.sum_of(s, a)) == ring.sum_of(ring.product(r, s), ring.product(a, p)),
    ensures
        ({
            let t = ring.sum_of(s, a);
            &&& ring.product(ring.difference(e, p), t) == ring.product(ring.difference(r, p), s)
            &&& ring.product(ring.difference(r, e), t) == ring.product(ring.difference(r, p), a)
            &&& ring.product(ring.difference(p, e), t) == ring.product(ring.difference(p, r), s)
            &&& ring.product(ring.difference(e, r), t) == ring.product(ring.difference(p, r), a)
        }),
{
    let t = ring.sum_of(s, a);
    let (ps, pa) = (ring.product(p, s), ring.product(p, a));
    let (rs, ra) = (ring.product(r, s), ring.product(r, a));
    ring.lemma_product_commutes(a, p);
    ring.lemma_product_distributes(p, s, a);
    ring.lemma_product_distributes(r, s, a);
    lemma_scaled_difference(ring, e, p, t);
    lemma_scaled_difference(ring, r, e, t);
    lemma_scaled_difference(ring, p, e, t);
    lemma_scaled_difference(ring, e, r, t);
    lemma_scaled_difference(ring, r, p, s);
    lemma_scaled_difference(ring, r, p, a);
    lemma_scaled_difference(ring, p, r, s);
    lemma_scaled_difference(ring, p, r, a);
    let (y, v) = (
        ring.product(ring.difference(r, p), s),
        ring.product(ring.difference(r, p), a),
    );
    let (z, w) = (
        ring.product(ring.difference(p, r), s),
        ring.product(ring.difference(p, r), a),
    );
    // r s + p a = y + (p s + p a).
    ring.lemma_sum_associates(y, ps, pa);
    lemma_same_added(ring, ring.product(ring.difference(e, p), t), y, ring.sum_of(ps, pa));
    // r s + r a = v + (r s + p a).
    ring.lemma_sum_commutes(rs, ra);
    ring.lemma_sum_associates(v, pa, rs);
    ring.lemma_sum_commutes(pa, rs);
    lemma_same_added(ring, ring.product(ring.difference(r, e), t), v, ring.sum_of(rs, pa));
    // p s + p a = z + (r s + p a).
    ring.lemma_sum_associates(z, rs, pa);
    lemma_same_added(ring, ring.product(ring.difference(p, e), t), z, ring.sum_of(rs, pa));
    // r s + p a = w + (r s + r a).
    ring.lemma_sum_associates(w, ra, rs);
    lemma_same_added(ring, ring.product(ring.difference(e, r), t), w, ring.sum_of(rs, ra));
}

/// An encoding lies between the prior and the category's own rate: strictly where the weight of
/// its rows and `alpha` are positive and the two differ, and at the prior where they do not.
/// `rate` is the positive share of the category's rows.
pub proof fn lemma_encoding_lies_between<A: Arith, T>(
    ring: Ring<T>,
    val: spec_fn(F64) -> Option<T>,
    positive: spec_fn(T) -> bool,
    codes: Seq<i64>,
    labels: Seq<u8>,
    weights: Seq<F32>,
    rows: Seq<int>,
    alpha: F32,
    prior: F32,
    enc: Map<i64, F32>,
    cnt: Map<i64, u32>,
    c: i64,
    rate: T,
)
    requires
        ring.obeys_laws(),
        stays_exact::<A, T>(ring, val),
        stays_exact32::<A, T>(ring, val),
        labels_stand(ring, val),
        signs(ring, positive),
        are_target_maps::<A>(codes, labels, weights, rows, alpha, prior, enc, cnt),
        enc.contains_key(c),
        val(enc[c].spec_widened()) is Some,
        positive(val(alpha.spec_widened())->0),
        ({
            let own = rows.filter(|i: int| codes[i] == c);
            let weight = ring.total(weight_at(val, weights), own);
            &&& positive(weight)
            &&& ring.product(rate, weight) == ring.total(
                positive_weight_at(ring, val, labels, weights),
                own,
            )
            &&& ring.cancels(ring.sum_of(weight, val(alpha.spec_widened())->0))
        }),
    ensures
        ({
            let (e, p) = (val(enc[c].spec_widened())->0, val(prior.spec_widened())->0);
            &&& positive(ring.difference(rate, p)) ==> positive(ring.difference(e, p)) && positive(
                ring.difference(rate, e),
            )
            &&& positive(ring.difference(p, rate)) ==> positive(ring.difference(p, e)) && positive(
                ring.difference(e, rate),
            )
            &&& rate == p ==> e == p
        }),
{
    lemma_target_maps_shrink::<A, T>(
        ring,
        val,
        codes,
        labels,
        weights,
        rows,
        alpha,
        prior,
        enc,
        cnt,
        c,
    );
    let own = rows.filter(|i: int| codes[i] == c);
    let s = ring.total(weight_at(val, weights), own);
    let a = val(alpha.spec_widened())->0;
    let t = ring.sum_of(s, a);
    let (e, p) = (val(enc[c].spec_widened())->0, val(prior.spec_widened())->0);
    lemma_mean_between(ring, e, rate, p, s, a);
    assert(positive(t));
    if positive(ring.difference(rate, p)) {
        let d = ring.difference(rate, p);
        assert(positive(ring.product(d, s)));
        assert(positive(ring.product(d, a)));
    }
    if positive(ring.difference(p, rate)) {
        let d = ring.difference(p, rate);
        assert(positive(ring.product(d, s)));
        assert(positive(ring.product(d, a)));
    }
    if rate == p {
        ring.lemma_sum_with_zero(p);
        ring.lemma_sum_undone(ring.zero, p);
        ring.lemma_product_with_zero(s);
        let z = ring.difference(e, p);
        ring.lemma_product_commutes(z, t);
        ring.lemma_product_with_zero(t);
        ring.lemma_product_commutes(ring.zero, t);
        assert(ring.product(t, z) == ring.product(t, ring.zero));
        ring.lemma_difference_undone(e, p);
    }
}

} // verus!
