//! What the split search finds: scores and gains in terms of the rows on either side, and that
//! no candidate gains more than the one chosen.

use vstd::prelude::*;
use crate::arith::{
    deterministic, folds, is_diff, is_narrow, is_prod, is_quot, is_sum, is_trace, item_step,
    lemma_folds_last, Arith,
};
use crate::encoding::{
    ascending, is_knot_count, EncCol, EncodedMatrix, Encoders, FeatureEncoder,
};
use crate::exact::{negates_exactly, stays_exact, stays_exact32, Ring};
use crate::float::{F32, F64};
use crate::moments::{
    are_sides, left_rows, lemma_parent_moments, lemma_side_moments, right_rows, row_val, row_val_z,
    row_val_zz, slopes_where_exact, sums_where_exact,
};
use crate::seqs::{
    lemma_filter_agree, lemma_filter_all, lemma_filter_none, lemma_filter_props, lemma_filter_split,
};
use crate::sort::{before, orders};
use crate::tree::{
    add_bin, add_parent_row, add_stat, are_bins, are_code_stats, are_feature_splits,
    are_leading_sums, are_left_sides, are_numeric_gains, are_prefix_gains, are_prefix_sums,
    are_ratios, are_threshold_gains, feature_searchable, first_codes, has_code, has_code_of,
    in_first_bins, is_best_categorical, is_best_numeric, is_best_split, is_bin_diff,
    is_categorical_pick, is_cross_diff, is_cross_sum, is_determinant, is_direction_gain,
    is_feature_split, is_gain, is_numeric_pick, is_parent_const, is_parent_linear, is_parent_score,
    is_prefix_gain, is_product_sum, is_quadratic_score, is_ratio, is_score_const, is_score_linear,
    is_scored_split, is_side, is_side_score, is_split_pick, is_stat_added, is_stat_of, is_stat_sum,
    lacks_value, lemma_bin_exists, lemma_bins_count, lemma_bins_count_all, lemma_left_counts,
    lemma_prefix_counts, lemma_prefix_step, lemma_scan_best_in_range, lemma_scan_best_is_max,
    lemma_seen_codes, min_determinant, positive_gain, positive_gains, ratio_keys, row_goes_left,
    row_goes_right, rows_in_bins, scan_best, searchable, seen_codes, side_rows, stat_before, Bin,
    Candidate, CatStat, Split,
};
use crate::{Config, GainKind};

verus! {

/// `s` is the constant-leaf score of the rows: times `H + λ` it is `G²`, with `G` and `H` the
/// sums of their gradients and hessians.
pub open spec fn is_constant_score<T>(
    ring: Ring<T>,
    val: spec_fn(F64) -> Option<T>,
    g: Seq<F32>,
    h: Seq<F32>,
    rows: Seq<u32>,
    lam: F64,
    s: F64,
) -> bool {
    let gs = ring.total(row_val(val, g), rows);
    let hs = ring.total(row_val(val, h), rows);
    val(s) is Some ==> val(lam) is Some && ring.product(
        val(s)->0,
        ring.sum_of(hs, val(lam)->0),
    ) == ring.product(gs, gs)
}

/// `[x0, x1]` solves `[[a, b], [b, d]] x = [g, gz]`, and `s` is `[g, gz] · x`.
pub open spec fn is_solved_by<T>(
    ring: Ring<T>,
    a: T,
    b: T,
    d: T,
    g: T,
    gz: T,
    s: T,
    x0: T,
    x1: T,
) -> bool {
    &&& ring.sum_of(ring.product(a, x0), ring.product(b, x1)) == g
    &&& ring.sum_of(ring.product(b, x0), ring.product(d, x1)) == gz
    &&& ring.sum_of(ring.product(g, x0), ring.product(gz, x1)) == s
}

/// `s` is the leaf-aware score of the rows, and `det` the determinant of
/// `A = [[Σh, Σhz̃], [Σhz̃, Σhz̃²]] + λI`: what the line `x` with `A x = [Σg, Σgz̃]` explains, and
/// the constant-leaf score where the determinant is `1e-12` or less.
pub open spec fn is_reduced_score<A: Arith, T>(
    ring: Ring<T>,
    val: spec_fn(F64) -> Option<T>,
    vals: Seq<F32>,
    knots: Seq<F32>,
    g: Seq<F32>,
    h: Seq<F32>,
    rows: Seq<u32>,
    lam: F64,
    det: F64,
    s: F64,
) -> bool {
    let a = ring.sum_of(ring.total(row_val(val, h), rows), val(lam)->0);
    let b = ring.total(row_val_z::<A, T>(ring, val, vals, knots, h), rows);
    let d = ring.sum_of(
        ring.total(row_val_zz::<A, T>(ring, val, vals, knots, h), rows),
        val(lam)->0,
    );
    let gs = ring.total(row_val(val, g), rows);
    let gz = ring.total(row_val_z::<A, T>(ring, val, vals, knots, g), rows);
    &&& val(det) is Some ==> val(det)->0 == ring.difference(
        ring.product(a, d),
        ring.product(b, b),
    )
    &&& if det.le(F64 { bits: 0x3d71_9799_812d_ea11 }) {
        is_constant_score(ring, val, g, h, rows, lam, s)
    } else {
        val(s) is Some ==> val(det) is Some && (ring.cancels(val(det)->0) ==> exists|x0: T, x1: T|
         #[trigger]
            is_solved_by(ring, a, b, d, gs, gz, val(s)->0, x0, x1))
    }
}

/// `s` is the leaf-aware score of the rows.
pub open spec fn is_leaf_aware_score<A: Arith, T>(
    ring: Ring<T>,
    val: spec_fn(F64) -> Option<T>,
    vals: Seq<F32>,
    knots: Seq<F32>,
    g: Seq<F32>,
    h: Seq<F32>,
    rows: Seq<u32>,
    lam: F64,
    s: F64,
) -> bool {
    exists|det: F64| #[trigger]
        is_reduced_score::<A, T>(ring, val, vals, knots, g, h, rows, lam, det, s)
}

/// `s` is the score of the rows: leaf-aware where the criterion is and the feature has values to
/// fit a line in, constant-leaf otherwise. `values` are the knots and values of such a feature.
pub open spec fn is_rows_score<A: Arith, T>(
    ring: Ring<T>,
    val: spec_fn(F64) -> Option<T>,
    kind: GainKind,
    values: Option<(Seq<F32>, Seq<F32>)>,
    g: Seq<F32>,
    h: Seq<F32>,
    rows: Seq<u32>,
    lam: F64,
    s: F64,
) -> bool {
    if kind is LeafAware && values is Some {
        is_leaf_aware_score::<A, T>(ring, val, (values->0).1, (values->0).0, g, h, rows, lam, s)
    } else {
        is_constant_score(ring, val, g, h, rows, lam, s)
    }
}

/// `gain` is what two sides score more than the whole.
pub open spec fn is_excess<T>(
    ring: Ring<T>,
    val: spec_fn(F64) -> Option<T>,
    sl: F64,
    sr: F64,
    sp: F64,
    gain: F32,
) -> bool {
    val(gain.spec_widened()) is Some ==> val(sl) is Some && val(sr) is Some && val(sp) is Some
        && val(gain.spec_widened())->0 == ring.difference(
        ring.sum_of(val(sl)->0, val(sr)->0),
        val(sp)->0,
    )
}

proof fn lemma_gain_is_excess<A: Arith, T>(
    ring: Ring<T>,
    val: spec_fn(F64) -> Option<T>,
    sl: F64,
    sr: F64,
    sp: F64,
    gain: F32,
)
    requires
        stays_exact::<A, T>(ring, val),
        stays_exact32::<A, T>(ring, val),
        is_gain::<A>(sl, sr, sp, gain),
    ensures
        is_excess(ring, val, sl, sr, sp, gain),
{
    let (t, u) = choose|t: F64, u: F64| #[trigger]
        is_sum::<A>(sl, sr, t) && #[trigger] is_diff::<A>(t, sp, u) && is_narrow::<A>(u, gain);
}

/// Cramer's rule solves the reduced system.
proof fn lemma_cramer<T>(
    ring: Ring<T>,
    a: T,
    b: T,
    d: T,
    g: T,
    gz: T,
    minus_b: T,
    x0: T,
    x1: T,
)
    requires
        ring.obeys_laws(),
        ring.sum_of(minus_b, b) == ring.zero,
        ({
            let det = ring.difference(ring.product(a, d), ring.product(b, b));
            &&& ring.cancels(det)
            &&& ring.difference(ring.product(d, g), ring.product(b, gz)) == ring.product(x0, det)
            &&& ring.sum_of(ring.product(minus_b, g), ring.product(a, gz)) == ring.product(x1, det)
        }),
    ensures
        ring.sum_of(ring.product(a, x0), ring.product(b, x1)) == g,
        ring.sum_of(ring.product(b, x0), ring.product(d, x1)) == gz,
{
    let det = ring.difference(ring.product(a, d), ring.product(b, b));
    let (ad, bb) = (ring.product(a, d), ring.product(b, b));
    let (dg, bgz) = (ring.product(d, g), ring.product(b, gz));
    let (agz, bg, mg) = (ring.product(a, gz), ring.product(b, g), ring.product(minus_b, g));
    let (p0, p1) = (ring.product(x0, det), ring.product(x1, det));
    // p0 + b·gz = d·g, and p1 + b·g = a·gz.
    ring.lemma_difference_undone(dg, bgz);
    ring.lemma_difference_undone(ad, bb);
    ring.lemma_product_commutes(minus_b, g);
    ring.lemma_product_commutes(b, g);
    ring.lemma_product_distributes(g, minus_b, b);
    ring.lemma_product_commutes(g, ring.zero);
    ring.lemma_product_with_zero(g);
    assert(ring.sum_of(mg, bg) == ring.zero);
    ring.lemma_sum_commutes(mg, agz);
    ring.lemma_sum_associates(agz, mg, bg);
    ring.lemma_sum_with_zero(agz);
    assert(ring.sum_of(p1, bg) == agz);
    // det·(a·x0 + b·x1) = a·p0 + b·p1.
    let y = ring.sum_of(ring.product(a, x0), ring.product(b, x1));
    ring.lemma_product_distributes(det, ring.product(a, x0), ring.product(b, x1));
    ring.lemma_factors_move(det, a, x0);
    ring.lemma_factors_move(det, b, x1);
    ring.lemma_product_commutes(det, x0);
    ring.lemma_product_commutes(det, x1);
    let (ap, bp) = (ring.product(a, p0), ring.product(b, p1));
    assert(ring.product(det, y) == ring.sum_of(ap, bp));
    // a·p0 + a·b·gz = a·d·g, and b·p1 + b·b·g = b·a·gz.
    let (abgz, adg) = (ring.product(a, bgz), ring.product(a, dg));
    let (bbg, bagz) = (ring.product(b, bg), ring.product(b, agz));
    ring.lemma_product_distributes(a, p0, bgz);
    ring.lemma_product_distributes(b, p1, bg);
    ring.lemma_factors_move(a, b, gz);
    assert(abgz == bagz);
    // (ap + bp) + bbg = ap + abgz = adg = det·g + bbg.
    ring.lemma_sum_associates(ap, bp, bbg);
    ring.lemma_product_associates(a, d, g);
    ring.lemma_product_associates(b, b, g);
    ring.lemma_product_commutes(ad, g);
    ring.lemma_product_commutes(bb, g);
    ring.lemma_product_commutes(det, g);
    ring.lemma_product_distributes(g, det, bb);
    let dg2 = ring.product(det, g);
    assert(ring.sum_of(ring.sum_of(ap, bp), bbg) == ring.sum_of(dg2, bbg));
    ring.lemma_sum_undone(ring.sum_of(ap, bp), bbg);
    ring.lemma_sum_undone(dg2, bbg);
    assert(ring.product(det, y) == ring.product(det, g));
    // det·(b·x0 + d·x1) = b·p0 + d·p1.
    let z = ring.sum_of(ring.product(b, x0), ring.product(d, x1));
    ring.lemma_product_distributes(det, ring.product(b, x0), ring.product(d, x1));
    ring.lemma_factors_move(det, b, x0);
    ring.lemma_factors_move(det, d, x1);
    let (bp0, dp1) = (ring.product(b, p0), ring.product(d, p1));
    assert(ring.product(det, z) == ring.sum_of(bp0, dp1));
    // b·p0 + b·b·gz = b·d·g, and d·p1 + d·b·g = d·a·gz.
    let (bbgz, bdg) = (ring.product(b, bgz), ring.product(b, dg));
    let (dbg, dagz) = (ring.product(d, bg), ring.product(d, agz));
    ring.lemma_product_distributes(b, p0, bgz);
    ring.lemma_product_distributes(d, p1, bg);
    ring.lemma_factors_move(b, d, g);
    assert(bdg == dbg);
    // (bp0 + dp1) + bbgz = dp1 + bdg = dagz = det·gz + bbgz.
    ring.lemma_sum_commutes(bp0, dp1);
    ring.lemma_sum_associates(dp1, bp0, bbgz);
    ring.lemma_product_associates(a, d, gz);
    ring.lemma_factors_move(d, a, gz);
    ring.lemma_product_associates(b, b, gz);
    ring.lemma_product_commutes(ad, gz);
    ring.lemma_product_commutes(bb, gz);
    ring.lemma_product_commutes(det, gz);
    ring.lemma_product_distributes(gz, det, bb);
    let dgz = ring.product(det, gz);
    assert(ring.sum_of(ring.sum_of(bp0, dp1), bbgz) == ring.sum_of(dgz, bbgz));
    ring.lemma_sum_undone(ring.sum_of(bp0, dp1), bbgz);
    ring.lemma_sum_undone(dgz, bbgz);
    assert(ring.product(det, z) == ring.product(det, gz));
}

/// The score of a bin whose moments are those of some rows is the rows' score.
proof fn lemma_bin_scores_rows<A: Arith, T>(
    ring: Ring<T>,
    val: spec_fn(F64) -> Option<T>,
    kind: GainKind,
    vals: Seq<F32>,
    knots: Seq<F32>,
    g: Seq<F32>,
    h: Seq<F32>,
    rows: Seq<u32>,
    lam: F64,
    b: Bin,
    s: F64,
)
    requires
        ring.obeys_laws(),
        stays_exact::<A, T>(ring, val),
        negates_exactly(ring, val),
        is_side_score::<A>(kind, b, lam, s),
        sums_where_exact(ring, val, g, h, rows, b),
        kind is LeafAware ==> slopes_where_exact::<A, T>(ring, val, vals, knots, g, h, rows, b),
    ensures
        is_rows_score::<A, T>(ring, val, kind, Some((knots, vals)), g, h, rows, lam, s),
{
    if kind is Constant {
        lemma_const_score::<A, T>(ring, val, g, h, rows, lam, b.g, b.h, s);
    } else {
        let (a, d, det) = choose|a: F64, d: F64, det: F64| #[trigger]
            is_sum::<A>(b.h, lam, a) && #[trigger] is_sum::<A>(b.hzz, lam, d)
                && #[trigger] is_determinant::<A>(a, b.hz, d, det) && if det.le(
                min_determinant(),
            ) {
                is_score_const::<A>(b.g, b.h, lam, s)
            } else {
                is_quadratic_score::<A>(a, b.hz, d, det, b.g, b.gz, s)
            };
        if det.le(min_determinant()) {
            lemma_const_score::<A, T>(ring, val, g, h, rows, lam, b.g, b.h, s);
        } else if val(s) is Some {
            let minus = b.hz.spec_negated();
            let (x0, x1) = choose|x0: F64, x1: F64| #[trigger]
                is_cross_diff::<A>(d, b.g, b.hz, b.gz, det, x0) && #[trigger] is_cross_sum::<A>(
                    minus,
                    b.g,
                    a,
                    b.gz,
                    det,
                    x1,
                ) && is_product_sum::<A>(b.g, x0, b.gz, x1, s);
            let w = choose|w: F64| #[trigger]
                is_product_sum::<A>(minus, b.g, a, b.gz, w) && is_quot::<A>(w, det, x1);
            assert(val(minus) is Some);
            let (av, bv, dv) = (val(a)->0, val(b.hz)->0, val(d)->0);
            let (gv, zv) = (val(b.g)->0, val(b.gz)->0);
            if ring.cancels(val(det)->0) {
                lemma_cramer(
                    ring,
                    av,
                    bv,
                    dv,
                    gv,
                    zv,
                    val(minus)->0,
                    val(x0)->0,
                    val(x1)->0,
                );
                assert(is_solved_by(
                    ring,
                    av,
                    bv,
                    dv,
                    gv,
                    zv,
                    val(s)->0,
                    val(x0)->0,
                    val(x1)->0,
                ));
            }
        }
        assert(is_reduced_score::<A, T>(ring, val, vals, knots, g, h, rows, lam, det, s));
        assert(is_leaf_aware_score::<A, T>(ring, val, vals, knots, g, h, rows, lam, s));
    }
}

proof fn lemma_const_score<A: Arith, T>(
    ring: Ring<T>,
    val: spec_fn(F64) -> Option<T>,
    g: Seq<F32>,
    h: Seq<F32>,
    rows: Seq<u32>,
    lam: F64,
    gs: F64,
    hs: F64,
    s: F64,
)
    requires
        stays_exact::<A, T>(ring, val),
        is_score_const::<A>(gs, hs, lam, s),
        val(gs) is Some ==> val(gs)->0 == ring.total(row_val(val, g), rows),
        val(hs) is Some ==> val(hs)->0 == ring.total(row_val(val, h), rows),
    ensures
        is_constant_score(ring, val, g, h, rows, lam, s),
{
    let (sq, d) = choose|sq: F64, d: F64| #[trigger]
        is_prod::<A>(gs, gs, sq) && #[trigger] is_sum::<A>(hs, lam, d) && is_quot::<A>(sq, d, s);
}

/// Sums over rows that were computed exactly are those of the rows.
proof fn lemma_stat_totals<A: Arith, T>(
    ring: Ring<T>,
    val: spec_fn(F64) -> Option<T>,
    g: Seq<F32>,
    h: Seq<F32>,
    rows: Seq<u32>,
    st: CatStat,
)
    requires
        stays_exact::<A, T>(ring, val),
        folds(CatStat::empty(), rows, add_stat::<A>(g, h), st),
    ensures
        val(st.g) is Some ==> val(st.g)->0 == ring.total(row_val(val, g), rows),
        val(st.h) is Some ==> val(st.h)->0 == ring.total(row_val(val, h), rows),
    decreases rows.len(),
{
    let step = add_stat::<A>(g, h);
    if rows.len() > 0 {
        let m = lemma_folds_last(CatStat::empty(), rows, step, st);
        let r = rows.last();
        assert(is_stat_added::<A>(g[r as int], h[r as int], m, st));
        lemma_stat_totals::<A, T>(ring, val, g, h, rows.drop_last(), m);
    } else {
        let tr = choose|tr: Seq<CatStat>| #[trigger]
            is_trace(CatStat::empty(), 0, item_step(rows, step), tr) && tr[0] == st;
    }
}

/// The constant-leaf score of a node is that of all its rows: times `H + λ` it is `G²`.
pub proof fn lemma_parent_const_scores_rows<A: Arith, T>(
    ring: Ring<T>,
    val: spec_fn(F64) -> Option<T>,
    rows: Seq<u32>,
    g: Seq<F32>,
    h: Seq<F32>,
    lam: F64,
    s: F64,
)
    requires
        stays_exact::<A, T>(ring, val),
        is_parent_const::<A>(rows, g, h, lam, s),
    ensures
        is_constant_score(ring, val, g, h, rows, lam, s),
{
    let b = choose|b: CatStat| #[trigger]
        folds(CatStat::empty(), rows, add_stat::<A>(g, h), b) && is_score_const::<A>(
            b.g,
            b.h,
            lam,
            s,
        );
    lemma_stat_totals::<A, T>(ring, val, g, h, rows, b);
    lemma_const_score::<A, T>(ring, val, g, h, rows, lam, b.g, b.h, s);
}

/// The leaf-aware score of a node is that of all its rows.
pub proof fn lemma_parent_linear_scores_rows<A: Arith, T>(
    ring: Ring<T>,
    val: spec_fn(F64) -> Option<T>,
    rows: Seq<u32>,
    vals: Seq<F32>,
    knots: Seq<F32>,
    g: Seq<F32>,
    h: Seq<F32>,
    lam: F64,
    s: F64,
)
    requires
        ring.obeys_laws(),
        stays_exact::<A, T>(ring, val),
        negates_exactly(ring, val),
        deterministic::<A>(),
        is_parent_linear::<A>(rows, vals, knots, g, h, lam, s),
    ensures
        is_rows_score::<A, T>(
            ring,
            val,
            GainKind::LeafAware,
            Some((knots, vals)),
            g,
            h,
            rows,
            lam,
            s,
        ),
{
    let b = choose|b: Bin| #[trigger]
        folds(Bin::empty(), rows, add_parent_row::<A>(vals, knots, g, h), b) && is_score_linear::<
            A,
        >(b.h, b.hz, b.hzz, b.g, b.gz, lam, s);
    lemma_parent_moments::<A, T>(ring, val, rows, vals, knots, g, h, b);
    lemma_bin_scores_rows::<A, T>(
        ring,
        val,
        GainKind::LeafAware,
        vals,
        knots,
        g,
        h,
        rows,
        lam,
        b,
        s,
    );
}

/// The split at `thr` sends a row left: its value is below, or missing and these go left.
pub open spec fn is_below(vals: Seq<F32>, thr: F32, missing_left: bool) -> spec_fn(u32) -> bool {
    |r: u32|
        if vals[r as int].spec_is_nan() {
            missing_left
        } else {
            vals[r as int].lt(thr)
        }
}

/// The split at `thr` sends a row right.
pub open spec fn is_above(vals: Seq<F32>, thr: F32, missing_left: bool) -> spec_fn(u32) -> bool {
    |r: u32| !is_below(vals, thr, missing_left)(r)
}

/// `gain` is what splitting the rows gains: there is none where a side has fewer rows than a
/// leaf needs, and it is what the two sides score more than `sp` otherwise.
pub open spec fn is_gain_of<A: Arith, T>(
    ring: Ring<T>,
    val: spec_fn(F64) -> Option<T>,
    cfg: Config,
    values: Option<(Seq<F32>, Seq<F32>)>,
    g: Seq<F32>,
    h: Seq<F32>,
    lefts: Seq<u32>,
    rights: Seq<u32>,
    sp: F64,
    gain: Option<F32>,
) -> bool {
    if lefts.len() < cfg.min_leaf_samples || rights.len() < cfg.min_leaf_samples {
        gain is None
    } else {
        gain is Some && exists|sl: F64, sr: F64|
            {
                let lam = cfg.lambda.spec_widened();
                &&& #[trigger] is_excess(ring, val, sl, sr, sp, gain->0)
                &&& is_rows_score::<A, T>(ring, val, cfg.gain, values, g, h, lefts, lam, sl)
                &&& is_rows_score::<A, T>(ring, val, cfg.gain, values, g, h, rights, lam, sr)
            }
    }
}

/// `gain` is the best of the gains, and at `j`: none is greater, and those before are less,
/// unless some gain is not a number.
pub open spec fn is_best_gain(gains: Seq<Option<F32>>, j: int, gain: F32) -> bool {
    &&& 0 <= j < gains.len()
    &&& gains[j] == Some(gain)
    &&& (forall|i: int|
        0 <= i < gains.len() && (#[trigger] gains[i]) is Some ==> !gains[i]->0.spec_is_nan())
        ==> forall|i: int|
        0 <= i < gains.len() && (#[trigger] gains[i]) is Some ==> gains[i]->0.le(gain) && (i < j
            ==> gains[i]->0.lt(gain))
}

/// There is no gain.
pub open spec fn no_gains(gains: Seq<Option<F32>>) -> bool {
    forall|i: int| 0 <= i < gains.len() ==> (#[trigger] gains[i]) is None
}

proof fn lemma_scan_finds_best(gains: Seq<Option<F32>>)
    ensures
        scan_best(gains) is None <==> no_gains(gains),
        scan_best(gains) matches Some(j) ==> is_best_gain(gains, j, gains[j]->0),
{
    lemma_scan_best_in_range(gains);
    if let Some(j) = scan_best(gains) {
        assert(gains[j] is Some);
        if forall|i: int|
            0 <= i < gains.len() && (#[trigger] gains[i]) is Some ==> !gains[i]->0.spec_is_nan() {
            lemma_scan_best_is_max(gains);
            assert forall|i: int|
                0 <= i < gains.len() && (#[trigger] gains[i]) is Some implies gains[i]->0.le(
                gains[j]->0,
            ) && (i < j ==> gains[i]->0.lt(gains[j]->0)) by {
                assert(gains[i] matches Some(x) ==> if i < j {
                    x.lt(gains[j]->0)
                } else {
                    x.le(gains[j]->0)
                });
            }
        }
    }
}

/// The rows that a threshold sends either way, and their numbers.
proof fn lemma_threshold_rows<A: Arith>(
    rows: Seq<u32>,
    vals: Vec<F32>,
    knots: Seq<F32>,
    g: Seq<F32>,
    h: Seq<F32>,
    bins: Seq<Bin>,
    miss: Bin,
    tot: Bin,
    lefts: Seq<Bin>,
    rest: Bin,
    t: int,
    dl: bool,
)
    requires
        ascending(knots),
        0 <= t < knots.len(),
        are_bins::<A>(rows, vals@, knots, g, h, bins, miss),
        tot.n == rows_in_bins(bins, bins.len() as int),
        are_left_sides::<A>(bins, lefts),
        is_bin_diff::<A>(tot, lefts[t], rest),
    ensures
        left_rows(rows, vals, knots[t], dl) == rows.filter(is_below(vals@, knots[t], dl)),
        right_rows(rows, vals, knots[t], dl) == rows.filter(is_above(vals@, knots[t], dl)),
        side_rows(lefts[t], miss, dl) == rows.filter(is_below(vals@, knots[t], dl)).len(),
        side_rows(rest, miss, !dl) == rows.filter(is_above(vals@, knots[t], dl)).len(),
{
    let col = EncCol::Num(vals);
    let split = Split::Numeric { thr: knots[t] };
    let to_left = row_goes_left(split, dl, col);
    let to_right = row_goes_right(split, dl, col);
    let (below, above) = (is_below(vals@, knots[t], dl), is_above(vals@, knots[t], dl));
    lemma_filter_agree(rows, to_left, below);
    lemma_filter_agree(rows, to_right, above);
    lemma_left_counts::<A>(bins, lefts, t);
    lemma_bins_count::<A>(rows, vals@, knots, g, h, bins, miss, t + 1);
    lemma_bins_count_all::<A>(rows, vals@, knots, g, h, bins, miss);
    let first = in_first_bins(vals@, knots, t + 1);
    let lacks = lacks_value(vals@);
    let never = |r: u32| false;
    let any = |r: u32| true;
    assert forall|i: int| 0 <= i < rows.len() implies (first(#[trigger] rows[i])
        <==> !vals@[rows[i] as int].spec_is_nan() && vals@[rows[i] as int].lt(knots[t])) by {
        let v = vals@[rows[i] as int];
        if first(rows[i]) {
            let b = choose|b: int| 0 <= b < t + 1 && #[trigger] is_knot_count(knots, v, b);
            assert(v.lt(knots[t]));
        } else if !v.spec_is_nan() {
            let b = lemma_bin_exists(knots, v);
            assert(b > t);
            assert(knots[t].le(v));
        }
    }
    if dl {
        lemma_filter_split(rows, first, lacks, below);
    } else {
        lemma_filter_none(rows, never);
        lemma_filter_split(rows, first, never, below);
    }
    lemma_filter_split(rows, below, above, any);
    lemma_filter_all(rows, any);
}

proof fn lemma_direction_gain<A: Arith, T>(
    ring: Ring<T>,
    val: spec_fn(F64) -> Option<T>,
    rows: Seq<u32>,
    vals: Vec<F32>,
    knots: Seq<F32>,
    g: Seq<F32>,
    h: Seq<F32>,
    cfg: Config,
    parent: F64,
    bins: Seq<Bin>,
    miss: Bin,
    tot: Bin,
    lefts: Seq<Bin>,
    rest: Bin,
    t: int,
    dl: bool,
    gain: Option<F32>,
)
    requires
        ring.obeys_laws(),
        stays_exact::<A, T>(ring, val),
        stays_exact32::<A, T>(ring, val),
        negates_exactly(ring, val),
        deterministic::<A>(),
        ascending(knots),
        0 <= t < knots.len(),
        are_bins::<A>(rows, vals@, knots, g, h, bins, miss),
        folds(Bin::empty(), bins, add_bin::<A>(), tot),
        tot.n == rows_in_bins(bins, bins.len() as int),
        are_left_sides::<A>(bins, lefts),
        is_bin_diff::<A>(tot, lefts[t], rest),
        is_direction_gain::<A>(cfg, lefts[t], rest, miss, parent, dl, gain),
    ensures
        is_gain_of::<A, T>(
            ring,
            val,
            cfg,
            Some((knots, vals@)),
            g,
            h,
            rows.filter(is_below(vals@, knots[t], dl)),
            rows.filter(is_above(vals@, knots[t], dl)),
            parent,
            gain,
        ),
{
    lemma_threshold_rows::<A>(rows, vals, knots, g, h, bins, miss, tot, lefts, rest, t, dl);
    if gain is Some {
        let lam = cfg.lambda.spec_widened();
        let dr = !dl;
        assert(is_scored_split::<A>(cfg, lefts[t], rest, miss, parent, dl, dr, gain->0));
        let (l, r, sl, sr) = choose|l: Bin, r: Bin, sl: F64, sr: F64| #[trigger]
            is_side::<A>(lefts[t], miss, dl, l) && #[trigger] is_side::<A>(rest, miss, dr, r)
                && #[trigger] is_side_score::<A>(cfg.gain, l, lam, sl)
                && #[trigger] is_side_score::<A>(cfg.gain, r, lam, sr) && is_gain::<A>(
                sl,
                sr,
                parent,
                gain->0,
            );
        assert(are_sides::<A>(rows, vals@, knots, g, h, t, dl, l, r));
        lemma_side_moments::<A, T>(ring, val, rows, vals, knots, g, h, t, dl, l, r);
        let (lr, rr) = (left_rows(rows, vals, knots[t], dl), right_rows(rows, vals, knots[t], dl));
        let k = cfg.gain;
        lemma_bin_scores_rows::<A, T>(ring, val, k, vals@, knots, g, h, lr, lam, l, sl);
        lemma_bin_scores_rows::<A, T>(ring, val, k, vals@, knots, g, h, rr, lam, r, sr);
        lemma_gain_is_excess::<A, T>(ring, val, sl, sr, parent, gain->0);
    }
}

/// What the search of a numeric column finds. There are two candidates for each knot, by where
/// rows without a value go; each gains what its own sides score more than the whole, if both
/// have the rows that a leaf needs; and the one found is the first that gains most.
pub proof fn lemma_numeric_search_finds_best<A: Arith, T>(
    ring: Ring<T>,
    val: spec_fn(F64) -> Option<T>,
    rows: Seq<u32>,
    vals: Vec<F32>,
    knots: Seq<F32>,
    g: Seq<F32>,
    h: Seq<F32>,
    cfg: Config,
    parent: F64,
    r: Option<Candidate>,
) -> (gains: Seq<Option<F32>>)
    requires
        ring.obeys_laws(),
        stays_exact::<A, T>(ring, val),
        stays_exact32::<A, T>(ring, val),
        negates_exactly(ring, val),
        deterministic::<A>(),
        ascending(knots),
        is_best_numeric::<A>(rows, vals@, knots, g, h, cfg, parent, r),
    ensures
        gains.len() == 2 * knots.len(),
        forall|t: int, dl: bool|
            0 <= t < knots.len() ==> is_gain_of::<A, T>(
                ring,
                val,
                cfg,
                Some((knots, vals@)),
                g,
                h,
                rows.filter(#[trigger] is_below(vals@, knots[t], dl)),
                rows.filter(is_above(vals@, knots[t], dl)),
                parent,
                gains[if dl {
                    2 * t
                } else {
                    2 * t + 1
                }],
            ),
        r is None ==> no_gains(gains),
        r matches Some(c) ==> exists|j: int| #[trigger]
            is_best_gain(gains, j, c.gain) && c.split == (Split::Numeric { thr: knots[j / 2] })
                && c.default_left == (j % 2 == 0),
{
    let (bins, miss, tot, lefts, gains) = choose|
        bins: Seq<Bin>,
        miss: Bin,
        tot: Bin,
        lefts: Seq<Bin>,
        gains: Seq<Option<F32>>,
    |
        {
            &&& #[trigger] are_bins::<A>(rows, vals@, knots, g, h, bins, miss)
            &&& #[trigger] folds(Bin::empty(), bins, add_bin::<A>(), tot)
            &&& tot.n == rows_in_bins(bins, bins.len() as int)
            &&& #[trigger] are_left_sides::<A>(bins, lefts)
            &&& #[trigger] are_numeric_gains::<A>(cfg, tot, lefts, miss, parent, gains)
            &&& is_numeric_pick(gains, knots, r)
        };
    assert forall|t: int, dl: bool| 0 <= t < knots.len() implies is_gain_of::<A, T>(
        ring,
        val,
        cfg,
        Some((knots, vals@)),
        g,
        h,
        rows.filter(#[trigger] is_below(vals@, knots[t], dl)),
        rows.filter(is_above(vals@, knots[t], dl)),
        parent,
        gains[if dl {
            2 * t
        } else {
            2 * t + 1
        }],
    ) by {
        let (tl, tr) = (gains[2 * t], gains[2 * t + 1]);
        assert(are_threshold_gains::<A>(cfg, tot, lefts[t], miss, parent, tl, tr));
        let rest = choose|rest: Bin| #[trigger]
            is_bin_diff::<A>(tot, lefts[t], rest) && is_direction_gain::<A>(
                cfg,
                lefts[t],
                rest,
                miss,
                parent,
                true,
                tl,
            ) && is_direction_gain::<A>(cfg, lefts[t], rest, miss, parent, false, tr);
        lemma_direction_gain::<A, T>(
            ring,
            val,
            rows,
            vals,
            knots,
            g,
            h,
            cfg,
            parent,
            bins,
            miss,
            tot,
            lefts,
            rest,
            t,
            dl,
            if dl {
                tl
            } else {
                tr
            },
        );
    }
    lemma_scan_finds_best(gains);
    if let Some(c) = r {
        let j = scan_best(gains)->0;
        assert(is_best_gain(gains, j, c.gain));
        assert(c.split == (Split::Numeric { thr: knots[j / 2] }));
        assert(c.default_left == (j % 2 == 0));
    }
    gains
}

/// A row has one of the codes.
pub open spec fn is_among(codes: Seq<u32>, set: Seq<u32>) -> spec_fn(u32) -> bool {
    |r: u32| set.contains(codes[r as int])
}

/// A row has none of the codes.
pub open spec fn is_not_among(codes: Seq<u32>, set: Seq<u32>) -> spec_fn(u32) -> bool {
    |r: u32| !set.contains(codes[r as int])
}

/// `q` is `G/H` of the rows, or `G` where `H` is not positive. `hs` is `H`.
pub open spec fn is_rows_ratio<T>(
    ring: Ring<T>,
    val: spec_fn(F64) -> Option<T>,
    g: Seq<F32>,
    h: Seq<F32>,
    rows: Seq<u32>,
    hs: F64,
    q: F64,
) -> bool {
    let sum = ring.total(row_val(val, h), rows);
    &&& val(hs) is Some ==> val(hs)->0 == sum
    &&& val(q) is Some ==> ring.total(row_val(val, g), rows) == if F64::zero().lt(hs) {
        ring.product(val(q)->0, sum)
    } else {
        val(q)->0
    }
}

/// `cats` are the codes of the rows, each once.
pub open spec fn are_row_codes(rows: Seq<u32>, codes: Seq<u32>, cats: Seq<u32>) -> bool {
    &&& forall|i: int, j: int| 0 <= i < j < cats.len() ==> #[trigger] cats[i] != #[trigger] cats[j]
    &&& forall|i: int| 0 <= i < rows.len() ==> cats.contains(codes[#[trigger] rows[i] as int])
    &&& forall|i: int|
        0 <= i < cats.len() ==> exists|r: int|
            0 <= r < rows.len() && codes[#[trigger] rows[r] as int] == #[trigger] cats[i]
}

/// `cats` are in order of their rows' `G/H`, which `qs` are.
pub open spec fn are_sorted_by_ratio<T>(
    ring: Ring<T>,
    val: spec_fn(F64) -> Option<T>,
    rows: Seq<u32>,
    codes: Seq<u32>,
    g: Seq<F32>,
    h: Seq<F32>,
    cats: Seq<u32>,
    hs: Seq<F64>,
    qs: Seq<F64>,
) -> bool {
    &&& qs.len() == cats.len()
    &&& hs.len() == cats.len()
    &&& forall|i: int|
        0 <= i < cats.len() ==> is_rows_ratio(
            ring,
            val,
            g,
            h,
            rows.filter(|r: u32| codes[r as int] == cats[i]),
            hs[i],
            #[trigger] qs[i],
        )
    &&& forall|i: int, j: int|
        0 <= i < j < qs.len() ==> !(#[trigger] qs[j]).lt(#[trigger] qs[i])
}

/// `c` sends the first `j + 1` codes left, which gains most.
pub open spec fn is_best_prefix(
    cats: Seq<u32>,
    gains: Seq<Option<F32>>,
    c: Candidate,
    j: int,
) -> bool {
    &&& is_best_gain(gains, j, c.gain)
    &&& c.split is Categorical
    &&& c.split->left_set@ == cats.take(j + 1)
}

/// Prefix sums that were computed exactly are those of the rows with the first codes.
proof fn lemma_prefix_totals<A: Arith, T>(
    ring: Ring<T>,
    val: spec_fn(F64) -> Option<T>,
    rows: Seq<u32>,
    codes: Seq<u32>,
    g: Seq<F32>,
    h: Seq<F32>,
    stats: Seq<CatStat>,
    keys: Seq<u128>,
    order: Seq<usize>,
    lefts: Seq<CatStat>,
    i: int,
)
    requires
        ring.obeys_laws(),
        stays_exact::<A, T>(ring, val),
        are_code_stats::<A>(rows, codes, g, h, seen_codes(rows, codes), stats),
        orders(keys, 0, stats.len() as int, order),
        0 <= i <= lefts.len() <= order.len(),
        are_leading_sums::<A>(stats, order, lefts),
    ensures
        ({
            let own = rows.filter(
                has_code_of(codes, first_codes(seen_codes(rows, codes), order, i)),
            );
            let st = stat_before(lefts, i);
            &&& val(st.g) is Some ==> val(st.g)->0 == ring.total(row_val(val, g), own)
            &&& val(st.h) is Some ==> val(st.h)->0 == ring.total(row_val(val, h), own)
        }),
    decreases i,
{
    let seen = seen_codes(rows, codes);
    let all = has_code_of(codes, first_codes(seen, order, i));
    if i > 0 {
        let k = order[i - 1] as int;
        let c = seen[k];
        assert(0 <= order[i - 1] < stats.len());
        assert(is_stat_of::<A>(rows, codes, g, h, c, stats[k]));
        assert(is_stat_sum::<A>(stat_before(lefts, i - 1), stats[k], lefts[i - 1]));
        let front = has_code_of(codes, first_codes(seen, order, i - 1));
        let own = has_code(codes, c);
        lemma_prefix_step(rows, codes, keys, order, i - 1);
        lemma_prefix_totals::<A, T>(
            ring,
            val,
            rows,
            codes,
            g,
            h,
            stats,
            keys,
            order,
            lefts,
            i - 1,
        );
        lemma_stat_totals::<A, T>(ring, val, g, h, rows.filter(own), stats[k]);
        ring.lemma_total_splits(row_val(val, g), rows, front, own, all);
        ring.lemma_total_splits(row_val(val, h), rows, front, own, all);
    } else {
        lemma_filter_none(rows, all);
    }
}

proof fn lemma_prefix_gain<A: Arith, T>(
    ring: Ring<T>,
    val: spec_fn(F64) -> Option<T>,
    rows: Seq<u32>,
    codes: Seq<u32>,
    g: Seq<F32>,
    h: Seq<F32>,
    cfg: Config,
    parent: F64,
    set: Seq<u32>,
    tot: CatStat,
    left: CatStat,
    gain: Option<F32>,
)
    requires
        ring.obeys_laws(),
        stays_exact::<A, T>(ring, val),
        stays_exact32::<A, T>(ring, val),
        folds(CatStat::empty(), rows, add_stat::<A>(g, h), tot),
        tot.n == rows.len(),
        left.n == rows.filter(is_among(codes, set)).len(),
        val(left.g) is Some ==> val(left.g)->0 == ring.total(
            row_val(val, g),
            rows.filter(is_among(codes, set)),
        ),
        val(left.h) is Some ==> val(left.h)->0 == ring.total(
            row_val(val, h),
            rows.filter(is_among(codes, set)),
        ),
        is_prefix_gain::<A>(cfg, tot, left, parent, gain),
    ensures
        is_gain_of::<A, T>(
            ring,
            val,
            cfg,
            None,
            g,
            h,
            rows.filter(is_among(codes, set)),
            rows.filter(is_not_among(codes, set)),
            parent,
            gain,
        ),
{
    let (inside, outside) = (is_among(codes, set), is_not_among(codes, set));
    let any = |r: u32| true;
    lemma_filter_split(rows, inside, outside, any);
    lemma_filter_all(rows, any);
    if gain is Some {
        let lam = cfg.lambda.spec_widened();
        let (rg, rh, sl, sr) = choose|rg: F64, rh: F64, sl: F64, sr: F64| #[trigger]
            is_diff::<A>(tot.g, left.g, rg) && #[trigger] is_diff::<A>(tot.h, left.h, rh)
                && #[trigger] is_score_const::<A>(left.g, left.h, lam, sl)
                && #[trigger] is_score_const::<A>(rg, rh, lam, sr) && is_gain::<A>(
                sl,
                sr,
                parent,
                gain->0,
            );
        let (fg, fh) = (row_val(val, g), row_val(val, h));
        lemma_stat_totals::<A, T>(ring, val, g, h, rows, tot);
        ring.lemma_total_splits(fg, rows, inside, outside, any);
        ring.lemma_total_splits(fh, rows, inside, outside, any);
        let (l, r) = (rows.filter(inside), rows.filter(outside));
        ring.lemma_sum_undone(ring.total(fg, l), ring.total(fg, r));
        ring.lemma_sum_undone(ring.total(fh, l), ring.total(fh, r));
        lemma_const_score::<A, T>(ring, val, g, h, l, lam, left.g, left.h, sl);
        lemma_const_score::<A, T>(ring, val, g, h, r, lam, rg, rh, sr);
        lemma_gain_is_excess::<A, T>(ring, val, sl, sr, parent, gain->0);
    }
}

/// What the search of a categorical column finds. The codes of the rows are sorted by `G/H`, and
/// each proper prefix of them is a candidate for the left side; each gains what its own sides
/// score more than the whole, if both have the rows that a leaf needs; and the one found is the
/// first that gains most.
pub proof fn lemma_categorical_search_finds_best<A: Arith, T>(
    ring: Ring<T>,
    val: spec_fn(F64) -> Option<T>,
    rows: Seq<u32>,
    codes: Seq<u32>,
    g: Seq<F32>,
    h: Seq<F32>,
    cfg: Config,
    parent: F64,
    r: Option<Candidate>,
) -> (found: (Seq<u32>, Seq<F64>, Seq<F64>, Seq<Option<F32>>, int))
    requires
        ring.obeys_laws(),
        stays_exact::<A, T>(ring, val),
        stays_exact32::<A, T>(ring, val),
        is_best_categorical::<A>(rows, codes, g, h, cfg, parent, r),
        rows.len() <= usize::MAX,
    ensures
        are_row_codes(rows, codes, found.0),
        are_sorted_by_ratio(ring, val, rows, codes, g, h, found.0, found.1, found.2),
        found.3.len() == if found.0.len() == 0 {
            0
        } else {
            found.0.len() - 1
        },
        forall|k: int|
            0 <= k < found.3.len() ==> is_gain_of::<A, T>(
                ring,
                val,
                cfg,
                None,
                g,
                h,
                rows.filter(is_among(codes, found.0.take(k + 1))),
                rows.filter(is_not_among(codes, found.0.take(k + 1))),
                parent,
                #[trigger] found.3[k],
            ),
        r is None ==> no_gains(found.3),
        r is Some ==> is_best_prefix(found.0, found.3, r->0, found.4),
{
    let seen = seen_codes(rows, codes);
    let (stats, tot, ratios, order, lefts, gains) = choose|
        stats: Seq<CatStat>,
        tot: CatStat,
        ratios: Seq<F64>,
        order: Seq<usize>,
        lefts: Seq<CatStat>,
        gains: Seq<Option<F32>>,
    |
        {
            &&& #[trigger] are_code_stats::<A>(rows, codes, g, h, seen, stats)
            &&& #[trigger] folds(CatStat::empty(), rows, add_stat::<A>(g, h), tot)
            &&& tot.n == rows.len()
            &&& #[trigger] are_ratios::<A>(stats, ratios)
            &&& #[trigger] orders(ratio_keys(ratios), 0, ratios.len() as int, order)
            &&& #[trigger] are_prefix_sums::<A>(stats, order, lefts)
            &&& #[trigger] are_prefix_gains::<A>(cfg, tot, lefts, parent, gains)
            &&& is_categorical_pick(gains, seen, order, r)
        };
    let n = order.len() as int;
    let keys = ratio_keys(ratios);
    let cats = first_codes(seen, order, n);
    let qs = Seq::new(n as nat, |i: int| ratios[order[i] as int]);
    let hs = Seq::new(n as nat, |i: int| stats[order[i] as int].h);
    lemma_ordered_codes(rows, codes, keys, order);
    assert forall|i: int| 0 <= i < cats.len() implies is_rows_ratio(
        ring,
        val,
        g,
        h,
        rows.filter(|r: u32| codes[r as int] == cats[i]),
        hs[i],
        #[trigger] qs[i],
    ) by {
        let k = order[i] as int;
        assert(0 <= order[i] < stats.len());
        assert(is_stat_of::<A>(rows, codes, g, h, seen[k], stats[k]));
        assert(is_ratio::<A>(stats[k], ratios[k]));
        lemma_filter_agree(
            rows,
            has_code(codes, seen[k]),
            |r: u32| codes[r as int] == cats[i],
        );
        let own = rows.filter(has_code(codes, seen[k]));
        lemma_stat_totals::<A, T>(ring, val, g, h, own, stats[k]);
        ring.lemma_product_with_one(val(ratios[k])->0);
        ring.lemma_product_commutes(val(ratios[k])->0, ring.one);
    }
    assert forall|i: int, j: int| 0 <= i < j < qs.len() implies !(#[trigger] qs[j]).lt(
        #[trigger] qs[i],
    ) by {
        assert(before(keys, order[i] as int, order[j] as int));
        assert(0 <= order[i] < ratios.len() && 0 <= order[j] < ratios.len());
        assert(keys[order[i] as int] == qs[i].key() as u128);
        assert(keys[order[j] as int] == qs[j].key() as u128);
    }
    assert forall|k: int| 0 <= k < gains.len() implies is_gain_of::<A, T>(
        ring,
        val,
        cfg,
        None,
        g,
        h,
        rows.filter(is_among(codes, cats.take(k + 1))),
        rows.filter(is_not_among(codes, cats.take(k + 1))),
        parent,
        #[trigger] gains[k],
    ) by {
        let set = cats.take(k + 1);
        assert(set =~= first_codes(seen, order, k + 1));
        lemma_filter_agree(rows, has_code_of(codes, set), is_among(codes, set));
        lemma_prefix_counts::<A>(rows, codes, g, h, stats, keys, order, lefts, k + 1);
        lemma_prefix_totals::<A, T>(
            ring,
            val,
            rows,
            codes,
            g,
            h,
            stats,
            keys,
            order,
            lefts,
            k + 1,
        );
        assert(is_prefix_gain::<A>(cfg, tot, lefts[k], parent, gains[k]));
        lemma_prefix_gain::<A, T>(
            ring,
            val,
            rows,
            codes,
            g,
            h,
            cfg,
            parent,
            set,
            tot,
            lefts[k],
            gains[k],
        );
    }
    lemma_scan_finds_best(gains);
    if r is Some {
        let j = scan_best(gains)->0;
        let c = r->0;
        assert(is_best_gain(gains, j, c.gain));
        assert(first_codes(seen, order, j + 1) =~= cats.take(j + 1));
        assert(is_best_prefix(cats, gains, c, j));
    }
    (cats, hs, qs, gains, scan_best(gains)->0)
}

/// The codes of the rows in any order.
proof fn lemma_ordered_codes(rows: Seq<u32>, codes: Seq<u32>, keys: Seq<u128>, order: Seq<usize>)
    requires
        orders(keys, 0, seen_codes(rows, codes).len() as int, order),
        rows.len() <= usize::MAX,
    ensures
        are_row_codes(
            rows,
            codes,
            first_codes(seen_codes(rows, codes), order, order.len() as int),
        ),
{
    let seen = seen_codes(rows, codes);
    let cats = first_codes(seen, order, order.len() as int);
    lemma_seen_codes(rows, codes);
    assert forall|i: int, j: int| 0 <= i < j < cats.len() implies #[trigger] cats[i]
        != #[trigger] cats[j] by {
        assert(before(keys, order[i] as int, order[j] as int));
        assert(0 <= order[i] < seen.len() && 0 <= order[j] < seen.len());
        let (p, q) = (order[i] as int, order[j] as int);
        if p < q {
            assert(seen[p] != seen[q]);
        } else {
            assert(seen[q] != seen[p]);
        }
    }
    assert forall|i: int| 0 <= i < rows.len() implies cats.contains(
        codes[#[trigger] rows[i] as int],
    ) by {
        let c = codes[rows[i] as int];
        assert(seen.contains(c));
        let k = choose|k: int| 0 <= k < seen.len() && seen[k] == c;
        assert(order.contains(k as usize));
        let x = choose|x: int| 0 <= x < order.len() && order[x] == k as usize;
        assert(cats[x] == c);
    }
    assert forall|i: int| 0 <= i < cats.len() implies exists|r: int|
        0 <= r < rows.len() && codes[#[trigger] rows[r] as int] == #[trigger] cats[i] by {
        assert(0 <= order[i] < seen.len());
        lemma_seen_occur(rows, codes, order[i] as int);
    }
}

proof fn lemma_seen_occur(rows: Seq<u32>, codes: Seq<u32>, k: int)
    requires
        0 <= k < seen_codes(rows, codes).len(),
    ensures
        exists|r: int|
            0 <= r < rows.len() && codes[#[trigger] rows[r] as int] == seen_codes(rows, codes)[k],
    decreases rows.len(),
{
    let front = rows.drop_last();
    let seen = seen_codes(front, codes);
    if k < seen.len() {
        lemma_seen_occur(front, codes, k);
        let r = choose|r: int|
            0 <= r < front.len() && codes[#[trigger] front[r] as int] == seen[k];
        assert(rows[r] == front[r]);
    } else {
        assert(rows[rows.len() - 1] == rows.last());
    }
}

/// The knots and values of a feature that thresholds split: the numbers of a numeric one, the
/// encoded values of a high-card one.
pub open spec fn split_values(fe: FeatureEncoder, col: EncCol) -> Option<(Seq<F32>, Seq<F32>)> {
    match (fe, col) {
        (FeatureEncoder::Numeric(e), EncCol::Num(v)) => Some((e.knots@, v@)),
        (FeatureEncoder::HighCard(e), EncCol::HighCard { enc, .. }) => Some((e.enc_knots@, enc@)),
        _ => None,
    }
}

/// The score of a node is that of all its rows, under the criterion that scores the sides.
pub proof fn lemma_parent_scores_rows<A: Arith, T>(
    ring: Ring<T>,
    val: spec_fn(F64) -> Option<T>,
    rows: Seq<u32>,
    fe: FeatureEncoder,
    col: EncCol,
    g: Seq<F32>,
    h: Seq<F32>,
    cfg: Config,
    s: F64,
)
    requires
        ring.obeys_laws(),
        stays_exact::<A, T>(ring, val),
        negates_exactly(ring, val),
        deterministic::<A>(),
        is_parent_score::<A>(rows, fe, col, g, h, cfg, s),
    ensures
        is_rows_score::<A, T>(
            ring,
            val,
            cfg.gain,
            split_values(fe, col),
            g,
            h,
            rows,
            cfg.lambda.spec_widened(),
            s,
        ),
{
    let lam = cfg.lambda.spec_widened();
    match (cfg.gain, split_values(fe, col)) {
        (GainKind::LeafAware, Some((knots, vals))) => {
            lemma_parent_linear_scores_rows::<A, T>(ring, val, rows, vals, knots, g, h, lam, s);
        },
        _ => {
            lemma_parent_const_scores_rows::<A, T>(ring, val, rows, g, h, lam, s);
        },
    }
}

/// The candidate sends a row left.
pub open spec fn is_sent_left(c: Candidate, fe: FeatureEncoder, col: EncCol) -> spec_fn(u32) -> bool {
    |r: u32|
        match (c.split, col) {
            (Split::Numeric { thr }, _) => is_below(
                (split_values(fe, col)->0).1,
                thr,
                c.default_left,
            )(r),
            (Split::Categorical { left_set }, EncCol::Cat(codes)) => is_among(
                codes@,
                left_set@,
            )(r),
            _ => c.default_left,
        }
}

/// The candidate sends a row right.
pub open spec fn is_sent_right(
    c: Candidate,
    fe: FeatureEncoder,
    col: EncCol,
) -> spec_fn(u32) -> bool {
    |r: u32| !is_sent_left(c, fe, col)(r)
}

/// A candidate of a feature gains what the rows that it sends left and right score more than all
/// rows, and leaves enough rows on both sides. `s` are the scores of the two sides and the whole.
pub open spec fn is_candidate_of<A: Arith, T>(
    ring: Ring<T>,
    val: spec_fn(F64) -> Option<T>,
    rows: Seq<u32>,
    fe: FeatureEncoder,
    col: EncCol,
    g: Seq<F32>,
    h: Seq<F32>,
    cfg: Config,
    c: Candidate,
    s: (F64, F64, F64),
) -> bool {
    let lam = cfg.lambda.spec_widened();
    let values = split_values(fe, col);
    let lefts = rows.filter(is_sent_left(c, fe, col));
    let rights = rows.filter(is_sent_right(c, fe, col));
    &&& c.split is Numeric <==> values is Some
    &&& lefts.len() >= cfg.min_leaf_samples
    &&& rights.len() >= cfg.min_leaf_samples
    &&& is_rows_score::<A, T>(ring, val, cfg.gain, values, g, h, lefts, lam, s.0)
    &&& is_rows_score::<A, T>(ring, val, cfg.gain, values, g, h, rights, lam, s.1)
    &&& is_rows_score::<A, T>(ring, val, cfg.gain, values, g, h, rows, lam, s.2)
    &&& is_excess(ring, val, s.0, s.1, s.2, c.gain)
}

/// The best split of a feature gains `sL + sR - sP`, with the scores those of the rows on the
/// left, on the right, and of all.
pub proof fn lemma_feature_split_gains<A: Arith, T>(
    ring: Ring<T>,
    val: spec_fn(F64) -> Option<T>,
    rows: Seq<u32>,
    fe: FeatureEncoder,
    col: EncCol,
    g: Seq<F32>,
    h: Seq<F32>,
    cfg: Config,
    c: Candidate,
) -> (s: (F64, F64, F64))
    requires
        ring.obeys_laws(),
        stays_exact::<A, T>(ring, val),
        stays_exact32::<A, T>(ring, val),
        negates_exactly(ring, val),
        deterministic::<A>(),
        split_values(fe, col) is Some ==> ascending((split_values(fe, col)->0).0),
        rows.len() <= usize::MAX,
        is_feature_split::<A>(rows, fe, col, g, h, cfg, Some(c)),
    ensures
        is_candidate_of::<A, T>(ring, val, rows, fe, col, g, h, cfg, c, s),
{
    let parent = choose|parent: F64| #[trigger]
        is_parent_score::<A>(rows, fe, col, g, h, cfg, parent) && match (fe, col) {
            (FeatureEncoder::Numeric(e), EncCol::Num(vals)) => is_best_numeric::<A>(
                rows,
                vals@,
                e.knots@,
                g,
                h,
                cfg,
                parent,
                Some(c),
            ),
            (FeatureEncoder::HighCard(e), EncCol::HighCard { enc, .. }) => is_best_numeric::<A>(
                rows,
                enc@,
                e.enc_knots@,
                g,
                h,
                cfg,
                parent,
                Some(c),
            ),
            (FeatureEncoder::BoundedCat(_), EncCol::Cat(codes)) => is_best_categorical::<A>(
                rows,
                codes@,
                g,
                h,
                cfg,
                parent,
                Some(c),
            ),
            _ => Some(c) is None,
        };
    lemma_parent_scores_rows::<A, T>(ring, val, rows, fe, col, g, h, cfg, parent);
    let values = split_values(fe, col);
    let (inside, outside) = (is_sent_left(c, fe, col), is_sent_right(c, fe, col));
    let (lefts, rights) = match (fe, col) {
        (FeatureEncoder::Numeric(e), EncCol::Num(vals)) => lemma_threshold_split::<A, T>(
            ring,
            val,
            rows,
            vals,
            e.knots@,
            g,
            h,
            cfg,
            parent,
            c,
        ),
        (FeatureEncoder::HighCard(e), EncCol::HighCard { enc, .. }) => lemma_threshold_split::<
            A,
            T,
        >(ring, val, rows, enc, e.enc_knots@, g, h, cfg, parent, c),
        (FeatureEncoder::BoundedCat(_), EncCol::Cat(codes)) => {
            let found = lemma_categorical_search_finds_best::<A, T>(
                ring,
                val,
                rows,
                codes@,
                g,
                h,
                cfg,
                parent,
                Some(c),
            );
            let set = found.0.take(found.4 + 1);
            assert(found.3[found.4] == Some(c.gain));
            (is_among(codes@, set), is_not_among(codes@, set))
        },
        _ => (inside, outside),
    };
    assert(is_gain_of::<A, T>(
        ring,
        val,
        cfg,
        values,
        g,
        h,
        rows.filter(lefts),
        rows.filter(rights),
        parent,
        Some(c.gain),
    ));
    lemma_filter_agree(rows, lefts, inside);
    lemma_filter_agree(rows, rights, outside);
    let (sl, sr) = choose|sl: F64, sr: F64|
        {
            let lam = cfg.lambda.spec_widened();
            &&& #[trigger] is_excess(ring, val, sl, sr, parent, c.gain)
            &&& is_rows_score::<A, T>(
                ring,
                val,
                cfg.gain,
                values,
                g,
                h,
                rows.filter(lefts),
                lam,
                sl,
            )
            &&& is_rows_score::<A, T>(
                ring,
                val,
                cfg.gain,
                values,
                g,
                h,
                rows.filter(rights),
                lam,
                sr,
            )
        };
    (sl, sr, parent)
}

proof fn lemma_threshold_split<A: Arith, T>(
    ring: Ring<T>,
    val: spec_fn(F64) -> Option<T>,
    rows: Seq<u32>,
    vals: Vec<F32>,
    knots: Seq<F32>,
    g: Seq<F32>,
    h: Seq<F32>,
    cfg: Config,
    parent: F64,
    c: Candidate,
) -> (sides: (spec_fn(u32) -> bool, spec_fn(u32) -> bool))
    requires
        ring.obeys_laws(),
        stays_exact::<A, T>(ring, val),
        stays_exact32::<A, T>(ring, val),
        negates_exactly(ring, val),
        deterministic::<A>(),
        ascending(knots),
        is_best_numeric::<A>(rows, vals@, knots, g, h, cfg, parent, Some(c)),
    ensures
        c.split is Numeric,
        sides.0 == is_below(vals@, c.split->thr, c.default_left),
        sides.1 == is_above(vals@, c.split->thr, c.default_left),
        is_gain_of::<A, T>(
            ring,
            val,
            cfg,
            Some((knots, vals@)),
            g,
            h,
            rows.filter(sides.0),
            rows.filter(sides.1),
            parent,
            Some(c.gain),
        ),
{
    let gains = lemma_numeric_search_finds_best::<A, T>(
        ring,
        val,
        rows,
        vals,
        knots,
        g,
        h,
        cfg,
        parent,
        Some(c),
    );
    let j = choose|j: int| #[trigger]
        is_best_gain(gains, j, c.gain) && c.split == (Split::Numeric { thr: knots[j / 2] })
            && c.default_left == (j % 2 == 0);
    let t = j / 2;
    let dl = c.default_left;
    let (lefts, rights) = (is_below(vals@, knots[t], dl), is_above(vals@, knots[t], dl));
    assert(gains[if dl {
        2 * t
    } else {
        2 * t + 1
    }] == gains[j]);
    (lefts, rights)
}

/// What the search over all features finds: the best splits of the features, and of these the
/// first that gains most, if any gains something.
pub proof fn lemma_best_split_gains_most<A: Arith, T>(
    ring: Ring<T>,
    val: spec_fn(F64) -> Option<T>,
    rows: Seq<u32>,
    encoders: Encoders,
    matrix: EncodedMatrix,
    g: Seq<F32>,
    h: Seq<F32>,
    cfg: Config,
    r: Option<Candidate>,
) -> (found: (Seq<Option<Candidate>>, (F64, F64, F64)))
    requires
        ring.obeys_laws(),
        stays_exact::<A, T>(ring, val),
        stays_exact32::<A, T>(ring, val),
        negates_exactly(ring, val),
        deterministic::<A>(),
        rows.len() <= usize::MAX,
        searchable(encoders, matrix, matrix.n_rows as int),
        is_best_split::<A>(rows, encoders, matrix, g, h, cfg, r),
    ensures
        found.0.len() == if encoders.features.len() < matrix.cols.len() {
            encoders.features.len()
        } else {
            matrix.cols.len()
        },
        forall|i: int|
            0 <= i < found.0.len() ==> is_feature_split::<A>(
                rows,
                encoders.features[i],
                matrix.cols[i],
                g,
                h,
                cfg,
                #[trigger] found.0[i],
            ),
        r is None ==> forall|i: int|
            0 <= i < found.0.len() && (#[trigger] found.0[i]) is Some ==> !F32::zero().lt(
                (found.0[i]->0).gain,
            ),
        r matches Some(c) ==> {
            let i = c.feature as int;
            &&& F32::zero().lt(c.gain)
            &&& 0 <= i < found.0.len()
            &&& is_candidate_of::<A, T>(
                ring,
                val,
                rows,
                encoders.features[i],
                matrix.cols[i],
                g,
                h,
                cfg,
                c,
                found.1,
            )
            &&& forall|k: int|
                0 <= k < found.0.len() && (#[trigger] found.0[k]) is Some && F32::zero().lt(
                    (found.0[k]->0).gain,
                ) ==> (found.0[k]->0).gain.le(c.gain) && (k < i ==> (found.0[k]->0).gain.lt(c.gain))
        },
{
    let cands = choose|cands: Seq<Option<Candidate>>| #[trigger]
        are_feature_splits::<A>(rows, encoders.features@, matrix.cols@, g, h, cfg, cands)
            && is_split_pick(cands, r);
    let gains = positive_gains(cands);
    lemma_scan_finds_best(gains);
    assert forall|i: int| 0 <= i < gains.len() implies #[trigger] gains[i] == positive_gain(
        cands[i],
    ) by {}
    match r {
        None => {
            assert forall|i: int|
                0 <= i < cands.len() && (#[trigger] cands[i]) is Some implies !F32::zero().lt(
                (cands[i]->0).gain,
            ) by {
                assert(gains[i] is None);
            }
            (cands, (F64::zero(), F64::zero(), F64::zero()))
        },
        Some(c) => {
            let j = scan_best(gains)->0;
            assert(is_best_gain(gains, j, gains[j]->0));
            let d = cands[j]->0;
            let (fe, col) = (encoders.features[j], matrix.cols[j]);
            assert(is_feature_split::<A>(rows, fe, col, g, h, cfg, cands[j]));
            assert(feature_searchable(fe, col, matrix.n_rows as int));
            let s = lemma_feature_split_gains::<A, T>(ring, val, rows, fe, col, g, h, cfg, d);
            assert(is_sent_left(c, fe, col) =~= is_sent_left(d, fe, col));
            assert(is_sent_right(c, fe, col) =~= is_sent_right(d, fe, col));
            assert forall|k: int|
                0 <= k < cands.len() && (#[trigger] cands[k]) is Some && F32::zero().lt(
                    (cands[k]->0).gain,
                ) implies (cands[k]->0).gain.le(c.gain) && (k < j ==> (cands[k]->0).gain.lt(
                c.gain,
            )) by {
                assert(gains[k] is Some);
            }
            (cands, s)
        },
    }
}

/// The gradients of the rows are `ratio` times their hessians.
pub open spec fn share_ratio<T>(
    ring: Ring<T>,
    val: spec_fn(F64) -> Option<T>,
    g: Seq<F32>,
    h: Seq<F32>,
    rows: Seq<u32>,
    ratio: T,
) -> bool {
    forall|i: int|
        0 <= i < rows.len() ==> row_val(val, g)(#[trigger] rows[i]) == ring.product(
            ratio,
            row_val(val, h)(rows[i]),
        )
}

/// Rows of one ratio score `ratio · G`.
proof fn lemma_ratio_scored<T>(
    ring: Ring<T>,
    val: spec_fn(F64) -> Option<T>,
    g: Seq<F32>,
    h: Seq<F32>,
    all: Seq<u32>,
    kept: spec_fn(u32) -> bool,
    ratio: T,
    lam: F64,
    s: F64,
)
    requires
        ring.obeys_laws(),
        share_ratio(ring, val, g, h, all, ratio),
        ring.cancels(ring.total(row_val(val, h), all.filter(kept))),
        val(lam) == Some(ring.zero),
        is_constant_score(ring, val, g, h, all.filter(kept), lam, s),
        val(s) is Some,
    ensures
        val(s)->0 == ring.product(ratio, ring.total(row_val(val, g), all.filter(kept))),
{
    let rows = all.filter(kept);
    let (fg, fh) = (row_val(val, g), row_val(val, h));
    let (gs, hs) = (ring.total(fg, rows), ring.total(fh, rows));
    lemma_filter_props(all, kept);
    assert forall|i: int| 0 <= i < rows.len() implies fg(#[trigger] rows[i]) == ring.sum_of(
        ring.product(ratio, fh(rows[i])),
        ring.product(ring.zero, fh(rows[i])),
    ) by {
        assert(all.contains(rows[i]));
        let k = choose|k: int| 0 <= k < all.len() && all[k] == rows[i];
        assert(fg(all[k]) == ring.product(ratio, fh(all[k])));
        ring.lemma_product_with_zero(fh(rows[i]));
        ring.lemma_sum_with_zero(ring.product(ratio, fh(rows[i])));
    }
    ring.lemma_total_combines(ratio, fh, ring.zero, fh, fg, rows);
    ring.lemma_product_with_zero(hs);
    ring.lemma_sum_with_zero(ring.product(ratio, hs));
    assert(gs == ring.product(ratio, hs));
    ring.lemma_sum_with_zero(hs);
    ring.lemma_product_commutes(val(s)->0, hs);
    ring.lemma_factors_move(gs, ratio, hs);
    assert(ring.product(hs, val(s)->0) == ring.product(hs, ring.product(ratio, gs)));
}

/// Under the constant-leaf criterion rows of one ratio of gradient to hessian earn nothing: the
/// same constant fits both sides, so no split of them gains anything. This is so without the L2
/// term, which shrinks every constant.
pub proof fn lemma_common_ratio_earns_nothing<A: Arith, T>(
    ring: Ring<T>,
    val: spec_fn(F64) -> Option<T>,
    rows: Seq<u32>,
    fe: FeatureEncoder,
    col: EncCol,
    g: Seq<F32>,
    h: Seq<F32>,
    cfg: Config,
    c: Candidate,
    ratio: T,
)
    requires
        ring.obeys_laws(),
        stays_exact::<A, T>(ring, val),
        stays_exact32::<A, T>(ring, val),
        negates_exactly(ring, val),
        deterministic::<A>(),
        split_values(fe, col) is Some ==> ascending((split_values(fe, col)->0).0),
        rows.len() <= usize::MAX,
        is_feature_split::<A>(rows, fe, col, g, h, cfg, Some(c)),
        cfg.gain is Constant || split_values(fe, col) is None,
        val(cfg.lambda.spec_widened()) == Some(ring.zero),
        share_ratio(ring, val, g, h, rows, ratio),
        ring.cancels(ring.total(row_val(val, h), rows)),
        ring.cancels(ring.total(row_val(val, h), rows.filter(is_sent_left(c, fe, col)))),
        ring.cancels(ring.total(row_val(val, h), rows.filter(is_sent_right(c, fe, col)))),
        val(c.gain.spec_widened()) is Some,
    ensures
        val(c.gain.spec_widened())->0 == ring.zero,
{
    let (sl, sr, sp) = lemma_feature_split_gains::<A, T>(
        ring,
        val,
        rows,
        fe,
        col,
        g,
        h,
        cfg,
        c,
    );
    let lam = cfg.lambda.spec_widened();
    let (inside, outside) = (is_sent_left(c, fe, col), is_sent_right(c, fe, col));
    let any = |r: u32| true;
    let fg = row_val(val, g);
    lemma_filter_all(rows, any);
    lemma_ratio_scored(ring, val, g, h, rows, inside, ratio, lam, sl);
    lemma_ratio_scored(ring, val, g, h, rows, outside, ratio, lam, sr);
    lemma_ratio_scored(ring, val, g, h, rows, any, ratio, lam, sp);
    ring.lemma_total_splits(fg, rows, inside, outside, any);
    let (gl, gr) = (ring.total(fg, rows.filter(inside)), ring.total(fg, rows.filter(outside)));
    ring.lemma_product_distributes(ratio, gl, gr);
    ring.lemma_sum_with_zero(val(sp)->0);
    ring.lemma_sum_undone(ring.zero, val(sp)->0);
}

} // verus!
