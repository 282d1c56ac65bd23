//! What a leaf does with its rows: scores, gradients, hessians and the fitted weights in terms
//! of the rows, their labels and their weights.

use vstd::prelude::*;
use crate::arith::{
    folds, is_diff, is_exp, is_exp32, is_ln, is_log_odds, is_logistic, is_logistic32, is_narrow,
    is_prod, is_quot, is_quot32, is_sum, is_sum32, is_trace, item_step, lemma_folds_last,
    lemma_runs_last, max_rate, min_rate, runs, Arith,
};
use crate::encoding::{is_label_added, is_row_basis, EncodedMatrix, Encoders};
use crate::exact::{
    is_kept_inside, labels_stand, lemma_fold_stays, lemma_fold_total, lemma_fold_total_from,
    never_leaves, never_leaves32, stays_exact, stays_exact32, sums_exactly32, Ring,
};
use crate::float::{F32, F64};
use crate::leaf_model::{
    active_slots, add_row_label, add_row_weight, add_term, are_derivatives, are_row_bases,
    first_weights, is_base_rate, is_initial_bias, is_leaf_fit, is_leaf_of, is_linear_fit,
    is_newton_end, is_newton_fit, is_newton_step, is_newton_system, is_row_stat, is_score,
    is_term_added, is_weight_added, local_row, local_rows, local_slot, newton, with_slots, Leaf,
    Problem,
};
use crate::normal_equations::{
    are_normal_equations, are_row_stats, cell, design, exact_matrix, exact_vector, inner_term,
    lemma_active_slots_hold, lemma_newton_system_is_normal_equations, outer_term, slot_sum,
    slots_after_intercept,
};
use crate::{Config, LeafKind};

verus! {

/// `p` is the logistic function of `x`, and `e` is `exp(-x)`: `p · (1 + e) = 1`.
pub open spec fn is_share_of_odds<A: Arith, T>(
    ring: Ring<T>,
    val: spec_fn(F64) -> Option<T>,
    x: F64,
    e: F64,
    p: F64,
) -> bool {
    let whole = ring.sum_of(ring.one, val(e)->0);
    &&& is_exp::<A>(x.spec_negated(), e)
    &&& val(p) is Some ==> val(e) is Some && ring.product(val(p)->0, whole) == ring.one
    &&& never_leaves::<A, T>(ring, val) && val(e) is Some && whole != ring.zero ==> val(p) is Some
}

/// The logistic function undoes odds: `p · (1 + exp(-x)) = 1`.
pub proof fn lemma_logistic_is_share<A: Arith, T>(
    ring: Ring<T>,
    val: spec_fn(F64) -> Option<T>,
    x: F64,
    p: F64,
) -> (e: F64)
    requires
        stays_exact::<A, T>(ring, val),
        is_logistic::<A>(x, p),
    ensures
        is_share_of_odds::<A, T>(ring, val, x, e, p),
{
    let (e, d) = choose|e: F64, d: F64| #[trigger]
        is_exp::<A>(x.spec_negated(), e) && #[trigger] is_sum::<A>(F64::one(), e, d) && is_quot::<
            A,
        >(F64::one(), d, p);
    e
}

/// The same in single precision.
pub proof fn lemma_logistic32_is_share<A: Arith, T>(
    ring: Ring<T>,
    val: spec_fn(F64) -> Option<T>,
    x: F32,
    p: F32,
) -> (e: F32)
    requires
        stays_exact32::<A, T>(ring, val),
        sums_exactly32::<A, T>(ring, val),
        is_logistic32::<A>(x, p),
    ensures
        is_exp32::<A>(x.spec_negated(), e),
        val(p.spec_widened()) is Some ==> val(e.spec_widened()) is Some && ring.product(
            val(p.spec_widened())->0,
            ring.sum_of(ring.one, val(e.spec_widened())->0),
        ) == ring.one,
        never_leaves32::<A, T>(ring, val) && val(e.spec_widened()) is Some && ring.sum_of(
            ring.one,
            val(e.spec_widened())->0,
        ) != ring.zero ==> val(p.spec_widened()) is Some,
{
    let (e, d) = choose|e: F32, d: F32| #[trigger]
        is_exp32::<A>(x.spec_negated(), e) && #[trigger] is_sum32::<A>(F32::one(), e, d)
            && is_quot32::<A>(F32::one(), d, p);
    e
}

/// The log-odds of a rate are the logarithm of odds `q` with `q · (1 - rate) = rate`.
pub proof fn lemma_log_odds_are_of_odds<A: Arith, T>(
    ring: Ring<T>,
    val: spec_fn(F64) -> Option<T>,
    rate: F64,
    l: F64,
) -> (q: F64)
    requires
        stays_exact::<A, T>(ring, val),
        is_log_odds::<A>(rate, l),
    ensures
        is_ln::<A>(q, l),
        val(q) is Some ==> val(rate) is Some && ring.product(
            val(q)->0,
            ring.difference(ring.one, val(rate)->0),
        ) == val(rate)->0,
        never_leaves::<A, T>(ring, val) && val(rate) is Some && ring.difference(
            ring.one,
            val(rate)->0,
        ) != ring.zero ==> val(q) is Some,
{
    let (d, q) = choose|d: F64, q: F64| #[trigger]
        is_diff::<A>(F64::one(), rate, d) && #[trigger] is_quot::<A>(rate, d, q) && is_ln::<A>(q, l);
    q
}

/// What an entry adds to a score: its weight times its value.
pub open spec fn scored<T>(
    ring: Ring<T>,
    val: spec_fn(F64) -> Option<T>,
    w: Seq<F64>,
) -> spec_fn((usize, F64)) -> T {
    |x: (usize, F64)| ring.product(val(w[x.0 as int])->0, val(x.1)->0)
}

/// What a score is made of is exact.
pub open spec fn score_parts_exact<T>(
    val: spec_fn(F64) -> Option<T>,
    s0: F32,
    w: Seq<F64>,
    e: Seq<(usize, F64)>,
) -> bool {
    &&& val(s0.spec_widened()) is Some
    &&& val(w[0]) is Some
    &&& forall|m: int|
        0 <= m < e.len() ==> val(w[(#[trigger] e[m]).0 as int]) is Some && val(e[m].1) is Some
}

/// The score of a row is the base score, the intercept and the weighted entries.
pub proof fn lemma_score_adds_up<A: Arith, T>(
    ring: Ring<T>,
    val: spec_fn(F64) -> Option<T>,
    s0: F32,
    w: Seq<F64>,
    e: Seq<(usize, F64)>,
    s: F64,
)
    requires
        ring.obeys_laws(),
        stays_exact::<A, T>(ring, val),
        is_score::<A>(s0, w, e, s),
    ensures
        val(s) is Some ==> val(s)->0 == ring.sum_of(
            ring.sum_of(val(s0.spec_widened())->0, val(w[0])->0),
            ring.total(scored(ring, val, w), e),
        ),
        never_leaves::<A, T>(ring, val) && score_parts_exact(val, s0, w, e) ==> val(s) is Some,
{
    let init = choose|init: F64| #[trigger]
        is_sum::<A>(s0.spec_widened(), w[0], init) && folds(init, e, add_term::<A>(w), s);
    let step = add_term::<A>(w);
    let f = scored(ring, val, w);
    if val(s) is Some {
        assert forall|i: int, a: F64, b: F64|
            0 <= i < e.len() && #[trigger] step(e[i], a, b) && val(b) is Some implies val(a)
            is Some && val(b)->0 == ring.sum_of(val(a)->0, f(e[i])) by {
            assert(is_term_added::<A>(w[e[i].0 as int], e[i].1, a, b));
        }
        lemma_fold_total_from(ring, val, init, e, step, f, s);
    }
    if never_leaves::<A, T>(ring, val) && score_parts_exact(val, s0, w, e) {
        assert forall|i: int, a: F64, b: F64|
            0 <= i < e.len() && #[trigger] step(e[i], a, b) && val(a) is Some implies val(b)
            is Some by {
            assert(is_term_added::<A>(w[e[i].0 as int], e[i].1, a, b));
            assert(val(w[e[i].0 as int]) is Some && val(e[i].1) is Some);
        }
        lemma_fold_stays(val, init, e, step, s);
    }
}

/// Gradient and hessian of a row with probability `p`: its weight times how far `p` is from the
/// label, and its weight times `p (1 - p)`.
pub open spec fn are_weighed_derivatives<A: Arith, T>(
    ring: Ring<T>,
    val: spec_fn(F64) -> Option<T>,
    p: F64,
    label: u8,
    weight: F32,
    gi: F64,
    hi: F64,
) -> bool {
    let (c, pv) = (val(weight.spec_widened()), val(p));
    &&& val(gi) is Some ==> c is Some && pv is Some && val(gi)->0 == ring.product(
        c->0,
        ring.difference(pv->0, ring.count(label as int)),
    )
    &&& val(hi) is Some ==> c is Some && pv is Some && val(hi)->0 == ring.product(
        c->0,
        ring.product(pv->0, ring.difference(ring.one, pv->0)),
    )
    &&& never_leaves::<A, T>(ring, val) && c is Some && pv is Some ==> val(gi) is Some && val(hi)
        is Some
}

/// `p` is the probability of a row at weights `w`: the logistic function of its score `s`, with
/// `e` the exponential of minus the score.
pub open spec fn is_row_probability<A: Arith, T>(
    ring: Ring<T>,
    val: spec_fn(F64) -> Option<T>,
    s0: F32,
    w: Seq<F64>,
    entries: Seq<(usize, F64)>,
    s: F64,
    e: F64,
    p: F64,
) -> bool {
    &&& val(s) is Some ==> val(s)->0 == ring.sum_of(
        ring.sum_of(val(s0.spec_widened())->0, val(w[0])->0),
        ring.total(scored(ring, val, w), entries),
    )
    &&& never_leaves::<A, T>(ring, val) && score_parts_exact(val, s0, w, entries) ==> val(s)
        is Some
    &&& is_share_of_odds::<A, T>(ring, val, s, e, p)
}

/// A row's gradient is its class weight times `p - y` and its hessian the weight times
/// `p (1 - p)`, with `p` the logistic function of `s_0 + bias + Σ w·φ`.
pub proof fn lemma_row_stat_weighs_row<A: Arith, T>(
    ring: Ring<T>,
    val: spec_fn(F64) -> Option<T>,
    s0: F32,
    w: Seq<F64>,
    entries: Seq<(usize, F64)>,
    label: u8,
    weight: F32,
    gi: F64,
    hi: F64,
) -> (r: (F64, F64, F64))
    requires
        ring.obeys_laws(),
        stays_exact::<A, T>(ring, val),
        labels_stand(ring, val),
        is_row_stat::<A>(s0, w, entries, label, weight, gi, hi),
    ensures
        is_row_probability::<A, T>(ring, val, s0, w, entries, r.0, r.1, r.2),
        are_weighed_derivatives::<A, T>(ring, val, r.2, label, weight, gi, hi),
{
    let (s, p) = choose|s: F64, p: F64| #[trigger]
        is_score::<A>(s0, w, entries, s) && #[trigger] is_logistic::<A>(s, p)
            && are_derivatives::<A>(p, label, weight, gi, hi);
    lemma_score_adds_up::<A, T>(ring, val, s0, w, entries, s);
    let e = lemma_logistic_is_share::<A, T>(ring, val, s, p);
    let c = weight.spec_widened();
    let (u, cp, q) = choose|u: F64, cp: F64, q: F64| #[trigger]
        is_diff::<A>(p, F64::of_byte(label), u) && is_prod::<A>(c, u, gi) && #[trigger] is_prod::<
            A,
        >(c, p, cp) && #[trigger] is_diff::<A>(F64::one(), p, q) && is_prod::<A>(cp, q, hi);
    if val(hi) is Some {
        ring.lemma_product_associates(val(c)->0, val(p)->0, val(q)->0);
    }
    (s, e, p)
}

/// Every row has a probability at weights `w`.
pub open spec fn are_row_probabilities<A: Arith, T>(
    ring: Ring<T>,
    val: spec_fn(F64) -> Option<T>,
    s0: F32,
    w: Seq<F64>,
    local: Seq<Seq<(usize, F64)>>,
    ps: Seq<(F64, F64, F64)>,
) -> bool {
    forall|k: int|
        0 <= k < ps.len() ==> is_row_probability::<A, T>(
            ring,
            val,
            s0,
            w,
            local[k],
            (#[trigger] ps[k]).0,
            ps[k].1,
            ps[k].2,
        )
}

/// `c p (1 - p) x[i] x[j]` of row `k`.
pub open spec fn curvature<T>(
    ring: Ring<T>,
    val: spec_fn(F64) -> Option<T>,
    local: Seq<Seq<(usize, F64)>>,
    rows: Seq<u32>,
    weights: Seq<F32>,
    ps: Seq<(F64, F64, F64)>,
    i: int,
    j: int,
) -> spec_fn(int) -> T {
    |k: int|
        {
            let (c, p) = (val(weights[rows[k] as int].spec_widened())->0, val(ps[k].2)->0);
            ring.product(
                ring.product(c, ring.product(p, ring.difference(ring.one, p))),
                ring.product(design(ring, val, local[k], i), design(ring, val, local[k], j)),
            )
        }
}

/// `c (p - y) x[i]` of row `k`.
pub open spec fn slope<T>(
    ring: Ring<T>,
    val: spec_fn(F64) -> Option<T>,
    local: Seq<Seq<(usize, F64)>>,
    rows: Seq<u32>,
    labels: Seq<u8>,
    weights: Seq<F32>,
    ps: Seq<(F64, F64, F64)>,
    i: int,
) -> spec_fn(int) -> T {
    |k: int|
        {
            let (c, p) = (val(weights[rows[k] as int].spec_widened())->0, val(ps[k].2)->0);
            ring.product(
                ring.product(c, ring.difference(p, ring.count(labels[rows[k] as int] as int))),
                design(ring, val, local[k], i),
            )
        }
}

/// The Newton system is that of the weighted log-loss with L2: `A = Σ c p (1 - p) x xᵀ + λI` and
/// `b = Σ c (p - y) x + λ w`, with `x = [1, φ]`, `p` the rows' probabilities at `w`, and the
/// intercept unregularized.
pub proof fn lemma_newton_system_weighs_rows<A: Arith, T>(
    ring: Ring<T>,
    val: spec_fn(F64) -> Option<T>,
    q: Problem,
    local: Seq<Seq<(usize, F64)>>,
    rows: Seq<u32>,
    labels: Seq<u8>,
    weights: Seq<F32>,
    w: Seq<F64>,
    a: Seq<F64>,
    b: Seq<F64>,
) -> (ps: Seq<(F64, F64, F64)>)
    requires
        ring.obeys_laws(),
        stays_exact::<A, T>(ring, val),
        labels_stand(ring, val),
        is_newton_system::<A>(q, local, rows, labels, weights, w, a, b),
        q.d > 0,
        forall|k: int| 0 <= k < rows.len() ==> slots_after_intercept(#[trigger] local[k], q.d as int),
        exact_matrix(val, q.d as int, a),
        exact_vector(val, q.d as int, b),
    ensures
        ps.len() == rows.len(),
        are_row_probabilities::<A, T>(ring, val, q.s0, w, local, ps),
        forall|i: int, j: int|
            0 <= i < q.d && 0 <= j < q.d ==> val(#[trigger] cell(a, q.d as int, i, j)) == Some(
                ring.sum_of(
                    ring.sum_to(
                        curvature(ring, val, local, rows, weights, ps, i, j),
                        rows.len() as int,
                    ),
                    if i == j && i >= 1 {
                        val(q.lam)->0
                    } else {
                        ring.zero
                    },
                ),
            ),
        forall|i: int|
            0 <= i < q.d ==> val(#[trigger] b[i]) == Some(
                ring.sum_of(
                    ring.sum_to(
                        slope(ring, val, local, rows, labels, weights, ps, i),
                        rows.len() as int,
                    ),
                    if i >= 1 {
                        ring.product(val(q.lam)->0, val(w[i])->0)
                    } else {
                        ring.zero
                    },
                ),
            ),
{
    let (d, n) = (q.d as int, rows.len() as int);
    lemma_newton_system_is_normal_equations::<A, T>(
        ring,
        val,
        q,
        local,
        rows,
        labels,
        weights,
        w,
        a,
        b,
    );
    let (gs, hs) = choose|gs: Seq<F64>, hs: Seq<F64>| #[trigger]
        are_row_stats::<A>(q.s0, w, local, rows, labels, weights, rows.len(), gs, hs)
            && exact_vector(val, n, gs) && exact_vector(val, n, hs) && are_normal_equations(
            ring,
            val,
            local,
            gs,
            hs,
            q.lam,
            w,
            d,
            a,
            b,
        );
    let ps = lemma_rows_weighed::<A, T>(
        ring,
        val,
        q.s0,
        w,
        local,
        rows,
        labels,
        weights,
        gs,
        hs,
        n,
    );
    assert forall|i: int, j: int| 0 <= i < d && 0 <= j < d implies ring.sum_to(
        outer_term(ring, val, local, hs, i, j),
        n,
    ) == ring.sum_to(#[trigger] curvature(ring, val, local, rows, weights, ps, i, j), n) by {
        let f = outer_term(ring, val, local, hs, i, j);
        let g = curvature(ring, val, local, rows, weights, ps, i, j);
        assert forall|k: int| 0 <= k < n implies #[trigger] f(k) == g(k) by {
            assert(val(hs[k]) is Some);
            assert(val(ps[k].2) is Some);
        }
        ring.lemma_sum_agrees(f, g, n);
    }
    assert forall|i: int| 0 <= i < d implies ring.sum_to(inner_term(ring, val, local, gs, i), n)
        == ring.sum_to(#[trigger] slope(ring, val, local, rows, labels, weights, ps, i), n) by {
        let f = inner_term(ring, val, local, gs, i);
        let g = slope(ring, val, local, rows, labels, weights, ps, i);
        assert forall|k: int| 0 <= k < n implies #[trigger] f(k) == g(k) by {
            assert(val(gs[k]) is Some);
            assert(val(ps[k].2) is Some);
        }
        ring.lemma_sum_agrees(f, g, n);
    }
    assert forall|i: int, j: int| 0 <= i < d && 0 <= j < d implies val(
        #[trigger] cell(a, d, i, j),
    ) == Some(
        ring.sum_of(
            ring.sum_to(curvature(ring, val, local, rows, weights, ps, i, j), n),
            if i == j && i >= 1 {
                val(q.lam)->0
            } else {
                ring.zero
            },
        ),
    ) by {
        assert(ring.sum_to(outer_term(ring, val, local, hs, i, j), n) == ring.sum_to(
            curvature(ring, val, local, rows, weights, ps, i, j),
            n,
        ));
    }
    ps
}

proof fn lemma_rows_weighed<A: Arith, T>(
    ring: Ring<T>,
    val: spec_fn(F64) -> Option<T>,
    s0: F32,
    w: Seq<F64>,
    local: Seq<Seq<(usize, F64)>>,
    rows: Seq<u32>,
    labels: Seq<u8>,
    weights: Seq<F32>,
    gs: Seq<F64>,
    hs: Seq<F64>,
    n: int,
) -> (ps: Seq<(F64, F64, F64)>)
    requires
        ring.obeys_laws(),
        stays_exact::<A, T>(ring, val),
        labels_stand(ring, val),
        0 <= n <= rows.len(),
        are_row_stats::<A>(s0, w, local, rows, labels, weights, rows.len(), gs, hs),
    ensures
        ps.len() == n,
        are_row_probabilities::<A, T>(ring, val, s0, w, local, ps),
        forall|k: int|
            0 <= k < n ==> are_weighed_derivatives::<A, T>(
                ring,
                val,
                (#[trigger] ps[k]).2,
                labels[rows[k] as int],
                weights[rows[k] as int],
                gs[k],
                hs[k],
            ),
    decreases n,
{
    if n > 0 {
        let front = lemma_rows_weighed::<A, T>(
            ring,
            val,
            s0,
            w,
            local,
            rows,
            labels,
            weights,
            gs,
            hs,
            n - 1,
        );
        let k = n - 1;
        assert(gs[k] == gs[k]);
        let last = lemma_row_stat_weighs_row::<A, T>(
            ring,
            val,
            s0,
            w,
            local[k],
            labels[rows[k] as int],
            weights[rows[k] as int],
            gs[k],
            hs[k],
        );
        let ps = front.push(last);
        assert forall|i: int| 0 <= i < n implies is_row_probability::<A, T>(
            ring,
            val,
            s0,
            w,
            local[i],
            (#[trigger] ps[i]).0,
            ps[i].1,
            ps[i].2,
        ) && are_weighed_derivatives::<A, T>(
            ring,
            val,
            ps[i].2,
            labels[rows[i] as int],
            weights[rows[i] as int],
            gs[i],
            hs[i],
        ) by {
            if i < k {
                assert(ps[i] == front[i]);
            }
        }
        ps
    } else {
        Seq::empty()
    }
}

/// The weight of a row.
pub open spec fn leaf_weight<T>(
    val: spec_fn(F64) -> Option<T>,
    weights: Seq<F32>,
) -> spec_fn(u32) -> T {
    |r: u32| val(weights[r as int].spec_widened())->0
}

/// The weight of a row times its label.
pub open spec fn leaf_positive_weight<T>(
    ring: Ring<T>,
    val: spec_fn(F64) -> Option<T>,
    labels: Seq<u8>,
    weights: Seq<F32>,
) -> spec_fn(u32) -> T {
    |r: u32|
        ring.product(
            val(weights[r as int].spec_widened())->0,
            ring.count(labels[r as int] as int),
        )
}

/// A leaf at its weighted base rate has no intercept gradient: where every row has the same
/// probability, and that is the positive share of the rows' weight, the slopes of the intercept
/// add up to zero.
pub proof fn lemma_base_rate_has_no_slope<T>(
    ring: Ring<T>,
    val: spec_fn(F64) -> Option<T>,
    local: Seq<Seq<(usize, F64)>>,
    rows: Seq<u32>,
    labels: Seq<u8>,
    weights: Seq<F32>,
    ps: Seq<(F64, F64, F64)>,
    rate: T,
)
    requires
        ring.obeys_laws(),
        ps.len() == rows.len(),
        forall|k: int| 0 <= k < ps.len() ==> val((#[trigger] ps[k]).2) == Some(rate),
        ring.product(rate, ring.total(leaf_weight(val, weights), rows)) == ring.total(
            leaf_positive_weight(ring, val, labels, weights),
            rows,
        ),
    ensures
        ring.sum_to(slope(ring, val, local, rows, labels, weights, ps, 0), rows.len() as int)
            == ring.zero,
{
    let f = slope(ring, val, local, rows, labels, weights, ps, 0);
    let (c, cy) = (leaf_weight(val, weights), leaf_positive_weight(ring, val, labels, weights));
    let n = rows.len() as int;
    lemma_slopes_summed(ring, val, local, rows, labels, weights, ps, rate, n);
    assert(rows.take(n) =~= rows);
    let t = ring.total(cy, rows);
    ring.lemma_sum_with_zero(t);
    ring.lemma_sum_undone(ring.sum_to(f, n), t);
    ring.lemma_sum_undone(ring.zero, t);
}

proof fn lemma_slopes_summed<T>(
    ring: Ring<T>,
    val: spec_fn(F64) -> Option<T>,
    local: Seq<Seq<(usize, F64)>>,
    rows: Seq<u32>,
    labels: Seq<u8>,
    weights: Seq<F32>,
    ps: Seq<(F64, F64, F64)>,
    rate: T,
    n: int,
)
    requires
        ring.obeys_laws(),
        ps.len() == rows.len(),
        0 <= n <= rows.len(),
        forall|k: int| 0 <= k < ps.len() ==> val((#[trigger] ps[k]).2) == Some(rate),
    ensures
        ring.sum_of(
            ring.sum_to(slope(ring, val, local, rows, labels, weights, ps, 0), n),
            ring.total(leaf_positive_weight(ring, val, labels, weights), rows.take(n)),
        ) == ring.product(rate, ring.total(leaf_weight(val, weights), rows.take(n))),
    decreases n,
{
    let f = slope(ring, val, local, rows, labels, weights, ps, 0);
    let (c, cy) = (leaf_weight(val, weights), leaf_positive_weight(ring, val, labels, weights));
    if n > 0 {
        lemma_slopes_summed(ring, val, local, rows, labels, weights, ps, rate, n - 1);
        let (front, upto, r) = (rows.take(n - 1), rows.take(n), rows[n - 1]);
        assert(upto.drop_last() =~= front);
        assert(upto.last() == r);
        assert(val(ps[n - 1].2) == Some(rate));
        let (cv, y) = (c(r), ring.count(labels[r as int] as int));
        // f(n - 1) + c·y = c·rate.
        let d = ring.difference(rate, y);
        ring.lemma_product_with_one(ring.product(cv, d));
        ring.lemma_product_commutes(ring.product(cv, d), ring.one);
        assert(f(n - 1) == ring.product(cv, d));
        ring.lemma_difference_undone(rate, y);
        ring.lemma_product_distributes(cv, d, y);
        ring.lemma_product_commutes(cv, rate);
        ring.lemma_sums_interchange(
            ring.sum_to(f, n - 1),
            f(n - 1),
            ring.total(cy, front),
            cy(r),
        );
        ring.lemma_product_distributes(rate, ring.total(c, front), cv);
    } else {
        assert(rows.take(0) =~= Seq::<u32>::empty());
        ring.lemma_sum_with_zero(ring.zero);
        ring.lemma_product_with_zero(rate);
        ring.lemma_product_commutes(rate, ring.zero);
    }
}

/// What a leaf starts from. `wsum` is the weight of its rows, `rate` their positive share kept
/// inside `[1e-6, 1 - 1e-6]`, or one half where there is no weight, `q` the odds of that rate;
/// the intercept is the logarithm of the odds, less the base score.
pub open spec fn is_start_of<A: Arith, T>(
    ring: Ring<T>,
    val: spec_fn(F64) -> Option<T>,
    rows: Seq<u32>,
    labels: Seq<u8>,
    weights: Seq<F32>,
    s0: F32,
    wsum: F64,
    share: F64,
    rate: F64,
    q: F64,
    l: F64,
    b: F64,
) -> bool {
    let all = ring.total(leaf_weight(val, weights), rows);
    let pos = ring.total(leaf_positive_weight(ring, val, labels, weights), rows);
    &&& val(wsum) is Some ==> val(wsum)->0 == all
    &&& !F64::zero().lt(wsum) ==> rate == (F64 { bits: 0x3fe0_0000_0000_0000 })
    &&& F64::zero().lt(wsum) && val(share) is Some ==> ring.product(val(share)->0, all) == pos
    &&& F64::zero().lt(wsum) ==> is_kept_inside(
        share,
        F64 { bits: 0x3eb0_c6f7_a0b5_ed8d },
        F64 { bits: 0x3fef_fffd_e721_0be9 },
        rate,
    )
    &&& val(q) is Some ==> ring.product(val(q)->0, ring.difference(ring.one, val(rate)->0)) == val(
        rate,
    )->0
    &&& is_ln::<A>(q, l)
    &&& val(b) is Some ==> val(l) is Some && ring.sum_of(val(b)->0, val(s0.spec_widened())->0)
        == val(l)->0
}

/// A leaf starts at the log-odds of its weighted positive rate.
pub proof fn lemma_initial_bias_is_log_odds<A: Arith, T>(
    ring: Ring<T>,
    val: spec_fn(F64) -> Option<T>,
    rows: Seq<u32>,
    labels: Seq<u8>,
    weights: Seq<F32>,
    s0: F32,
    b: F64,
) -> (r: (F64, F64, F64, F64, F64))
    requires
        ring.obeys_laws(),
        stays_exact::<A, T>(ring, val),
        labels_stand(ring, val),
        is_initial_bias::<A>(rows, labels, weights, s0, b),
    ensures
        is_start_of::<A, T>(
            ring,
            val,
            rows,
            labels,
            weights,
            s0,
            r.0,
            r.1,
            r.2,
            r.3,
            r.4,
            b,
        ),
{
    let (wy, wsum, rate, l) = choose|wy: F64, wsum: F64, rate: F64, l: F64| #[trigger]
        folds(F64::zero(), rows, add_row_label::<A>(labels, weights), wy) && #[trigger] folds(
            F64::zero(),
            rows,
            add_row_weight::<A>(weights),
            wsum,
        ) && #[trigger] is_base_rate::<A>(wy, wsum, rate) && #[trigger] is_log_odds::<A>(rate, l)
            && is_diff::<A>(l, s0.spec_widened(), b);
    let q = lemma_log_odds_are_of_odds::<A, T>(ring, val, rate, l);
    if val(wsum) is Some {
        lemma_fold_total(
            ring,
            val,
            rows,
            add_row_weight::<A>(weights),
            leaf_weight(val, weights),
            wsum,
        );
    }
    if val(wy) is Some {
        let step = add_row_label::<A>(labels, weights);
        let f = leaf_positive_weight(ring, val, labels, weights);
        assert forall|i: int, x: F64, y: F64|
            0 <= i < rows.len() && #[trigger] step(rows[i], x, y) && val(y) is Some implies val(x)
            is Some && val(y)->0 == ring.sum_of(val(x)->0, f(rows[i])) by {
            assert(is_label_added::<A>(
                labels[rows[i] as int],
                weights[rows[i] as int],
                x,
                y,
            ));
        }
        lemma_fold_total(ring, val, rows, step, f, wy);
    }
    if val(b) is Some {
        ring.lemma_difference_undone(val(l)->0, val(s0.spec_widened())->0);
    }
    let share = if F64::zero().lt(wsum) {
        choose|v: F64| #[trigger]
            is_quot::<A>(wy, wsum, v) && rate == v.spec_clamped(min_rate(), max_rate())
    } else {
        rate
    };
    (wsum, share, rate, q, l)
}

/// What a basis entry adds to a leaf's score: the weight of its slot times its value, and
/// nothing where the leaf has no such slot.
pub open spec fn leaf_term<T>(
    ring: Ring<T>,
    val: spec_fn(F64) -> Option<T>,
    leaf: Leaf,
) -> spec_fn((u32, F32)) -> T {
    |e: (u32, F32)|
        if leaf.idx@.contains(e.0) {
            ring.product(
                val(leaf.w[leaf.idx@.index_of(e.0)].spec_widened())->0,
                val(e.1.spec_widened())->0,
            )
        } else {
            ring.zero
        }
}

/// A leaf's score is its bias and the weighted basis entries.
pub proof fn lemma_dot_adds_up<A: Arith, T>(
    ring: Ring<T>,
    val: spec_fn(F64) -> Option<T>,
    leaf: Leaf,
    phi: Seq<(u32, F32)>,
    r: F32,
)
    requires
        ring.obeys_laws(),
        stays_exact32::<A, T>(ring, val),
        sums_exactly32::<A, T>(ring, val),
        leaf.is_dot::<A>(phi, r),
    ensures
        val(r.spec_widened()) is Some ==> val(leaf.bias.spec_widened()) is Some && val(
            r.spec_widened(),
        )->0 == ring.sum_of(
            val(leaf.bias.spec_widened())->0,
            ring.total(leaf_term(ring, val, leaf), phi),
        ),
    decreases phi.len(),
{
    let step = leaf.score_entry::<A>();
    if phi.len() > 0 {
        let m = lemma_folds_last(leaf.bias, phi, step, r);
        let (front, e) = (phi.drop_last(), phi.last());
        assert(leaf.is_entry_scored::<A>(e, m, r));
        assert(leaf.is_dot::<A>(front, m));
        lemma_dot_adds_up::<A, T>(ring, val, leaf, front, m);
        let f = leaf_term(ring, val, leaf);
        let (b, t) = (val(leaf.bias.spec_widened())->0, ring.total(f, front));
        ring.lemma_sum_associates(b, t, f(e));
        ring.lemma_sum_with_zero(val(m.spec_widened())->0);
        if leaf.idx@.contains(e.0) {
            assert(is_weight_added::<A>(leaf.w[leaf.idx@.index_of(e.0)], e.1, m, r));
        }
    } else {
        let tr = choose|tr: Seq<F32>| #[trigger]
            is_trace(leaf.bias, 0, item_step(phi, step), tr) && tr[0] == r;
        ring.lemma_sum_with_zero(val(leaf.bias.spec_widened())->0);
    }
}

/// A leaf scores as it was fit: on the rows of the fit, the base score and the leaf's score are
/// the score at the fitted weights.
pub proof fn lemma_leaf_scores_as_fitted<A: Arith, T>(
    ring: Ring<T>,
    val: spec_fn(F64) -> Option<T>,
    active: Seq<u32>,
    w: Seq<F64>,
    leaf: Leaf,
    phi: Seq<(u32, F32)>,
    s0: F32,
    s: F64,
    r: F32,
)
    requires
        ring.obeys_laws(),
        stays_exact::<A, T>(ring, val),
        stays_exact32::<A, T>(ring, val),
        sums_exactly32::<A, T>(ring, val),
        is_leaf_of::<A>(active, w, leaf),
        active.no_duplicates(),
        active.len() < usize::MAX,
        forall|m: int| 0 <= m < phi.len() ==> active.contains((#[trigger] phi[m]).0),
        is_score::<A>(s0, w, local_row(active, phi), s),
        leaf.is_dot::<A>(phi, r),
        val(s) is Some,
        val(r.spec_widened()) is Some,
        forall|k: int| 0 <= k < leaf.w.len() ==> val((#[trigger] leaf.w[k]).spec_widened()) is Some,
    ensures
        val(s)->0 == ring.sum_of(val(s0.spec_widened())->0, val(r.spec_widened())->0),
{
    lemma_score_adds_up::<A, T>(ring, val, s0, w, local_row(active, phi), s);
    lemma_dot_adds_up::<A, T>(ring, val, leaf, phi, r);
    lemma_terms_agree::<A, T>(ring, val, active, w, leaf, phi);
    let (base, bias) = (val(s0.spec_widened())->0, val(w[0])->0);
    ring.lemma_sum_associates(base, bias, ring.total(leaf_term(ring, val, leaf), phi));
}

proof fn lemma_terms_agree<A: Arith, T>(
    ring: Ring<T>,
    val: spec_fn(F64) -> Option<T>,
    active: Seq<u32>,
    w: Seq<F64>,
    leaf: Leaf,
    phi: Seq<(u32, F32)>,
)
    requires
        stays_exact32::<A, T>(ring, val),
        is_leaf_of::<A>(active, w, leaf),
        active.no_duplicates(),
        active.len() < usize::MAX,
        forall|m: int| 0 <= m < phi.len() ==> active.contains((#[trigger] phi[m]).0),
        forall|k: int| 0 <= k < leaf.w.len() ==> val((#[trigger] leaf.w[k]).spec_widened()) is Some,
    ensures
        ring.total(scored(ring, val, w), local_row(active, phi)) == ring.total(
            leaf_term(ring, val, leaf),
            phi,
        ),
    decreases phi.len(),
{
    let local = local_row(active, phi);
    if phi.len() > 0 {
        let (front, e) = (phi.drop_last(), phi.last());
        assert forall|m: int| 0 <= m < front.len() implies active.contains(
            (#[trigger] front[m]).0,
        ) by {
            assert(front[m] == phi[m]);
        }
        lemma_terms_agree::<A, T>(ring, val, active, w, leaf, front);
        assert(local.drop_last() =~= local_row(active, front));
        assert(active.contains(phi[phi.len() - 1].0));
        lemma_leaf_has_slots::<A>(active, w, leaf, e.0);
        let k = leaf.idx@.index_of(e.0);
        assert(leaf.idx[k] == e.0);
        assert(is_narrow::<A>(w[local_slot(active, leaf.idx[k])], leaf.w[k]));
        assert(val(leaf.w[k].spec_widened()) is Some);
        let p = active.index_of(e.0);
        assert(0 <= p < active.len());
        assert(local.last().0 == local_slot(active, e.0));
    }
}

/// A leaf has every active slot.
proof fn lemma_leaf_has_slots<A: Arith>(active: Seq<u32>, w: Seq<F64>, leaf: Leaf, slot: u32)
    requires
        is_leaf_of::<A>(active, w, leaf),
        active.no_duplicates(),
        active.contains(slot),
    ensures
        leaf.idx@.contains(slot),
{
    let idx = leaf.idx@;
    idx.unique_seq_to_set();
    active.unique_seq_to_set();
    assert forall|x: u32| idx.to_set().contains(x) implies active.to_set().contains(x) by {
        assert(idx.contains(x));
        let k = choose|k: int| 0 <= k < idx.len() && idx[k] == x;
        assert(active.contains(leaf.idx[k]));
    }
    vstd::set_lib::lemma_subset_equality(idx.to_set(), active.to_set());
    assert(active.to_set().contains(slot));
    assert(idx.to_set().contains(slot));
}

/// One more Newton iteration is one more step, unless the fit has ended: the fit with one more
/// iteration takes a step from where the fit without it is, or stays there because the system
/// there has no solution.
pub proof fn lemma_iterations_follow<A: Arith>(
    q: Problem,
    local: Seq<Seq<(usize, F64)>>,
    rows: Seq<u32>,
    labels: Seq<u8>,
    weights: Seq<F32>,
    w0: Seq<F64>,
    iters: int,
    w2: Seq<F64>,
) -> (w: Seq<F64>)
    requires
        0 <= iters,
        is_newton_fit::<A>(q, local, rows, labels, weights, w0, iters + 1, w2),
    ensures
        is_newton_fit::<A>(q, local, rows, labels, weights, w0, iters, w),
        is_newton_step::<A>(q, local, rows, labels, weights, w, w2) || w2 == w
            && is_newton_end::<A>(q, local, rows, labels, weights, w),
{
    let step = newton::<A>(q, local, rows, labels, weights);
    let n = choose|n: nat| #[trigger]
        runs(w0, n, step, w2) && (n == iters + 1 || n < iters + 1 && is_newton_end::<A>(
            q,
            local,
            rows,
            labels,
            weights,
            w2,
        ));
    if n == iters + 1 {
        let w = lemma_runs_last(w0, n, step, w2);
        assert(step(n - 1, w, w2));
        assert(runs(w0, (n - 1) as nat, step, w));
        w
    } else {
        w2
    }
}

/// Without iterations the fit stays where it starts.
pub proof fn lemma_no_iterations_stay<A: Arith>(
    q: Problem,
    local: Seq<Seq<(usize, F64)>>,
    rows: Seq<u32>,
    labels: Seq<u8>,
    weights: Seq<F32>,
    w0: Seq<F64>,
    w: Seq<F64>,
)
    requires
        is_newton_fit::<A>(q, local, rows, labels, weights, w0, 0, w),
    ensures
        w == w0,
{
    let step = newton::<A>(q, local, rows, labels, weights);
    let n = choose|n: nat| #[trigger]
        runs(w0, n, step, w) && (n == 0 || n < 0 && is_newton_end::<A>(
            q,
            local,
            rows,
            labels,
            weights,
            w,
        ));
    let tr = choose|tr: Seq<Seq<F64>>| #[trigger] is_trace(w0, n, step, tr) && tr[n as int] == w;
}

/// What a leaf is fit with. A constant leaf has its starting bias and no weights. A linear leaf
/// starts there, all weights zero, and takes Newton steps on its rows' bases, as many as the
/// configuration says, with its L2 strength; it then holds the weights it came to. `phis` are the
/// bases, and `w` the weights.
pub proof fn lemma_leaf_fit_follows_configuration<A: Arith>(
    rows: Seq<u32>,
    encoders: Encoders,
    matrix: EncodedMatrix,
    labels: Seq<u8>,
    weights: Seq<F32>,
    s0: F32,
    cfg: Config,
    leaf: Leaf,
) -> (r: (F64, Seq<Seq<(u32, F32)>>, Seq<F64>, Seq<F64>))
    requires
        is_leaf_fit::<A>(rows, encoders, matrix, labels, weights, s0, cfg, leaf),
    ensures
        is_initial_bias::<A>(rows, labels, weights, s0, r.0),
        cfg.leaf_model is Constant ==> leaf.idx.len() == 0 && leaf.w.len() == 0 && is_narrow::<A>(
            r.0,
            leaf.bias,
        ),
        cfg.leaf_model is Linear ==> {
            let active = active_slots(r.1);
            let d = active.len() + 1;
            &&& r.1.len() == rows.len()
            &&& forall|k: int|
                0 <= k < rows.len() ==> is_row_basis::<A>(
                    encoders,
                    matrix,
                    rows[k] as int,
                    #[trigger] r.1[k],
                )
            &&& r.2.len() == d
            &&& r.2[0] == r.0
            &&& forall|i: int| 1 <= i < d ==> #[trigger] r.2[i] == F64::zero()
            &&& is_newton_fit::<A>(
                Problem { d: d as usize, s0, lam: cfg.lambda.spec_widened() },
                local_rows(r.1),
                rows,
                labels,
                weights,
                r.2,
                cfg.irls_iters as int,
                r.3,
            )
            &&& is_leaf_of::<A>(active, r.3, leaf)
        },
{
    let bias = choose|bias: F64| #[trigger]
        is_initial_bias::<A>(rows, labels, weights, s0, bias) && match cfg.leaf_model {
            LeafKind::Constant => leaf.idx@ == Seq::<u32>::empty() && leaf.w@ == Seq::<F32>::empty()
                && is_narrow::<A>(bias, leaf.bias),
            LeafKind::Linear => is_linear_fit::<A>(
                rows,
                encoders,
                matrix,
                labels,
                weights,
                s0,
                cfg,
                bias,
                leaf,
            ),
        };
    match cfg.leaf_model {
        LeafKind::Constant => (bias, Seq::empty(), Seq::empty(), Seq::empty()),
        LeafKind::Linear => {
            let (phis, w) = choose|phis: Seq<Seq<(u32, F32)>>, w: Seq<F64>| #[trigger]
                are_row_bases::<A>(encoders, matrix, rows, phis) && #[trigger] is_newton_fit::<A>(
                    Problem {
                        d: (active_slots(phis).len() + 1) as usize,
                        s0,
                        lam: cfg.lambda.spec_widened(),
                    },
                    local_rows(phis),
                    rows,
                    labels,
                    weights,
                    first_weights(active_slots(phis).len() as int + 1, bias),
                    cfg.irls_iters as int,
                    w,
                ) && is_leaf_of::<A>(active_slots(phis), w, leaf);
            (bias, phis, first_weights(active_slots(phis).len() as int + 1, bias), w)
        },
    }
}

/// What an entry has at a basis slot.
pub open spec fn at_slot<T>(
    ring: Ring<T>,
    val: spec_fn(F64) -> Option<T>,
    slot: u32,
) -> spec_fn((u32, F32)) -> T {
    |e: (u32, F32)|
        if e.0 == slot {
            val(e.1.spec_widened())->0
        } else {
            ring.zero
        }
}

/// The design vector of a leaf's row is its basis: component `q` is what the basis has at the
/// `q`-th active slot, counted from one.
pub proof fn lemma_design_reads_basis<T>(
    ring: Ring<T>,
    val: spec_fn(F64) -> Option<T>,
    phis: Seq<Seq<(u32, F32)>>,
    k: int,
    q: int,
)
    requires
        0 <= k < phis.len(),
        active_slots(phis).len() < usize::MAX,
        active_slots(phis).no_duplicates(),
        1 <= q <= active_slots(phis).len(),
    ensures
        design(ring, val, local_rows(phis)[k], q) == ring.total(
            at_slot(ring, val, active_slots(phis)[q - 1]),
            phis[k],
        ),
{
    assert forall|m: int| 0 <= m < phis[k].len() implies active_slots(phis).contains(
        (#[trigger] phis[k][m]).0,
    ) by {
        lemma_active_slots_hold(phis, k, m);
    }
    lemma_entries_read(ring, val, active_slots(phis), phis[k], q);
}

proof fn lemma_entries_read<T>(
    ring: Ring<T>,
    val: spec_fn(F64) -> Option<T>,
    active: Seq<u32>,
    e: Seq<(u32, F32)>,
    q: int,
)
    requires
        active.len() < usize::MAX,
        active.no_duplicates(),
        1 <= q <= active.len(),
        forall|m: int| 0 <= m < e.len() ==> active.contains((#[trigger] e[m]).0),
    ensures
        slot_sum(ring, val, local_row(active, e), q) == ring.total(
            at_slot(ring, val, active[q - 1]),
            e,
        ),
    decreases e.len(),
{
    let local = local_row(active, e);
    if e.len() > 0 {
        let (front, x) = (e.drop_last(), e.last());
        assert forall|m: int| 0 <= m < front.len() implies active.contains(
            (#[trigger] front[m]).0,
        ) by {
            assert(front[m] == e[m]);
        }
        lemma_entries_read(ring, val, active, front, q);
        assert(local.drop_last() =~= local_row(active, front));
        assert(active.contains(e[e.len() - 1].0));
        let p = active.index_of(x.0);
        assert(0 <= p < active.len() && active[p] == x.0);
        assert(local.last() == ((p + 1) as usize, x.1.spec_widened()));
        if p + 1 != q {
            assert(active[p] != active[q - 1]);
        }
    }
}

/// No slot is active twice.
pub proof fn lemma_active_slots_differ(phis: Seq<Seq<(u32, F32)>>)
    ensures
        active_slots(phis).no_duplicates(),
    decreases phis.len(),
{
    if phis.len() > 0 {
        lemma_active_slots_differ(phis.drop_last());
        lemma_with_slots_differ(active_slots(phis.drop_last()), phis.last());
    }
}

proof fn lemma_with_slots_differ(seen: Seq<u32>, e: Seq<(u32, F32)>)
    requires
        seen.no_duplicates(),
    ensures
        with_slots(seen, e).no_duplicates(),
    decreases e.len(),
{
    if e.len() > 0 {
        lemma_with_slots_differ(seen, e.drop_last());
    }
}

} // verus!
