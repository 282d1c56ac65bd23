//! What the evaluation metrics are: losses, calibration, lift and latency in terms of the
//! predictions and labels.

use vstd::prelude::*;
use crate::arith::{
    folds, is_diff, is_index, is_int, is_ln, is_prod, is_quot, is_round, is_sum, is_trace,
    lemma_runs_last, runs, Arith,
};
use crate::encoding::{max_int, min_int};
use crate::eval::{
    add_label, add_loss, add_pred, all_numbers, are_bin_indices, are_reliability_bins, clamped_p,
    falling_keys, greatest_p, is_at, is_bin_index, is_descending_order, is_latency, is_lift,
    is_lift_ratio, is_log_loss, is_loss, is_loss_added, is_mean, is_overall_rate, is_percentile,
    is_reliability, is_reliability_bin, is_roc_auc, is_top_count, label_sum, least_p, lemma_descending_order,
    ninety_nine_percent, time_sum, top_labels, Latency, ReliabilityBin,
};
use crate::exact::{
    converts_exactly, is_kept_inside, labels_stand, lemma_fold_stays, lemma_fold_total,
    lemma_run_total, never_leaves, stays_exact, Ring,
};
use crate::float::{F32, F64};
use crate::leaf_model::half;
use crate::seqs::{lemma_filter_agree, lemma_filter_props};
use crate::sort::{before, orders};
use crate::sums::{
    lemma_sum_agree, lemma_sum_at_least, lemma_sum_at_most, lemma_sum_permuted, sum_to,
};

verus! {

/// The rows that `at` puts in bin `b`.
pub open spec fn members(at: Seq<int>, b: int) -> Seq<int> {
    Seq::new(at.len(), |i: int| i).filter(|i: int| at[i] == b)
}

/// Prediction `p` falls in bin `b` of `bins` of equal width: `p · bins`, without its fraction,
/// or the last.
pub open spec fn falls_in<A: Arith, T>(
    ring: Ring<T>,
    val: spec_fn(F64) -> Option<T>,
    p: F32,
    bins: int,
    b: int,
) -> bool {
    exists|y: F64, j: usize| #[trigger]
        is_index::<A>(y, j) && b == (if j < bins {
            j as int
        } else {
            bins - 1
        }) && (val(y) is Some ==> val(y)->0 == ring.product(
            val(p.spec_widened())->0,
            ring.count(bins),
        )) && (never_leaves::<A, T>(ring, val) && val(p.spec_widened()) is Some ==> val(y) is Some)
}

/// The mean of numbers that sum up to `total`, times how many there are, is the total.
pub open spec fn is_exact_mean<T>(
    ring: Ring<T>,
    val: spec_fn(F64) -> Option<T>,
    m: F64,
    n: int,
    total: T,
) -> bool {
    val(m) is Some ==> ring.product(
        val(m)->0,
        ring.count(if n < 1 {
            1
        } else {
            n
        }),
    ) == total
}

/// A bin tells what the rows do that fall in it: times their number, the mean prediction is
/// the sum of their predictions, and the mean label the sum of their labels.
pub open spec fn tells_of<A: Arith, T>(
    ring: Ring<T>,
    val: spec_fn(F64) -> Option<T>,
    preds: Seq<F32>,
    labels: Seq<u8>,
    rows: Seq<int>,
    bin: ReliabilityBin,
) -> bool {
    &&& bin.count == rows.len()
    &&& is_exact_mean(
        ring,
        val,
        bin.mean_pred,
        rows.len() as int,
        ring.total(|i: int| val(preds[i].spec_widened())->0, rows),
    )
    &&& is_exact_mean(
        ring,
        val,
        bin.mean_label,
        rows.len() as int,
        ring.total(|i: int| ring.count(labels[i] as int), rows),
    )
    &&& never_leaves::<A, T>(ring, val) && ring.count(max_int(rows.len() as int, 1)) != ring.zero
        ==> val(bin.mean_label) is Some
    &&& never_leaves::<A, T>(ring, val) && ring.count(max_int(rows.len() as int, 1)) != ring.zero
        && (forall|i: int| 0 <= i < rows.len() ==> val(
        preds[#[trigger] rows[i]].spec_widened(),
    ) is Some) ==> val(bin.mean_pred) is Some
}

proof fn lemma_mean<A: Arith, T>(
    ring: Ring<T>,
    val: spec_fn(F64) -> Option<T>,
    s: F64,
    n: int,
    m: F64,
)
    requires
        stays_exact::<A, T>(ring, val),
        converts_exactly::<A, T>(ring, val),
        is_mean::<A>(s, n, m),
    ensures
        val(m) is Some ==> val(s) is Some && is_exact_mean(ring, val, m, n, val(s)->0),
        never_leaves::<A, T>(ring, val) && ring.count(max_int(n, 1)) != ring.zero && val(s) is Some
            ==> val(m) is Some,
{
    let c = choose|c: F64| #[trigger] is_int::<A>(max_int(n, 1), c) && is_quot::<A>(s, c, m);
}

/// The reliability curve is observed against predicted: every row falls in the bin of its
/// prediction, and every bin tells what its rows do.
pub proof fn lemma_reliability_tells_rates<A: Arith, T>(
    ring: Ring<T>,
    val: spec_fn(F64) -> Option<T>,
    preds: Seq<F32>,
    labels: Seq<u8>,
    bins: int,
    curve: Seq<ReliabilityBin>,
) -> (at: Seq<int>)
    requires
        ring.obeys_laws(),
        stays_exact::<A, T>(ring, val),
        converts_exactly::<A, T>(ring, val),
        labels_stand(ring, val),
        is_reliability::<A>(preds, labels, bins, curve),
    ensures
        curve.len() == (if bins < 1 {
            1
        } else {
            bins
        }),
        at.len() == (if preds.len() < labels.len() {
            preds.len()
        } else {
            labels.len()
        }),
        forall|i: int|
            0 <= i < at.len() ==> falls_in::<A, T>(
                ring,
                val,
                preds[i],
                curve.len() as int,
                #[trigger] at[i],
            ),
        forall|b: int|
            0 <= b < curve.len() ==> tells_of::<A, T>(
                ring,
                val,
                preds,
                labels,
                members(at, b),
                #[trigger] curve[b],
            ),
{
    let n = min_int(preds.len() as int, labels.len() as int);
    let k = max_int(bins, 1);
    let at = choose|at: Seq<int>| #[trigger]
        are_bin_indices::<A>(preds, n, k, at) && are_reliability_bins::<A>(
            preds,
            labels,
            at,
            k,
            curve,
        );
    assert forall|i: int| 0 <= i < at.len() implies falls_in::<A, T>(
        ring,
        val,
        preds[i],
        curve.len() as int,
        #[trigger] at[i],
    ) by {
        assert(is_bin_index::<A>(preds[i], k, at[i]));
        let (x, y, j) = choose|x: F64, y: F64, j: usize| #[trigger]
            is_int::<A>(k, x) && #[trigger] is_prod::<A>(preds[i].spec_widened(), x, y)
                && #[trigger] is_index::<A>(y, j) && at[i] == min_int(j as int, k - 1);
    }
    assert forall|b: int| 0 <= b < curve.len() implies tells_of::<A, T>(
        ring,
        val,
        preds,
        labels,
        members(at, b),
        #[trigger] curve[b],
    ) by {
        let all = Seq::new(at.len(), |i: int| i);
        lemma_filter_agree(all, is_at(at, b), |i: int| at[i] == b);
        lemma_bin_tells::<A, T>(ring, val, preds, labels, members(at, b), curve[b]);
    }
    at
}

proof fn lemma_bin_tells<A: Arith, T>(
    ring: Ring<T>,
    val: spec_fn(F64) -> Option<T>,
    preds: Seq<F32>,
    labels: Seq<u8>,
    rows: Seq<int>,
    bin: ReliabilityBin,
)
    requires
        ring.obeys_laws(),
        stays_exact::<A, T>(ring, val),
        converts_exactly::<A, T>(ring, val),
        labels_stand(ring, val),
        is_reliability_bin::<A>(preds, labels, rows, bin),
    ensures
        tells_of::<A, T>(ring, val, preds, labels, rows, bin),
{
    let (f, g) = (add_pred::<A>(preds), add_label::<A>(labels));
    let n = rows.len() as int;
    let s = choose|s: F64| #[trigger]
        folds(F64::zero(), rows, f, s) && is_mean::<A>(s, n, bin.mean_pred);
    let t = choose|s: F64| #[trigger]
        folds(F64::zero(), rows, g, s) && is_mean::<A>(s, n, bin.mean_label);
    lemma_mean::<A, T>(ring, val, s, n, bin.mean_pred);
    lemma_mean::<A, T>(ring, val, t, n, bin.mean_label);
    if val(s) is Some {
        lemma_fold_total(ring, val, rows, f, |i: int| val(preds[i].spec_widened())->0, s);
    }
    if val(t) is Some {
        let h = |i: int| ring.count(labels[i] as int);
        assert forall|i: int, a: F64, b: F64|
            0 <= i < rows.len() && #[trigger] g(rows[i], a, b) && val(b) is Some implies val(a)
            is Some && val(b)->0 == ring.sum_of(val(a)->0, h(rows[i])) by {
            assert(is_sum::<A>(a, F64::of_byte(labels[rows[i]]), b));
        }
        lemma_fold_total(ring, val, rows, g, h, t);
    }
    if never_leaves::<A, T>(ring, val) {
        assert forall|i: int, a: F64, b: F64|
            0 <= i < rows.len() && #[trigger] g(rows[i], a, b) && val(a) is Some implies val(b)
            is Some by {
            assert(is_sum::<A>(a, F64::of_byte(labels[rows[i]]), b));
        }
        lemma_fold_stays(val, F64::zero(), rows, g, t);
        if forall|i: int| 0 <= i < rows.len() ==> val(
            preds[#[trigger] rows[i]].spec_widened(),
        ) is Some {
            assert forall|i: int, a: F64, b: F64|
                0 <= i < rows.len() && #[trigger] f(rows[i], a, b) && val(a) is Some implies val(b)
                is Some by {
                assert(is_sum::<A>(a, preds[rows[i]].spec_widened(), b));
                assert(val(preds[rows[i]].spec_widened()) is Some);
            }
            lemma_fold_stays(val, F64::zero(), rows, f, s);
        }
    }
}

/// `q` is the probability that a prediction gives to a label: itself, kept inside
/// `[1e-7, 1 - 1e-7]`, to a positive, and the rest of one to the others.
pub open spec fn is_given_to<A: Arith>(p: F32, label: u8, q: F64) -> bool {
    exists|c: F64| #[trigger]
        is_kept_inside(
            p.spec_widened(),
            F64 { bits: 0x3e7a_d7f2_9abc_af48 },
            F64 { bits: 0x3fef_ffff_ca50_1acb },
            c,
        ) && if label == 1 {
            q == c
        } else {
            is_diff::<A>(F64::one(), c, q)
        }
}

/// The log-loss is the mean surprise: every row costs minus the logarithm of the probability
/// that its prediction gives to its label, and times the number of rows the loss is the sum of
/// the costs.
pub proof fn lemma_log_loss_is_mean_surprise<A: Arith, T>(
    ring: Ring<T>,
    val: spec_fn(F64) -> Option<T>,
    preds: Seq<F32>,
    labels: Seq<u8>,
    r: F64,
) -> (parts: (Seq<F64>, Seq<F64>))
    requires
        ring.obeys_laws(),
        stays_exact::<A, T>(ring, val),
        converts_exactly::<A, T>(ring, val),
        is_log_loss::<A>(preds, labels, r),
    ensures
        parts.0.len() == preds.len(),
        parts.1.len() == preds.len(),
        forall|i: int|
            0 <= i < preds.len() ==> is_given_to::<A>(preds[i], labels[i], #[trigger] parts.0[i]),
        forall|i: int| 0 <= i < preds.len() ==> is_ln::<A>(parts.0[i], #[trigger] parts.1[i]),
        val(r) is Some ==> ring.product(val(r)->0, ring.count(preds.len() as int)) == ring.sum_to(
            |i: int| val(parts.1[i].spec_negated())->0,
            preds.len() as int,
        ),
        never_leaves::<A, T>(ring, val) && ring.count(preds.len() as int) != ring.zero && (forall|
            i: int,
        |
            0 <= i < preds.len() ==> val(#[trigger] parts.1[i]) is Some) ==> val(r) is Some,
{
    let n = preds.len();
    let step = add_loss::<A>(preds, labels);
    let (s, x) = choose|s: F64, x: F64| #[trigger]
        runs(F64::zero(), n, step, s) && #[trigger] is_int::<A>(n as int, x) && is_quot::<A>(
            s,
            x,
            r,
        );
    lemma_losses::<A, T>(ring, val, preds, labels, n, s)
}

proof fn lemma_losses<A: Arith, T>(
    ring: Ring<T>,
    val: spec_fn(F64) -> Option<T>,
    preds: Seq<F32>,
    labels: Seq<u8>,
    n: nat,
    s: F64,
) -> (r: (Seq<F64>, Seq<F64>))
    requires
        stays_exact::<A, T>(ring, val),
        n <= preds.len(),
        runs(F64::zero(), n, add_loss::<A>(preds, labels), s),
    ensures
        r.0.len() == n,
        r.1.len() == n,
        forall|i: int|
            0 <= i < n ==> is_given_to::<A>(preds[i], labels[i], #[trigger] r.0[i]),
        forall|i: int| 0 <= i < n ==> is_ln::<A>(r.0[i], #[trigger] r.1[i]),
        val(s) is Some ==> val(s)->0 == ring.sum_to(
            |i: int| val(r.1[i].spec_negated())->0,
            n as int,
        ),
        never_leaves::<A, T>(ring, val) && (forall|i: int| 0 <= i < n ==> val(#[trigger] r.1[i]) is Some)
            ==> val(s) is Some,
    decreases n,
{
    let step = add_loss::<A>(preds, labels);
    if n > 0 {
        let k = n - 1;
        let m = lemma_runs_last(F64::zero(), n, step, s);
        assert(is_loss_added::<A>(preds[k], labels[k], m, s));
        let t = choose|t: F64| #[trigger]
            is_loss::<A>(preds[k], labels[k], t) && is_sum::<A>(m, t, s);
        let (q, l) = lemma_loss_parts::<A>(preds[k], labels[k], t);
        let (qf, lf) = lemma_losses::<A, T>(ring, val, preds, labels, k as nat, m);
        let (qs, ls) = (qf.push(q), lf.push(l));
        let f = |i: int| val(ls[i].spec_negated())->0;
        let g = |i: int| val(lf[i].spec_negated())->0;
        ring.lemma_sum_agrees(f, g, k);
        assert forall|i: int| 0 <= i < n implies is_given_to::<A>(
            preds[i],
            labels[i],
            #[trigger] qs[i],
        ) by {
            if i < k {
                assert(qs[i] == qf[i]);
            }
        }
        assert forall|i: int| 0 <= i < n implies is_ln::<A>(qs[i], #[trigger] ls[i]) by {
            if i < k {
                assert(ls[i] == lf[i] && qs[i] == qf[i]);
            }
        }
        if forall|i: int| 0 <= i < n ==> val(#[trigger] ls[i]) is Some {
            assert forall|i: int| 0 <= i < k implies val(#[trigger] lf[i]) is Some by {
                assert(ls[i] == lf[i]);
            }
            assert(val(ls[k]) is Some);
        }
        (qs, ls)
    } else {
        let tr = choose|tr: Seq<F64>| #[trigger]
            is_trace(F64::zero(), n, step, tr) && tr[0] == s;
        (Seq::empty(), Seq::empty())
    }
}

proof fn lemma_loss_parts<A: Arith>(p: F32, label: u8, t: F64) -> (r: (F64, F64))
    requires
        is_loss::<A>(p, label, t),
    ensures
        is_given_to::<A>(p, label, r.0),
        is_ln::<A>(r.0, r.1),
        t == r.1.spec_negated(),
{
    let c = clamped_p(p);
    assert(is_kept_inside(p.spec_widened(), least_p(), greatest_p(), c));
    if label == 1 {
        let l = choose|l: F64| #[trigger] is_ln::<A>(c, l) && t == l.spec_negated();
        (c, l)
    } else {
        let (d, l) = choose|d: F64, l: F64| #[trigger]
            is_diff::<A>(F64::one(), c, d) && #[trigger] is_ln::<A>(d, l) && t == l.spec_negated();
        (d, l)
    }
}

/// A logarithm that grows with its argument, and a difference from one that falls with what is
/// taken away.
pub open spec fn keeps_order<A: Arith>() -> bool {
    &&& forall|a: F64, b: F64, x: F64, y: F64|
        a.lt(b) && #[trigger] is_ln::<A>(a, x) && #[trigger] is_ln::<A>(b, y) ==> x.lt(y)
    &&& forall|a: F64, b: F64, x: F64, y: F64|
        a.lt(b) && #[trigger] is_diff::<A>(F64::one(), a, x) && #[trigger] is_diff::<A>(
            F64::one(),
            b,
            y,
        ) ==> y.lt(x)
}

/// A better prediction costs less: as the prediction rises between the two ends, the loss of a
/// positive strictly falls, and that of the others strictly rises.
pub proof fn lemma_loss_follows_prediction<A: Arith>(p: F32, q: F32, label: u8, s: F64, t: F64)
    requires
        keeps_order::<A>(),
        least_p().le(p.spec_widened()),
        p.spec_widened().lt(q.spec_widened()),
        q.spec_widened().le(greatest_p()),
        is_loss::<A>(p, label, s),
        is_loss::<A>(q, label, t),
    ensures
        label == 1 ==> t.lt(s),
        label != 1 ==> s.lt(t),
{
    let (a, x) = lemma_loss_parts::<A>(p, label, s);
    let (b, y) = lemma_loss_parts::<A>(q, label, t);
    assert(label == 1 ==> a.lt(b));
    assert(label != 1 ==> b.lt(a));
    if label == 1 {
        assert(x.lt(y));
    } else {
        assert(y.lt(x));
    }
}

/// The sum of the labels, one by one.
proof fn lemma_label_sum_is_sum(labels: Seq<u8>)
    ensures
        label_sum(labels) == sum_to(|i: int| labels[i] as int, labels.len() as int),
        0 <= label_sum(labels),
    decreases labels.len(),
{
    if labels.len() > 0 {
        let front = labels.drop_last();
        lemma_label_sum_is_sum(front);
        lemma_sum_agree(|i: int| front[i] as int, |i: int| labels[i] as int, labels.len() - 1);
    }
}

/// `k` is the number of rows in the top `frac` of `n`: `n · frac`, rounded, from one to all.
pub open spec fn is_share_of_rows<A: Arith, T>(
    ring: Ring<T>,
    val: spec_fn(F64) -> Option<T>,
    n: int,
    frac: F64,
    k: int,
) -> bool {
    exists|y: F64, z: F64, j: usize|
        {
            &&& val(y) is Some ==> val(y)->0 == ring.product(ring.count(n), val(frac)->0)
            &&& #[trigger] is_round::<A>(y, z)
            &&& #[trigger] is_index::<A>(z, j)
            &&& k == if j < 1 {
                1
            } else if j > n {
                n
            } else {
                j as int
            }
        }
}

/// `order` lists the `n` rows, each once.
pub open spec fn lists_rows(order: Seq<usize>, n: int) -> bool {
    &&& order.len() == n
    &&& forall|i: int| 0 <= i < n ==> #[trigger] order[i] < n
    &&& forall|i: int, j: int| 0 <= i < j < n ==> #[trigger] order[i] != #[trigger] order[j]
}

/// The lift compares two rates: times the overall rate and the number of top rows it is the sum
/// of the top rows' labels, and the overall rate times the number of rows is the sum of all
/// labels; it is zero where that rate is. The top rows are those that no other row's prediction
/// exceeds. `order` has them first, `k` is their number, and `overall` the overall rate.
pub proof fn lemma_lift_compares_rates<A: Arith, T>(
    ring: Ring<T>,
    val: spec_fn(F64) -> Option<T>,
    preds: Seq<F32>,
    labels: Seq<u8>,
    frac: F64,
    r: F64,
) -> (found: (Seq<usize>, int, F64))
    requires
        ring.obeys_laws(),
        stays_exact::<A, T>(ring, val),
        converts_exactly::<A, T>(ring, val),
        labels_stand(ring, val),
        all_numbers(preds),
        preds.len() == labels.len(),
        preds.len() > 0,
        is_lift::<A>(preds, labels, frac, r),
    ensures
        lists_rows(found.0, preds.len() as int),
        forall|i: int, j: int|
            0 <= i < j < preds.len() ==> !preds[#[trigger] found.0[i] as int].lt(
                preds[#[trigger] found.0[j] as int],
            ),
        is_share_of_rows::<A, T>(ring, val, preds.len() as int, frac, found.1),
        val(found.2) is Some ==> ring.product(val(found.2)->0, ring.count(preds.len() as int))
            == ring.sum_to(|i: int| ring.count(labels[i] as int), labels.len() as int),
        found.2.le(F64::zero()) ==> r == F64::zero(),
        !found.2.le(F64::zero()) && val(r) is Some ==> val(found.2) is Some && ring.product(
            ring.product(val(r)->0, val(found.2)->0),
            ring.count(found.1),
        ) == ring.count(sum_to(|i: int| labels[found.0[i] as int] as int, found.1)),
{
    let n = preds.len() as int;
    let (order, k, overall) = choose|order: Seq<usize>, k: int, overall: F64| #[trigger]
        is_descending_order(preds, order) && #[trigger] is_top_count::<A>(n, frac, k)
            && #[trigger] is_overall_rate::<A>(labels, n, overall) && is_lift_ratio::<A>(
            label_sum(top_labels(labels, order, k)),
            k,
            overall,
            r,
        );
    assert forall|i: int, j: int| 0 <= i < j < n implies !preds[#[trigger] order[i] as int].lt(
        preds[#[trigger] order[j] as int],
    ) && order[i] != order[j] by {
        lemma_descending_order(preds, order, i, j);
        assert(before(falling_keys(preds), order[i] as int, order[j] as int));
    }
    let (x, y, z, j) = choose|x: F64, y: F64, z: F64, j: usize| #[trigger]
        is_int::<A>(n, x) && #[trigger] is_prod::<A>(x, frac, y) && #[trigger] is_round::<A>(y, z)
            && #[trigger] is_index::<A>(z, j) && k == min_int(max_int(j as int, 1), n);
    let (s, w) = choose|s: F64, w: F64| #[trigger]
        runs(F64::zero(), labels.len(), add_label::<A>(labels), s) && #[trigger] is_int::<A>(n, w)
            && is_quot::<A>(s, w, overall);
    if val(overall) is Some {
        let step = add_label::<A>(labels);
        let f = |i: int| ring.count(labels[i] as int);
        assert forall|i: int, a: F64, b: F64|
            0 <= i < labels.len() && #[trigger] step(i, a, b) && val(b) is Some implies val(a)
            is Some && val(b)->0 == ring.sum_of(val(a)->0, f(i)) by {
            assert(is_sum::<A>(a, F64::of_byte(labels[i]), b));
        }
        lemma_run_total(ring, val, labels.len(), step, f, s);
    }
    let top = top_labels(labels, order, k);
    lemma_label_sum_is_sum(top);
    lemma_sum_agree(|i: int| top[i] as int, |i: int| labels[order[i] as int] as int, k);
    (order, k, overall)
}

/// `t` is at place `at` of the sorted times: at most `at` times are less, and more than `at` are
/// not greater.
pub open spec fn is_at_place(times: Seq<u128>, at: int, t: u128) -> bool {
    &&& times.contains(t)
    &&& sum_to(
        |i: int|
            if times[i] < t {
                1int
            } else {
                0
            },
        times.len() as int,
    ) <= at
    &&& at < sum_to(
        |i: int|
            if times[i] <= t {
                1int
            } else {
                0
            },
        times.len() as int,
    )
}

/// `t` is the percentile `q` of the times: at place `n · q`, without its fraction, or the last.
pub open spec fn is_share_of_times<A: Arith, T>(
    ring: Ring<T>,
    val: spec_fn(F64) -> Option<T>,
    times: Seq<u128>,
    q: F64,
    t: u128,
) -> bool {
    exists|y: F64, j: usize|
        {
            &&& val(y) is Some ==> val(y)->0 == ring.product(
                ring.count(times.len() as int),
                val(q)->0,
            )
            &&& #[trigger] is_index::<A>(y, j)
            &&& is_at_place(
                times,
                if j < times.len() {
                    j as int
                } else {
                    times.len() - 1
                },
                t,
            )
        }
}

proof fn lemma_sorted_place(times: Seq<u128>, order: Seq<usize>, at: int)
    requires
        orders(times, 0, times.len() as int, order),
        0 <= at < times.len(),
        times.len() <= usize::MAX,
    ensures
        is_at_place(times, at, times[order[at] as int]),
{
    let n = times.len() as int;
    let t = times[order[at] as int];
    let less = |i: int|
        if times[i] < t {
            1int
        } else {
            0
        };
    let upto = |i: int|
        if times[i] <= t {
            1int
        } else {
            0
        };
    let less_at = |k: int| less(order[k] as int);
    let upto_at = |k: int| upto(order[k] as int);
    assert forall|i: int, j: int| 0 <= i < j < order.len() implies #[trigger] order[i]
        != #[trigger] order[j] by {
        assert(before(times, order[i] as int, order[j] as int));
    }
    lemma_sum_permuted(less, less_at, order, n);
    lemma_sum_permuted(upto, upto_at, order, n);
    assert forall|k: int| at <= k < n implies #[trigger] less_at(k) == 0 by {
        if at < k {
            assert(before(times, order[at] as int, order[k] as int));
        }
    }
    assert forall|k: int| 0 <= k < at + 1 implies 1 <= #[trigger] upto_at(k) by {
        if k < at {
            assert(before(times, order[k] as int, order[at] as int));
        }
    }
    lemma_sum_at_most(less_at, n, at);
    lemma_sum_at_least(upto_at, n, at + 1);
    assert(0 <= order[at] < n);
}

/// The latency summary tells the times: the median and the 99th percentile are at their places
/// among them, and the mean is their sum over their number, without its fraction.
pub proof fn lemma_latency_tells_times<A: Arith, T>(
    ring: Ring<T>,
    val: spec_fn(F64) -> Option<T>,
    times: Seq<u128>,
    l: Latency,
)
    requires
        ring.obeys_laws(),
        stays_exact::<A, T>(ring, val),
        converts_exactly::<A, T>(ring, val),
        0 < times.len() <= usize::MAX,
        is_latency::<A>(times, l),
    ensures
        is_share_of_times::<A, T>(
            ring,
            val,
            times,
            F64 { bits: 0x3fe0_0000_0000_0000 },
            l.p50_ns,
        ),
        is_share_of_times::<A, T>(
            ring,
            val,
            times,
            F64 { bits: 0x3fef_ae14_7ae1_47ae },
            l.p99_ns,
        ),
        l.mean_ns * times.len() <= sum_to(|i: int| times[i] as int, times.len() as int) < (l.mean_ns
            + 1) * times.len(),
{
    let n = times.len() as int;
    let order = choose|order: Seq<usize>| #[trigger]
        orders(times, 0, n, order) && is_percentile::<A>(times, order, half(), l.p50_ns)
            && is_percentile::<A>(times, order, ninety_nine_percent(), l.p99_ns) && l.mean_ns
            == time_sum(times) / n;
    lemma_percentile_place::<A, T>(ring, val, times, order, half(), l.p50_ns);
    lemma_percentile_place::<A, T>(ring, val, times, order, ninety_nine_percent(), l.p99_ns);
    lemma_time_sum_is_sum(times);
    let (s, m) = (time_sum(times), l.mean_ns as int);
    vstd::arithmetic::div_mod::lemma_fundamental_div_mod(s, n);
    vstd::arithmetic::div_mod::lemma_mod_bound(s, n);
    assert(n * m <= s && s < n * m + n);
    assert(m * n == n * m && (m + 1) * n == n * m + n) by (nonlinear_arith);
}

proof fn lemma_percentile_place<A: Arith, T>(
    ring: Ring<T>,
    val: spec_fn(F64) -> Option<T>,
    times: Seq<u128>,
    order: Seq<usize>,
    q: F64,
    t: u128,
)
    requires
        stays_exact::<A, T>(ring, val),
        converts_exactly::<A, T>(ring, val),
        0 < times.len() <= usize::MAX,
        orders(times, 0, times.len() as int, order),
        is_percentile::<A>(times, order, q, t),
    ensures
        is_share_of_times::<A, T>(ring, val, times, q, t),
{
    let n = times.len() as int;
    let (x, y, j) = choose|x: F64, y: F64, j: usize| #[trigger]
        is_int::<A>(n, x) && #[trigger] is_prod::<A>(x, q, y) && #[trigger] is_index::<A>(y, j) && t
            == times[order[min_int(j as int, n - 1)] as int];
    lemma_sorted_place(times, order, min_int(j as int, n - 1));
}

proof fn lemma_time_sum_is_sum(times: Seq<u128>)
    ensures
        time_sum(times) == sum_to(|i: int| times[i] as int, times.len() as int),
    decreases times.len(),
{
    if times.len() > 0 {
        let front = times.drop_last();
        lemma_time_sum_is_sum(front);
        lemma_sum_agree(|i: int| front[i] as int, |i: int| times[i] as int, times.len() - 1);
    }
}

/// Labels of one class have no order to get right: their ROC-AUC is one half.
pub proof fn lemma_one_class_scores_half<A: Arith>(preds: Seq<F32>, labels: Seq<u8>, y: u8, r: F64)
    requires
        preds.len() == labels.len(),
        y <= 1,
        forall|i: int| 0 <= i < labels.len() ==> #[trigger] labels[i] == y,
        is_roc_auc::<A>(preds, labels, r),
    ensures
        r == (F64 { bits: 0x3fe0_0000_0000_0000 }),
{
    lemma_label_sum_is_sum(labels);
    lemma_sum_of_same(|i: int| labels[i] as int, labels.len() as int, y as int);
}

proof fn lemma_sum_of_same(f: spec_fn(int) -> int, n: int, y: int)
    requires
        0 <= y <= 1,
        forall|i: int| 0 <= i < n ==> #[trigger] f(i) == y,
    ensures
        sum_to(f, n) == if y == 0 || n <= 0 {
            0
        } else {
            n
        },
    decreases n,
{
    if n > 0 {
        lemma_sum_of_same(f, n - 1, y);
        assert(f(n - 1) == y);
    }
}

/// A bin that holds only positives has mean label one.
pub proof fn lemma_certain_bin_tells_one<A: Arith, T>(
    ring: Ring<T>,
    val: spec_fn(F64) -> Option<T>,
    preds: Seq<F32>,
    labels: Seq<u8>,
    bins: int,
    curve: Seq<ReliabilityBin>,
    b: int,
)
    requires
        ring.obeys_laws(),
        stays_exact::<A, T>(ring, val),
        converts_exactly::<A, T>(ring, val),
        labels_stand(ring, val),
        is_reliability::<A>(preds, labels, bins, curve),
        0 <= b < curve.len(),
        curve[b].count > 0,
        ring.cancels(ring.count(curve[b].count as int)),
        forall|i: int| 0 <= i < labels.len() ==> #[trigger] labels[i] == 1,
        val(curve[b].mean_label) is Some,
    ensures
        val(curve[b].mean_label)->0 == ring.one,
{
    let at = lemma_reliability_tells_rates::<A, T>(ring, val, preds, labels, bins, curve);
    let rows = members(at, b);
    let all = Seq::new(at.len(), |i: int| i);
    assert(tells_of::<A, T>(ring, val, preds, labels, rows, curve[b]));
    lemma_filter_agree(all, is_at(at, b), |i: int| at[i] == b);
    lemma_filter_props(all, is_at(at, b));
    assert(rows == all.filter(is_at(at, b)));
    let f = |i: int| ring.count(labels[i] as int);
    ring.lemma_count_of_one();
    assert forall|k: int| 0 <= k < rows.len() implies f(#[trigger] rows[k]) == ring.one by {
        assert(all.contains(rows[k]));
        let j = choose|j: int| 0 <= j < all.len() && all[j] == rows[k];
        assert(labels[rows[k]] == 1);
    }
    lemma_total_of_ones(ring, f, rows);
    let c = ring.count(rows.len() as int);
    let m = val(curve[b].mean_label)->0;
    ring.lemma_product_commutes(m, c);
    ring.lemma_product_with_one(c);
    ring.lemma_product_commutes(ring.one, c);
}

proof fn lemma_total_of_ones<T>(ring: Ring<T>, f: spec_fn(int) -> T, rows: Seq<int>)
    requires
        forall|k: int| 0 <= k < rows.len() ==> f(#[trigger] rows[k]) == ring.one,
    ensures
        ring.total(f, rows) == ring.count(rows.len() as int),
    decreases rows.len(),
{
    if rows.len() > 0 {
        let front = rows.drop_last();
        assert forall|k: int| 0 <= k < front.len() implies f(#[trigger] front[k]) == ring.one by {
            assert(front[k] == rows[k]);
        }
        lemma_total_of_ones(ring, f, front);
        assert(f(rows[rows.len() - 1]) == ring.one);
    }
}

} // verus!
