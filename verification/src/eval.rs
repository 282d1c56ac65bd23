//! Evaluation: PR-AUC (average precision), lift, log-loss, ROC-AUC, a
//! reliability curve, and single-row latency. Bidding needs calibrated
//! probabilities, so log-loss and reliability sit alongside the ranking metrics.

use vstd::prelude::*;
use crate::arith::{
    folds, is_diff, is_index, is_int, is_ln, is_prod, is_quot, is_round, is_sum, is_trace,
    lemma_folds_push, lemma_folds_start, lemma_runs_agree, lemma_runs_last, lemma_runs_next,
    lemma_runs_start, runs, Arith,
};
use crate::encoding::{max_int, min_int};
use crate::exact::{converts_exactly, counts_exactly, is_count, stays_exact, Ring};
use crate::float::{F32, F64};
use crate::leaf_model::half;
use crate::seqs::{lemma_filter_agree, lemma_filter_none, lemma_filter_props, lemma_filter_step};
use crate::sort::{before, lemma_orders_unique, order_by_key, orders};
use crate::sums::{
    column_sums, lemma_sum_adds, lemma_sum_agree, lemma_sum_nonneg, lemma_sum_permuted,
    lemma_sum_point, lemma_sum_prefix, lemma_sum_swaps, lemma_sum_zero, row_sums, sum_to,
};

verus! {

/// The least probability that a logarithm is taken of: `1e-7`.
#[verifier::allow_in_spec]
pub fn least_p() -> F64
    returns
        (F64 { bits: 0x3e7a_d7f2_9abc_af48 }),
{
    F64 { bits: 0x3e7a_d7f2_9abc_af48 }
}

/// The greatest probability that a logarithm is taken of: `1 - 1e-7`.
#[verifier::allow_in_spec]
pub fn greatest_p() -> F64
    returns
        (F64 { bits: 0x3fef_ffff_ca50_1acb }),
{
    F64 { bits: 0x3fef_ffff_ca50_1acb }
}

/// A prediction kept away from zero and one.
pub open spec fn clamped_p(p: F32) -> F64 {
    p.spec_widened().spec_clamped(least_p(), greatest_p())
}

#[inline]
fn clamp_p(p: F32) -> (r: F64)
    ensures
        r == clamped_p(p),
{
    p.widened().clamped(least_p(), greatest_p())
}

/// `t` is the log-loss of one row: `-ln(p)` for a positive, `-ln(1 - p)` for the others.
pub open spec fn is_loss<A: Arith>(p: F32, label: u8, t: F64) -> bool {
    if label == 1 {
        exists|l: F64| #[trigger] is_ln::<A>(clamped_p(p), l) && t == l.spec_negated()
    } else {
        exists|d: F64, l: F64| #[trigger]
            is_diff::<A>(F64::one(), clamped_p(p), d) && #[trigger] is_ln::<A>(d, l) && t
                == l.spec_negated()
    }
}

/// `b` is `a` with the log-loss of one row added.
pub open spec fn is_loss_added<A: Arith>(p: F32, label: u8, a: F64, b: F64) -> bool {
    exists|t: F64| #[trigger] is_loss::<A>(p, label, t) && is_sum::<A>(a, t, b)
}

/// Adding the log-loss of row `i`.
pub open spec fn add_loss<A: Arith>(
    preds: Seq<F32>,
    labels: Seq<u8>,
) -> spec_fn(int, F64, F64) -> bool {
    |i: int, a: F64, b: F64| is_loss_added::<A>(preds[i], labels[i], a, b)
}

/// `r` is the mean log-loss.
pub open spec fn is_log_loss<A: Arith>(preds: Seq<F32>, labels: Seq<u8>, r: F64) -> bool {
    exists|s: F64, n: F64| #[trigger]
        runs(F64::zero(), preds.len(), add_loss::<A>(preds, labels), s) && #[trigger] is_int::<A>(
            preds.len() as int,
            n,
        ) && is_quot::<A>(s, n, r)
}

/// Mean class-weighted-agnostic binary log-loss.
pub fn log_loss<A: Arith>(preds: &Vec<F32>, labels: &Vec<u8>) -> (r: F64)
    requires
        preds.len() == labels.len(),
    ensures
        is_log_loss::<A>(preds@, labels@, r),
{
    let ghost step = add_loss::<A>(preds@, labels@);
    let mut s: F64 = F64::zero();
    let mut i: usize = 0;
    proof {
        lemma_runs_start(F64::zero(), step);
    }
    while i < preds.len()
        invariant
            i <= preds.len(),
            preds.len() == labels.len(),
            step == add_loss::<A>(preds@, labels@),
            runs(F64::zero(), i as nat, step, s),
        decreases preds.len() - i,
    {
        let p = clamp_p(preds[i]);
        let t = if labels[i] == 1 {
            let l = A::ln(p);
            assert(is_ln::<A>(p, l));
            l.negated()
        } else {
            let d = A::diff(F64::one(), p);
            let l = A::ln(d);
            assert(is_diff::<A>(F64::one(), p, d) && is_ln::<A>(d, l));
            l.negated()
        };
        let next = A::sum(s, t);
        proof {
            assert(is_loss::<A>(preds@[i as int], labels@[i as int], t));
            assert(step(i as int, s, next));
            lemma_runs_next(F64::zero(), i as nat, step, s, next);
        }
        s = next;
        i = i + 1;
    }
    let n = A::from_int(preds.len() as i128);
    let r = A::quot(s, n);
    proof {
        assert(runs(F64::zero(), preds@.len(), step, s) && is_int::<A>(preds@.len() as int, n));
    }
    r
}

/// Every prediction is a number.
pub open spec fn all_numbers(preds: Seq<F32>) -> bool {
    forall|i: int| 0 <= i < preds.len() ==> !(#[trigger] preds[i]).spec_is_nan()
}

/// Sort keys for ascending predictions.
pub open spec fn rising_keys(preds: Seq<F32>) -> Seq<u128> {
    preds.map_values(|p: F32| p.key() as u128)
}

/// Sort keys for descending predictions.
pub open spec fn falling_keys(preds: Seq<F32>) -> Seq<u128> {
    preds.map_values(|p: F32| (u64::MAX - p.key()) as u128)
}

/// `order` lists the rows by ascending prediction, ties in row order.
pub open spec fn is_ascending_order(preds: Seq<F32>, order: Seq<usize>) -> bool {
    orders(rising_keys(preds), 0, preds.len() as int, order)
}

/// `order` lists the rows by descending prediction, ties in row order.
pub open spec fn is_descending_order(preds: Seq<F32>, order: Seq<usize>) -> bool {
    orders(falling_keys(preds), 0, preds.len() as int, order)
}

fn order_asc(preds: &Vec<F32>) -> (order: Vec<usize>)
    ensures
        is_ascending_order(preds@, order@),
{
    let mut keys: Vec<u128> = Vec::with_capacity(preds.len());
    let mut i: usize = 0;
    while i < preds.len()
        invariant
            i <= preds.len(),
            keys.len() == i,
            forall|k: int| 0 <= k < i ==> #[trigger] keys[k] == preds[k].key(),
        decreases preds.len() - i,
    {
        keys.push(preds[i].order_key() as u128);
        i = i + 1;
    }
    assert(keys@ =~= rising_keys(preds@));
    order_by_key(&keys)
}

/// Sort row indices by descending prediction (stable, deterministic ties).
fn order_desc(preds: &Vec<F32>) -> (order: Vec<usize>)
    ensures
        is_descending_order(preds@, order@),
{
    let mut keys: Vec<u128> = Vec::with_capacity(preds.len());
    let mut i: usize = 0;
    while i < preds.len()
        invariant
            i <= preds.len(),
            keys.len() == i,
            forall|k: int| 0 <= k < i ==> #[trigger] keys[k] == u64::MAX - preds[k].key(),
        decreases preds.len() - i,
    {
        keys.push((u64::MAX - preds[i].order_key()) as u128);
        i = i + 1;
    }
    assert(keys@ =~= falling_keys(preds@));
    order_by_key(&keys)
}

/// The descending order puts greater predictions first, equal ones in row order.
pub proof fn lemma_descending_order(preds: Seq<F32>, order: Seq<usize>, i: int, j: int)
    requires
        all_numbers(preds),
        is_descending_order(preds, order),
        0 <= i < j < order.len(),
    ensures
        preds[order[j] as int].lt(preds[order[i] as int]) || preds[order[j] as int].same(
            preds[order[i] as int],
        ) && order[i] < order[j],
{
    let (a, b) = (order[i] as int, order[j] as int);
    assert(before(falling_keys(preds), a, b));
    assert(!preds[a].spec_is_nan() && !preds[b].spec_is_nan());
    assert(falling_keys(preds)[a] == u64::MAX - preds[a].key());
    assert(falling_keys(preds)[b] == u64::MAX - preds[b].key());
}

/// The sum of the labels: the number of positives.
pub open spec fn label_sum(labels: Seq<u8>) -> int
    decreases labels.len(),
{
    if labels.len() == 0 {
        0
    } else {
        label_sum(labels.drop_last()) + labels.last()
    }
}

proof fn lemma_label_sum_grows(labels: Seq<u8>, i: int)
    requires
        0 <= i <= labels.len(),
    ensures
        0 <= label_sum(labels.take(i)) <= label_sum(labels),
    decreases labels.len(),
{
    if i < labels.len() {
        let front = labels.drop_last();
        lemma_label_sum_grows(front, i);
        assert(front.take(i) =~= labels.take(i));
    } else {
        assert(labels.take(i) =~= labels);
        lemma_label_sum_nonneg(labels);
    }
}

proof fn lemma_label_sum_nonneg(labels: Seq<u8>)
    ensures
        0 <= label_sum(labels),
    decreases labels.len(),
{
    if labels.len() > 0 {
        lemma_label_sum_nonneg(labels.drop_last());
    }
}

fn count_positives(labels: &Vec<u8>) -> (n: usize)
    requires
        label_sum(labels@) <= usize::MAX,
    ensures
        n == label_sum(labels@),
{
    let mut n: usize = 0;
    let mut i: usize = 0;
    while i < labels.len()
        invariant
            i <= labels.len(),
            label_sum(labels@) <= usize::MAX,
            n == label_sum(labels@.take(i as int)),
        decreases labels.len() - i,
    {
        proof {
            assert(labels@.take(i + 1).drop_last() =~= labels@.take(i as int));
            lemma_label_sum_grows(labels@, i + 1);
        }
        n = n + labels[i] as usize;
        i = i + 1;
    }
    proof {
        assert(labels@.take(labels@.len() as int) =~= labels@);
    }
    n
}

/// The prediction at a place of the order.
pub open spec fn ranked(preds: Seq<F32>, order: Seq<usize>, k: int) -> F32 {
    preds[order[k] as int]
}

/// `lo..=hi` are all places whose rows have one and the same prediction.
pub open spec fn is_tie_group(preds: Seq<F32>, order: Seq<usize>, lo: int, hi: int) -> bool {
    &&& 0 <= lo <= hi < order.len()
    &&& forall|k: int| lo <= k <= hi ==> (#[trigger] ranked(preds, order, k)).same(ranked(preds, order, lo))
    &&& lo == 0 || !ranked(preds, order, lo - 1).same(ranked(preds, order, lo))
    &&& hi == order.len() - 1 || !ranked(preds, order, hi + 1).same(ranked(preds, order, lo))
}

/// `rank` is the average of the ranks (counted from one) of the places `lo..=hi`.
pub open spec fn is_average_rank<A: Arith>(lo: int, hi: int, rank: F64) -> bool {
    exists|x: F64| #[trigger] is_int::<A>(lo + hi + 2, x) && is_quot::<A>(x, two(), rank)
}

/// Two.
#[verifier::allow_in_spec]
pub fn two() -> F64
    returns
        (F64 { bits: 0x4000_0000_0000_0000 }),
{
    F64 { bits: 0x4000_0000_0000_0000 }
}

/// `rank` is the tie-averaged rank of the row at place `k`.
pub open spec fn is_tied_rank<A: Arith>(
    preds: Seq<F32>,
    order: Seq<usize>,
    k: int,
    rank: F64,
) -> bool {
    exists|lo: int, hi: int| #[trigger]
        is_tie_group(preds, order, lo, hi) && lo <= k <= hi && is_average_rank::<A>(lo, hi, rank)
}

/// `b` is `a` with the rank of the row at place `k` added, where it is positive.
pub open spec fn is_rank_added<A: Arith>(
    preds: Seq<F32>,
    labels: Seq<u8>,
    order: Seq<usize>,
    k: int,
    a: F64,
    b: F64,
) -> bool {
    if labels[order[k] as int] == 1 {
        exists|rank: F64| #[trigger]
            is_tied_rank::<A>(preds, order, k, rank) && is_sum::<A>(a, rank, b)
    } else {
        b == a
    }
}

/// Adding the ranks of the positives.
pub open spec fn add_rank<A: Arith>(
    preds: Seq<F32>,
    labels: Seq<u8>,
    order: Seq<usize>,
) -> spec_fn(int, F64, F64) -> bool {
    |k: int, a: F64, b: F64| is_rank_added::<A>(preds, labels, order, k, a, b)
}

/// `r` is `(ranks - p·(p + 1)/2) / (p·q)` for `p` positives and `q` negatives.
pub open spec fn is_u_statistic<A: Arith>(ranks: F64, p: int, q: int, r: F64) -> bool {
    exists|x: F64, y: F64, u: F64, a: F64, b: F64, d: F64| #[trigger]
        is_int::<A>(p * (p + 1), x) && #[trigger] is_quot::<A>(x, two(), y) && #[trigger] is_diff::<
            A,
        >(ranks, y, u) && #[trigger] is_int::<A>(p, a) && #[trigger] is_int::<A>(q, b)
            && #[trigger] is_prod::<A>(a, b, d) && is_quot::<A>(u, d, r)
}

/// `r` is the ROC-AUC; one half where there is no positive or no negative.
pub open spec fn is_roc_auc<A: Arith>(preds: Seq<F32>, labels: Seq<u8>, r: F64) -> bool {
    let p = label_sum(labels);
    let q = preds.len() - p;
    if p == 0 || q == 0 {
        r == half()
    } else {
        exists|order: Seq<usize>, ranks: F64| #[trigger]
            is_ascending_order(preds, order) && #[trigger] runs(
                F64::zero(),
                preds.len(),
                add_rank::<A>(preds, labels, order),
                ranks,
            ) && is_u_statistic::<A>(ranks, p, q, r)
    }
}

/// The last place of the tie group that starts at `lo`.
fn group_end(preds: &Vec<F32>, order: &Vec<usize>, lo: usize) -> (hi: usize)
    requires
        all_numbers(preds@),
        order.len() == preds.len(),
        lo < order.len(),
        forall|k: int| 0 <= k < order.len() ==> #[trigger] order[k] < preds.len(),
        lo == 0 || !ranked(preds@, order@, lo - 1).same(ranked(preds@, order@, lo as int)),
    ensures
        is_tie_group(preds@, order@, lo as int, hi as int),
        hi + 1 == order.len() || !ranked(preds@, order@, hi as int).same(
            ranked(preds@, order@, hi + 1),
        ),
{
    let mut hi: usize = lo;
    proof {
        assert(order[lo as int] < preds.len());
        assert(!preds[order[lo as int] as int].spec_is_nan());
    }
    while hi + 1 < order.len() && preds[order[hi + 1]].equals(preds[order[lo]])
        invariant
            all_numbers(preds@),
            order.len() == preds.len(),
            lo <= hi < order.len(),
            forall|k: int| 0 <= k < order.len() ==> #[trigger] order[k] < preds.len(),
            forall|k: int|
                lo <= k <= hi ==> (#[trigger] ranked(preds@, order@, k)).same(
                    ranked(preds@, order@, lo as int),
                ),
        ensures
            hi + 1 == order.len() || !ranked(preds@, order@, hi + 1).same(
                ranked(preds@, order@, lo as int),
            ),
        decreases order.len() - hi,
    {
        hi = hi + 1;
    }
    proof {
        assert(ranked(preds@, order@, hi as int).same(ranked(preds@, order@, lo as int)));
    }
    hi
}

fn average_rank<A: Arith>(lo: usize, hi: usize) -> (rank: F64)
    ensures
        is_average_rank::<A>(lo as int, hi as int, rank),
{
    let x = A::from_int(lo as i128 + hi as i128 + 2);
    let rank = A::quot(x, two());
    assert(is_int::<A>(lo + hi + 2, x));
    rank
}

/// The sum of the tie-averaged ranks of the positives.
fn rank_sum<A: Arith>(preds: &Vec<F32>, labels: &Vec<u8>, order: &Vec<usize>) -> (ranks: F64)
    requires
        all_numbers(preds@),
        order.len() == preds.len(),
        preds.len() <= labels.len(),
        forall|k: int| 0 <= k < order.len() ==> #[trigger] order[k] < preds.len(),
    ensures
        runs(F64::zero(), preds@.len(), add_rank::<A>(preds@, labels@, order@), ranks),
{
    let ghost step = add_rank::<A>(preds@, labels@, order@);
    let n: usize = preds.len();
    let mut ranks: F64 = F64::zero();
    let mut i: usize = 0;
    proof {
        lemma_runs_start(F64::zero(), step);
    }
    while i < n
        invariant
            i <= n,
            n == preds.len(),
            all_numbers(preds@),
            order.len() == preds.len(),
            preds.len() <= labels.len(),
            forall|k: int| 0 <= k < order.len() ==> #[trigger] order[k] < preds.len(),
            i == 0 || i == n || !ranked(preds@, order@, i - 1).same(
                ranked(preds@, order@, i as int),
            ),
            step == add_rank::<A>(preds@, labels@, order@),
            runs(F64::zero(), i as nat, step, ranks),
        decreases n - i,
    {
        let j: usize = group_end(preds, order, i);
        // Tie group [i, j]; average rank (1-based).
        let rank = average_rank::<A>(i, j);
        let mut k: usize = i;
        while k <= j
            invariant
                i <= k <= j + 1,
                j < n,
                n == preds.len(),
                order.len() == preds.len(),
                preds.len() <= labels.len(),
                forall|k: int| 0 <= k < order.len() ==> #[trigger] order[k] < preds.len(),
                is_tie_group(preds@, order@, i as int, j as int),
                is_average_rank::<A>(i as int, j as int, rank),
                step == add_rank::<A>(preds@, labels@, order@),
                runs(F64::zero(), k as nat, step, ranks),
            decreases j + 1 - k,
        {
            let next = if labels[order[k]] == 1 {
                A::sum(ranks, rank)
            } else {
                ranks
            };
            proof {
                assert(is_tied_rank::<A>(preds@, order@, k as int, rank));
                assert(step(k as int, ranks, next));
                lemma_runs_next(F64::zero(), k as nat, step, ranks, next);
            }
            ranks = next;
            k = k + 1;
        }
        i = j + 1;
    }
    ranks
}

fn u_statistic<A: Arith>(ranks: F64, p: usize, q: usize) -> (r: F64)
    requires
        p * (p + 1) <= usize::MAX,
    ensures
        is_u_statistic::<A>(ranks, p as int, q as int, r),
{
    proof {
        assert(p + 1 <= usize::MAX) by (nonlinear_arith)
            requires
                p * (p + 1) <= usize::MAX,
                p >= 0,
                usize::MAX >= 1,
        ;
    }
    let pp: usize = p * (p + 1);
    let x = A::from_int(pp as i128);
    let y = A::quot(x, two());
    let u = A::diff(ranks, y);
    let a = A::from_int(p as i128);
    let b = A::from_int(q as i128);
    let d = A::prod(a, b);
    let r = A::quot(u, d);
    assert(is_int::<A>(p * (p + 1), x) && is_quot::<A>(x, two(), y) && is_diff::<A>(ranks, y, u)
        && is_int::<A>(p as int, a) && is_int::<A>(q as int, b) && is_prod::<A>(a, b, d));
    r
}

/// ROC-AUC via the Mann–Whitney U statistic with tie-averaged ranks.
pub fn roc_auc<A: Arith>(preds: &Vec<F32>, labels: &Vec<u8>) -> (r: F64)
    requires
        label_sum(labels@) <= preds.len(),
        0 < label_sum(labels@) < preds.len() ==> all_numbers(preds@) && preds.len() <= labels.len()
            && label_sum(labels@) * (label_sum(labels@) + 1) <= usize::MAX,
    ensures
        is_roc_auc::<A>(preds@, labels@, r),
{
    let n: usize = preds.len();
    let n_pos: usize = count_positives(labels);
    let n_neg: usize = n - n_pos;
    if n_pos == 0 || n_neg == 0 {
        return half();
    }
    proof {
        lemma_label_sum_nonneg(labels@);
    }
    // Ascending order for rank assignment.
    let order = order_asc(preds);
    let ranks = rank_sum::<A>(preds, labels, &order);
    let r = u_statistic::<A>(ranks, n_pos, n_neg);
    proof {
        assert(is_ascending_order(preds@, order@) && runs(
            F64::zero(),
            preds@.len(),
            add_rank::<A>(preds@, labels@, order@),
            ranks,
        ));
    }
    r
}

/// What a prediction `p` of a positive earns against a prediction `q`: two where it is
/// greater, one where it is equal.
pub open spec fn wins(p: F32, q: F32) -> int {
    if q.lt(p) {
        2
    } else if q.same(p) {
        1
    } else {
        0
    }
}

/// What row `i` earns against row `j`.
pub open spec fn wins_of(preds: Seq<F32>, i: int) -> spec_fn(int) -> int {
    |j: int| wins(preds[i], preds[j])
}

/// Twice the tie-averaged rank of row `i`.
pub open spec fn doubled_rank(preds: Seq<F32>, i: int) -> int {
    sum_to(wins_of(preds, i), preds.len() as int) + 1
}

proof fn lemma_ascending_places(preds: Seq<F32>, order: Seq<usize>, i: int, j: int)
    requires
        all_numbers(preds),
        is_ascending_order(preds, order),
        0 <= i <= j < order.len(),
    ensures
        ranked(preds, order, i).le(ranked(preds, order, j)),
{
    let (a, b) = (order[i] as int, order[j] as int);
    assert(!preds[a].spec_is_nan() && !preds[b].spec_is_nan());
    if i < j {
        assert(before(rising_keys(preds), a, b));
        assert(rising_keys(preds)[a] == preds[a].key());
        assert(rising_keys(preds)[b] == preds[b].key());
    }
}

proof fn lemma_order_places(keys: Seq<u128>, n: int, order: Seq<usize>)
    requires
        orders(keys, 0, n, order),
    ensures
        forall|i: int, j: int|
            0 <= i < j < order.len() ==> #[trigger] order[i] != #[trigger] order[j],
{
    assert forall|i: int, j: int| 0 <= i < j < order.len() implies #[trigger] order[i]
        != #[trigger] order[j] by {
        assert(before(keys, order[i] as int, order[j] as int));
    }
}

/// The average rank of a tie group is that of its rows: half the rows below, half the rows
/// below or tied, and one half.
pub proof fn lemma_tied_rank_counts(
    preds: Seq<F32>,
    order: Seq<usize>,
    lo: int,
    hi: int,
    k: int,
)
    requires
        all_numbers(preds),
        preds.len() <= usize::MAX,
        is_ascending_order(preds, order),
        is_tie_group(preds, order, lo, hi),
        lo <= k <= hi,
    ensures
        lo + hi + 2 == doubled_rank(preds, order[k] as int),
{
    let n = preds.len() as int;
    let row = order[k] as int;
    let p = preds[row];
    assert(ranked(preds, order, k) == p);
    assert(p.same(ranked(preds, order, lo)));
    let at = |m: int| wins(p, ranked(preds, order, m));
    let less = |m: int|
        if m < lo {
            1int
        } else {
            0
        };
    let most = |m: int|
        if m < hi + 1 {
            1int
        } else {
            0
        };
    assert forall|m: int| 0 <= m < n implies #[trigger] at(m) == less(m) + most(m) by {
        let v = ranked(preds, order, m);
        if m < lo {
            lemma_ascending_places(preds, order, m, lo - 1);
            lemma_ascending_places(preds, order, lo - 1, lo);
            assert(!ranked(preds, order, lo - 1).same(ranked(preds, order, lo)));
        } else if m <= hi {
            assert(v.same(ranked(preds, order, lo)));
        } else {
            lemma_ascending_places(preds, order, hi + 1, m);
            lemma_ascending_places(preds, order, lo, hi + 1);
            assert(!ranked(preds, order, hi + 1).same(ranked(preds, order, lo)));
        }
    }
    lemma_sum_adds(less, most, at, n);
    lemma_sum_prefix(less, n, lo);
    lemma_sum_prefix(most, n, hi + 1);
    lemma_order_places(rising_keys(preds), n, order);
    lemma_sum_permuted(wins_of(preds, row), at, order, n);
}

/// One for positives.
pub open spec fn positive(labels: Seq<u8>) -> spec_fn(int) -> int {
    |i: int|
        if labels[i] == 1 {
            1
        } else {
            0
        }
}

/// The number of positives among the first `n` rows.
pub open spec fn positives(labels: Seq<u8>, n: int) -> int {
    sum_to(positive(labels), n)
}

/// Twice the tie-averaged rank of the row at place `k`, where it is positive.
pub open spec fn doubled_place(
    preds: Seq<F32>,
    labels: Seq<u8>,
    order: Seq<usize>,
) -> spec_fn(int) -> int {
    |k: int|
        if labels[order[k] as int] == 1 {
            doubled_rank(preds, order[k] as int)
        } else {
            0
        }
}

/// Twice the sum of the tie-averaged ranks of the positives.
pub open spec fn doubled_rank_sum(preds: Seq<F32>, labels: Seq<u8>, order: Seq<usize>) -> int {
    sum_to(doubled_place(preds, labels, order), preds.len() as int)
}

/// What positive row `i` earns against negative row `j`.
pub open spec fn pair_win(preds: Seq<F32>, labels: Seq<u8>) -> spec_fn(int, int) -> int {
    |i: int, j: int|
        if labels[i] == 1 && labels[j] != 1 {
            wins(preds[i], preds[j])
        } else {
            0
        }
}

/// What the positives earn against the negatives.
pub open spec fn pair_wins(preds: Seq<F32>, labels: Seq<u8>) -> int {
    let n = preds.len() as int;
    sum_to(row_sums(pair_win(preds, labels), n), n)
}

proof fn lemma_sum_positive(labels: Seq<u8>, c: int, f: spec_fn(int) -> int, n: int)
    requires
        forall|i: int|
            0 <= i < n ==> #[trigger] f(i) == if labels[i] == 1 {
                c
            } else {
                0
            },
    ensures
        sum_to(f, n) == c * positives(labels, n),
    decreases n,
{
    if n > 0 {
        lemma_sum_positive(labels, c, f, n - 1);
        let x = positives(labels, n - 1);
        assert(f(n - 1) == if labels[n - 1] == 1 {
            c
        } else {
            0
        });
        assert(c * (x + 1) == c * x + c) by (nonlinear_arith);
    } else {
        assert(c * 0 == 0) by (nonlinear_arith);
    }
}

/// What the positives earn against each other.
proof fn lemma_positives_share(preds: Seq<F32>, labels: Seq<u8>, b: spec_fn(int, int) -> int)
    requires
        all_numbers(preds),
        forall|i: int, j: int| #[trigger]
            b(i, j) == if labels[i] == 1 && labels[j] == 1 {
                wins(preds[i], preds[j])
            } else {
                0
            },
    ensures
        ({
            let n = preds.len() as int;
            sum_to(row_sums(b, n), n) == positives(labels, n) * positives(labels, n)
        }),
{
    let n = preds.len() as int;
    let p = positives(labels, n);
    lemma_sum_swaps(b, n, n);
    let both = |i: int|
        if labels[i] == 1 {
            2 * p
        } else {
            0
        };
    assert forall|i: int| 0 <= i < n implies #[trigger] both(i) == row_sums(b, n)(i) + column_sums(
        b,
        n,
    )(i) by {
        let r = |j: int| b(i, j);
        let c = |k: int| b(k, i);
        let two_each = |j: int|
            if labels[i] == 1 && labels[j] == 1 {
                2int
            } else {
                0
            };
        assert forall|j: int| 0 <= j < n implies #[trigger] two_each(j) == r(j) + c(j) by {
            assert(b(i, j) == b(i, j) && b(j, i) == b(j, i));
            assert(!preds[i].spec_is_nan() && !preds[j].spec_is_nan());
        }
        lemma_sum_adds(r, c, two_each, n);
        if labels[i] == 1 {
            lemma_sum_positive(labels, 2, two_each, n);
        } else {
            lemma_sum_zero(two_each, n);
        }
    }
    lemma_sum_adds(row_sums(b, n), column_sums(b, n), both, n);
    lemma_sum_positive(labels, 2 * p, both, n);
    let s = sum_to(row_sums(b, n), n);
    assert(2 * s == (2 * p) * p);
    assert(s == p * p) by (nonlinear_arith)
        requires
            2 * s == (2 * p) * p,
    ;
}

/// The rank sum is the Mann–Whitney statistic: less `p·(p + 1)` for `p` positives, twice the
/// sum of the tie-averaged ranks of the positives is two for each negative that a positive is
/// ranked above and one for each that it ties with.
pub proof fn lemma_rank_sum_is_mann_whitney(
    preds: Seq<F32>,
    labels: Seq<u8>,
    order: Seq<usize>,
)
    requires
        all_numbers(preds),
        preds.len() <= usize::MAX,
        is_ascending_order(preds, order),
    ensures
        ({
            let p = positives(labels, preds.len() as int);
            doubled_rank_sum(preds, labels, order) - p * (p + 1) == pair_wins(preds, labels)
        }),
{
    let n = preds.len() as int;
    let p = positives(labels, n);
    let by_place = doubled_place(preds, labels, order);
    let by_row = |i: int|
        if labels[i] == 1 {
            doubled_rank(preds, i)
        } else {
            0
        };
    lemma_order_places(rising_keys(preds), n, order);
    lemma_sum_permuted(by_row, by_place, order, n);
    let b = |i: int, j: int|
        if labels[i] == 1 && labels[j] == 1 {
            wins(preds[i], preds[j])
        } else {
            0
        };
    let c = pair_win(preds, labels);
    let ones = positive(labels);
    let rest = |i: int| row_sums(c, n)(i) + ones(i);
    assert forall|i: int| 0 <= i < n implies #[trigger] by_row(i) == row_sums(b, n)(i) + rest(i) by {
        let rb = |j: int| b(i, j);
        let rc = |j: int| c(i, j);
        if labels[i] == 1 {
            lemma_sum_adds(rb, rc, wins_of(preds, i), n);
        } else {
            lemma_sum_zero(rb, n);
            lemma_sum_zero(rc, n);
        }
    }
    lemma_sum_adds(row_sums(b, n), rest, by_row, n);
    lemma_sum_adds(row_sums(c, n), ones, rest, n);
    lemma_positives_share(preds, labels, b);
    assert(p * (p + 1) == p * p + p) by (nonlinear_arith);
}

/// Where labels are zero or one, the sum of the labels is the number of positives.
pub proof fn lemma_label_sum_counts(labels: Seq<u8>)
    requires
        forall|i: int| 0 <= i < labels.len() ==> #[trigger] labels[i] <= 1,
    ensures
        label_sum(labels) == positives(labels, labels.len() as int),
    decreases labels.len(),
{
    if labels.len() > 0 {
        let front = labels.drop_last();
        let n = front.len() as int;
        assert forall|i: int| 0 <= i < n implies #[trigger] front[i] <= 1 by {
            assert(labels[i] <= 1);
        }
        lemma_label_sum_counts(front);
        lemma_sum_agree(positive(front), positive(labels), n);
        assert(labels[n] <= 1);
    }
}

/// A float sum of ranks is the sum of the ranks.
proof fn lemma_ranks_summed<A: Arith, T>(
    ring: Ring<T>,
    val: spec_fn(F64) -> Option<T>,
    preds: Seq<F32>,
    labels: Seq<u8>,
    order: Seq<usize>,
    n: nat,
    ranks: F64,
)
    requires
        ring.obeys_laws(),
        stays_exact::<A, T>(ring, val),
        converts_exactly::<A, T>(ring, val),
        is_count(ring, val, 2, two()),
        all_numbers(preds),
        preds.len() <= usize::MAX,
        is_ascending_order(preds, order),
        n <= preds.len(),
        runs(F64::zero(), n, add_rank::<A>(preds, labels, order), ranks),
        val(ranks) is Some,
    ensures
        0 <= sum_to(doubled_place(preds, labels, order), n as int),
        ring.product(val(ranks)->0, ring.count(2)) == ring.count(
            sum_to(doubled_place(preds, labels, order), n as int),
        ),
    decreases n,
{
    let step = add_rank::<A>(preds, labels, order);
    let f = doubled_place(preds, labels, order);
    if n > 0 {
        let k = n - 1;
        let a = lemma_runs_last(F64::zero(), n, step, ranks);
        assert(is_rank_added::<A>(preds, labels, order, k, a, ranks));
        if labels[order[k] as int] == 1 {
            let rank = choose|rank: F64| #[trigger]
                is_tied_rank::<A>(preds, order, k, rank) && is_sum::<A>(a, rank, ranks);
            let (lo, hi) = choose|lo: int, hi: int| #[trigger]
                is_tie_group(preds, order, lo, hi) && lo <= k <= hi && is_average_rank::<A>(
                    lo,
                    hi,
                    rank,
                );
            let x = choose|x: F64| #[trigger]
                is_int::<A>(lo + hi + 2, x) && is_quot::<A>(x, two(), rank);
            lemma_tied_rank_counts(preds, order, lo, hi, k);
            assert(is_sum::<A>(a, rank, ranks));
            lemma_ranks_summed::<A, T>(ring, val, preds, labels, order, k as nat, a);
            assert(is_count(ring, val, lo + hi + 2, x));
            let (av, rv, two) = (val(a)->0, val(rank)->0, ring.count(2));
            ring.lemma_product_commutes(ring.sum_of(av, rv), two);
            ring.lemma_product_distributes(two, av, rv);
            ring.lemma_product_commutes(av, two);
            ring.lemma_product_commutes(rv, two);
            ring.lemma_counts_add(sum_to(f, k), f(k));
        } else {
            lemma_ranks_summed::<A, T>(ring, val, preds, labels, order, k as nat, a);
        }
    } else {
        let tr = choose|tr: Seq<F64>| #[trigger]
            is_trace(F64::zero(), n, step, tr) && tr[0] == ranks;
        ring.lemma_product_with_zero(ring.count(2));
    }
}

proof fn lemma_pair_wins_nonneg(preds: Seq<F32>, labels: Seq<u8>)
    ensures
        0 <= pair_wins(preds, labels),
{
    let n = preds.len() as int;
    let w = pair_win(preds, labels);
    assert forall|i: int| 0 <= i < n implies 0 <= #[trigger] row_sums(w, n)(i) by {
        lemma_sum_nonneg(|j: int| w(i, j), n);
    }
    lemma_sum_nonneg(row_sums(w, n), n);
}

/// The ROC-AUC is the share of the pairs of a positive and a negative that are ranked in
/// order, a tie counting half: where nothing was rounded, times twice the number of pairs it
/// is what the positives earn against the negatives.
pub proof fn lemma_roc_auc_is_mann_whitney<A: Arith, T>(
    ring: Ring<T>,
    val: spec_fn(F64) -> Option<T>,
    preds: Seq<F32>,
    labels: Seq<u8>,
    r: F64,
)
    requires
        ring.obeys_laws(),
        stays_exact::<A, T>(ring, val),
        converts_exactly::<A, T>(ring, val),
        is_count(ring, val, 2, two()),
        all_numbers(preds),
        preds.len() <= usize::MAX,
        labels.len() == preds.len(),
        forall|i: int| 0 <= i < labels.len() ==> #[trigger] labels[i] <= 1,
        0 < label_sum(labels) < preds.len(),
        is_roc_auc::<A>(preds, labels, r),
        val(r) is Some,
    ensures
        ({
            let p = label_sum(labels);
            let pairs = ring.product(ring.count(p), ring.count(preds.len() - p));
            ring.product(ring.product(val(r)->0, pairs), ring.count(2)) == ring.count(
                pair_wins(preds, labels),
            )
        }),
{
    let p = label_sum(labels);
    let q = preds.len() - p;
    let (order, ranks) = choose|order: Seq<usize>, ranks: F64| #[trigger]
        is_ascending_order(preds, order) && #[trigger] runs(
            F64::zero(),
            preds.len(),
            add_rank::<A>(preds, labels, order),
            ranks,
        ) && is_u_statistic::<A>(ranks, p, q, r);
    let (x, y, u, a, b, d) = choose|x: F64, y: F64, u: F64, a: F64, b: F64, d: F64| #[trigger]
        is_int::<A>(p * (p + 1), x) && #[trigger] is_quot::<A>(x, two(), y) && #[trigger] is_diff::<
            A,
        >(ranks, y, u) && #[trigger] is_int::<A>(p, a) && #[trigger] is_int::<A>(q, b)
            && #[trigger] is_prod::<A>(a, b, d) && is_quot::<A>(u, d, r);
    assert(0 <= p * (p + 1)) by (nonlinear_arith)
        requires
            0 < p,
    ;
    assert(is_count(ring, val, p, a) && is_count(ring, val, q, b));
    assert(is_count(ring, val, p * (p + 1), x));
    lemma_ranks_summed::<A, T>(ring, val, preds, labels, order, preds.len(), ranks);
    lemma_rank_sum_is_mann_whitney(preds, labels, order);
    lemma_label_sum_counts(labels);
    lemma_pair_wins_nonneg(preds, labels);
    ring.lemma_counts_add(pair_wins(preds, labels), p * (p + 1));
    // 2u + p(p + 1) = 2·ranks = wins + p(p + 1).
    let two = ring.count(2);
    let (uv, yv, rv) = (val(u)->0, val(y)->0, val(ranks)->0);
    ring.lemma_difference_undone(rv, yv);
    ring.lemma_product_commutes(rv, two);
    ring.lemma_product_commutes(yv, two);
    ring.lemma_product_commutes(uv, two);
    ring.lemma_product_distributes(two, uv, yv);
    ring.lemma_sum_undone(ring.product(uv, two), ring.count(p * (p + 1)));
    ring.lemma_sum_undone(ring.count(pair_wins(preds, labels)), ring.count(p * (p + 1)));
}

/// Every positive is ranked above every negative.
pub open spec fn ranks_perfectly(preds: Seq<F32>, labels: Seq<u8>) -> bool {
    forall|i: int, j: int|
        0 <= i < preds.len() && 0 <= j < preds.len() && labels[i] == 1 && labels[j] != 1
            ==> (#[trigger] preds[j]).lt(#[trigger] preds[i])
}

/// A perfect ranking wins every pair: where every positive is ranked above every negative,
/// the positives earn two for each of the pairs, which is all that there is to earn.
pub proof fn lemma_perfect_ranking_wins_all(preds: Seq<F32>, labels: Seq<u8>)
    requires
        ranks_perfectly(preds, labels),
    ensures
        ({
            let n = preds.len() as int;
            let p = positives(labels, n);
            pair_wins(preds, labels) == 2 * (p * (n - p))
        }),
{
    let n = preds.len() as int;
    let p = positives(labels, n);
    let w = pair_win(preds, labels);
    let twos = |j: int|
        if labels[j] == 1 {
            2
        } else {
            0int
        };
    let all = |j: int| 2int;
    lemma_sum_positive(labels, 2, twos, n);
    assert forall|i: int| 0 <= i < n implies #[trigger] row_sums(w, n)(i) == if labels[i] == 1 {
        2 * (n - p)
    } else {
        0
    } by {
        let row = |j: int| w(i, j);
        if labels[i] == 1 {
            assert forall|j: int| 0 <= j < n implies #[trigger] all(j) == row(j) + twos(j) by {
                if labels[j] != 1 {
                    assert(preds[j].lt(preds[i]));
                }
            }
            lemma_sum_adds(row, twos, all, n);
            lemma_sum_constant(2, all, n);
        } else {
            lemma_sum_zero(row, n);
        }
    }
    lemma_sum_positive(labels, 2 * (n - p), row_sums(w, n), n);
    assert((2 * (n - p)) * p == 2 * (p * (n - p))) by (nonlinear_arith);
}

proof fn lemma_sum_constant(c: int, f: spec_fn(int) -> int, n: int)
    requires
        0 <= n,
        forall|i: int| 0 <= i < n ==> #[trigger] f(i) == c,
    ensures
        sum_to(f, n) == c * n,
    decreases n,
{
    if n > 0 {
        lemma_sum_constant(c, f, n - 1);
        assert(f(n - 1) == c);
        assert(c * (n - 1) + c == c * n) by (nonlinear_arith);
    } else {
        assert(c * 0 == 0) by (nonlinear_arith);
    }
}

/// The state of the walk down the ranking: true and false positives so far, the recall at
/// the last tie group, and the area so far.
#[derive(Clone, Copy)]
pub struct Curve {
    pub tp: F64,
    pub fp: F64,
    pub prev_recall: F64,
    pub ap: F64,
}

impl Curve {
    /// The state at the top of the ranking.
    #[verifier::allow_in_spec]
    pub fn start() -> Curve
        returns
            (Curve {
                tp: F64::zero(),
                fp: F64::zero(),
                prev_recall: F64::zero(),
                ap: F64::zero(),
            }),
    {
        Curve { tp: F64::zero(), fp: F64::zero(), prev_recall: F64::zero(), ap: F64::zero() }
    }
}

/// `b` is `a` with one more row counted.
pub open spec fn is_row_counted<A: Arith>(label: u8, a: Curve, b: Curve) -> bool {
    &&& b.prev_recall == a.prev_recall
    &&& b.ap == a.ap
    &&& if label == 1 {
        is_sum::<A>(a.tp, F64::one(), b.tp) && b.fp == a.fp
    } else {
        is_sum::<A>(a.fp, F64::one(), b.fp) && b.tp == a.tp
    }
}

/// `x` is `tp / (tp + fp)`; one where nothing was counted.
pub open spec fn is_precision<A: Arith>(tp: F64, fp: F64, x: F64) -> bool {
    exists|d: F64| #[trigger]
        is_sum::<A>(tp, fp, d) && if F64::zero().lt(d) {
            is_quot::<A>(tp, d, x)
        } else {
            x == F64::one()
        }
}

/// `x` is `tp / n_pos`.
pub open spec fn is_recall<A: Arith>(tp: F64, n_pos: int, x: F64) -> bool {
    exists|d: F64| #[trigger] is_int::<A>(n_pos, d) && is_quot::<A>(tp, d, x)
}

/// `b` is `a` with the area of the tie group that ends here: the gain in recall times the
/// precision.
pub open spec fn is_group_closed<A: Arith>(n_pos: int, a: Curve, b: Curve) -> bool {
    &&& b.tp == a.tp
    &&& b.fp == a.fp
    &&& is_recall::<A>(a.tp, n_pos, b.prev_recall)
    &&& exists|x: F64, d: F64, y: F64| #[trigger]
        is_precision::<A>(a.tp, a.fp, x) && #[trigger] is_diff::<A>(
            b.prev_recall,
            a.prev_recall,
            d,
        ) && #[trigger] is_prod::<A>(d, x, y) && is_sum::<A>(a.ap, y, b.ap)
}

/// The row at place `k` is the last of its tie group.
pub open spec fn closes_group(preds: Seq<F32>, order: Seq<usize>, k: int) -> bool {
    k == order.len() - 1 || !ranked(preds, order, k + 1).same(ranked(preds, order, k))
}

/// One step down the ranking.
pub open spec fn is_curve_step<A: Arith>(
    preds: Seq<F32>,
    labels: Seq<u8>,
    order: Seq<usize>,
    k: int,
    a: Curve,
    b: Curve,
) -> bool {
    exists|m: Curve| #[trigger]
        is_row_counted::<A>(labels[order[k] as int], a, m) && if closes_group(preds, order, k) {
            is_group_closed::<A>(label_sum(labels), m, b)
        } else {
            b == m
        }
}

/// The steps down the ranking.
pub open spec fn curve<A: Arith>(
    preds: Seq<F32>,
    labels: Seq<u8>,
    order: Seq<usize>,
) -> spec_fn(int, Curve, Curve) -> bool {
    |k: int, a: Curve, b: Curve| is_curve_step::<A>(preds, labels, order, k, a, b)
}

/// `r` is the average precision; zero where there is no positive.
pub open spec fn is_pr_auc<A: Arith>(preds: Seq<F32>, labels: Seq<u8>, r: F64) -> bool {
    if label_sum(labels) == 0 {
        r == F64::zero()
    } else {
        exists|order: Seq<usize>, last: Curve| #[trigger]
            is_descending_order(preds, order) && #[trigger] runs(
                Curve::start(),
                preds.len(),
                curve::<A>(preds, labels, order),
                last,
            ) && r == last.ap
    }
}

fn close_group<A: Arith>(n_pos: usize, a: Curve) -> (b: Curve)
    ensures
        is_group_closed::<A>(n_pos as int, a, b),
{
    let d = A::from_int(n_pos as i128);
    let recall = A::quot(a.tp, d);
    let total = A::sum(a.tp, a.fp);
    let precision = if F64::zero().less(total) {
        A::quot(a.tp, total)
    } else {
        F64::one()
    };
    let gain = A::diff(recall, a.prev_recall);
    let area = A::prod(gain, precision);
    let b = Curve { tp: a.tp, fp: a.fp, prev_recall: recall, ap: A::sum(a.ap, area) };
    proof {
        assert(is_int::<A>(n_pos as int, d));
        assert(is_recall::<A>(a.tp, n_pos as int, b.prev_recall));
        assert(is_sum::<A>(a.tp, a.fp, total));
        assert(is_precision::<A>(a.tp, a.fp, precision) && is_diff::<A>(
            b.prev_recall,
            a.prev_recall,
            gain,
        ) && is_prod::<A>(gain, precision, area) && is_sum::<A>(a.ap, area, b.ap));
    }
    b
}

/// Average precision (area under the precision–recall curve), the PR-AUC.
pub fn pr_auc<A: Arith>(preds: &Vec<F32>, labels: &Vec<u8>) -> (r: F64)
    requires
        label_sum(labels@) <= usize::MAX,
        label_sum(labels@) > 0 ==> all_numbers(preds@) && preds.len() <= labels.len(),
    ensures
        is_pr_auc::<A>(preds@, labels@, r),
{
    let n_pos: usize = count_positives(labels);
    if n_pos == 0 {
        return F64::zero();
    }
    let order = order_desc(preds);
    let ghost step = curve::<A>(preds@, labels@, order@);
    let n: usize = order.len();
    let mut c: Curve = Curve::start();
    let mut k: usize = 0;
    proof {
        lemma_runs_start(Curve::start(), step);
    }
    while k < n
        invariant
            k <= n,
            n == order.len(),
            n == preds.len(),
            preds.len() <= labels.len(),
            n_pos == label_sum(labels@),
            forall|k: int| 0 <= k < order.len() ==> #[trigger] order[k] < preds.len(),
            step == curve::<A>(preds@, labels@, order@),
            runs(Curve::start(), k as nat, step, c),
        decreases n - k,
    {
        let m = if labels[order[k]] == 1 {
            Curve { tp: A::sum(c.tp, F64::one()), ..c }
        } else {
            Curve { fp: A::sum(c.fp, F64::one()), ..c }
        };
        // Precision is read after all rows tied at this score.
        let next = if k + 1 < n && preds[order[k + 1]].equals(preds[order[k]]) {
            m
        } else {
            close_group::<A>(n_pos, m)
        };
        proof {
            assert(is_row_counted::<A>(labels@[order@[k as int] as int], c, m));
            assert(step(k as int, c, next));
            lemma_runs_next(Curve::start(), k as nat, step, c, next);
        }
        c = next;
        k = k + 1;
    }
    proof {
        assert(is_descending_order(preds@, order@) && runs(
            Curve::start(),
            preds@.len(),
            curve::<A>(preds@, labels@, order@),
            c,
        ));
    }
    c.ap
}

/// Counting row `k`.
pub open spec fn count_row<A: Arith>(labels: Seq<u8>) -> spec_fn(int, Curve, Curve) -> bool {
    |k: int, a: Curve, b: Curve| is_row_counted::<A>(labels[k], a, b)
}

/// `r` is the area of one tie group that holds all rows: the recall over them times the
/// precision over them.
pub open spec fn is_single_group_area<A: Arith>(labels: Seq<u8>, n: nat, r: F64) -> bool {
    exists|m: Curve, last: Curve| #[trigger]
        runs(Curve::start(), n, count_row::<A>(labels), m) && #[trigger] is_group_closed::<A>(
            label_sum(labels),
            m,
            last,
        ) && r == last.ap
}

/// Under constant predictions the precision is read once, after all rows: the average
/// precision is the positive rate as far as the arithmetic is exact.
pub proof fn lemma_constant_predictions_read_once<A: Arith>(
    preds: Seq<F32>,
    labels: Seq<u8>,
    r: F64,
)
    requires
        0 < preds.len() <= usize::MAX,
        forall|i: int| 0 <= i < preds.len() ==> (#[trigger] preds[i]).same(preds[0]),
        label_sum(labels) != 0,
        is_pr_auc::<A>(preds, labels, r),
    ensures
        is_single_group_area::<A>(labels, preds.len(), r),
{
    let n = preds.len();
    let (order, last) = choose|order: Seq<usize>, last: Curve| #[trigger]
        is_descending_order(preds, order) && #[trigger] runs(
            Curve::start(),
            n,
            curve::<A>(preds, labels, order),
            last,
        ) && r == last.ap;
    let keys = falling_keys(preds);
    let rows = Seq::new(n, |i: int| i as usize);
    assert forall|i: int| 0 <= i < n implies #[trigger] keys[i] == keys[0] by {
        assert(preds[i].same(preds[0]));
    }
    assert(orders(keys, 0, n as int, rows)) by {
        assert forall|x: usize| 0 <= x < n implies #[trigger] rows.contains(x) by {
            assert(rows[x as int] == x);
        }
        assert forall|i: int, j: int| 0 <= i < j < rows.len() implies before(
            keys,
            #[trigger] rows[i] as int,
            #[trigger] rows[j] as int,
        ) by {
            assert(keys[i] == keys[0] && keys[j] == keys[0]);
        }
    }
    lemma_orders_unique(keys, 0, n as int, order, rows);
    let step = curve::<A>(preds, labels, order);
    let count = count_row::<A>(labels);
    assert forall|k: int| 0 <= k < n implies order[k] == k
        && #[trigger] closes_group(preds, order, k) == (k == n - 1) by {
        assert(preds[k].same(preds[0]));
        if k + 1 < n {
            assert(preds[k + 1].same(preds[0]));
            assert(order[k + 1] == k + 1);
        }
    }
    let x = lemma_runs_last(Curve::start(), n, step, last);
    assert(is_curve_step::<A>(preds, labels, order, n - 1, x, last));
    assert(closes_group(preds, order, n - 1));
    let m = choose|m: Curve| #[trigger]
        is_row_counted::<A>(labels[order[n - 1] as int], x, m) && is_group_closed::<A>(
            label_sum(labels),
            m,
            last,
        );
    assert forall|i: int, a: Curve, b: Curve| 0 <= i < n - 1 && #[trigger] step(i, a, b) implies count(
        i,
        a,
        b,
    ) by {
        assert(is_curve_step::<A>(preds, labels, order, i, a, b));
        assert(!closes_group(preds, order, i));
    }
    lemma_runs_agree(Curve::start(), (n - 1) as nat, step, count, x);
    assert(order[n - 1] == n - 1);
    assert(count(n - 1, x, m));
    lemma_runs_next(Curve::start(), (n - 1) as nat, count, x, m);
    assert(runs(Curve::start(), n, count, m));
}

/// The counters of the walk.
proof fn lemma_rows_counted<A: Arith, T>(
    ring: Ring<T>,
    val: spec_fn(F64) -> Option<T>,
    labels: Seq<u8>,
    n: nat,
    m: Curve,
)
    requires
        ring.obeys_laws(),
        stays_exact::<A, T>(ring, val),
        counts_exactly::<A, T>(ring, val, labels.len() as int),
        n <= labels.len(),
        runs(Curve::start(), n, count_row::<A>(labels), m),
    ensures
        0 <= positives(labels, n as int) <= n,
        is_count(ring, val, positives(labels, n as int), m.tp),
        is_count(ring, val, n - positives(labels, n as int), m.fp),
        m.prev_recall == F64::zero(),
        m.ap == F64::zero(),
    decreases n,
{
    let step = count_row::<A>(labels);
    ring.lemma_count_of_one();
    assert(is_count(ring, val, 0, F64::zero()));
    assert(is_count(ring, val, 1, F64::one()));
    if n > 0 {
        let a = lemma_runs_last(Curve::start(), n, step, m);
        assert(is_row_counted::<A>(labels[n - 1], a, m));
        lemma_rows_counted::<A, T>(ring, val, labels, (n - 1) as nat, a);
        let p = positives(labels, n - 1);
        if labels[n - 1] == 1 {
            assert(is_sum::<A>(a.tp, F64::one(), m.tp));
            assert(is_count(ring, val, p + 1, m.tp));
        } else {
            assert(is_sum::<A>(a.fp, F64::one(), m.fp));
            assert(is_count(ring, val, (n - 1 - p) + 1, m.fp));
        }
    } else {
        let tr = choose|tr: Seq<Curve>| #[trigger]
            is_trace(Curve::start(), n, step, tr) && tr[0] == m;
    }
}

/// The average precision of constant predictions is the positive rate: where nothing was
/// rounded, times the number of rows it is the number of positives.
pub proof fn lemma_constant_predictions_earn_the_base_rate<A: Arith, T>(
    ring: Ring<T>,
    val: spec_fn(F64) -> Option<T>,
    preds: Seq<F32>,
    labels: Seq<u8>,
    r: F64,
)
    requires
        ring.obeys_laws(),
        stays_exact::<A, T>(ring, val),
        counts_exactly::<A, T>(ring, val, labels.len() as int),
        0 < preds.len() <= usize::MAX,
        labels.len() == preds.len(),
        forall|i: int| 0 <= i < labels.len() ==> #[trigger] labels[i] <= 1,
        forall|i: int| 0 <= i < preds.len() ==> (#[trigger] preds[i]).same(preds[0]),
        label_sum(labels) != 0,
        ring.cancels(ring.count(label_sum(labels))),
        is_pr_auc::<A>(preds, labels, r),
        val(r) is Some,
    ensures
        ring.product(val(r)->0, ring.count(preds.len() as int)) == ring.count(label_sum(labels)),
{
    let n = preds.len() as int;
    lemma_constant_predictions_read_once::<A>(preds, labels, r);
    let (m, last) = choose|m: Curve, last: Curve| #[trigger]
        runs(Curve::start(), n as nat, count_row::<A>(labels), m) && #[trigger] is_group_closed::<
            A,
        >(label_sum(labels), m, last) && r == last.ap;
    let (x, d, y) = choose|x: F64, d: F64, y: F64| #[trigger]
        is_precision::<A>(m.tp, m.fp, x) && #[trigger] is_diff::<A>(
            last.prev_recall,
            m.prev_recall,
            d,
        ) && #[trigger] is_prod::<A>(d, x, y) && is_sum::<A>(m.ap, y, last.ap);
    let p = label_sum(labels);
    let c = choose|c: F64| #[trigger]
        is_int::<A>(p, c) && is_quot::<A>(m.tp, c, last.prev_recall);
    let e = choose|e: F64| #[trigger]
        is_sum::<A>(m.tp, m.fp, e) && if F64::zero().lt(e) {
            is_quot::<A>(m.tp, e, x)
        } else {
            x == F64::one()
        };
    lemma_label_sum_counts(labels);
    lemma_label_sum_nonneg(labels);
    lemma_rows_counted::<A, T>(ring, val, labels, n as nat, m);
    assert(is_count(ring, val, p, c));
    assert(is_count(ring, val, p + (n - p), e));
    assert(F64::zero().lt(e));
    // The recall over all rows is one.
    let one = ring.one;
    let recall = val(last.prev_recall)->0;
    ring.lemma_product_commutes(recall, ring.count(p));
    ring.lemma_product_with_one(ring.count(p));
    assert(recall == one);
    ring.lemma_sum_undone(one, ring.zero);
    ring.lemma_sum_with_zero(one);
    assert(val(d)->0 == one);
    ring.lemma_product_with_one(val(x)->0);
    ring.lemma_sum_with_zero(val(x)->0);
    assert(val(r)->0 == val(x)->0);
}

/// One for the places of the order that hold a positive.
spec fn positive_place(labels: Seq<u8>, order: Seq<usize>) -> spec_fn(int) -> int {
    |k: int| positive(labels)(order[k] as int)
}

proof fn lemma_sum_of_ones(f: spec_fn(int) -> int, k: int, n: int)
    requires
        0 <= k <= n,
        forall|i: int| 0 <= i < n ==> 0 <= #[trigger] f(i) <= 1,
    ensures
        sum_to(f, k) <= sum_to(f, n),
        sum_to(f, n) <= n,
        (forall|i: int| k <= i < n ==> #[trigger] f(i) == 0) ==> sum_to(f, n) == sum_to(f, k),
    decreases n,
{
    if k < n {
        lemma_sum_of_ones(f, k, n - 1);
        assert(0 <= f(n - 1) <= 1);
    } else if n > 0 {
        lemma_sum_of_ones(f, n - 1, n - 1);
        assert(0 <= f(n - 1) <= 1);
    }
}

/// A perfect ranking lists all positives, and then all negatives.
proof fn lemma_perfect_order(preds: Seq<F32>, labels: Seq<u8>, order: Seq<usize>, k: int)
    requires
        all_numbers(preds),
        preds.len() <= usize::MAX,
        is_descending_order(preds, order),
        ranks_perfectly(preds, labels),
        0 <= k < preds.len(),
    ensures
        labels[order[k] as int] == 1 <==> k < positives(labels, preds.len() as int),
{
    let n = preds.len() as int;
    let p = positives(labels, n);
    let f = positive_place(labels, order);
    lemma_order_places(falling_keys(preds), n, order);
    lemma_sum_permuted(positive(labels), f, order, n);
    assert forall|i: int, j: int|
        0 <= i < j < n && labels[#[trigger] order[j] as int] == 1 implies labels[
    #[trigger] order[i] as int] == 1 by {
        lemma_descending_order(preds, order, i, j);
        let (a, b) = (preds[order[i] as int], preds[order[j] as int]);
        if labels[order[i] as int] != 1 {
            assert(a.lt(b));
        }
    }
    if labels[order[k] as int] == 1 {
        assert forall|i: int| 0 <= i < k + 1 implies #[trigger] f(i) == 1 by {
            assert(order[i] == order[i]);
        }
        lemma_sum_constant(1, f, k + 1);
        lemma_sum_of_ones(f, k + 1, n);
    } else {
        assert forall|i: int| k <= i < n implies #[trigger] f(i) == 0 by {
            assert(order[k] == order[k]);
        }
        lemma_sum_of_ones(f, k, n);
        lemma_sum_of_ones(f, k, k);
    }
}

/// A group of a perfect ranking is closed: while there are positives to come, at full
/// precision; and after the last of them, without gain in recall.
proof fn lemma_perfect_group<A: Arith, T>(
    ring: Ring<T>,
    val: spec_fn(F64) -> Option<T>,
    p: int,
    n: int,
    k: int,
    m: Curve,
    b: Curve,
)
    requires
        ring.obeys_laws(),
        stays_exact::<A, T>(ring, val),
        counts_exactly::<A, T>(ring, val, n),
        0 < k <= n,
        0 < p <= n,
        forall|j: int| 0 < j <= p ==> ring.cancels(#[trigger] ring.count(j)),
        is_count(ring, val, min_int(k, p), m.tp),
        is_count(ring, val, k - min_int(k, p), m.fp),
        is_group_closed::<A>(p, m, b),
        val(b.ap) is Some,
        val(m.ap) is Some ==> val(m.prev_recall) == val(m.ap),
        val(m.ap) is Some && k > p ==> val(m.ap)->0 == ring.one,
    ensures
        val(b.prev_recall) == val(b.ap),
        k >= p ==> val(b.ap)->0 == ring.one,
{
    let (x, d, y) = choose|x: F64, d: F64, y: F64| #[trigger]
        is_precision::<A>(m.tp, m.fp, x) && #[trigger] is_diff::<A>(
            b.prev_recall,
            m.prev_recall,
            d,
        ) && #[trigger] is_prod::<A>(d, x, y) && is_sum::<A>(m.ap, y, b.ap);
    let c = choose|c: F64| #[trigger] is_int::<A>(p, c) && is_quot::<A>(m.tp, c, b.prev_recall);
    let e = choose|e: F64| #[trigger]
        is_sum::<A>(m.tp, m.fp, e) && if F64::zero().lt(e) {
            is_quot::<A>(m.tp, e, x)
        } else {
            x == F64::one()
        };
    assert(is_count(ring, val, p, c));
    assert(is_count(ring, val, min_int(k, p) + (k - min_int(k, p)), e));
    assert(val(b.prev_recall) is Some && val(x) is Some);
    let (recall, before, area) = (val(b.prev_recall)->0, val(m.prev_recall)->0, val(y)->0);
    if k >= p {
        // The recall is one.
        ring.lemma_product_commutes(recall, ring.count(p));
        ring.lemma_product_with_one(ring.count(p));
        assert(ring.cancels(ring.count(p)));
        assert(recall == ring.one);
    }
    if k <= p {
        // The precision is one.
        let xv = val(x)->0;
        ring.lemma_product_commutes(xv, ring.count(k));
        ring.lemma_product_with_one(ring.count(k));
        assert(ring.cancels(ring.count(k)));
        assert(xv == ring.one);
        ring.lemma_product_with_one(val(d)->0);
        ring.lemma_difference_undone(recall, before);
        ring.lemma_sum_commutes(before, area);
    } else {
        ring.lemma_sum_undone(ring.zero, ring.one);
        ring.lemma_sum_with_zero(ring.one);
        ring.lemma_product_with_zero(val(x)->0);
    }
}

/// The walk down a perfect ranking.
proof fn lemma_perfect_walk<A: Arith, T>(
    ring: Ring<T>,
    val: spec_fn(F64) -> Option<T>,
    preds: Seq<F32>,
    labels: Seq<u8>,
    order: Seq<usize>,
    k: nat,
    b: Curve,
)
    requires
        ring.obeys_laws(),
        stays_exact::<A, T>(ring, val),
        counts_exactly::<A, T>(ring, val, preds.len() as int),
        all_numbers(preds),
        preds.len() <= usize::MAX,
        label_sum(labels) == positives(labels, preds.len() as int),
        0 < label_sum(labels) <= preds.len(),
        forall|j: int| 0 < j <= label_sum(labels) ==> ring.cancels(#[trigger] ring.count(j)),
        is_descending_order(preds, order),
        ranks_perfectly(preds, labels),
        k <= preds.len(),
        runs(Curve::start(), k, curve::<A>(preds, labels, order), b),
    ensures
        is_count(ring, val, min_int(k as int, label_sum(labels)), b.tp),
        is_count(ring, val, k - min_int(k as int, label_sum(labels)), b.fp),
        val(b.ap) is Some ==> val(b.prev_recall) == val(b.ap),
        val(b.ap) is Some && k >= label_sum(labels) ==> val(b.ap)->0 == ring.one,
    decreases k,
{
    let step = curve::<A>(preds, labels, order);
    let p = label_sum(labels);
    let n = preds.len() as int;
    ring.lemma_count_of_one();
    assert(is_count(ring, val, 0, F64::zero()));
    assert(is_count(ring, val, 1, F64::one()));
    if k > 0 {
        let a = lemma_runs_last(Curve::start(), k, step, b);
        lemma_perfect_walk::<A, T>(ring, val, preds, labels, order, (k - 1) as nat, a);
        assert(is_curve_step::<A>(preds, labels, order, k - 1, a, b));
        let closes = closes_group(preds, order, k - 1);
        let m = choose|m: Curve| #[trigger]
            is_row_counted::<A>(labels[order[k - 1] as int], a, m) && if closes {
                is_group_closed::<A>(p, m, b)
            } else {
                b == m
            };
        lemma_perfect_order(preds, labels, order, k - 1);
        let (t, f) = (min_int(k - 1, p), k - 1 - min_int(k - 1, p));
        if k - 1 < p {
            assert(is_sum::<A>(a.tp, F64::one(), m.tp));
            assert(is_count(ring, val, t + 1, m.tp));
        } else {
            assert(is_sum::<A>(a.fp, F64::one(), m.fp));
            assert(is_count(ring, val, f + 1, m.fp));
        }
        if closes {
            if val(b.ap) is Some {
                lemma_perfect_group::<A, T>(ring, val, p, n, k as int, m, b);
            }
        } else if k == p {
            // The row after the last positive has a lower prediction.
            lemma_perfect_order(preds, labels, order, k as int);
            let (u, v) = (ranked(preds, order, k - 1), ranked(preds, order, k as int));
            assert(v.lt(u));
        }
    } else {
        let tr = choose|tr: Seq<Curve>| #[trigger]
            is_trace(Curve::start(), k, step, tr) && tr[0] == b;
    }
}

/// A perfect ranking has average precision one, where nothing was rounded.
pub proof fn lemma_perfect_ranking_has_full_precision<A: Arith, T>(
    ring: Ring<T>,
    val: spec_fn(F64) -> Option<T>,
    preds: Seq<F32>,
    labels: Seq<u8>,
    r: F64,
)
    requires
        ring.obeys_laws(),
        stays_exact::<A, T>(ring, val),
        counts_exactly::<A, T>(ring, val, preds.len() as int),
        all_numbers(preds),
        preds.len() <= usize::MAX,
        labels.len() == preds.len(),
        forall|i: int| 0 <= i < labels.len() ==> #[trigger] labels[i] <= 1,
        label_sum(labels) > 0,
        forall|j: int| 0 < j <= label_sum(labels) ==> ring.cancels(#[trigger] ring.count(j)),
        ranks_perfectly(preds, labels),
        is_pr_auc::<A>(preds, labels, r),
        val(r) is Some,
    ensures
        val(r) == Some(ring.one),
{
    let n = preds.len();
    let (order, last) = choose|order: Seq<usize>, last: Curve| #[trigger]
        is_descending_order(preds, order) && #[trigger] runs(
            Curve::start(),
            n,
            curve::<A>(preds, labels, order),
            last,
        ) && r == last.ap;
    lemma_label_sum_counts(labels);
    lemma_sum_of_ones(positive(labels), 0, n as int);
    lemma_perfect_walk::<A, T>(ring, val, preds, labels, order, n, last);
}

/// A perfect ranking has ROC-AUC one, where nothing was rounded.
pub proof fn lemma_perfect_ranking_has_full_roc<A: Arith, T>(
    ring: Ring<T>,
    val: spec_fn(F64) -> Option<T>,
    preds: Seq<F32>,
    labels: Seq<u8>,
    r: F64,
)
    requires
        ring.obeys_laws(),
        stays_exact::<A, T>(ring, val),
        converts_exactly::<A, T>(ring, val),
        is_count(ring, val, 2, two()),
        all_numbers(preds),
        preds.len() <= usize::MAX,
        labels.len() == preds.len(),
        forall|i: int| 0 <= i < labels.len() ==> #[trigger] labels[i] <= 1,
        0 < label_sum(labels) < preds.len(),
        ring.cancels(ring.count(2 * (label_sum(labels) * (preds.len() - label_sum(labels))))),
        ranks_perfectly(preds, labels),
        is_roc_auc::<A>(preds, labels, r),
        val(r) is Some,
    ensures
        val(r) == Some(ring.one),
{
    let p = label_sum(labels);
    let q = preds.len() - p;
    lemma_label_sum_counts(labels);
    lemma_roc_auc_is_mann_whitney::<A, T>(ring, val, preds, labels, r);
    lemma_perfect_ranking_wins_all(preds, labels);
    let all = ring.count(2 * (p * q));
    let pairs = ring.product(ring.count(p), ring.count(q));
    ring.lemma_counts_multiply(p, q);
    assert(0 <= p * q) by (nonlinear_arith)
        requires
            0 < p,
            0 < q,
    ;
    ring.lemma_counts_multiply(2, p * q);
    ring.lemma_product_commutes(ring.count(2), pairs);
    ring.lemma_product_associates(val(r)->0, pairs, ring.count(2));
    assert(ring.product(val(r)->0, all) == all);
    ring.lemma_product_commutes(val(r)->0, all);
    ring.lemma_product_with_one(all);
}

/// `k` is the number of rows in the top `frac` of `n`: `n·frac`, rounded, at least one and
/// at most all.
pub open spec fn is_top_count<A: Arith>(n: int, frac: F64, k: int) -> bool {
    exists|x: F64, y: F64, z: F64, j: usize| #[trigger]
        is_int::<A>(n, x) && #[trigger] is_prod::<A>(x, frac, y) && #[trigger] is_round::<A>(y, z)
            && #[trigger] is_index::<A>(z, j) && k == min_int(max_int(j as int, 1), n)
}

/// The labels of the first `k` rows of the order.
pub open spec fn top_labels(labels: Seq<u8>, order: Seq<usize>, k: int) -> Seq<u8> {
    Seq::new(k as nat, |i: int| labels[order[i] as int])
}

/// Adding label `i`.
pub open spec fn add_label<A: Arith>(labels: Seq<u8>) -> spec_fn(int, F64, F64) -> bool {
    |i: int, a: F64, b: F64| is_sum::<A>(a, F64::of_byte(labels[i]), b)
}

/// `overall` is the sum of the labels over `n`.
pub open spec fn is_overall_rate<A: Arith>(labels: Seq<u8>, n: int, overall: F64) -> bool {
    exists|s: F64, x: F64| #[trigger]
        runs(F64::zero(), labels.len(), add_label::<A>(labels), s) && #[trigger] is_int::<A>(n, x)
            && is_quot::<A>(s, x, overall)
}

/// `r` is `(top / k) / overall`; zero where `overall` is.
pub open spec fn is_lift_ratio<A: Arith>(top: int, k: int, overall: F64, r: F64) -> bool {
    if overall.le(F64::zero()) {
        r == F64::zero()
    } else {
        exists|a: F64, b: F64, c: F64| #[trigger]
            is_int::<A>(top, a) && #[trigger] is_int::<A>(k, b) && #[trigger] is_quot::<A>(a, b, c)
                && is_quot::<A>(c, overall, r)
    }
}

/// `r` is the lift at the top `frac` of the ranking.
pub open spec fn is_lift<A: Arith>(
    preds: Seq<F32>,
    labels: Seq<u8>,
    frac: F64,
    r: F64,
) -> bool {
    exists|order: Seq<usize>, k: int, overall: F64| #[trigger]
        is_descending_order(preds, order) && #[trigger] is_top_count::<A>(
            preds.len() as int,
            frac,
            k,
        ) && #[trigger] is_overall_rate::<A>(labels, preds.len() as int, overall)
            && is_lift_ratio::<A>(label_sum(top_labels(labels, order, k)), k, overall, r)
}

fn top_count<A: Arith>(n: usize, frac: F64) -> (k: usize)
    requires
        n > 0,
    ensures
        is_top_count::<A>(n as int, frac, k as int),
        1 <= k <= n,
{
    let x = A::from_int(n as i128);
    let y = A::prod(x, frac);
    let z = A::round(y);
    let j: usize = A::to_index(z);
    assert(is_int::<A>(n as int, x) && is_prod::<A>(x, frac, y) && is_round::<A>(y, z) && is_index::<
        A,
    >(z, j));
    if j < 1 {
        1
    } else if j > n {
        n
    } else {
        j
    }
}

fn overall_rate<A: Arith>(labels: &Vec<u8>, n: usize) -> (overall: F64)
    ensures
        is_overall_rate::<A>(labels@, n as int, overall),
{
    let ghost step = add_label::<A>(labels@);
    let mut s: F64 = F64::zero();
    let mut i: usize = 0;
    proof {
        lemma_runs_start(F64::zero(), step);
    }
    while i < labels.len()
        invariant
            i <= labels.len(),
            step == add_label::<A>(labels@),
            runs(F64::zero(), i as nat, step, s),
        decreases labels.len() - i,
    {
        let next = A::sum(s, F64::from_byte(labels[i]));
        proof {
            assert(step(i as int, s, next));
            lemma_runs_next(F64::zero(), i as nat, step, s, next);
        }
        s = next;
        i = i + 1;
    }
    let x = A::from_int(n as i128);
    let overall = A::quot(s, x);
    assert(runs(F64::zero(), labels@.len(), step, s) && is_int::<A>(n as int, x));
    overall
}

fn top_positives(labels: &Vec<u8>, order: &Vec<usize>, k: usize) -> (n: i128)
    requires
        k <= order.len(),
        forall|i: int| 0 <= i < order.len() ==> #[trigger] order[i] < labels.len(),
    ensures
        n == label_sum(top_labels(labels@, order@, k as int)),
{
    let mut n: i128 = 0;
    let mut i: usize = 0;
    while i < k
        invariant
            i <= k <= order.len(),
            forall|i: int| 0 <= i < order.len() ==> #[trigger] order[i] < labels.len(),
            n == label_sum(top_labels(labels@, order@, i as int)),
            0 <= n <= 255 * i,
        decreases k - i,
    {
        proof {
            let next = top_labels(labels@, order@, i + 1);
            assert(next.drop_last() =~= top_labels(labels@, order@, i as int));
            assert(next.last() == labels@[order@[i as int] as int]);
        }
        n = n + labels[order[i]] as i128;
        i = i + 1;
    }
    n
}

/// Lift at the top `frac` of scored rows: positive rate in the top slice over
/// the overall positive rate. `frac` in (0,1].
pub fn lift_at<A: Arith>(preds: &Vec<F32>, labels: &Vec<u8>, frac: F64) -> (r: F64)
    requires
        preds.len() > 1 ==> all_numbers(preds@),
        0 < preds.len() <= labels.len(),
    ensures
        is_lift::<A>(preds@, labels@, frac, r),
{
    let n: usize = preds.len();
    let k: usize = top_count::<A>(n, frac);
    let order = order_desc(preds);
    let top: i128 = top_positives(labels, &order, k);
    let overall = overall_rate::<A>(labels, n);
    let r = if overall.at_most(F64::zero()) {
        F64::zero()
    } else {
        let a = A::from_int(top);
        let b = A::from_int(k as i128);
        let c = A::quot(a, b);
        assert(is_int::<A>(top as int, a) && is_int::<A>(k as int, b) && is_quot::<A>(a, b, c));
        A::quot(c, overall)
    };
    proof {
        assert(is_lift_ratio::<A>(
            label_sum(top_labels(labels@, order@, k as int)),
            k as int,
            overall,
            r,
        ));
        assert(is_descending_order(preds@, order@) && is_top_count::<A>(n as int, frac, k as int)
            && is_overall_rate::<A>(labels@, n as int, overall));
    }
    r
}

/// A reliability-curve bin: predicted vs observed positive rate.
#[derive(Clone, Copy, Debug)]
pub struct ReliabilityBin {
    pub mean_pred: F64,
    pub mean_label: F64,
    pub count: usize,
}

/// `b` is the bin of a prediction among `bins` of equal width: `p·bins` without its fraction,
/// and at most the last.
pub open spec fn is_bin_index<A: Arith>(p: F32, bins: int, b: int) -> bool {
    exists|x: F64, y: F64, j: usize| #[trigger]
        is_int::<A>(bins, x) && #[trigger] is_prod::<A>(p.spec_widened(), x, y)
            && #[trigger] is_index::<A>(y, j) && b == min_int(j as int, bins - 1)
}

/// `at` are the bins of the first `n` predictions.
pub open spec fn are_bin_indices<A: Arith>(
    preds: Seq<F32>,
    n: int,
    bins: int,
    at: Seq<int>,
) -> bool {
    &&& at.len() == n
    &&& forall|i: int| 0 <= i < n ==> is_bin_index::<A>(preds[i], bins, #[trigger] at[i])
}

/// Row `i` is in bin `b`.
pub open spec fn is_at(at: Seq<int>, b: int) -> spec_fn(int) -> bool {
    |i: int| at[i] == b
}

/// The rows in bin `b`.
pub open spec fn rows_at(at: Seq<int>, b: int) -> Seq<int> {
    Seq::new(at.len(), |i: int| i).filter(is_at(at, b))
}

/// Adding the prediction of row `i`.
pub open spec fn add_pred<A: Arith>(preds: Seq<F32>) -> spec_fn(int, F64, F64) -> bool {
    |i: int, a: F64, b: F64| is_sum::<A>(a, preds[i].spec_widened(), b)
}

/// `m` is `s / max(count, 1)`.
pub open spec fn is_mean<A: Arith>(s: F64, count: int, m: F64) -> bool {
    exists|c: F64| #[trigger] is_int::<A>(max_int(count, 1), c) && is_quot::<A>(s, c, m)
}

/// `r` holds the mean prediction, the mean label and the number of the rows.
pub open spec fn is_reliability_bin<A: Arith>(
    preds: Seq<F32>,
    labels: Seq<u8>,
    rows: Seq<int>,
    r: ReliabilityBin,
) -> bool {
    &&& exists|s: F64| #[trigger]
        folds(F64::zero(), rows, add_pred::<A>(preds), s) && is_mean::<A>(
            s,
            rows.len() as int,
            r.mean_pred,
        )
    &&& exists|s: F64| #[trigger]
        folds(F64::zero(), rows, add_label::<A>(labels), s) && is_mean::<A>(
            s,
            rows.len() as int,
            r.mean_label,
        )
    &&& r.count == rows.len()
}

/// `curve` are the reliability bins: one of each width, at least one.
pub open spec fn is_reliability<A: Arith>(
    preds: Seq<F32>,
    labels: Seq<u8>,
    bins: int,
    curve: Seq<ReliabilityBin>,
) -> bool {
    exists|at: Seq<int>| #[trigger]
        are_bin_indices::<A>(
            preds,
            min_int(preds.len() as int, labels.len() as int),
            max_int(bins, 1),
            at,
        ) && are_reliability_bins::<A>(preds, labels, at, max_int(bins, 1), curve)
}

/// `curve` are the reliability bins of rows that are in bins `at`.
pub open spec fn are_reliability_bins<A: Arith>(
    preds: Seq<F32>,
    labels: Seq<u8>,
    at: Seq<int>,
    bins: int,
    curve: Seq<ReliabilityBin>,
) -> bool {
    &&& curve.len() == bins
    &&& forall|b: int|
        0 <= b < bins ==> is_reliability_bin::<A>(
            preds,
            labels,
            rows_at(at, b),
            #[trigger] curve[b],
        )
}

/// Running sums of one bin.
#[derive(Clone, Copy)]
struct BinSums {
    sp: F64,
    sy: F64,
    count: usize,
}

spec fn bin_sums_hold<A: Arith>(
    preds: Seq<F32>,
    labels: Seq<u8>,
    rows: Seq<int>,
    s: BinSums,
) -> bool {
    &&& folds(F64::zero(), rows, add_pred::<A>(preds), s.sp)
    &&& folds(F64::zero(), rows, add_label::<A>(labels), s.sy)
    &&& s.count == rows.len()
}

proof fn lemma_rows_at_push(at: Seq<int>, x: int, b: int)
    ensures
        rows_at(at.push(x), b) == if x == b {
            rows_at(at, b).push(at.len() as int)
        } else {
            rows_at(at, b)
        },
        rows_at(at, b).len() <= at.len(),
{
    let n = at.len() as int;
    let now = Seq::new(at.len(), |i: int| i);
    let more = at.push(x);
    let next = Seq::new(more.len(), |i: int| i);
    lemma_filter_step(next, n, is_at(more, b));
    assert(next.take(n) =~= now);
    assert(next.take(n + 1) =~= next);
    lemma_filter_agree(now, is_at(more, b), is_at(at, b));
    lemma_filter_props(now, is_at(at, b));
}

fn bin_index<A: Arith>(p: F32, bins: usize) -> (b: usize)
    requires
        bins > 0,
    ensures
        is_bin_index::<A>(p, bins as int, b as int),
        b < bins,
{
    let x = A::from_int(bins as i128);
    let y = A::prod(p.widened(), x);
    let j: usize = A::to_index(y);
    assert(is_int::<A>(bins as int, x) && is_prod::<A>(p.spec_widened(), x, y) && is_index::<A>(
        y,
        j,
    ));
    if j > bins - 1 {
        bins - 1
    } else {
        j
    }
}

fn mean<A: Arith>(s: F64, count: usize) -> (m: F64)
    ensures
        is_mean::<A>(s, count as int, m),
{
    let n: usize = if count > 1 {
        count
    } else {
        1
    };
    let c = A::from_int(n as i128);
    let m = A::quot(s, c);
    assert(is_int::<A>(max_int(count as int, 1), c));
    m
}

/// Equal-width reliability bins over `[0,1]`.
pub fn reliability<A: Arith>(preds: &Vec<F32>, labels: &Vec<u8>, bins: usize) -> (curve: Vec<
    ReliabilityBin,
>)
    ensures
        is_reliability::<A>(preds@, labels@, bins as int, curve@),
{
    let nb: usize = if bins > 1 {
        bins
    } else {
        1
    };
    let ghost add_p = add_pred::<A>(preds@);
    let ghost add_y = add_label::<A>(labels@);
    let mut sums: Vec<BinSums> = Vec::with_capacity(nb);
    let mut b: usize = 0;
    while b < nb
        invariant
            b <= nb,
            sums.len() == b,
            forall|k: int|
                0 <= k < b ==> #[trigger] sums[k] == (BinSums {
                    sp: F64::zero(),
                    sy: F64::zero(),
                    count: 0,
                }),
        decreases nb - b,
    {
        sums.push(BinSums { sp: F64::zero(), sy: F64::zero(), count: 0 });
        b = b + 1;
    }
    let ghost mut at: Seq<int> = Seq::empty();
    proof {
        lemma_folds_start(F64::zero(), add_p);
        lemma_folds_start(F64::zero(), add_y);
        assert forall|k: int| 0 <= k < nb implies bin_sums_hold::<A>(
            preds@,
            labels@,
            rows_at(at, k),
            #[trigger] sums[k],
        ) by {
            lemma_filter_none(Seq::new(at.len(), |i: int| i), is_at(at, k));
            assert(rows_at(at, k) =~= Seq::<int>::empty());
        }
    }
    let mut i: usize = 0;
    while i < preds.len() && i < labels.len()
        invariant
            i <= preds.len(),
            i <= labels.len(),
            nb > 0,
            sums.len() == nb,
            add_p == add_pred::<A>(preds@),
            add_y == add_label::<A>(labels@),
            are_bin_indices::<A>(preds@, i as int, nb as int, at),
            forall|k: int|
                0 <= k < nb ==> bin_sums_hold::<A>(
                    preds@,
                    labels@,
                    rows_at(at, k),
                    #[trigger] sums[k],
                ),
        decreases preds.len() - i,
    {
        let p = preds[i];
        let c: usize = bin_index::<A>(p, nb);
        let s = sums[c];
        let ghost then = sums@;
        let ghost at_then = at;
        let ghost rows = rows_at(at, c as int);
        proof {
            assert(bin_sums_hold::<A>(preds@, labels@, rows, s));
            lemma_rows_at_push(at, c as int, c as int);
        }
        let t = BinSums {
            sp: A::sum(s.sp, p.widened()),
            sy: A::sum(s.sy, F64::from_byte(labels[i])),
            count: s.count + 1,
        };
        sums.set(c, t);
        proof {
            assert(add_p(i as int, s.sp, t.sp));
            assert(add_y(i as int, s.sy, t.sy));
            lemma_folds_push(F64::zero(), rows, add_p, s.sp, i as int, t.sp);
            lemma_folds_push(F64::zero(), rows, add_y, s.sy, i as int, t.sy);
            at = at.push(c as int);
            assert forall|k: int| 0 <= k < nb implies bin_sums_hold::<A>(
                preds@,
                labels@,
                rows_at(at, k),
                #[trigger] sums[k],
            ) by {
                lemma_rows_at_push(at_then, c as int, k);
                if k != c {
                    assert(bin_sums_hold::<A>(preds@, labels@, rows_at(at_then, k), then[k]));
                }
            }
        }
        i = i + 1;
    }
    let mut curve: Vec<ReliabilityBin> = Vec::with_capacity(nb);
    let mut k: usize = 0;
    while k < nb
        invariant
            k <= nb,
            sums.len() == nb,
            curve.len() == k,
            forall|k: int|
                0 <= k < nb ==> bin_sums_hold::<A>(
                    preds@,
                    labels@,
                    rows_at(at, k),
                    #[trigger] sums[k],
                ),
            forall|b: int|
                0 <= b < k ==> is_reliability_bin::<A>(
                    preds@,
                    labels@,
                    rows_at(at, b),
                    #[trigger] curve[b],
                ),
        decreases nb - k,
    {
        let s = sums[k];
        proof {
            assert(bin_sums_hold::<A>(preds@, labels@, rows_at(at, k as int), sums[k as int]));
        }
        let r = ReliabilityBin {
            mean_pred: mean::<A>(s.sp, s.count),
            mean_label: mean::<A>(s.sy, s.count),
            count: s.count,
        };
        assert(is_reliability_bin::<A>(preds@, labels@, rows_at(at, k as int), r));
        curve.push(r);
        k = k + 1;
    }
    proof {
        assert(i == min_int(preds@.len() as int, labels@.len() as int));
        assert(nb == max_int(bins as int, 1));
        assert(are_bin_indices::<A>(
            preds@,
            min_int(preds@.len() as int, labels@.len() as int),
            max_int(bins as int, 1),
            at,
        ));
        assert(are_reliability_bins::<A>(preds@, labels@, at, nb as int, curve@));
    }
    curve
}

proof fn lemma_rows_at_all(at: Seq<int>, bins: int)
    requires
        forall|i: int| 0 <= i < at.len() ==> 0 <= #[trigger] at[i] < bins,
    ensures
        sum_to(|b: int| rows_at(at, b).len() as int, bins) == at.len(),
    decreases at.len(),
{
    let f = |b: int| rows_at(at, b).len() as int;
    if at.len() == 0 {
        assert forall|b: int| 0 <= b < bins implies #[trigger] f(b) == 0 by {
            lemma_filter_none(Seq::new(at.len(), |i: int| i), is_at(at, b));
        }
        lemma_sum_zero(f, bins);
    } else {
        let front = at.drop_last();
        let x = at[at.len() - 1];
        assert forall|i: int| 0 <= i < front.len() implies 0 <= #[trigger] front[i] < bins by {
            assert(front[i] == at[i]);
        }
        lemma_rows_at_all(front, bins);
        let g = |b: int| rows_at(front, b).len() as int;
        let one = |b: int|
            if b == x {
                1int
            } else {
                0
            };
        assert(front.push(x) =~= at);
        assert forall|b: int| 0 <= b < bins implies #[trigger] f(b) == g(b) + one(b) by {
            lemma_rows_at_push(front, x, b);
        }
        lemma_sum_adds(g, one, f, bins);
        lemma_sum_point(one, bins, x);
    }
}

/// The reliability bins hold every row once: their counts add up to the number of rows.
pub proof fn lemma_reliability_counts_all<A: Arith>(
    preds: Seq<F32>,
    labels: Seq<u8>,
    bins: int,
    curve: Seq<ReliabilityBin>,
)
    requires
        is_reliability::<A>(preds, labels, bins, curve),
    ensures
        sum_to(|b: int| curve[b].count as int, curve.len() as int) == min_int(
            preds.len() as int,
            labels.len() as int,
        ),
{
    let n = min_int(preds.len() as int, labels.len() as int);
    let nb = max_int(bins, 1);
    let at = choose|at: Seq<int>| #[trigger]
        are_bin_indices::<A>(preds, n, nb, at) && are_reliability_bins::<A>(
            preds,
            labels,
            at,
            nb,
            curve,
        );
    assert forall|i: int| 0 <= i < at.len() implies 0 <= #[trigger] at[i] < nb by {
        assert(is_bin_index::<A>(preds[i], nb, at[i]));
    }
    lemma_rows_at_all(at, nb);
    let f = |b: int| rows_at(at, b).len() as int;
    let g = |b: int| curve[b].count as int;
    assert forall|b: int| 0 <= b < nb implies #[trigger] f(b) == g(b) by {
        assert(is_reliability_bin::<A>(preds, labels, rows_at(at, b), curve[b]));
    }
    lemma_sum_agree(f, g, nb);
}

/// A bundle of the headline metrics on one split.
#[derive(Clone, Debug)]
pub struct Metrics {
    pub pr_auc: F64,
    pub roc_auc: F64,
    pub log_loss: F64,
    pub lift_top1pct: F64,
    pub lift_top10pct: F64,
}

/// One hundredth.
#[verifier::allow_in_spec]
pub fn one_percent() -> F64
    returns
        (F64 { bits: 0x3f84_7ae1_47ae_147b }),
{
    F64 { bits: 0x3f84_7ae1_47ae_147b }
}

/// One tenth.
#[verifier::allow_in_spec]
pub fn ten_percent() -> F64
    returns
        (F64 { bits: 0x3fb9_9999_9999_999a }),
{
    F64 { bits: 0x3fb9_9999_9999_999a }
}

pub fn evaluate<A: Arith>(preds: &Vec<F32>, labels: &Vec<u8>) -> (m: Metrics)
    requires
        preds.len() > 1 || label_sum(labels@) > 0 ==> all_numbers(preds@),
        0 < preds.len() == labels.len(),
        label_sum(labels@) <= preds.len(),
        0 < label_sum(labels@) < preds.len() ==> label_sum(labels@) * (label_sum(labels@) + 1)
            <= usize::MAX,
    ensures
        is_pr_auc::<A>(preds@, labels@, m.pr_auc),
        is_roc_auc::<A>(preds@, labels@, m.roc_auc),
        is_log_loss::<A>(preds@, labels@, m.log_loss),
        is_lift::<A>(preds@, labels@, one_percent(), m.lift_top1pct),
        is_lift::<A>(preds@, labels@, ten_percent(), m.lift_top10pct),
{
    Metrics {
        pr_auc: pr_auc::<A>(preds, labels),
        roc_auc: roc_auc::<A>(preds, labels),
        log_loss: log_loss::<A>(preds, labels),
        lift_top1pct: lift_at::<A>(preds, labels, one_percent()),
        lift_top10pct: lift_at::<A>(preds, labels, ten_percent()),
    }
}

/// Single-row inference latency over the raw path.
#[derive(Clone, Copy, Debug)]
pub struct Latency {
    pub p50_ns: u128,
    pub p99_ns: u128,
    pub mean_ns: u128,
}

/// The sum of the times.
pub open spec fn time_sum(times: Seq<u128>) -> int
    decreases times.len(),
{
    if times.len() == 0 {
        0
    } else {
        time_sum(times.drop_last()) + times.last()
    }
}

proof fn lemma_time_sum_grows(times: Seq<u128>, i: int)
    requires
        0 <= i <= times.len(),
    ensures
        0 <= time_sum(times.take(i)) <= time_sum(times),
    decreases times.len(),
{
    if i < times.len() {
        let front = times.drop_last();
        lemma_time_sum_grows(front, i);
        assert(front.take(i) =~= times.take(i));
    } else {
        assert(times.take(i) =~= times);
        if times.len() > 0 {
            lemma_time_sum_grows(times.drop_last(), times.len() - 1);
        }
    }
}

/// Ninety-nine hundredths.
#[verifier::allow_in_spec]
pub fn ninety_nine_percent() -> F64
    returns
        (F64 { bits: 0x3fef_ae14_7ae1_47ae }),
{
    F64 { bits: 0x3fef_ae14_7ae1_47ae }
}

/// `t` is the percentile `q` of the times: that at place `n·q`, without its fraction, of the
/// sorted times, or the last.
pub open spec fn is_percentile<A: Arith>(
    times: Seq<u128>,
    order: Seq<usize>,
    q: F64,
    t: u128,
) -> bool {
    exists|x: F64, y: F64, j: usize| #[trigger]
        is_int::<A>(times.len() as int, x) && #[trigger] is_prod::<A>(x, q, y)
            && #[trigger] is_index::<A>(y, j) && t == times[order[min_int(
            j as int,
            times.len() - 1,
        )] as int]
}

/// `l` are median, 99th percentile and mean of the times.
pub open spec fn is_latency<A: Arith>(times: Seq<u128>, l: Latency) -> bool {
    exists|order: Seq<usize>| #[trigger]
        orders(times, 0, times.len() as int, order) && is_percentile::<A>(
            times,
            order,
            half(),
            l.p50_ns,
        ) && is_percentile::<A>(times, order, ninety_nine_percent(), l.p99_ns) && l.mean_ns
            == time_sum(times) / times.len() as int
}

fn percentile<A: Arith>(times: &Vec<u128>, order: &Vec<usize>, q: F64) -> (t: u128)
    requires
        times.len() > 0,
        order.len() == times.len(),
        forall|i: int| 0 <= i < order.len() ==> #[trigger] order[i] < times.len(),
    ensures
        is_percentile::<A>(times@, order@, q, t),
{
    let n: usize = times.len();
    let x = A::from_int(n as i128);
    let y = A::prod(x, q);
    let j: usize = A::to_index(y);
    let at: usize = if j > n - 1 {
        n - 1
    } else {
        j
    };
    let t: u128 = times[order[at]];
    assert(is_int::<A>(times@.len() as int, x) && is_prod::<A>(x, q, y) && is_index::<A>(y, j));
    t
}

/// Median, 99th percentile and mean of measured single-row times.
pub fn summarize_times<A: Arith>(times: &Vec<u128>) -> (l: Latency)
    requires
        times.len() > 0,
        time_sum(times@) <= u128::MAX,
    ensures
        is_latency::<A>(times@, l),
{
    let order = order_by_key(times);
    let mut sum: u128 = 0;
    let mut i: usize = 0;
    while i < times.len()
        invariant
            i <= times.len(),
            time_sum(times@) <= u128::MAX,
            sum == time_sum(times@.take(i as int)),
        decreases times.len() - i,
    {
        proof {
            assert(times@.take(i + 1).drop_last() =~= times@.take(i as int));
            lemma_time_sum_grows(times@, i + 1);
        }
        sum = sum + times[i];
        i = i + 1;
    }
    proof {
        assert(times@.take(times@.len() as int) =~= times@);
        assert(orders(times@, 0, times@.len() as int, order@));
    }
    Latency {
        p50_ns: percentile::<A>(times, &order, half()),
        p99_ns: percentile::<A>(times, &order, ninety_nine_percent()),
        mean_ns: sum / times.len() as u128,
    }
}

} // verus!
