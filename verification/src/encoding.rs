//! Feature encoding and the sparse basis `φ(x)`.
//!
//! Three feature treatments, all producing entries of one shared sparse basis:
//! - **Numeric**: quantile knots + piecewise-linear interpolation (2 nonzeros)
//!   with a reserved missing component.
//! - **Bounded categorical**: one-hot over a finite vocab, with reserved
//!   missing and unseen ids.
//! - **High-cardinality categorical**: leakage-safe **out-of-fold** target
//!   encoding into a continuous value, then treated like a numeric (knots +
//!   piecewise-linear basis), plus an optional `log(1+count)` block.
//!
//! [`Encoders::fit`] returns both the inference-time encoders (full-data maps)
//! and the **training** [`EncodedMatrix`] whose high-card columns use the
//! out-of-fold encoding, shrunk toward the rate of the other folds, so a row's
//! own label never informs its own encoded values.

use vstd::prelude::*;
use std::collections::HashMap;
use crate::arith::{
    deterministic, folds, is_diff, is_diff32, is_index, is_int, is_ln_1p32, is_narrow, is_prod,
    is_quot, is_quot32, is_round, is_sum, lemma_folds_agree, lemma_folds_push, lemma_folds_start,
    lemma_folds_unique, lemma_runs_next, lemma_runs_start, runs, Arith,
};
use crate::data::{copy_range, same_column, Column, Dataset, FeatureKind, MISSING_CAT};
use crate::exact::{stays_exact32, Ring};
use crate::float::{F32, F64};
use crate::seqs::{lemma_filter_props, lemma_filter_step};
use crate::sort::{order_by_key, orders};
use crate::Config;

verus! {

broadcast use vstd::std_specs::hash::group_hash_axioms;

/// Ascending numbers: none is not-a-number.
pub open spec fn ascending(knots: Seq<F32>) -> bool {
    forall|i: int, j: int|
        0 <= i <= j < knots.len() ==> (#[trigger] knots[i]).le(#[trigger] knots[j])
}

/// Strictly ascending numbers.
pub open spec fn strictly_ascending(knots: Seq<F32>) -> bool {
    &&& ascending(knots)
    &&& forall|i: int, j: int|
        0 <= i < j < knots.len() ==> (#[trigger] knots[i]).lt(#[trigger] knots[j])
}

pub open spec fn max_int(a: int, b: int) -> int {
    if a >= b {
        a
    } else {
        b
    }
}

pub open spec fn min_int(a: int, b: int) -> int {
    if a <= b {
        a
    } else {
        b
    }
}

/// The finite values, in the given order.
pub open spec fn finite_values(values: Seq<F32>) -> Seq<F32> {
    values.filter(|x: F32| x.spec_is_finite())
}

/// The sort keys of the values.
pub open spec fn value_keys(v: Seq<F32>) -> Seq<u128> {
    v.map_values(|x: F32| x.key() as u128)
}

/// `s` is `v` in ascending order; equal values keep their order.
pub open spec fn is_sorted_copy(v: Seq<F32>, s: Seq<F32>) -> bool {
    exists|order: Seq<usize>| #[trigger]
        orders(value_keys(v), 0, v.len() as int, order) && s == order.map_values(
            |p: usize| v[p as int],
        )
}

/// `q` is the `i`-th of `k` equally spaced quantiles: `i / (k - 1)`.
pub open spec fn is_quantile<A: Arith>(i: int, k: int, q: F64) -> bool {
    exists|x: F64, y: F64, d: F64| #[trigger]
        is_int::<A>(i, x) && #[trigger] is_int::<A>(k, y) && #[trigger] is_diff::<A>(
            y,
            F64::one(),
            d,
        ) && is_quot::<A>(x, d, q)
}

/// `idx` is the position of quantile `q` among `n` sorted values: `q * (n - 1)`, rounded,
/// and at most the last position.
pub open spec fn is_quantile_position<A: Arith>(q: F64, n: int, idx: int) -> bool {
    exists|x: F64, m: F64, p: F64, r: F64, j: usize| #[trigger]
        is_int::<A>(n, x) && #[trigger] is_diff::<A>(x, F64::one(), m) && #[trigger] is_prod::<A>(
            q,
            m,
            p,
        ) && #[trigger] is_round::<A>(p, r) && #[trigger] is_index::<A>(r, j) && idx == min_int(
            j as int,
            n - 1,
        )
}

/// `idx` is the position of the `i`-th of `k` quantiles among `n` sorted values.
pub open spec fn is_knot_position<A: Arith>(i: int, k: int, n: int, idx: int) -> bool {
    exists|q: F64| #[trigger] is_quantile::<A>(i, k, q) && is_quantile_position::<A>(q, n, idx)
}

/// The values that exceed all values kept before them.
pub open spec fn rising(vals: Seq<F32>) -> Seq<F32>
    decreases vals.len(),
{
    if vals.len() == 0 {
        Seq::empty()
    } else {
        let kept = rising(vals.drop_last());
        if kept.len() == 0 || kept.last().lt(vals.last()) {
            kept.push(vals.last())
        } else {
            kept
        }
    }
}

/// The values of `s` at the positions `idx`.
pub open spec fn picked(s: Seq<F32>, idx: Seq<int>) -> Seq<F32> {
    idx.map_values(|p: int| s[p])
}

/// `idx` are the positions of `k` quantiles among `n` sorted values.
pub open spec fn are_knot_positions<A: Arith>(k: int, n: int, idx: Seq<int>) -> bool {
    &&& idx.len() == k
    &&& forall|i: int| 0 <= i < k ==> is_knot_position::<A>(i, k, n, #[trigger] idx[i])
}

/// `knots` are the `k` (at least two) quantiles of the finite values, each kept where it
/// exceeds the one before; a single zero where no value is finite.
pub open spec fn are_quantile_knots<A: Arith>(values: Seq<F32>, k: int, knots: Seq<F32>) -> bool {
    let v = finite_values(values);
    if v.len() == 0 {
        knots == seq![F32::zero()]
    } else {
        exists|s: Seq<F32>, idx: Seq<int>| #[trigger]
            is_sorted_copy(v, s) && #[trigger] are_knot_positions::<A>(
                max_int(k, 2),
                v.len() as int,
                idx,
            ) && knots == rising(picked(s, idx))
    }
}

proof fn lemma_rising_props(vals: Seq<F32>)
    requires
        forall|i: int| 0 <= i < vals.len() ==> !(#[trigger] vals[i]).spec_is_nan(),
    ensures
        strictly_ascending(rising(vals)),
        rising(vals).len() <= vals.len(),
        vals.len() > 0 ==> rising(vals).len() > 0,
        forall|i: int| 0 <= i < rising(vals).len() ==> vals.contains(#[trigger] rising(vals)[i]),
    decreases vals.len(),
{
    if vals.len() > 0 {
        let front = vals.drop_last();
        assert forall|i: int| 0 <= i < front.len() implies !(#[trigger] front[i]).spec_is_nan() by {
            assert(front[i] == vals[i]);
        }
        lemma_rising_props(front);
        let kept = rising(front);
        let r = rising(vals);
        assert forall|i: int| 0 <= i < r.len() implies vals.contains(#[trigger] r[i]) by {
            if i < kept.len() {
                assert(r[i] == kept[i]);
                let p = choose|p: int| 0 <= p < front.len() && front[p] == kept[i];
                assert(vals[p] == kept[i]);
            } else {
                assert(r[i] == vals[vals.len() - 1]);
            }
        }
        assert forall|i: int, j: int| 0 <= i < j < r.len() implies (#[trigger] r[i]).lt(
            #[trigger] r[j],
        ) by {
            if j == kept.len() {
                assert(kept[i].le(kept[kept.len() - 1]));
            } else {
                assert(kept[i].lt(kept[j]));
            }
        }
        assert forall|i: int, j: int| 0 <= i <= j < r.len() implies (#[trigger] r[i]).le(
            #[trigger] r[j],
        ) by {
            if i < j {
                assert(r[i].lt(r[j]));
            } else {
                let p = choose|p: int| 0 <= p < vals.len() && vals[p] == r[i];
            }
        }
    }
}

/// A strictly ascending list drawn from a sorted list is no longer than it.
proof fn lemma_drawn_len(s: Seq<F32>, knots: Seq<F32>)
    requires
        ascending(s),
        strictly_ascending(knots),
        forall|i: int| 0 <= i < knots.len() ==> s.contains(#[trigger] knots[i]),
    ensures
        knots.len() <= s.len(),
{
    if knots.len() > 0 {
        let p = lemma_drawn_position(s, knots, knots.len() - 1);
    }
}

proof fn lemma_drawn_position(s: Seq<F32>, knots: Seq<F32>, i: int) -> (p: int)
    requires
        ascending(s),
        strictly_ascending(knots),
        forall|i: int| 0 <= i < knots.len() ==> s.contains(#[trigger] knots[i]),
        0 <= i < knots.len(),
    ensures
        i <= p < s.len(),
        s[p] == knots[i],
    decreases i,
{
    assert(s.contains(knots[i]));
    let p = choose|p: int| 0 <= p < s.len() && s[p] == knots[i];
    if i > 0 {
        let q = lemma_drawn_position(s, knots, i - 1);
        assert(knots[i - 1].lt(knots[i]));
        if p <= q {
            assert(s[p].le(s[q]));
        }
    }
    p
}

proof fn lemma_sorted_copy_props(v: Seq<F32>, s: Seq<F32>)
    requires
        is_sorted_copy(v, s),
        v.len() <= usize::MAX,
        forall|i: int| 0 <= i < v.len() ==> (#[trigger] v[i]).spec_is_finite(),
    ensures
        s.len() == v.len(),
        ascending(s),
        forall|i: int| 0 <= i < s.len() ==> (#[trigger] s[i]).spec_is_finite() && v.contains(s[i]),
        forall|i: int| 0 <= i < v.len() ==> s.contains(#[trigger] v[i]),
{
    let keys = value_keys(v);
    let order = choose|order: Seq<usize>| #[trigger]
        orders(keys, 0, v.len() as int, order) && s == order.map_values(|p: usize| v[p as int]);
    assert forall|i: int| 0 <= i < s.len() implies (#[trigger] s[i]).spec_is_finite() && v.contains(
        s[i],
    ) by {
        assert(0 <= order[i] < v.len());
        assert(s[i] == v[order[i] as int]);
    }
    assert forall|i: int, j: int| 0 <= i <= j < s.len() implies (#[trigger] s[i]).le(
        #[trigger] s[j],
    ) by {
        assert(0 <= order[i] < v.len() && 0 <= order[j] < v.len());
        assert(keys[order[i] as int] == s[i].key());
        assert(keys[order[j] as int] == s[j].key());
        if i < j {
            assert(crate::sort::before(keys, order[i] as int, order[j] as int));
        }
    }
    assert forall|i: int| 0 <= i < v.len() implies s.contains(#[trigger] v[i]) by {
        let x = i as usize;
        assert(order.contains(x));
        let k = choose|k: int| 0 <= k < order.len() && order[k] == x;
        assert(s[k] == v[i]);
    }
}

/// What quantile knots are like: strictly ascending, at least one, no more than were asked
/// for, and no more than there are values.
pub proof fn lemma_quantile_knots_props<A: Arith>(values: Seq<F32>, k: int, knots: Seq<F32>)
    requires
        are_quantile_knots::<A>(values, k, knots),
        values.len() <= usize::MAX,
    ensures
        strictly_ascending(knots),
        1 <= knots.len() <= max_int(k, 2),
        knots.len() <= max_int(values.len() as int, 1),
        finite_values(values).len() > 0 ==> forall|i: int|
            0 <= i < knots.len() ==> values.contains(#[trigger] knots[i]),
        forall|i: int| 0 <= i < knots.len() ==> (#[trigger] knots[i]).spec_is_finite(),
{
    let pred = |x: F32| x.spec_is_finite();
    let v = finite_values(values);
    lemma_filter_props(values, pred);
    if v.len() > 0 {
        let (s, idx) = choose|s: Seq<F32>, idx: Seq<int>| #[trigger]
            is_sorted_copy(v, s) && #[trigger] are_knot_positions::<A>(
                max_int(k, 2),
                v.len() as int,
                idx,
            ) && knots == rising(picked(s, idx));
        assert forall|i: int| 0 <= i < v.len() implies (#[trigger] v[i]).spec_is_finite() by {
            assert(pred(v[i]));
        }
        lemma_sorted_copy_props(v, s);
        let vals = picked(s, idx);
        assert forall|i: int| 0 <= i < vals.len() implies s.contains(#[trigger] vals[i])
            && vals[i].spec_is_finite() by {
            assert(is_knot_position::<A>(i, max_int(k, 2), v.len() as int, idx[i]));
            assert(0 <= idx[i] < v.len());
            assert(vals[i] == s[idx[i]]);
        }
        lemma_rising_props(vals);
        assert forall|i: int| 0 <= i < knots.len() implies s.contains(#[trigger] knots[i])
            && values.contains(knots[i]) && knots[i].spec_is_finite() by {
            let p = choose|p: int| 0 <= p < vals.len() && vals[p] == knots[i];
            assert(s.contains(vals[p]));
            let q = choose|q: int| 0 <= q < s.len() && s[q] == knots[i];
            assert(v.contains(s[q]));
            let t = choose|t: int| 0 <= t < v.len() && v[t] == s[q];
            assert(values.contains(v[t]));
        }
        lemma_drawn_len(s, knots);
    } else {
        assert(knots.len() == 1);
    }
}

/// The knots span the values: where the arithmetic puts the first quantile at the first
/// position and the last at the last, every finite value lies between the first knot and
/// the last.
pub proof fn lemma_knots_span_values<A: Arith>(
    values: Seq<F32>,
    k: int,
    knots: Seq<F32>,
    x: F32,
)
    requires
        are_quantile_knots::<A>(values, k, knots),
        values.len() <= usize::MAX,
        values.contains(x),
        x.spec_is_finite(),
        forall|p: int| #[trigger]
            is_knot_position::<A>(0, max_int(k, 2), finite_values(values).len() as int, p) ==> p
                == 0,
        forall|p: int| #[trigger]
            is_knot_position::<A>(
                max_int(k, 2) - 1,
                max_int(k, 2),
                finite_values(values).len() as int,
                p,
            ) ==> p == finite_values(values).len() - 1,
    ensures
        knots[0].le(x),
        x.le(knots.last()),
{
    let pred = |x: F32| x.spec_is_finite();
    let v = finite_values(values);
    let kk = max_int(k, 2);
    lemma_filter_props(values, pred);
    let at = choose|i: int| 0 <= i < values.len() && values[i] == x;
    assert(pred(values[at]));
    assert(v.contains(x));
    let (s, idx) = choose|s: Seq<F32>, idx: Seq<int>| #[trigger]
        is_sorted_copy(v, s) && #[trigger] are_knot_positions::<A>(kk, v.len() as int, idx) && knots
            == rising(picked(s, idx));
    assert forall|i: int| 0 <= i < v.len() implies (#[trigger] v[i]).spec_is_finite() by {
        assert(pred(v[i]));
    }
    lemma_sorted_copy_props(v, s);
    assert(is_knot_position::<A>(0, kk, v.len() as int, idx[0]));
    assert(is_knot_position::<A>(kk - 1, kk, v.len() as int, idx[kk - 1]));
    let vals = picked(s, idx);
    assert forall|i: int| 0 <= i < vals.len() implies !(#[trigger] vals[i]).spec_is_nan() by {
        assert(is_knot_position::<A>(i, kk, v.len() as int, idx[i]));
        assert(vals[i] == s[idx[i]]);
    }
    lemma_rising_first(vals);
    lemma_rising_last(vals);
    lemma_rising_props(vals);
    let t = choose|t: int| 0 <= t < v.len() && v[t] == x;
    assert(s.contains(v[t]));
    let q = choose|q: int| 0 <= q < s.len() && s[q] == x;
    assert(s[0].le(s[q]));
    assert(s[q].le(s[s.len() - 1]));
    assert(vals[0] == s[0]);
    assert(vals[kk - 1] == s[s.len() - 1]);
}

proof fn lemma_rising_first(vals: Seq<F32>)
    requires
        vals.len() > 0,
    ensures
        rising(vals).len() > 0,
        rising(vals)[0] == vals[0],
    decreases vals.len(),
{
    if vals.len() > 1 {
        lemma_rising_first(vals.drop_last());
    } else {
        assert(rising(vals.drop_last()).len() == 0);
    }
}

proof fn lemma_rising_last(vals: Seq<F32>)
    requires
        vals.len() > 0,
        forall|i: int| 0 <= i < vals.len() ==> !(#[trigger] vals[i]).spec_is_nan(),
    ensures
        rising(vals).len() > 0,
        vals.last().le(rising(vals).last()),
{
    lemma_rising_props(vals);
    let front = vals.drop_last();
    assert forall|i: int| 0 <= i < front.len() implies !(#[trigger] front[i]).spec_is_nan() by {
        assert(front[i] == vals[i]);
    }
    lemma_rising_props(front);
    let r = rising(vals);
    assert(r[r.len() - 1].le(r[r.len() - 1]));
    assert(!vals[vals.len() - 1].spec_is_nan());
}

/// The finite values of `values`, in order.
fn keep_finite(values: &Vec<F32>) -> (v: Vec<F32>)
    ensures
        v@ == finite_values(values@),
{
    let ghost pred = |x: F32| x.spec_is_finite();
    let mut v: Vec<F32> = Vec::new();
    let mut i: usize = 0;
    while i < values.len()
        invariant
            i <= values.len(),
            pred == (|x: F32| x.spec_is_finite()),
            v@ == values@.take(i as int).filter(pred),
        decreases values.len() - i,
    {
        proof {
            lemma_filter_step(values@, i as int, pred);
        }
        if values[i].is_finite() {
            v.push(values[i]);
        }
        i = i + 1;
    }
    proof {
        assert(values@.take(values@.len() as int) =~= values@);
    }
    v
}

fn sorted_copy(v: &Vec<F32>) -> (s: Vec<F32>)
    ensures
        is_sorted_copy(v@, s@),
        s.len() == v.len(),
{
    let mut keys: Vec<u128> = Vec::with_capacity(v.len());
    let mut i: usize = 0;
    while i < v.len()
        invariant
            i <= v.len(),
            keys.len() == i,
            forall|k: int| 0 <= k < i ==> #[trigger] keys[k] == v[k].key(),
        decreases v.len() - i,
    {
        keys.push(v[i].order_key() as u128);
        i = i + 1;
    }
    assert(keys@ =~= value_keys(v@));
    let order = order_by_key(&keys);
    let mut s: Vec<F32> = Vec::with_capacity(v.len());
    let mut j: usize = 0;
    while j < order.len()
        invariant
            j <= order.len(),
            orders(keys@, 0, v.len() as int, order@),
            s.len() == j,
            forall|k: int| 0 <= k < j ==> #[trigger] s[k] == v[order[k] as int],
        decreases order.len() - j,
    {
        s.push(v[order[j]]);
        j = j + 1;
    }
    assert(s@ =~= order@.map_values(|p: usize| v@[p as int]));
    s
}

/// The position of the `i`-th of `k` quantiles among `n` sorted values.
fn knot_position<A: Arith>(i: usize, k: usize, n: usize) -> (idx: usize)
    requires
        n > 0,
    ensures
        is_knot_position::<A>(i as int, k as int, n as int, idx as int),
        idx < n,
{
    let x = A::from_int(i as i128);
    let y = A::from_int(k as i128);
    let d = A::diff(y, F64::one());
    let q = A::quot(x, d);
    proof {
        assert(is_int::<A>(i as int, x) && is_int::<A>(k as int, y) && is_diff::<A>(
            y,
            F64::one(),
            d,
        ));
        assert(is_quantile::<A>(i as int, k as int, q));
    }
    let nn = A::from_int(n as i128);
    let m = A::diff(nn, F64::one());
    let p = A::prod(q, m);
    let r = A::round(p);
    let j: usize = A::to_index(r);
    proof {
        assert(is_int::<A>(n as int, nn) && is_diff::<A>(nn, F64::one(), m) && is_prod::<A>(q, m, p)
            && is_round::<A>(p, r) && is_index::<A>(r, j));
    }
    if j > n - 1 {
        n - 1
    } else {
        j
    }
}

/// `K` quantile knots spanning the finite values (min..max inclusive),
/// strictly increasing after dedup. Returns at least one knot.
pub fn quantile_knots<A: Arith>(values: &Vec<F32>, k: usize) -> (knots: Vec<F32>)
    ensures
        are_quantile_knots::<A>(values@, k as int, knots@),
        strictly_ascending(knots@),
        1 <= knots.len() <= max_int(k as int, 2),
        knots.len() <= max_int(values.len() as int, 1),
{
    let v = keep_finite(values);
    assert(values.len() <= usize::MAX);
    let mut knots: Vec<F32> = Vec::new();
    if v.len() == 0 {
        knots.push(F32::zero());
        proof {
            assert(v@.len() == 0);
            assert(knots@ =~= seq![F32::zero()]);
            lemma_quantile_knots_props::<A>(values@, k as int, knots@);
        }
        return knots;
    }
    let s = sorted_copy(&v);
    let kk: usize = if k > 2 {
        k
    } else {
        2
    };
    let n: usize = s.len();
    let ghost mut idx: Seq<int> = Seq::empty();
    let mut i: usize = 0;
    while i < kk
        invariant
            i <= kk,
            n > 0,
            n == s.len(),
            idx.len() == i,
            forall|m: int|
                0 <= m < i ==> is_knot_position::<A>(m, kk as int, n as int, #[trigger] idx[m]),
            knots@ == rising(picked(s@, idx)),
            kk == max_int(k as int, 2),
        decreases kk - i,
    {
        let p: usize = knot_position::<A>(i, kk, n);
        let val = s[p];
        proof {
            let next = idx.push(p as int);
            assert(picked(s@, next).drop_last() =~= picked(s@, idx));
            assert(picked(s@, next).last() == val);
            idx = next;
        }
        if knots.len() == 0 || knots[knots.len() - 1].less(val) {
            knots.push(val);
        }
        i = i + 1;
    }
    proof {
        assert(is_sorted_copy(v@, s@) && are_knot_positions::<A>(kk as int, n as int, idx));
        lemma_quantile_knots_props::<A>(values@, k as int, knots@);
    }
    knots
}

/// Adding the weight of row `i`.
pub open spec fn add_weight<A: Arith>(weights: Seq<F32>) -> spec_fn(int, F64, F64) -> bool {
    |i: int, a: F64, b: F64| is_sum::<A>(a, weights[i].spec_widened(), b)
}

/// Adding the weight of row `i` times its label.
pub open spec fn add_weighted_label<A: Arith>(
    labels: Seq<u8>,
    weights: Seq<F32>,
) -> spec_fn(int, F64, F64) -> bool {
    |i: int, a: F64, b: F64| is_label_added::<A>(labels[i], weights[i], a, b)
}

/// `b` is `a + weight * label`.
pub open spec fn is_label_added<A: Arith>(label: u8, weight: F32, a: F64, b: F64) -> bool {
    exists|p: F64| #[trigger]
        is_prod::<A>(weight.spec_widened(), F64::of_byte(label), p) && is_sum::<A>(a, p, b)
}

#[inline]
pub(crate) fn label_added<A: Arith>(label: u8, weight: F32, a: F64) -> (b: F64)
    ensures
        is_label_added::<A>(label, weight, a, b),
{
    let p = A::prod(weight.widened(), F64::from_byte(label));
    let b = A::sum(a, p);
    assert(is_prod::<A>(weight.spec_widened(), F64::of_byte(label), p));
    b
}

/// `num` and `den` are `Σ c_i y_i` and `Σ c_i` over the first `n` rows.
pub open spec fn are_rate_sums<A: Arith>(
    labels: Seq<u8>,
    weights: Seq<F32>,
    n: nat,
    num: F64,
    den: F64,
) -> bool {
    &&& runs(F64::zero(), n, add_weighted_label::<A>(labels, weights), num)
    &&& runs(F64::zero(), n, add_weight::<A>(weights), den)
}

pub(crate) fn rate_sums<A: Arith>(labels: &Vec<u8>, weights: &Vec<F32>) -> (r: (F64, F64))
    ensures
        are_rate_sums::<A>(
            labels@,
            weights@,
            min_int(labels@.len() as int, weights@.len() as int) as nat,
            r.0,
            r.1,
        ),
{
    let n: usize = if labels.len() <= weights.len() {
        labels.len()
    } else {
        weights.len()
    };
    let ghost s1 = add_weighted_label::<A>(labels@, weights@);
    let ghost s2 = add_weight::<A>(weights@);
    let mut num: F64 = F64::zero();
    let mut den: F64 = F64::zero();
    let mut i: usize = 0;
    proof {
        lemma_runs_start(F64::zero(), s1);
        lemma_runs_start(F64::zero(), s2);
    }
    while i < n
        invariant
            i <= n,
            n <= labels.len(),
            n <= weights.len(),
            s1 == add_weighted_label::<A>(labels@, weights@),
            s2 == add_weight::<A>(weights@),
            runs(F64::zero(), i as nat, s1, num),
            runs(F64::zero(), i as nat, s2, den),
        decreases n - i,
    {
        let num2 = label_added::<A>(labels[i], weights[i], num);
        let den2 = A::sum(den, weights[i].widened());
        proof {
            assert(s1(i as int, num, num2));
            assert(is_sum::<A>(den, weights@[i as int].spec_widened(), den2));
            assert(s2(i as int, den, den2));
            lemma_runs_next(F64::zero(), i as nat, s1, num, num2);
            lemma_runs_next(F64::zero(), i as nat, s2, den, den2);
        }
        num = num2;
        den = den2;
        i = i + 1;
    }
    (num, den)
}

/// `r` is the weighted positive rate `Σ c_i y_i / Σ c_i`; zero where the weights add up to
/// nothing.
pub open spec fn is_weighted_rate<A: Arith>(labels: Seq<u8>, weights: Seq<F32>, r: F32) -> bool {
    exists|num: F64, den: F64| #[trigger]
        are_rate_sums::<A>(
            labels,
            weights,
            min_int(labels.len() as int, weights.len() as int) as nat,
            num,
            den,
        ) && is_rate::<A>(num, den, r)
}

/// `r` is `num / den`; zero unless `den` is positive.
pub open spec fn is_rate<A: Arith>(num: F64, den: F64, r: F32) -> bool {
    if F64::zero().lt(den) {
        exists|q: F64| #[trigger] is_quot::<A>(num, den, q) && is_narrow::<A>(q, r)
    } else {
        r == F32::zero()
    }
}

#[inline]
fn rate<A: Arith>(num: F64, den: F64) -> (r: F32)
    ensures
        is_rate::<A>(num, den, r),
{
    if F64::zero().less(den) {
        let q = A::quot(num, den);
        let r = A::narrow(q);
        assert(is_quot::<A>(num, den, q) && is_narrow::<A>(q, r));
        r
    } else {
        F32::zero()
    }
}

/// Weighted positive rate `Σ c_i y_i / Σ c_i` over the rows.
pub fn weighted_rate<A: Arith>(labels: &Vec<u8>, weights: &Vec<F32>) -> (r: F32)
    ensures
        is_weighted_rate::<A>(labels@, weights@, r),
{
    let (num, den) = rate_sums::<A>(labels, weights);
    let r = rate::<A>(num, den);
    assert(is_rate::<A>(num, den, r));
    r
}

/// `r` is the weighted positive rate over some rows.
pub open spec fn is_fold_rate<A: Arith>(
    labels: Seq<u8>,
    weights: Seq<F32>,
    rows: Seq<int>,
    r: F32,
) -> bool {
    exists|num: F64, den: F64| #[trigger]
        folds(F64::zero(), rows, add_weighted_label::<A>(labels, weights), num) && #[trigger] folds(
            F64::zero(),
            rows,
            add_weight::<A>(weights),
            den,
        ) && is_rate::<A>(num, den, r)
}

/// Weighted positive rate over some rows.
fn fold_rate<A: Arith>(labels: &Vec<u8>, weights: &Vec<F32>, rows: &Vec<usize>) -> (r: F32)
    requires
        forall|i: int|
            0 <= i < rows.len() ==> #[trigger] rows[i] < labels.len() && rows[i] < weights.len(),
    ensures
        is_fold_rate::<A>(labels@, weights@, row_ints(rows@), r),
{
    let ghost ints = row_ints(rows@);
    let ghost s1 = add_weighted_label::<A>(labels@, weights@);
    let ghost s2 = add_weight::<A>(weights@);
    let mut num: F64 = F64::zero();
    let mut den: F64 = F64::zero();
    let mut i: usize = 0;
    proof {
        assert(ints.take(0) =~= Seq::<int>::empty());
        lemma_folds_start(F64::zero(), s1);
        lemma_folds_start(F64::zero(), s2);
    }
    while i < rows.len()
        invariant
            i <= rows.len(),
            forall|i: int|
                0 <= i < rows.len() ==> #[trigger] rows[i] < labels.len() && rows[i]
                    < weights.len(),
            ints == row_ints(rows@),
            s1 == add_weighted_label::<A>(labels@, weights@),
            s2 == add_weight::<A>(weights@),
            folds(F64::zero(), ints.take(i as int), s1, num),
            folds(F64::zero(), ints.take(i as int), s2, den),
        decreases rows.len() - i,
    {
        let r: usize = rows[i];
        let num2 = label_added::<A>(labels[r], weights[r], num);
        let den2 = A::sum(den, weights[r].widened());
        proof {
            assert(ints.take(i + 1) =~= ints.take(i as int).push(r as int));
            assert(s1(r as int, num, num2));
            assert(is_sum::<A>(den, weights@[r as int].spec_widened(), den2));
            assert(s2(r as int, den, den2));
            lemma_folds_push(F64::zero(), ints.take(i as int), s1, num, r as int, num2);
            lemma_folds_push(F64::zero(), ints.take(i as int), s2, den, r as int, den2);
        }
        num = num2;
        den = den2;
        i = i + 1;
    }
    let r = rate::<A>(num, den);
    proof {
        assert(ints.take(rows@.len() as int) =~= ints);
        assert(folds(F64::zero(), ints, s1, num) && folds(F64::zero(), ints, s2, den));
    }
    r
}

/// A row carries category `c`.
pub open spec fn carries(codes: Seq<i64>, c: i64) -> spec_fn(int) -> bool {
    |r: int| codes[r] == c
}

/// The rows among `rows` that carry category `c`, in order.
pub open spec fn rows_with(codes: Seq<i64>, rows: Seq<int>, c: i64) -> Seq<int> {
    rows.filter(carries(codes, c))
}

/// `e` is `(wy + α·prior) / (ws + α)`.
pub open spec fn is_smoothed<A: Arith>(wy: F64, ws: F64, alpha: F32, prior: F32, e: F32) -> bool {
    let a = alpha.spec_widened();
    exists|p: F64, num: F64, den: F64, v: F64| #[trigger]
        is_prod::<A>(a, prior.spec_widened(), p) && #[trigger] is_sum::<A>(wy, p, num)
            && #[trigger] is_sum::<A>(ws, a, den) && #[trigger] is_quot::<A>(num, den, v)
            && is_narrow::<A>(v, e)
}

/// `wy` and `ws` are `Σ c·y` and `Σ c` over the rows that carry category `c`.
pub open spec fn are_category_sums<A: Arith>(
    codes: Seq<i64>,
    labels: Seq<u8>,
    weights: Seq<F32>,
    rows: Seq<int>,
    c: i64,
    wy: F64,
    ws: F64,
) -> bool {
    &&& folds(
        F64::zero(),
        rows_with(codes, rows, c),
        add_weighted_label::<A>(labels, weights),
        wy,
    )
    &&& folds(F64::zero(), rows_with(codes, rows, c), add_weight::<A>(weights), ws)
}

/// `e` is the smoothed target encoding of category `c` over `rows`.
pub open spec fn is_target_enc<A: Arith>(
    codes: Seq<i64>,
    labels: Seq<u8>,
    weights: Seq<F32>,
    rows: Seq<int>,
    alpha: F32,
    prior: F32,
    c: i64,
    e: F32,
) -> bool {
    exists|wy: F64, ws: F64| #[trigger]
        are_category_sums::<A>(codes, labels, weights, rows, c, wy, ws) && is_smoothed::<A>(
            wy,
            ws,
            alpha,
            prior,
            e,
        )
}

/// Category `c` is not the missing one and occurs among `rows`.
pub open spec fn is_seen(codes: Seq<i64>, rows: Seq<int>, c: i64) -> bool {
    c != MISSING_CAT && rows_with(codes, rows, c).len() > 0
}

/// `enc` and `cnt` hold the target encoding and the number of rows of every category
/// seen among `rows`, and nothing else.
pub open spec fn are_target_maps<A: Arith>(
    codes: Seq<i64>,
    labels: Seq<u8>,
    weights: Seq<F32>,
    rows: Seq<int>,
    alpha: F32,
    prior: F32,
    enc: Map<i64, F32>,
    cnt: Map<i64, u32>,
) -> bool {
    &&& forall|c: i64| #[trigger] enc.contains_key(c) <==> is_seen(codes, rows, c)
    &&& forall|c: i64| #[trigger] cnt.contains_key(c) <==> is_seen(codes, rows, c)
    &&& forall|c: i64|
        is_seen(codes, rows, c) ==> #[trigger] cnt[c] == rows_with(codes, rows, c).len()
    &&& forall|c: i64|
        is_seen(codes, rows, c) ==> is_target_enc::<A>(
            codes,
            labels,
            weights,
            rows,
            alpha,
            prior,
            c,
            #[trigger] enc[c],
        )
}

/// Row numbers as integers.
pub open spec fn row_ints(rows: Seq<usize>) -> Seq<int> {
    rows.map_values(|r: usize| r as int)
}

proof fn lemma_rows_with_step(codes: Seq<i64>, rows: Seq<int>, i: int, c: i64)
    requires
        0 <= i < rows.len(),
    ensures
        rows_with(codes, rows.take(i + 1), c) == if codes[rows[i]] == c {
            rows_with(codes, rows.take(i), c).push(rows[i])
        } else {
            rows_with(codes, rows.take(i), c)
        },
{
    lemma_filter_step(rows, i, carries(codes, c));
}

/// Running sums per category: `Σ c·y`, `Σ c` and the number of rows, and the categories
/// in order of first appearance.
struct CategorySums {
    wy: HashMap<i64, F64>,
    ws: HashMap<i64, F64>,
    cnt: HashMap<i64, u32>,
    seen: Vec<i64>,
}

impl CategorySums {
    spec fn holds<A: Arith>(
        self,
        codes: Seq<i64>,
        labels: Seq<u8>,
        weights: Seq<F32>,
        rows: Seq<int>,
    ) -> bool {
        &&& forall|c: i64| #[trigger] self.wy@.contains_key(c) <==> is_seen(codes, rows, c)
        &&& forall|c: i64| #[trigger] self.ws@.contains_key(c) <==> is_seen(codes, rows, c)
        &&& forall|c: i64| #[trigger] self.cnt@.contains_key(c) <==> is_seen(codes, rows, c)
        &&& forall|c: i64|
            is_seen(codes, rows, c) ==> #[trigger] self.cnt@[c] == rows_with(codes, rows, c).len()
        &&& forall|c: i64|
            is_seen(codes, rows, c) ==> #[trigger] are_category_sums::<A>(
                codes,
                labels,
                weights,
                rows,
                c,
                self.wy@[c],
                self.ws@[c],
            )
        &&& forall|c: i64| #[trigger] self.seen@.contains(c) <==> is_seen(codes, rows, c)
    }
}

fn category_sums<A: Arith>(
    codes: &Vec<i64>,
    labels: &Vec<u8>,
    weights: &Vec<F32>,
    rows: &Vec<usize>,
) -> (r: CategorySums)
    requires
        rows.len() <= u32::MAX,
        forall|i: int|
            0 <= i < rows.len() ==> #[trigger] rows[i] < codes.len() && rows[i] < labels.len()
                && rows[i] < weights.len(),
    ensures
        r.holds::<A>(codes@, labels@, weights@, row_ints(rows@)),
{
    let ghost ints = row_ints(rows@);
    let ghost s1 = add_weighted_label::<A>(labels@, weights@);
    let ghost s2 = add_weight::<A>(weights@);
    let mut st = CategorySums {
        wy: HashMap::new(),
        ws: HashMap::new(),
        cnt: HashMap::new(),
        seen: Vec::new(),
    };
    proof {
        assert(ints.take(0) =~= Seq::<int>::empty());
        assert forall|c: i64| rows_with(codes@, ints.take(0), c).len() == 0 by {
            lemma_filter_props(ints.take(0), carries(codes@, c));
        }
    }
    let mut i: usize = 0;
    while i < rows.len()
        invariant
            i <= rows.len(),
            rows.len() <= u32::MAX,
            forall|i: int|
                0 <= i < rows.len() ==> #[trigger] rows[i] < codes.len() && rows[i] < labels.len()
                    && rows[i] < weights.len(),
            ints == row_ints(rows@),
            s1 == add_weighted_label::<A>(labels@, weights@),
            s2 == add_weight::<A>(weights@),
            st.holds::<A>(codes@, labels@, weights@, ints.take(i as int)),
        decreases rows.len() - i,
    {
        let r: usize = rows[i];
        let c: i64 = codes[r];
        let ghost old_rows = ints.take(i as int);
        let ghost new_rows = ints.take(i + 1);
        let ghost pre = st;
        proof {
            assert(ints[i as int] == r);
            assert forall|d: i64| #[trigger]
                rows_with(codes@, new_rows, d) == if d == c {
                    rows_with(codes@, old_rows, d).push(r as int)
                } else {
                    rows_with(codes@, old_rows, d)
                } by {
                lemma_rows_with_step(codes@, ints, i as int, d);
            }
        }
        if c == MISSING_CAT {
            proof {
                assert forall|d: i64| is_seen(codes@, new_rows, d) == is_seen(
                    codes@,
                    old_rows,
                    d,
                ) by {
                    assert(rows_with(codes@, new_rows, d) == rows_with(codes@, new_rows, d));
                }
                assert forall|d: i64| is_seen(codes@, new_rows, d) implies #[trigger]
                are_category_sums::<A>(
                    codes@,
                    labels@,
                    weights@,
                    new_rows,
                    d,
                    st.wy@[d],
                    st.ws@[d],
                ) by {
                    assert(are_category_sums::<A>(
                        codes@,
                        labels@,
                        weights@,
                        old_rows,
                        d,
                        st.wy@[d],
                        st.ws@[d],
                    ));
                }
            }
            i = i + 1;
            continue ;
        }
        let had: bool = st.cnt.contains_key(&c);
        let a: F64 = match st.wy.get(&c) {
            Some(x) => *x,
            None => F64::zero(),
        };
        let b: F64 = match st.ws.get(&c) {
            Some(x) => *x,
            None => F64::zero(),
        };
        let k: u32 = match st.cnt.get(&c) {
            Some(x) => *x,
            None => 0,
        };
        let a2 = label_added::<A>(labels[r], weights[r], a);
        let b2 = A::sum(b, weights[r].widened());
        proof {
            lemma_filter_props(old_rows, carries(codes@, c));
            let w = rows_with(codes@, old_rows, c);
            assert(k == w.len());
            if w.len() == 0 {
                assert(w =~= Seq::<int>::empty());
                lemma_folds_start(F64::zero(), s1);
                lemma_folds_start(F64::zero(), s2);
            } else {
                assert(is_seen(codes@, old_rows, c));
                assert(are_category_sums::<A>(
                    codes@,
                    labels@,
                    weights@,
                    old_rows,
                    c,
                    pre.wy@[c],
                    pre.ws@[c],
                ));
            }
            assert(s1(r as int, a, a2));
            assert(is_sum::<A>(b, weights@[r as int].spec_widened(), b2));
            assert(s2(r as int, b, b2));
            lemma_folds_push(F64::zero(), w, s1, a, r as int, a2);
            lemma_folds_push(F64::zero(), w, s2, b, r as int, b2);
            assert(rows_with(codes@, new_rows, c) == w.push(r as int));
        }
        if !had {
            st.seen.push(c);
        }
        st.wy.insert(c, a2);
        st.ws.insert(c, b2);
        st.cnt.insert(c, k + 1);
        proof {
            assert forall|d: i64| #[trigger] is_seen(codes@, new_rows, d) == (d == c || is_seen(
                codes@,
                old_rows,
                d,
            )) by {
                assert(rows_with(codes@, new_rows, d) == rows_with(codes@, new_rows, d));
            }
            assert forall|d: i64| #[trigger] st.seen@.contains(d) <==> is_seen(
                codes@,
                new_rows,
                d,
            ) by {
                if pre.seen@.contains(d) {
                    let p = choose|p: int| 0 <= p < pre.seen@.len() && pre.seen@[p] == d;
                    assert(st.seen@[p] == d);
                }
                if !had {
                    assert(st.seen@[pre.seen@.len() as int] == c);
                } else {
                    assert(pre.cnt@.contains_key(c));
                    assert(pre.seen@.contains(c));
                }
                if st.seen@.contains(d) && d != c {
                    let p = choose|p: int| 0 <= p < st.seen@.len() && st.seen@[p] == d;
                    assert(pre.seen@[p] == d);
                }
            }
            assert forall|d: i64| is_seen(codes@, new_rows, d) implies #[trigger]
            are_category_sums::<A>(
                codes@,
                labels@,
                weights@,
                new_rows,
                d,
                st.wy@[d],
                st.ws@[d],
            ) by {
                if d != c {
                    assert(are_category_sums::<A>(
                        codes@,
                        labels@,
                        weights@,
                        old_rows,
                        d,
                        pre.wy@[d],
                        pre.ws@[d],
                    ));
                    assert(rows_with(codes@, new_rows, d) == rows_with(codes@, old_rows, d));
                }
            }
            assert forall|d: i64| is_seen(codes@, new_rows, d) implies #[trigger] st.cnt@[d]
                == rows_with(codes@, new_rows, d).len() by {
                if d != c {
                    assert(rows_with(codes@, new_rows, d) == rows_with(codes@, old_rows, d));
                    assert(pre.cnt@[d] == rows_with(codes@, old_rows, d).len());
                }
            }
        }
        i = i + 1;
    }
    proof {
        assert(ints.take(rows@.len() as int) =~= ints);
    }
    st
}

/// Smoothed target encoding for one set of (code, label, weight) rows:
/// `enc(k) = (Σ c·y + α·prior) / (Σ c + α)`. Also the number of rows of each category.
pub fn target_enc_map<A: Arith>(
    codes: &Vec<i64>,
    labels: &Vec<u8>,
    weights: &Vec<F32>,
    rows: &Vec<usize>,
    alpha: F32,
    prior: F32,
) -> (r: (HashMap<i64, F32>, HashMap<i64, u32>))
    requires
        rows.len() <= u32::MAX,
        forall|i: int|
            0 <= i < rows.len() ==> #[trigger] rows[i] < codes.len() && rows[i] < labels.len()
                && rows[i] < weights.len(),
    ensures
        are_target_maps::<A>(
            codes@,
            labels@,
            weights@,
            row_ints(rows@),
            alpha,
            prior,
            r.0@,
            r.1@,
        ),
{
    let ghost ints = row_ints(rows@);
    let st = category_sums::<A>(codes, labels, weights, rows);
    let a = alpha.widened();
    let mut enc: HashMap<i64, F32> = HashMap::new();
    let mut i: usize = 0;
    while i < st.seen.len()
        invariant
            i <= st.seen.len(),
            a == alpha.spec_widened(),
            st.holds::<A>(codes@, labels@, weights@, ints),
            forall|c: i64| #[trigger]
                enc@.contains_key(c) <==> st.seen@.take(i as int).contains(c),
            forall|c: i64| #[trigger]
                enc@.contains_key(c) ==> is_target_enc::<A>(
                    codes@,
                    labels@,
                    weights@,
                    ints,
                    alpha,
                    prior,
                    c,
                    enc@[c],
                ),
        decreases st.seen.len() - i,
    {
        let c: i64 = st.seen[i];
        proof {
            assert(st.seen@.contains(c));
            assert(st.wy@.contains_key(c) && st.ws@.contains_key(c));
        }
        let wy: F64 = match st.wy.get(&c) {
            Some(x) => *x,
            None => F64::zero(),
        };
        let ws: F64 = match st.ws.get(&c) {
            Some(x) => *x,
            None => F64::zero(),
        };
        let p = A::prod(a, prior.widened());
        let num = A::sum(wy, p);
        let den = A::sum(ws, a);
        let v = A::quot(num, den);
        let e = A::narrow(v);
        proof {
            assert(is_prod::<A>(a, prior.spec_widened(), p) && is_sum::<A>(wy, p, num) && is_sum::<
                A,
            >(ws, a, den) && is_quot::<A>(num, den, v) && is_narrow::<A>(v, e));
            assert(is_smoothed::<A>(wy, ws, alpha, prior, e));
            assert(are_category_sums::<A>(codes@, labels@, weights@, ints, c, wy, ws));
            let now = st.seen@.take(i as int);
            let next = st.seen@.take(i + 1);
            assert(next =~= now.push(c));
            assert forall|d: i64| next.contains(d) <==> (d == c || now.contains(d)) by {
                assert(next[i as int] == c);
                if now.contains(d) {
                    let q = choose|q: int| 0 <= q < now.len() && now[q] == d;
                    assert(next[q] == d);
                }
                if next.contains(d) && d != c {
                    let q = choose|q: int| 0 <= q < next.len() && next[q] == d;
                    assert(now[q] == d);
                }
            }
        }
        enc.insert(c, e);
        i = i + 1;
    }
    proof {
        assert(st.seen@.take(st.seen@.len() as int) =~= st.seen@);
        assert forall|c: i64| is_seen(codes@, ints, c) implies is_target_enc::<A>(
            codes@,
            labels@,
            weights@,
            ints,
            alpha,
            prior,
            c,
            #[trigger] enc@[c],
        ) by {
            assert(st.seen@.contains(c));
            assert(enc@.contains_key(c));
        }
        assert forall|c: i64| #[trigger] enc@.contains_key(c) <==> is_seen(codes@, ints, c) by {
            assert(st.seen@.contains(c) <==> is_seen(codes@, ints, c));
        }
    }
    (enc, st.cnt)
}

/// Per-feature encoder; carries its slice of the global basis layout.
#[derive(Clone, Debug)]
pub enum FeatureEncoder {
    Numeric(NumericEnc),
    BoundedCat(BoundedCatEnc),
    HighCard(HighCardEnc),
}

#[derive(Clone, Debug)]
pub struct NumericEnc {
    pub knots: Vec<F32>,
    pub basis_off: u32,
}

#[derive(Clone, Debug)]
pub struct BoundedCatEnc {
    /// Raw category code → dense id in `0..n_vocab`.
    pub vocab: HashMap<i64, u32>,
    pub n_vocab: u32,
    pub basis_off: u32,
}

impl BoundedCatEnc {
    /// Every category of the vocabulary has an id below `n_vocab`.
    pub open spec fn ids_in_range(self) -> bool {
        forall|c: i64| #[trigger] self.vocab@.contains_key(c) ==> self.vocab@[c] < self.n_vocab
    }

    /// The dense id of a raw code.
    pub open spec fn spec_code_of(self, raw: i64) -> int {
        if raw == MISSING_CAT {
            self.n_vocab as int
        } else if self.vocab@.contains_key(raw) {
            self.vocab@[raw] as int
        } else {
            self.n_vocab + 1
        }
    }

    #[inline]
    pub fn missing_id(&self) -> (r: u32)
        ensures
            r == self.n_vocab,
    {
        self.n_vocab
    }

    #[inline]
    pub fn unseen_id(&self) -> (r: u32)
        requires
            self.n_vocab + 1 <= u32::MAX,
        ensures
            r == self.n_vocab + 1,
    {
        self.n_vocab + 1
    }

    /// Total number of one-hot slots (vocab + missing + unseen).
    #[inline]
    pub fn n_slots(&self) -> (r: u32)
        requires
            self.n_vocab + 2 <= u32::MAX,
        ensures
            r == self.n_vocab + 2,
    {
        self.n_vocab + 2
    }

    /// Map a raw code to its dense routing/basis id.
    #[inline]
    pub fn code_of(&self, raw: i64) -> (r: u32)
        requires
            raw != MISSING_CAT ==> self.n_vocab + 1 <= u32::MAX,
        ensures
            r == self.spec_code_of(raw),
            self.ids_in_range() ==> r < self.n_vocab + 2,
    {
        if raw == MISSING_CAT {
            self.missing_id()
        } else {
            match self.vocab.get(&raw) {
                Some(id) => *id,
                None => self.unseen_id(),
            }
        }
    }
}

#[derive(Clone, Debug)]
pub struct HighCardEnc {
    /// Full-data smoothed target encoding (inference path).
    pub enc: HashMap<i64, F32>,
    /// Full-data category counts.
    pub count: HashMap<i64, u32>,
    /// Global rate the encoding shrinks toward; also the unseen value.
    pub prior: F32,
    pub enc_knots: Vec<F32>,
    pub enc_off: u32,
    pub cnt_knots: Vec<F32>,
    pub cnt_off: u32,
    pub use_count: bool,
}

/// The count of a category; zero where it has none.
pub open spec fn count_or_zero(count: Map<i64, u32>, raw: i64) -> u32 {
    if count.contains_key(raw) {
        count[raw]
    } else {
        0
    }
}

impl HighCardEnc {
    /// The encoded value of a raw category.
    pub open spec fn spec_enc_of(self, raw: i64) -> F32 {
        if raw != MISSING_CAT && self.enc@.contains_key(raw) {
            self.enc@[raw]
        } else {
            self.prior
        }
    }

    /// `r` is `log(1 + count)` of a raw category; zero where it is missing.
    pub open spec fn is_count_of<A: Arith>(self, raw: i64, r: F32) -> bool {
        if raw == MISSING_CAT {
            r == F32::zero()
        } else {
            is_ln_1p32::<A>(count_or_zero(self.count@, raw), r)
        }
    }

    /// Encoded value for a raw category (unseen/missing → prior).
    #[inline]
    pub fn enc_of(&self, raw: i64) -> (r: F32)
        ensures
            r == self.spec_enc_of(raw),
    {
        if raw == MISSING_CAT {
            self.prior
        } else {
            match self.enc.get(&raw) {
                Some(e) => *e,
                None => self.prior,
            }
        }
    }

    #[inline]
    pub fn count_of<A: Arith>(&self, raw: i64) -> (r: F32)
        ensures
            self.is_count_of::<A>(raw, r),
    {
        if raw == MISSING_CAT {
            F32::zero()
        } else {
            let k: u32 = match self.count.get(&raw) {
                Some(k) => *k,
                None => 0,
            };
            A::ln_1p32(k)
        }
    }
}

impl FeatureEncoder {
    /// Number of basis slots this feature owns.
    pub open spec fn slots(self) -> int {
        match self {
            FeatureEncoder::Numeric(e) => e.knots@.len() as int + 1,
            FeatureEncoder::BoundedCat(e) => e.n_vocab + 2,
            FeatureEncoder::HighCard(e) => e.enc_knots@.len() as int + 1 + if e.use_count {
                e.cnt_knots@.len() as int + 1
            } else {
                0
            },
        }
    }

    /// Number of basis slots this feature owns.
    pub fn basis_len(&self) -> (r: u32)
        requires
            self.slots() <= u32::MAX,
        ensures
            r == self.slots(),
    {
        match self {
            FeatureEncoder::Numeric(e) => e.knots.len() as u32 + 1,
            FeatureEncoder::BoundedCat(e) => e.n_slots(),
            FeatureEncoder::HighCard(e) => {
                let a: u32 = e.enc_knots.len() as u32 + 1;
                let b: u32 = if e.use_count {
                    e.cnt_knots.len() as u32 + 1
                } else {
                    0
                };
                a + b
            },
        }
    }

    /// A valid encoder whose basis slots start at `off`.
    pub open spec fn wf_at(self, off: int) -> bool {
        &&& off + self.slots() <= u32::MAX
        &&& match self {
            FeatureEncoder::Numeric(e) => {
                &&& e.basis_off == off
                &&& e.knots.len() > 0
                &&& strictly_ascending(e.knots@)
            },
            FeatureEncoder::BoundedCat(e) => {
                &&& e.basis_off == off
                &&& e.ids_in_range()
            },
            FeatureEncoder::HighCard(e) => {
                &&& e.enc_off == off
                &&& e.cnt_off == off + e.enc_knots.len() + 1
                &&& e.enc_knots.len() > 0
                &&& e.cnt_knots.len() > 0
                &&& strictly_ascending(e.enc_knots@)
                &&& strictly_ascending(e.cnt_knots@)
            },
        }
    }
}

/// All feature encoders plus the total basis dimension.
#[derive(Clone, Debug)]
pub struct Encoders {
    pub features: Vec<FeatureEncoder>,
    pub basis_dim: u32,
}

/// Where the basis slots of feature `i` start: after those of the features before it.
pub open spec fn layout_start(features: Seq<FeatureEncoder>, i: int) -> int
    decreases i,
{
    if i <= 0 {
        0
    } else {
        layout_start(features, i - 1) + features[i - 1].slots()
    }
}

impl Encoders {
    /// Every feature is valid, the features' basis slots adjoin in order, and `basis_dim`
    /// is their number.
    pub open spec fn wf(self) -> bool {
        &&& forall|i: int|
            0 <= i < self.features.len() ==> (#[trigger] self.features[i]).wf_at(
                layout_start(self.features@, i),
            )
        &&& self.basis_dim == layout_start(self.features@, self.features@.len() as int)
    }
}

/// One encoded feature column, ready for routing and basis expansion.
/// Identical layout for train (out-of-fold high-card) and eval (full maps).
#[derive(Clone, Debug)]
pub enum EncCol {
    /// Numeric raw values; not-a-number marks missing.
    Num(Vec<F32>),
    /// Bounded categorical dense codes (includes missing/unseen ids).
    Cat(Vec<u32>),
    /// High-card: target-encoded value (finite) and `log(1+count)`.
    HighCard { enc: Vec<F32>, cnt: Vec<F32> },
}

/// Column-major encoded matrix, one [`EncCol`] per schema feature.
#[derive(Clone, Debug)]
pub struct EncodedMatrix {
    pub cols: Vec<EncCol>,
    pub n_rows: usize,
}

impl EncCol {
    /// The column has `n` rows of the encoder's kind, its codes within the encoder's slots.
    pub open spec fn fits(self, fe: FeatureEncoder, n: int) -> bool {
        match (fe, self) {
            (FeatureEncoder::Numeric(_), EncCol::Num(v)) => v.len() == n,
            (FeatureEncoder::BoundedCat(e), EncCol::Cat(codes)) => {
                &&& codes.len() == n
                &&& forall|r: int| 0 <= r < n ==> #[trigger] codes[r] < e.n_vocab + 2
            },
            (FeatureEncoder::HighCard(_), EncCol::HighCard { enc, cnt }) => enc.len() == n
                && cnt.len() == n,
            _ => false,
        }
    }
}

impl EncodedMatrix {
    /// One fitting column per feature.
    pub open spec fn fits(self, encoders: Encoders) -> bool {
        &&& self.cols.len() == encoders.features.len()
        &&& forall|i: int|
            0 <= i < self.cols.len() ==> (#[trigger] self.cols[i]).fits(
                encoders.features[i],
                self.n_rows as int,
            )
    }
}

/// Number of knots that are at most `v`.
#[inline]
pub(crate) fn knots_at_most(knots: &Vec<F32>, v: F32) -> (p: usize)
    requires
        ascending(knots@),
        !v.spec_is_nan(),
    ensures
        p <= knots.len(),
        is_knot_count(knots@, v, p as int),
{
    let mut lo: usize = 0;
    let mut hi: usize = knots.len();
    while lo < hi
        invariant
            lo <= hi <= knots.len(),
            ascending(knots@),
            !v.spec_is_nan(),
            forall|i: int| 0 <= i < lo ==> (#[trigger] knots[i]).le(v),
            forall|i: int| hi <= i < knots.len() ==> v.lt(#[trigger] knots[i]),
        decreases hi - lo,
    {
        let mid: usize = lo + (hi - lo) / 2;
        proof {
            assert(knots[mid as int].le(knots[mid as int]));
        }
        if knots[mid].at_most(v) {
            proof {
                assert forall|i: int| 0 <= i < mid + 1 implies (#[trigger] knots[i]).le(v) by {
                    assert(knots[i].le(knots[mid as int]));
                }
            }
            lo = mid + 1;
        } else {
            proof {
                assert forall|i: int| mid <= i < knots.len() implies v.lt(#[trigger] knots[i]) by {
                    assert(knots[mid as int].le(knots[i]));
                }
            }
            hi = mid;
        }
    }
    lo
}

/// The first `p` knots are at most `v`, the others exceed it.
pub open spec fn is_knot_count(knots: Seq<F32>, v: F32, p: int) -> bool {
    &&& forall|i: int| 0 <= i < p ==> (#[trigger] knots[i]).le(v)
    &&& forall|i: int| p <= i < knots.len() ==> v.lt(#[trigger] knots[i])
}

/// `t` is `(v - lo) / (hi - lo)`.
pub open spec fn is_interpolation<A: Arith>(lo: F32, hi: F32, v: F32, t: F32) -> bool {
    exists|a: F32, b: F32| #[trigger]
        is_diff32::<A>(v, lo, a) && #[trigger] is_diff32::<A>(hi, lo, b) && is_quot32::<A>(a, b, t)
}

/// `e` are the two entries of a value that knots `j` and `j + 1` bracket.
pub open spec fn are_bracket_entries<A: Arith>(
    knots: Seq<F32>,
    off: int,
    v: F32,
    j: int,
    e: Seq<(u32, F32)>,
) -> bool {
    &&& 0 <= j < knots.len() - 1
    &&& knots[j].le(v)
    &&& v.lt(knots[j + 1])
    &&& e.len() == 2
    &&& e[0].0 == off + j
    &&& e[1].0 == off + j + 1
    &&& is_interpolation::<A>(knots[j], knots[j + 1], v, e[1].1)
    &&& is_diff32::<A>(F32::one(), e[1].1, e[0].1)
}

/// `e` are the piecewise-linear basis entries of one numeric value.
pub open spec fn is_numeric_basis<A: Arith>(
    knots: Seq<F32>,
    off: int,
    v: F32,
    e: Seq<(u32, F32)>,
) -> bool {
    if v.spec_is_nan() {
        e == seq![((off + knots.len()) as u32, F32::one())]
    } else if knots.len() == 1 || v.le(knots[0]) {
        e == seq![(off as u32, F32::one())]
    } else if knots.last().le(v) {
        e == seq![((off + knots.len() - 1) as u32, F32::one())]
    } else {
        exists|j: int| #[trigger] are_bracket_entries::<A>(knots, off, v, j, e)
    }
}

/// Push the piecewise-linear basis entries for one numeric value.
/// Layout: `off..off+K` are knot weights, `off+K` is the reserved missing slot.
#[inline]
pub fn push_numeric<A: Arith>(knots: &Vec<F32>, off: u32, v: F32, out: &mut Vec<(u32, F32)>)
    requires
        block_expands(knots@, off as int, v),
    ensures
        exists|e: Seq<(u32, F32)>| #[trigger]
            is_numeric_basis::<A>(knots@, off as int, v, e) && final(out)@ == old(out)@ + e,
{
    if v.is_nan() {
        let k: u32 = knots.len() as u32;
        out.push((off + k, F32::one()));
        proof {
            let e = seq![((off + knots@.len()) as u32, F32::one())];
            assert(is_numeric_basis::<A>(knots@, off as int, v, e));
            assert(out@ =~= old(out)@ + e);
        }
        return ;
    }
    let n: usize = knots.len();
    if n == 1 || v.at_most(knots[0]) {
        out.push((off, F32::one()));
        proof {
            let e = seq![(off, F32::one())];
            assert(is_numeric_basis::<A>(knots@, off as int, v, e));
            assert(out@ =~= old(out)@ + e);
        }
        return ;
    }
    if knots[n - 1].at_most(v) {
        out.push((off + (n - 1) as u32, F32::one()));
        proof {
            let e = seq![((off + knots@.len() - 1) as u32, F32::one())];
            assert(is_numeric_basis::<A>(knots@, off as int, v, e));
            assert(out@ =~= old(out)@ + e);
        }
        return ;
    }
    let p: usize = knots_at_most(knots, v);
    proof {
        assert(knots[0].le(knots[0]));
        assert(knots[n - 1].le(knots[n - 1]));
    }
    let j: usize = p - 1;
    let lo = knots[j];
    let hi = knots[j + 1];
    let a = A::diff32(v, lo);
    let b = A::diff32(hi, lo);
    let t = A::quot32(a, b);
    let u = A::diff32(F32::one(), t);
    out.push((off + j as u32, u));
    out.push((off + (j as u32 + 1), t));
    proof {
        assert(is_diff32::<A>(v, lo, a) && is_diff32::<A>(hi, lo, b));
        let e = seq![((off + j) as u32, u), ((off + j + 1) as u32, t)];
        assert(are_bracket_entries::<A>(knots@, off as int, v, j as int, e));
        assert(is_numeric_basis::<A>(knots@, off as int, v, e));
        assert(out@ =~= old(out)@ + e);
    }
}

/// `e` are the basis entries of a high-card feature with encoded value `enc` and count
/// value `cnt`.
pub open spec fn is_highcard_basis<A: Arith>(
    f: HighCardEnc,
    enc: F32,
    cnt: F32,
    e: Seq<(u32, F32)>,
) -> bool {
    if f.use_count {
        exists|a: Seq<(u32, F32)>, b: Seq<(u32, F32)>| #[trigger]
            is_numeric_basis::<A>(f.enc_knots@, f.enc_off as int, enc, a)
                && #[trigger] is_numeric_basis::<A>(f.cnt_knots@, f.cnt_off as int, cnt, b) && e
                == a + b
    } else {
        is_numeric_basis::<A>(f.enc_knots@, f.enc_off as int, enc, e)
    }
}

/// `e` are the basis entries of one feature of one row.
pub open spec fn is_feature_basis<A: Arith>(
    fe: FeatureEncoder,
    col: EncCol,
    row: int,
    e: Seq<(u32, F32)>,
) -> bool {
    match (fe, col) {
        (FeatureEncoder::Numeric(f), EncCol::Num(v)) => is_numeric_basis::<A>(
            f.knots@,
            f.basis_off as int,
            v[row],
            e,
        ),
        (FeatureEncoder::BoundedCat(f), EncCol::Cat(codes)) => e == seq![
            ((f.basis_off + codes[row]) as u32, F32::one()),
        ],
        (FeatureEncoder::HighCard(f), EncCol::HighCard { enc, cnt }) => is_highcard_basis::<A>(
            f,
            enc[row],
            cnt[row],
            e,
        ),
        _ => false,
    }
}

/// `parts` are the basis entries of the features of one row, feature by feature.
pub open spec fn are_row_parts<A: Arith>(
    features: Seq<FeatureEncoder>,
    cols: Seq<EncCol>,
    row: int,
    parts: Seq<Seq<(u32, F32)>>,
) -> bool {
    &&& parts.len() == min_int(features.len() as int, cols.len() as int)
    &&& forall|i: int|
        0 <= i < parts.len() ==> is_feature_basis::<A>(features[i], cols[i], row, #[trigger] parts[i])
}

/// `phi` is the sparse basis of one row: the features' entries, one after the other.
pub open spec fn is_row_basis<A: Arith>(
    encoders: Encoders,
    matrix: EncodedMatrix,
    row: int,
    phi: Seq<(u32, F32)>,
) -> bool {
    exists|parts: Seq<Seq<(u32, F32)>>| #[trigger]
        are_row_parts::<A>(encoders.features@, matrix.cols@, row, parts) && phi == parts.flatten()
}

/// The last slot that value `v` can have in a numeric block whose slots start at `off`: the
/// reserved one where it is missing, that of the last knot otherwise.
pub open spec fn last_slot(knots: Seq<F32>, off: int, v: F32) -> int {
    if v.spec_is_nan() {
        off + knots.len()
    } else {
        off + knots.len() - 1
    }
}

/// Value `v` can be expanded in a numeric block whose slots start at `off`.
pub open spec fn block_expands(knots: Seq<F32>, off: int, v: F32) -> bool {
    &&& last_slot(knots, off, v) <= u32::MAX
    &&& !v.spec_is_nan() ==> knots.len() > 0 && ascending(knots)
}

/// Row `row` of the column can be expanded by the encoder.
pub open spec fn feature_expands(fe: FeatureEncoder, col: EncCol, row: int) -> bool {
    match (fe, col) {
        (FeatureEncoder::Numeric(f), EncCol::Num(v)) => row < v.len() && block_expands(
            f.knots@,
            f.basis_off as int,
            v[row],
        ),
        (FeatureEncoder::BoundedCat(f), EncCol::Cat(codes)) => row < codes.len() && f.basis_off
            + codes[row] <= u32::MAX,
        (FeatureEncoder::HighCard(f), EncCol::HighCard { enc, cnt }) => {
            &&& row < enc.len()
            &&& block_expands(f.enc_knots@, f.enc_off as int, enc[row])
            &&& f.use_count ==> row < cnt.len() && block_expands(
                f.cnt_knots@,
                f.cnt_off as int,
                cnt[row],
            )
        },
        _ => false,
    }
}

/// The slots that row `row` of the column can have are below `m`.
pub open spec fn feature_slots_below(fe: FeatureEncoder, col: EncCol, row: int, m: int) -> bool {
    match (fe, col) {
        (FeatureEncoder::Numeric(f), EncCol::Num(v)) => last_slot(
            f.knots@,
            f.basis_off as int,
            v[row],
        ) < m,
        (FeatureEncoder::BoundedCat(f), EncCol::Cat(codes)) => f.basis_off + codes[row] < m,
        (FeatureEncoder::HighCard(f), EncCol::HighCard { enc, cnt }) => {
            &&& last_slot(f.enc_knots@, f.enc_off as int, enc[row]) < m
            &&& f.use_count ==> last_slot(f.cnt_knots@, f.cnt_off as int, cnt[row]) < m
        },
        _ => false,
    }
}

/// The slots that row `row` of the matrix can have are below `m`.
pub open spec fn row_slots_below(
    encoders: Encoders,
    matrix: EncodedMatrix,
    row: int,
    m: int,
) -> bool {
    forall|i: int|
        0 <= i < encoders.features.len() && i < matrix.cols.len() ==> feature_slots_below(
            #[trigger] encoders.features[i],
            matrix.cols[i],
            row,
            m,
        )
}

/// Row `row` of the matrix can be expanded.
pub open spec fn row_expands(encoders: Encoders, matrix: EncodedMatrix, row: int) -> bool {
    forall|i: int|
        0 <= i < encoders.features.len() && i < matrix.cols.len() ==> feature_expands(
            #[trigger] encoders.features[i],
            matrix.cols[i],
            row,
        )
}

/// Valid encoders expand every row of a matrix that fits them.
pub proof fn lemma_fitting_rows_expand(encoders: Encoders, matrix: EncodedMatrix, row: int)
    requires
        encoders.wf(),
        matrix.fits(encoders),
        0 <= row < matrix.n_rows,
    ensures
        row_expands(encoders, matrix, row),
{
    assert forall|i: int|
        0 <= i < encoders.features.len() && i < matrix.cols.len() implies feature_expands(
        #[trigger] encoders.features[i],
        matrix.cols[i],
        row,
    ) by {
        assert(encoders.features[i].wf_at(layout_start(encoders.features@, i)));
        assert(matrix.cols[i].fits(encoders.features[i], matrix.n_rows as int));
    }
}

#[inline]
pub(crate) fn push_highcard<A: Arith>(f: &HighCardEnc, enc: F32, cnt: F32, out: &mut Vec<(u32, F32)>)
    requires
        block_expands(f.enc_knots@, f.enc_off as int, enc),
        f.use_count ==> block_expands(f.cnt_knots@, f.cnt_off as int, cnt),
    ensures
        exists|e: Seq<(u32, F32)>| #[trigger]
            is_highcard_basis::<A>(*f, enc, cnt, e) && final(out)@ == old(out)@ + e,
{
    let ghost start = out@;
    push_numeric::<A>(&f.enc_knots, f.enc_off, enc, out);
    let ghost mid = out@;
    let ghost a = choose|e: Seq<(u32, F32)>| #[trigger]
        is_numeric_basis::<A>(f.enc_knots@, f.enc_off as int, enc, e) && mid == start + e;
    if f.use_count {
        push_numeric::<A>(&f.cnt_knots, f.cnt_off, cnt, out);
        proof {
            let b = choose|e: Seq<(u32, F32)>| #[trigger]
                is_numeric_basis::<A>(f.cnt_knots@, f.cnt_off as int, cnt, e) && out@ == mid + e;
            assert(is_highcard_basis::<A>(*f, enc, cnt, a + b));
            assert(out@ =~= start + (a + b));
        }
    } else {
        proof {
            assert(is_highcard_basis::<A>(*f, enc, cnt, a));
        }
    }
}

/// Expand one row of an [`EncodedMatrix`] into sparse basis entries.
pub fn expand_row<A: Arith>(
    encoders: &Encoders,
    matrix: &EncodedMatrix,
    row: usize,
    out: &mut Vec<(u32, F32)>,
)
    requires
        row_expands(*encoders, *matrix, row as int),
    ensures
        is_row_basis::<A>(*encoders, *matrix, row as int, final(out)@),
{
    out.clear();
    let ghost mut parts: Seq<Seq<(u32, F32)>> = Seq::empty();
    let mut i: usize = 0;
    while i < encoders.features.len() && i < matrix.cols.len()
        invariant
            row_expands(*encoders, *matrix, row as int),
            i <= encoders.features.len(),
            i <= matrix.cols.len(),
            parts.len() == i,
            forall|k: int|
                0 <= k < i ==> is_feature_basis::<A>(
                    encoders.features[k],
                    matrix.cols[k],
                    row as int,
                    #[trigger] parts[k],
                ),
            out@ == parts.flatten(),
        decreases encoders.features.len() - i,
    {
        let ghost start = out@;
        let ghost mut e: Seq<(u32, F32)> = Seq::empty();
        proof {
            assert(feature_expands(encoders.features[i as int], matrix.cols[i as int], row as int));
        }
        match (&encoders.features[i], &matrix.cols[i]) {
            (FeatureEncoder::Numeric(f), EncCol::Num(v)) => {
                push_numeric::<A>(&f.knots, f.basis_off, v[row], out);
                proof {
                    e = choose|e: Seq<(u32, F32)>| #[trigger]
                        is_numeric_basis::<A>(f.knots@, f.basis_off as int, v@[row as int], e) && out@
                            == start + e;
                }
            },
            (FeatureEncoder::BoundedCat(f), EncCol::Cat(codes)) => {
                out.push((f.basis_off + codes[row], F32::one()));
                proof {
                    e = seq![((f.basis_off + codes@[row as int]) as u32, F32::one())];
                }
            },
            (FeatureEncoder::HighCard(f), EncCol::HighCard { enc, cnt }) => {
                let c = if f.use_count {
                    cnt[row]
                } else {
                    F32::zero()
                };
                push_highcard::<A>(f, enc[row], c, out);
                proof {
                    e = choose|e: Seq<(u32, F32)>| #[trigger]
                        is_highcard_basis::<A>(*f, enc@[row as int], c, e) && out@ == start + e;
                }
            },
            _ => {},
        }
        proof {
            assert(is_feature_basis::<A>(
                encoders.features[i as int],
                matrix.cols[i as int],
                row as int,
                e,
            ));
            assert(out@ =~= start + e);
            parts.lemma_flatten_push(e);
            parts = parts.push(e);
        }
        i = i + 1;
    }
    assert(are_row_parts::<A>(encoders.features@, matrix.cols@, row as int, parts));
}

/// The categories of a column in order of first appearance, without the missing one.
pub open spec fn distinct(raw: Seq<i64>) -> Seq<i64>
    decreases raw.len(),
{
    if raw.len() == 0 {
        Seq::empty()
    } else {
        let d = distinct(raw.drop_last());
        if raw.last() != MISSING_CAT && !d.contains(raw.last()) {
            d.push(raw.last())
        } else {
            d
        }
    }
}

/// `vocab` numbers the categories of `d` in order.
pub open spec fn numbers(vocab: Map<i64, u32>, d: Seq<i64>) -> bool {
    &&& forall|c: i64| #[trigger] vocab.contains_key(c) <==> d.contains(c)
    &&& forall|i: int| 0 <= i < d.len() ==> vocab[#[trigger] d[i]] == i
}

fn build_vocab(raw: &Vec<i64>) -> (r: (HashMap<i64, u32>, u32))
    requires
        distinct(raw@).len() <= u32::MAX,
    ensures
        numbers(r.0@, distinct(raw@)),
        r.1 == distinct(raw@).len(),
{
    let mut vocab: HashMap<i64, u32> = HashMap::new();
    let mut n: u32 = 0;
    let mut i: usize = 0;
    while i < raw.len()
        invariant
            i <= raw.len(),
            distinct(raw@).len() <= u32::MAX,
            numbers(vocab@, distinct(raw@.take(i as int))),
            n == distinct(raw@.take(i as int)).len(),
        decreases raw.len() - i,
    {
        let c: i64 = raw[i];
        let ghost d = distinct(raw@.take(i as int));
        proof {
            assert(raw@.take(i + 1).drop_last() =~= raw@.take(i as int));
            assert(raw@.take(i + 1).last() == c);
            lemma_distinct_grows(raw@, i + 1);
        }
        if c != MISSING_CAT && !vocab.contains_key(&c) {
            vocab.insert(c, n);
            n = n + 1;
            proof {
                let e = d.push(c);
                assert forall|x: i64| #[trigger] vocab@.contains_key(x) <==> e.contains(x) by {
                    assert(e[d.len() as int] == c);
                    if d.contains(x) {
                        let p = choose|p: int| 0 <= p < d.len() && d[p] == x;
                        assert(e[p] == x);
                    }
                    if e.contains(x) && x != c {
                        let p = choose|p: int| 0 <= p < e.len() && e[p] == x;
                        assert(d[p] == x);
                    }
                }
                assert forall|k: int| 0 <= k < e.len() implies vocab@[#[trigger] e[k]] == k by {
                    if k < d.len() {
                        assert(e[k] == d[k]);
                        assert(d.contains(d[k]));
                    }
                }
            }
        }
        i = i + 1;
    }
    proof {
        assert(raw@.take(raw@.len() as int) =~= raw@);
    }
    (vocab, n)
}

proof fn lemma_distinct_grows(raw: Seq<i64>, i: int)
    requires
        0 <= i <= raw.len(),
    ensures
        distinct(raw.take(i)).len() <= distinct(raw).len(),
    decreases raw.len() - i,
{
    if i < raw.len() {
        lemma_distinct_grows(raw, i + 1);
        assert(raw.take(i + 1).drop_last() =~= raw.take(i));
    } else {
        assert(raw.take(i) =~= raw);
    }
}

/// Row numbers `0..n`.
pub open spec fn all_rows(n: int) -> Seq<int> {
    Seq::new(n as nat, |i: int| i)
}

/// A row is outside fold `f` of `nf`.
pub open spec fn outside_fold(nf: int, f: int) -> spec_fn(int) -> bool {
    |i: int| i % nf != f
}

/// The rows outside fold `f` of `nf`.
pub open spec fn out_of_fold(n: int, nf: int, f: int) -> Seq<int> {
    all_rows(n).filter(outside_fold(nf, f))
}

/// `enc` and `cnt` are the encoding of row `i` from `rows` alone: the prior and
/// `log(1 + 0)` where these do not carry the row's category; the prior and zero where the
/// row's category is missing.
pub open spec fn is_encoded_from<A: Arith>(
    codes: Seq<i64>,
    labels: Seq<u8>,
    weights: Seq<F32>,
    rows: Seq<int>,
    alpha: F32,
    prior: F32,
    i: int,
    enc: F32,
    cnt: F32,
) -> bool {
    let c = codes[i];
    if c == MISSING_CAT {
        enc == prior && cnt == F32::zero()
    } else {
        &&& if is_seen(codes, rows, c) {
            is_target_enc::<A>(codes, labels, weights, rows, alpha, prior, c, enc)
        } else {
            enc == prior
        }
        &&& is_ln_1p32::<A>(rows_with(codes, rows, c).len() as u32, cnt)
    }
}

/// `enc` and `cnt` are the out-of-fold encoding of row `i`: from the rows of the other
/// folds alone, shrunk toward the rate of these rows.
pub open spec fn is_out_of_fold_enc<A: Arith>(
    codes: Seq<i64>,
    labels: Seq<u8>,
    weights: Seq<F32>,
    nf: int,
    alpha: F32,
    i: int,
    enc: F32,
    cnt: F32,
) -> bool {
    let rows = out_of_fold(codes.len() as int, nf, i % nf);
    exists|prior: F32| #[trigger]
        is_fold_rate::<A>(labels, weights, rows, prior) && is_encoded_from::<A>(
            codes,
            labels,
            weights,
            rows,
            alpha,
            prior,
            i,
            enc,
            cnt,
        )
}

/// `cnts` are `log(1 + count)` of every row's category, missing or not.
pub open spec fn are_row_counts<A: Arith>(
    raw: Seq<i64>,
    count: Map<i64, u32>,
    cnts: Seq<F32>,
) -> bool {
    &&& cnts.len() == raw.len()
    &&& forall|i: int|
        0 <= i < raw.len() ==> is_ln_1p32::<A>(count_or_zero(count, raw[i]), #[trigger] cnts[i])
}

/// `e` and the columns `enc`, `cnt` are the fit of a high-card feature whose basis slots
/// start at `off`.
pub open spec fn is_highcard_fit<A: Arith>(
    raw: Seq<i64>,
    labels: Seq<u8>,
    weights: Seq<F32>,
    cfg: Config,
    prior: F32,
    off: int,
    e: HighCardEnc,
    enc: Seq<F32>,
    cnt: Seq<F32>,
) -> bool {
    &&& are_target_maps::<A>(
        raw,
        labels,
        weights,
        all_rows(raw.len() as int),
        cfg.alpha,
        prior,
        e.enc@,
        e.count@,
    )
    &&& e.prior == prior
    &&& are_quantile_knots::<A>(
        raw.map_values(|c: i64| e.spec_enc_of(c)),
        cfg.hc_knots as int,
        e.enc_knots@,
    )
    &&& exists|cnts: Seq<F32>| #[trigger]
        are_row_counts::<A>(raw, e.count@, cnts) && are_quantile_knots::<A>(
            cnts,
            cfg.hc_knots as int,
            e.cnt_knots@,
        )
    &&& e.enc_off == off
    &&& e.cnt_off == off + e.enc_knots.len() + 1
    &&& e.use_count == cfg.hc_use_count
    &&& enc.len() == raw.len()
    &&& cnt.len() == raw.len()
    &&& forall|i: int|
        0 <= i < raw.len() ==> #[trigger] is_out_of_fold_enc::<A>(
            raw,
            labels,
            weights,
            max_int(cfg.n_folds as int, 2),
            cfg.alpha,
            i,
            enc[i],
            cnt[i],
        )
}

/// `fe` and `col` are the fit of feature `fi`, whose basis slots start at `off`.
pub open spec fn is_fitted<A: Arith>(
    train: Dataset,
    cfg: Config,
    prior: F32,
    fi: int,
    off: int,
    fe: FeatureEncoder,
    col: EncCol,
) -> bool {
    match (train.schema.kinds[fi], train.columns[fi], fe, col) {
        (
            FeatureKind::Numeric,
            Column::Numeric(raw),
            FeatureEncoder::Numeric(e),
            EncCol::Num(v),
        ) => {
            &&& are_quantile_knots::<A>(raw@, cfg.knots as int, e.knots@)
            &&& e.basis_off == off
            &&& v@ == raw@
        },
        (
            FeatureKind::BoundedCat,
            Column::Categorical(raw),
            FeatureEncoder::BoundedCat(e),
            EncCol::Cat(codes),
        ) => {
            &&& numbers(e.vocab@, distinct(raw@))
            &&& e.n_vocab == distinct(raw@).len()
            &&& e.basis_off == off
            &&& are_codes(e, raw@, codes@)
        },
        (
            FeatureKind::HighCardCat,
            Column::Categorical(raw),
            FeatureEncoder::HighCard(e),
            EncCol::HighCard { enc, cnt },
        ) => is_highcard_fit::<A>(
            raw@,
            train.labels@,
            train.weights@,
            cfg,
            prior,
            off,
            e,
            enc@,
            cnt@,
        ),
        _ => false,
    }
}

/// `codes` are the dense ids of the raw categories.
pub open spec fn are_codes(e: BoundedCatEnc, raw: Seq<i64>, codes: Seq<u32>) -> bool {
    &&& codes.len() == raw.len()
    &&& forall|i: int| 0 <= i < raw.len() ==> #[trigger] codes[i] == e.spec_code_of(raw[i])
}

/// The most basis slots that feature `fi` can take.
pub open spec fn slot_bound(train: Dataset, cfg: Config, fi: int) -> int {
    let n = max_int(train.labels@.len() as int, 1);
    match (train.schema.kinds[fi], train.columns[fi]) {
        (FeatureKind::BoundedCat, Column::Categorical(raw)) => distinct(raw@).len() as int + 2,
        (FeatureKind::HighCardCat, _) => {
            let k = min_int(max_int(cfg.hc_knots as int, 2), n) + 1;
            if cfg.hc_use_count {
                2 * k
            } else {
                k
            }
        },
        _ => min_int(max_int(cfg.knots as int, 2), n) + 1,
    }
}

/// The most basis slots that the first `m` features can take.
pub open spec fn slots_bound(train: Dataset, cfg: Config, m: int) -> int
    decreases m,
{
    if m <= 0 {
        0
    } else {
        slots_bound(train, cfg, m - 1) + slot_bound(train, cfg, m - 1)
    }
}

proof fn lemma_slots_bound_grows(train: Dataset, cfg: Config, a: int, b: int)
    requires
        0 <= a <= b,
    ensures
        slots_bound(train, cfg, a) <= slots_bound(train, cfg, b),
        0 <= slots_bound(train, cfg, a),
    decreases b,
{
    if a < b {
        lemma_slots_bound_grows(train, cfg, a, b - 1);
    } else if b > 0 {
        lemma_slots_bound_grows(train, cfg, b - 1, b - 1);
    }
}

/// A training set that [`Encoders::fit`] takes: columns of the kinds that the schema says,
/// and row numbers and basis slots that fit in 32 bits.
pub open spec fn fit_accepts(train: Dataset, cfg: Config) -> bool {
    &&& train.wf()
    &&& train.kinds_match()
    &&& train.labels.len() <= u32::MAX
    &&& slots_bound(train, cfg, train.columns@.len() as int) <= u32::MAX
}

/// `r` is the fit of the encoders on `train`, with the training matrix.
pub open spec fn is_fit<A: Arith>(
    train: Dataset,
    cfg: Config,
    prior: F32,
    encoders: Encoders,
    matrix: EncodedMatrix,
) -> bool {
    &&& is_weighted_rate::<A>(train.labels@, train.weights@, prior)
    &&& encoders.features.len() == train.columns.len()
    &&& matrix.cols.len() == train.columns.len()
    &&& matrix.n_rows == train.labels.len()
    &&& forall|fi: int|
        0 <= fi < train.columns.len() ==> is_fitted::<A>(
            train,
            cfg,
            prior,
            fi,
            layout_start(encoders.features@, fi),
            #[trigger] encoders.features[fi],
            matrix.cols[fi],
        )
    &&& encoders.basis_dim == layout_start(
        encoders.features@,
        encoders.features@.len() as int,
    )
}

/// The rows outside fold `f`, as a vector.
fn rows_outside(n: usize, nf: usize, f: usize) -> (rows: Vec<usize>)
    requires
        nf > 0,
    ensures
        row_ints(rows@) == out_of_fold(n as int, nf as int, f as int),
        rows.len() <= n,
        forall|i: int| 0 <= i < rows.len() ==> #[trigger] rows[i] < n,
{
    let ghost pred = outside_fold(nf as int, f as int);
    let ghost every = all_rows(n as int);
    let mut rows: Vec<usize> = Vec::new();
    let mut i: usize = 0;
    while i < n
        invariant
            i <= n,
            nf > 0,
            pred == outside_fold(nf as int, f as int),
            every == all_rows(n as int),
            row_ints(rows@) == every.take(i as int).filter(pred),
            rows.len() <= i,
            forall|k: int| 0 <= k < rows.len() ==> #[trigger] rows[k] < n,
        decreases n - i,
    {
        proof {
            lemma_filter_step(every, i as int, pred);
            assert(every[i as int] == i);
        }
        if i % nf != f {
            let ghost prev = rows@;
            rows.push(i);
            assert(row_ints(rows@) =~= row_ints(prev).push(i as int));
        }
        i = i + 1;
    }
    proof {
        assert(every.take(n as int) =~= every);
    }
    rows
}

/// Row numbers `0..n`, as a vector.
fn rows_upto(n: usize) -> (rows: Vec<usize>)
    ensures
        row_ints(rows@) == all_rows(n as int),
        rows.len() == n,
        forall|i: int| 0 <= i < rows.len() ==> #[trigger] rows[i] < n,
{
    let mut rows: Vec<usize> = Vec::with_capacity(n);
    let mut i: usize = 0;
    while i < n
        invariant
            i <= n,
            rows.len() == i,
            forall|k: int| 0 <= k < i ==> #[trigger] rows[k] == k,
        decreases n - i,
    {
        rows.push(i);
        i = i + 1;
    }
    assert(row_ints(rows@) =~= all_rows(n as int));
    rows
}

/// The out-of-fold encoding of every row.
fn out_of_fold_columns<A: Arith>(
    raw: &Vec<i64>,
    labels: &Vec<u8>,
    weights: &Vec<F32>,
    nf: usize,
    alpha: F32,
) -> (r: (Vec<F32>, Vec<F32>))
    requires
        raw.len() <= u32::MAX,
        raw.len() == labels.len(),
        raw.len() == weights.len(),
        nf > 0,
    ensures
        r.0.len() == raw.len(),
        r.1.len() == raw.len(),
        forall|i: int|
            0 <= i < raw.len() ==> #[trigger] is_out_of_fold_enc::<A>(
                raw@,
                labels@,
                weights@,
                nf as int,
                alpha,
                i,
                r.0[i],
                r.1[i],
            ),
{
    let n: usize = raw.len();
    let mut enc: Vec<F32> = Vec::with_capacity(n);
    let mut cnt: Vec<F32> = Vec::with_capacity(n);
    let mut z: usize = 0;
    while z < n
        invariant
            z <= n,
            enc.len() == z,
            cnt.len() == z,
        decreases n - z,
    {
        enc.push(F32::zero());
        cnt.push(F32::zero());
        z = z + 1;
    }
    let mut f: usize = 0;
    while f < nf && f < n
        invariant
            n == raw.len(),
            n <= u32::MAX,
            n == labels.len(),
            n == weights.len(),
            nf > 0,
            f <= nf,
            f <= n,
            enc.len() == n,
            cnt.len() == n,
            forall|i: int|
                0 <= i < n && i % (nf as int) < f ==> #[trigger] is_out_of_fold_enc::<A>(
                    raw@,
                    labels@,
                    weights@,
                    nf as int,
                    alpha,
                    i,
                    enc[i],
                    cnt[i],
                ),
        decreases n - f,
    {
        let rows = rows_outside(n, nf, f);
        let ghost ints = out_of_fold(n as int, nf as int, f as int);
        // What the fold's own rows are shrunk toward must not know their labels either.
        let prior = fold_rate::<A>(labels, weights, &rows);
        let (m, c) = target_enc_map::<A>(raw, labels, weights, &rows, alpha, prior);
        let mut i: usize = 0;
        while i < n
            invariant
                i <= n,
                n == raw.len(),
                n <= u32::MAX,
                n == labels.len(),
                n == weights.len(),
                nf > 0,
                f < nf,
                f < n,
                enc.len() == n,
                cnt.len() == n,
                ints == out_of_fold(n as int, nf as int, f as int),
                is_fold_rate::<A>(labels@, weights@, ints, prior),
                are_target_maps::<A>(raw@, labels@, weights@, ints, alpha, prior, m@, c@),
                forall|k: int|
                    0 <= k < n && (k % (nf as int) < f || (k % (nf as int) == f && k < i))
                        ==> #[trigger] is_out_of_fold_enc::<A>(
                        raw@,
                        labels@,
                        weights@,
                        nf as int,
                        alpha,
                        k,
                        enc[k],
                        cnt[k],
                    ),
            decreases n - i,
        {
            if i % nf == f {
                let code: i64 = raw[i];
                let ghost enc0 = enc@;
                let ghost cnt0 = cnt@;
                let (e, l) = if code == MISSING_CAT {
                    (prior, F32::zero())
                } else {
                    let e = match m.get(&code) {
                        Some(e) => *e,
                        None => prior,
                    };
                    let k: u32 = match c.get(&code) {
                        Some(k) => *k,
                        None => 0,
                    };
                    let l = A::ln_1p32(k);
                    proof {
                        assert(m@.contains_key(code) <==> is_seen(raw@, ints, code));
                        assert(c@.contains_key(code) <==> is_seen(raw@, ints, code));
                        assert(k == rows_with(raw@, ints, code).len());
                        assert(is_ln_1p32::<A>(k, l));
                    }
                    (e, l)
                };
                enc[i] = e;
                cnt[i] = l;
                proof {
                    assert(is_encoded_from::<A>(
                        raw@,
                        labels@,
                        weights@,
                        ints,
                        alpha,
                        prior,
                        i as int,
                        e,
                        l,
                    ));
                    assert(is_out_of_fold_enc::<A>(
                        raw@,
                        labels@,
                        weights@,
                        nf as int,
                        alpha,
                        i as int,
                        enc@[i as int],
                        cnt@[i as int],
                    ));
                    assert forall|k: int|
                        0 <= k < n && (k % (nf as int) < f || (k % (nf as int) == f && k < i
                            + 1)) implies #[trigger] is_out_of_fold_enc::<A>(
                        raw@,
                        labels@,
                        weights@,
                        nf as int,
                        alpha,
                        k,
                        enc[k],
                        cnt[k],
                    ) by {
                        if k != i {
                            assert(is_out_of_fold_enc::<A>(
                                raw@,
                                labels@,
                                weights@,
                                nf as int,
                                alpha,
                                k,
                                enc0[k],
                                cnt0[k],
                            ));
                        }
                    }
                }
            }
            i = i + 1;
        }
        f = f + 1;
    }
    proof {
        assert forall|i: int| 0 <= i < n implies #[trigger] is_out_of_fold_enc::<A>(
            raw@,
            labels@,
            weights@,
            nf as int,
            alpha,
            i,
            enc[i],
            cnt[i],
        ) by {
            assert(0 <= i % (nf as int) < nf && i % (nf as int) <= i) by (nonlinear_arith)
                requires
                    i >= 0,
                    nf > 0,
            ;
        }
    }
    (enc, cnt)
}

/// The dense ids of the raw categories.
fn encode_codes(e: &BoundedCatEnc, raw: &Vec<i64>) -> (codes: Vec<u32>)
    requires
        e.n_vocab + 1 <= u32::MAX,
    ensures
        are_codes(*e, raw@, codes@),
{
    let mut codes: Vec<u32> = Vec::with_capacity(raw.len());
    let mut i: usize = 0;
    while i < raw.len()
        invariant
            i <= raw.len(),
            e.n_vocab + 1 <= u32::MAX,
            codes.len() == i,
            forall|k: int| 0 <= k < i ==> #[trigger] codes[k] == e.spec_code_of(raw[k]),
        decreases raw.len() - i,
    {
        codes.push(e.code_of(raw[i]));
        i = i + 1;
    }
    codes
}

fn fit_highcard<A: Arith>(
    raw: &Vec<i64>,
    labels: &Vec<u8>,
    weights: &Vec<F32>,
    cfg: &Config,
    prior: F32,
    off: u32,
) -> (r: (HighCardEnc, Vec<F32>, Vec<F32>))
    requires
        raw.len() <= u32::MAX,
        raw.len() == labels.len(),
        raw.len() == weights.len(),
        off + min_int(
            max_int(cfg.hc_knots as int, 2),
            max_int(raw@.len() as int, 1),
        ) + 1 <= u32::MAX,
    ensures
        is_highcard_fit::<A>(
            raw@,
            labels@,
            weights@,
            *cfg,
            prior,
            off as int,
            r.0,
            r.1@,
            r.2@,
        ),
{
    let n: usize = raw.len();
    let every = rows_upto(n);
    // Full-data maps for inference.
    let (enc_full, count_full) = target_enc_map::<A>(
        raw,
        labels,
        weights,
        &every,
        cfg.alpha,
        prior,
    );
    // Out-of-fold encoding for the training matrix (leakage-safe).
    let nf: usize = if cfg.n_folds > 2 {
        cfg.n_folds
    } else {
        2
    };
    let (oof_enc, oof_cnt) = out_of_fold_columns::<A>(raw, labels, weights, nf, cfg.alpha);
    // Knots from the full-data per-row distributions.
    let mut enc_vals: Vec<F32> = Vec::with_capacity(n);
    let mut cnt_vals: Vec<F32> = Vec::with_capacity(n);
    let mut i: usize = 0;
    while i < n
        invariant
            i <= n,
            n == raw.len(),
            enc_vals.len() == i,
            cnt_vals.len() == i,
            forall|k: int|
                0 <= k < i ==> #[trigger] enc_vals[k] == (if enc_full@.contains_key(raw[k]) {
                    enc_full@[raw[k]]
                } else {
                    prior
                }),
            forall|k: int|
                0 <= k < i ==> is_ln_1p32::<A>(
                    count_or_zero(count_full@, raw[k]),
                    #[trigger] cnt_vals[k],
                ),
        decreases n - i,
    {
        let c: i64 = raw[i];
        let e = match enc_full.get(&c) {
            Some(e) => *e,
            None => prior,
        };
        let k: u32 = match count_full.get(&c) {
            Some(k) => *k,
            None => 0,
        };
        enc_vals.push(e);
        let l = A::ln_1p32(k);
        assert(is_ln_1p32::<A>(k, l));
        cnt_vals.push(l);
        i = i + 1;
    }
    let enc_knots = quantile_knots::<A>(&enc_vals, cfg.hc_knots);
    let cnt_knots = quantile_knots::<A>(&cnt_vals, cfg.hc_knots);
    let enc_off: u32 = off;
    let cnt_off: u32 = off + (enc_knots.len() as u32 + 1);
    let henc = HighCardEnc {
        enc: enc_full,
        count: count_full,
        prior,
        enc_knots,
        enc_off,
        cnt_knots,
        cnt_off,
        use_count: cfg.hc_use_count,
    };
    proof {
        assert(!enc_full@.contains_key(MISSING_CAT));
        assert(enc_vals@ =~= raw@.map_values(|c: i64| henc.spec_enc_of(c)));
        assert(are_row_counts::<A>(raw@, henc.count@, cnt_vals@));
    }
    (henc, oof_enc, oof_cnt)
}

fn fit_feature<A: Arith>(train: &Dataset, cfg: &Config, prior: F32, fi: usize, off: u32) -> (r: (
    FeatureEncoder,
    EncCol,
))
    requires
        train.wf(),
        train.kinds_match(),
        train.labels.len() <= u32::MAX,
        fi < train.columns.len(),
        off + slot_bound(*train, *cfg, fi as int) <= u32::MAX,
    ensures
        is_fitted::<A>(*train, *cfg, prior, fi as int, off as int, r.0, r.1),
{
    proof {
        assert(train.columns[fi as int].rows() == train.labels.len());
    }
    match (train.schema.kinds[fi], &train.columns[fi]) {
        (FeatureKind::BoundedCat, Column::Categorical(raw)) => {
            let (vocab, n_vocab) = build_vocab(raw);
            let enc = BoundedCatEnc { n_vocab, vocab, basis_off: off };
            let codes = encode_codes(&enc, raw);
            (FeatureEncoder::BoundedCat(enc), EncCol::Cat(codes))
        },
        (FeatureKind::HighCardCat, Column::Categorical(raw)) => {
            let (e, enc, cnt) = fit_highcard::<A>(
                raw,
                &train.labels,
                &train.weights,
                cfg,
                prior,
                off,
            );
            (FeatureEncoder::HighCard(e), EncCol::HighCard { enc, cnt })
        },
        (_, Column::Numeric(raw)) => {
            let knots = quantile_knots::<A>(raw, cfg.knots);
            let v = copy_range(raw, 0, raw.len());
            assert(v@ =~= raw@);
            (FeatureEncoder::Numeric(NumericEnc { knots, basis_off: off }), EncCol::Num(v))
        },
        (_, Column::Categorical(raw)) => {
            proof {
                assert(train.columns[fi as int] is Numeric);
            }
            (
                FeatureEncoder::Numeric(NumericEnc { knots: Vec::new(), basis_off: off }),
                EncCol::Num(Vec::new()),
            )
        },
    }
}

/// A fitted feature is valid, and its column fits it.
proof fn lemma_fitted_feature<A: Arith>(
    train: Dataset,
    cfg: Config,
    prior: F32,
    fi: int,
    off: int,
    fe: FeatureEncoder,
    col: EncCol,
)
    requires
        train.wf(),
        train.labels.len() <= u32::MAX,
        0 <= fi < train.columns.len(),
        0 <= off,
        off + slot_bound(train, cfg, fi) <= u32::MAX,
        is_fitted::<A>(train, cfg, prior, fi, off, fe, col),
    ensures
        fe.wf_at(off),
        fe.slots() <= slot_bound(train, cfg, fi),
        col.fits(fe, train.labels@.len() as int),
{
    assert(train.columns[fi].rows() == train.labels.len());
    match (train.columns[fi], fe, col) {
        (Column::Numeric(raw), FeatureEncoder::Numeric(e), EncCol::Num(v)) => {
            lemma_quantile_knots_props::<A>(raw@, cfg.knots as int, e.knots@);
        },
        (Column::Categorical(raw), FeatureEncoder::BoundedCat(e), EncCol::Cat(codes)) => {
            let d = distinct(raw@);
            assert forall|c: i64| #[trigger] e.vocab@.contains_key(c) implies e.vocab@[c]
                < e.n_vocab by {
                let p = choose|p: int| 0 <= p < d.len() && d[p] == c;
                assert(e.vocab@[d[p]] == p);
            }
            assert forall|r: int| 0 <= r < codes.len() implies #[trigger] codes[r] < e.n_vocab
                + 2 by {
                assert(codes[r] == e.spec_code_of(raw[r]));
            }
        },
        (
            Column::Categorical(raw),
            FeatureEncoder::HighCard(e),
            EncCol::HighCard { enc, cnt },
        ) => {
            let vals = raw@.map_values(|c: i64| e.spec_enc_of(c));
            lemma_quantile_knots_props::<A>(vals, cfg.hc_knots as int, e.enc_knots@);
            let cnts = choose|cnts: Seq<F32>| #[trigger]
                are_row_counts::<A>(raw@, e.count@, cnts) && are_quantile_knots::<A>(
                    cnts,
                    cfg.hc_knots as int,
                    e.cnt_knots@,
                );
            lemma_quantile_knots_props::<A>(cnts, cfg.hc_knots as int, e.cnt_knots@);
        },
        _ => {},
    }
}

proof fn lemma_layout_push(features: Seq<FeatureEncoder>, fe: FeatureEncoder, i: int)
    requires
        0 <= i <= features.len(),
    ensures
        layout_start(features.push(fe), i) == layout_start(features, i),
    decreases i,
{
    if i > 0 {
        lemma_layout_push(features, fe, i - 1);
    }
}

/// Fitted encoders are valid, and the training matrix fits them.
pub proof fn lemma_fit_is_wf<A: Arith>(
    train: Dataset,
    cfg: Config,
    prior: F32,
    encoders: Encoders,
    matrix: EncodedMatrix,
)
    requires
        fit_accepts(train, cfg),
        is_fit::<A>(train, cfg, prior, encoders, matrix),
    ensures
        encoders.wf(),
        matrix.fits(encoders),
        encoders.basis_dim <= slots_bound(train, cfg, train.columns@.len() as int),
{
    lemma_fit_layout::<A>(train, cfg, prior, encoders, matrix, train.columns@.len() as int);
    assert forall|i: int| 0 <= i < encoders.features.len() implies (#[trigger] encoders.features[i]).wf_at(
        layout_start(encoders.features@, i)) && matrix.cols[i].fits(
        encoders.features[i],
        matrix.n_rows as int,
    ) by {
        lemma_fit_layout::<A>(train, cfg, prior, encoders, matrix, i + 1);
    }
}

proof fn lemma_fit_layout<A: Arith>(
    train: Dataset,
    cfg: Config,
    prior: F32,
    encoders: Encoders,
    matrix: EncodedMatrix,
    m: int,
)
    requires
        fit_accepts(train, cfg),
        is_fit::<A>(train, cfg, prior, encoders, matrix),
        0 <= m <= train.columns.len(),
    ensures
        0 <= layout_start(encoders.features@, m) <= slots_bound(train, cfg, m),
        m > 0 ==> encoders.features[m - 1].wf_at(layout_start(encoders.features@, m - 1))
            && matrix.cols[m - 1].fits(encoders.features[m - 1], matrix.n_rows as int),
    decreases m,
{
    if m > 0 {
        lemma_fit_layout::<A>(train, cfg, prior, encoders, matrix, m - 1);
        lemma_slots_bound_grows(train, cfg, m, train.columns@.len() as int);
        let fe = encoders.features[m - 1];
        lemma_fitted_feature::<A>(
            train,
            cfg,
            prior,
            m - 1,
            layout_start(encoders.features@, m - 1),
            fe,
            matrix.cols[m - 1],
        );
    }
}

/// `col` is the encoding of a raw column with the full-data maps.
pub open spec fn is_transformed<A: Arith>(fe: FeatureEncoder, column: Column, col: EncCol) -> bool {
    match (fe, column, col) {
        (FeatureEncoder::Numeric(_), Column::Numeric(raw), EncCol::Num(v)) => v@ == raw@,
        (FeatureEncoder::BoundedCat(e), Column::Categorical(raw), EncCol::Cat(codes)) => are_codes(
            e,
            raw@,
            codes@,
        ),
        (
            FeatureEncoder::HighCard(e),
            Column::Categorical(raw),
            EncCol::HighCard { enc, cnt },
        ) => {
            &&& enc@ == raw@.map_values(|c: i64| e.spec_enc_of(c))
            &&& cnt.len() == raw.len()
            &&& forall|i: int|
                0 <= i < raw.len() ==> e.is_count_of::<A>(raw[i], #[trigger] cnt[i])
        },
        _ => false,
    }
}

/// The column is of the kind that the encoder takes.
pub open spec fn column_suits(fe: FeatureEncoder, column: Column) -> bool {
    match fe {
        FeatureEncoder::Numeric(_) => column is Numeric,
        FeatureEncoder::BoundedCat(e) => column is Categorical && e.n_vocab + 1 <= u32::MAX,
        FeatureEncoder::HighCard(_) => column is Categorical,
    }
}

/// Every feature has a column of its kind.
pub open spec fn dataset_suits(encoders: Encoders, ds: Dataset) -> bool {
    &&& encoders.features.len() <= ds.columns.len()
    &&& forall|i: int|
        0 <= i < encoders.features.len() ==> column_suits(
            #[trigger] encoders.features[i],
            ds.columns[i],
        )
}

/// `m` is the dataset encoded with the full-data maps.
pub open spec fn is_transform<A: Arith>(encoders: Encoders, ds: Dataset, m: EncodedMatrix) -> bool {
    &&& m.n_rows == ds.labels.len()
    &&& m.cols.len() == encoders.features.len()
    &&& forall|i: int|
        0 <= i < m.cols.len() ==> is_transformed::<A>(
            encoders.features[i],
            ds.columns[i],
            #[trigger] m.cols[i],
        )
}

fn transform_column<A: Arith>(fe: &FeatureEncoder, column: &Column) -> (col: EncCol)
    requires
        column_suits(*fe, *column),
    ensures
        is_transformed::<A>(*fe, *column, col),
{
    match (fe, column) {
        (FeatureEncoder::BoundedCat(e), Column::Categorical(raw)) => EncCol::Cat(
            encode_codes(e, raw),
        ),
        (FeatureEncoder::HighCard(e), Column::Categorical(raw)) => {
            let mut enc: Vec<F32> = Vec::with_capacity(raw.len());
            let mut cnt: Vec<F32> = Vec::with_capacity(raw.len());
            let mut i: usize = 0;
            while i < raw.len()
                invariant
                    i <= raw.len(),
                    enc.len() == i,
                    cnt.len() == i,
                    forall|k: int| 0 <= k < i ==> #[trigger] enc[k] == e.spec_enc_of(raw[k]),
                    forall|k: int| 0 <= k < i ==> e.is_count_of::<A>(raw[k], #[trigger] cnt[k]),
                decreases raw.len() - i,
            {
                enc.push(e.enc_of(raw[i]));
                cnt.push(e.count_of::<A>(raw[i]));
                i = i + 1;
            }
            assert(enc@ =~= raw@.map_values(|c: i64| e.spec_enc_of(c)));
            EncCol::HighCard { enc, cnt }
        },
        (_, Column::Numeric(raw)) => {
            let v = copy_range(raw, 0, raw.len());
            assert(v@ =~= raw@);
            EncCol::Num(v)
        },
        (FeatureEncoder::Numeric(_), Column::Categorical(_)) => EncCol::Num(Vec::new()),
    }
}

impl Encoders {
    /// Fit all encoders on the training data and produce the **training**
    /// encoded matrix (high-card columns use out-of-fold encoding).
    pub fn fit<A: Arith>(train: &Dataset, cfg: &Config) -> (r: (Encoders, EncodedMatrix))
        requires
            fit_accepts(*train, *cfg),
        ensures
            exists|prior: F32| #[trigger] is_fit::<A>(*train, *cfg, prior, r.0, r.1),
            r.0.wf(),
            r.1.fits(r.0),
            r.0.basis_dim <= slots_bound(*train, *cfg, train.columns@.len() as int),
    {
        let n: usize = train.n_rows();
        let prior = weighted_rate::<A>(&train.labels, &train.weights);
        let mut features: Vec<FeatureEncoder> = Vec::with_capacity(train.columns.len());
        let mut cols: Vec<EncCol> = Vec::with_capacity(train.columns.len());
        let mut off: u32 = 0;
        let mut fi: usize = 0;
        while fi < train.columns.len()
            invariant
                fit_accepts(*train, *cfg),
                fi <= train.columns.len(),
                features.len() == fi,
                cols.len() == fi,
                off == layout_start(features@, fi as int),
                off <= slots_bound(*train, *cfg, fi as int),
                forall|k: int|
                    0 <= k < fi ==> is_fitted::<A>(
                        *train,
                        *cfg,
                        prior,
                        k,
                        layout_start(features@, k),
                        #[trigger] features[k],
                        cols[k],
                    ),
            decreases train.columns.len() - fi,
        {
            proof {
                lemma_slots_bound_grows(*train, *cfg, fi + 1, train.columns@.len() as int);
            }
            let (fe, col) = fit_feature::<A>(train, cfg, prior, fi, off);
            proof {
                lemma_fitted_feature::<A>(
                    *train,
                    *cfg,
                    prior,
                    fi as int,
                    off as int,
                    fe,
                    col,
                );
                assert forall|k: int| 0 <= k <= fi implies #[trigger] layout_start(
                    features@.push(fe),
                    k,
                ) == layout_start(features@, k) by {
                    lemma_layout_push(features@, fe, k);
                }
            }
            let ghost prev = features@;
            off = off + fe.basis_len();
            features.push(fe);
            cols.push(col);
            proof {
                assert forall|k: int| 0 <= k < fi + 1 implies is_fitted::<A>(
                    *train,
                    *cfg,
                    prior,
                    k,
                    layout_start(features@, k),
                    #[trigger] features[k],
                    cols[k],
                ) by {
                    assert(layout_start(features@, k) == layout_start(prev, k));
                    if k < fi {
                        assert(features[k] == prev[k]);
                    }
                }
            }
            fi = fi + 1;
        }
        let encoders = Encoders { features, basis_dim: off };
        let matrix = EncodedMatrix { cols, n_rows: n };
        proof {
            assert(is_fit::<A>(*train, *cfg, prior, encoders, matrix));
            lemma_fit_is_wf::<A>(*train, *cfg, prior, encoders, matrix);
        }
        let r = (encoders, matrix);
        assert(is_fit::<A>(*train, *cfg, prior, r.0, r.1));
        r
    }

    /// Encode an arbitrary dataset for inference/eval using the full-data maps.
    pub fn transform<A: Arith>(&self, ds: &Dataset) -> (m: EncodedMatrix)
        requires
            dataset_suits(*self, *ds),
        ensures
            is_transform::<A>(*self, *ds, m),
    {
        let n: usize = ds.n_rows();
        let mut cols: Vec<EncCol> = Vec::with_capacity(self.features.len());
        let mut fi: usize = 0;
        while fi < self.features.len()
            invariant
                dataset_suits(*self, *ds),
                fi <= self.features.len(),
                cols.len() == fi,
                forall|i: int|
                    0 <= i < fi ==> is_transformed::<A>(
                        self.features[i],
                        ds.columns[i],
                        #[trigger] cols[i],
                    ),
            decreases self.features.len() - fi,
        {
            proof {
                assert(column_suits(self.features[fi as int], ds.columns[fi as int]));
            }
            cols.push(transform_column::<A>(&self.features[fi], &ds.columns[fi]));
            fi = fi + 1;
        }
        EncodedMatrix { cols, n_rows: n }
    }
}

/// Every index of a numeric block lies in the block, which ends with the missing slot.
pub(crate) proof fn lemma_numeric_entries_in_block<A: Arith>(
    knots: Seq<F32>,
    off: int,
    v: F32,
    e: Seq<(u32, F32)>,
)
    requires
        is_numeric_basis::<A>(knots, off, v, e),
        0 <= off,
        off + knots.len() <= u32::MAX,
        knots.len() > 0,
    ensures
        1 <= e.len() <= 2,
        forall|k: int| 0 <= k < e.len() ==> off <= (#[trigger] e[k]).0 <= off + knots.len(),
        v.spec_is_nan() <==> exists|k: int| 0 <= k < e.len() && (#[trigger] e[k]).0 == off + knots.len(),
{
    if v.spec_is_nan() {
        assert(e[0].0 == off + knots.len());
    }
}

/// Every feature of a row has at least one basis entry and at most four, all of them in the
/// feature's own slots. The slots of two features never overlap.
pub proof fn lemma_entries_in_own_slots<A: Arith>(
    encoders: Encoders,
    matrix: EncodedMatrix,
    row: int,
    parts: Seq<Seq<(u32, F32)>>,
    i: int,
)
    requires
        encoders.wf(),
        matrix.fits(encoders),
        0 <= row < matrix.n_rows,
        are_row_parts::<A>(encoders.features@, matrix.cols@, row, parts),
        0 <= i < encoders.features.len(),
    ensures
        1 <= parts[i].len() <= 4,
        forall|k: int|
            0 <= k < parts[i].len() ==> layout_start(encoders.features@, i) <= (
            #[trigger] parts[i][k]).0 < layout_start(encoders.features@, i + 1),
        layout_start(encoders.features@, i + 1) <= encoders.basis_dim,
        forall|j: int|
            i < j < encoders.features.len() ==> layout_start(encoders.features@, i + 1)
                <= #[trigger] layout_start(encoders.features@, j),
{
    let fe = encoders.features[i];
    let off = layout_start(encoders.features@, i);
    let e = parts[i];
    assert(fe.wf_at(off));
    assert(matrix.cols[i].fits(fe, matrix.n_rows as int));
    lemma_layout_rises(encoders, 0, i);
    assert(is_feature_basis::<A>(fe, matrix.cols[i], row, e));
    match (fe, matrix.cols[i]) {
        (FeatureEncoder::Numeric(f), EncCol::Num(v)) => {
            lemma_numeric_entries_in_block::<A>(f.knots@, off, v[row], e);
        },
        (FeatureEncoder::BoundedCat(f), EncCol::Cat(codes)) => {
            assert(codes[row] < f.n_vocab + 2);
        },
        (FeatureEncoder::HighCard(f), EncCol::HighCard { enc, cnt }) => {
            if f.use_count {
                let (a, b) = choose|a: Seq<(u32, F32)>, b: Seq<(u32, F32)>| #[trigger]
                    is_numeric_basis::<A>(f.enc_knots@, f.enc_off as int, enc[row], a)
                        && #[trigger] is_numeric_basis::<A>(
                        f.cnt_knots@,
                        f.cnt_off as int,
                        cnt[row],
                        b,
                    ) && e == a + b;
                lemma_numeric_entries_in_block::<A>(f.enc_knots@, off, enc[row], a);
                lemma_numeric_entries_in_block::<A>(
                    f.cnt_knots@,
                    f.cnt_off as int,
                    cnt[row],
                    b,
                );
                assert forall|k: int| 0 <= k < e.len() implies off <= (#[trigger] e[k]).0 < off
                    + fe.slots() by {
                    if k < a.len() {
                        assert(e[k] == a[k]);
                    } else {
                        assert(e[k] == b[k - a.len()]);
                    }
                }
            } else {
                lemma_numeric_entries_in_block::<A>(f.enc_knots@, off, enc[row], e);
            }
        },
        _ => {},
    }
    lemma_layout_rises(encoders, i + 1, encoders.features@.len() as int);
    assert forall|j: int| i < j < encoders.features.len() implies layout_start(
        encoders.features@,
        i + 1,
    ) <= #[trigger] layout_start(encoders.features@, j) by {
        lemma_layout_rises(encoders, i + 1, j);
    }
}

pub(crate) proof fn lemma_layout_rises(encoders: Encoders, i: int, j: int)
    requires
        encoders.wf(),
        0 <= i <= j <= encoders.features.len(),
    ensures
        0 <= layout_start(encoders.features@, i) <= layout_start(encoders.features@, j),
    decreases j,
{
    if i < j {
        lemma_layout_rises(encoders, i, j - 1);
        assert(encoders.features[j - 1].slots() >= 0);
    } else if i > 0 {
        lemma_layout_rises(encoders, i - 1, i - 1);
        assert(encoders.features[i - 1].slots() >= 0);
    }
}

/// Every index of a row's sparse basis is below the basis dimension.
pub proof fn lemma_row_basis_in_range<A: Arith>(
    encoders: Encoders,
    matrix: EncodedMatrix,
    row: int,
    phi: Seq<(u32, F32)>,
)
    requires
        encoders.wf(),
        matrix.fits(encoders),
        0 <= row < matrix.n_rows,
        is_row_basis::<A>(encoders, matrix, row, phi),
    ensures
        forall|k: int| 0 <= k < phi.len() ==> (#[trigger] phi[k]).0 < encoders.basis_dim,
        encoders.features.len() <= phi.len() <= 4 * encoders.features.len(),
{
    let parts = choose|parts: Seq<Seq<(u32, F32)>>| #[trigger]
        are_row_parts::<A>(encoders.features@, matrix.cols@, row, parts) && phi == parts.flatten();
    assert forall|i: int| 0 <= i < parts.len() implies 1 <= (#[trigger] parts[i]).len() <= 4
        && entries_below(parts[i], encoders.basis_dim as int) by {
        lemma_entries_in_own_slots::<A>(encoders, matrix, row, parts, i);
    }
    lemma_flatten_below(parts, encoders.basis_dim as int);
}

/// The slots that a row can have bound those that it has.
pub proof fn lemma_row_basis_below<A: Arith>(
    encoders: Encoders,
    matrix: EncodedMatrix,
    row: int,
    m: int,
    phi: Seq<(u32, F32)>,
)
    requires
        row_expands(encoders, matrix, row),
        row_slots_below(encoders, matrix, row, m),
        is_row_basis::<A>(encoders, matrix, row, phi),
    ensures
        forall|k: int| 0 <= k < phi.len() ==> (#[trigger] phi[k]).0 < m,
{
    let parts = choose|parts: Seq<Seq<(u32, F32)>>| #[trigger]
        are_row_parts::<A>(encoders.features@, matrix.cols@, row, parts) && phi == parts.flatten();
    assert forall|i: int| 0 <= i < parts.len() implies 1 <= (#[trigger] parts[i]).len() <= 4
        && entries_below(parts[i], m) by {
        let (fe, col, e) = (encoders.features[i], matrix.cols[i], parts[i]);
        assert(feature_expands(fe, col, row));
        assert(feature_slots_below(fe, col, row, m));
        assert(is_feature_basis::<A>(fe, col, row, e));
        match (fe, col) {
            (FeatureEncoder::Numeric(f), EncCol::Num(v)) => {
                lemma_block_entries_below::<A>(f.knots@, f.basis_off as int, v[row], m, e);
            },
            (FeatureEncoder::HighCard(f), EncCol::HighCard { enc, cnt }) => {
                if f.use_count {
                    let (a, b) = choose|a: Seq<(u32, F32)>, b: Seq<(u32, F32)>| #[trigger]
                        is_numeric_basis::<A>(f.enc_knots@, f.enc_off as int, enc[row], a)
                            && #[trigger] is_numeric_basis::<A>(
                            f.cnt_knots@,
                            f.cnt_off as int,
                            cnt[row],
                            b,
                        ) && e == a + b;
                    lemma_block_entries_below::<A>(
                        f.enc_knots@,
                        f.enc_off as int,
                        enc[row],
                        m,
                        a,
                    );
                    lemma_block_entries_below::<A>(
                        f.cnt_knots@,
                        f.cnt_off as int,
                        cnt[row],
                        m,
                        b,
                    );
                } else {
                    lemma_block_entries_below::<A>(
                        f.enc_knots@,
                        f.enc_off as int,
                        enc[row],
                        m,
                        e,
                    );
                }
            },
            _ => {},
        }
    }
    lemma_flatten_below(parts, m);
}

proof fn lemma_block_entries_below<A: Arith>(
    knots: Seq<F32>,
    off: int,
    v: F32,
    m: int,
    e: Seq<(u32, F32)>,
)
    requires
        0 <= off,
        block_expands(knots, off, v),
        last_slot(knots, off, v) < m,
        is_numeric_basis::<A>(knots, off, v, e),
    ensures
        1 <= e.len() <= 2,
        entries_below(e, m),
{
}

/// Valid encoders keep the slots of a matrix that fits them below the basis dimension.
pub proof fn lemma_fitting_slots_below(encoders: Encoders, matrix: EncodedMatrix, row: int)
    requires
        encoders.wf(),
        matrix.fits(encoders),
        0 <= row < matrix.n_rows,
    ensures
        row_slots_below(encoders, matrix, row, encoders.basis_dim as int),
{
    assert forall|i: int|
        0 <= i < encoders.features.len() && i < matrix.cols.len() implies feature_slots_below(
        #[trigger] encoders.features[i],
        matrix.cols[i],
        row,
        encoders.basis_dim as int,
    ) by {
        assert(encoders.features[i].wf_at(layout_start(encoders.features@, i)));
        assert(matrix.cols[i].fits(encoders.features[i], matrix.n_rows as int));
        lemma_layout_rises(encoders, i + 1, encoders.features@.len() as int);
        match (encoders.features[i], matrix.cols[i]) {
            (FeatureEncoder::BoundedCat(f), EncCol::Cat(codes)) => {
                assert(codes[row] < f.n_vocab + 2);
            },
            _ => {},
        }
    }
}

spec fn entries_below(e: Seq<(u32, F32)>, bound: int) -> bool {
    forall|k: int| 0 <= k < e.len() ==> (#[trigger] e[k]).0 < bound
}

proof fn lemma_flatten_below(parts: Seq<Seq<(u32, F32)>>, bound: int)
    requires
        forall|i: int|
            0 <= i < parts.len() ==> 1 <= (#[trigger] parts[i]).len() <= 4 && entries_below(
                parts[i],
                bound,
            ),
    ensures
        entries_below(parts.flatten(), bound),
        parts.len() <= parts.flatten().len() <= 4 * parts.len(),
    decreases parts.len(),
{
    if parts.len() > 0 {
        let front = parts.drop_last();
        assert forall|i: int| 0 <= i < front.len() implies 1 <= (#[trigger] front[i]).len() <= 4
            && entries_below(front[i], bound) by {
            assert(front[i] == parts[i]);
        }
        lemma_flatten_below(front, bound);
        let last = parts[parts.len() - 1];
        assert(entries_below(last, bound));
        front.lemma_flatten_push(last);
        assert(front.push(last) =~= parts);
        let all = parts.flatten();
        assert(all == front.flatten() + last);
        assert forall|k: int| 0 <= k < all.len() implies (#[trigger] all[k]).0 < bound by {
            if k < front.flatten().len() {
                assert(all[k] == front.flatten()[k]);
            } else {
                assert(all[k] == last[k - front.flatten().len()]);
            }
        }
    } else {
        assert(parts =~= Seq::<Seq<(u32, F32)>>::empty());
        parts.lemma_flatten_and_flatten_alt_are_equivalent();
    }
}

/// A matrix made by [`Encoders::transform`] fits the encoders.
pub proof fn lemma_transform_fits<A: Arith>(encoders: Encoders, ds: Dataset, m: EncodedMatrix)
    requires
        encoders.wf(),
        ds.wf(),
        encoders.features.len() <= ds.columns.len(),
        is_transform::<A>(encoders, ds, m),
    ensures
        m.fits(encoders),
{
    assert forall|i: int| 0 <= i < m.cols.len() implies (#[trigger] m.cols[i]).fits(
        encoders.features[i],
        m.n_rows as int,
    ) by {
        assert(is_transformed::<A>(encoders.features[i], ds.columns[i], m.cols[i]));
        assert(encoders.features[i].wf_at(layout_start(encoders.features@, i)));
        assert(ds.columns[i].rows() == ds.labels.len());
        match (encoders.features[i], ds.columns[i], m.cols[i]) {
            (FeatureEncoder::BoundedCat(e), Column::Categorical(raw), EncCol::Cat(codes)) => {
                assert forall|r: int| 0 <= r < codes.len() implies #[trigger] codes[r] < e.n_vocab
                    + 2 by {
                    assert(codes[r] == e.spec_code_of(raw[r]));
                }
            },
            _ => {},
        }
    }
}

/// Numeric and bounded categorical columns are encoded alike for training and for
/// inference: only the high-card columns of the training matrix differ from the transform of
/// the training set.
pub proof fn lemma_train_columns_as_transformed<A: Arith>(
    train: Dataset,
    cfg: Config,
    prior: F32,
    encoders: Encoders,
    matrix: EncodedMatrix,
    fi: int,
)
    requires
        is_fit::<A>(train, cfg, prior, encoders, matrix),
        0 <= fi < train.columns.len(),
        !(train.schema.kinds[fi] is HighCardCat),
    ensures
        is_transformed::<A>(encoders.features[fi], train.columns[fi], matrix.cols[fi]),
{
    assert(is_fitted::<A>(
        train,
        cfg,
        prior,
        fi,
        layout_start(encoders.features@, fi),
        encoders.features[fi],
        matrix.cols[fi],
    ));
}

proof fn lemma_fold_sums_agree<A: Arith>(
    rows: Seq<int>,
    l1: Seq<u8>,
    w1: Seq<F32>,
    l2: Seq<u8>,
    w2: Seq<F32>,
    wy: F64,
    ws: F64,
)
    requires
        folds(F64::zero(), rows, add_weighted_label::<A>(l1, w1), wy),
        folds(F64::zero(), rows, add_weight::<A>(w1), ws),
        forall|k: int|
            0 <= k < rows.len() ==> l1[#[trigger] rows[k]] == l2[rows[k]] && w1[rows[k]]
                == w2[rows[k]],
    ensures
        folds(F64::zero(), rows, add_weighted_label::<A>(l2, w2), wy),
        folds(F64::zero(), rows, add_weight::<A>(w2), ws),
{
    lemma_folds_agree(
        F64::zero(),
        rows,
        add_weighted_label::<A>(l1, w1),
        add_weighted_label::<A>(l2, w2),
        wy,
    );
    lemma_folds_agree(F64::zero(), rows, add_weight::<A>(w1), add_weight::<A>(w2), ws);
}

/// Labels and weights agree on every row outside fold `f`.
pub open spec fn agree_outside_fold(
    n: int,
    nf: int,
    f: int,
    l1: Seq<u8>,
    w1: Seq<F32>,
    l2: Seq<u8>,
    w2: Seq<F32>,
) -> bool {
    forall|r: int|
        0 <= r < n && r % nf != f ==> #[trigger] l1[r] == l2[r] && w1[r] == w2[r]
}

proof fn lemma_outside_rows_agree(
    n: int,
    nf: int,
    f: int,
    l1: Seq<u8>,
    w1: Seq<F32>,
    l2: Seq<u8>,
    w2: Seq<F32>,
    r: int,
)
    requires
        0 <= n,
        agree_outside_fold(n, nf, f, l1, w1, l2, w2),
        out_of_fold(n, nf, f).contains(r),
    ensures
        l1[r] == l2[r],
        w1[r] == w2[r],
        0 <= r < n,
        r % nf != f,
{
    let rows = out_of_fold(n, nf, f);
    lemma_filter_props(all_rows(n), outside_fold(nf, f));
    let p = choose|p: int| 0 <= p < rows.len() && rows[p] == r;
    assert(outside_fold(nf, f)(rows[p]));
    assert(all_rows(n).contains(rows[p]));
    assert(l1[r] == l2[r] && w1[r] == w2[r]);
}

/// The training encoding of a row is free of leakage: it does not depend on the labels and
/// weights of the row's own fold, the row's own label among them.
pub proof fn lemma_out_of_fold_is_leakage_free<A: Arith>(
    codes: Seq<i64>,
    l1: Seq<u8>,
    w1: Seq<F32>,
    l2: Seq<u8>,
    w2: Seq<F32>,
    nf: int,
    alpha: F32,
    i: int,
    enc: F32,
    cnt: F32,
)
    requires
        agree_outside_fold(codes.len() as int, nf, i % nf, l1, w1, l2, w2),
        is_out_of_fold_enc::<A>(codes, l1, w1, nf, alpha, i, enc, cnt),
    ensures
        is_out_of_fold_enc::<A>(codes, l2, w2, nf, alpha, i, enc, cnt),
{
    let n = codes.len() as int;
    let f = i % nf;
    let c = codes[i];
    let rows = out_of_fold(n, nf, f);
    let prior = choose|prior: F32| #[trigger]
        is_fold_rate::<A>(l1, w1, rows, prior) && is_encoded_from::<A>(
            codes,
            l1,
            w1,
            rows,
            alpha,
            prior,
            i,
            enc,
            cnt,
        );
    let (num, den) = choose|num: F64, den: F64| #[trigger]
        folds(F64::zero(), rows, add_weighted_label::<A>(l1, w1), num) && #[trigger] folds(
            F64::zero(),
            rows,
            add_weight::<A>(w1),
            den,
        ) && is_rate::<A>(num, den, prior);
    assert forall|k: int| 0 <= k < rows.len() implies l1[#[trigger] rows[k]] == l2[rows[k]]
        && w1[rows[k]] == w2[rows[k]] by {
        assert(rows.contains(rows[k]));
        lemma_outside_rows_agree(n, nf, f, l1, w1, l2, w2, rows[k]);
    }
    lemma_fold_sums_agree::<A>(rows, l1, w1, l2, w2, num, den);
    assert(is_fold_rate::<A>(l2, w2, rows, prior));
    if c != MISSING_CAT && is_seen(codes, rows, c) {
        let (wy, ws) = choose|wy: F64, ws: F64| #[trigger]
            are_category_sums::<A>(codes, l1, w1, rows, c, wy, ws) && is_smoothed::<A>(
                wy,
                ws,
                alpha,
                prior,
                enc,
            );
        let with = rows_with(codes, rows, c);
        lemma_filter_props(rows, carries(codes, c));
        assert forall|k: int| 0 <= k < with.len() implies l1[#[trigger] with[k]] == l2[with[k]]
            && w1[with[k]] == w2[with[k]] by {
            assert(rows.contains(with[k]));
            lemma_outside_rows_agree(n, nf, f, l1, w1, l2, w2, with[k]);
        }
        lemma_fold_sums_agree::<A>(with, l1, w1, l2, w2, wy, ws);
        assert(are_category_sums::<A>(codes, l2, w2, rows, c, wy, ws));
    }
    assert(is_encoded_from::<A>(codes, l2, w2, rows, alpha, prior, i, enc, cnt));
}

/// With deterministic arithmetic some rows have one sum of weights and one of labels.
proof fn lemma_fold_sums_unique<A: Arith>(
    labels: Seq<u8>,
    weights: Seq<F32>,
    rows: Seq<int>,
    a: F64,
    b: F64,
    x: F64,
    y: F64,
)
    requires
        deterministic::<A>(),
        folds(F64::zero(), rows, add_weighted_label::<A>(labels, weights), a),
        folds(F64::zero(), rows, add_weight::<A>(weights), b),
        folds(F64::zero(), rows, add_weighted_label::<A>(labels, weights), x),
        folds(F64::zero(), rows, add_weight::<A>(weights), y),
    ensures
        a == x,
        b == y,
{
    let (s1, s2) = (add_weighted_label::<A>(labels, weights), add_weight::<A>(weights));
    assert forall|i: int, p: F64, q: F64, r: F64| #[trigger]
        s1(i, p, q) && #[trigger] s1(i, p, r) implies q == r by {
        assert(is_label_added::<A>(labels[i], weights[i], p, q));
        assert(is_label_added::<A>(labels[i], weights[i], p, r));
    }
    assert forall|i: int, p: F64, q: F64, r: F64| #[trigger]
        s2(i, p, q) && #[trigger] s2(i, p, r) implies q == r by {
        assert(is_sum::<A>(p, weights[i].spec_widened(), q));
        assert(is_sum::<A>(p, weights[i].spec_widened(), r));
    }
    lemma_folds_unique(F64::zero(), rows, s1, a, x);
    lemma_folds_unique(F64::zero(), rows, s2, b, y);
}

/// With deterministic arithmetic a category has one target encoding.
pub(crate) proof fn lemma_target_enc_unique<A: Arith>(
    codes: Seq<i64>,
    labels: Seq<u8>,
    weights: Seq<F32>,
    rows: Seq<int>,
    alpha: F32,
    prior: F32,
    c: i64,
    x: F32,
    y: F32,
)
    requires
        deterministic::<A>(),
        is_target_enc::<A>(codes, labels, weights, rows, alpha, prior, c, x),
        is_target_enc::<A>(codes, labels, weights, rows, alpha, prior, c, y),
    ensures
        x == y,
{
    let (wy, ws) = choose|wy: F64, ws: F64| #[trigger]
        are_category_sums::<A>(codes, labels, weights, rows, c, wy, ws) && is_smoothed::<A>(
            wy,
            ws,
            alpha,
            prior,
            x,
        );
    let (vy, vs) = choose|wy: F64, ws: F64| #[trigger]
        are_category_sums::<A>(codes, labels, weights, rows, c, wy, ws) && is_smoothed::<A>(
            wy,
            ws,
            alpha,
            prior,
            y,
        );
    lemma_fold_sums_unique::<A>(labels, weights, rows_with(codes, rows, c), wy, ws, vy, vs);
    let a = alpha.spec_widened();
    let (p1, n1, d1, v1) = choose|p: F64, num: F64, den: F64, v: F64| #[trigger]
        is_prod::<A>(a, prior.spec_widened(), p) && #[trigger] is_sum::<A>(wy, p, num)
            && #[trigger] is_sum::<A>(ws, a, den) && #[trigger] is_quot::<A>(num, den, v)
            && is_narrow::<A>(v, x);
    let (p2, n2, d2, v2) = choose|p: F64, num: F64, den: F64, v: F64| #[trigger]
        is_prod::<A>(a, prior.spec_widened(), p) && #[trigger] is_sum::<A>(wy, p, num)
            && #[trigger] is_sum::<A>(ws, a, den) && #[trigger] is_quot::<A>(num, den, v)
            && is_narrow::<A>(v, y);
    assert(p1 == p2);
    assert(n1 == n2 && d1 == d2);
    assert(v1 == v2);
}

/// With deterministic arithmetic a row has one out-of-fold encoding.
pub(crate) proof fn lemma_out_of_fold_unique<A: Arith>(
    codes: Seq<i64>,
    labels: Seq<u8>,
    weights: Seq<F32>,
    nf: int,
    alpha: F32,
    i: int,
    e1: F32,
    c1: F32,
    e2: F32,
    c2: F32,
)
    requires
        deterministic::<A>(),
        is_out_of_fold_enc::<A>(codes, labels, weights, nf, alpha, i, e1, c1),
        is_out_of_fold_enc::<A>(codes, labels, weights, nf, alpha, i, e2, c2),
    ensures
        e1 == e2,
        c1 == c2,
{
    let rows = out_of_fold(codes.len() as int, nf, i % nf);
    let p = choose|prior: F32| #[trigger]
        is_fold_rate::<A>(labels, weights, rows, prior) && is_encoded_from::<A>(
            codes,
            labels,
            weights,
            rows,
            alpha,
            prior,
            i,
            e1,
            c1,
        );
    let q = choose|prior: F32| #[trigger]
        is_fold_rate::<A>(labels, weights, rows, prior) && is_encoded_from::<A>(
            codes,
            labels,
            weights,
            rows,
            alpha,
            prior,
            i,
            e2,
            c2,
        );
    let (s1, s2) = (add_weighted_label::<A>(labels, weights), add_weight::<A>(weights));
    let (n1, d1) = choose|num: F64, den: F64| #[trigger]
        folds(F64::zero(), rows, s1, num) && #[trigger] folds(F64::zero(), rows, s2, den)
            && is_rate::<A>(num, den, p);
    let (n2, d2) = choose|num: F64, den: F64| #[trigger]
        folds(F64::zero(), rows, s1, num) && #[trigger] folds(F64::zero(), rows, s2, den)
            && is_rate::<A>(num, den, q);
    lemma_fold_sums_unique::<A>(labels, weights, rows, n1, d1, n2, d2);
    assert(p == q);
    let c = codes[i];
    if c != MISSING_CAT && is_seen(codes, rows, c) {
        lemma_target_enc_unique::<A>(codes, labels, weights, rows, alpha, p, c, e1, e2);
    }
}

/// A row's own label never informs its own encoding: where two training sets differ in no
/// more than labels and weights of one fold, with deterministic arithmetic the high-card cells
/// of that fold's rows in the two training matrices are equal.
pub proof fn lemma_fit_is_leakage_free<A: Arith>(
    d1: Dataset,
    d2: Dataset,
    cfg: Config,
    p1: F32,
    p2: F32,
    e1: Encoders,
    e2: Encoders,
    m1: EncodedMatrix,
    m2: EncodedMatrix,
    fi: int,
    i: int,
)
    requires
        deterministic::<A>(),
        is_fit::<A>(d1, cfg, p1, e1, m1),
        is_fit::<A>(d2, cfg, p2, e2, m2),
        0 <= fi < d1.columns.len(),
        d1.columns.len() == d2.columns.len(),
        d1.schema.kinds[fi] is HighCardCat,
        d2.schema.kinds[fi] is HighCardCat,
        same_column(d1.columns[fi], d2.columns[fi]),
        0 <= i < d1.columns[fi].rows(),
        agree_outside_fold(
            d1.columns[fi].rows() as int,
            max_int(cfg.n_folds as int, 2),
            i % max_int(cfg.n_folds as int, 2),
            d1.labels@,
            d1.weights@,
            d2.labels@,
            d2.weights@,
        ),
    ensures
        m1.cols[fi] is HighCard,
        m2.cols[fi] is HighCard,
        m1.cols[fi]->enc[i] == m2.cols[fi]->enc[i],
        m1.cols[fi]->cnt[i] == m2.cols[fi]->cnt[i],
{
    let nf = max_int(cfg.n_folds as int, 2);
    assert(is_fitted::<A>(
        d1,
        cfg,
        p1,
        fi,
        layout_start(e1.features@, fi),
        e1.features[fi],
        m1.cols[fi],
    ));
    assert(is_fitted::<A>(
        d2,
        cfg,
        p2,
        fi,
        layout_start(e2.features@, fi),
        e2.features[fi],
        m2.cols[fi],
    ));
    match (d1.columns[fi], d2.columns[fi], m1.cols[fi], m2.cols[fi]) {
        (
            Column::Categorical(raw),
            Column::Categorical(_),
            EncCol::HighCard { enc: x, cnt: u },
            EncCol::HighCard { enc: y, cnt: v },
        ) => {
            assert(is_out_of_fold_enc::<A>(
                raw@,
                d1.labels@,
                d1.weights@,
                nf,
                cfg.alpha,
                i,
                x[i],
                u[i],
            ));
            assert(is_out_of_fold_enc::<A>(
                raw@,
                d2.labels@,
                d2.weights@,
                nf,
                cfg.alpha,
                i,
                y[i],
                v[i],
            ));
            lemma_out_of_fold_is_leakage_free::<A>(
                raw@,
                d1.labels@,
                d1.weights@,
                d2.labels@,
                d2.weights@,
                nf,
                cfg.alpha,
                i,
                x[i],
                u[i],
            );
            lemma_out_of_fold_unique::<A>(
                raw@,
                d2.labels@,
                d2.weights@,
                nf,
                cfg.alpha,
                i,
                x[i],
                u[i],
                y[i],
                v[i],
            );
        },
        _ => {},
    }
}

/// A category that only its own row carries is encoded as the rate of the rows of the other
/// folds: near-unique categories do not memorize their label.
pub proof fn lemma_unique_category_gets_fold_rate<A: Arith>(
    codes: Seq<i64>,
    labels: Seq<u8>,
    weights: Seq<F32>,
    nf: int,
    alpha: F32,
    i: int,
    enc: F32,
    cnt: F32,
)
    requires
        nf > 0,
        0 <= i < codes.len(),
        forall|r: int| 0 <= r < codes.len() && r != i ==> #[trigger] codes[r] != codes[i],
        is_out_of_fold_enc::<A>(codes, labels, weights, nf, alpha, i, enc, cnt),
    ensures
        is_fold_rate::<A>(labels, weights, out_of_fold(codes.len() as int, nf, i % nf), enc),
{
    let n = codes.len() as int;
    let f = i % nf;
    let c = codes[i];
    let rows = out_of_fold(n, nf, f);
    if c != MISSING_CAT && is_seen(codes, rows, c) {
        let with = rows_with(codes, rows, c);
        lemma_filter_props(rows, carries(codes, c));
        assert(rows.contains(with[0]));
        assert(carries(codes, c)(with[0]));
        lemma_outside_rows_agree(n, nf, f, labels, weights, labels, weights, with[0]);
        assert(codes[with[0]] == c);
    }
}

/// A category that the training column does not hold is in no map.
pub proof fn lemma_unseen_is_not_mapped<A: Arith>(
    raw: Seq<i64>,
    labels: Seq<u8>,
    weights: Seq<F32>,
    cfg: Config,
    prior: F32,
    off: int,
    e: HighCardEnc,
    enc: Seq<F32>,
    cnt: Seq<F32>,
    c: i64,
)
    requires
        is_highcard_fit::<A>(raw, labels, weights, cfg, prior, off, e, enc, cnt),
        !raw.contains(c),
    ensures
        !e.enc@.contains_key(c),
        !e.count@.contains_key(c),
{
    let rows = all_rows(raw.len() as int);
    lemma_filter_props(rows, carries(raw, c));
    if is_seen(raw, rows, c) {
        let with = rows_with(raw, rows, c);
        assert(carries(raw, c)(with[0]));
        assert(rows.contains(with[0]));
        assert(raw[with[0]] == c);
    }
}

/// A category that the training column does not hold, and the missing one, are encoded as
/// the prior.
pub proof fn lemma_unseen_category_gets_prior<A: Arith>(
    raw: Seq<i64>,
    labels: Seq<u8>,
    weights: Seq<F32>,
    cfg: Config,
    prior: F32,
    off: int,
    e: HighCardEnc,
    enc: Seq<F32>,
    cnt: Seq<F32>,
    c: i64,
)
    requires
        is_highcard_fit::<A>(raw, labels, weights, cfg, prior, off, e, enc, cnt),
        c == MISSING_CAT || !raw.contains(c),
    ensures
        e.spec_enc_of(c) == prior,
{
    if c != MISSING_CAT {
        lemma_unseen_is_not_mapped::<A>(
            raw,
            labels,
            weights,
            cfg,
            prior,
            off,
            e,
            enc,
            cnt,
            c,
        );
    }
}

/// The dense ids tell the categories of the training column apart; the missing category and
/// all unseen ones have an id of their own each.
pub proof fn lemma_codes_tell_apart(e: BoundedCatEnc, raw: Seq<i64>, c: i64, d: i64)
    requires
        numbers(e.vocab@, distinct(raw)),
        e.n_vocab == distinct(raw).len(),
    ensures
        c != MISSING_CAT && raw.contains(c) ==> e.spec_code_of(c) < e.n_vocab,
        c == MISSING_CAT ==> e.spec_code_of(c) == e.n_vocab,
        c != MISSING_CAT && !raw.contains(c) ==> e.spec_code_of(c) == e.n_vocab + 1,
        c != MISSING_CAT && raw.contains(c) && e.spec_code_of(c) == e.spec_code_of(d) ==> c == d,
{
    let v = distinct(raw);
    lemma_distinct_holds(raw, c);
    lemma_distinct_holds(raw, d);
    if c != MISSING_CAT && raw.contains(c) {
        let p = choose|p: int| 0 <= p < v.len() && v[p] == c;
        assert(e.vocab@.contains_key(c));
        assert(e.vocab@[v[p]] == p);
        if d != MISSING_CAT && raw.contains(d) {
            let q = choose|q: int| 0 <= q < v.len() && v[q] == d;
            assert(e.vocab@.contains_key(d));
            assert(e.vocab@[v[q]] == q);
        }
    }
}

pub(crate) proof fn lemma_distinct_holds(raw: Seq<i64>, c: i64)
    ensures
        distinct(raw).contains(c) <==> c != MISSING_CAT && raw.contains(c),
    decreases raw.len(),
{
    if raw.len() > 0 {
        let front = raw.drop_last();
        lemma_distinct_holds(front, c);
        let d = distinct(front);
        let last = raw[raw.len() - 1];
        assert(raw =~= front.push(last));
        if raw.contains(c) && c != last {
            let p = choose|p: int| 0 <= p < raw.len() && raw[p] == c;
            assert(front[p] == c);
        }
        if front.contains(c) {
            let p = choose|p: int| 0 <= p < front.len() && front[p] == c;
            assert(raw[p] == c);
        }
        if last != MISSING_CAT && !d.contains(last) {
            let e = d.push(last);
            assert(e[d.len() as int] == last);
            if d.contains(c) {
                let p = choose|p: int| 0 <= p < d.len() && d[p] == c;
                assert(e[p] == c);
            }
            if e.contains(c) && c != last {
                let p = choose|p: int| 0 <= p < e.len() && e[p] == c;
                assert(d[p] == c);
            }
        }
        assert(raw[raw.len() - 1] == last);
    }
}

/// Valid encoders have no more features than basis slots.
pub proof fn lemma_features_within_slots(encoders: Encoders, m: int)
    requires
        encoders.wf(),
        0 <= m <= encoders.features.len(),
    ensures
        m <= layout_start(encoders.features@, m),
        m <= encoders.basis_dim,
    decreases m,
{
    if m > 0 {
        lemma_features_within_slots(encoders, m - 1);
        assert(encoders.features[m - 1].wf_at(layout_start(encoders.features@, m - 1)));
    }
    lemma_layout_rises(encoders, m, encoders.features@.len() as int);
}

/// Encoders fit on a training set take every dataset whose columns are of the same kinds.
pub proof fn lemma_fit_suits<A: Arith>(
    train: Dataset,
    cfg: Config,
    prior: F32,
    encoders: Encoders,
    matrix: EncodedMatrix,
    ds: Dataset,
)
    requires
        fit_accepts(train, cfg),
        is_fit::<A>(train, cfg, prior, encoders, matrix),
        ds.columns.len() == train.columns.len(),
        forall|i: int|
            0 <= i < ds.columns.len() ==> (#[trigger] ds.columns[i] is Numeric
                <==> train.columns[i] is Numeric),
    ensures
        dataset_suits(encoders, ds),
{
    lemma_fit_is_wf::<A>(train, cfg, prior, encoders, matrix);
    assert forall|i: int| 0 <= i < encoders.features.len() implies column_suits(
        #[trigger] encoders.features[i],
        ds.columns[i],
    ) by {
        assert(encoders.features[i].wf_at(layout_start(encoders.features@, i)));
        assert(is_fitted::<A>(
            train,
            cfg,
            prior,
            i,
            layout_start(encoders.features@, i),
            encoders.features[i],
            matrix.cols[i],
        ));
        lemma_layout_rises(encoders, 0, i);
        assert(ds.columns[i] is Numeric <==> train.columns[i] is Numeric);
    }
}

/// Two training sets with the same kinds, columns and number of rows are accepted alike.
pub proof fn lemma_fit_accepts_alike(train: Dataset, ds: Dataset, cfg: Config, m: int)
    requires
        train.schema.kinds@ == ds.schema.kinds@,
        train.columns.len() == ds.columns.len(),
        train.labels.len() == ds.labels.len(),
        forall|i: int|
            0 <= i < train.columns.len() ==> same_column(#[trigger] train.columns[i], ds.columns[i]),
        0 <= m <= train.columns.len(),
    ensures
        slots_bound(train, cfg, m) == slots_bound(ds, cfg, m),
    decreases m,
{
    if m > 0 {
        lemma_fit_accepts_alike(train, ds, cfg, m - 1);
        assert(same_column(train.columns[m - 1], ds.columns[m - 1]));
    }
}

/// What the weight of a basis entry stands for.
pub open spec fn entry_weight<T>(val: spec_fn(F64) -> Option<T>) -> spec_fn((u32, F32)) -> T {
    |e: (u32, F32)| val(e.1.spec_widened())->0
}

/// The two weights of a value between two knots interpolate: where nothing was rounded, they
/// sum to one, and the knots in these weights give the value.
pub proof fn lemma_bracket_interpolates<A: Arith, T>(
    ring: Ring<T>,
    val: spec_fn(F64) -> Option<T>,
    knots: Seq<F32>,
    off: int,
    v: F32,
    j: int,
    e: Seq<(u32, F32)>,
)
    requires
        ring.obeys_laws(),
        stays_exact32::<A, T>(ring, val),
        are_bracket_entries::<A>(knots, off, v, j, e),
        val(e[0].1.spec_widened()) is Some,
    ensures
        ring.sum_of(entry_weight(val)(e[0]), entry_weight(val)(e[1])) == ring.one,
        ring.sum_of(
            ring.product(entry_weight(val)(e[0]), val(knots[j].spec_widened())->0),
            ring.product(entry_weight(val)(e[1]), val(knots[j + 1].spec_widened())->0),
        ) == val(v.spec_widened())->0,
{
    let (a, b) = choose|a: F32, b: F32| #[trigger]
        is_diff32::<A>(v, knots[j], a) && #[trigger] is_diff32::<A>(knots[j + 1], knots[j], b)
            && is_quot32::<A>(a, b, e[1].1);
    let (u, t) = (entry_weight(val)(e[0]), entry_weight(val)(e[1]));
    let (lo, hi) = (val(knots[j].spec_widened())->0, val(knots[j + 1].spec_widened())->0);
    let x = val(v.spec_widened())->0;
    let (av, bv) = (val(a.spec_widened())->0, val(b.spec_widened())->0);
    ring.lemma_difference_undone(ring.one, t);
    // t·hi = (v - lo) + t·lo.
    ring.lemma_difference_undone(hi, lo);
    ring.lemma_product_distributes(t, bv, lo);
    // u·lo + t·lo = lo.
    let (ul, tl) = (ring.product(u, lo), ring.product(t, lo));
    ring.lemma_product_commutes(u, lo);
    ring.lemma_product_commutes(t, lo);
    ring.lemma_product_distributes(lo, u, t);
    ring.lemma_product_with_one(lo);
    assert(ring.sum_of(ul, tl) == lo);
    ring.lemma_difference_undone(x, lo);
    ring.lemma_sum_commutes(av, tl);
    ring.lemma_sum_associates(ul, tl, av);
    ring.lemma_sum_commutes(lo, av);
}

/// The piecewise-linear basis is a partition of unity: where nothing was rounded, the weights
/// of a value sum to one.
pub proof fn lemma_basis_partitions_unity<A: Arith, T>(
    ring: Ring<T>,
    val: spec_fn(F64) -> Option<T>,
    knots: Seq<F32>,
    off: int,
    v: F32,
    e: Seq<(u32, F32)>,
)
    requires
        ring.obeys_laws(),
        stays_exact32::<A, T>(ring, val),
        is_numeric_basis::<A>(knots, off, v, e),
        forall|i: int| 0 <= i < e.len() ==> val((#[trigger] e[i]).1.spec_widened()) is Some,
    ensures
        ring.total(entry_weight(val), e) == ring.one,
{
    let w = entry_weight(val);
    reveal_with_fuel(Ring::total, 3);
    if e.len() == 1 {
        ring.lemma_sum_with_zero(w(e[0]));
    } else {
        let j = choose|j: int| #[trigger] are_bracket_entries::<A>(knots, off, v, j, e);
        assert(val(e[0].1.spec_widened()) is Some);
        lemma_bracket_interpolates::<A, T>(ring, val, knots, off, v, j, e);
        ring.lemma_sum_with_zero(w(e[0]));
        assert(e.drop_last()[0] == e[0]);
    }
}

} // verus!
