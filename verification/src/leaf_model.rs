//! Per-leaf linear head, fit by Newton/IRLS on the class-weighted log-loss
//! with L2.
//!
//! For a leaf the model is `s = s_0 + bias + Σ_j φ_j(x) · w_j`, where `φ` is the
//! leaf's active slice of the sparse basis. The fit solves, each Newton step,
//! `A δ = b` with `A = Σ_i h_i x_i x_iᵀ + λI` and `b = Σ_i g_i x_i + λ w`
//! (intercept unregularized), via Cholesky. Weights are initialized so the leaf
//! starts at its base-rate log-odds — it only learns the within-region slope.

use vstd::prelude::*;
use std::collections::HashMap;
use crate::arith::{
    folds, is_diff, is_log_odds, is_logistic, is_narrow, is_prod, is_prod32, is_quot, is_sum,
    is_sum32, lemma_folds_push, lemma_folds_start, lemma_runs_next, lemma_runs_start, log_odds,
    logistic, max_rate, min_rate, runs, Arith,
};
use crate::encoding::{
    expand_row, is_label_added, is_row_basis, label_added, lemma_fitting_rows_expand,
    lemma_fitting_slots_below, lemma_row_basis_below, row_expands, row_slots_below, EncodedMatrix,
    Encoders,
};
use crate::float::{F32, F64};
use crate::linalg::{
    cholesky_solve, is_rejected, is_solution, lemma_cell_in_range, SymMatrix,
};
use crate::sort::order_by_key;
use crate::tree::rows_within;
use crate::{Config, LeafKind};

verus! {

broadcast use vstd::std_specs::hash::group_hash_axioms;

/// A fitted leaf: sparse weights over active basis slots plus a bias, on top of
/// the global base score `s_0`.
#[derive(Clone, Debug)]
pub struct Leaf {
    pub idx: Vec<u32>,
    pub w: Vec<F32>,
    pub bias: F32,
}

/// Strictly ascending slots.
pub open spec fn slots_ascend(idx: Seq<u32>) -> bool {
    forall|i: int, j: int| 0 <= i < j < idx.len() ==> #[trigger] idx[i] < #[trigger] idx[j]
}

/// `b` is `a + w · val`.
pub open spec fn is_weight_added<A: Arith>(w: F32, val: F32, a: F32, b: F32) -> bool {
    exists|p: F32| #[trigger] is_prod32::<A>(w, val, p) && is_sum32::<A>(a, p, b)
}

impl Leaf {
    /// A weight for each slot, the slots in ascending order.
    pub open spec fn wf(self) -> bool {
        &&& slots_ascend(self.idx@)
        &&& self.idx.len() == self.w.len()
    }

    /// `b` is the score `a` with one more basis entry; an entry of a slot without a weight
    /// adds nothing.
    pub open spec fn is_entry_scored<A: Arith>(self, e: (u32, F32), a: F32, b: F32) -> bool {
        if self.idx@.contains(e.0) {
            is_weight_added::<A>(self.w[self.idx@.index_of(e.0)], e.1, a, b)
        } else {
            b == a
        }
    }

    /// Adding a basis entry.
    pub open spec fn score_entry<A: Arith>(self) -> spec_fn((u32, F32), F32, F32) -> bool {
        |e: (u32, F32), a: F32, b: F32| self.is_entry_scored::<A>(e, a, b)
    }

    /// `r` is the bias plus the weighted basis entries.
    pub open spec fn is_dot<A: Arith>(self, phi: Seq<(u32, F32)>, r: F32) -> bool {
        folds(self.bias, phi, self.score_entry::<A>(), r)
    }

    /// Score contribution of this leaf for a sparse basis row (excludes `s_0`).
    /// `phi` need not be sorted; indices not in `idx` contribute zero.
    pub fn dot<A: Arith>(&self, phi: &Vec<(u32, F32)>) -> (r: F32)
        requires
            slots_ascend(self.idx@),
            self.idx.len() <= self.w.len(),
        ensures
            self.is_dot::<A>(phi@, r),
    {
        let ghost step = self.score_entry::<A>();
        let mut acc = self.bias;
        let mut i: usize = 0;
        proof {
            lemma_folds_start(self.bias, step);
            assert(phi@.take(0) =~= Seq::<(u32, F32)>::empty());
        }
        while i < phi.len()
            invariant
                i <= phi.len(),
                slots_ascend(self.idx@),
                self.idx.len() <= self.w.len(),
                step == self.score_entry::<A>(),
                folds(self.bias, phi@.take(i as int), step, acc),
            decreases phi.len() - i,
        {
            let (gi, val) = phi[i];
            let next = match find_slot(&self.idx, gi) {
                Some(pos) => {
                    let p = A::prod32(self.w[pos], val);
                    let next = A::sum32(acc, p);
                    proof {
                        assert(is_prod32::<A>(self.w[pos as int], val, p));
                        lemma_slot_position(self.idx@, pos as int);
                    }
                    next
                },
                None => acc,
            };
            proof {
                assert(step(phi@[i as int], acc, next));
                lemma_folds_push(self.bias, phi@.take(i as int), step, acc, phi@[i as int], next);
                assert(phi@.take(i + 1) =~= phi@.take(i as int).push(phi@[i as int]));
            }
            acc = next;
            i = i + 1;
        }
        proof {
            assert(phi@.take(phi@.len() as int) =~= phi@);
        }
        acc
    }
}

proof fn lemma_slot_position(idx: Seq<u32>, pos: int)
    requires
        slots_ascend(idx),
        0 <= pos < idx.len(),
    ensures
        idx.contains(idx[pos]),
        idx.index_of(idx[pos]) == pos,
{
    let k = idx.index_of(idx[pos]);
    assert(0 <= k < idx.len() && idx[k] == idx[pos]);
    if k < pos {
        assert(idx[k] < idx[pos]);
    } else if pos < k {
        assert(idx[pos] < idx[k]);
    }
}

/// The position of a slot, by binary search.
#[inline]
fn find_slot(idx: &Vec<u32>, gi: u32) -> (r: Option<usize>)
    requires
        slots_ascend(idx@),
    ensures
        match r {
            Some(pos) => pos < idx.len() && idx[pos as int] == gi,
            None => !idx@.contains(gi),
        },
{
    let mut lo: usize = 0;
    let mut hi: usize = idx.len();
    while lo < hi
        invariant
            lo <= hi <= idx.len(),
            slots_ascend(idx@),
            forall|i: int| 0 <= i < lo ==> #[trigger] idx[i] < gi,
            forall|i: int| hi <= i < idx.len() ==> #[trigger] idx[i] > gi,
        decreases hi - lo,
    {
        let mid: usize = lo + (hi - lo) / 2;
        let x: u32 = idx[mid];
        if x == gi {
            return Some(mid);
        }
        if x < gi {
            proof {
                assert forall|i: int| 0 <= i < mid + 1 implies #[trigger] idx[i] < gi by {
                    if i < mid {
                        assert(idx[i] < idx[mid as int]);
                    }
                }
            }
            lo = mid + 1;
        } else {
            proof {
                assert forall|i: int| mid <= i < idx.len() implies #[trigger] idx[i] > gi by {
                    if mid < i {
                        assert(idx[mid as int] < idx[i]);
                    }
                }
            }
            hi = mid;
        }
    }
    None
}

/// Adding the weight times the label of row `r`.
pub open spec fn add_row_label<A: Arith>(
    labels: Seq<u8>,
    weights: Seq<F32>,
) -> spec_fn(u32, F64, F64) -> bool {
    |r: u32, a: F64, b: F64| is_label_added::<A>(labels[r as int], weights[r as int], a, b)
}

/// Adding the weight of row `r`.
pub open spec fn add_row_weight<A: Arith>(weights: Seq<F32>) -> spec_fn(u32, F64, F64) -> bool {
    |r: u32, a: F64, b: F64| is_sum::<A>(a, weights[r as int].spec_widened(), b)
}

/// One half.
#[verifier::allow_in_spec]
pub fn half() -> F64
    returns
        (F64 { bits: 0x3fe0_0000_0000_0000 }),
{
    F64 { bits: 0x3fe0_0000_0000_0000 }
}

/// `rate` is `wy / wsum`, kept away from zero and one; one half where there is no weight.
pub open spec fn is_base_rate<A: Arith>(wy: F64, wsum: F64, rate: F64) -> bool {
    if F64::zero().lt(wsum) {
        exists|q: F64| #[trigger]
            is_quot::<A>(wy, wsum, q) && rate == q.spec_clamped(min_rate(), max_rate())
    } else {
        rate == half()
    }
}

/// `b` is the log-odds of the leaf's weighted positive rate, less the base score.
pub open spec fn is_initial_bias<A: Arith>(
    rows: Seq<u32>,
    labels: Seq<u8>,
    weights: Seq<F32>,
    s0: F32,
    b: F64,
) -> bool {
    exists|wy: F64, wsum: F64, rate: F64, l: F64| #[trigger]
        folds(F64::zero(), rows, add_row_label::<A>(labels, weights), wy) && #[trigger] folds(
            F64::zero(),
            rows,
            add_row_weight::<A>(weights),
            wsum,
        ) && #[trigger] is_base_rate::<A>(wy, wsum, rate) && #[trigger] is_log_odds::<A>(rate, l)
            && is_diff::<A>(l, s0.spec_widened(), b)
}

fn initial_bias<A: Arith>(
    rows: &Vec<u32>,
    labels: &Vec<u8>,
    weights: &Vec<F32>,
    s0: F32,
) -> (b: F64)
    requires
        rows_within(rows@, labels@.len() as int),
        rows_within(rows@, weights@.len() as int),
    ensures
        is_initial_bias::<A>(rows@, labels@, weights@, s0, b),
{
    let ghost s1 = add_row_label::<A>(labels@, weights@);
    let ghost s2 = add_row_weight::<A>(weights@);
    let mut wy: F64 = F64::zero();
    let mut wsum: F64 = F64::zero();
    let mut i: usize = 0;
    proof {
        lemma_folds_start(F64::zero(), s1);
        lemma_folds_start(F64::zero(), s2);
        assert(rows@.take(0) =~= Seq::<u32>::empty());
    }
    while i < rows.len()
        invariant
            i <= rows.len(),
            rows_within(rows@, labels@.len() as int),
            rows_within(rows@, weights@.len() as int),
            s1 == add_row_label::<A>(labels@, weights@),
            s2 == add_row_weight::<A>(weights@),
            folds(F64::zero(), rows@.take(i as int), s1, wy),
            folds(F64::zero(), rows@.take(i as int), s2, wsum),
        decreases rows.len() - i,
    {
        let r: usize = rows[i] as usize;
        let wy2 = label_added::<A>(labels[r], weights[r], wy);
        let wsum2 = A::sum(wsum, weights[r].widened());
        proof {
            let x = rows@[i as int];
            assert(s1(x, wy, wy2));
            assert(is_sum::<A>(wsum, weights@[r as int].spec_widened(), wsum2));
            assert(s2(x, wsum, wsum2));
            lemma_folds_push(F64::zero(), rows@.take(i as int), s1, wy, x, wy2);
            lemma_folds_push(F64::zero(), rows@.take(i as int), s2, wsum, x, wsum2);
            assert(rows@.take(i + 1) =~= rows@.take(i as int).push(x));
        }
        wy = wy2;
        wsum = wsum2;
        i = i + 1;
    }
    proof {
        assert(rows@.take(rows@.len() as int) =~= rows@);
    }
    let rate = if F64::zero().less(wsum) {
        let q = A::quot(wy, wsum);
        assert(is_quot::<A>(wy, wsum, q));
        q.clamped(min_rate(), max_rate())
    } else {
        half()
    };
    let l = log_odds::<A>(rate);
    let b = A::diff(l, s0.widened());
    proof {
        assert(folds(F64::zero(), rows@, s1, wy) && folds(F64::zero(), rows@, s2, wsum)
            && is_base_rate::<A>(wy, wsum, rate) && is_log_odds::<A>(rate, l));
    }
    b
}

/// The slots of `seen`, then those of the entries that are not among them, in order of first
/// appearance.
pub open spec fn with_slots(seen: Seq<u32>, e: Seq<(u32, F32)>) -> Seq<u32>
    decreases e.len(),
{
    if e.len() == 0 {
        seen
    } else {
        let s = with_slots(seen, e.drop_last());
        if s.contains(e.last().0) {
            s
        } else {
            s.push(e.last().0)
        }
    }
}

/// The active basis slots of some rows, in order of first appearance.
pub open spec fn active_slots(phis: Seq<Seq<(u32, F32)>>) -> Seq<u32>
    decreases phis.len(),
{
    if phis.len() == 0 {
        Seq::empty()
    } else {
        with_slots(active_slots(phis.drop_last()), phis.last())
    }
}

/// The local slot of a basis index: its position among the active ones, after the intercept.
pub open spec fn local_slot(active: Seq<u32>, gi: u32) -> int {
    active.index_of(gi) + 1
}

/// The entries of a row in local slots.
pub open spec fn local_row(active: Seq<u32>, e: Seq<(u32, F32)>) -> Seq<(usize, F64)> {
    e.map_values(|x: (u32, F32)| (local_slot(active, x.0) as usize, x.1.spec_widened()))
}

/// `phis` are the sparse bases of the rows.
pub open spec fn are_row_bases<A: Arith>(
    encoders: Encoders,
    matrix: EncodedMatrix,
    rows: Seq<u32>,
    phis: Seq<Seq<(u32, F32)>>,
) -> bool {
    &&& phis.len() == rows.len()
    &&& forall|k: int|
        0 <= k < rows.len() ==> is_row_basis::<A>(
            encoders,
            matrix,
            rows[k] as int,
            #[trigger] phis[k],
        )
}

/// The rows in local slots.
pub open spec fn local_rows(phis: Seq<Seq<(u32, F32)>>) -> Seq<Seq<(usize, F64)>> {
    phis.map_values(|e: Seq<(u32, F32)>| local_row(active_slots(phis), e))
}

/// `b` is `a + w · val`.
pub open spec fn is_term_added<A: Arith>(w: F64, val: F64, a: F64, b: F64) -> bool {
    exists|p: F64| #[trigger] is_prod::<A>(w, val, p) && is_sum::<A>(a, p, b)
}

/// Adding the term of a local entry.
pub open spec fn add_term<A: Arith>(w: Seq<F64>) -> spec_fn((usize, F64), F64, F64) -> bool {
    |x: (usize, F64), a: F64, b: F64| is_term_added::<A>(w[x.0 as int], x.1, a, b)
}

/// `s` is `s_0 + bias + Σ w·φ`.
pub open spec fn is_score<A: Arith>(s0: F32, w: Seq<F64>, e: Seq<(usize, F64)>, s: F64) -> bool {
    exists|init: F64| #[trigger]
        is_sum::<A>(s0.spec_widened(), w[0], init) && folds(init, e, add_term::<A>(w), s)
}

/// `gi` and `hi` are gradient and hessian of a row: `c·(p - y)` and `c·p·(1 - p)`.
pub open spec fn are_derivatives<A: Arith>(
    p: F64,
    label: u8,
    weight: F32,
    gi: F64,
    hi: F64,
) -> bool {
    exists|u: F64, cp: F64, q: F64| #[trigger]
        is_diff::<A>(p, F64::of_byte(label), u) && is_prod::<A>(weight.spec_widened(), u, gi)
            && #[trigger] is_prod::<A>(weight.spec_widened(), p, cp) && #[trigger] is_diff::<A>(
            F64::one(),
            p,
            q,
        ) && is_prod::<A>(cp, q, hi)
}

/// `gi` and `hi` are gradient and hessian of a row at weights `w`.
pub open spec fn is_row_stat<A: Arith>(
    s0: F32,
    w: Seq<F64>,
    e: Seq<(usize, F64)>,
    label: u8,
    weight: F32,
    gi: F64,
    hi: F64,
) -> bool {
    exists|s: F64, p: F64| #[trigger]
        is_score::<A>(s0, w, e, s) && #[trigger] is_logistic::<A>(s, p) && are_derivatives::<A>(
            p,
            label,
            weight,
            gi,
            hi,
        )
}

/// `b` is the matrix `a` of dimension `d` with `v` added at row `i`, column `j`.
pub open spec fn is_cell_added<A: Arith>(
    d: int,
    i: int,
    j: int,
    v: F64,
    a: Seq<F64>,
    b: Seq<F64>,
) -> bool {
    0 <= i * d + j < a.len() && exists|s: F64| #[trigger]
        is_sum::<A>(a[i * d + j], v, s) && b == a.update(i * d + j, s)
}

/// `b` is the vector `a` with `v` added at `i`.
pub open spec fn is_slot_added<A: Arith>(i: int, v: F64, a: Seq<F64>, b: Seq<F64>) -> bool {
    0 <= i < a.len() && exists|s: F64| #[trigger]
        is_sum::<A>(a[i], v, s) && b == a.update(i, s)
}

/// `b` is the matrix `a` with `hx · x_j` added for one entry `x`.
pub open spec fn is_pair_added<A: Arith>(
    d: int,
    li: int,
    hx: F64,
    x: (usize, F64),
    a: Seq<F64>,
    b: Seq<F64>,
) -> bool {
    exists|v: F64| #[trigger]
        is_prod::<A>(hx, x.1, v) && is_cell_added::<A>(d, li, x.0 as int, v, a, b)
}

/// Adding the products of row `li` of the matrix with each entry.
pub open spec fn add_pair<A: Arith>(
    d: int,
    li: int,
    hx: F64,
) -> spec_fn((usize, F64), Seq<F64>, Seq<F64>) -> bool {
    |x: (usize, F64), a: Seq<F64>, b: Seq<F64>| is_pair_added::<A>(d, li, hx, x, a, b)
}

/// `t` is the system `s` with the products of one entry added: with the intercept, with all
/// entries, and with the gradient.
pub open spec fn is_entry_added<A: Arith>(
    d: int,
    gi: F64,
    hi: F64,
    e: Seq<(usize, F64)>,
    x: (usize, F64),
    s: (Seq<F64>, Seq<F64>),
    t: (Seq<F64>, Seq<F64>),
) -> bool {
    exists|hx: F64, gx: F64, a1: Seq<F64>, a2: Seq<F64>| #[trigger]
        is_prod::<A>(hi, x.1, hx) && #[trigger] is_prod::<A>(
            gi,
            x.1,
            gx,
        ) && #[trigger] is_cell_added::<A>(d, x.0 as int, 0, hx, s.0, a1)
            && #[trigger] is_cell_added::<A>(d, 0, x.0 as int, hx, a1, a2) && folds(
            a2,
            e,
            add_pair::<A>(d, x.0 as int, hx),
            t.0,
        ) && is_slot_added::<A>(x.0 as int, gx, s.1, t.1)
}

/// Adding an entry to the system.
pub open spec fn add_entry<A: Arith>(
    d: int,
    gi: F64,
    hi: F64,
    e: Seq<(usize, F64)>,
) -> spec_fn((usize, F64), (Seq<F64>, Seq<F64>), (Seq<F64>, Seq<F64>)) -> bool {
    |x: (usize, F64), s: (Seq<F64>, Seq<F64>), t: (Seq<F64>, Seq<F64>)|
        is_entry_added::<A>(d, gi, hi, e, x, s, t)
}

/// `t` is the system `s` with one row added: `A += h x xᵀ`, `b += g x` with `x = [1, φ...]`.
pub open spec fn is_sample_added<A: Arith>(
    d: int,
    s0: F32,
    w: Seq<F64>,
    e: Seq<(usize, F64)>,
    label: u8,
    weight: F32,
    s: (Seq<F64>, Seq<F64>),
    t: (Seq<F64>, Seq<F64>),
) -> bool {
    exists|gi: F64, hi: F64, a0: Seq<F64>, b0: Seq<F64>| #[trigger]
        is_row_stat::<A>(s0, w, e, label, weight, gi, hi) && #[trigger] is_cell_added::<A>(
            d,
            0,
            0,
            hi,
            s.0,
            a0,
        ) && #[trigger] is_slot_added::<A>(0, gi, s.1, b0) && folds(
            (a0, b0),
            e,
            add_entry::<A>(d, gi, hi, e),
            t,
        )
}

/// Adding row `k` to the system.
pub open spec fn add_sample<A: Arith>(
    d: int,
    s0: F32,
    w: Seq<F64>,
    local: Seq<Seq<(usize, F64)>>,
    rows: Seq<u32>,
    labels: Seq<u8>,
    weights: Seq<F32>,
) -> spec_fn(int, (Seq<F64>, Seq<F64>), (Seq<F64>, Seq<F64>)) -> bool {
    |k: int, s: (Seq<F64>, Seq<F64>), t: (Seq<F64>, Seq<F64>)|
        is_sample_added::<A>(
            d,
            s0,
            w,
            local[k],
            labels[rows[k] as int],
            weights[rows[k] as int],
            s,
            t,
        )
}

/// `t` is the system `s` with L2 on weight `i`.
pub open spec fn is_ridge_added<A: Arith>(
    d: int,
    lam: F64,
    w: Seq<F64>,
    i: int,
    s: (Seq<F64>, Seq<F64>),
    t: (Seq<F64>, Seq<F64>),
) -> bool {
    exists|v: F64| #[trigger]
        is_prod::<A>(lam, w[i], v) && is_cell_added::<A>(d, i, i, lam, s.0, t.0)
            && is_slot_added::<A>(i, v, s.1, t.1)
}

/// Adding L2 on the weights after the intercept.
pub open spec fn add_ridge<A: Arith>(
    d: int,
    lam: F64,
    w: Seq<F64>,
) -> spec_fn(int, (Seq<F64>, Seq<F64>), (Seq<F64>, Seq<F64>)) -> bool {
    |k: int, s: (Seq<F64>, Seq<F64>), t: (Seq<F64>, Seq<F64>)|
        is_ridge_added::<A>(d, lam, w, k + 1, s, t)
}

/// As many zeros.
pub open spec fn zeros(n: int) -> Seq<F64> {
    Seq::new(n as nat, |i: int| F64::zero())
}

/// The dimension of a leaf's Newton system, the base score and the L2 strength.
pub struct Problem {
    pub d: usize,
    pub s0: F32,
    pub lam: F64,
}

/// `a` and `b` are the Newton system at weights `w`.
pub open spec fn is_newton_system<A: Arith>(
    q: Problem,
    local: Seq<Seq<(usize, F64)>>,
    rows: Seq<u32>,
    labels: Seq<u8>,
    weights: Seq<F32>,
    w: Seq<F64>,
    a: Seq<F64>,
    b: Seq<F64>,
) -> bool {
    exists|st: (Seq<F64>, Seq<F64>)| #[trigger]
        runs(
            (zeros(q.d * q.d), zeros(q.d as int)),
            rows.len(),
            add_sample::<A>(q.d as int, q.s0, w, local, rows, labels, weights),
            st,
        ) && runs(st, (q.d - 1) as nat, add_ridge::<A>(q.d as int, q.lam, w), (a, b))
}

/// `w2` is `w - δ`.
pub open spec fn are_stepped<A: Arith>(w: Seq<F64>, delta: Seq<F64>, w2: Seq<F64>) -> bool {
    &&& w2.len() == w.len()
    &&& forall|i: int| 0 <= i < w.len() ==> is_diff::<A>(w[i], delta[i], #[trigger] w2[i])
}

/// One Newton step leads from `w` to `w2`.
pub open spec fn is_newton_step<A: Arith>(
    q: Problem,
    local: Seq<Seq<(usize, F64)>>,
    rows: Seq<u32>,
    labels: Seq<u8>,
    weights: Seq<F32>,
    w: Seq<F64>,
    w2: Seq<F64>,
) -> bool {
    exists|a: Seq<F64>, b: Seq<F64>, delta: Seq<F64>| #[trigger]
        is_newton_system::<A>(q, local, rows, labels, weights, w, a, b)
            && #[trigger] is_solution::<A>(a, b, q.d as int, delta) && are_stepped::<A>(
            w,
            delta,
            w2,
        )
}

/// The Newton system at weights `w` has no solution.
pub open spec fn is_newton_end<A: Arith>(
    q: Problem,
    local: Seq<Seq<(usize, F64)>>,
    rows: Seq<u32>,
    labels: Seq<u8>,
    weights: Seq<F32>,
    w: Seq<F64>,
) -> bool {
    exists|a: Seq<F64>, b: Seq<F64>| #[trigger]
        is_newton_system::<A>(q, local, rows, labels, weights, w, a, b) && is_rejected::<A>(
            a,
            q.d as int,
        )
}

/// The Newton steps.
pub open spec fn newton<A: Arith>(
    q: Problem,
    local: Seq<Seq<(usize, F64)>>,
    rows: Seq<u32>,
    labels: Seq<u8>,
    weights: Seq<F32>,
) -> spec_fn(int, Seq<F64>, Seq<F64>) -> bool {
    |i: int, w: Seq<F64>, w2: Seq<F64>|
        is_newton_step::<A>(q, local, rows, labels, weights, w, w2)
}

/// `w` are the weights after `iters` Newton steps from `w0`, or after fewer where the next
/// system has no solution.
pub open spec fn is_newton_fit<A: Arith>(
    q: Problem,
    local: Seq<Seq<(usize, F64)>>,
    rows: Seq<u32>,
    labels: Seq<u8>,
    weights: Seq<F32>,
    w0: Seq<F64>,
    iters: int,
    w: Seq<F64>,
) -> bool {
    exists|n: nat| #[trigger]
        runs(w0, n, newton::<A>(q, local, rows, labels, weights), w) && (n == iters || n < iters
            && is_newton_end::<A>(q, local, rows, labels, weights, w))
}

/// `leaf` holds the fitted weights, narrowed, its slots in ascending order.
pub open spec fn is_leaf_of<A: Arith>(active: Seq<u32>, w: Seq<F64>, leaf: Leaf) -> bool {
    &&& is_narrow::<A>(w[0], leaf.bias)
    &&& leaf.wf()
    &&& leaf.idx.len() == active.len()
    &&& forall|k: int|
        0 <= k < leaf.idx.len() ==> active.contains(#[trigger] leaf.idx[k]) && is_narrow::<A>(
            w[local_slot(active, leaf.idx[k])],
            leaf.w[k],
        )
}

/// The weights before the first step: the intercept at the leaf's base rate, all others zero.
pub open spec fn first_weights(d: int, bias: F64) -> Seq<F64> {
    zeros(d).update(0, bias)
}

/// `leaf` is the linear head fit over the rows.
pub open spec fn is_linear_fit<A: Arith>(
    rows: Seq<u32>,
    encoders: Encoders,
    matrix: EncodedMatrix,
    labels: Seq<u8>,
    weights: Seq<F32>,
    s0: F32,
    cfg: Config,
    bias: F64,
    leaf: Leaf,
) -> bool {
    exists|phis: Seq<Seq<(u32, F32)>>, w: Seq<F64>| #[trigger]
        are_row_bases::<A>(encoders, matrix, rows, phis) && #[trigger] is_newton_fit::<A>(
            Problem {
                d: (active_slots(phis).len() + 1) as usize,
                s0,
                lam: cfg.lambda.spec_widened(),
            },
            local_rows(phis),
            rows,
            labels,
            weights,
            first_weights(active_slots(phis).len() as int + 1, bias),
            cfg.irls_iters as int,
            w,
        ) && is_leaf_of::<A>(active_slots(phis), w, leaf)
}

/// `leaf` is the head fit over the rows: a constant one at the rows' base rate, or a linear
/// one that starts there.
pub open spec fn is_leaf_fit<A: Arith>(
    rows: Seq<u32>,
    encoders: Encoders,
    matrix: EncodedMatrix,
    labels: Seq<u8>,
    weights: Seq<F32>,
    s0: F32,
    cfg: Config,
    leaf: Leaf,
) -> bool {
    exists|bias: F64| #[trigger]
        is_initial_bias::<A>(rows, labels, weights, s0, bias) && match cfg.leaf_model {
            LeafKind::Constant => leaf.idx@ == Seq::<u32>::empty() && leaf.w@ == Seq::<F32>::empty()
                && is_narrow::<A>(bias, leaf.bias),
            LeafKind::Linear => is_linear_fit::<A>(
                rows,
                encoders,
                matrix,
                labels,
                weights,
                s0,
                cfg,
                bias,
                leaf,
            ),
        }
}

/// Every entry's slot is below `d`.
pub open spec fn entries_within(e: Seq<(usize, F64)>, d: int) -> bool {
    forall|m: int| 0 <= m < e.len() ==> (#[trigger] e[m]).0 < d
}

/// Add `hx · x_j` to row `li` of the matrix for all entries.
#[inline]
fn add_pairs<A: Arith>(a: &mut SymMatrix, li: usize, hx: F64, e: &Vec<(usize, F64)>)
    requires
        old(a).wf(),
        li < old(a).n,
        entries_within(e@, old(a).n as int),
    ensures
        final(a).n == old(a).n,
        final(a).wf(),
        folds(old(a).data@, e@, add_pair::<A>(old(a).n as int, li as int, hx), final(a).data@),
{
    let ghost start = a.data@;
    let ghost d = a.n as int;
    let ghost step = add_pair::<A>(d, li as int, hx);
    let mut m: usize = 0;
    proof {
        lemma_folds_start(start, step);
        assert(e@.take(0) =~= Seq::<(usize, F64)>::empty());
    }
    while m < e.len()
        invariant
            m <= e.len(),
            a.n == d,
            a.wf(),
            li < d,
            entries_within(e@, d),
            step == add_pair::<A>(d, li as int, hx),
            folds(start, e@.take(m as int), step, a.data@),
        decreases e.len() - m,
    {
        let (lj, vj) = e[m];
        proof {
            assert(e@[m as int].0 < d);
            lemma_cell_in_range(d, li as int, lj as int);
        }
        let ghost before = a.data@;
        let v = A::prod(hx, vj);
        a.add::<A>(li, lj, v);
        proof {
            let x = e@[m as int];
            assert(is_prod::<A>(hx, x.1, v));
            assert(is_cell_added::<A>(d, li as int, lj as int, v, before, a.data@));
            assert(step(x, before, a.data@));
            lemma_folds_push(start, e@.take(m as int), step, before, x, a.data@);
            assert(e@.take(m + 1) =~= e@.take(m as int).push(x));
        }
        m = m + 1;
    }
    proof {
        assert(e@.take(e@.len() as int) =~= e@);
    }
}

/// Add `v` to slot `i` of the vector.
#[inline]
fn add_slot<A: Arith>(b: &mut Vec<F64>, i: usize, v: F64)
    requires
        i < old(b).len(),
    ensures
        is_slot_added::<A>(i as int, v, old(b)@, final(b)@),
        final(b).len() == old(b).len(),
{
    let s = A::sum(b[i], v);
    assert(is_sum::<A>(b@[i as int], v, s));
    b.set(i, s);
}

/// Add the products of all entries to the system.
fn add_entries<A: Arith>(
    a: &mut SymMatrix,
    b: &mut Vec<F64>,
    gi: F64,
    hi: F64,
    e: &Vec<(usize, F64)>,
)
    requires
        old(a).wf(),
        old(a).n > 0,
        old(b).len() == old(a).n,
        entries_within(e@, old(a).n as int),
    ensures
        final(a).n == old(a).n,
        final(a).wf(),
        final(b).len() == old(b).len(),
        folds(
            (old(a).data@, old(b)@),
            e@,
            add_entry::<A>(old(a).n as int, gi, hi, e@),
            (final(a).data@, final(b)@),
        ),
{
    let ghost start = (a.data@, b@);
    let ghost d = a.n as int;
    let ghost step = add_entry::<A>(d, gi, hi, e@);
    let mut m: usize = 0;
    proof {
        lemma_folds_start(start, step);
        assert(e@.take(0) =~= Seq::<(usize, F64)>::empty());
    }
    while m < e.len()
        invariant
            m <= e.len(),
            a.n == d,
            d > 0,
            a.wf(),
            b.len() == d,
            entries_within(e@, d),
            step == add_entry::<A>(d, gi, hi, e@),
            folds(start, e@.take(m as int), step, (a.data@, b@)),
        decreases e.len() - m,
    {
        let (li, xi) = e[m];
        proof {
            assert(e@[m as int].0 < d);
            lemma_cell_in_range(d, li as int, 0);
            lemma_cell_in_range(d, 0, li as int);
        }
        let ghost before = (a.data@, b@);
        let hx = A::prod(hi, xi);
        let gx = A::prod(gi, xi);
        a.add::<A>(li, 0, hx);
        let ghost a1 = a.data@;
        a.add::<A>(0, li, hx);
        let ghost a2 = a.data@;
        add_slot::<A>(b, li, gx);
        add_pairs::<A>(a, li, hx, e);
        proof {
            let x = e@[m as int];
            assert(is_prod::<A>(hi, x.1, hx) && is_prod::<A>(gi, x.1, gx));
            assert(is_cell_added::<A>(d, li as int, 0, hx, before.0, a1));
            assert(is_cell_added::<A>(d, 0, li as int, hx, a1, a2));
            assert(is_entry_added::<A>(d, gi, hi, e@, x, before, (a.data@, b@)));
            assert(step(x, before, (a.data@, b@)));
            lemma_folds_push(start, e@.take(m as int), step, before, x, (a.data@, b@));
            assert(e@.take(m + 1) =~= e@.take(m as int).push(x));
        }
        m = m + 1;
    }
    proof {
        assert(e@.take(e@.len() as int) =~= e@);
    }
}

/// The score of a row at weights `w`.
fn row_score<A: Arith>(s0: F32, w: &Vec<F64>, e: &Vec<(usize, F64)>) -> (s: F64)
    requires
        w.len() > 0,
        entries_within(e@, w@.len() as int),
    ensures
        is_score::<A>(s0, w@, e@, s),
{
    let init = A::sum(s0.widened(), w[0]);
    let ghost step = add_term::<A>(w@);
    let mut s = init;
    let mut m: usize = 0;
    proof {
        lemma_folds_start(init, step);
        assert(e@.take(0) =~= Seq::<(usize, F64)>::empty());
    }
    while m < e.len()
        invariant
            m <= e.len(),
            entries_within(e@, w@.len() as int),
            step == add_term::<A>(w@),
            folds(init, e@.take(m as int), step, s),
        decreases e.len() - m,
    {
        let (local, val) = e[m];
        proof {
            assert(e@[m as int].0 < w@.len());
        }
        let p = A::prod(w[local], val);
        let next = A::sum(s, p);
        proof {
            let x = e@[m as int];
            assert(is_prod::<A>(w@[x.0 as int], x.1, p));
            assert(step(x, s, next));
            lemma_folds_push(init, e@.take(m as int), step, s, x, next);
            assert(e@.take(m + 1) =~= e@.take(m as int).push(x));
        }
        s = next;
        m = m + 1;
    }
    proof {
        assert(e@.take(e@.len() as int) =~= e@);
        assert(is_sum::<A>(s0.spec_widened(), w@[0], init));
    }
    s
}

/// Gradient and hessian of a row at weights `w`.
fn row_stat<A: Arith>(
    s0: F32,
    w: &Vec<F64>,
    e: &Vec<(usize, F64)>,
    label: u8,
    weight: F32,
) -> (r: (F64, F64))
    requires
        w.len() > 0,
        entries_within(e@, w@.len() as int),
    ensures
        is_row_stat::<A>(s0, w@, e@, label, weight, r.0, r.1),
{
    let s = row_score::<A>(s0, w, e);
    let p = logistic::<A>(s);
    let c = weight.widened();
    let u = A::diff(p, F64::from_byte(label));
    let gi = A::prod(c, u);
    let cp = A::prod(c, p);
    let q = A::diff(F64::one(), p);
    let hi = A::prod(cp, q);
    proof {
        assert(is_diff::<A>(p, F64::of_byte(label), u) && is_prod::<A>(c, p, cp) && is_diff::<A>(
            F64::one(),
            p,
            q,
        ));
        assert(are_derivatives::<A>(p, label, weight, gi, hi));
        assert(is_score::<A>(s0, w@, e@, s) && is_logistic::<A>(s, p));
    }
    (gi, hi)
}

/// Local rows as plain sequences.
pub open spec fn rows_view(local: Seq<Vec<(usize, F64)>>) -> Seq<Seq<(usize, F64)>> {
    local.map_values(|e: Vec<(usize, F64)>| e@)
}

/// The Newton system at weights `w`.
fn newton_system<A: Arith>(
    q: &Problem,
    local: &Vec<Vec<(usize, F64)>>,
    rows: &Vec<u32>,
    labels: &Vec<u8>,
    weights: &Vec<F32>,
    w: &Vec<F64>,
) -> (r: (SymMatrix, Vec<F64>))
    requires
        q.d > 0,
        q.d * q.d <= usize::MAX,
        w.len() == q.d,
        local.len() == rows.len(),
        rows_within(rows@, labels@.len() as int),
        rows_within(rows@, weights@.len() as int),
        forall|k: int| 0 <= k < local.len() ==> entries_within((#[trigger] local[k])@, q.d as int),
    ensures
        is_newton_system::<A>(
            *q,
            rows_view(local@),
            rows@,
            labels@,
            weights@,
            w@,
            r.0.data@,
            r.1@,
        ),
        r.0.wf(),
        r.0.n == q.d,
        r.1.len() == q.d,
{
    let d: usize = q.d;
    let ghost sample = add_sample::<A>(
        d as int,
        q.s0,
        w@,
        rows_view(local@),
        rows@,
        labels@,
        weights@,
    );
    let ghost ridge = add_ridge::<A>(d as int, q.lam, w@);
    let mut a = SymMatrix::zeros(d);
    let mut b: Vec<F64> = zero_vec(d);
    let ghost start = (zeros(d * d), zeros(d as int));
    proof {
        assert(a.data@ =~= zeros(d * d));
        lemma_runs_start(start, sample);
    }
    let mut k: usize = 0;
    while k < rows.len()
        invariant
            k <= rows.len(),
            d == q.d,
            d > 0,
            w.len() == d,
            local.len() == rows.len(),
            rows_within(rows@, labels@.len() as int),
            rows_within(rows@, weights@.len() as int),
            forall|k: int|
                0 <= k < local.len() ==> entries_within((#[trigger] local[k])@, d as int),
            sample == add_sample::<A>(
                d as int,
                q.s0,
                w@,
                rows_view(local@),
                rows@,
                labels@,
                weights@,
            ),
            a.wf(),
            a.n == d,
            b.len() == d,
            runs(start, k as nat, sample, (a.data@, b@)),
        decreases rows.len() - k,
    {
        let r: usize = rows[k] as usize;
        let e = &local[k];
        let ghost before = (a.data@, b@);
        let (gi, hi) = row_stat::<A>(q.s0, w, e, labels[r], weights[r]);
        proof {
            lemma_cell_in_range(d as int, 0, 0);
        }
        // Intercept row/col.
        a.add::<A>(0, 0, hi);
        add_slot::<A>(&mut b, 0, gi);
        let ghost mid = (a.data@, b@);
        add_entries::<A>(&mut a, &mut b, gi, hi, e);
        proof {
            assert(is_row_stat::<A>(
                q.s0,
                w@,
                e@,
                labels@[r as int],
                weights@[r as int],
                gi,
                hi,
            ));
            assert(is_cell_added::<A>(d as int, 0, 0, hi, before.0, mid.0));
            assert(is_slot_added::<A>(0, gi, before.1, mid.1));
            assert(is_sample_added::<A>(
                d as int,
                q.s0,
                w@,
                rows_view(local@)[k as int],
                labels@[rows@[k as int] as int],
                weights@[rows@[k as int] as int],
                before,
                (a.data@, b@),
            ));
            assert(sample(k as int, before, (a.data@, b@)));
            lemma_runs_next(start, k as nat, sample, before, (a.data@, b@));
        }
        k = k + 1;
    }
    let ghost st = (a.data@, b@);
    proof {
        lemma_runs_start(st, ridge);
    }
    // L2 on every weight except the intercept.
    let mut i: usize = 1;
    while i < d
        invariant
            1 <= i <= d,
            d == q.d,
            w.len() == d,
            ridge == add_ridge::<A>(d as int, q.lam, w@),
            a.wf(),
            a.n == d,
            b.len() == d,
            runs(st, (i - 1) as nat, ridge, (a.data@, b@)),
        decreases d - i,
    {
        let ghost before = (a.data@, b@);
        proof {
            lemma_cell_in_range(d as int, i as int, i as int);
        }
        let v = A::prod(q.lam, w[i]);
        a.add::<A>(i, i, q.lam);
        add_slot::<A>(&mut b, i, v);
        proof {
            assert(is_prod::<A>(q.lam, w@[i as int], v));
            assert(is_cell_added::<A>(d as int, i as int, i as int, q.lam, before.0, a.data@));
            assert(is_ridge_added::<A>(d as int, q.lam, w@, i as int, before, (a.data@, b@)));
            assert(ridge(i - 1, before, (a.data@, b@)));
            lemma_runs_next(st, (i - 1) as nat, ridge, before, (a.data@, b@));
        }
        i = i + 1;
    }
    (a, b)
}

fn zero_vec(n: usize) -> (v: Vec<F64>)
    ensures
        v@ == zeros(n as int),
{
    let mut v: Vec<F64> = Vec::with_capacity(n);
    let mut i: usize = 0;
    while i < n
        invariant
            i <= n,
            v@ == zeros(i as int),
        decreases n - i,
    {
        v.push(F64::zero());
        i = i + 1;
    }
    v
}

/// `l` are the entries of `e` in the local slots of `active`.
spec fn is_local_of(active: Seq<u32>, e: Seq<(u32, F32)>, l: Seq<(usize, F64)>) -> bool {
    &&& l.len() == e.len()
    &&& forall|m: int|
        0 <= m < l.len() ==> 1 <= (#[trigger] l[m]).0 <= active.len() && active[l[m].0 - 1]
            == e[m].0 && l[m].1 == e[m].1.spec_widened()
}

/// `slots` maps the active basis indices to their local slots.
spec fn slots_hold(active: Seq<u32>, slots: Map<u32, usize>) -> bool {
    &&& forall|gi: u32| #[trigger] slots.contains_key(gi) <==> active.contains(gi)
    &&& forall|i: int|
        0 <= i < active.len() ==> slots.contains_key(#[trigger] active[i]) && slots[active[i]] == i
            + 1
}

proof fn lemma_local_row(
    active: Seq<u32>,
    slots: Map<u32, usize>,
    e: Seq<(u32, F32)>,
    l: Seq<(usize, F64)>,
)
    requires
        slots_hold(active, slots),
        is_local_of(active, e, l),
    ensures
        l == local_row(active, e),
        entries_within(l, active.len() as int + 1),
{
    assert forall|m: int| 0 <= m < l.len() implies (#[trigger] l[m]) == local_row(active, e)[m] by {
        let p = l[m].0 - 1;
        assert(active.contains(active[p]));
        let q = active.index_of(active[p]);
        assert(0 <= q < active.len() && active[q] == active[p]);
        assert(slots[active[q]] == q + 1);
        assert(slots[active[p]] == p + 1);
    }
    assert(l =~= local_row(active, e));
}

/// The local slots of one row's entries; new slots become active.
fn localize(
    phi: &Vec<(u32, F32)>,
    active: &mut Vec<u32>,
    slots: &mut HashMap<u32, usize>,
) -> (l: Vec<(usize, F64)>)
    requires
        slots_hold(old(active)@, old(slots)@),
    ensures
        slots_hold(final(active)@, final(slots)@),
        final(active)@ == with_slots(old(active)@, phi@),
        old(active)@.len() <= final(active)@.len(),
        final(active)@.take(old(active)@.len() as int) == old(active)@,
        is_local_of(final(active)@, phi@, l@),
{
    let ghost start = active@;
    let mut l: Vec<(usize, F64)> = Vec::with_capacity(phi.len());
    let mut m: usize = 0;
    proof {
        assert(phi@.take(0) =~= Seq::<(u32, F32)>::empty());
        assert(active@.take(start.len() as int) =~= start);
    }
    while m < phi.len()
        invariant
            m <= phi.len(),
            slots_hold(active@, slots@),
            active@ == with_slots(start, phi@.take(m as int)),
            start.len() <= active@.len(),
            active@.take(start.len() as int) == start,
            is_local_of(active@, phi@.take(m as int), l@),
        decreases phi.len() - m,
    {
        let (gi, val) = phi[m];
        let ghost before = active@;
        let ghost l_before = l@;
        proof {
            assert(phi@.take(m + 1).drop_last() =~= phi@.take(m as int));
            assert(phi@.take(m + 1).last() == phi@[m as int]);
        }
        let found: Option<usize> = match slots.get(&gi) {
            Some(p) => Some(*p),
            None => None,
        };
        let local: usize = match found {
            Some(p) => {
                proof {
                    assert(slots@.contains_key(gi));
                    let q = choose|q: int| 0 <= q < active@.len() && active@[q] == gi;
                    assert(slots@[active@[q]] == q + 1);
                }
                p
            },
            None => {
                proof {
                    assert(!slots@.contains_key(gi));
                }
                active.push(gi);
                let p: usize = active.len();
                slots.insert(gi, p);
                proof {
                    assert(active@[before.len() as int] == gi);
                    assert forall|x: u32| #[trigger] slots@.contains_key(x)
                        <==> active@.contains(x) by {
                        if before.contains(x) {
                            let k = choose|k: int| 0 <= k < before.len() && before[k] == x;
                            assert(active@[k] == x);
                        }
                        if active@.contains(x) && x != gi {
                            let k = choose|k: int| 0 <= k < active@.len() && active@[k] == x;
                            assert(before[k] == x);
                        }
                    }
                    assert forall|k: int| 0 <= k < active@.len() implies slots@.contains_key(
                        #[trigger] active@[k],
                    ) && slots@[active@[k]] == k + 1 by {
                        if k < before.len() {
                            assert(active@[k] == before[k]);
                            assert(before.contains(before[k]));
                        }
                    }
                    assert(active@.take(start.len() as int) =~= start);
                }
                p
            },
        };
        l.push((local, val.widened()));
        proof {
            assert forall|k: int| 0 <= k < l@.len() implies 1 <= (#[trigger] l@[k]).0
                <= active@.len() && active@[l@[k].0 - 1] == phi@.take(m + 1)[k].0 && l@[k].1
                == phi@.take(m + 1)[k].1.spec_widened() by {
                if k < m {
                    assert(l@[k] == l_before[k]);
                    assert(phi@.take(m as int)[k] == phi@.take(m + 1)[k]);
                }
            }
        }
        m = m + 1;
    }
    proof {
        assert(phi@.take(phi@.len() as int) =~= phi@);
    }
    l
}

/// A list of different numbers below `n` is no longer than `n`.
proof fn lemma_slots_bounded(active: Seq<u32>, slots: Map<u32, usize>, n: int)
    requires
        slots_hold(active, slots),
        n >= 0,
        forall|i: int| 0 <= i < active.len() ==> #[trigger] active[i] < n,
    ensures
        active.len() <= n,
{
    let ints = active.map_values(|x: u32| x as int);
    assert forall|i: int, j: int| 0 <= i < ints.len() && 0 <= j < ints.len() && i != j implies ints[i]
        != ints[j] by {
        assert(slots[active[i]] == i + 1);
        assert(slots[active[j]] == j + 1);
    }
    ints.unique_seq_to_set();
    let range = vstd::set_lib::set_int_range(0, n);
    vstd::set_lib::lemma_int_range(0, n);
    assert forall|x: int| ints.to_set().contains(x) implies range.contains(x) by {
        let i = choose|i: int| 0 <= i < ints.len() && ints[i] == x;
        assert(active[i] < n);
    }
    vstd::set_lib::lemma_len_subset(ints.to_set(), range);
}

/// Slots that entries bring are those of the entries.
proof fn lemma_with_slots_below(seen: Seq<u32>, e: Seq<(u32, F32)>, n: int)
    requires
        forall|i: int| 0 <= i < seen.len() ==> #[trigger] seen[i] < n,
        forall|i: int| 0 <= i < e.len() ==> (#[trigger] e[i]).0 < n,
    ensures
        forall|i: int| 0 <= i < with_slots(seen, e).len() ==> #[trigger] with_slots(seen, e)[i] < n,
    decreases e.len(),
{
    if e.len() > 0 {
        let front = e.drop_last();
        assert forall|i: int| 0 <= i < front.len() implies (#[trigger] front[i]).0 < n by {
            assert(front[i] == e[i]);
        }
        lemma_with_slots_below(seen, front, n);
        assert(e[e.len() - 1].0 < n);
        let s = with_slots(seen, front);
        let t = with_slots(seen, e);
        assert forall|i: int| 0 <= i < t.len() implies #[trigger] t[i] < n by {
            if i < s.len() {
                assert(t[i] == s[i]);
            }
        }
    }
}

/// The rows can be expanded, into slots below `m`.
pub open spec fn rows_expand_below(
    encoders: Encoders,
    matrix: EncodedMatrix,
    rows: Seq<u32>,
    m: nat,
) -> bool {
    forall|k: int|
        0 <= k < rows.len() ==> row_expands(encoders, matrix, #[trigger] rows[k] as int)
            && row_slots_below(encoders, matrix, rows[k] as int, m as int)
}

/// A linear leaf can be fit over the rows: they can be expanded, and a Newton system of their
/// slots and the intercept fits in memory.
pub open spec fn linear_fit_accepts(
    encoders: Encoders,
    matrix: EncodedMatrix,
    rows: Seq<u32>,
) -> bool {
    exists|m: nat| #[trigger]
        rows_expand_below(encoders, matrix, rows, m) && (m + 1) * (m + 1) <= usize::MAX
}

/// Valid encoders whose Newton system fits in memory take every row of a matrix that fits
/// them.
pub proof fn lemma_fitting_rows_accepted(
    encoders: Encoders,
    matrix: EncodedMatrix,
    rows: Seq<u32>,
)
    requires
        encoders.wf(),
        matrix.fits(encoders),
        rows_within(rows, matrix.n_rows as int),
        (encoders.basis_dim + 1) * (encoders.basis_dim + 1) <= usize::MAX,
    ensures
        linear_fit_accepts(encoders, matrix, rows),
{
    let m = encoders.basis_dim as nat;
    assert forall|k: int| 0 <= k < rows.len() implies row_expands(
        encoders,
        matrix,
        #[trigger] rows[k] as int,
    ) && row_slots_below(encoders, matrix, rows[k] as int, m as int) by {
        lemma_fitting_rows_expand(encoders, matrix, rows[k] as int);
        lemma_fitting_slots_below(encoders, matrix, rows[k] as int);
    }
    assert(rows_expand_below(encoders, matrix, rows, m));
}

/// The rows of a leaf in local slots.
fn localize_rows<A: Arith>(
    rows: &Vec<u32>,
    encoders: &Encoders,
    matrix: &EncodedMatrix,
) -> (r: (Vec<u32>, Vec<Vec<(usize, F64)>>))
    requires
        linear_fit_accepts(*encoders, *matrix, rows@),
    ensures
        exists|phis: Seq<Seq<(u32, F32)>>| #[trigger]
            are_row_bases::<A>(*encoders, *matrix, rows@, phis) && r.0@ == active_slots(phis)
                && rows_view(r.1@) == local_rows(phis),
        (r.0.len() + 1) * (r.0.len() + 1) <= usize::MAX,
        forall|i: int, j: int| 0 <= i < j < r.0.len() ==> #[trigger] r.0[i] != #[trigger] r.0[j],
        r.1.len() == rows.len(),
        forall|k: int|
            0 <= k < r.1.len() ==> entries_within((#[trigger] r.1[k])@, r.0@.len() as int + 1),
{
    let ghost bound = choose|m: nat| #[trigger]
        rows_expand_below(*encoders, *matrix, rows@, m) && (m + 1) * (m + 1) <= usize::MAX;
    let mut slots: HashMap<u32, usize> = HashMap::new();
    let mut active: Vec<u32> = Vec::new();
    let mut phi: Vec<(u32, F32)> = Vec::new();
    let mut local: Vec<Vec<(usize, F64)>> = Vec::with_capacity(rows.len());
    let ghost mut phis: Seq<Seq<(u32, F32)>> = Seq::empty();
    let mut k: usize = 0;
    while k < rows.len()
        invariant
            k <= rows.len(),
            rows_expand_below(*encoders, *matrix, rows@, bound),
            slots_hold(active@, slots@),
            phis.len() == k,
            local.len() == k,
            forall|i: int|
                0 <= i < k ==> is_row_basis::<A>(
                    *encoders,
                    *matrix,
                    rows[i] as int,
                    #[trigger] phis[i],
                ),
            active@ == active_slots(phis),
            forall|i: int| 0 <= i < active@.len() ==> #[trigger] active@[i] < bound,
            forall|i: int|
                0 <= i < k ==> is_local_of(active@, phis[i], (#[trigger] local[i])@),
        decreases rows.len() - k,
    {
        let r: usize = rows[k] as usize;
        proof {
            assert(row_expands(*encoders, *matrix, rows@[k as int] as int));
        }
        expand_row::<A>(encoders, matrix, r, &mut phi);
        let ghost before = active@;
        let ghost local_before = local@;
        let ghost phis_before = phis;
        let l = localize(&phi, &mut active, &mut slots);
        local.push(l);
        proof {
            lemma_row_basis_below::<A>(*encoders, *matrix, r as int, bound as int, phi@);
            lemma_with_slots_below(before, phi@, bound as int);
            phis = phis.push(phi@);
            assert(phis.drop_last() =~= phis_before);
            assert forall|i: int| 0 <= i < k + 1 implies is_local_of(
                active@,
                phis[i],
                (#[trigger] local[i])@,
            ) by {
                if i < k {
                    assert(local[i] == local_before[i]);
                    let li = local[i]@;
                    assert(is_local_of(before, phis_before[i], li));
                    assert forall|m: int| 0 <= m < li.len() implies 1 <= (#[trigger] li[m]).0
                        <= active@.len() && active@[li[m].0 - 1] == phis[i][m].0 && li[m].1
                        == phis[i][m].1.spec_widened() by {
                        assert(active@.take(before.len() as int)[li[m].0 - 1] == before[li[m].0
                            - 1]);
                    }
                }
            }
        }
        k = k + 1;
    }
    proof {
        assert(are_row_bases::<A>(*encoders, *matrix, rows@, phis));
        lemma_slots_bounded(active@, slots@, bound as int);
        let (x, y) = (active@.len() as int + 1, bound as int + 1);
        assert(x * x <= y * y) by (nonlinear_arith)
            requires
                1 <= x <= y,
        ;
        assert forall|i: int| 0 <= i < local.len() implies (#[trigger] local[i])@
            == local_rows(phis)[i] && entries_within(local[i]@, active@.len() as int + 1) by {
            lemma_local_row(active@, slots@, phis[i], local[i]@);
        }
        assert(rows_view(local@) =~= local_rows(phis));
        assert forall|i: int, j: int| 0 <= i < j < active.len() implies #[trigger] active[i]
            != #[trigger] active[j] by {
            assert(slots@[active@[i]] == i + 1);
            assert(slots@[active@[j]] == j + 1);
        }
    }
    (active, local)
}

/// The leaf with the fitted weights, slots sorted so the scorer can binary-search.
fn sorted_leaf<A: Arith>(active: &Vec<u32>, w: &Vec<F64>) -> (leaf: Leaf)
    requires
        w.len() == active.len() + 1,
        forall|i: int, j: int|
            0 <= i < j < active.len() ==> #[trigger] active[i] != #[trigger] active[j],
    ensures
        is_leaf_of::<A>(active@, w@, leaf),
{
    let mut keys: Vec<u128> = Vec::with_capacity(active.len());
    let mut i: usize = 0;
    while i < active.len()
        invariant
            i <= active.len(),
            keys.len() == i,
            forall|k: int| 0 <= k < i ==> #[trigger] keys[k] == active[k],
        decreases active.len() - i,
    {
        keys.push(active[i] as u128);
        i = i + 1;
    }
    let order = order_by_key(&keys);
    let mut idx: Vec<u32> = Vec::with_capacity(active.len());
    let mut wv: Vec<F32> = Vec::with_capacity(active.len());
    let mut k: usize = 0;
    while k < order.len()
        invariant
            k <= order.len(),
            order.len() == active.len(),
            w.len() == active.len() + 1,
            forall|i: int| 0 <= i < order.len() ==> #[trigger] order[i] < active.len(),
            idx.len() == k,
            wv.len() == k,
            forall|i: int| 0 <= i < k ==> #[trigger] idx[i] == active[order[i] as int],
            forall|i: int| 0 <= i < k ==> is_narrow::<A>(w[order[i] + 1], #[trigger] wv[i]),
        decreases order.len() - k,
    {
        let p: usize = order[k];
        idx.push(active[p]);
        wv.push(A::narrow(w[p + 1]));
        k = k + 1;
    }
    let leaf = Leaf { idx, w: wv, bias: A::narrow(w[0]) };
    proof {
        assert forall|i: int, j: int| 0 <= i < j < leaf.idx.len() implies #[trigger] leaf.idx[i]
            < #[trigger] leaf.idx[j] by {
            let (p, q) = (order[i] as int, order[j] as int);
            assert(crate::sort::before(keys@, p, q));
            assert(keys[p] == active[p] && keys[q] == active[q]);
            if p < q {
                assert(active[p] != active[q]);
            } else if q < p {
                assert(active[q] != active[p]);
            }
        }
        assert forall|k: int| 0 <= k < leaf.idx.len() implies active@.contains(
            #[trigger] leaf.idx[k],
        ) && is_narrow::<A>(w@[local_slot(active@, leaf.idx[k])], leaf.w[k]) by {
            let p = order[k] as int;
            assert(leaf.idx[k] == active@[p]);
            let q = active@.index_of(active@[p]);
            assert(active@.contains(active@[p]));
            assert(0 <= q < active@.len() && active@[q] == active@[p]);
            if p < q {
                assert(active[p] != active[q]);
            } else if q < p {
                assert(active[q] != active[p]);
            }
            assert(is_narrow::<A>(w[order[k] + 1], wv[k]));
        }
    }
    leaf
}

/// Newton steps from `w0`.
fn newton_fit<A: Arith>(
    q: &Problem,
    local: &Vec<Vec<(usize, F64)>>,
    rows: &Vec<u32>,
    labels: &Vec<u8>,
    weights: &Vec<F32>,
    w0: Vec<F64>,
    iters: usize,
) -> (w: Vec<F64>)
    requires
        q.d > 0,
        q.d * q.d <= usize::MAX,
        w0.len() == q.d,
        local.len() == rows.len(),
        rows_within(rows@, labels@.len() as int),
        rows_within(rows@, weights@.len() as int),
        forall|k: int| 0 <= k < local.len() ==> entries_within((#[trigger] local[k])@, q.d as int),
    ensures
        is_newton_fit::<A>(
            *q,
            rows_view(local@),
            rows@,
            labels@,
            weights@,
            w0@,
            iters as int,
            w@,
        ),
        w.len() == q.d,
{
    let ghost step = newton::<A>(*q, rows_view(local@), rows@, labels@, weights@);
    let ghost init = w0@;
    let mut w = w0;
    let mut it: usize = 0;
    proof {
        lemma_runs_start(init, step);
    }
    while it < iters
        invariant
            it <= iters,
            q.d > 0,
            q.d * q.d <= usize::MAX,
            w.len() == q.d,
            local.len() == rows.len(),
            rows_within(rows@, labels@.len() as int),
            rows_within(rows@, weights@.len() as int),
            forall|k: int|
                0 <= k < local.len() ==> entries_within((#[trigger] local[k])@, q.d as int),
            step == newton::<A>(*q, rows_view(local@), rows@, labels@, weights@),
            runs(init, it as nat, step, w@),
        ensures
            it == iters || it < iters && is_newton_end::<A>(
                *q,
                rows_view(local@),
                rows@,
                labels@,
                weights@,
                w@,
            ),
        decreases iters - it,
    {
        let (a, b) = newton_system::<A>(q, local, rows, labels, weights, &w);
        let ghost a0 = a.data@;
        proof {
            assert(is_newton_system::<A>(
                *q,
                rows_view(local@),
                rows@,
                labels@,
                weights@,
                w@,
                a0,
                b@,
            ));
        }
        let delta = match cholesky_solve::<A>(a, &b) {
            Some(delta) => delta,
            // Not positive definite: keep the current weights.
            None => {
                break ;
            },
        };
        let ghost before = w@;
        proof {
            let (l, y) = choose|l: Seq<F64>, y: Seq<F64>| #[trigger]
                crate::linalg::is_factor::<A>(a0, l, q.d as int, q.d as int)
                    && #[trigger] crate::linalg::solves_through::<A>(
                    l,
                    b@,
                    y,
                    delta@,
                    q.d as int,
                );
            assert(delta.len() == q.d);
        }
        let mut i: usize = 0;
        while i < w.len()
            invariant
                i <= w.len(),
                w.len() == before.len(),
                delta.len() == w.len(),
                forall|k: int| 0 <= k < i ==> is_diff::<A>(before[k], delta[k], #[trigger] w[k]),
                forall|k: int| i <= k < w.len() ==> #[trigger] w[k] == before[k],
            decreases w.len() - i,
        {
            let x = A::diff(w[i], delta[i]);
            w.set(i, x);
            i = i + 1;
        }
        proof {
            assert(are_stepped::<A>(before, delta@, w@));
            assert(is_newton_step::<A>(
                *q,
                rows_view(local@),
                rows@,
                labels@,
                weights@,
                before,
                w@,
            ));
            assert(step(it as int, before, w@));
            lemma_runs_next(init, it as nat, step, before, w@);
        }
        it = it + 1;
    }
    w
}

/// Fit one leaf over `rows` (indices into `matrix`). `s0` is the global base
/// score. Returns a [`Leaf`] with `idx` sorted ascending.
pub fn fit_leaf<A: Arith>(
    rows: &Vec<u32>,
    encoders: &Encoders,
    matrix: &EncodedMatrix,
    labels: &Vec<u8>,
    weights: &Vec<F32>,
    s0: F32,
    cfg: &Config,
) -> (leaf: Leaf)
    requires
        rows_within(rows@, labels@.len() as int),
        rows_within(rows@, weights@.len() as int),
        cfg.leaf_model is Linear ==> linear_fit_accepts(*encoders, *matrix, rows@),
    ensures
        is_leaf_fit::<A>(
            rows@,
            *encoders,
            *matrix,
            labels@,
            weights@,
            s0,
            *cfg,
            leaf,
        ),
        leaf.wf(),
{
    // Leaf base-rate log-odds → initial bias (relative to s0).
    let init_bias = initial_bias::<A>(rows, labels, weights, s0);
    match cfg.leaf_model {
        LeafKind::Constant => {
            let leaf = Leaf { idx: Vec::new(), w: Vec::new(), bias: A::narrow(init_bias) };
            proof {
                assert(is_initial_bias::<A>(rows@, labels@, weights@, s0, init_bias));
                assert(leaf.idx@ =~= Seq::<u32>::empty());
                assert(leaf.w@ =~= Seq::<F32>::empty());
            }
            leaf
        },
        LeafKind::Linear => {
            // The active basis indices over the leaf and each row's sparse basis in local
            // slots (slot 0 is the intercept).
            let (active, local) = localize_rows::<A>(rows, encoders, matrix);
            let ghost phis = choose|phis: Seq<Seq<(u32, F32)>>| #[trigger]
                are_row_bases::<A>(*encoders, *matrix, rows@, phis) && active@ == active_slots(
                    phis,
                ) && rows_view(local@) == local_rows(phis);
            proof {
                let x = active@.len() as int + 1;
                assert(x <= x * x) by (nonlinear_arith)
                    requires
                        1 <= x,
                ;
            }
            let d: usize = active.len() + 1;
            let q = Problem { d, s0, lam: cfg.lambda.widened() };
            let mut w0: Vec<F64> = zero_vec(d);
            w0.set(0, init_bias);
            proof {
                assert(w0@ =~= first_weights(d as int, init_bias));
            }
            let w = newton_fit::<A>(&q, &local, rows, labels, weights, w0, cfg.irls_iters);
            let leaf = sorted_leaf::<A>(&active, &w);
            proof {
                assert(is_initial_bias::<A>(rows@, labels@, weights@, s0, init_bias));
                assert(is_linear_fit::<A>(
                    rows@,
                    *encoders,
                    *matrix,
                    labels@,
                    weights@,
                    s0,
                    *cfg,
                    init_bias,
                    leaf,
                ));
            }
            leaf
        },
    }
}

/// A linear leaf starts at its base rate: before the first Newton step its bias is that of
/// the constant leaf, and all its weights are zero, as far as narrowing keeps zero.
pub proof fn lemma_linear_leaf_starts_at_base_rate<A: Arith>(
    rows: Seq<u32>,
    encoders: Encoders,
    matrix: EncodedMatrix,
    labels: Seq<u8>,
    weights: Seq<F32>,
    s0: F32,
    cfg: Config,
    bias: F64,
    leaf: Leaf,
)
    requires
        is_linear_fit::<A>(rows, encoders, matrix, labels, weights, s0, cfg, bias, leaf),
        cfg.irls_iters == 0,
    ensures
        is_narrow::<A>(bias, leaf.bias),
        forall|k: int| 0 <= k < leaf.w.len() ==> is_narrow::<A>(F64::zero(), #[trigger] leaf.w[k]),
{
    let (phis, w) = choose|phis: Seq<Seq<(u32, F32)>>, w: Seq<F64>| #[trigger]
        are_row_bases::<A>(encoders, matrix, rows, phis) && #[trigger] is_newton_fit::<A>(
            Problem {
                d: (active_slots(phis).len() + 1) as usize,
                s0,
                lam: cfg.lambda.spec_widened(),
            },
            local_rows(phis),
            rows,
            labels,
            weights,
            first_weights(active_slots(phis).len() as int + 1, bias),
            cfg.irls_iters as int,
            w,
        ) && is_leaf_of::<A>(active_slots(phis), w, leaf);
    let active = active_slots(phis);
    let w0 = first_weights(active.len() as int + 1, bias);
    let q = Problem {
        d: (active.len() + 1) as usize,
        s0,
        lam: cfg.lambda.spec_widened(),
    };
    let step = newton::<A>(q, local_rows(phis), rows, labels, weights);
    let n = choose|n: nat| #[trigger]
        runs(w0, n, step, w) && (n == 0 || n < 0 && is_newton_end::<A>(
            q,
            local_rows(phis),
            rows,
            labels,
            weights,
            w,
        ));
    let tr = choose|tr: Seq<Seq<F64>>| #[trigger]
        crate::arith::is_trace(w0, n, step, tr) && tr[n as int] == w;
    assert(w == w0);
    assert forall|k: int| 0 <= k < leaf.w.len() implies is_narrow::<A>(
        F64::zero(),
        #[trigger] leaf.w[k],
    ) by {
        assert(active.contains(leaf.idx[k]));
        let p = active.index_of(leaf.idx[k]);
        assert(0 <= p < active.len());
        assert(w[local_slot(active, leaf.idx[k])] == F64::zero());
    }
}

} // verus!
