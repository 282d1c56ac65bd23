//! With deterministic arithmetic a leaf fit has one outcome.

use vstd::prelude::*;
use crate::arith::{
    deterministic, folds, is_diff, is_exp, is_ln, is_log_odds, is_logistic, is_narrow, is_prod,
    is_prod32, is_quot, is_sum, is_sum32, is_trace, item_step, lemma_folds_last, lemma_folds_unique,
    lemma_run_passes, lemma_runs_unique, runs, Arith,
};
use crate::encoding::{
    are_row_parts, is_feature_basis, is_label_added, is_row_basis, layout_start, EncCol,
    EncodedMatrix, Encoders, FeatureEncoder,
};
use crate::float::{F32, F64};
use crate::infer::{lemma_highcard_basis_unique, lemma_numeric_basis_unique};
use crate::leaf_model::{
    active_slots, add_entry, add_pair, add_ridge, add_row_label, add_row_weight, add_sample,
    add_term, are_derivatives, are_row_bases, are_stepped, first_weights, is_base_rate,
    is_cell_added, is_entry_added, is_initial_bias, is_leaf_fit, is_leaf_of, is_linear_fit,
    is_newton_end, is_newton_fit, is_newton_step, is_newton_system, is_pair_added, is_ridge_added,
    is_row_stat, is_sample_added, is_score, is_slot_added, is_term_added,
    lemma_linear_leaf_starts_at_base_rate, local_rows, newton, slots_ascend, with_slots, zeros,
    Leaf, Problem,
};
use crate::linalg::{is_rejected, is_solution, lemma_solution_unique, lemma_solved_or_rejected};
use crate::{Config, LeafKind};

verus! {

/// With deterministic arithmetic a row has one sparse basis.
pub(crate) proof fn lemma_row_basis_unique<A: Arith>(
    encoders: Encoders,
    matrix: EncodedMatrix,
    row: int,
    a: Seq<(u32, F32)>,
    b: Seq<(u32, F32)>,
)
    requires
        deterministic::<A>(),
        encoders.wf(),
        is_row_basis::<A>(encoders, matrix, row, a),
        is_row_basis::<A>(encoders, matrix, row, b),
    ensures
        a == b,
{
    let p = choose|parts: Seq<Seq<(u32, F32)>>| #[trigger]
        are_row_parts::<A>(encoders.features@, matrix.cols@, row, parts) && a == parts.flatten();
    let q = choose|parts: Seq<Seq<(u32, F32)>>| #[trigger]
        are_row_parts::<A>(encoders.features@, matrix.cols@, row, parts) && b == parts.flatten();
    assert forall|i: int| 0 <= i < p.len() implies p[i] == q[i] by {
        let (fe, col) = (encoders.features[i], matrix.cols[i]);
        assert(fe.wf_at(layout_start(encoders.features@, i)));
        assert(is_feature_basis::<A>(fe, col, row, p[i]));
        assert(is_feature_basis::<A>(fe, col, row, q[i]));
        match (fe, col) {
            (FeatureEncoder::Numeric(f), EncCol::Num(v)) => {
                lemma_numeric_basis_unique::<A>(
                    f.knots@,
                    f.basis_off as int,
                    v[row],
                    p[i],
                    q[i],
                );
            },
            (FeatureEncoder::HighCard(f), EncCol::HighCard { enc, cnt }) => {
                lemma_highcard_basis_unique::<A>(f, enc[row], cnt[row], cnt[row], p[i], q[i]);
            },
            _ => {},
        }
    }
    assert(p =~= q);
}

proof fn lemma_logistic_unique<A: Arith>(x: F64, p: F64, q: F64)
    requires
        deterministic::<A>(),
        is_logistic::<A>(x, p),
        is_logistic::<A>(x, q),
    ensures
        p == q,
{
    let (e1, d1) = choose|e: F64, d: F64| #[trigger]
        is_exp::<A>(x.spec_negated(), e) && #[trigger] is_sum::<A>(F64::one(), e, d) && is_quot::<
            A,
        >(F64::one(), d, p);
    let (e2, d2) = choose|e: F64, d: F64| #[trigger]
        is_exp::<A>(x.spec_negated(), e) && #[trigger] is_sum::<A>(F64::one(), e, d) && is_quot::<
            A,
        >(F64::one(), d, q);
    assert(e1 == e2);
    assert(d1 == d2);
}

proof fn lemma_row_stat_unique<A: Arith>(
    s0: F32,
    w: Seq<F64>,
    e: Seq<(usize, F64)>,
    label: u8,
    weight: F32,
    g1: F64,
    h1: F64,
    g2: F64,
    h2: F64,
)
    requires
        deterministic::<A>(),
        is_row_stat::<A>(s0, w, e, label, weight, g1, h1),
        is_row_stat::<A>(s0, w, e, label, weight, g2, h2),
    ensures
        g1 == g2,
        h1 == h2,
{
    let (s1, p1) = choose|s: F64, p: F64| #[trigger]
        is_score::<A>(s0, w, e, s) && #[trigger] is_logistic::<A>(s, p) && are_derivatives::<A>(
            p,
            label,
            weight,
            g1,
            h1,
        );
    let (s2, p2) = choose|s: F64, p: F64| #[trigger]
        is_score::<A>(s0, w, e, s) && #[trigger] is_logistic::<A>(s, p) && are_derivatives::<A>(
            p,
            label,
            weight,
            g2,
            h2,
        );
    let step = add_term::<A>(w);
    let i1 = choose|init: F64| #[trigger]
        is_sum::<A>(s0.spec_widened(), w[0], init) && folds(init, e, step, s1);
    let i2 = choose|init: F64| #[trigger]
        is_sum::<A>(s0.spec_widened(), w[0], init) && folds(init, e, step, s2);
    assert(i1 == i2);
    assert forall|x: (usize, F64), a: F64, b: F64, c: F64| #[trigger]
        step(x, a, b) && #[trigger] step(x, a, c) implies b == c by {
        assert(is_term_added::<A>(w[x.0 as int], x.1, a, b));
        assert(is_term_added::<A>(w[x.0 as int], x.1, a, c));
    }
    lemma_folds_unique(i1, e, step, s1, s2);
    lemma_logistic_unique::<A>(s1, p1, p2);
}

proof fn lemma_entry_unique<A: Arith>(
    d: int,
    gi: F64,
    hi: F64,
    e: Seq<(usize, F64)>,
    x: (usize, F64),
    s: (Seq<F64>, Seq<F64>),
    t: (Seq<F64>, Seq<F64>),
    u: (Seq<F64>, Seq<F64>),
)
    requires
        deterministic::<A>(),
        is_entry_added::<A>(d, gi, hi, e, x, s, t),
        is_entry_added::<A>(d, gi, hi, e, x, s, u),
    ensures
        t == u,
{
    let (hx, gx, a1, a2) = choose|hx: F64, gx: F64, a1: Seq<F64>, a2: Seq<F64>| #[trigger]
        is_prod::<A>(hi, x.1, hx) && #[trigger] is_prod::<A>(gi, x.1, gx)
            && #[trigger] is_cell_added::<A>(d, x.0 as int, 0, hx, s.0, a1)
            && #[trigger] is_cell_added::<A>(d, 0, x.0 as int, hx, a1, a2) && folds(
            a2,
            e,
            add_pair::<A>(d, x.0 as int, hx),
            t.0,
        ) && is_slot_added::<A>(x.0 as int, gx, s.1, t.1);
    let (hy, gy, b1, b2) = choose|hx: F64, gx: F64, a1: Seq<F64>, a2: Seq<F64>| #[trigger]
        is_prod::<A>(hi, x.1, hx) && #[trigger] is_prod::<A>(gi, x.1, gx)
            && #[trigger] is_cell_added::<A>(d, x.0 as int, 0, hx, s.0, a1)
            && #[trigger] is_cell_added::<A>(d, 0, x.0 as int, hx, a1, a2) && folds(
            a2,
            e,
            add_pair::<A>(d, x.0 as int, hx),
            u.0,
        ) && is_slot_added::<A>(x.0 as int, gx, s.1, u.1);
    assert(hx == hy && gx == gy);
    assert(a1 == b1);
    assert(a2 == b2);
    let step = add_pair::<A>(d, x.0 as int, hx);
    assert forall|y: (usize, F64), a: Seq<F64>, b: Seq<F64>, c: Seq<F64>| #[trigger]
        step(y, a, b) && #[trigger] step(y, a, c) implies b == c by {
        assert(is_pair_added::<A>(d, x.0 as int, hx, y, a, b));
        assert(is_pair_added::<A>(d, x.0 as int, hx, y, a, c));
    }
    lemma_folds_unique(a2, e, step, t.0, u.0);
}

proof fn lemma_sample_unique<A: Arith>(
    d: int,
    s0: F32,
    w: Seq<F64>,
    e: Seq<(usize, F64)>,
    label: u8,
    weight: F32,
    s: (Seq<F64>, Seq<F64>),
    t: (Seq<F64>, Seq<F64>),
    u: (Seq<F64>, Seq<F64>),
)
    requires
        deterministic::<A>(),
        is_sample_added::<A>(d, s0, w, e, label, weight, s, t),
        is_sample_added::<A>(d, s0, w, e, label, weight, s, u),
    ensures
        t == u,
{
    let (gi, hi, a0, b0) = choose|gi: F64, hi: F64, a0: Seq<F64>, b0: Seq<F64>| #[trigger]
        is_row_stat::<A>(s0, w, e, label, weight, gi, hi) && #[trigger] is_cell_added::<A>(
            d,
            0,
            0,
            hi,
            s.0,
            a0,
        ) && #[trigger] is_slot_added::<A>(0, gi, s.1, b0) && folds(
            (a0, b0),
            e,
            add_entry::<A>(d, gi, hi, e),
            t,
        );
    let (gj, hj, c0, d0) = choose|gi: F64, hi: F64, a0: Seq<F64>, b0: Seq<F64>| #[trigger]
        is_row_stat::<A>(s0, w, e, label, weight, gi, hi) && #[trigger] is_cell_added::<A>(
            d,
            0,
            0,
            hi,
            s.0,
            a0,
        ) && #[trigger] is_slot_added::<A>(0, gi, s.1, b0) && folds(
            (a0, b0),
            e,
            add_entry::<A>(d, gi, hi, e),
            u,
        );
    lemma_row_stat_unique::<A>(s0, w, e, label, weight, gi, hi, gj, hj);
    assert(a0 == c0);
    assert(b0 == d0);
    let step = add_entry::<A>(d, gi, hi, e);
    assert forall|
        x: (usize, F64),
        a: (Seq<F64>, Seq<F64>),
        b: (Seq<F64>, Seq<F64>),
        c: (Seq<F64>, Seq<F64>),
    | #[trigger]
        step(x, a, b) && #[trigger] step(x, a, c) implies b == c by {
        lemma_entry_unique::<A>(d, gi, hi, e, x, a, b, c);
    }
    lemma_folds_unique((a0, b0), e, step, t, u);
}

proof fn lemma_system_unique<A: Arith>(
    q: Problem,
    local: Seq<Seq<(usize, F64)>>,
    rows: Seq<u32>,
    labels: Seq<u8>,
    weights: Seq<F32>,
    w: Seq<F64>,
    a: Seq<F64>,
    b: Seq<F64>,
    c: Seq<F64>,
    d: Seq<F64>,
)
    requires
        deterministic::<A>(),
        is_newton_system::<A>(q, local, rows, labels, weights, w, a, b),
        is_newton_system::<A>(q, local, rows, labels, weights, w, c, d),
    ensures
        a == c,
        b == d,
{
    let start = (zeros(q.d * q.d), zeros(q.d as int));
    let sample = add_sample::<A>(q.d as int, q.s0, w, local, rows, labels, weights);
    let ridge = add_ridge::<A>(q.d as int, q.lam, w);
    let n = (q.d - 1) as nat;
    let s = choose|st: (Seq<F64>, Seq<F64>)| #[trigger]
        runs(start, rows.len(), sample, st) && runs(st, n, ridge, (a, b));
    let t = choose|st: (Seq<F64>, Seq<F64>)| #[trigger]
        runs(start, rows.len(), sample, st) && runs(st, n, ridge, (c, d));
    assert forall|
        k: int,
        x: (Seq<F64>, Seq<F64>),
        y: (Seq<F64>, Seq<F64>),
        z: (Seq<F64>, Seq<F64>),
    |
        0 <= k < rows.len() && #[trigger] sample(k, x, y) && #[trigger] sample(k, x, z) implies y == z by {
        lemma_sample_unique::<A>(
            q.d as int,
            q.s0,
            w,
            local[k],
            labels[rows[k] as int],
            weights[rows[k] as int],
            x,
            y,
            z,
        );
    }
    lemma_runs_unique(start, rows.len(), sample, s, t);
    assert forall|
        k: int,
        x: (Seq<F64>, Seq<F64>),
        y: (Seq<F64>, Seq<F64>),
        z: (Seq<F64>, Seq<F64>),
    |
        0 <= k < n && #[trigger] ridge(k, x, y) && #[trigger] ridge(k, x, z) implies y == z by {
        assert(is_ridge_added::<A>(q.d as int, q.lam, w, k + 1, x, y));
        assert(is_ridge_added::<A>(q.d as int, q.lam, w, k + 1, x, z));
        assert(y.0 =~= z.0 && y.1 =~= z.1);
    }
    lemma_runs_unique(s, n, ridge, (a, b), (c, d));
}

proof fn lemma_step_unique<A: Arith>(
    q: Problem,
    local: Seq<Seq<(usize, F64)>>,
    rows: Seq<u32>,
    labels: Seq<u8>,
    weights: Seq<F32>,
    w: Seq<F64>,
    x: Seq<F64>,
    y: Seq<F64>,
)
    requires
        deterministic::<A>(),
        is_newton_step::<A>(q, local, rows, labels, weights, w, x),
    ensures
        is_newton_step::<A>(q, local, rows, labels, weights, w, y) ==> x == y,
        !is_newton_end::<A>(q, local, rows, labels, weights, w),
{
    let (a, b, e) = choose|a: Seq<F64>, b: Seq<F64>, delta: Seq<F64>| #[trigger]
        is_newton_system::<A>(q, local, rows, labels, weights, w, a, b)
            && #[trigger] is_solution::<A>(a, b, q.d as int, delta) && are_stepped::<A>(
            w,
            delta,
            x,
        );
    if is_newton_step::<A>(q, local, rows, labels, weights, w, y) {
        let (c, d, f) = choose|a: Seq<F64>, b: Seq<F64>, delta: Seq<F64>| #[trigger]
            is_newton_system::<A>(q, local, rows, labels, weights, w, a, b)
                && #[trigger] is_solution::<A>(a, b, q.d as int, delta) && are_stepped::<A>(
                w,
                delta,
                y,
            );
        lemma_system_unique::<A>(q, local, rows, labels, weights, w, a, b, c, d);
        lemma_solution_unique::<A>(a, b, q.d as int, e, f);
        assert forall|i: int| 0 <= i < w.len() implies x[i] == y[i] by {
            assert(is_diff::<A>(w[i], e[i], x[i]));
            assert(is_diff::<A>(w[i], e[i], y[i]));
        }
        assert(x =~= y);
    }
    if is_newton_end::<A>(q, local, rows, labels, weights, w) {
        let (c, d) = choose|a: Seq<F64>, b: Seq<F64>| #[trigger]
            is_newton_system::<A>(q, local, rows, labels, weights, w, a, b) && is_rejected::<A>(
                a,
                q.d as int,
            );
        lemma_system_unique::<A>(q, local, rows, labels, weights, w, a, b, c, d);
        lemma_solved_or_rejected::<A>(a, b, q.d as int, e);
    }
}

proof fn lemma_fit_not_longer<A: Arith>(
    q: Problem,
    local: Seq<Seq<(usize, F64)>>,
    rows: Seq<u32>,
    labels: Seq<u8>,
    weights: Seq<F32>,
    w0: Seq<F64>,
    m: nat,
    x: Seq<F64>,
    n: nat,
    y: Seq<F64>,
)
    requires
        deterministic::<A>(),
        runs(w0, m, newton::<A>(q, local, rows, labels, weights), x),
        runs(w0, n, newton::<A>(q, local, rows, labels, weights), y),
        is_newton_end::<A>(q, local, rows, labels, weights, x),
    ensures
        n <= m,
{
    let step = newton::<A>(q, local, rows, labels, weights);
    if m < n {
        let p = lemma_run_passes(w0, m, n, step, y);
        assert forall|i: int, a: Seq<F64>, b: Seq<F64>, c: Seq<F64>|
            0 <= i < m && #[trigger] step(i, a, b) && #[trigger] step(i, a, c) implies b == c by {
            lemma_step_unique::<A>(q, local, rows, labels, weights, a, b, c);
        }
        lemma_runs_unique(w0, m, step, x, p.0);
        lemma_step_unique::<A>(q, local, rows, labels, weights, p.0, p.1, p.1);
    }
}

proof fn lemma_newton_fit_unique<A: Arith>(
    q: Problem,
    local: Seq<Seq<(usize, F64)>>,
    rows: Seq<u32>,
    labels: Seq<u8>,
    weights: Seq<F32>,
    w0: Seq<F64>,
    iters: int,
    x: Seq<F64>,
    y: Seq<F64>,
)
    requires
        deterministic::<A>(),
        is_newton_fit::<A>(q, local, rows, labels, weights, w0, iters, x),
        is_newton_fit::<A>(q, local, rows, labels, weights, w0, iters, y),
    ensures
        x == y,
{
    let step = newton::<A>(q, local, rows, labels, weights);
    let m = choose|n: nat| #[trigger]
        runs(w0, n, step, x) && (n == iters || n < iters && is_newton_end::<A>(
            q,
            local,
            rows,
            labels,
            weights,
            x,
        ));
    let n = choose|n: nat| #[trigger]
        runs(w0, n, step, y) && (n == iters || n < iters && is_newton_end::<A>(
            q,
            local,
            rows,
            labels,
            weights,
            y,
        ));
    if m < n {
        lemma_fit_not_longer::<A>(q, local, rows, labels, weights, w0, m, x, n, y);
    }
    if n < m {
        lemma_fit_not_longer::<A>(q, local, rows, labels, weights, w0, n, y, m, x);
    }
    assert forall|i: int, a: Seq<F64>, b: Seq<F64>, c: Seq<F64>|
        0 <= i < m && #[trigger] step(i, a, b) && #[trigger] step(i, a, c) implies b == c by {
        lemma_step_unique::<A>(q, local, rows, labels, weights, a, b, c);
    }
    lemma_runs_unique(w0, m, step, x, y);
}

proof fn lemma_initial_bias_unique<A: Arith>(
    rows: Seq<u32>,
    labels: Seq<u8>,
    weights: Seq<F32>,
    s0: F32,
    x: F64,
    y: F64,
)
    requires
        deterministic::<A>(),
        is_initial_bias::<A>(rows, labels, weights, s0, x),
        is_initial_bias::<A>(rows, labels, weights, s0, y),
    ensures
        x == y,
{
    let (f, g) = (add_row_label::<A>(labels, weights), add_row_weight::<A>(weights));
    let zero = F64::zero();
    let (wy, ws, p, l) = choose|wy: F64, wsum: F64, rate: F64, l: F64| #[trigger]
        folds(zero, rows, f, wy) && #[trigger] folds(zero, rows, g, wsum)
            && #[trigger] is_base_rate::<A>(wy, wsum, rate) && #[trigger] is_log_odds::<A>(rate, l)
            && is_diff::<A>(l, s0.spec_widened(), x);
    let (vy, vs, q, k) = choose|wy: F64, wsum: F64, rate: F64, l: F64| #[trigger]
        folds(zero, rows, f, wy) && #[trigger] folds(zero, rows, g, wsum)
            && #[trigger] is_base_rate::<A>(wy, wsum, rate) && #[trigger] is_log_odds::<A>(rate, l)
            && is_diff::<A>(l, s0.spec_widened(), y);
    assert forall|r: u32, a: F64, b: F64, c: F64| #[trigger]
        f(r, a, b) && #[trigger] f(r, a, c) implies b == c by {
        assert(is_label_added::<A>(labels[r as int], weights[r as int], a, b));
        assert(is_label_added::<A>(labels[r as int], weights[r as int], a, c));
    }
    lemma_folds_unique(zero, rows, f, wy, vy);
    assert forall|r: u32, a: F64, b: F64, c: F64| #[trigger]
        g(r, a, b) && #[trigger] g(r, a, c) implies b == c by {
        assert(is_sum::<A>(a, weights[r as int].spec_widened(), b));
        assert(is_sum::<A>(a, weights[r as int].spec_widened(), c));
    }
    lemma_folds_unique(zero, rows, g, ws, vs);
    assert(p == q);
    assert(l == k) by {
        let (d1, q1) = choose|d: F64, q: F64| #[trigger]
            is_diff::<A>(F64::one(), p, d) && #[trigger] is_quot::<A>(p, d, q) && is_ln::<A>(q, l);
        let (d2, q2) = choose|d: F64, q: F64| #[trigger]
            is_diff::<A>(F64::one(), p, d) && #[trigger] is_quot::<A>(p, d, q) && is_ln::<A>(q, k);
        assert(d1 == d2);
        assert(q1 == q2);
    }
}

/// Two lists of slots in ascending order that hold the same are the same.
proof fn lemma_ascending_same(a: Seq<u32>, b: Seq<u32>)
    requires
        slots_ascend(a),
        slots_ascend(b),
        a.len() == b.len(),
        forall|i: int| 0 <= i < a.len() ==> b.contains(#[trigger] a[i]),
        forall|i: int| 0 <= i < b.len() ==> a.contains(#[trigger] b[i]),
    ensures
        a == b,
    decreases a.len(),
{
    if a.len() > 0 {
        let n = a.len() as int - 1;
        let (x, y) = (a[n], b[n]);
        assert(b.contains(a[n]) && a.contains(b[n]));
        let i = choose|i: int| 0 <= i < b.len() && b[i] == x;
        let j = choose|j: int| 0 <= j < a.len() && a[j] == y;
        if i < n {
            assert(b[i] < b[n]);
        }
        if j < n {
            assert(a[j] < a[n]);
        }
        assert(x == y);
        let (p, q) = (a.drop_last(), b.drop_last());
        assert forall|k: int| 0 <= k < p.len() implies q.contains(#[trigger] p[k]) by {
            assert(p[k] == a[k] && a[k] < a[n]);
            let m = choose|m: int| 0 <= m < b.len() && b[m] == a[k];
            assert(q[m] == p[k]);
        }
        assert forall|k: int| 0 <= k < q.len() implies p.contains(#[trigger] q[k]) by {
            assert(q[k] == b[k] && b[k] < b[n]);
            let m = choose|m: int| 0 <= m < a.len() && a[m] == b[k];
            assert(p[m] == q[k]);
        }
        lemma_ascending_same(p, q);
        assert(a =~= p.push(x));
        assert(b =~= q.push(y));
    }
}

/// As many slots in ascending order as there are different ones are all of them.
proof fn lemma_ascending_covers(idx: Seq<u32>, active: Seq<u32>, i: int)
    requires
        slots_ascend(idx),
        idx.len() == active.len(),
        active.no_duplicates(),
        forall|k: int| 0 <= k < idx.len() ==> active.contains(#[trigger] idx[k]),
        0 <= i < active.len(),
    ensures
        idx.contains(active[i]),
{
    assert(idx.no_duplicates());
    idx.unique_seq_to_set();
    active.unique_seq_to_set();
    assert forall|x: u32| idx.to_set().contains(x) implies active.to_set().contains(x) by {
        let k = choose|k: int| 0 <= k < idx.len() && idx[k] == x;
        assert(active.contains(idx[k]));
    }
    vstd::set_lib::lemma_subset_equality(idx.to_set(), active.to_set());
    assert(active.to_set().contains(active[i]));
}

proof fn lemma_with_slots_distinct(seen: Seq<u32>, e: Seq<(u32, F32)>)
    requires
        seen.no_duplicates(),
    ensures
        with_slots(seen, e).no_duplicates(),
    decreases e.len(),
{
    if e.len() > 0 {
        lemma_with_slots_distinct(seen, e.drop_last());
    }
}

proof fn lemma_active_distinct(phis: Seq<Seq<(u32, F32)>>)
    ensures
        active_slots(phis).no_duplicates(),
    decreases phis.len(),
{
    if phis.len() > 0 {
        lemma_active_distinct(phis.drop_last());
        lemma_with_slots_distinct(active_slots(phis.drop_last()), phis.last());
    }
}

proof fn lemma_leaf_of_unique<A: Arith>(active: Seq<u32>, w: Seq<F64>, a: Leaf, b: Leaf)
    requires
        deterministic::<A>(),
        active.no_duplicates(),
        is_leaf_of::<A>(active, w, a),
        is_leaf_of::<A>(active, w, b),
    ensures
        same_leaf(a, b),
{
    assert forall|i: int| 0 <= i < a.idx.len() implies b.idx@.contains(#[trigger] a.idx@[i]) by {
        assert(active.contains(a.idx[i]));
        let k = choose|k: int| 0 <= k < active.len() && active[k] == a.idx[i];
        lemma_ascending_covers(b.idx@, active, k);
    }
    assert forall|i: int| 0 <= i < b.idx.len() implies a.idx@.contains(#[trigger] b.idx@[i]) by {
        assert(active.contains(b.idx[i]));
        let k = choose|k: int| 0 <= k < active.len() && active[k] == b.idx[i];
        lemma_ascending_covers(a.idx@, active, k);
    }
    lemma_ascending_same(a.idx@, b.idx@);
    assert forall|k: int| 0 <= k < a.w.len() implies a.w@[k] == b.w@[k] by {
        assert(active.contains(a.idx[k]) && active.contains(b.idx[k]));
    }
    assert(a.w@ =~= b.w@);
}

/// Two leaves hold the same slots, weights and bias.
pub open spec fn same_leaf(a: Leaf, b: Leaf) -> bool {
    &&& a.idx@ == b.idx@
    &&& a.w@ == b.w@
    &&& a.bias == b.bias
}

/// A leaf fit is deterministic: where the arithmetic is, the same rows give the same leaf.
pub proof fn lemma_leaf_fit_is_reproducible<A: Arith>(
    rows: Seq<u32>,
    encoders: Encoders,
    matrix: EncodedMatrix,
    labels: Seq<u8>,
    weights: Seq<F32>,
    s0: F32,
    cfg: Config,
    a: Leaf,
    b: Leaf,
)
    requires
        deterministic::<A>(),
        encoders.wf(),
        is_leaf_fit::<A>(rows, encoders, matrix, labels, weights, s0, cfg, a),
        is_leaf_fit::<A>(rows, encoders, matrix, labels, weights, s0, cfg, b),
    ensures
        same_leaf(a, b),
{
    let x = choose|bias: F64| #[trigger]
        is_initial_bias::<A>(rows, labels, weights, s0, bias) && match cfg.leaf_model {
            LeafKind::Constant => a.idx@ == Seq::<u32>::empty() && a.w@ == Seq::<F32>::empty()
                && is_narrow::<A>(bias, a.bias),
            LeafKind::Linear => is_linear_fit::<A>(
                rows,
                encoders,
                matrix,
                labels,
                weights,
                s0,
                cfg,
                bias,
                a,
            ),
        };
    let y = choose|bias: F64| #[trigger]
        is_initial_bias::<A>(rows, labels, weights, s0, bias) && match cfg.leaf_model {
            LeafKind::Constant => b.idx@ == Seq::<u32>::empty() && b.w@ == Seq::<F32>::empty()
                && is_narrow::<A>(bias, b.bias),
            LeafKind::Linear => is_linear_fit::<A>(
                rows,
                encoders,
                matrix,
                labels,
                weights,
                s0,
                cfg,
                bias,
                b,
            ),
        };
    lemma_initial_bias_unique::<A>(rows, labels, weights, s0, x, y);
    if cfg.leaf_model is Linear {
        let (p, v) = lemma_linear_fit_parts::<A>(
            rows,
            encoders,
            matrix,
            labels,
            weights,
            s0,
            cfg,
            x,
            a,
        );
        let (q, w) = lemma_linear_fit_parts::<A>(
            rows,
            encoders,
            matrix,
            labels,
            weights,
            s0,
            cfg,
            x,
            b,
        );
        assert forall|k: int| 0 <= k < p.len() implies p[k] == q[k] by {
            lemma_row_basis_unique::<A>(encoders, matrix, rows[k] as int, p[k], q[k]);
        }
        assert(p =~= q);
        let active = active_slots(p);
        lemma_newton_fit_unique::<A>(
            Problem { d: (active.len() + 1) as usize, s0, lam: cfg.lambda.spec_widened() },
            local_rows(p),
            rows,
            labels,
            weights,
            first_weights(active.len() as int + 1, x),
            cfg.irls_iters as int,
            v,
            w,
        );
        lemma_active_distinct(p);
        lemma_leaf_of_unique::<A>(active, v, a, b);
    }
}

/// The sparse bases and the weights behind a linear leaf.
pub(crate) proof fn lemma_linear_fit_parts<A: Arith>(
    rows: Seq<u32>,
    encoders: Encoders,
    matrix: EncodedMatrix,
    labels: Seq<u8>,
    weights: Seq<F32>,
    s0: F32,
    cfg: Config,
    bias: F64,
    leaf: Leaf,
) -> (r: (Seq<Seq<(u32, F32)>>, Seq<F64>))
    requires
        is_linear_fit::<A>(rows, encoders, matrix, labels, weights, s0, cfg, bias, leaf),
    ensures
        are_row_bases::<A>(encoders, matrix, rows, r.0),
        is_newton_fit::<A>(
            Problem {
                d: (active_slots(r.0).len() + 1) as usize,
                s0,
                lam: cfg.lambda.spec_widened(),
            },
            local_rows(r.0),
            rows,
            labels,
            weights,
            first_weights(active_slots(r.0).len() as int + 1, bias),
            cfg.irls_iters as int,
            r.1,
        ),
        is_leaf_of::<A>(active_slots(r.0), r.1, leaf),
{
    let (phis, w) = choose|phis: Seq<Seq<(u32, F32)>>, w: Seq<F64>| #[trigger]
        are_row_bases::<A>(encoders, matrix, rows, phis) && #[trigger] is_newton_fit::<A>(
            Problem {
                d: (active_slots(phis).len() + 1) as usize,
                s0,
                lam: cfg.lambda.spec_widened(),
            },
            local_rows(phis),
            rows,
            labels,
            weights,
            first_weights(active_slots(phis).len() as int + 1, bias),
            cfg.irls_iters as int,
            w,
        ) && is_leaf_of::<A>(active_slots(phis), w, leaf);
    (phis, w)
}

/// Arithmetic that handles zero as it is: narrowing keeps it, it makes every finite number
/// zero that it multiplies, and adding it changes nothing.
pub open spec fn respects_zero<A: Arith>() -> bool {
    &&& forall|r: F32| #[trigger] is_narrow::<A>(F64::zero(), r) ==> r == F32::zero()
    &&& forall|x: F32, p: F32| #[trigger]
        is_prod32::<A>(F32::zero(), x, p) && x.spec_is_finite() ==> p.same(F32::zero())
    &&& forall|a: F32, z: F32, s: F32| #[trigger]
        is_sum32::<A>(a, z, s) && z.same(F32::zero()) && !a.spec_is_nan() ==> s.same(a)
}

proof fn lemma_zero_weights_score<A: Arith>(leaf: Leaf, phi: Seq<(u32, F32)>, r: F32)
    requires
        respects_zero::<A>(),
        leaf.wf(),
        forall|k: int| 0 <= k < leaf.w.len() ==> #[trigger] leaf.w[k] == F32::zero(),
        forall|k: int| 0 <= k < phi.len() ==> (#[trigger] phi[k]).1.spec_is_finite(),
        !leaf.bias.spec_is_nan(),
        leaf.is_dot::<A>(phi, r),
    ensures
        r.same(leaf.bias),
    decreases phi.len(),
{
    let step = leaf.score_entry::<A>();
    if phi.len() > 0 {
        let front = phi.drop_last();
        let last = phi[phi.len() - 1];
        let a = lemma_folds_last(leaf.bias, phi, step, r);
        assert forall|k: int| 0 <= k < front.len() implies (
        #[trigger] front[k]).1.spec_is_finite() by {
            assert(front[k] == phi[k]);
        }
        lemma_zero_weights_score::<A>(leaf, front, a);
        assert(leaf.is_entry_scored::<A>(last, a, r));
        if leaf.idx@.contains(last.0) {
            let w = leaf.w[leaf.idx@.index_of(last.0)];
            assert(w == F32::zero());
            let p = choose|p: F32| #[trigger]
                is_prod32::<A>(w, last.1, p) && is_sum32::<A>(a, p, r);
            assert(p.same(F32::zero()));
        }
    } else {
        let tr = choose|tr: Seq<F32>| #[trigger]
            is_trace(leaf.bias, 0, item_step(phi, step), tr) && tr[0] == r;
    }
}

/// Fitting a linear leaf starts at the constant leaf: where the arithmetic is deterministic
/// and respects zero, a linear leaf before its first Newton step scores every finite basis as
/// the constant leaf of the same rows does, which is its bias.
pub proof fn lemma_linear_leaf_starts_as_constant<A: Arith>(
    rows: Seq<u32>,
    encoders: Encoders,
    matrix: EncodedMatrix,
    labels: Seq<u8>,
    weights: Seq<F32>,
    s0: F32,
    linear: Config,
    constant: Config,
    a: Leaf,
    b: Leaf,
    phi: Seq<(u32, F32)>,
    x: F32,
    y: F32,
)
    requires
        deterministic::<A>(),
        respects_zero::<A>(),
        linear.leaf_model is Linear,
        linear.irls_iters == 0,
        constant.leaf_model is Constant,
        is_leaf_fit::<A>(rows, encoders, matrix, labels, weights, s0, linear, a),
        is_leaf_fit::<A>(rows, encoders, matrix, labels, weights, s0, constant, b),
        !b.bias.spec_is_nan(),
        forall|k: int| 0 <= k < phi.len() ==> (#[trigger] phi[k]).1.spec_is_finite(),
        a.is_dot::<A>(phi, x),
        b.is_dot::<A>(phi, y),
    ensures
        a.bias == b.bias,
        x.same(b.bias),
        y.same(b.bias),
{
    let p = choose|bias: F64| #[trigger]
        is_initial_bias::<A>(rows, labels, weights, s0, bias) && is_linear_fit::<A>(
            rows,
            encoders,
            matrix,
            labels,
            weights,
            s0,
            linear,
            bias,
            a,
        );
    let q = choose|bias: F64| #[trigger]
        is_initial_bias::<A>(rows, labels, weights, s0, bias) && b.idx@ == Seq::<u32>::empty()
            && b.w@ == Seq::<F32>::empty() && is_narrow::<A>(bias, b.bias);
    lemma_initial_bias_unique::<A>(rows, labels, weights, s0, p, q);
    lemma_linear_leaf_starts_at_base_rate::<A>(
        rows,
        encoders,
        matrix,
        labels,
        weights,
        s0,
        linear,
        p,
        a,
    );
    let (phis, w) = lemma_linear_fit_parts::<A>(
        rows,
        encoders,
        matrix,
        labels,
        weights,
        s0,
        linear,
        p,
        a,
    );
    assert forall|k: int| 0 <= k < a.w.len() implies #[trigger] a.w[k] == F32::zero() by {
        assert(is_narrow::<A>(F64::zero(), a.w[k]));
    }
    lemma_zero_weights_score::<A>(a, phi, x);
    lemma_zero_weights_score::<A>(b, phi, y);
}

} // verus!
