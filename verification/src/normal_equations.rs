//! What the Newton system of a leaf is where it was computed exactly:
//! `A = Σ h x xᵀ + λI` and `b = Σ g x + λ w`, with `x = [1, φ]` and the intercept
//! unregularized.

use vstd::prelude::*;
use crate::arith::{
    folds, is_diff, is_prod, is_sum, is_trace, item_step, lemma_folds_last, lemma_runs_last, runs,
    Arith,
};
use crate::exact::{stays_exact, Ring};
use crate::float::{F32, F64};
use crate::leaf_model::{
    active_slots, add_entry, add_pair, add_ridge, add_sample, are_stepped, is_cell_added,
    is_entry_added, is_newton_system, is_pair_added, is_ridge_added, is_row_stat, is_sample_added,
    is_slot_added, local_rows, with_slots, zeros, Problem,
};
use crate::linalg::{
    is_solution, lemma_cell_in_range, lemma_cells_differ, lemma_solution_solves, symmetric_cell,
};

verus! {

/// The cell at row `p`, column `q` of a row-major matrix of dimension `d`.
pub open spec fn cell(a: Seq<F64>, d: int, p: int, q: int) -> F64 {
    a[p * d + q]
}

/// Every cell is exact.
pub open spec fn exact_matrix<T>(val: spec_fn(F64) -> Option<T>, d: int, a: Seq<F64>) -> bool {
    &&& a.len() == d * d
    &&& forall|p: int, q: int|
        0 <= p < d && 0 <= q < d ==> val(#[trigger] cell(a, d, p, q)) is Some
}

/// Every component is exact.
pub open spec fn exact_vector<T>(val: spec_fn(F64) -> Option<T>, d: int, b: Seq<F64>) -> bool {
    &&& b.len() == d
    &&& forall|i: int| 0 <= i < d ==> val(#[trigger] b[i]) is Some
}

/// Every cell of `b` is that of `a` plus `delta`.
spec fn matrix_gains<T>(
    ring: Ring<T>,
    val: spec_fn(F64) -> Option<T>,
    d: int,
    a: Seq<F64>,
    b: Seq<F64>,
    delta: spec_fn(int, int) -> T,
) -> bool {
    forall|p: int, q: int|
        0 <= p < d && 0 <= q < d ==> val(#[trigger] cell(b, d, p, q))->0 == ring.sum_of(
            val(cell(a, d, p, q))->0,
            delta(p, q),
        )
}

/// Every component of `b` is that of `a` plus `delta`.
spec fn vector_gains<T>(
    ring: Ring<T>,
    val: spec_fn(F64) -> Option<T>,
    d: int,
    a: Seq<F64>,
    b: Seq<F64>,
    delta: spec_fn(int) -> T,
) -> bool {
    forall|i: int|
        0 <= i < d ==> val(#[trigger] b[i])->0 == ring.sum_of(val(a[i])->0, delta(i))
}

/// `v` at one cell.
spec fn cell_delta<T>(ring: Ring<T>, i: int, j: int, v: T) -> spec_fn(int, int) -> T {
    |p: int, q: int|
        if p == i && q == j {
            v
        } else {
            ring.zero
        }
}

/// `v` at one component.
spec fn slot_delta<T>(ring: Ring<T>, i: int, v: T) -> spec_fn(int) -> T {
    |p: int|
        if p == i {
            v
        } else {
            ring.zero
        }
}

proof fn lemma_cell_gain<A: Arith, T>(
    ring: Ring<T>,
    val: spec_fn(F64) -> Option<T>,
    d: int,
    i: int,
    j: int,
    v: F64,
    a: Seq<F64>,
    b: Seq<F64>,
)
    requires
        ring.obeys_laws(),
        stays_exact::<A, T>(ring, val),
        is_cell_added::<A>(d, i, j, v, a, b),
        0 <= i < d,
        0 <= j < d,
        exact_matrix(val, d, b),
    ensures
        exact_matrix(val, d, a),
        val(v) is Some,
        matrix_gains(ring, val, d, a, b, cell_delta(ring, i, j, val(v)->0)),
{
    let s = choose|s: F64| #[trigger]
        is_sum::<A>(a[i * d + j], v, s) && b == a.update(i * d + j, s);
    lemma_cell_in_range(d, i, j);
    assert(a.len() == b.len());
    assert(val(cell(b, d, i, j)) is Some);
    assert forall|p: int, q: int| 0 <= p < d && 0 <= q < d implies val(
        #[trigger] cell(a, d, p, q),
    ) is Some && val(cell(b, d, p, q))->0 == ring.sum_of(
        val(cell(a, d, p, q))->0,
        cell_delta(ring, i, j, val(v)->0)(p, q),
    ) by {
        assert(val(cell(b, d, p, q)) is Some);
        lemma_cell_in_range(d, p, q);
        if p * d + q == i * d + j {
            lemma_cells_differ(d, p, q, i, j);
        } else {
            ring.lemma_sum_with_zero(val(cell(a, d, p, q))->0);
        }
    }
    assert forall|p: int, q: int| 0 <= p < d && 0 <= q < d implies val(
        #[trigger] cell(b, d, p, q),
    )->0 == ring.sum_of(
        val(cell(a, d, p, q))->0,
        cell_delta(ring, i, j, val(v)->0)(p, q),
    ) by {
        assert(val(cell(a, d, p, q)) is Some);
    }
}

proof fn lemma_slot_gain<A: Arith, T>(
    ring: Ring<T>,
    val: spec_fn(F64) -> Option<T>,
    d: int,
    i: int,
    v: F64,
    a: Seq<F64>,
    b: Seq<F64>,
)
    requires
        ring.obeys_laws(),
        stays_exact::<A, T>(ring, val),
        is_slot_added::<A>(i, v, a, b),
        0 <= i < d,
        exact_vector(val, d, b),
    ensures
        exact_vector(val, d, a),
        val(v) is Some,
        vector_gains(ring, val, d, a, b, slot_delta(ring, i, val(v)->0)),
{
    let s = choose|s: F64| #[trigger] is_sum::<A>(a[i], v, s) && b == a.update(i, s);
    assert(val(b[i]) is Some);
    assert forall|p: int| 0 <= p < d implies val(#[trigger] a[p]) is Some && val(b[p])->0
        == ring.sum_of(val(a[p])->0, slot_delta(ring, i, val(v)->0)(p)) by {
        assert(val(b[p]) is Some);
        if p != i {
            ring.lemma_sum_with_zero(val(a[p])->0);
        }
    }
    assert forall|p: int| 0 <= p < d implies val(#[trigger] b[p])->0 == ring.sum_of(
        val(a[p])->0,
        slot_delta(ring, i, val(v)->0)(p),
    ) by {
        assert(val(a[p]) is Some);
    }
}

proof fn lemma_matrix_gains_chain<T>(
    ring: Ring<T>,
    val: spec_fn(F64) -> Option<T>,
    d: int,
    a: Seq<F64>,
    b: Seq<F64>,
    c: Seq<F64>,
    f: spec_fn(int, int) -> T,
    g: spec_fn(int, int) -> T,
    h: spec_fn(int, int) -> T,
)
    requires
        ring.obeys_laws(),
        matrix_gains(ring, val, d, a, b, f),
        matrix_gains(ring, val, d, b, c, g),
        forall|p: int, q: int|
            0 <= p < d && 0 <= q < d ==> #[trigger] h(p, q) == ring.sum_of(f(p, q), g(p, q)),
    ensures
        matrix_gains(ring, val, d, a, c, h),
{
    assert forall|p: int, q: int| 0 <= p < d && 0 <= q < d implies val(
        #[trigger] cell(c, d, p, q),
    )->0 == ring.sum_of(val(cell(a, d, p, q))->0, h(p, q)) by {
        assert(val(cell(b, d, p, q))->0 == ring.sum_of(val(cell(a, d, p, q))->0, f(p, q)));
        assert(h(p, q) == ring.sum_of(f(p, q), g(p, q)));
        ring.lemma_sum_associates(val(cell(a, d, p, q))->0, f(p, q), g(p, q));
    }
}

proof fn lemma_vector_gains_chain<T>(
    ring: Ring<T>,
    val: spec_fn(F64) -> Option<T>,
    d: int,
    a: Seq<F64>,
    b: Seq<F64>,
    c: Seq<F64>,
    f: spec_fn(int) -> T,
    g: spec_fn(int) -> T,
    h: spec_fn(int) -> T,
)
    requires
        ring.obeys_laws(),
        vector_gains(ring, val, d, a, b, f),
        vector_gains(ring, val, d, b, c, g),
        forall|i: int| 0 <= i < d ==> #[trigger] h(i) == ring.sum_of(f(i), g(i)),
    ensures
        vector_gains(ring, val, d, a, c, h),
{
    assert forall|i: int| 0 <= i < d implies val(#[trigger] c[i])->0 == ring.sum_of(
        val(a[i])->0,
        h(i),
    ) by {
        assert(val(b[i])->0 == ring.sum_of(val(a[i])->0, f(i)));
        assert(h(i) == ring.sum_of(f(i), g(i)));
        ring.lemma_sum_associates(val(a[i])->0, f(i), g(i));
    }
}

/// What an entry has at slot `q`.
pub open spec fn slot_val<T>(
    ring: Ring<T>,
    val: spec_fn(F64) -> Option<T>,
    q: int,
) -> spec_fn((usize, F64)) -> T {
    |x: (usize, F64)|
        if x.0 == q {
            val(x.1)->0
        } else {
            ring.zero
        }
}

/// What the entries have at slot `q`.
pub open spec fn slot_sum<T>(
    ring: Ring<T>,
    val: spec_fn(F64) -> Option<T>,
    e: Seq<(usize, F64)>,
    q: int,
) -> T {
    ring.total(slot_val(ring, val, q), e)
}

/// Component `q` of the design vector `x = [1, φ]`.
pub open spec fn design<T>(
    ring: Ring<T>,
    val: spec_fn(F64) -> Option<T>,
    e: Seq<(usize, F64)>,
    q: int,
) -> T {
    if q == 0 {
        ring.one
    } else {
        slot_sum(ring, val, e, q)
    }
}

/// Every entry has a slot after the intercept.
pub open spec fn slots_after_intercept(e: Seq<(usize, F64)>, d: int) -> bool {
    forall|m: int| 0 <= m < e.len() ==> 1 <= (#[trigger] e[m]).0 < d
}

proof fn lemma_no_entry_at_intercept<T>(
    ring: Ring<T>,
    val: spec_fn(F64) -> Option<T>,
    e: Seq<(usize, F64)>,
    d: int,
)
    requires
        ring.obeys_laws(),
        slots_after_intercept(e, d),
    ensures
        slot_sum(ring, val, e, 0) == ring.zero,
    decreases e.len(),
{
    if e.len() > 0 {
        let front = e.drop_last();
        assert forall|m: int| 0 <= m < front.len() implies 1 <= (#[trigger] front[m]).0 < d by {
            assert(front[m] == e[m]);
        }
        lemma_no_entry_at_intercept(ring, val, front, d);
        assert(1 <= e[e.len() - 1].0);
        ring.lemma_sum_with_zero(ring.zero);
    }
}

/// What the pairs of one row of the matrix add.
spec fn pair_delta<T>(
    ring: Ring<T>,
    val: spec_fn(F64) -> Option<T>,
    li: int,
    hx: T,
    e: Seq<(usize, F64)>,
) -> spec_fn(int, int) -> T {
    |p: int, q: int|
        if p == li {
            ring.product(hx, slot_sum(ring, val, e, q))
        } else {
            ring.zero
        }
}

proof fn lemma_pairs_gain<A: Arith, T>(
    ring: Ring<T>,
    val: spec_fn(F64) -> Option<T>,
    d: int,
    li: int,
    hx: F64,
    e: Seq<(usize, F64)>,
    a: Seq<F64>,
    b: Seq<F64>,
)
    requires
        ring.obeys_laws(),
        stays_exact::<A, T>(ring, val),
        folds(a, e, add_pair::<A>(d, li, hx), b),
        0 <= li < d,
        slots_after_intercept(e, d),
        exact_matrix(val, d, b),
    ensures
        exact_matrix(val, d, a),
        matrix_gains(ring, val, d, a, b, pair_delta(ring, val, li, val(hx)->0, e)),
    decreases e.len(),
{
    let step = add_pair::<A>(d, li, hx);
    let hv = val(hx)->0;
    let all = pair_delta(ring, val, li, hv, e);
    if e.len() > 0 {
        let front = e.drop_last();
        let x = e[e.len() - 1];
        let m = lemma_folds_last(a, e, step, b);
        assert(is_pair_added::<A>(d, li, hx, x, m, b));
        let v = choose|v: F64| #[trigger]
            is_prod::<A>(hx, x.1, v) && is_cell_added::<A>(d, li, x.0 as int, v, m, b);
        lemma_cell_gain::<A, T>(ring, val, d, li, x.0 as int, v, m, b);
        assert forall|k: int| 0 <= k < front.len() implies 1 <= (#[trigger] front[k]).0 < d by {
            assert(front[k] == e[k]);
        }
        lemma_pairs_gain::<A, T>(ring, val, d, li, hx, front, a, m);
        let f = pair_delta(ring, val, li, hv, front);
        let g = cell_delta(ring, li, x.0 as int, val(v)->0);
        assert forall|p: int, q: int| 0 <= p < d && 0 <= q < d implies #[trigger] all(p, q)
            == ring.sum_of(f(p, q), g(p, q)) by {
            if p == li {
                let (s, t) = (slot_sum(ring, val, front, q), slot_val(ring, val, q)(x));
                ring.lemma_product_distributes(hv, s, t);
                ring.lemma_product_with_zero(hv);
            } else {
                ring.lemma_sum_with_zero(ring.zero);
            }
        }
        lemma_matrix_gains_chain(ring, val, d, a, m, b, f, g, all);
    } else {
        let tr = choose|tr: Seq<Seq<F64>>| #[trigger]
            is_trace(a, 0, item_step(e, step), tr) && tr[0] == b;
        assert forall|p: int, q: int| 0 <= p < d && 0 <= q < d implies val(
            #[trigger] cell(b, d, p, q),
        )->0 == ring.sum_of(val(cell(a, d, p, q))->0, all(p, q)) by {
            ring.lemma_product_with_zero(hv);
            ring.lemma_sum_with_zero(val(cell(a, d, p, q))->0);
        }
    }
}

/// What one entry adds to the matrix.
spec fn entry_delta<T>(
    ring: Ring<T>,
    val: spec_fn(F64) -> Option<T>,
    hx: T,
    e: Seq<(usize, F64)>,
    slot: int,
) -> spec_fn(int, int) -> T {
    |p: int, q: int|
        if p == slot {
            ring.product(hx, design(ring, val, e, q))
        } else if p == 0 && q == slot {
            hx
        } else {
            ring.zero
        }
}

proof fn lemma_entry_gain<A: Arith, T>(
    ring: Ring<T>,
    val: spec_fn(F64) -> Option<T>,
    d: int,
    gi: F64,
    hi: F64,
    e: Seq<(usize, F64)>,
    x: (usize, F64),
    s: (Seq<F64>, Seq<F64>),
    t: (Seq<F64>, Seq<F64>),
)
    requires
        ring.obeys_laws(),
        stays_exact::<A, T>(ring, val),
        is_entry_added::<A>(d, gi, hi, e, x, s, t),
        1 <= x.0 < d,
        slots_after_intercept(e, d),
        exact_matrix(val, d, t.0),
        exact_vector(val, d, t.1),
    ensures
        exact_matrix(val, d, s.0),
        exact_vector(val, d, s.1),
        matrix_gains(
            ring,
            val,
            d,
            s.0,
            t.0,
            entry_delta(
                ring,
                val,
                ring.product(val(hi)->0, val(x.1)->0),
                e,
                x.0 as int,
            ),
        ),
        vector_gains(
            ring,
            val,
            d,
            s.1,
            t.1,
            slot_delta(ring, x.0 as int, ring.product(val(gi)->0, val(x.1)->0)),
        ),
{
    let slot = x.0 as int;
    let (hx, gx, a1, a2) = choose|hx: F64, gx: F64, a1: Seq<F64>, a2: Seq<F64>| #[trigger]
        is_prod::<A>(hi, x.1, hx) && #[trigger] is_prod::<A>(gi, x.1, gx)
            && #[trigger] is_cell_added::<A>(d, slot, 0, hx, s.0, a1)
            && #[trigger] is_cell_added::<A>(d, 0, slot, hx, a1, a2) && folds(
            a2,
            e,
            add_pair::<A>(d, slot, hx),
            t.0,
        ) && is_slot_added::<A>(slot, gx, s.1, t.1);
    lemma_slot_gain::<A, T>(ring, val, d, slot, gx, s.1, t.1);
    lemma_pairs_gain::<A, T>(ring, val, d, slot, hx, e, a2, t.0);
    lemma_cell_gain::<A, T>(ring, val, d, 0, slot, hx, a1, a2);
    lemma_cell_gain::<A, T>(ring, val, d, slot, 0, hx, s.0, a1);
    let hv = val(hx)->0;
    let f1 = cell_delta(ring, slot, 0, hv);
    let f2 = cell_delta(ring, 0, slot, hv);
    let f3 = pair_delta(ring, val, slot, hv, e);
    let f12 = |p: int, q: int| ring.sum_of(f1(p, q), f2(p, q));
    let all = entry_delta(ring, val, hv, e, slot);
    lemma_matrix_gains_chain(ring, val, d, s.0, a1, a2, f1, f2, f12);
    assert forall|p: int, q: int| 0 <= p < d && 0 <= q < d implies #[trigger] all(p, q)
        == ring.sum_of(f12(p, q), f3(p, q)) by {
        lemma_no_entry_at_intercept(ring, val, e, d);
        ring.lemma_product_with_zero(hv);
        ring.lemma_product_with_one(hv);
        ring.lemma_sum_with_zero(hv);
        ring.lemma_sum_with_zero(ring.zero);
        ring.lemma_sum_with_zero(ring.product(hv, slot_sum(ring, val, e, q)));
    }
    lemma_matrix_gains_chain(ring, val, d, s.0, a2, t.0, f12, f3, all);
}

/// What the entries `pre` add to the matrix.
spec fn entries_delta<T>(
    ring: Ring<T>,
    val: spec_fn(F64) -> Option<T>,
    h: T,
    e: Seq<(usize, F64)>,
    pre: Seq<(usize, F64)>,
) -> spec_fn(int, int) -> T {
    |p: int, q: int|
        if p >= 1 {
            ring.product(
                ring.product(h, slot_sum(ring, val, pre, p)),
                design(ring, val, e, q),
            )
        } else if q >= 1 {
            ring.product(h, slot_sum(ring, val, pre, q))
        } else {
            ring.zero
        }
}

/// What the entries `pre` add to the vector.
spec fn entries_slot_delta<T>(
    ring: Ring<T>,
    val: spec_fn(F64) -> Option<T>,
    g: T,
    pre: Seq<(usize, F64)>,
) -> spec_fn(int) -> T {
    |i: int| ring.product(g, slot_sum(ring, val, pre, i))
}

/// `(a + b) · c = a · c + b · c`.
proof fn lemma_right_distributes<T>(ring: Ring<T>, a: T, b: T, c: T)
    requires
        ring.obeys_laws(),
    ensures
        ring.product(ring.sum_of(a, b), c) == ring.sum_of(
            ring.product(a, c),
            ring.product(b, c),
        ),
{
    ring.lemma_product_commutes(ring.sum_of(a, b), c);
    ring.lemma_product_distributes(c, a, b);
    ring.lemma_product_commutes(c, a);
    ring.lemma_product_commutes(c, b);
}

proof fn lemma_entries_gain<A: Arith, T>(
    ring: Ring<T>,
    val: spec_fn(F64) -> Option<T>,
    d: int,
    gi: F64,
    hi: F64,
    e: Seq<(usize, F64)>,
    pre: Seq<(usize, F64)>,
    s: (Seq<F64>, Seq<F64>),
    t: (Seq<F64>, Seq<F64>),
)
    requires
        ring.obeys_laws(),
        stays_exact::<A, T>(ring, val),
        folds(s, pre, add_entry::<A>(d, gi, hi, e), t),
        slots_after_intercept(e, d),
        slots_after_intercept(pre, d),
        exact_matrix(val, d, t.0),
        exact_vector(val, d, t.1),
    ensures
        exact_matrix(val, d, s.0),
        exact_vector(val, d, s.1),
        matrix_gains(ring, val, d, s.0, t.0, entries_delta(ring, val, val(hi)->0, e, pre)),
        vector_gains(ring, val, d, s.1, t.1, entries_slot_delta(ring, val, val(gi)->0, pre)),
    decreases pre.len(),
{
    let step = add_entry::<A>(d, gi, hi, e);
    let (hv, gv) = (val(hi)->0, val(gi)->0);
    let all = entries_delta(ring, val, hv, e, pre);
    let all_b = entries_slot_delta(ring, val, gv, pre);
    if pre.len() > 0 {
        let front = pre.drop_last();
        let x = pre[pre.len() - 1];
        let slot = x.0 as int;
        let xv = val(x.1)->0;
        let m = lemma_folds_last(s, pre, step, t);
        assert(is_entry_added::<A>(d, gi, hi, e, x, m, t));
        lemma_entry_gain::<A, T>(ring, val, d, gi, hi, e, x, m, t);
        assert forall|k: int| 0 <= k < front.len() implies 1 <= (#[trigger] front[k]).0 < d by {
            assert(front[k] == pre[k]);
        }
        lemma_entries_gain::<A, T>(ring, val, d, gi, hi, e, front, s, m);
        let f = entries_delta(ring, val, hv, e, front);
        let g = entry_delta(ring, val, ring.product(hv, xv), e, slot);
        assert forall|p: int, q: int| 0 <= p < d && 0 <= q < d implies #[trigger] all(p, q)
            == ring.sum_of(f(p, q), g(p, q)) by {
            let c = design(ring, val, e, q);
            ring.lemma_product_with_zero(hv);
            ring.lemma_product_with_zero(c);
            ring.lemma_sum_with_zero(ring.zero);
            if p >= 1 {
                let (u, v) = (slot_sum(ring, val, front, p), slot_val(ring, val, p)(x));
                ring.lemma_product_distributes(hv, u, v);
                lemma_right_distributes(ring, ring.product(hv, u), ring.product(hv, v), c);
            } else if q >= 1 {
                let (u, v) = (slot_sum(ring, val, front, q), slot_val(ring, val, q)(x));
                ring.lemma_product_distributes(hv, u, v);
            }
        }
        lemma_matrix_gains_chain(ring, val, d, s.0, m.0, t.0, f, g, all);
        let fb = entries_slot_delta(ring, val, gv, front);
        let gb = slot_delta(ring, slot, ring.product(gv, xv));
        assert forall|i: int| 0 <= i < d implies #[trigger] all_b(i) == ring.sum_of(
            fb(i),
            gb(i),
        ) by {
            let (u, v) = (slot_sum(ring, val, front, i), slot_val(ring, val, i)(x));
            ring.lemma_product_distributes(gv, u, v);
            ring.lemma_product_with_zero(gv);
        }
        lemma_vector_gains_chain(ring, val, d, s.1, m.1, t.1, fb, gb, all_b);
    } else {
        let tr = choose|tr: Seq<(Seq<F64>, Seq<F64>)>| #[trigger]
            is_trace(s, 0, item_step(pre, step), tr) && tr[0] == t;
        assert forall|p: int, q: int| 0 <= p < d && 0 <= q < d implies val(
            #[trigger] cell(t.0, d, p, q),
        )->0 == ring.sum_of(val(cell(s.0, d, p, q))->0, all(p, q)) by {
            ring.lemma_product_with_zero(hv);
            ring.lemma_product_with_zero(design(ring, val, e, q));
            ring.lemma_sum_with_zero(val(cell(s.0, d, p, q))->0);
        }
        assert forall|i: int| 0 <= i < d implies val(#[trigger] t.1[i])->0 == ring.sum_of(
            val(s.1[i])->0,
            all_b(i),
        ) by {
            ring.lemma_product_with_zero(gv);
            ring.lemma_sum_with_zero(val(s.1[i])->0);
        }
    }
}

/// What one row adds to the matrix: `h x xᵀ`.
spec fn sample_delta<T>(
    ring: Ring<T>,
    val: spec_fn(F64) -> Option<T>,
    h: T,
    e: Seq<(usize, F64)>,
) -> spec_fn(int, int) -> T {
    |p: int, q: int|
        ring.product(
            h,
            ring.product(design(ring, val, e, p), design(ring, val, e, q)),
        )
}

/// What one row adds to the vector: `g x`.
spec fn sample_slot_delta<T>(
    ring: Ring<T>,
    val: spec_fn(F64) -> Option<T>,
    g: T,
    e: Seq<(usize, F64)>,
) -> spec_fn(int) -> T {
    |i: int| ring.product(g, design(ring, val, e, i))
}

proof fn lemma_sample_gain<A: Arith, T>(
    ring: Ring<T>,
    val: spec_fn(F64) -> Option<T>,
    d: int,
    s0: F32,
    w: Seq<F64>,
    e: Seq<(usize, F64)>,
    label: u8,
    weight: F32,
    s: (Seq<F64>, Seq<F64>),
    t: (Seq<F64>, Seq<F64>),
) -> (r: (F64, F64))
    requires
        ring.obeys_laws(),
        stays_exact::<A, T>(ring, val),
        is_sample_added::<A>(d, s0, w, e, label, weight, s, t),
        d > 0,
        slots_after_intercept(e, d),
        exact_matrix(val, d, t.0),
        exact_vector(val, d, t.1),
    ensures
        is_row_stat::<A>(s0, w, e, label, weight, r.0, r.1),
        val(r.0) is Some,
        val(r.1) is Some,
        exact_matrix(val, d, s.0),
        exact_vector(val, d, s.1),
        matrix_gains(ring, val, d, s.0, t.0, sample_delta(ring, val, val(r.1)->0, e)),
        vector_gains(ring, val, d, s.1, t.1, sample_slot_delta(ring, val, val(r.0)->0, e)),
{
    let (gi, hi, a0, b0) = choose|gi: F64, hi: F64, a0: Seq<F64>, b0: Seq<F64>| #[trigger]
        is_row_stat::<A>(s0, w, e, label, weight, gi, hi) && #[trigger] is_cell_added::<A>(
            d,
            0,
            0,
            hi,
            s.0,
            a0,
        ) && #[trigger] is_slot_added::<A>(0, gi, s.1, b0) && folds(
            (a0, b0),
            e,
            add_entry::<A>(d, gi, hi, e),
            t,
        );
    let (hv, gv) = (val(hi)->0, val(gi)->0);
    lemma_entries_gain::<A, T>(ring, val, d, gi, hi, e, e, (a0, b0), t);
    lemma_cell_gain::<A, T>(ring, val, d, 0, 0, hi, s.0, a0);
    lemma_slot_gain::<A, T>(ring, val, d, 0, gi, s.1, b0);
    let f = cell_delta(ring, 0, 0, hv);
    let g = entries_delta(ring, val, hv, e, e);
    let all = sample_delta(ring, val, hv, e);
    assert forall|p: int, q: int| 0 <= p < d && 0 <= q < d implies #[trigger] all(p, q)
        == ring.sum_of(f(p, q), g(p, q)) by {
        let (x, y) = (design(ring, val, e, p), design(ring, val, e, q));
        ring.lemma_product_with_one(hv);
        ring.lemma_product_with_one(ring.one);
        ring.lemma_product_with_one(y);
        ring.lemma_product_associates(hv, x, y);
        ring.lemma_sum_with_zero(hv);
        ring.lemma_sum_with_zero(g(p, q));
    }
    lemma_matrix_gains_chain(ring, val, d, s.0, a0, t.0, f, g, all);
    let fb = slot_delta(ring, 0, gv);
    let gb = entries_slot_delta(ring, val, gv, e);
    let all_b = sample_slot_delta(ring, val, gv, e);
    assert forall|i: int| 0 <= i < d implies #[trigger] all_b(i) == ring.sum_of(fb(i), gb(i)) by {
        lemma_no_entry_at_intercept(ring, val, e, d);
        ring.lemma_product_with_one(gv);
        ring.lemma_product_with_zero(gv);
        ring.lemma_sum_with_zero(gv);
        ring.lemma_sum_with_zero(gb(i));
    }
    lemma_vector_gains_chain(ring, val, d, s.1, b0, t.1, fb, gb, all_b);
    (gi, hi)
}

/// `h_k x_k[p] x_k[q]` of row `k`.
pub open spec fn outer_term<T>(
    ring: Ring<T>,
    val: spec_fn(F64) -> Option<T>,
    local: Seq<Seq<(usize, F64)>>,
    hs: Seq<F64>,
    p: int,
    q: int,
) -> spec_fn(int) -> T {
    |k: int|
        ring.product(
            val(hs[k])->0,
            ring.product(design(ring, val, local[k], p), design(ring, val, local[k], q)),
        )
}

/// `g_k x_k[i]` of row `k`.
pub open spec fn inner_term<T>(
    ring: Ring<T>,
    val: spec_fn(F64) -> Option<T>,
    local: Seq<Seq<(usize, F64)>>,
    gs: Seq<F64>,
    i: int,
) -> spec_fn(int) -> T {
    |k: int| ring.product(val(gs[k])->0, design(ring, val, local[k], i))
}

/// `gs` and `hs` are gradients and hessians of the first `n` rows at weights `w`.
pub open spec fn are_row_stats<A: Arith>(
    s0: F32,
    w: Seq<F64>,
    local: Seq<Seq<(usize, F64)>>,
    rows: Seq<u32>,
    labels: Seq<u8>,
    weights: Seq<F32>,
    n: nat,
    gs: Seq<F64>,
    hs: Seq<F64>,
) -> bool {
    &&& gs.len() == n
    &&& hs.len() == n
    &&& forall|k: int|
        0 <= k < n ==> is_row_stat::<A>(
            s0,
            w,
            local[k],
            labels[rows[k] as int],
            weights[rows[k] as int],
            #[trigger] gs[k],
            hs[k],
        )
}

proof fn lemma_samples_gain<A: Arith, T>(
    ring: Ring<T>,
    val: spec_fn(F64) -> Option<T>,
    d: int,
    s0: F32,
    w: Seq<F64>,
    local: Seq<Seq<(usize, F64)>>,
    rows: Seq<u32>,
    labels: Seq<u8>,
    weights: Seq<F32>,
    n: nat,
    s: (Seq<F64>, Seq<F64>),
    t: (Seq<F64>, Seq<F64>),
) -> (r: (Seq<F64>, Seq<F64>))
    requires
        ring.obeys_laws(),
        stays_exact::<A, T>(ring, val),
        runs(s, n, add_sample::<A>(d, s0, w, local, rows, labels, weights), t),
        d > 0,
        forall|k: int| 0 <= k < n ==> slots_after_intercept(#[trigger] local[k], d),
        exact_matrix(val, d, t.0),
        exact_vector(val, d, t.1),
    ensures
        are_row_stats::<A>(s0, w, local, rows, labels, weights, n, r.0, r.1),
        exact_vector(val, n as int, r.0),
        exact_vector(val, n as int, r.1),
        exact_matrix(val, d, s.0),
        exact_vector(val, d, s.1),
        matrix_gains(
            ring,
            val,
            d,
            s.0,
            t.0,
            |p: int, q: int| ring.sum_to(outer_term(ring, val, local, r.1, p, q), n as int),
        ),
        vector_gains(
            ring,
            val,
            d,
            s.1,
            t.1,
            |i: int| ring.sum_to(inner_term(ring, val, local, r.0, i), n as int),
        ),
    decreases n,
{
    let step = add_sample::<A>(d, s0, w, local, rows, labels, weights);
    if n > 0 {
        let e = local[n - 1];
        let m = lemma_runs_last(s, n, step, t);
        assert(step(n - 1, m, t));
        let (label, weight) = (labels[rows[n - 1] as int], weights[rows[n - 1] as int]);
        assert(is_sample_added::<A>(d, s0, w, e, label, weight, m, t));
        let (gi, hi) = lemma_sample_gain::<A, T>(ring, val, d, s0, w, e, label, weight, m, t);
        let (gf, hf) = lemma_samples_gain::<A, T>(
            ring,
            val,
            d,
            s0,
            w,
            local,
            rows,
            labels,
            weights,
            (n - 1) as nat,
            s,
            m,
        );
        let (gs, hs) = (gf.push(gi), hf.push(hi));
        assert forall|k: int| 0 <= k < n implies is_row_stat::<A>(
            s0,
            w,
            local[k],
            labels[rows[k] as int],
            weights[rows[k] as int],
            #[trigger] gs[k],
            hs[k],
        ) by {
            if k < n - 1 {
                assert(gs[k] == gf[k]);
            }
        }
        let f = |p: int, q: int| ring.sum_to(outer_term(ring, val, local, hf, p, q), n - 1);
        let g = sample_delta(ring, val, val(hi)->0, e);
        let all = |p: int, q: int| ring.sum_to(outer_term(ring, val, local, hs, p, q), n as int);
        assert forall|p: int, q: int| 0 <= p < d && 0 <= q < d implies #[trigger] all(p, q)
            == ring.sum_of(f(p, q), g(p, q)) by {
            let u = outer_term(ring, val, local, hs, p, q);
            let v = outer_term(ring, val, local, hf, p, q);
            ring.lemma_sum_agrees(u, v, n - 1);
            assert(u(n - 1) == g(p, q));
        }
        lemma_matrix_gains_chain(ring, val, d, s.0, m.0, t.0, f, g, all);
        let fb = |i: int| ring.sum_to(inner_term(ring, val, local, gf, i), n - 1);
        let gb = sample_slot_delta(ring, val, val(gi)->0, e);
        let all_b = |i: int| ring.sum_to(inner_term(ring, val, local, gs, i), n as int);
        assert forall|i: int| 0 <= i < d implies #[trigger] all_b(i) == ring.sum_of(
            fb(i),
            gb(i),
        ) by {
            let u = inner_term(ring, val, local, gs, i);
            let v = inner_term(ring, val, local, gf, i);
            ring.lemma_sum_agrees(u, v, n - 1);
            assert(u(n - 1) == gb(i));
        }
        lemma_vector_gains_chain(ring, val, d, s.1, m.1, t.1, fb, gb, all_b);
        (gs, hs)
    } else {
        let tr = choose|tr: Seq<(Seq<F64>, Seq<F64>)>| #[trigger]
            is_trace(s, n, step, tr) && tr[0] == t;
        let none: Seq<F64> = Seq::empty();
        assert forall|p: int, q: int| 0 <= p < d && 0 <= q < d implies val(
            #[trigger] cell(t.0, d, p, q),
        )->0 == ring.sum_of(
            val(cell(s.0, d, p, q))->0,
            ring.sum_to(outer_term(ring, val, local, none, p, q), 0),
        ) by {
            ring.lemma_sum_with_zero(val(cell(s.0, d, p, q))->0);
        }
        assert forall|i: int| 0 <= i < d implies val(#[trigger] t.1[i])->0 == ring.sum_of(
            val(s.1[i])->0,
            ring.sum_to(inner_term(ring, val, local, none, i), 0),
        ) by {
            ring.lemma_sum_with_zero(val(s.1[i])->0);
        }
        (none, none)
    }
}

/// `λ` on the diagonal after the intercept, up to row `m`.
spec fn ridge_delta<T>(ring: Ring<T>, lam: T, m: int) -> spec_fn(int, int) -> T {
    |p: int, q: int|
        if p == q && 1 <= p <= m {
            lam
        } else {
            ring.zero
        }
}

/// `λ w` after the intercept, up to component `m`.
spec fn ridge_slot_delta<T>(
    ring: Ring<T>,
    val: spec_fn(F64) -> Option<T>,
    lam: T,
    w: Seq<F64>,
    m: int,
) -> spec_fn(int) -> T {
    |i: int|
        if 1 <= i <= m {
            ring.product(lam, val(w[i])->0)
        } else {
            ring.zero
        }
}

proof fn lemma_ridge_gain<A: Arith, T>(
    ring: Ring<T>,
    val: spec_fn(F64) -> Option<T>,
    d: int,
    lam: F64,
    w: Seq<F64>,
    m: nat,
    s: (Seq<F64>, Seq<F64>),
    t: (Seq<F64>, Seq<F64>),
)
    requires
        ring.obeys_laws(),
        stays_exact::<A, T>(ring, val),
        runs(s, m, add_ridge::<A>(d, lam, w), t),
        m < d,
        exact_matrix(val, d, t.0),
        exact_vector(val, d, t.1),
    ensures
        exact_matrix(val, d, s.0),
        exact_vector(val, d, s.1),
        matrix_gains(ring, val, d, s.0, t.0, ridge_delta(ring, val(lam)->0, m as int)),
        vector_gains(
            ring,
            val,
            d,
            s.1,
            t.1,
            ridge_slot_delta(ring, val, val(lam)->0, w, m as int),
        ),
    decreases m,
{
    let step = add_ridge::<A>(d, lam, w);
    let lv = val(lam)->0;
    let all = ridge_delta(ring, lv, m as int);
    let all_b = ridge_slot_delta(ring, val, lv, w, m as int);
    if m > 0 {
        let i = m as int;
        let u = lemma_runs_last(s, m, step, t);
        assert(step(m - 1, u, t));
        assert(is_ridge_added::<A>(d, lam, w, i, u, t));
        let v = choose|v: F64| #[trigger]
            is_prod::<A>(lam, w[i], v) && is_cell_added::<A>(d, i, i, lam, u.0, t.0)
                && is_slot_added::<A>(i, v, u.1, t.1);
        lemma_cell_gain::<A, T>(ring, val, d, i, i, lam, u.0, t.0);
        lemma_slot_gain::<A, T>(ring, val, d, i, v, u.1, t.1);
        lemma_ridge_gain::<A, T>(ring, val, d, lam, w, (m - 1) as nat, s, u);
        let f = ridge_delta(ring, lv, m - 1);
        let g = cell_delta(ring, i, i, lv);
        assert forall|p: int, q: int| 0 <= p < d && 0 <= q < d implies #[trigger] all(p, q)
            == ring.sum_of(f(p, q), g(p, q)) by {
            ring.lemma_sum_with_zero(lv);
            ring.lemma_sum_with_zero(ring.zero);
        }
        lemma_matrix_gains_chain(ring, val, d, s.0, u.0, t.0, f, g, all);
        let fb = ridge_slot_delta(ring, val, lv, w, m - 1);
        let gb = slot_delta(ring, i, val(v)->0);
        assert forall|k: int| 0 <= k < d implies #[trigger] all_b(k) == ring.sum_of(
            fb(k),
            gb(k),
        ) by {
            ring.lemma_sum_with_zero(all_b(k));
            ring.lemma_sum_with_zero(ring.zero);
        }
        lemma_vector_gains_chain(ring, val, d, s.1, u.1, t.1, fb, gb, all_b);
    } else {
        let tr = choose|tr: Seq<(Seq<F64>, Seq<F64>)>| #[trigger]
            is_trace(s, m, step, tr) && tr[0] == t;
        assert forall|p: int, q: int| 0 <= p < d && 0 <= q < d implies val(
            #[trigger] cell(t.0, d, p, q),
        )->0 == ring.sum_of(val(cell(s.0, d, p, q))->0, all(p, q)) by {
            ring.lemma_sum_with_zero(val(cell(s.0, d, p, q))->0);
        }
        assert forall|k: int| 0 <= k < d implies val(#[trigger] t.1[k])->0 == ring.sum_of(
            val(s.1[k])->0,
            all_b(k),
        ) by {
            ring.lemma_sum_with_zero(val(s.1[k])->0);
        }
    }
}

/// Cell `(p, q)` of `Σ h x xᵀ + λI`, the intercept unregularized.
pub open spec fn normal_cell<T>(
    ring: Ring<T>,
    val: spec_fn(F64) -> Option<T>,
    local: Seq<Seq<(usize, F64)>>,
    hs: Seq<F64>,
    lam: F64,
    p: int,
    q: int,
) -> T {
    ring.sum_of(
        ring.sum_to(outer_term(ring, val, local, hs, p, q), hs.len() as int),
        if p == q && p >= 1 {
            val(lam)->0
        } else {
            ring.zero
        },
    )
}

/// Component `i` of `Σ g x + λ w`, the intercept unregularized.
pub open spec fn normal_component<T>(
    ring: Ring<T>,
    val: spec_fn(F64) -> Option<T>,
    local: Seq<Seq<(usize, F64)>>,
    gs: Seq<F64>,
    lam: F64,
    w: Seq<F64>,
    i: int,
) -> T {
    ring.sum_of(
        ring.sum_to(inner_term(ring, val, local, gs, i), gs.len() as int),
        if i >= 1 {
            ring.product(val(lam)->0, val(w[i])->0)
        } else {
            ring.zero
        },
    )
}

/// `a` and `b` are the normal equations for gradients `gs` and hessians `hs`.
pub open spec fn are_normal_equations<T>(
    ring: Ring<T>,
    val: spec_fn(F64) -> Option<T>,
    local: Seq<Seq<(usize, F64)>>,
    gs: Seq<F64>,
    hs: Seq<F64>,
    lam: F64,
    w: Seq<F64>,
    d: int,
    a: Seq<F64>,
    b: Seq<F64>,
) -> bool {
    &&& forall|p: int, q: int|
        0 <= p < d && 0 <= q < d ==> val(#[trigger] cell(a, d, p, q)) == Some(
            normal_cell(ring, val, local, hs, lam, p, q),
        )
    &&& forall|i: int|
        0 <= i < d ==> val(#[trigger] b[i]) == Some(
            normal_component(ring, val, local, gs, lam, w, i),
        )
}

/// A Newton system that was computed exactly is `A = Σ h x xᵀ + λI` and `b = Σ g x + λ w`,
/// with `x = [1, φ]`, the gradients and hessians those of the rows at `w`, and the intercept
/// unregularized.
pub proof fn lemma_newton_system_is_normal_equations<A: Arith, T>(
    ring: Ring<T>,
    val: spec_fn(F64) -> Option<T>,
    q: Problem,
    local: Seq<Seq<(usize, F64)>>,
    rows: Seq<u32>,
    labels: Seq<u8>,
    weights: Seq<F32>,
    w: Seq<F64>,
    a: Seq<F64>,
    b: Seq<F64>,
)
    requires
        ring.obeys_laws(),
        stays_exact::<A, T>(ring, val),
        is_newton_system::<A>(q, local, rows, labels, weights, w, a, b),
        q.d > 0,
        forall|k: int| 0 <= k < rows.len() ==> slots_after_intercept(#[trigger] local[k], q.d as int),
        exact_matrix(val, q.d as int, a),
        exact_vector(val, q.d as int, b),
    ensures
        exists|gs: Seq<F64>, hs: Seq<F64>| #[trigger]
            are_row_stats::<A>(q.s0, w, local, rows, labels, weights, rows.len(), gs, hs)
                && exact_vector(val, rows.len() as int, gs) && exact_vector(
                val,
                rows.len() as int,
                hs,
            ) && are_normal_equations(ring, val, local, gs, hs, q.lam, w, q.d as int, a, b),
{
    let d = q.d as int;
    let start = (zeros(d * d), zeros(d));
    let st = choose|st: (Seq<F64>, Seq<F64>)| #[trigger]
        runs(
            (zeros(q.d * q.d), zeros(q.d as int)),
            rows.len(),
            add_sample::<A>(q.d as int, q.s0, w, local, rows, labels, weights),
            st,
        ) && runs(st, (q.d - 1) as nat, add_ridge::<A>(q.d as int, q.lam, w), (a, b));
    lemma_ridge_gain::<A, T>(ring, val, d, q.lam, w, (d - 1) as nat, st, (a, b));
    let (gs, hs) = lemma_samples_gain::<A, T>(
        ring,
        val,
        d,
        q.s0,
        w,
        local,
        rows,
        labels,
        weights,
        rows.len(),
        start,
        st,
    );
    let lv = val(q.lam)->0;
    assert forall|p: int, r: int| 0 <= p < d && 0 <= r < d implies val(
        #[trigger] cell(a, d, p, r),
    ) == Some(normal_cell(ring, val, local, hs, q.lam, p, r)) by {
        lemma_cell_in_range(d, p, r);
        assert(val(cell(a, d, p, r)) is Some);
        assert(val(cell(st.0, d, p, r)) is Some);
        assert(cell(start.0, d, p, r) == F64::zero());
        let s = ring.sum_to(outer_term(ring, val, local, hs, p, r), rows.len() as int);
        ring.lemma_sum_with_zero(s);
        assert(ridge_delta(ring, lv, d - 1)(p, r) == if p == r && p >= 1 {
            lv
        } else {
            ring.zero
        });
    }
    assert forall|i: int| 0 <= i < d implies val(#[trigger] b[i]) == Some(
        normal_component(ring, val, local, gs, q.lam, w, i),
    ) by {
        assert(val(b[i]) is Some);
        assert(val(st.1[i]) is Some);
        assert(start.1[i] == F64::zero());
        let s = ring.sum_to(inner_term(ring, val, local, gs, i), rows.len() as int);
        ring.lemma_sum_with_zero(s);
    }
}

/// Row `i` of `(Σ h x xᵀ + λI) δ`.
pub open spec fn normal_times<T>(
    ring: Ring<T>,
    val: spec_fn(F64) -> Option<T>,
    local: Seq<Seq<(usize, F64)>>,
    hs: Seq<F64>,
    lam: F64,
    d: int,
    delta: Seq<F64>,
    i: int,
) -> T {
    ring.sum_to(
        |j: int| ring.product(normal_cell(ring, val, local, hs, lam, i, j), val(delta[j])->0),
        d,
    )
}

proof fn lemma_normal_cells_symmetric<T>(
    ring: Ring<T>,
    val: spec_fn(F64) -> Option<T>,
    local: Seq<Seq<(usize, F64)>>,
    hs: Seq<F64>,
    lam: F64,
    p: int,
    q: int,
)
    requires
        ring.obeys_laws(),
    ensures
        normal_cell(ring, val, local, hs, lam, p, q) == normal_cell(
            ring,
            val,
            local,
            hs,
            lam,
            q,
            p,
        ),
{
    let f = outer_term(ring, val, local, hs, p, q);
    let g = outer_term(ring, val, local, hs, q, p);
    assert forall|k: int| 0 <= k < hs.len() implies #[trigger] f(k) == g(k) by {
        ring.lemma_product_commutes(
            design(ring, val, local[k], p),
            design(ring, val, local[k], q),
        );
    }
    ring.lemma_sum_agrees(f, g, hs.len() as int);
}

/// A Newton step that was computed exactly goes from `w` to `w - δ` with
/// `(Σ h x xᵀ + λI) δ = Σ g x + λ w`.
pub proof fn lemma_newton_step_solves_normal_equations<A: Arith, T>(
    ring: Ring<T>,
    val: spec_fn(F64) -> Option<T>,
    q: Problem,
    local: Seq<Seq<(usize, F64)>>,
    rows: Seq<u32>,
    labels: Seq<u8>,
    weights: Seq<F32>,
    w: Seq<F64>,
    a: Seq<F64>,
    b: Seq<F64>,
    delta: Seq<F64>,
    w2: Seq<F64>,
)
    requires
        ring.obeys_laws(),
        stays_exact::<A, T>(ring, val),
        is_newton_system::<A>(q, local, rows, labels, weights, w, a, b),
        is_solution::<A>(a, b, q.d as int, delta),
        are_stepped::<A>(w, delta, w2),
        q.d > 0,
        forall|k: int| 0 <= k < rows.len() ==> slots_after_intercept(#[trigger] local[k], q.d as int),
        exact_matrix(val, q.d as int, a),
        exact_vector(val, q.d as int, b),
        exact_vector(val, q.d as int, w2),
    ensures
        exists|gs: Seq<F64>, hs: Seq<F64>| #[trigger]
            are_row_stats::<A>(q.s0, w, local, rows, labels, weights, rows.len(), gs, hs)
                && exact_vector(val, rows.len() as int, gs) && exact_vector(
                val,
                rows.len() as int,
                hs,
            ) && (forall|i: int|
                0 <= i < q.d ==> #[trigger] normal_times(
                    ring,
                    val,
                    local,
                    hs,
                    q.lam,
                    q.d as int,
                    delta,
                    i,
                ) == normal_component(ring, val, local, gs, q.lam, w, i)),
        forall|i: int|
            0 <= i < q.d ==> val(#[trigger] w2[i]) == Some(
                ring.difference(val(w[i])->0, val(delta[i])->0),
            ),
{
    let d = q.d as int;
    assert forall|i: int| 0 <= i < d implies val(#[trigger] delta[i]) is Some && val(w2[i]) == Some(
        ring.difference(val(w[i])->0, val(delta[i])->0),
    ) by {
        assert(is_diff::<A>(w[i], delta[i], w2[i]));
    }
    lemma_newton_system_is_normal_equations::<A, T>(
        ring,
        val,
        q,
        local,
        rows,
        labels,
        weights,
        w,
        a,
        b,
    );
    let (gs, hs) = choose|gs: Seq<F64>, hs: Seq<F64>| #[trigger]
        are_row_stats::<A>(q.s0, w, local, rows, labels, weights, rows.len(), gs, hs)
            && exact_vector(val, rows.len() as int, gs) && exact_vector(
            val,
            rows.len() as int,
            hs,
        ) && are_normal_equations(ring, val, local, gs, hs, q.lam, w, d, a, b);
    assert forall|i: int| 0 <= i < d implies #[trigger] normal_times(
        ring,
        val,
        local,
        hs,
        q.lam,
        d,
        delta,
        i,
    ) == normal_component(ring, val, local, gs, q.lam, w, i) by {
        lemma_solution_solves::<A, T>(ring, val, a, b, d, delta, i);
        let f = |j: int| ring.product(symmetric_cell(val, a, d, i, j), val(delta[j])->0);
        let g = |j: int|
            ring.product(normal_cell(ring, val, local, hs, q.lam, i, j), val(delta[j])->0);
        assert forall|j: int| 0 <= j < d implies #[trigger] f(j) == g(j) by {
            lemma_normal_cells_symmetric(ring, val, local, hs, q.lam, i, j);
            assert(val(cell(a, d, i, j)) is Some);
            assert(val(cell(a, d, j, i)) is Some);
        }
        ring.lemma_sum_agrees(f, g, d);
        assert(val(b[i]) is Some);
    }
}

proof fn lemma_with_slots_holds(seen: Seq<u32>, e: Seq<(u32, F32)>, gi: u32)
    requires
        seen.contains(gi) || exists|m: int| 0 <= m < e.len() && (#[trigger] e[m]).0 == gi,
    ensures
        with_slots(seen, e).contains(gi),
    decreases e.len(),
{
    if e.len() > 0 {
        let front = e.drop_last();
        let s = with_slots(seen, front);
        if e.last().0 != gi {
            if !seen.contains(gi) {
                let m = choose|m: int| 0 <= m < e.len() && (#[trigger] e[m]).0 == gi;
                assert(front[m] == e[m]);
            }
            lemma_with_slots_holds(seen, front, gi);
            let i = choose|i: int| 0 <= i < s.len() && s[i] == gi;
            assert(with_slots(seen, e)[i] == gi);
        } else if !s.contains(gi) {
            assert(with_slots(seen, e)[s.len() as int] == gi);
        }
    }
}

pub(crate) proof fn lemma_active_slots_hold(phis: Seq<Seq<(u32, F32)>>, k: int, m: int)
    requires
        0 <= k < phis.len(),
        0 <= m < phis[k].len(),
    ensures
        active_slots(phis).contains(phis[k][m].0),
    decreases phis.len(),
{
    let front = phis.drop_last();
    if k < phis.len() - 1 {
        assert(front[k] == phis[k]);
        lemma_active_slots_hold(front, k, m);
    }
    lemma_with_slots_holds(active_slots(front), phis.last(), phis[k][m].0);
}

/// Every entry of a leaf's rows stands after the intercept, in a slot of the leaf's own.
pub proof fn lemma_local_slots_follow_intercept(phis: Seq<Seq<(u32, F32)>>, k: int)
    requires
        0 <= k < phis.len(),
        active_slots(phis).len() < usize::MAX,
    ensures
        slots_after_intercept(local_rows(phis)[k], active_slots(phis).len() as int + 1),
{
    let active = active_slots(phis);
    assert forall|m: int| 0 <= m < local_rows(phis)[k].len() implies 1 <= (
    #[trigger] local_rows(phis)[k][m]).0 < active.len() as int + 1 by {
        lemma_active_slots_hold(phis, k, m);
        let gi = phis[k][m].0;
        let i = active.index_of(gi);
        assert(0 <= i < active.len() && active[i] == gi);
    }
}

} // verus!
