//! What the temporal split and the synthetic benchmark are.

use vstd::prelude::*;
use crate::arith::{
    is_diff32, is_exp32, is_index, is_int, is_logistic32, is_prod, is_prod32, is_round, is_sum32,
    is_trace, lemma_runs_last, runs, Arith,
};
use crate::data::{
    add_draw, add_log_odds_term, are_synthetic_rows, draw, is_drawn_label, is_log_odds_term,
    is_masked_cat, is_masked_num, is_normal, is_risk, is_six_draws, is_synthetic,
    is_synthetic_column, is_synthetic_row, is_target_log_odds, is_train_count, is_uniform, Dataset,
    SyntheticRow, MISSING_CAT,
};
use crate::exact::{converts_exactly, stays_exact, stays_exact32, sums_exactly32, Ring};
use crate::float::{F32, F64};
use crate::leaf_laws::lemma_logistic32_is_share;
use vstd::arithmetic::power2::pow2;

verus! {

/// The temporal split takes its share: the number of training rows is `n · frac`, which `y` is,
/// rounded, which `z` is.
pub proof fn lemma_train_count_is_share<A: Arith, T>(
    ring: Ring<T>,
    val: spec_fn(F64) -> Option<T>,
    n: int,
    frac: F64,
    k: usize,
) -> (r: (F64, F64))
    requires
        stays_exact::<A, T>(ring, val),
        converts_exactly::<A, T>(ring, val),
        0 <= n,
        is_train_count::<A>(n, frac, k),
    ensures
        val(r.0) is Some ==> val(r.0)->0 == ring.product(ring.count(n), val(frac)->0),
        is_round::<A>(r.0, r.1),
        is_index::<A>(r.1, k),
{
    let (x, y, z) = choose|x: F64, y: F64, z: F64| #[trigger]
        is_int::<A>(n, x) && #[trigger] is_prod::<A>(x, frac, y) && #[trigger] is_round::<A>(y, z)
            && is_index::<A>(z, k);
    (y, z)
}

/// What a number stands for.
pub open spec fn stands<T>(val: spec_fn(F64) -> Option<T>, x: F32) -> T {
    val(x.spec_widened())->0
}

proof fn lemma_terms_summed<A: Arith, T>(
    ring: Ring<T>,
    val: spec_fn(F64) -> Option<T>,
    num: Seq<F32>,
    cat0: u64,
    cat1: u64,
    risk: F32,
    init: F32,
    n: nat,
    s: F32,
) -> (ts: Seq<F32>)
    requires
        ring.obeys_laws(),
        sums_exactly32::<A, T>(ring, val),
        runs(init, n, add_log_odds_term::<A>(num, cat0, cat1, risk), s),
    ensures
        ts.len() == n,
        forall|i: int|
            0 <= i < n ==> is_log_odds_term::<A>(num, cat0, cat1, risk, i, #[trigger] ts[i]),
        val(s.spec_widened()) is Some ==> val(init.spec_widened()) is Some && stands(val, s)
            == ring.sum_of(
            stands(val, init),
            ring.sum_to(|i: int| stands(val, ts[i]), n as int),
        ) && forall|i: int| 0 <= i < n ==> val((#[trigger] ts[i]).spec_widened()) is Some,
    decreases n,
{
    let step = add_log_odds_term::<A>(num, cat0, cat1, risk);
    if n > 0 {
        let k = n - 1;
        let m = lemma_runs_last(init, n, step, s);
        assert(step(k, m, s));
        let t = choose|t: F32| #[trigger]
            is_log_odds_term::<A>(num, cat0, cat1, risk, k, t) && is_sum32::<A>(m, t, s);
        let front = lemma_terms_summed::<A, T>(
            ring,
            val,
            num,
            cat0,
            cat1,
            risk,
            init,
            k as nat,
            m,
        );
        let ts = front.push(t);
        let (f, g) = (|i: int| stands(val, ts[i]), |i: int| stands(val, front[i]));
        ring.lemma_sum_agrees(f, g, k);
        ring.lemma_sum_associates(stands(val, init), ring.sum_to(g, k), stands(val, t));
        assert forall|i: int| 0 <= i < n implies is_log_odds_term::<A>(
            num,
            cat0,
            cat1,
            risk,
            i,
            #[trigger] ts[i],
        ) by {
            if i < k {
                assert(ts[i] == front[i]);
            }
        }
        if val(s.spec_widened()) is Some {
            assert forall|i: int| 0 <= i < n implies val((#[trigger] ts[i]).spec_widened())
                is Some by {
                if i < k {
                    assert(ts[i] == front[i]);
                }
            }
        }
        ts
    } else {
        let tr = choose|tr: Seq<F32>| #[trigger] is_trace(init, n, step, tr) && tr[0] == s;
        ring.lemma_sum_with_zero(stands(val, init));
        Seq::empty()
    }
}

/// The true log-odds of a benchmark row are `-3.2 + 0.8 (x0² - 1) ± 1.1 x1 + 0.6 x2`, plus `1.3`
/// for the first two values of the second category, plus the risk of the id; the sign is that of
/// the first category's parity.
pub proof fn lemma_target_log_odds_add_up<A: Arith, T>(
    ring: Ring<T>,
    val: spec_fn(F64) -> Option<T>,
    num: Seq<F32>,
    cat0: u64,
    cat1: u64,
    risk: F32,
    s: F32,
)
    requires
        ring.obeys_laws(),
        stays_exact32::<A, T>(ring, val),
        sums_exactly32::<A, T>(ring, val),
        is_target_log_odds::<A>(num, cat0, cat1, risk, s),
        val(s.spec_widened()) is Some,
    ensures
        ({
            let sign = if cat0 % 2 == 0 {
                F32::one()
            } else {
                F32::one().spec_negated()
            };
            let bend = ring.product(
                stands(val, F32 { bits: 0x3f4c_cccd }),
                ring.difference(
                    ring.product(stands(val, num[0]), stands(val, num[0])),
                    ring.one,
                ),
            );
            let cross = ring.product(
                ring.product(stands(val, F32 { bits: 0x3f8c_cccd }), stands(val, num[1])),
                stands(val, sign),
            );
            let line = ring.product(stands(val, F32 { bits: 0x3f19_999a }), stands(val, num[2]));
            let jump = if cat1 < 2 {
                stands(val, F32 { bits: 0x3fa6_6666 })
            } else {
                stands(val, F32::zero())
            };
            stands(val, s) == ring.sum_of(
                stands(val, F32 { bits: 0xc04c_cccd }),
                ring.sum_of(
                    ring.sum_of(
                        ring.sum_of(ring.sum_of(bend, cross), line),
                        jump,
                    ),
                    stands(val, risk),
                ),
            )
        }),
{
    let init = F32 { bits: 0xc04c_cccd };
    let ts = lemma_terms_summed::<A, T>(ring, val, num, cat0, cat1, risk, init, 5, s);
    assert forall|i: int| 0 <= i < 5 implies val((#[trigger] ts[i]).spec_widened()) is Some
        && is_log_odds_term::<A>(num, cat0, cat1, risk, i, ts[i]) by {}
    let (t0, t1, t2, t3, t4) = (ts[0], ts[1], ts[2], ts[3], ts[4]);
    assert(is_log_odds_term::<A>(num, cat0, cat1, risk, 0, t0));
    assert(is_log_odds_term::<A>(num, cat0, cat1, risk, 1, t1));
    assert(is_log_odds_term::<A>(num, cat0, cat1, risk, 2, t2));
    assert(is_log_odds_term::<A>(num, cat0, cat1, risk, 3, t3));
    assert(is_log_odds_term::<A>(num, cat0, cat1, risk, 4, t4));
    let (q, d) = choose|q: F32, d: F32| #[trigger]
        is_prod32::<A>(num[0], num[0], q) && #[trigger] is_diff32::<A>(q, F32::one(), d)
            && is_prod32::<A>(F32 { bits: 0x3f4c_cccd }, d, t0);
    let f = |i: int| stands(val, ts[i]);
    reveal_with_fuel(Ring::sum_to, 6);
    ring.lemma_sum_with_zero(f(0));
    assert(ring.sum_to(f, 5) == ring.sum_of(
        ring.sum_of(ring.sum_of(ring.sum_of(f(0), f(1)), f(2)), f(3)),
        f(4),
    ));
}

/// A normal draw is six uniform draws: their sum less three, times the square root of two. `us`
/// are the draws.
pub proof fn lemma_normal_adds_draws<A: Arith, T>(
    ring: Ring<T>,
    val: spec_fn(F64) -> Option<T>,
    s: u64,
    r: F32,
) -> (us: Seq<F32>)
    requires
        ring.obeys_laws(),
        stays_exact32::<A, T>(ring, val),
        sums_exactly32::<A, T>(ring, val),
        val(F32::zero().spec_widened()) == Some(ring.zero),
        is_normal::<A>(s, r),
    ensures
        us.len() == 6,
        forall|i: int|
            0 <= i < 6 ==> (#[trigger] us[i]).units() == (draw(s, (i + 1) as nat) >> 40) as int
                * pow2(125),
        val(r.spec_widened()) is Some ==> stands(val, r) == ring.product(
            ring.difference(
                ring.sum_to(|i: int| stands(val, us[i]), 6),
                stands(val, F32 { bits: 0x4040_0000 }),
            ),
            stands(val, F32 { bits: 0x3fb5_04f3 }),
        ),
{
    let (t, d) = choose|t: F32, d: F32| #[trigger]
        is_six_draws::<A>(s, t) && #[trigger] is_diff32::<A>(t, F32 { bits: 0x4040_0000 }, d)
            && is_prod32::<A>(d, F32 { bits: 0x3fb5_04f3 }, r);
    lemma_draws_summed::<A, T>(ring, val, s, 6, t)
}

proof fn lemma_draws_summed<A: Arith, T>(
    ring: Ring<T>,
    val: spec_fn(F64) -> Option<T>,
    s: u64,
    n: nat,
    t: F32,
) -> (us: Seq<F32>)
    requires
        sums_exactly32::<A, T>(ring, val),
        val(F32::zero().spec_widened()) == Some(ring.zero),
        runs(F32::zero(), n, add_draw::<A>(s), t),
    ensures
        us.len() == n,
        forall|i: int| 0 <= i < n ==> is_uniform(draw(s, (i + 1) as nat), #[trigger] us[i]),
        val(t.spec_widened()) is Some ==> stands(val, t) == ring.sum_to(
            |i: int| stands(val, us[i]),
            n as int,
        ),
    decreases n,
{
    let step = add_draw::<A>(s);
    if n > 0 {
        let k = n - 1;
        let m = lemma_runs_last(F32::zero(), n, step, t);
        assert(step(k, m, t));
        let u = choose|u: F32| #[trigger]
            is_uniform(draw(s, (k + 1) as nat), u) && is_sum32::<A>(m, u, t);
        let front = lemma_draws_summed::<A, T>(ring, val, s, k as nat, m);
        let us = front.push(u);
        let (f, g) = (|i: int| stands(val, us[i]), |i: int| stands(val, front[i]));
        ring.lemma_sum_agrees(f, g, k);
        assert forall|i: int| 0 <= i < n implies is_uniform(
            draw(s, (i + 1) as nat),
            #[trigger] us[i],
        ) by {
            if i < k {
                assert(us[i] == front[i]);
            }
        }
        us
    } else {
        let tr = choose|tr: Seq<F32>| #[trigger] is_trace(F32::zero(), n, step, tr) && tr[0] == t;
        Seq::empty()
    }
}

/// A benchmark label is positive with its probability: it is one where the uniform draw `u` is
/// less than `p`, and `p (1 + exp(-s)) = 1`.
pub proof fn lemma_label_is_drawn<A: Arith, T>(
    ring: Ring<T>,
    val: spec_fn(F64) -> Option<T>,
    x: u64,
    s: F32,
    label: u8,
) -> (r: (F32, F32, F32))
    requires
        stays_exact32::<A, T>(ring, val),
        sums_exactly32::<A, T>(ring, val),
        is_drawn_label::<A>(x, s, label),
    ensures
        r.0.units() == (x >> 40) as int * pow2(125),
        label <= 1,
        label == 1 <==> r.0.lt(r.1),
        is_exp32::<A>(s.spec_negated(), r.2),
        val(r.1.spec_widened()) is Some ==> ring.product(
            stands(val, r.1),
            ring.sum_of(ring.one, stands(val, r.2)),
        ) == ring.one,
{
    let (p, u) = choose|p: F32, u: F32| #[trigger]
        is_logistic32::<A>(s, p) && #[trigger] is_uniform(x, u) && label == if u.lt(p) {
            1u8
        } else {
            0u8
        };
    let e = lemma_logistic32_is_share::<A, T>(ring, val, s, p);
    (u, p, e)
}

/// A benchmark value is the drawn one or missing, and missing where the uniform draw is small.
pub proof fn lemma_masks_hide_few(x: u64, v: F32, stored: F32, y: u64, c: u64, code: i64) -> (r: (
    F32,
    F32,
))
    requires
        is_masked_num(x, v, stored),
        is_masked_cat(y, c, code),
        c < 0x8000_0000_0000_0000,
    ensures
        r.0.units() == (x >> 40) as int * pow2(125),
        r.1.units() == (y >> 40) as int * pow2(125),
        r.0.lt(F32 { bits: 0x3cf5_c28f }) ==> stored.spec_is_nan(),
        !r.0.lt(F32 { bits: 0x3cf5_c28f }) ==> stored == v,
        r.1.lt(F32 { bits: 0x3ca3_d70a }) ==> code == MISSING_CAT,
        !r.1.lt(F32 { bits: 0x3ca3_d70a }) ==> code == c,
{
    let u = choose|u: F32| #[trigger]
        is_uniform(x, u) && stored == if u.lt(F32 { bits: 0x3cf5_c28f }) {
            F32 { bits: 0x7fc0_0000 }
        } else {
            v
        };
    let w = choose|u: F32| #[trigger]
        is_uniform(y, u) && code == if u.lt(F32 { bits: 0x3ca3_d70a }) {
            MISSING_CAT as int
        } else {
            c as int
        };
    (u, w)
}

/// What a benchmark is made of. Ten numeric, ten bounded and five high-card columns hold the
/// values of the rows; row `r` is drawn after the risks of the ids and the rows before. Its
/// numbers are normal draws, its bounded categories one of eight, its ids one of 5000; its label
/// is drawn with the true log-odds of its values and the risk of its first id; and some of its
/// numbers and bounded categories are then hidden. `nums` are the numbers before that, `odds` the
/// log-odds, and `risk` the risks.
pub proof fn lemma_benchmark_rows_are_drawn<A: Arith>(n: int, seed: u64, ds: Dataset, r: int) -> (f: (
    Seq<F32>,
    F32,
    Seq<F32>,
))
    requires
        is_synthetic::<A>(n, seed, ds),
        0 <= r < n,
    ensures
        ds.columns.len() == 25,
        ds.labels.len() == n,
        ds.weights.len() == n,
        ds.weights[r] == F32::one(),
        f.2.len() == 5000,
        forall|k: int|
            0 <= k < 5000 ==> is_risk::<A>(draw(seed | 1, (6 * k) as nat), #[trigger] f.2[k]),
        f.0.len() == 10,
        ({
            let s = draw(seed | 1, (30000 + 96 * r) as nat);
            &&& forall|j: int|
                0 <= j < 10 ==> is_normal::<A>(draw(s, (6 * j) as nat), #[trigger] f.0[j])
            &&& is_target_log_odds::<A>(
                f.0,
                draw(s, 61) % 8,
                draw(s, 62) % 8,
                f.2[(draw(s, 71) % 5000) as int],
                f.1,
            )
            &&& is_drawn_label::<A>(draw(s, 76), f.1, ds.labels[r])
            &&& forall|j: int|
                0 <= j < 10 ==> (#[trigger] ds.columns[j]) is Numeric && is_masked_num(
                    draw(s, (77 + j) as nat),
                    f.0[j],
                    ds.columns[j]->Numeric_0[r],
                )
            &&& forall|j: int|
                0 <= j < 10 ==> (#[trigger] ds.columns[j + 10]) is Categorical && is_masked_cat(
                    draw(s, (87 + j) as nat),
                    draw(s, (61 + j) as nat) % 8,
                    ds.columns[j + 10]->Categorical_0[r],
                )
            &&& forall|j: int|
                0 <= j < 5 ==> (#[trigger] ds.columns[j + 20]) is Categorical
                    && ds.columns[j + 20]->Categorical_0[r] == draw(s, (71 + j) as nat) % 5000
        }),
{
    let (risk, rows) = choose|risk: Seq<F32>, rows: Seq<SyntheticRow>|
        {
            &&& rows.len() == n
            &&& #[trigger] are_synthetic_rows::<A>(seed, risk, rows)
            &&& forall|i: int| 0 <= i < 25 ==> is_synthetic_column(rows, i, #[trigger] ds.columns[i])
            &&& ds.labels.len() == n
            &&& forall|r: int| 0 <= r < n ==> #[trigger] ds.labels[r] == rows[r].label
        };
    let s = draw(seed | 1, (30000 + 96 * r) as nat);
    let row = rows[r];
    assert(is_synthetic_row::<A>(s, risk, row));
    assert(ds.labels[r] == row.label);
    let (num, odds) = choose|num: Seq<F32>, odds: F32|
        {
            &&& num.len() == 10
            &&& forall|j: int|
                0 <= j < 10 ==> is_normal::<A>(draw(s, (6 * j) as nat), #[trigger] num[j])
            &&& #[trigger] is_target_log_odds::<A>(
                num,
                draw(s, 61) % 8,
                draw(s, 62) % 8,
                risk[(draw(s, 71) % 5000) as int],
                odds,
            )
            &&& is_drawn_label::<A>(draw(s, 76), odds, row.label)
            &&& forall|j: int|
                0 <= j < 10 ==> is_masked_num(
                    draw(s, (77 + j) as nat),
                    num[j],
                    #[trigger] row.num[j],
                )
        };
    assert forall|j: int| 0 <= j < 10 implies (#[trigger] ds.columns[j]) is Numeric
        && is_masked_num(
        draw(s, (77 + j) as nat),
        num[j],
        ds.columns[j]->Numeric_0[r],
    ) by {
        assert(is_synthetic_column(rows, j, ds.columns[j]));
        assert(is_masked_num(draw(s, (77 + j) as nat), num[j], row.num[j]));
    }
    assert forall|j: int| 0 <= j < 10 implies (#[trigger] ds.columns[j + 10]) is Categorical
        && is_masked_cat(
        draw(s, (87 + j) as nat),
        draw(s, (61 + j) as nat) % 8,
        ds.columns[j + 10]->Categorical_0[r],
    ) by {
        assert(is_synthetic_column(rows, j + 10, ds.columns[j + 10]));
        assert(is_masked_cat(
            draw(s, (87 + j) as nat),
            draw(s, (61 + j) as nat) % 8,
            row.bcat[j],
        ));
    }
    assert forall|j: int| 0 <= j < 5 implies (#[trigger] ds.columns[j + 20]) is Categorical
        && ds.columns[j + 20]->Categorical_0[r] == draw(s, (71 + j) as nat) % 5000 by {
        assert(is_synthetic_column(rows, j + 20, ds.columns[j + 20]));
        assert(row.hcat[j] == draw(s, (71 + j) as nat) % 5000);
    }
    (num, odds, risk)
}

/// The risk of an id is 0.9 times a normal draw, `z`.
pub proof fn lemma_risk_is_scaled_draw<A: Arith, T>(
    ring: Ring<T>,
    val: spec_fn(F64) -> Option<T>,
    s: u64,
    risk: F32,
) -> (z: F32)
    requires
        stays_exact32::<A, T>(ring, val),
        is_risk::<A>(s, risk),
    ensures
        is_normal::<A>(s, z),
        val(risk.spec_widened()) is Some ==> stands(val, risk) == ring.product(
            stands(val, z),
            stands(val, F32 { bits: 0x3f66_6666 }),
        ),
{
    choose|z: F32| #[trigger]
        is_normal::<A>(s, z) && is_prod32::<A>(z, F32 { bits: 0x3f66_6666 }, risk)
}

} // verus!
