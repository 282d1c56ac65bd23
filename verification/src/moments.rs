//! What the split search scores where nothing was rounded: the moments of the two sides of a
//! candidate split are those of the rows that the split sends there.

use vstd::prelude::*;
use crate::arith::{
    deterministic, folds, is_diff, is_prod, is_quot, is_sum, is_trace, item_step, lemma_folds_last,
    Arith,
};
use crate::encoding::{ascending, is_interpolation, is_knot_count, EncCol};
use crate::exact::{negates_exactly, stays_exact, Ring};
use crate::float::{F32, F64};
use crate::seqs::{lemma_filter_all, lemma_filter_none, lemma_filter_props};
use crate::tree::{
    add_bin, add_missing, add_parent_row, add_value, are_bins, are_left_sides, are_numeric_gains,
    are_threshold_gains, in_bin, in_first_bins, is_best_numeric, is_bin_diff, is_bin_of, is_bin_sum,
    is_cross_diff, is_cross_sum, is_determinant, is_direction_gain, is_gain, is_missing_added,
    is_moment_added, is_numeric_pick, is_parent_row_added, is_parent_z, is_product_sum,
    is_quadratic_score, is_score_const, is_score_linear, is_scored_split, is_side, is_side_score,
    is_value_added, is_znorm, lacks_value, left_before, lemma_bin_exists, lemma_bin_unique,
    lemma_scan_best_in_range, min_determinant, row_goes_left, row_goes_right, rows_in_bins,
    scan_best, Bin, Candidate, Split,
};
use crate::{Config, GainKind};

verus! {

/// The normalized value of a row whose value is `v`: zero where it is missing.
pub open spec fn row_z<A: Arith>(knots: Seq<F32>, v: F32) -> F64 {
    choose|z: F64| is_parent_z::<A>(knots, v, z)
}

/// With deterministic arithmetic a value has one normalized value.
pub(crate) proof fn lemma_row_z<A: Arith>(knots: Seq<F32>, v: F32, z: F64)
    requires
        deterministic::<A>(),
        is_parent_z::<A>(knots, v, z),
    ensures
        z == row_z::<A>(knots, v),
{
    let y = row_z::<A>(knots, v);
    assert(is_parent_z::<A>(knots, v, y));
    let (lo, hi) = (knots[0], knots[knots.len() - 1]);
    if !v.spec_is_nan() && !hi.le(lo) {
        let t = choose|t: F32| #[trigger]
            is_interpolation::<A>(lo, hi, v, t) && z == t.spec_widened().spec_clamped(
                F64::zero(),
                F64::one(),
            );
        let u = choose|t: F32| #[trigger]
            is_interpolation::<A>(lo, hi, v, t) && y == t.spec_widened().spec_clamped(
                F64::zero(),
                F64::one(),
            );
        assert(t == u);
    }
}

/// What row `r` adds to a sum of gradients (or hessians), exactly.
pub open spec fn row_val<T>(
    val: spec_fn(F64) -> Option<T>,
    g: Seq<F32>,
) -> spec_fn(u32) -> T {
    |r: u32| val(g[r as int].spec_widened())->0
}

/// What row `r` adds to `Σ g z̃` (or `Σ h z̃`), exactly.
pub open spec fn row_val_z<A: Arith, T>(
    ring: Ring<T>,
    val: spec_fn(F64) -> Option<T>,
    vals: Seq<F32>,
    knots: Seq<F32>,
    g: Seq<F32>,
) -> spec_fn(u32) -> T {
    |r: u32| ring.product(row_val(val, g)(r), val(row_z::<A>(knots, vals[r as int]))->0)
}

/// What row `r` adds to `Σ h z̃²`, exactly.
pub open spec fn row_val_zz<A: Arith, T>(
    ring: Ring<T>,
    val: spec_fn(F64) -> Option<T>,
    vals: Seq<F32>,
    knots: Seq<F32>,
    h: Seq<F32>,
) -> spec_fn(u32) -> T {
    |r: u32|
        ring.product(
            row_val_z::<A, T>(ring, val, vals, knots, h)(r),
            val(row_z::<A>(knots, vals[r as int]))->0,
        )
}

/// One moment of a bin is exact, and the sum of `f` over the rows.
pub open spec fn holds_total<T>(
    ring: Ring<T>,
    val: spec_fn(F64) -> Option<T>,
    pick: spec_fn(Bin) -> F64,
    f: spec_fn(u32) -> T,
    rows: Seq<u32>,
    bin: Bin,
) -> bool {
    val(pick(bin)) == Some(ring.total(f, rows))
}

/// `b` has `x` more than `a`.
spec fn adds<T>(
    ring: Ring<T>,
    val: spec_fn(F64) -> Option<T>,
    pick: spec_fn(Bin) -> F64,
    x: T,
    a: Bin,
    b: Bin,
) -> bool {
    val(pick(b)) is Some ==> val(pick(a)) is Some && val(pick(b))->0 == ring.sum_of(
        val(pick(a))->0,
        x,
    )
}

/// `pick` is a moment of a bin to which row `r` adds `f(r)`.
#[verifier::opaque]
spec fn is_moment<A: Arith, T>(
    ring: Ring<T>,
    val: spec_fn(F64) -> Option<T>,
    vals: Seq<F32>,
    knots: Seq<F32>,
    g: Seq<F32>,
    h: Seq<F32>,
    pick: spec_fn(Bin) -> F64,
    f: spec_fn(u32) -> T,
) -> bool {
    &&& pick(Bin::empty()) == F64::zero()
    &&& forall|a: Bin, b: Bin, r: Bin| #[trigger]
        is_bin_sum::<A>(a, b, r) ==> is_sum::<A>(pick(a), pick(b), pick(r))
    &&& forall|a: Bin, b: Bin, r: Bin| #[trigger]
        is_bin_diff::<A>(a, b, r) ==> is_diff::<A>(pick(a), pick(b), pick(r))
    &&& forall|x: u32, a: Bin, b: Bin| #[trigger]
        add_value::<A>(vals, knots, g, h)(x, a, b) && !vals[x as int].spec_is_nan() ==> adds(
            ring,
            val,
            pick,
            f(x),
            a,
            b,
        )
    &&& forall|x: u32, a: Bin, b: Bin| #[trigger]
        add_missing::<A>(g, h)(x, a, b) && vals[x as int].spec_is_nan() ==> adds(
            ring,
            val,
            pick,
            f(x),
            a,
            b,
        )
    &&& forall|x: u32, a: Bin, b: Bin| #[trigger]
        add_parent_row::<A>(vals, knots, g, h)(x, a, b) ==> adds(ring, val, pick, f(x), a, b)
    &&& forall|s: Bin, m: Bin, r: Bin| #[trigger]
        is_side::<A>(s, m, true, r) ==> is_sum::<A>(pick(s), pick(m), pick(r)) || pick(r) == pick(s)
            && forall|x: u32| vals[x as int].spec_is_nan() ==> #[trigger] f(x) == ring.zero
}

proof fn lemma_plain_moment<A: Arith, T>(
    ring: Ring<T>,
    val: spec_fn(F64) -> Option<T>,
    vals: Seq<F32>,
    knots: Seq<F32>,
    g: Seq<F32>,
    h: Seq<F32>,
)
    requires
        stays_exact::<A, T>(ring, val),
    ensures
        is_moment::<A, T>(ring, val, vals, knots, g, h, |b: Bin| b.g, row_val(val, g)),
        is_moment::<A, T>(ring, val, vals, knots, g, h, |b: Bin| b.h, row_val(val, h)),
{
    reveal(is_moment);
    assert forall|x: u32, a: Bin, b: Bin| #[trigger]
        add_value::<A>(vals, knots, g, h)(x, a, b) implies is_sum::<A>(
        a.g,
        g[x as int].spec_widened(),
        b.g,
    ) && is_sum::<A>(a.h, h[x as int].spec_widened(), b.h) by {
        assert(is_value_added::<A>(knots, vals[x as int], g[x as int], h[x as int], a, b));
    }
    assert forall|x: u32, a: Bin, b: Bin| #[trigger]
        add_missing::<A>(g, h)(x, a, b) implies is_sum::<A>(
        a.g,
        g[x as int].spec_widened(),
        b.g,
    ) && is_sum::<A>(a.h, h[x as int].spec_widened(), b.h) by {
        assert(is_missing_added::<A>(g[x as int], h[x as int], a, b));
    }
    assert forall|x: u32, a: Bin, b: Bin| #[trigger]
        add_parent_row::<A>(vals, knots, g, h)(x, a, b) implies is_sum::<A>(
        a.g,
        g[x as int].spec_widened(),
        b.g,
    ) && is_sum::<A>(a.h, h[x as int].spec_widened(), b.h) by {
        assert(is_parent_row_added::<A>(knots, vals[x as int], g[x as int], h[x as int], a, b));
    }
}

/// The three moments that one row adds, exactly, where its normalized value is `z`.
proof fn lemma_moment_added<A: Arith, T>(
    ring: Ring<T>,
    val: spec_fn(F64) -> Option<T>,
    gi: F64,
    hi: F64,
    z: F64,
    a: Bin,
    b: Bin,
)
    requires
        stays_exact::<A, T>(ring, val),
        is_moment_added::<A>(gi, hi, z, a, b),
    ensures
        adds(ring, val, |c: Bin| c.gz, ring.product(val(gi)->0, val(z)->0), a, b),
        adds(ring, val, |c: Bin| c.hz, ring.product(val(hi)->0, val(z)->0), a, b),
        adds(
            ring,
            val,
            |c: Bin| c.hzz,
            ring.product(ring.product(val(hi)->0, val(z)->0), val(z)->0),
            a,
            b,
        ),
{
    let (gz, hz, hzz) = choose|gz: F64, hz: F64, hzz: F64|
        {
            &&& #[trigger] is_prod::<A>(gi, z, gz)
            &&& #[trigger] is_prod::<A>(hi, z, hz)
            &&& #[trigger] is_prod::<A>(hz, z, hzz)
            &&& is_sum::<A>(a.g, gi, b.g)
            &&& is_sum::<A>(a.h, hi, b.h)
            &&& is_sum::<A>(a.gz, gz, b.gz)
            &&& is_sum::<A>(a.hz, hz, b.hz)
            &&& is_sum::<A>(a.hzz, hzz, b.hzz)
            &&& b.n == a.n + 1
        };
    assert(is_sum::<A>(a.gz, gz, b.gz));
    assert(is_sum::<A>(a.hz, hz, b.hz));
    assert(is_sum::<A>(a.hzz, hzz, b.hzz));
}

proof fn lemma_linear_moments<A: Arith, T>(
    ring: Ring<T>,
    val: spec_fn(F64) -> Option<T>,
    vals: Seq<F32>,
    knots: Seq<F32>,
    g: Seq<F32>,
    h: Seq<F32>,
)
    requires
        ring.obeys_laws(),
        stays_exact::<A, T>(ring, val),
        deterministic::<A>(),
    ensures
        is_moment::<A, T>(
            ring,
            val,
            vals,
            knots,
            g,
            h,
            |b: Bin| b.gz,
            row_val_z::<A, T>(ring, val, vals, knots, g),
        ),
        is_moment::<A, T>(
            ring,
            val,
            vals,
            knots,
            g,
            h,
            |b: Bin| b.hz,
            row_val_z::<A, T>(ring, val, vals, knots, h),
        ),
        is_moment::<A, T>(
            ring,
            val,
            vals,
            knots,
            g,
            h,
            |b: Bin| b.hzz,
            row_val_zz::<A, T>(ring, val, vals, knots, h),
        ),
{
    reveal(is_moment);
    let (gz, hz, hzz) = (|b: Bin| b.gz, |b: Bin| b.hz, |b: Bin| b.hzz);
    let fg = row_val_z::<A, T>(ring, val, vals, knots, g);
    let fh = row_val_z::<A, T>(ring, val, vals, knots, h);
    let fhz = row_val_zz::<A, T>(ring, val, vals, knots, h);
    assert forall|x: u32, a: Bin, b: Bin| #[trigger]
        add_value::<A>(vals, knots, g, h)(x, a, b) && !vals[x as int].spec_is_nan() implies adds(
        ring,
        val,
        gz,
        fg(x),
        a,
        b,
    ) && adds(ring, val, hz, fh(x), a, b) && adds(ring, val, hzz, fhz(x), a, b) by {
        let v = vals[x as int];
        assert(is_value_added::<A>(knots, v, g[x as int], h[x as int], a, b));
        let (gi, hi) = (g[x as int].spec_widened(), h[x as int].spec_widened());
        let z = choose|z: F64| #[trigger]
            is_znorm::<A>(knots, v, z) && is_moment_added::<A>(gi, hi, z, a, b);
        assert(is_parent_z::<A>(knots, v, z));
        lemma_row_z::<A>(knots, v, z);
        lemma_moment_added::<A, T>(ring, val, gi, hi, z, a, b);
    }
    assert forall|x: u32, a: Bin, b: Bin| #[trigger]
        add_parent_row::<A>(vals, knots, g, h)(x, a, b) implies adds(ring, val, gz, fg(x), a, b)
        && adds(ring, val, hz, fh(x), a, b) && adds(ring, val, hzz, fhz(x), a, b) by {
        let v = vals[x as int];
        assert(is_parent_row_added::<A>(knots, v, g[x as int], h[x as int], a, b));
        let (gi, hi) = (g[x as int].spec_widened(), h[x as int].spec_widened());
        let z = choose|z: F64| #[trigger]
            is_parent_z::<A>(knots, v, z) && is_moment_added::<A>(gi, hi, z, a, b);
        lemma_row_z::<A>(knots, v, z);
        lemma_moment_added::<A, T>(ring, val, gi, hi, z, a, b);
    }
    assert forall|x: u32| vals[x as int].spec_is_nan() implies #[trigger] fg(x) == ring.zero
        && fh(x) == ring.zero && fhz(x) == ring.zero by {
        assert(is_parent_z::<A>(knots, vals[x as int], F64::zero()));
        lemma_row_z::<A>(knots, vals[x as int], F64::zero());
        ring.lemma_product_with_zero(row_val(val, g)(x));
        ring.lemma_product_with_zero(row_val(val, h)(x));
        ring.lemma_product_with_zero(fh(x));
    }
    assert forall|x: u32, a: Bin, b: Bin| #[trigger]
        add_missing::<A>(g, h)(x, a, b) && vals[x as int].spec_is_nan() implies adds(
        ring,
        val,
        gz,
        fg(x),
        a,
        b,
    ) && adds(ring, val, hz, fh(x), a, b) && adds(ring, val, hzz, fhz(x), a, b) by {
        assert(is_missing_added::<A>(g[x as int], h[x as int], a, b));
        assert(fg(x) == ring.zero);
        ring.lemma_sum_with_zero(val(a.gz)->0);
        ring.lemma_sum_with_zero(val(a.hz)->0);
        ring.lemma_sum_with_zero(val(a.hzz)->0);
    }
    assert forall|x: u32| vals[x as int].spec_is_nan() implies #[trigger] fh(x) == ring.zero by {
        assert(fg(x) == ring.zero);
    }
    assert forall|x: u32| vals[x as int].spec_is_nan() implies #[trigger] fhz(x) == ring.zero by {
        assert(fg(x) == ring.zero);
    }
}

/// A bin that rows were added to holds their total.
proof fn lemma_fold_total<T>(
    ring: Ring<T>,
    val: spec_fn(F64) -> Option<T>,
    pick: spec_fn(Bin) -> F64,
    f: spec_fn(u32) -> T,
    rows: Seq<u32>,
    step: spec_fn(u32, Bin, Bin) -> bool,
    bin: Bin,
)
    requires
        val(pick(Bin::empty())) == Some(ring.zero),
        folds(Bin::empty(), rows, step, bin),
        val(pick(bin)) is Some,
        forall|i: int, a: Bin, b: Bin|
            0 <= i < rows.len() && #[trigger] step(rows[i], a, b) ==> adds(
                ring,
                val,
                pick,
                f(rows[i]),
                a,
                b,
            ),
    ensures
        holds_total(ring, val, pick, f, rows, bin),
    decreases rows.len(),
{
    if rows.len() > 0 {
        let front = rows.drop_last();
        let m = lemma_folds_last(Bin::empty(), rows, step, bin);
        let last = rows[rows.len() - 1];
        assert(step(last, m, bin));
        assert(adds(ring, val, pick, f(last), m, bin));
        assert forall|i: int, a: Bin, b: Bin|
            0 <= i < front.len() && #[trigger] step(front[i], a, b) implies adds(
            ring,
            val,
            pick,
            f(front[i]),
            a,
            b,
        ) by {
            assert(front[i] == rows[i]);
            assert(step(rows[i], a, b));
        }
        lemma_fold_total(ring, val, pick, f, front, step, m);
    } else {
        let tr = choose|tr: Seq<Bin>| #[trigger]
            is_trace(Bin::empty(), 0, item_step(rows, step), tr) && tr[0] == bin;
    }
}

/// One more bin adds its rows.
proof fn lemma_first_bins_total<A: Arith, T>(
    ring: Ring<T>,
    val: spec_fn(F64) -> Option<T>,
    rows: Seq<u32>,
    vals: Seq<F32>,
    knots: Seq<F32>,
    g: Seq<F32>,
    h: Seq<F32>,
    pick: spec_fn(Bin) -> F64,
    f: spec_fn(u32) -> T,
    bins: Seq<Bin>,
    miss: Bin,
    t: int,
    before: Bin,
    after: Bin,
)
    requires
        ring.obeys_laws(),
        stays_exact::<A, T>(ring, val),
        is_moment::<A, T>(ring, val, vals, knots, g, h, pick, f),
        are_bins::<A>(rows, vals, knots, g, h, bins, miss),
        0 < t <= bins.len(),
        is_bin_sum::<A>(before, bins[t - 1], after),
        val(pick(after)) is Some,
        val(pick(before)) is Some ==> holds_total(
            ring,
            val,
            pick,
            f,
            rows.filter(in_first_bins(vals, knots, t - 1)),
            before,
        ),
    ensures
        holds_total(ring, val, pick, f, rows.filter(in_first_bins(vals, knots, t)), after),
{
    reveal(is_moment);
    let upto = in_first_bins(vals, knots, t);
    let front = in_first_bins(vals, knots, t - 1);
    let own = in_bin(vals, knots, t - 1);
    let bin = bins[t - 1];
    assert(is_bin_of::<A>(rows, vals, knots, g, h, t - 1, bin));
    assert(is_sum::<A>(pick(before), pick(bin), pick(after)));
    let step = add_value::<A>(vals, knots, g, h);
    let kept = rows.filter(own);
    assert forall|i: int, a: Bin, b: Bin|
        0 <= i < kept.len() && #[trigger] step(kept[i], a, b) implies adds(
        ring,
        val,
        pick,
        f(kept[i]),
        a,
        b,
    ) by {
        lemma_filter_props(rows, own);
        assert(own(kept[i]));
    }
    lemma_fold_total(ring, val, pick, f, kept, step, bin);
    assert forall|i: int| 0 <= i < rows.len() implies (upto(#[trigger] rows[i]) <==> front(rows[i])
        || own(rows[i])) && !(front(rows[i]) && own(rows[i])) by {
        let v = vals[rows[i] as int];
        if front(rows[i]) && own(rows[i]) {
            let b = choose|b: int| 0 <= b < t - 1 && #[trigger] is_knot_count(knots, v, b);
            lemma_bin_unique(knots, v, b, t - 1);
        }
        if upto(rows[i]) {
            let b = choose|b: int| 0 <= b < t && #[trigger] is_knot_count(knots, v, b);
            if b < t - 1 {
                assert(front(rows[i]));
            }
        }
    }
    ring.lemma_total_splits(f, rows, front, own, upto);
}

proof fn lemma_left_total<A: Arith, T>(
    ring: Ring<T>,
    val: spec_fn(F64) -> Option<T>,
    rows: Seq<u32>,
    vals: Seq<F32>,
    knots: Seq<F32>,
    g: Seq<F32>,
    h: Seq<F32>,
    pick: spec_fn(Bin) -> F64,
    f: spec_fn(u32) -> T,
    bins: Seq<Bin>,
    miss: Bin,
    lefts: Seq<Bin>,
    t: int,
)
    requires
        ring.obeys_laws(),
        stays_exact::<A, T>(ring, val),
        is_moment::<A, T>(ring, val, vals, knots, g, h, pick, f),
        are_bins::<A>(rows, vals, knots, g, h, bins, miss),
        are_left_sides::<A>(bins, lefts),
        0 <= t <= lefts.len(),
        val(pick(left_before(lefts, t))) is Some,
    ensures
        holds_total(
            ring,
            val,
            pick,
            f,
            rows.filter(in_first_bins(vals, knots, t)),
            left_before(lefts, t),
        ),
    decreases t,
{
    if t > 0 {
        let before = left_before(lefts, t - 1);
        assert(is_bin_sum::<A>(before, bins[t - 1], lefts[t - 1]));
        if val(pick(before)) is Some {
            lemma_left_total::<A, T>(
                ring,
                val,
                rows,
                vals,
                knots,
                g,
                h,
                pick,
                f,
                bins,
                miss,
                lefts,
                t - 1,
            );
        }
        lemma_first_bins_total::<A, T>(
            ring,
            val,
            rows,
            vals,
            knots,
            g,
            h,
            pick,
            f,
            bins,
            miss,
            t,
            before,
            lefts[t - 1],
        );
    } else {
        reveal(is_moment);
        lemma_filter_none(rows, in_first_bins(vals, knots, t));
    }
}

proof fn lemma_all_bins_total<A: Arith, T>(
    ring: Ring<T>,
    val: spec_fn(F64) -> Option<T>,
    rows: Seq<u32>,
    vals: Seq<F32>,
    knots: Seq<F32>,
    g: Seq<F32>,
    h: Seq<F32>,
    pick: spec_fn(Bin) -> F64,
    f: spec_fn(u32) -> T,
    bins: Seq<Bin>,
    miss: Bin,
    t: int,
    tot: Bin,
)
    requires
        ring.obeys_laws(),
        stays_exact::<A, T>(ring, val),
        is_moment::<A, T>(ring, val, vals, knots, g, h, pick, f),
        are_bins::<A>(rows, vals, knots, g, h, bins, miss),
        0 <= t <= bins.len(),
        folds(Bin::empty(), bins.take(t), add_bin::<A>(), tot),
        val(pick(tot)) is Some,
    ensures
        holds_total(ring, val, pick, f, rows.filter(in_first_bins(vals, knots, t)), tot),
    decreases t,
{
    let step = add_bin::<A>();
    let upto = bins.take(t);
    if t > 0 {
        let m = lemma_folds_last(Bin::empty(), upto, step, tot);
        assert(upto.drop_last() =~= bins.take(t - 1));
        assert(upto.last() == bins[t - 1]);
        assert(is_bin_sum::<A>(m, bins[t - 1], tot));
        if val(pick(m)) is Some {
            lemma_all_bins_total::<A, T>(
                ring,
                val,
                rows,
                vals,
                knots,
                g,
                h,
                pick,
                f,
                bins,
                miss,
                t - 1,
                m,
            );
        }
        lemma_first_bins_total::<A, T>(
            ring,
            val,
            rows,
            vals,
            knots,
            g,
            h,
            pick,
            f,
            bins,
            miss,
            t,
            m,
            tot,
        );
    } else {
        reveal(is_moment);
        lemma_filter_none(rows, in_first_bins(vals, knots, t));
        let tr = choose|tr: Seq<Bin>| #[trigger]
            is_trace(Bin::empty(), 0, item_step(upto, step), tr) && tr[0] == tot;
    }
}

/// The totals of the two sides from those below the threshold, of all values, and of the rows
/// without a value.
proof fn lemma_side_totals<T>(
    ring: Ring<T>,
    f: spec_fn(u32) -> T,
    rows: Seq<u32>,
    below: spec_fn(u32) -> bool,
    above: spec_fn(u32) -> bool,
    all: spec_fn(u32) -> bool,
    lacks: spec_fn(u32) -> bool,
    never: spec_fn(u32) -> bool,
    to_left: spec_fn(u32) -> bool,
    to_right: spec_fn(u32) -> bool,
    default_left: bool,
)
    requires
        ring.obeys_laws(),
        rows.filter(never).len() == 0,
        forall|i: int|
            0 <= i < rows.len() ==> {
                let x = #[trigger] rows[i];
                &&& !never(x)
                &&& below(x) ==> all(x)
                &&& above(x) <==> all(x) && !below(x)
                &&& lacks(x) <==> !all(x)
                &&& to_left(x) <==> below(x) || default_left && lacks(x)
                &&& to_right(x) <==> !to_left(x)
            },
    ensures
        ring.total(f, rows.filter(to_left)) == if default_left {
            ring.sum_of(ring.total(f, rows.filter(below)), ring.total(f, rows.filter(lacks)))
        } else {
            ring.total(f, rows.filter(below))
        },
        ({
            let rest = ring.difference(
                ring.total(f, rows.filter(all)),
                ring.total(f, rows.filter(below)),
            );
            ring.total(f, rows.filter(to_right)) == if default_left {
                rest
            } else {
                ring.sum_of(rest, ring.total(f, rows.filter(lacks)))
            }
        }),
{
    ring.lemma_total_splits(f, rows, below, above, all);
    ring.lemma_sum_undone(ring.total(f, rows.filter(below)), ring.total(f, rows.filter(above)));
    ring.lemma_sum_with_zero(ring.total(f, rows.filter(below)));
    ring.lemma_sum_with_zero(ring.total(f, rows.filter(above)));
    if default_left {
        ring.lemma_total_splits(f, rows, below, lacks, to_left);
        ring.lemma_total_splits(f, rows, above, never, to_right);
    } else {
        ring.lemma_total_splits(f, rows, below, never, to_left);
        ring.lemma_total_splits(f, rows, above, lacks, to_right);
    }
}

proof fn lemma_total_zero<T>(ring: Ring<T>, f: spec_fn(u32) -> T, rows: Seq<u32>)
    requires
        ring.obeys_laws(),
        forall|i: int| 0 <= i < rows.len() ==> f(#[trigger] rows[i]) == ring.zero,
    ensures
        ring.total(f, rows) == ring.zero,
    decreases rows.len(),
{
    if rows.len() > 0 {
        let front = rows.drop_last();
        assert forall|i: int| 0 <= i < front.len() implies f(#[trigger] front[i]) == ring.zero by {
            assert(front[i] == rows[i]);
        }
        lemma_total_zero(ring, f, front);
        assert(f(rows[rows.len() - 1]) == ring.zero);
        ring.lemma_sum_with_zero(ring.zero);
    }
}

/// `l` and `r` are the moments of the two sides of the split at knot `t` that the search
/// scores, the rows without a value going left or right.
pub open spec fn are_sides<A: Arith>(
    rows: Seq<u32>,
    vals: Seq<F32>,
    knots: Seq<F32>,
    g: Seq<F32>,
    h: Seq<F32>,
    t: int,
    default_left: bool,
    l: Bin,
    r: Bin,
) -> bool {
    exists|bins: Seq<Bin>, miss: Bin, tot: Bin, lefts: Seq<Bin>, rest: Bin|
        {
            &&& #[trigger] are_bins::<A>(rows, vals, knots, g, h, bins, miss)
            &&& #[trigger] folds(Bin::empty(), bins, add_bin::<A>(), tot)
            &&& #[trigger] are_left_sides::<A>(bins, lefts)
            &&& #[trigger] is_bin_diff::<A>(tot, lefts[t], rest)
            &&& is_side::<A>(lefts[t], miss, default_left, l)
            &&& is_side::<A>(rest, miss, !default_left, r)
        }
}

/// A moment of a side from that of its rows with a value.
proof fn lemma_side_with_missing<A: Arith, T>(
    ring: Ring<T>,
    val: spec_fn(F64) -> Option<T>,
    rows: Seq<u32>,
    vals: Seq<F32>,
    knots: Seq<F32>,
    g: Seq<F32>,
    h: Seq<F32>,
    pick: spec_fn(Bin) -> F64,
    f: spec_fn(u32) -> T,
    bins: Seq<Bin>,
    side: Bin,
    miss: Bin,
    with_missing: bool,
    r: Bin,
)
    requires
        ring.obeys_laws(),
        stays_exact::<A, T>(ring, val),
        is_moment::<A, T>(ring, val, vals, knots, g, h, pick, f),
        are_bins::<A>(rows, vals, knots, g, h, bins, miss),
        is_side::<A>(side, miss, with_missing, r),
        val(pick(r)) is Some,
    ensures
        val(pick(side)) is Some,
        val(pick(r))->0 == if with_missing {
            ring.sum_of(
                val(pick(side))->0,
                ring.total(f, rows.filter(lacks_value(vals))),
            )
        } else {
            val(pick(side))->0
        },
{
    reveal(is_moment);
    let lacks = lacks_value(vals);
    let none = rows.filter(lacks);
    lemma_filter_props(rows, lacks);
    if with_missing {
        assert(is_side::<A>(side, miss, true, r));
        if is_sum::<A>(pick(side), pick(miss), pick(r)) {
            let step = add_missing::<A>(g, h);
            assert forall|i: int, a: Bin, b: Bin|
                0 <= i < none.len() && #[trigger] step(none[i], a, b) implies adds(
                ring,
                val,
                pick,
                f(none[i]),
                a,
                b,
            ) by {
                assert(lacks(none[i]));
            }
            lemma_fold_total(ring, val, pick, f, none, step, miss);
        } else {
            assert forall|i: int| 0 <= i < none.len() implies f(#[trigger] none[i])
                == ring.zero by {
                assert(lacks(none[i]));
            }
            lemma_total_zero(ring, f, none);
            ring.lemma_sum_with_zero(val(pick(side))->0);
        }
    }
}

/// A moment of the two sides of a candidate split is that of the rows that it sends there.
proof fn lemma_moment_of_sides<A: Arith, T>(
    ring: Ring<T>,
    val: spec_fn(F64) -> Option<T>,
    rows: Seq<u32>,
    vals: Vec<F32>,
    knots: Seq<F32>,
    g: Seq<F32>,
    h: Seq<F32>,
    pick: spec_fn(Bin) -> F64,
    f: spec_fn(u32) -> T,
    t: int,
    default_left: bool,
    l: Bin,
    r: Bin,
)
    requires
        ring.obeys_laws(),
        stays_exact::<A, T>(ring, val),
        is_moment::<A, T>(ring, val, vals@, knots, g, h, pick, f),
        ascending(knots),
        0 <= t < knots.len(),
        are_sides::<A>(rows, vals@, knots, g, h, t, default_left, l, r),
    ensures
        val(pick(l)) is Some ==> holds_total(
            ring,
            val,
            pick,
            f,
            left_rows(rows, vals, knots[t], default_left),
            l,
        ),
        val(pick(r)) is Some ==> holds_total(
            ring,
            val,
            pick,
            f,
            right_rows(rows, vals, knots[t], default_left),
            r,
        ),
{
    let (bins, miss, tot, lefts, rest) = choose|
        bins: Seq<Bin>,
        miss: Bin,
        tot: Bin,
        lefts: Seq<Bin>,
        rest: Bin,
    |
        {
            &&& #[trigger] are_bins::<A>(rows, vals@, knots, g, h, bins, miss)
            &&& #[trigger] folds(Bin::empty(), bins, add_bin::<A>(), tot)
            &&& #[trigger] are_left_sides::<A>(bins, lefts)
            &&& #[trigger] is_bin_diff::<A>(tot, lefts[t], rest)
            &&& is_side::<A>(lefts[t], miss, default_left, l)
            &&& is_side::<A>(rest, miss, !default_left, r)
        };
    let split = Split::Numeric { thr: knots[t] };
    let to_left = row_goes_left(split, default_left, EncCol::Num(vals));
    let to_right = row_goes_right(split, default_left, EncCol::Num(vals));
    let below = in_first_bins(vals@, knots, t + 1);
    let all = in_first_bins(vals@, knots, bins.len() as int);
    let above = |x: u32| all(x) && !below(x);
    let lacks = lacks_value(vals@);
    let never = |x: u32| false;
    if val(pick(l)) is Some {
        lemma_side_with_missing::<A, T>(
            ring,
            val,
            rows,
            vals@,
            knots,
            g,
            h,
            pick,
            f,
            bins,
            lefts[t],
            miss,
            default_left,
            l,
        );
        lemma_left_total::<A, T>(
            ring,
            val,
            rows,
            vals@,
            knots,
            g,
            h,
            pick,
            f,
            bins,
            miss,
            lefts,
            t + 1,
        );
    }
    if val(pick(r)) is Some {
        lemma_side_with_missing::<A, T>(
            ring,
            val,
            rows,
            vals@,
            knots,
            g,
            h,
            pick,
            f,
            bins,
            rest,
            miss,
            !default_left,
            r,
        );
        assert(is_diff::<A>(pick(tot), pick(lefts[t]), pick(rest))) by {
            reveal(is_moment);
        }
        lemma_left_total::<A, T>(
            ring,
            val,
            rows,
            vals@,
            knots,
            g,
            h,
            pick,
            f,
            bins,
            miss,
            lefts,
            t + 1,
        );
        assert(bins.take(bins.len() as int) =~= bins);
        lemma_all_bins_total::<A, T>(
            ring,
            val,
            rows,
            vals@,
            knots,
            g,
            h,
            pick,
            f,
            bins,
            miss,
            bins.len() as int,
            tot,
        );
    }
    assert forall|i: int| 0 <= i < rows.len() implies (below(#[trigger] rows[i])
        <==> !vals[rows[i] as int].spec_is_nan() && vals[rows[i] as int].lt(knots[t])) && (all(
        rows[i],
    ) <==> !vals[rows[i] as int].spec_is_nan()) by {
        let v = vals[rows[i] as int];
        if below(rows[i]) {
            let b = choose|b: int| 0 <= b < t + 1 && #[trigger] is_knot_count(knots, v, b);
            assert(v.lt(knots[t]));
        }
        if !v.spec_is_nan() {
            let b = lemma_bin_exists(knots, v);
            if b > t {
                assert(knots[t].le(v));
            }
        }
    }
    lemma_filter_none(rows, never);
    lemma_side_totals(
        ring,
        f,
        rows,
        below,
        above,
        all,
        lacks,
        never,
        to_left,
        to_right,
        default_left,
    );
}

/// The rows that the split at `thr` sends left.
pub open spec fn left_rows(
    rows: Seq<u32>,
    vals: Vec<F32>,
    thr: F32,
    default_left: bool,
) -> Seq<u32> {
    rows.filter(row_goes_left(Split::Numeric { thr }, default_left, EncCol::Num(vals)))
}

/// The rows that the split at `thr` sends right.
pub open spec fn right_rows(
    rows: Seq<u32>,
    vals: Vec<F32>,
    thr: F32,
    default_left: bool,
) -> Seq<u32> {
    rows.filter(row_goes_right(Split::Numeric { thr }, default_left, EncCol::Num(vals)))
}

/// The gradient and hessian sums of the bin are those of the rows.
pub open spec fn holds_sums<T>(
    ring: Ring<T>,
    val: spec_fn(F64) -> Option<T>,
    g: Seq<F32>,
    h: Seq<F32>,
    rows: Seq<u32>,
    bin: Bin,
) -> bool {
    &&& val(bin.g) == Some(ring.total(row_val(val, g), rows))
    &&& val(bin.h) == Some(ring.total(row_val(val, h), rows))
}

/// The sums of the bin that weight a row by its normalized value are those of the rows.
pub open spec fn holds_slopes<A: Arith, T>(
    ring: Ring<T>,
    val: spec_fn(F64) -> Option<T>,
    vals: Seq<F32>,
    knots: Seq<F32>,
    g: Seq<F32>,
    h: Seq<F32>,
    rows: Seq<u32>,
    bin: Bin,
) -> bool {
    &&& val(bin.gz) == Some(ring.total(row_val_z::<A, T>(ring, val, vals, knots, g), rows))
    &&& val(bin.hz) == Some(ring.total(row_val_z::<A, T>(ring, val, vals, knots, h), rows))
    &&& val(bin.hzz) == Some(ring.total(row_val_zz::<A, T>(ring, val, vals, knots, h), rows))
}

/// The histogram accumulates what brute force does: where the gradient and hessian sums of
/// the two sides of a candidate split were computed exactly, they are those of the rows that
/// the split sends there.
pub proof fn lemma_histogram_matches_brute_force<A: Arith, T>(
    ring: Ring<T>,
    val: spec_fn(F64) -> Option<T>,
    rows: Seq<u32>,
    vals: Vec<F32>,
    knots: Seq<F32>,
    g: Seq<F32>,
    h: Seq<F32>,
    t: int,
    default_left: bool,
    l: Bin,
    r: Bin,
)
    requires
        ring.obeys_laws(),
        stays_exact::<A, T>(ring, val),
        ascending(knots),
        0 <= t < knots.len(),
        are_sides::<A>(rows, vals@, knots, g, h, t, default_left, l, r),
        val(l.g) is Some && val(l.h) is Some,
        val(r.g) is Some && val(r.h) is Some,
    ensures
        holds_sums(ring, val, g, h, left_rows(rows, vals, knots[t], default_left), l),
        holds_sums(ring, val, g, h, right_rows(rows, vals, knots[t], default_left), r),
{
    lemma_plain_moment::<A, T>(ring, val, vals@, knots, g, h);
    lemma_moment_of_sides::<A, T>(
        ring,
        val,
        rows,
        vals,
        knots,
        g,
        h,
        |b: Bin| b.g,
        row_val(val, g),
        t,
        default_left,
        l,
        r,
    );
    lemma_moment_of_sides::<A, T>(
        ring,
        val,
        rows,
        vals,
        knots,
        g,
        h,
        |b: Bin| b.h,
        row_val(val, h),
        t,
        default_left,
        l,
        r,
    );
}

/// The same of the moments that only the leaf-aware criterion reads: `Σ g z̃`, `Σ h z̃` and
/// `Σ h z̃²`, a missing value counting as zero.
pub proof fn lemma_histogram_slopes_match_brute_force<A: Arith, T>(
    ring: Ring<T>,
    val: spec_fn(F64) -> Option<T>,
    rows: Seq<u32>,
    vals: Vec<F32>,
    knots: Seq<F32>,
    g: Seq<F32>,
    h: Seq<F32>,
    t: int,
    default_left: bool,
    l: Bin,
    r: Bin,
)
    requires
        ring.obeys_laws(),
        stays_exact::<A, T>(ring, val),
        deterministic::<A>(),
        ascending(knots),
        0 <= t < knots.len(),
        are_sides::<A>(rows, vals@, knots, g, h, t, default_left, l, r),
        val(l.gz) is Some && val(l.hz) is Some && val(l.hzz) is Some,
        val(r.gz) is Some && val(r.hz) is Some && val(r.hzz) is Some,
    ensures
        holds_slopes::<A, T>(
            ring,
            val,
            vals@,
            knots,
            g,
            h,
            left_rows(rows, vals, knots[t], default_left),
            l,
        ),
        holds_slopes::<A, T>(
            ring,
            val,
            vals@,
            knots,
            g,
            h,
            right_rows(rows, vals, knots[t], default_left),
            r,
        ),
{
    lemma_linear_moments::<A, T>(ring, val, vals@, knots, g, h);
    lemma_moment_of_sides::<A, T>(
        ring,
        val,
        rows,
        vals,
        knots,
        g,
        h,
        |b: Bin| b.gz,
        row_val_z::<A, T>(ring, val, vals@, knots, g),
        t,
        default_left,
        l,
        r,
    );
    lemma_moment_of_sides::<A, T>(
        ring,
        val,
        rows,
        vals,
        knots,
        g,
        h,
        |b: Bin| b.hz,
        row_val_z::<A, T>(ring, val, vals@, knots, h),
        t,
        default_left,
        l,
        r,
    );
    lemma_moment_of_sides::<A, T>(
        ring,
        val,
        rows,
        vals,
        knots,
        g,
        h,
        |b: Bin| b.hzz,
        row_val_zz::<A, T>(ring, val, vals@, knots, h),
        t,
        default_left,
        l,
        r,
    );
}

/// `gain` is the gain of a split into sides with moments `l` and `r`.
pub open spec fn is_gain_of_sides<A: Arith>(
    cfg: Config,
    l: Bin,
    r: Bin,
    parent: F64,
    gain: F32,
) -> bool {
    exists|sl: F64, sr: F64| #[trigger]
        is_side_score::<A>(cfg.gain, l, cfg.lambda.spec_widened(), sl) && #[trigger] is_side_score::<
            A,
        >(cfg.gain, r, cfg.lambda.spec_widened(), sr) && is_gain::<A>(sl, sr, parent, gain)
}

/// The gain of the best split on a numeric column is that of its own two sides.
pub proof fn lemma_best_numeric_scores_its_sides<A: Arith>(
    rows: Seq<u32>,
    vals: Seq<F32>,
    knots: Seq<F32>,
    g: Seq<F32>,
    h: Seq<F32>,
    cfg: Config,
    parent: F64,
    c: Candidate,
)
    requires
        is_best_numeric::<A>(rows, vals, knots, g, h, cfg, parent, Some(c)),
    ensures
        exists|t: int, l: Bin, r: Bin|
            0 <= t < knots.len() && c.split == (Split::Numeric { thr: knots[t] }) && #[trigger]
                are_sides::<A>(rows, vals, knots, g, h, t, c.default_left, l, r)
                && is_gain_of_sides::<A>(cfg, l, r, parent, c.gain),
{
    let (bins, miss, tot, lefts, gains) = choose|
        bins: Seq<Bin>,
        miss: Bin,
        tot: Bin,
        lefts: Seq<Bin>,
        gains: Seq<Option<F32>>,
    |
        {
            &&& #[trigger] are_bins::<A>(rows, vals, knots, g, h, bins, miss)
            &&& #[trigger] folds(Bin::empty(), bins, add_bin::<A>(), tot)
            &&& tot.n == rows_in_bins(bins, bins.len() as int)
            &&& #[trigger] are_left_sides::<A>(bins, lefts)
            &&& #[trigger] are_numeric_gains::<A>(cfg, tot, lefts, miss, parent, gains)
            &&& is_numeric_pick(gains, knots, Some(c))
        };
    lemma_scan_best_in_range(gains);
    let j = scan_best(gains)->0;
    let t = j / 2;
    let left = lefts[t];
    assert(are_threshold_gains::<A>(
        cfg,
        tot,
        left,
        miss,
        parent,
        gains[2 * t],
        gains[2 * t + 1],
    ));
    let rest = choose|rest: Bin| #[trigger]
        is_bin_diff::<A>(tot, left, rest) && is_direction_gain::<A>(
            cfg,
            left,
            rest,
            miss,
            parent,
            true,
            gains[2 * t],
        ) && is_direction_gain::<A>(cfg, left, rest, miss, parent, false, gains[2 * t + 1]);
    let lam = cfg.lambda.spec_widened();
    let (dl, dr) = (c.default_left, !c.default_left);
    assert(is_scored_split::<A>(cfg, left, rest, miss, parent, dl, dr, c.gain));
    let (l, r, sl, sr) = choose|l: Bin, r: Bin, sl: F64, sr: F64| #[trigger]
        is_side::<A>(left, miss, dl, l) && #[trigger] is_side::<A>(rest, miss, dr, r)
            && #[trigger] is_side_score::<A>(cfg.gain, l, lam, sl) && #[trigger] is_side_score::<A>(
            cfg.gain,
            r,
            lam,
            sr,
        ) && is_gain::<A>(sl, sr, parent, c.gain);
    assert(are_sides::<A>(rows, vals, knots, g, h, t, dl, l, r));
    assert(is_gain_of_sides::<A>(cfg, l, r, parent, c.gain));
}

/// The moments of the unsplit rows are those of all rows.
proof fn lemma_parent_total<A: Arith, T>(
    ring: Ring<T>,
    val: spec_fn(F64) -> Option<T>,
    rows: Seq<u32>,
    vals: Seq<F32>,
    knots: Seq<F32>,
    g: Seq<F32>,
    h: Seq<F32>,
    pick: spec_fn(Bin) -> F64,
    f: spec_fn(u32) -> T,
    p: Bin,
)
    requires
        stays_exact::<A, T>(ring, val),
        is_moment::<A, T>(ring, val, vals, knots, g, h, pick, f),
        folds(Bin::empty(), rows, add_parent_row::<A>(vals, knots, g, h), p),
        val(pick(p)) is Some,
    ensures
        holds_total(ring, val, pick, f, rows, p),
{
    reveal(is_moment);
    lemma_fold_total(ring, val, pick, f, rows, add_parent_row::<A>(vals, knots, g, h), p);
}

/// `det` is the determinant of the reduced 2×2 system of a side.
pub open spec fn is_side_determinant<A: Arith>(b: Bin, lam: F64, det: F64) -> bool {
    exists|a: F64, d: F64| #[trigger]
        is_sum::<A>(b.h, lam, a) && #[trigger] is_sum::<A>(b.hzz, lam, d) && is_determinant::<A>(
            a,
            b.hz,
            d,
            det,
        )
}

/// The rows of a side have a line of their own: the determinant of the reduced system is
/// clearly positive, and can be divided by.
pub open spec fn has_line<A: Arith, T>(
    ring: Ring<T>,
    val: spec_fn(F64) -> Option<T>,
    b: Bin,
    lam: F64,
) -> bool {
    forall|det: F64| #[trigger]
        is_side_determinant::<A>(b, lam, det) ==> !det.le(min_determinant()) && ring.cancels(
            val(det)->0,
        )
}

/// Cramer's rule on `[[h, hz], [hz, hzz]] [b0, b1] = [g, gz]`.
proof fn lemma_line_found<T>(
    ring: Ring<T>,
    h: T,
    hz: T,
    hzz: T,
    g: T,
    gz: T,
    b0: T,
    b1: T,
    opposite: T,
)
    requires
        ring.obeys_laws(),
        g == ring.sum_of(ring.product(b0, h), ring.product(b1, hz)),
        gz == ring.sum_of(ring.product(b0, hz), ring.product(b1, hzz)),
        ring.sum_of(opposite, hz) == ring.zero,
    ensures
        ({
            let det = ring.difference(ring.product(h, hzz), ring.product(hz, hz));
            &&& ring.difference(ring.product(hzz, g), ring.product(hz, gz)) == ring.product(b0, det)
            &&& ring.sum_of(ring.product(opposite, g), ring.product(h, gz)) == ring.product(b1, det)
        }),
{
    let det = ring.difference(ring.product(h, hzz), ring.product(hz, hz));
    let (sq, hd) = (ring.product(hz, hz), ring.product(h, hzz));
    ring.lemma_difference_undone(hd, sq);
    // hzz·g = b0·det + hz·gz.
    let c = ring.product(hzz, ring.product(b1, hz));
    ring.lemma_product_distributes(hzz, ring.product(b0, h), ring.product(b1, hz));
    ring.lemma_product_distributes(hz, ring.product(b0, hz), ring.product(b1, hzz));
    ring.lemma_factors_move(hzz, b0, h);
    ring.lemma_factors_move(hz, b0, hz);
    ring.lemma_factors_move(hzz, b1, hz);
    ring.lemma_product_distributes(b0, det, sq);
    ring.lemma_sum_associates(ring.product(b0, det), ring.product(b0, sq), c);
    ring.lemma_sum_undone(ring.product(b0, det), ring.product(hz, gz));
    // h·gz = b1·det + hz·g.
    let e = ring.product(h, ring.product(b0, hz));
    ring.lemma_product_distributes(h, ring.product(b0, hz), ring.product(b1, hzz));
    ring.lemma_product_distributes(hz, ring.product(b0, h), ring.product(b1, hz));
    ring.lemma_factors_move(h, b0, hz);
    ring.lemma_factors_move(h, b1, hzz);
    ring.lemma_factors_move(hz, b1, hz);
    ring.lemma_product_commutes(h, hzz);
    ring.lemma_product_distributes(b1, det, sq);
    let (x, y) = (ring.product(b1, det), ring.product(b1, sq));
    ring.lemma_sum_commutes(e, ring.sum_of(x, y));
    ring.lemma_sum_associates(x, y, e);
    ring.lemma_sum_commutes(y, e);
    assert(ring.product(h, gz) == ring.sum_of(x, ring.product(hz, g)));
    // opposite·g + hz·g = 0.
    let (og, hg) = (ring.product(opposite, g), ring.product(hz, g));
    ring.lemma_product_commutes(opposite, g);
    ring.lemma_product_commutes(hz, g);
    ring.lemma_product_distributes(g, opposite, hz);
    ring.lemma_product_with_zero(g);
    ring.lemma_sum_commutes(x, hg);
    ring.lemma_sum_associates(og, hg, x);
    ring.lemma_sum_with_zero(x);
}

/// The score of a side is made of its five moments.
proof fn lemma_linear_score_exact<A: Arith, T>(
    ring: Ring<T>,
    val: spec_fn(F64) -> Option<T>,
    b: Bin,
    lam: F64,
    s: F64,
)
    requires
        stays_exact::<A, T>(ring, val),
        has_line::<A, T>(ring, val, b, lam),
        is_score_linear::<A>(b.h, b.hz, b.hzz, b.g, b.gz, lam, s),
        val(s) is Some,
    ensures
        val(b.g) is Some,
        val(b.h) is Some,
        val(b.gz) is Some,
        val(b.hz) is Some,
        val(b.hzz) is Some,
{
    let (a, d, det) = choose|a: F64, d: F64, det: F64| #[trigger]
        is_sum::<A>(b.h, lam, a) && #[trigger] is_sum::<A>(b.hzz, lam, d)
            && #[trigger] is_determinant::<A>(a, b.hz, d, det) && if det.le(min_determinant()) {
            is_score_const::<A>(b.g, b.h, lam, s)
        } else {
            is_quadratic_score::<A>(a, b.hz, d, det, b.g, b.gz, s)
        };
    assert(is_side_determinant::<A>(b, lam, det));
}

/// The score of a side whose gradients follow a line is what the line explains.
proof fn lemma_line_scored<A: Arith, T>(
    ring: Ring<T>,
    val: spec_fn(F64) -> Option<T>,
    b: Bin,
    lam: F64,
    s: F64,
    b0: T,
    b1: T,
)
    requires
        ring.obeys_laws(),
        stays_exact::<A, T>(ring, val),
        negates_exactly(ring, val),
        val(lam) == Some(ring.zero),
        has_line::<A, T>(ring, val, b, lam),
        is_score_linear::<A>(b.h, b.hz, b.hzz, b.g, b.gz, lam, s),
        val(s) is Some,
        val(b.g)->0 == ring.sum_of(
            ring.product(b0, val(b.h)->0),
            ring.product(b1, val(b.hz)->0),
        ),
        val(b.gz)->0 == ring.sum_of(
            ring.product(b0, val(b.hz)->0),
            ring.product(b1, val(b.hzz)->0),
        ),
    ensures
        val(s)->0 == ring.sum_of(
            ring.product(b0, val(b.g)->0),
            ring.product(b1, val(b.gz)->0),
        ),
{
    let (a, d, det) = choose|a: F64, d: F64, det: F64| #[trigger]
        is_sum::<A>(b.h, lam, a) && #[trigger] is_sum::<A>(b.hzz, lam, d)
            && #[trigger] is_determinant::<A>(a, b.hz, d, det) && if det.le(min_determinant()) {
            is_score_const::<A>(b.g, b.h, lam, s)
        } else {
            is_quadratic_score::<A>(a, b.hz, d, det, b.g, b.gz, s)
        };
    assert(is_side_determinant::<A>(b, lam, det));
    let minus = b.hz.spec_negated();
    let (x0, x1) = choose|x0: F64, x1: F64| #[trigger]
        is_cross_diff::<A>(d, b.g, b.hz, b.gz, det, x0) && #[trigger] is_cross_sum::<A>(
            minus,
            b.g,
            a,
            b.gz,
            det,
            x1,
        ) && is_product_sum::<A>(b.g, x0, b.gz, x1, s);
    let (h, hz, hzz) = (val(b.h)->0, val(b.hz)->0, val(b.hzz)->0);
    let (g, gz) = (val(b.g)->0, val(b.gz)->0);
    ring.lemma_sum_with_zero(h);
    ring.lemma_sum_with_zero(hzz);
    assert(val(a)->0 == h && val(d)->0 == hzz);
    let dv = val(det)->0;
    assert(dv == ring.difference(ring.product(h, hzz), ring.product(hz, hz)));
    let w = choose|w: F64| #[trigger]
        is_product_sum::<A>(minus, b.g, a, b.gz, w) && is_quot::<A>(w, det, x1);
    assert(val(minus) is Some);
    lemma_line_found(ring, h, hz, hzz, g, gz, b0, b1, val(minus)->0);
    assert(ring.product(val(x0)->0, dv) == ring.product(b0, dv));
    assert(ring.product(val(x1)->0, dv) == ring.product(b1, dv));
    ring.lemma_product_commutes(val(x0)->0, dv);
    ring.lemma_product_commutes(b0, dv);
    ring.lemma_product_commutes(val(x1)->0, dv);
    ring.lemma_product_commutes(b1, dv);
    assert(val(x0)->0 == b0 && val(x1)->0 == b1);
    ring.lemma_product_commutes(g, b0);
    ring.lemma_product_commutes(gz, b1);
}

/// The gradients of the rows follow the line `b0 + b1 z̃`, in units of their hessians.
pub open spec fn follow_line<A: Arith, T>(
    ring: Ring<T>,
    val: spec_fn(F64) -> Option<T>,
    rows: Seq<u32>,
    vals: Seq<F32>,
    knots: Seq<F32>,
    g: Seq<F32>,
    h: Seq<F32>,
    b0: T,
    b1: T,
) -> bool {
    forall|i: int|
        0 <= i < rows.len() ==> {
            let x = #[trigger] rows[i];
            row_val(val, g)(x) == ring.product(
                row_val(val, h)(x),
                ring.sum_of(
                    b0,
                    ring.product(b1, val(row_z::<A>(knots, vals[x as int]))->0),
                ),
            )
        }
}

/// The sums over rows that follow a line.
proof fn lemma_line_totals<A: Arith, T>(
    ring: Ring<T>,
    val: spec_fn(F64) -> Option<T>,
    rows: Seq<u32>,
    vals: Seq<F32>,
    knots: Seq<F32>,
    g: Seq<F32>,
    h: Seq<F32>,
    b0: T,
    b1: T,
)
    requires
        ring.obeys_laws(),
        follow_line::<A, T>(ring, val, rows, vals, knots, g, h, b0, b1),
    ensures
        ring.total(row_val(val, g), rows) == ring.sum_of(
            ring.product(b0, ring.total(row_val(val, h), rows)),
            ring.product(b1, ring.total(row_val_z::<A, T>(ring, val, vals, knots, h), rows)),
        ),
        ring.total(row_val_z::<A, T>(ring, val, vals, knots, g), rows) == ring.sum_of(
            ring.product(b0, ring.total(row_val_z::<A, T>(ring, val, vals, knots, h), rows)),
            ring.product(b1, ring.total(row_val_zz::<A, T>(ring, val, vals, knots, h), rows)),
        ),
{
    let (fg, fh) = (row_val(val, g), row_val(val, h));
    let fgz = row_val_z::<A, T>(ring, val, vals, knots, g);
    let fhz = row_val_z::<A, T>(ring, val, vals, knots, h);
    let fhzz = row_val_zz::<A, T>(ring, val, vals, knots, h);
    assert forall|i: int| 0 <= i < rows.len() implies fg(#[trigger] rows[i]) == ring.sum_of(
        ring.product(b0, fh(rows[i])),
        ring.product(b1, fhz(rows[i])),
    ) && fgz(rows[i]) == ring.sum_of(
        ring.product(b0, fhz(rows[i])),
        ring.product(b1, fhzz(rows[i])),
    ) by {
        let x = rows[i];
        let z = val(row_z::<A>(knots, vals[x as int]))->0;
        let hx = fh(x);
        ring.lemma_product_distributes(hx, b0, ring.product(b1, z));
        ring.lemma_product_commutes(hx, b0);
        ring.lemma_factors_move(hx, b1, z);
        let (p, q) = (ring.product(b0, hx), ring.product(b1, fhz(x)));
        ring.lemma_product_commutes(hx, z);
        assert(fg(x) == ring.sum_of(p, q));
        ring.lemma_product_commutes(fg(x), z);
        ring.lemma_product_distributes(z, p, q);
        ring.lemma_factors_move(z, b0, hx);
        ring.lemma_factors_move(z, b1, fhz(x));
        ring.lemma_product_commutes(z, fhz(x));
    }
    ring.lemma_total_combines(b0, fh, b1, fhz, fg, rows);
    ring.lemma_total_combines(b0, fhz, b1, fhzz, fgz, rows);
}

proof fn lemma_line_kept<A: Arith, T>(
    ring: Ring<T>,
    val: spec_fn(F64) -> Option<T>,
    rows: Seq<u32>,
    vals: Seq<F32>,
    knots: Seq<F32>,
    g: Seq<F32>,
    h: Seq<F32>,
    b0: T,
    b1: T,
    kept: spec_fn(u32) -> bool,
)
    requires
        follow_line::<A, T>(ring, val, rows, vals, knots, g, h, b0, b1),
    ensures
        follow_line::<A, T>(ring, val, rows.filter(kept), vals, knots, g, h, b0, b1),
{
    let some = rows.filter(kept);
    lemma_filter_props(rows, kept);
    assert forall|i: int| 0 <= i < some.len() implies {
        let x = #[trigger] some[i];
        row_val(val, g)(x) == ring.product(
            row_val(val, h)(x),
            ring.sum_of(b0, ring.product(b1, val(row_z::<A>(knots, vals[x as int]))->0)),
        )
    } by {
        assert(rows.contains(some[i]));
        let k = choose|k: int| 0 <= k < rows.len() && rows[k] == some[i];
        assert(rows[k] == some[i]);
    }
}

/// Under the leaf-aware criterion a pure linear trend earns nothing: where the gradients
/// follow one line in the split feature, in units of the hessians, no split of the rows
/// gains anything. This is so without the L2 term, which shrinks every line.
pub proof fn lemma_linear_trend_earns_nothing<A: Arith, T>(
    ring: Ring<T>,
    val: spec_fn(F64) -> Option<T>,
    rows: Seq<u32>,
    vals: Vec<F32>,
    knots: Seq<F32>,
    g: Seq<F32>,
    h: Seq<F32>,
    b0: T,
    b1: T,
    lam: F64,
    t: int,
    default_left: bool,
    l: Bin,
    r: Bin,
    p: Bin,
    sl: F64,
    sr: F64,
    sp: F64,
    both: F64,
    gain: F64,
)
    requires
        ring.obeys_laws(),
        stays_exact::<A, T>(ring, val),
        negates_exactly(ring, val),
        deterministic::<A>(),
        val(lam) == Some(ring.zero),
        follow_line::<A, T>(ring, val, rows, vals@, knots, g, h, b0, b1),
        ascending(knots),
        0 <= t < knots.len(),
        are_sides::<A>(rows, vals@, knots, g, h, t, default_left, l, r),
        folds(Bin::empty(), rows, add_parent_row::<A>(vals@, knots, g, h), p),
        has_line::<A, T>(ring, val, l, lam),
        has_line::<A, T>(ring, val, r, lam),
        has_line::<A, T>(ring, val, p, lam),
        is_side_score::<A>(GainKind::LeafAware, l, lam, sl),
        is_side_score::<A>(GainKind::LeafAware, r, lam, sr),
        is_side_score::<A>(GainKind::LeafAware, p, lam, sp),
        is_sum::<A>(sl, sr, both),
        is_diff::<A>(both, sp, gain),
        val(gain) is Some,
    ensures
        val(gain) == Some(ring.zero),
{
    let split = Split::Numeric { thr: knots[t] };
    let to_left = row_goes_left(split, default_left, EncCol::Num(vals));
    let to_right = row_goes_right(split, default_left, EncCol::Num(vals));
    let any = |x: u32| true;
    let (lefts, rights) = (rows.filter(to_left), rows.filter(to_right));
    let (fg, fh) = (row_val(val, g), row_val(val, h));
    let fgz = row_val_z::<A, T>(ring, val, vals@, knots, g);
    let fhz = row_val_z::<A, T>(ring, val, vals@, knots, h);
    let fhzz = row_val_zz::<A, T>(ring, val, vals@, knots, h);
    lemma_linear_score_exact::<A, T>(ring, val, l, lam, sl);
    lemma_linear_score_exact::<A, T>(ring, val, r, lam, sr);
    lemma_linear_score_exact::<A, T>(ring, val, p, lam, sp);
    lemma_histogram_matches_brute_force::<A, T>(
        ring,
        val,
        rows,
        vals,
        knots,
        g,
        h,
        t,
        default_left,
        l,
        r,
    );
    lemma_histogram_slopes_match_brute_force::<A, T>(
        ring,
        val,
        rows,
        vals,
        knots,
        g,
        h,
        t,
        default_left,
        l,
        r,
    );
    lemma_plain_moment::<A, T>(ring, val, vals@, knots, g, h);
    lemma_linear_moments::<A, T>(ring, val, vals@, knots, g, h);
    lemma_parent_total::<A, T>(ring, val, rows, vals@, knots, g, h, |b: Bin| b.g, fg, p);
    lemma_parent_total::<A, T>(ring, val, rows, vals@, knots, g, h, |b: Bin| b.h, fh, p);
    lemma_parent_total::<A, T>(ring, val, rows, vals@, knots, g, h, |b: Bin| b.gz, fgz, p);
    lemma_parent_total::<A, T>(ring, val, rows, vals@, knots, g, h, |b: Bin| b.hz, fhz, p);
    lemma_parent_total::<A, T>(ring, val, rows, vals@, knots, g, h, |b: Bin| b.hzz, fhzz, p);
    lemma_line_kept::<A, T>(ring, val, rows, vals@, knots, g, h, b0, b1, to_left);
    lemma_line_kept::<A, T>(ring, val, rows, vals@, knots, g, h, b0, b1, to_right);
    lemma_line_totals::<A, T>(ring, val, lefts, vals@, knots, g, h, b0, b1);
    lemma_line_totals::<A, T>(ring, val, rights, vals@, knots, g, h, b0, b1);
    lemma_line_totals::<A, T>(ring, val, rows, vals@, knots, g, h, b0, b1);
    lemma_line_scored::<A, T>(ring, val, l, lam, sl, b0, b1);
    lemma_line_scored::<A, T>(ring, val, r, lam, sr, b0, b1);
    lemma_line_scored::<A, T>(ring, val, p, lam, sp, b0, b1);
    lemma_filter_all(rows, any);
    ring.lemma_total_splits(fg, rows, to_left, to_right, any);
    ring.lemma_total_splits(fgz, rows, to_left, to_right, any);
    let (gl, gr, zl, zr) = (val(l.g)->0, val(r.g)->0, val(l.gz)->0, val(r.gz)->0);
    ring.lemma_product_distributes(b0, gl, gr);
    ring.lemma_product_distributes(b1, zl, zr);
    ring.lemma_sums_interchange(
        ring.product(b0, gl),
        ring.product(b1, zl),
        ring.product(b0, gr),
        ring.product(b1, zr),
    );
    assert(val(both)->0 == val(sp)->0);
    ring.lemma_sum_with_zero(val(sp)->0);
    ring.lemma_sum_undone(ring.zero, val(sp)->0);
}

/// Where the sums of the bin are exact, they are those of the rows.
pub open spec fn sums_where_exact<T>(
    ring: Ring<T>,
    val: spec_fn(F64) -> Option<T>,
    g: Seq<F32>,
    h: Seq<F32>,
    rows: Seq<u32>,
    bin: Bin,
) -> bool {
    &&& val(bin.g) is Some ==> val(bin.g)->0 == ring.total(row_val(val, g), rows)
    &&& val(bin.h) is Some ==> val(bin.h)->0 == ring.total(row_val(val, h), rows)
}

/// The same of the sums that weight a row by its normalized value.
pub open spec fn slopes_where_exact<A: Arith, T>(
    ring: Ring<T>,
    val: spec_fn(F64) -> Option<T>,
    vals: Seq<F32>,
    knots: Seq<F32>,
    g: Seq<F32>,
    h: Seq<F32>,
    rows: Seq<u32>,
    bin: Bin,
) -> bool {
    &&& val(bin.gz) is Some ==> val(bin.gz)->0 == ring.total(
        row_val_z::<A, T>(ring, val, vals, knots, g),
        rows,
    )
    &&& val(bin.hz) is Some ==> val(bin.hz)->0 == ring.total(
        row_val_z::<A, T>(ring, val, vals, knots, h),
        rows,
    )
    &&& val(bin.hzz) is Some ==> val(bin.hzz)->0 == ring.total(
        row_val_zz::<A, T>(ring, val, vals, knots, h),
        rows,
    )
}

/// Each moment of a side that was computed exactly is that of the rows that the split sends
/// there, whatever became of the others.
pub proof fn lemma_side_moments<A: Arith, T>(
    ring: Ring<T>,
    val: spec_fn(F64) -> Option<T>,
    rows: Seq<u32>,
    vals: Vec<F32>,
    knots: Seq<F32>,
    g: Seq<F32>,
    h: Seq<F32>,
    t: int,
    default_left: bool,
    l: Bin,
    r: Bin,
)
    requires
        ring.obeys_laws(),
        stays_exact::<A, T>(ring, val),
        ascending(knots),
        0 <= t < knots.len(),
        are_sides::<A>(rows, vals@, knots, g, h, t, default_left, l, r),
    ensures
        sums_where_exact(ring, val, g, h, left_rows(rows, vals, knots[t], default_left), l),
        sums_where_exact(ring, val, g, h, right_rows(rows, vals, knots[t], default_left), r),
        deterministic::<A>() ==> slopes_where_exact::<A, T>(
            ring,
            val,
            vals@,
            knots,
            g,
            h,
            left_rows(rows, vals, knots[t], default_left),
            l,
        ),
        deterministic::<A>() ==> slopes_where_exact::<A, T>(
            ring,
            val,
            vals@,
            knots,
            g,
            h,
            right_rows(rows, vals, knots[t], default_left),
            r,
        ),
{
    let (fg, fh) = (row_val(val, g), row_val(val, h));
    let fgz = row_val_z::<A, T>(ring, val, vals@, knots, g);
    let fhz = row_val_z::<A, T>(ring, val, vals@, knots, h);
    let fhzz = row_val_zz::<A, T>(ring, val, vals@, knots, h);
    let (pg, ph) = (|b: Bin| b.g, |b: Bin| b.h);
    let (pgz, phz, phzz) = (|b: Bin| b.gz, |b: Bin| b.hz, |b: Bin| b.hzz);
    let d = default_left;
    lemma_plain_moment::<A, T>(ring, val, vals@, knots, g, h);
    lemma_moment_of_sides::<A, T>(ring, val, rows, vals, knots, g, h, pg, fg, t, d, l, r);
    lemma_moment_of_sides::<A, T>(ring, val, rows, vals, knots, g, h, ph, fh, t, d, l, r);
    if deterministic::<A>() {
        lemma_linear_moments::<A, T>(ring, val, vals@, knots, g, h);
        lemma_moment_of_sides::<A, T>(ring, val, rows, vals, knots, g, h, pgz, fgz, t, d, l, r);
        lemma_moment_of_sides::<A, T>(ring, val, rows, vals, knots, g, h, phz, fhz, t, d, l, r);
        lemma_moment_of_sides::<A, T>(ring, val, rows, vals, knots, g, h, phzz, fhzz, t, d, l, r);
    }
}

/// The same of the moments of the unsplit rows.
pub proof fn lemma_parent_moments<A: Arith, T>(
    ring: Ring<T>,
    val: spec_fn(F64) -> Option<T>,
    rows: Seq<u32>,
    vals: Seq<F32>,
    knots: Seq<F32>,
    g: Seq<F32>,
    h: Seq<F32>,
    p: Bin,
)
    requires
        stays_exact::<A, T>(ring, val),
        ring.obeys_laws(),
        deterministic::<A>(),
        folds(Bin::empty(), rows, add_parent_row::<A>(vals, knots, g, h), p),
    ensures
        sums_where_exact(ring, val, g, h, rows, p),
        slopes_where_exact::<A, T>(ring, val, vals, knots, g, h, rows, p),
{
    let (fg, fh) = (row_val(val, g), row_val(val, h));
    let fgz = row_val_z::<A, T>(ring, val, vals, knots, g);
    let fhz = row_val_z::<A, T>(ring, val, vals, knots, h);
    let fhzz = row_val_zz::<A, T>(ring, val, vals, knots, h);
    lemma_plain_moment::<A, T>(ring, val, vals, knots, g, h);
    lemma_linear_moments::<A, T>(ring, val, vals, knots, g, h);
    if val(p.g) is Some {
        lemma_parent_total::<A, T>(ring, val, rows, vals, knots, g, h, |b: Bin| b.g, fg, p);
    }
    if val(p.h) is Some {
        lemma_parent_total::<A, T>(ring, val, rows, vals, knots, g, h, |b: Bin| b.h, fh, p);
    }
    if val(p.gz) is Some {
        lemma_parent_total::<A, T>(ring, val, rows, vals, knots, g, h, |b: Bin| b.gz, fgz, p);
    }
    if val(p.hz) is Some {
        lemma_parent_total::<A, T>(ring, val, rows, vals, knots, g, h, |b: Bin| b.hz, fhz, p);
    }
    if val(p.hzz) is Some {
        lemma_parent_total::<A, T>(ring, val, rows, vals, knots, g, h, |b: Bin| b.hzz, fhzz, p);
    }
}

} // verus!
