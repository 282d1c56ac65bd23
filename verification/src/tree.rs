//! Coarse partition: histogram split-finding, a pluggable gain criterion
//! (constant-leaf / leaf-aware), and best-first growth to `K` leaves.
//!
//! Splits are found on **routing values** (raw numeric, target-encoded
//! high-card, dense categorical codes), not on the basis. All gradient/hessian
//! statistics are computed once at the constant base score `s_0`, since this is
//! a single-tree model.

use vstd::prelude::*;
use std::collections::HashMap;
use crate::arith::{
    folds, is_diff, is_narrow, is_prod, is_quot, is_sum, is_trace, lemma_folds_push,
    lemma_folds_start, lemma_runs_last, lemma_runs_next, lemma_runs_start, runs, Arith,
};
use crate::encoding::{
    ascending, is_interpolation, is_knot_count, knots_at_most, lemma_features_within_slots, min_int,
    EncCol, EncodedMatrix, Encoders, FeatureEncoder,
};
use crate::float::{F32, F64};
use crate::seqs::{
    lemma_filter_all, lemma_filter_ascends, lemma_filter_none, lemma_filter_props,
    lemma_filter_split, lemma_filter_step, rows_ascend,
};
use crate::sort::{order_by_key, orders};
use crate::{Config, GainKind};

verus! {

broadcast use vstd::std_specs::hash::group_hash_axioms;

/// How an internal node splits.
#[derive(Clone, Debug)]
pub enum Split {
    /// Route left when `value < thr` (missing uses `default_left`).
    Numeric { thr: F32 },
    /// Route left when the dense code is in `left_set`.
    Categorical { left_set: Vec<u32> },
}

/// A node in the routing tree (flat arena, children by index).
#[derive(Clone, Debug)]
pub enum NodeKind {
    Internal { feature: u32, split: Split, default_left: bool, left: usize, right: usize },
    Leaf(usize),
}

/// Result of growth: the routing structure plus the rows landing in each leaf.
pub struct GrownTree {
    pub nodes: Vec<NodeKind>,
    pub root: usize,
    pub leaf_rows: Vec<Vec<u32>>,
}

/// `r` is `g² / (h + λ)`.
pub open spec fn is_score_const<A: Arith>(g: F64, h: F64, lam: F64, r: F64) -> bool {
    exists|sq: F64, d: F64| #[trigger]
        is_prod::<A>(g, g, sq) && #[trigger] is_sum::<A>(h, lam, d) && is_quot::<A>(sq, d, r)
}

/// Constant-leaf split score `G²/(H+λ)`.
#[inline]
pub fn score_const<A: Arith>(g: F64, h: F64, lam: F64) -> (r: F64)
    ensures
        is_score_const::<A>(g, h, lam, r),
{
    let sq = A::prod(g, g);
    let d = A::sum(h, lam);
    let r = A::quot(sq, d);
    assert(is_prod::<A>(g, g, sq) && is_sum::<A>(h, lam, d));
    r
}

/// `det` is `a·d - b²`.
pub open spec fn is_determinant<A: Arith>(a: F64, b: F64, d: F64, det: F64) -> bool {
    exists|ad: F64, bb: F64| #[trigger]
        is_prod::<A>(a, d, ad) && #[trigger] is_prod::<A>(b, b, bb) && is_diff::<A>(ad, bb, det)
}

/// `x` is `(p·q - r·s) / det`.
pub open spec fn is_cross_diff<A: Arith>(
    p: F64,
    q: F64,
    r: F64,
    s: F64,
    det: F64,
    x: F64,
) -> bool {
    exists|u: F64, v: F64, w: F64| #[trigger]
        is_prod::<A>(p, q, u) && #[trigger] is_prod::<A>(r, s, v) && #[trigger] is_diff::<A>(
            u,
            v,
            w,
        ) && is_quot::<A>(w, det, x)
}

/// `w` is `p·q + r·s`.
pub open spec fn is_product_sum<A: Arith>(p: F64, q: F64, r: F64, s: F64, w: F64) -> bool {
    exists|u: F64, v: F64| #[trigger]
        is_prod::<A>(p, q, u) && #[trigger] is_prod::<A>(r, s, v) && is_sum::<A>(u, v, w)
}

#[inline]
fn product_sum<A: Arith>(p: F64, q: F64, r: F64, s: F64) -> (w: F64)
    ensures
        is_product_sum::<A>(p, q, r, s, w),
{
    let u = A::prod(p, q);
    let v = A::prod(r, s);
    let w = A::sum(u, v);
    assert(is_prod::<A>(p, q, u) && is_prod::<A>(r, s, v));
    w
}

/// `x` is `(p·q + r·s) / det`.
pub open spec fn is_cross_sum<A: Arith>(
    p: F64,
    q: F64,
    r: F64,
    s: F64,
    det: F64,
    x: F64,
) -> bool {
    exists|w: F64| #[trigger] is_product_sum::<A>(p, q, r, s, w) && is_quot::<A>(w, det, x)
}

/// The determinant at or below which the linear score falls back to the constant one:
/// `1e-12`.
#[verifier::allow_in_spec]
pub fn min_determinant() -> F64
    returns
        (F64 { bits: 0x3d71_9799_812d_ea11 }),
{
    F64 { bits: 0x3d71_9799_812d_ea11 }
}

/// `r` is `bᵀ x` where `x` solves the system with matrix `[[a, b], [b, d]]` and right-hand
/// side `[g, gz]`, by Cramer's rule.
pub open spec fn is_quadratic_score<A: Arith>(
    a: F64,
    b: F64,
    d: F64,
    det: F64,
    g: F64,
    gz: F64,
    r: F64,
) -> bool {
    exists|x0: F64, x1: F64| #[trigger]
        is_cross_diff::<A>(d, g, b, gz, det, x0) && #[trigger] is_cross_sum::<A>(
            b.spec_negated(),
            g,
            a,
            gz,
            det,
            x1,
        ) && is_product_sum::<A>(g, x0, gz, x1, r)
}

/// `r` is the leaf-aware score of one side; the constant one where the determinant is not
/// clearly positive.
pub open spec fn is_score_linear<A: Arith>(
    h: F64,
    hz: F64,
    hzz: F64,
    g: F64,
    gz: F64,
    lam: F64,
    r: F64,
) -> bool {
    exists|a: F64, d: F64, det: F64| #[trigger]
        is_sum::<A>(h, lam, a) && #[trigger] is_sum::<A>(hzz, lam, d) && #[trigger] is_determinant::<
            A,
        >(a, hz, d, det) && if det.le(min_determinant()) {
            is_score_const::<A>(g, h, lam, r)
        } else {
            is_quadratic_score::<A>(a, hz, d, det, g, gz, r)
        }
}

/// Leaf-aware (linear) side score `bᵀ A⁻¹ b` for the 2×2 reduced basis
/// `[1, z̃]`, with `A = [[Σh,Σhz],[Σhz,Σhz²]] + λI`, `b = [Σg, Σgz]`.
#[inline]
pub fn score_linear<A: Arith>(h: F64, hz: F64, hzz: F64, g: F64, gz: F64, lam: F64) -> (r: F64)
    ensures
        is_score_linear::<A>(h, hz, hzz, g, gz, lam, r),
{
    let a = A::sum(h, lam);
    let b = hz;
    let d = A::sum(hzz, lam);
    let ad = A::prod(a, d);
    let bb = A::prod(b, b);
    let det = A::diff(ad, bb);
    proof {
        assert(is_prod::<A>(a, d, ad) && is_prod::<A>(b, b, bb));
        assert(is_sum::<A>(h, lam, a) && is_sum::<A>(hzz, lam, d) && is_determinant::<A>(
            a,
            hz,
            d,
            det,
        ));
    }
    if det.at_most(min_determinant()) {
        return score_const::<A>(g, h, lam);
    }
    let dg = A::prod(d, g);
    let bgz = A::prod(b, gz);
    let num = A::diff(dg, bgz);
    let x0 = A::quot(num, det);
    let num1 = product_sum::<A>(b.negated(), g, a, gz);
    let x1 = A::quot(num1, det);
    proof {
        assert(is_prod::<A>(d, g, dg) && is_prod::<A>(b, gz, bgz) && is_diff::<A>(dg, bgz, num));
        assert(is_cross_diff::<A>(d, g, b, gz, det, x0));
        assert(is_product_sum::<A>(b.spec_negated(), g, a, gz, num1));
        assert(is_cross_sum::<A>(b.spec_negated(), g, a, gz, det, x1));
    }
    let r = product_sum::<A>(g, x0, gz, x1);
    assert(is_quadratic_score::<A>(a, hz, d, det, g, gz, r));
    r
}

/// A candidate split for a node; row partition is recomputed on commit.
pub struct Candidate {
    pub gain: F32,
    pub feature: u32,
    pub split: Split,
    pub default_left: bool,
}

/// Per-bin moments for numeric split-finding.
#[derive(Clone, Copy)]
pub struct Bin {
    pub g: F64,
    pub h: F64,
    pub gz: F64,
    pub hz: F64,
    pub hzz: F64,
    pub n: u64,
}

impl Bin {
    /// The moments of no rows.
    #[verifier::allow_in_spec]
    pub fn empty() -> Bin
        returns
            (Bin {
                g: F64::zero(),
                h: F64::zero(),
                gz: F64::zero(),
                hz: F64::zero(),
                hzz: F64::zero(),
                n: 0,
            }),
    {
        Bin {
            g: F64::zero(),
            h: F64::zero(),
            gz: F64::zero(),
            hz: F64::zero(),
            hzz: F64::zero(),
            n: 0,
        }
    }
}

/// `z` is `v` normalized into `[0,1]` over the span of the knots; zero where they span
/// nothing.
pub open spec fn is_znorm<A: Arith>(knots: Seq<F32>, v: F32, z: F64) -> bool {
    let lo = knots[0];
    let hi = knots[knots.len() - 1];
    if hi.le(lo) {
        z == F64::zero()
    } else {
        exists|t: F32| #[trigger]
            is_interpolation::<A>(lo, hi, v, t) && z == t.spec_widened().spec_clamped(
                F64::zero(),
                F64::one(),
            )
    }
}

/// Normalize a routing value into `[0,1]` over the knot span for the leaf-aware
/// reduced basis.
#[inline]
pub fn znorm<A: Arith>(knots: &Vec<F32>, v: F32) -> (z: F64)
    requires
        knots.len() > 0,
    ensures
        is_znorm::<A>(knots@, v, z),
{
    let lo = knots[0];
    let hi = knots[knots.len() - 1];
    if hi.at_most(lo) {
        return F64::zero();
    }
    let a = A::diff32(v, lo);
    let b = A::diff32(hi, lo);
    let t = A::quot32(a, b);
    proof {
        assert(crate::arith::is_diff32::<A>(v, lo, a) && crate::arith::is_diff32::<A>(hi, lo, b));
        assert(is_interpolation::<A>(lo, hi, v, t));
    }
    t.widened().clamped(F64::zero(), F64::one())
}

/// `b` is `a` with one more row of gradient `gi`, hessian `hi` and normalized value `z`.
pub open spec fn is_moment_added<A: Arith>(gi: F64, hi: F64, z: F64, a: Bin, b: Bin) -> bool {
    exists|gz: F64, hz: F64, hzz: F64|
        {
            &&& #[trigger] is_prod::<A>(gi, z, gz)
            &&& #[trigger] is_prod::<A>(hi, z, hz)
            &&& #[trigger] is_prod::<A>(hz, z, hzz)
            &&& is_sum::<A>(a.g, gi, b.g)
            &&& is_sum::<A>(a.h, hi, b.h)
            &&& is_sum::<A>(a.gz, gz, b.gz)
            &&& is_sum::<A>(a.hz, hz, b.hz)
            &&& is_sum::<A>(a.hzz, hzz, b.hzz)
            &&& b.n == a.n + 1
        }
}

#[inline]
fn moment_added<A: Arith>(gi: F64, hi: F64, z: F64, a: Bin) -> (b: Bin)
    requires
        a.n < u64::MAX,
    ensures
        is_moment_added::<A>(gi, hi, z, a, b),
{
    let gz = A::prod(gi, z);
    let hz = A::prod(hi, z);
    let hzz = A::prod(hz, z);
    let b = Bin {
        g: A::sum(a.g, gi),
        h: A::sum(a.h, hi),
        gz: A::sum(a.gz, gz),
        hz: A::sum(a.hz, hz),
        hzz: A::sum(a.hzz, hzz),
        n: a.n + 1,
    };
    assert(is_prod::<A>(gi, z, gz) && is_prod::<A>(hi, z, hz) && is_prod::<A>(hz, z, hzz));
    b
}

/// `b` is `a` with one more row of value `v`.
pub open spec fn is_value_added<A: Arith>(
    knots: Seq<F32>,
    v: F32,
    g: F32,
    h: F32,
    a: Bin,
    b: Bin,
) -> bool {
    exists|z: F64| #[trigger]
        is_znorm::<A>(knots, v, z) && is_moment_added::<A>(
            g.spec_widened(),
            h.spec_widened(),
            z,
            a,
            b,
        )
}

/// `b` is `a` with one more row of missing value.
pub open spec fn is_missing_added<A: Arith>(g: F32, h: F32, a: Bin, b: Bin) -> bool {
    &&& is_sum::<A>(a.g, g.spec_widened(), b.g)
    &&& is_sum::<A>(a.h, h.spec_widened(), b.h)
    &&& b.gz == a.gz
    &&& b.hz == a.hz
    &&& b.hzz == a.hzz
    &&& b.n == a.n + 1
}

/// Adding row `r`, whose value is not missing.
pub open spec fn add_value<A: Arith>(
    vals: Seq<F32>,
    knots: Seq<F32>,
    g: Seq<F32>,
    h: Seq<F32>,
) -> spec_fn(u32, Bin, Bin) -> bool {
    |r: u32, a: Bin, b: Bin|
        is_value_added::<A>(knots, vals[r as int], g[r as int], h[r as int], a, b)
}

/// Adding row `r`, whose value is missing.
pub open spec fn add_missing<A: Arith>(
    g: Seq<F32>,
    h: Seq<F32>,
) -> spec_fn(u32, Bin, Bin) -> bool {
    |r: u32, a: Bin, b: Bin| is_missing_added::<A>(g[r as int], h[r as int], a, b)
}

/// The value of row `r` is missing.
pub open spec fn lacks_value(vals: Seq<F32>) -> spec_fn(u32) -> bool {
    |r: u32| vals[r as int].spec_is_nan()
}

/// The value of row `r` is in bin `b`: it reaches the first `b` knots and no other.
pub open spec fn in_bin(vals: Seq<F32>, knots: Seq<F32>, b: int) -> spec_fn(u32) -> bool {
    |r: u32| !vals[r as int].spec_is_nan() && is_knot_count(knots, vals[r as int], b)
}

/// `bin` holds the moments of the rows in bin `b`.
pub open spec fn is_bin_of<A: Arith>(
    rows: Seq<u32>,
    vals: Seq<F32>,
    knots: Seq<F32>,
    g: Seq<F32>,
    h: Seq<F32>,
    b: int,
    bin: Bin,
) -> bool {
    let own = rows.filter(in_bin(vals, knots, b));
    &&& folds(Bin::empty(), own, add_value::<A>(vals, knots, g, h), bin)
    &&& bin.n == own.len()
}

/// `bin` holds the moments of the rows without a value.
pub open spec fn is_missing_bin<A: Arith>(
    rows: Seq<u32>,
    vals: Seq<F32>,
    g: Seq<F32>,
    h: Seq<F32>,
    bin: Bin,
) -> bool {
    let own = rows.filter(lacks_value(vals));
    &&& folds(Bin::empty(), own, add_missing::<A>(g, h), bin)
    &&& bin.n == own.len()
}

/// `bins` and `miss` hold the moments of all rows: one bin between any two neighbouring
/// knots and one at each end.
pub open spec fn are_bins<A: Arith>(
    rows: Seq<u32>,
    vals: Seq<F32>,
    knots: Seq<F32>,
    g: Seq<F32>,
    h: Seq<F32>,
    bins: Seq<Bin>,
    miss: Bin,
) -> bool {
    &&& bins.len() == knots.len() + 1
    &&& forall|b: int|
        0 <= b < bins.len() ==> is_bin_of::<A>(rows, vals, knots, g, h, b, #[trigger] bins[b])
    &&& is_missing_bin::<A>(rows, vals, g, h, miss)
}

/// The rows are rows of `vals`, `g` and `h`.
pub open spec fn rows_within(rows: Seq<u32>, n: int) -> bool {
    forall|i: int| 0 <= i < rows.len() ==> #[trigger] rows[i] < n
}

fn fill_bins<A: Arith>(
    rows: &Vec<u32>,
    vals: &Vec<F32>,
    knots: &Vec<F32>,
    g: &Vec<F32>,
    h: &Vec<F32>,
) -> (r: (Vec<Bin>, Bin))
    requires
        rows_within(rows@, vals@.len() as int),
        rows_within(rows@, g@.len() as int),
        rows_within(rows@, h@.len() as int),
        ascending(knots@),
        knots.len() > 0 || forall|i: int|
            0 <= i < rows.len() ==> vals[#[trigger] rows[i] as int].spec_is_nan(),
    ensures
        are_bins::<A>(rows@, vals@, knots@, g@, h@, r.0@, r.1),
{
    let ghost step = add_value::<A>(vals@, knots@, g@, h@);
    let ghost miss_add = add_missing::<A>(g@, h@);
    let mut bins: Vec<Bin> = Vec::new();
    let mut b: usize = 0;
    proof {
        lemma_folds_start(Bin::empty(), step);
        lemma_folds_start(Bin::empty(), miss_add);
    }
    bins.push(Bin::empty());
    while b < knots.len()
        invariant
            b <= knots.len(),
            bins.len() == b + 1,
            forall|k: int| 0 <= k < bins.len() ==> #[trigger] bins[k] == Bin::empty(),
        decreases knots.len() - b,
    {
        bins.push(Bin::empty());
        b = b + 1;
    }
    let mut miss: Bin = Bin::empty();
    let mut i: usize = 0;
    proof {
        assert(rows@.take(0) =~= Seq::<u32>::empty());
        assert forall|b: int| 0 <= b < bins.len() implies is_bin_of::<A>(
            rows@.take(0),
            vals@,
            knots@,
            g@,
            h@,
            b,
            #[trigger] bins[b],
        ) by {
            lemma_filter_props(rows@.take(0), in_bin(vals@, knots@, b));
            assert(rows@.take(0).filter(in_bin(vals@, knots@, b)) =~= Seq::<u32>::empty());
        }
        lemma_filter_props(rows@.take(0), lacks_value(vals@));
        assert(rows@.take(0).filter(lacks_value(vals@)) =~= Seq::<u32>::empty());
    }
    while i < rows.len()
        invariant
            i <= rows.len(),
            rows_within(rows@, vals@.len() as int),
            rows_within(rows@, g@.len() as int),
            rows_within(rows@, h@.len() as int),
            ascending(knots@),
            knots.len() > 0 || forall|i: int|
                0 <= i < rows.len() ==> vals[#[trigger] rows[i] as int].spec_is_nan(),
            step == add_value::<A>(vals@, knots@, g@, h@),
            miss_add == add_missing::<A>(g@, h@),
            are_bins::<A>(rows@.take(i as int), vals@, knots@, g@, h@, bins@, miss),
        decreases rows.len() - i,
    {
        let r: u32 = rows[i];
        let v = vals[r as usize];
        let gi = g[r as usize];
        let hi = h[r as usize];
        let ghost now = rows@.take(i as int);
        let ghost next = rows@.take(i + 1);
        proof {
            lemma_filter_step(rows@, i as int, lacks_value(vals@));
            lemma_filter_props(now, lacks_value(vals@));
        }
        if v.is_nan() {
            proof {
                assert forall|b: int| 0 <= b < bins.len() implies is_bin_of::<A>(
                    next,
                    vals@,
                    knots@,
                    g@,
                    h@,
                    b,
                    #[trigger] bins[b],
                ) by {
                    assert(is_bin_of::<A>(now, vals@, knots@, g@, h@, b, bins[b]));
                    lemma_filter_step(rows@, i as int, in_bin(vals@, knots@, b));
                }
            }
            let m = Bin {
                g: A::sum(miss.g, gi.widened()),
                h: A::sum(miss.h, hi.widened()),
                n: miss.n + 1,
                ..miss
            };
            proof {
                assert(is_missing_added::<A>(gi, hi, miss, m));
                assert(miss_add(r, miss, m));
                lemma_folds_push(
                    Bin::empty(),
                    now.filter(lacks_value(vals@)),
                    miss_add,
                    miss,
                    r,
                    m,
                );
            }
            miss = m;
        } else {
            let p: usize = knots_at_most(knots, v);
            let ghost before = bins@;
            proof {
                assert(is_bin_of::<A>(now, vals@, knots@, g@, h@, p as int, bins[p as int]));
                lemma_filter_props(now, in_bin(vals@, knots@, p as int));
            }
            let z = znorm::<A>(knots, v);
            let nb = moment_added::<A>(gi.widened(), hi.widened(), z, bins[p]);
            proof {
                assert(is_znorm::<A>(knots@, v, z));
                assert(is_value_added::<A>(knots@, v, gi, hi, bins[p as int], nb));
                assert(step(r, bins[p as int], nb));
                lemma_folds_push(
                    Bin::empty(),
                    now.filter(in_bin(vals@, knots@, p as int)),
                    step,
                    bins[p as int],
                    r,
                    nb,
                );
            }
            bins.set(p, nb);
            proof {
                assert forall|b: int| 0 <= b < bins.len() implies is_bin_of::<A>(
                    next,
                    vals@,
                    knots@,
                    g@,
                    h@,
                    b,
                    #[trigger] bins[b],
                ) by {
                    lemma_filter_step(rows@, i as int, in_bin(vals@, knots@, b));
                    if b != p {
                        assert(is_bin_of::<A>(now, vals@, knots@, g@, h@, b, before[b]));
                        if is_knot_count(knots@, v, b) {
                            lemma_bin_unique(knots@, v, b, p as int);
                        }
                    }
                }
            }
        }
        i = i + 1;
    }
    proof {
        assert(rows@.take(rows@.len() as int) =~= rows@);
    }
    (bins, miss)
}

/// A value is in one bin.
pub(crate) proof fn lemma_bin_unique(knots: Seq<F32>, v: F32, a: int, b: int)
    requires
        0 <= a <= knots.len(),
        0 <= b <= knots.len(),
        is_knot_count(knots, v, a),
        is_knot_count(knots, v, b),
    ensures
        a == b,
{
    if a < b {
        assert(knots[a].le(v));
        assert(v.lt(knots[a]));
    } else if b < a {
        assert(knots[b].le(v));
        assert(v.lt(knots[b]));
    }
}

/// `r` is the moment-wise sum of `a` and `b`.
pub open spec fn is_bin_sum<A: Arith>(a: Bin, b: Bin, r: Bin) -> bool {
    &&& is_sum::<A>(a.g, b.g, r.g)
    &&& is_sum::<A>(a.h, b.h, r.h)
    &&& is_sum::<A>(a.gz, b.gz, r.gz)
    &&& is_sum::<A>(a.hz, b.hz, r.hz)
    &&& is_sum::<A>(a.hzz, b.hzz, r.hzz)
    &&& r.n == a.n + b.n
}

/// `r` is the moment-wise difference of `a` and `b`.
pub open spec fn is_bin_diff<A: Arith>(a: Bin, b: Bin, r: Bin) -> bool {
    &&& is_diff::<A>(a.g, b.g, r.g)
    &&& is_diff::<A>(a.h, b.h, r.h)
    &&& is_diff::<A>(a.gz, b.gz, r.gz)
    &&& is_diff::<A>(a.hz, b.hz, r.hz)
    &&& is_diff::<A>(a.hzz, b.hzz, r.hzz)
    &&& r.n == a.n - b.n
}

#[inline]
fn bin_sum<A: Arith>(a: Bin, b: Bin) -> (r: Bin)
    requires
        a.n + b.n <= u64::MAX,
    ensures
        is_bin_sum::<A>(a, b, r),
{
    Bin {
        g: A::sum(a.g, b.g),
        h: A::sum(a.h, b.h),
        gz: A::sum(a.gz, b.gz),
        hz: A::sum(a.hz, b.hz),
        hzz: A::sum(a.hzz, b.hzz),
        n: a.n + b.n,
    }
}

#[inline]
fn bin_diff<A: Arith>(a: Bin, b: Bin) -> (r: Bin)
    requires
        b.n <= a.n,
    ensures
        is_bin_diff::<A>(a, b, r),
{
    Bin {
        g: A::diff(a.g, b.g),
        h: A::diff(a.h, b.h),
        gz: A::diff(a.gz, b.gz),
        hz: A::diff(a.hz, b.hz),
        hzz: A::diff(a.hzz, b.hzz),
        n: a.n - b.n,
    }
}

/// Adding a bin.
pub open spec fn add_bin<A: Arith>() -> spec_fn(Bin, Bin, Bin) -> bool {
    |x: Bin, a: Bin, b: Bin| is_bin_sum::<A>(a, x, b)
}

/// The left side before bin `t` is added.
pub open spec fn left_before(lefts: Seq<Bin>, t: int) -> Bin {
    if t <= 0 {
        Bin::empty()
    } else {
        lefts[t - 1]
    }
}

/// `lefts[t]` are the moments left of knot `t`: of the bins up to and with `t`.
pub open spec fn are_left_sides<A: Arith>(bins: Seq<Bin>, lefts: Seq<Bin>) -> bool {
    &&& lefts.len() == bins.len() - 1
    &&& forall|t: int|
        0 <= t < lefts.len() ==> is_bin_sum::<A>(
            left_before(lefts, t),
            bins[t],
            #[trigger] lefts[t],
        )
}

/// Number of rows in the first `t` bins.
pub open spec fn rows_in_bins(bins: Seq<Bin>, t: int) -> int
    decreases t,
{
    if t <= 0 {
        0
    } else {
        rows_in_bins(bins, t - 1) + bins[t - 1].n
    }
}

proof fn lemma_rows_in_bins_grows(bins: Seq<Bin>, a: int, b: int)
    requires
        0 <= a <= b,
    ensures
        0 <= rows_in_bins(bins, a) <= rows_in_bins(bins, b),
    decreases b,
{
    if a < b {
        lemma_rows_in_bins_grows(bins, a, b - 1);
    } else if b > 0 {
        lemma_rows_in_bins_grows(bins, b - 1, b - 1);
    }
}

/// The value of row `r` is in one of the first `t` bins.
pub open spec fn in_first_bins(vals: Seq<F32>, knots: Seq<F32>, t: int) -> spec_fn(u32) -> bool {
    |r: u32|
        !vals[r as int].spec_is_nan() && exists|b: int|
            0 <= b < t && #[trigger] is_knot_count(knots, vals[r as int], b)
}

/// The bins count the rows that they hold.
pub(crate) proof fn lemma_bins_count<A: Arith>(
    rows: Seq<u32>,
    vals: Seq<F32>,
    knots: Seq<F32>,
    g: Seq<F32>,
    h: Seq<F32>,
    bins: Seq<Bin>,
    miss: Bin,
    t: int,
)
    requires
        are_bins::<A>(rows, vals, knots, g, h, bins, miss),
        0 <= t <= bins.len(),
    ensures
        rows_in_bins(bins, t) == rows.filter(in_first_bins(vals, knots, t)).len(),
    decreases t,
{
    let upto = in_first_bins(vals, knots, t);
    if t > 0 {
        lemma_bins_count::<A>(rows, vals, knots, g, h, bins, miss, t - 1);
        let front = in_first_bins(vals, knots, t - 1);
        let own = in_bin(vals, knots, t - 1);
        assert(is_bin_of::<A>(rows, vals, knots, g, h, t - 1, bins[t - 1]));
        assert forall|i: int| 0 <= i < rows.len() implies (upto(#[trigger] rows[i]) <==> front(
            rows[i],
        ) || own(rows[i])) && !(front(rows[i]) && own(rows[i])) by {
            let v = vals[rows[i] as int];
            if front(rows[i]) && own(rows[i]) {
                let b = choose|b: int| 0 <= b < t - 1 && #[trigger] is_knot_count(knots, v, b);
                lemma_bin_unique(knots, v, b, t - 1);
            }
            if upto(rows[i]) {
                let b = choose|b: int| 0 <= b < t && #[trigger] is_knot_count(knots, v, b);
                if b < t - 1 {
                    assert(front(rows[i]));
                }
            }
        }
        lemma_filter_split(rows, front, own, upto);
    } else {
        lemma_filter_none(rows, upto);
    }
}

/// Every value has a bin.
pub(crate) proof fn lemma_bin_exists(knots: Seq<F32>, v: F32) -> (b: int)
    requires
        ascending(knots),
        !v.spec_is_nan(),
    ensures
        0 <= b <= knots.len(),
        is_knot_count(knots, v, b),
    decreases knots.len(),
{
    if knots.len() == 0 {
        0
    } else {
        let front = knots.drop_last();
        let last = knots[knots.len() - 1];
        assert forall|i: int, j: int| 0 <= i <= j < front.len() implies (#[trigger] front[i]).le(
            #[trigger] front[j],
        ) by {
            assert(knots[i].le(knots[j]));
        }
        let b = lemma_bin_exists(front, v);
        assert(last.le(last)) by {
            assert(knots[knots.len() - 1].le(knots[knots.len() - 1]));
        }
        if last.le(v) {
            assert forall|i: int| 0 <= i < knots.len() implies (#[trigger] knots[i]).le(v) by {
                assert(knots[i].le(knots[knots.len() - 1]));
            }
            knots.len() as int
        } else {
            assert forall|i: int| 0 <= i < b implies (#[trigger] knots[i]).le(v) by {
                assert(front[i].le(v));
            }
            assert forall|i: int| b <= i < knots.len() implies v.lt(#[trigger] knots[i]) by {
                if i < front.len() {
                    assert(v.lt(front[i]));
                }
            }
            b
        }
    }
}

/// The bins and the rows without a value hold all rows.
pub(crate) proof fn lemma_bins_count_all<A: Arith>(
    rows: Seq<u32>,
    vals: Seq<F32>,
    knots: Seq<F32>,
    g: Seq<F32>,
    h: Seq<F32>,
    bins: Seq<Bin>,
    miss: Bin,
)
    requires
        are_bins::<A>(rows, vals, knots, g, h, bins, miss),
        ascending(knots),
    ensures
        rows_in_bins(bins, bins.len() as int) + miss.n == rows.len(),
{
    let n = bins.len() as int;
    lemma_bins_count::<A>(rows, vals, knots, g, h, bins, miss, n);
    let has = in_first_bins(vals, knots, n);
    let any = |r: u32| true;
    assert forall|i: int| 0 <= i < rows.len() implies (any(#[trigger] rows[i]) <==> has(rows[i])
        || lacks_value(vals)(rows[i])) && !(has(rows[i]) && lacks_value(vals)(rows[i])) by {
        let v = vals[rows[i] as int];
        if !v.spec_is_nan() {
            let b = lemma_bin_exists(knots, v);
        }
    }
    lemma_filter_split(rows, has, lacks_value(vals), any);
    lemma_filter_all(rows, any);
}

pub(crate) proof fn lemma_left_counts<A: Arith>(bins: Seq<Bin>, lefts: Seq<Bin>, t: int)
    requires
        are_left_sides::<A>(bins, lefts),
        0 <= t < lefts.len(),
    ensures
        lefts[t].n == rows_in_bins(bins, t + 1),
    decreases t,
{
    assert(is_bin_sum::<A>(left_before(lefts, t), bins[t], lefts[t]));
    if t > 0 {
        lemma_left_counts::<A>(bins, lefts, t - 1);
    } else {
        assert(rows_in_bins(bins, 0) == 0);
    }
}

/// `r` is a side of a split, with the rows without a value where these go there.
pub open spec fn is_side<A: Arith>(side: Bin, miss: Bin, with_missing: bool, r: Bin) -> bool {
    if with_missing {
        &&& is_sum::<A>(side.g, miss.g, r.g)
        &&& is_sum::<A>(side.h, miss.h, r.h)
        &&& r.gz == side.gz
        &&& r.hz == side.hz
        &&& r.hzz == side.hzz
        &&& r.n == side.n + miss.n
    } else {
        r == side
    }
}

/// `s` is the score of a side under the gain criterion.
pub open spec fn is_side_score<A: Arith>(kind: GainKind, b: Bin, lam: F64, s: F64) -> bool {
    match kind {
        GainKind::LeafAware => is_score_linear::<A>(b.h, b.hz, b.hzz, b.g, b.gz, lam, s),
        GainKind::Constant => is_score_const::<A>(b.g, b.h, lam, s),
    }
}

/// `gain` is `sL + sR - sP`.
pub open spec fn is_gain<A: Arith>(sl: F64, sr: F64, parent: F64, gain: F32) -> bool {
    exists|t: F64, u: F64| #[trigger]
        is_sum::<A>(sl, sr, t) && #[trigger] is_diff::<A>(t, parent, u) && is_narrow::<A>(u, gain)
}

/// The number of rows of a side.
pub open spec fn side_rows(side: Bin, miss: Bin, with_missing: bool) -> int {
    side.n + if with_missing {
        miss.n as int
    } else {
        0
    }
}

/// `gain` is the gain of a split into `left` and `right`, the rows without a value going
/// to the sides that say so.
pub open spec fn is_scored_split<A: Arith>(
    cfg: Config,
    left: Bin,
    right: Bin,
    miss: Bin,
    parent: F64,
    miss_left: bool,
    miss_right: bool,
    gain: F32,
) -> bool {
    exists|l: Bin, r: Bin, sl: F64, sr: F64| #[trigger]
        is_side::<A>(left, miss, miss_left, l) && #[trigger] is_side::<A>(
            right,
            miss,
            miss_right,
            r,
        ) && #[trigger] is_side_score::<A>(cfg.gain, l, cfg.lambda.spec_widened(), sl)
            && #[trigger] is_side_score::<A>(cfg.gain, r, cfg.lambda.spec_widened(), sr)
            && is_gain::<A>(sl, sr, parent, gain)
}

/// `gain` is the gain of a split into `left` and `right`, the rows without a value going
/// left or right; there is none where a side has too few rows.
pub open spec fn is_direction_gain<A: Arith>(
    cfg: Config,
    left: Bin,
    right: Bin,
    miss: Bin,
    parent: F64,
    default_left: bool,
    gain: Option<F32>,
) -> bool {
    if side_rows(left, miss, default_left) < cfg.min_leaf_samples || side_rows(
        right,
        miss,
        !default_left,
    ) < cfg.min_leaf_samples {
        gain is None
    } else {
        gain is Some && is_scored_split::<A>(
            cfg,
            left,
            right,
            miss,
            parent,
            default_left,
            !default_left,
            gain->0,
        )
    }
}

fn full_side<A: Arith>(side: Bin, miss: Bin, with_missing: bool) -> (r: Bin)
    requires
        side.n + miss.n <= u64::MAX,
    ensures
        is_side::<A>(side, miss, with_missing, r),
{
    if with_missing {
        Bin {
            g: A::sum(side.g, miss.g),
            h: A::sum(side.h, miss.h),
            n: side.n + miss.n,
            ..side
        }
    } else {
        side
    }
}

fn side_score<A: Arith>(kind: GainKind, b: Bin, lam: F64) -> (s: F64)
    ensures
        is_side_score::<A>(kind, b, lam, s),
{
    match kind {
        GainKind::LeafAware => score_linear::<A>(b.h, b.hz, b.hzz, b.g, b.gz, lam),
        GainKind::Constant => score_const::<A>(b.g, b.h, lam),
    }
}

fn split_gain<A: Arith>(sl: F64, sr: F64, parent: F64) -> (gain: F32)
    ensures
        is_gain::<A>(sl, sr, parent, gain),
{
    let t = A::sum(sl, sr);
    let u = A::diff(t, parent);
    let gain = A::narrow(u);
    assert(is_sum::<A>(sl, sr, t) && is_diff::<A>(t, parent, u));
    gain
}

fn direction_gain<A: Arith>(
    cfg: &Config,
    left: Bin,
    right: Bin,
    miss: Bin,
    parent: F64,
    default_left: bool,
) -> (gain: Option<F32>)
    requires
        left.n + miss.n <= u64::MAX,
        right.n + miss.n <= u64::MAX,
    ensures
        is_direction_gain::<A>(*cfg, left, right, miss, parent, default_left, gain),
{
    let min: u64 = cfg.min_leaf_samples as u64;
    let ln: u64 = if default_left {
        left.n + miss.n
    } else {
        left.n
    };
    let rn: u64 = if default_left {
        right.n
    } else {
        right.n + miss.n
    };
    if ln < min || rn < min {
        return None;
    }
    let lam = cfg.lambda.widened();
    let l = full_side::<A>(left, miss, default_left);
    let r = full_side::<A>(right, miss, !default_left);
    let sl = side_score::<A>(cfg.gain, l, lam);
    let sr = side_score::<A>(cfg.gain, r, lam);
    let gain = split_gain::<A>(sl, sr, parent);
    proof {
        assert(is_side::<A>(left, miss, default_left, l) && is_side::<A>(
            right,
            miss,
            !default_left,
            r,
        ) && is_side_score::<A>(cfg.gain, l, cfg.lambda.spec_widened(), sl) && is_side_score::<A>(
            cfg.gain,
            r,
            cfg.lambda.spec_widened(),
            sr,
        ));
    }
    Some(gain)
}

/// `to_left` and `to_right` are the gains of the split at one knot, the rows without a value
/// going left or right.
pub open spec fn are_threshold_gains<A: Arith>(
    cfg: Config,
    tot: Bin,
    left: Bin,
    miss: Bin,
    parent: F64,
    to_left: Option<F32>,
    to_right: Option<F32>,
) -> bool {
    exists|right: Bin| #[trigger]
        is_bin_diff::<A>(tot, left, right) && is_direction_gain::<A>(
            cfg,
            left,
            right,
            miss,
            parent,
            true,
            to_left,
        ) && is_direction_gain::<A>(cfg, left, right, miss, parent, false, to_right)
}

/// `gains` are the gains of all candidate splits on a numeric column: two for each knot.
pub open spec fn are_numeric_gains<A: Arith>(
    cfg: Config,
    tot: Bin,
    lefts: Seq<Bin>,
    miss: Bin,
    parent: F64,
    gains: Seq<Option<F32>>,
) -> bool {
    &&& gains.len() == 2 * lefts.len()
    &&& forall|t: int|
        0 <= t < lefts.len() ==> are_threshold_gains::<A>(
            cfg,
            tot,
            #[trigger] lefts[t],
            miss,
            parent,
            gains[2 * t],
            gains[2 * t + 1],
        )
}

/// The position of the best gain: the first that no later one exceeds. A gain that is not a
/// number neither exceeds nor is exceeded.
pub open spec fn scan_best(gains: Seq<Option<F32>>) -> Option<int>
    decreases gains.len(),
{
    if gains.len() == 0 {
        None
    } else {
        let best = scan_best(gains.drop_last());
        match (gains.last(), best) {
            (None, _) => best,
            (Some(x), None) => Some(gains.len() - 1),
            (Some(x), Some(j)) => if gains[j]->0.lt(x) {
                Some(gains.len() - 1)
            } else {
                best
            },
        }
    }
}

/// The best gain is one of the gains, and there is one exactly where there is any gain.
pub proof fn lemma_scan_best_in_range(gains: Seq<Option<F32>>)
    ensures
        scan_best(gains) matches Some(j) ==> 0 <= j < gains.len() && gains[j] is Some,
        scan_best(gains) is None ==> forall|i: int|
            0 <= i < gains.len() ==> (#[trigger] gains[i]) is None,
    decreases gains.len(),
{
    if gains.len() > 0 {
        let front = gains.drop_last();
        lemma_scan_best_in_range(front);
        if scan_best(gains) is None {
            assert forall|i: int| 0 <= i < gains.len() implies (#[trigger] gains[i]) is None by {
                if i < front.len() {
                    assert(front[i] is None);
                }
            }
        }
    }
}

/// Where every gain is a number, none exceeds the best, and those before it are less.
pub proof fn lemma_scan_best_is_max(gains: Seq<Option<F32>>)
    requires
        forall|i: int|
            0 <= i < gains.len() ==> ((#[trigger] gains[i]) matches Some(x) ==> !x.spec_is_nan()),
    ensures
        scan_best(gains) matches Some(j) ==> forall|i: int|
            0 <= i < gains.len() ==> ((#[trigger] gains[i]) matches Some(x) ==> if i < j {
                x.lt(gains[j]->0)
            } else {
                x.le(gains[j]->0)
            }),
    decreases gains.len(),
{
    lemma_scan_best_in_range(gains);
    if gains.len() > 0 {
        let front = gains.drop_last();
        assert forall|i: int| 0 <= i < front.len() implies ((#[trigger] front[i]) matches Some(
            x,
        ) ==> !x.spec_is_nan()) by {
            assert(front[i] == gains[i]);
        }
        lemma_scan_best_is_max(front);
        lemma_scan_best_in_range(front);
        if let Some(j) = scan_best(gains) {
            assert forall|i: int| 0 <= i < gains.len() implies ((#[trigger] gains[i]) matches Some(
                x,
            ) ==> if i < j {
                x.lt(gains[j]->0)
            } else {
                x.le(gains[j]->0)
            }) by {
                if i < front.len() {
                    assert(front[i] == gains[i]);
                }
            }
        }
    }
}

/// `best` is the best of the gains on a numeric column, with its threshold and its direction
/// for rows without a value.
spec fn is_best_so_far(
    gains: Seq<Option<F32>>,
    knots: Seq<F32>,
    best: Option<(F32, F32, bool)>,
) -> bool {
    match scan_best(gains) {
        None => best is None,
        Some(j) => best == Some((gains[j]->0, knots[j / 2], j % 2 == 0)),
    }
}

fn better(
    best: Option<(F32, F32, bool)>,
    gain: Option<F32>,
    thr: F32,
    default_left: bool,
    Ghost(gains): Ghost<Seq<Option<F32>>>,
    Ghost(knots): Ghost<Seq<F32>>,
) -> (r: Option<(F32, F32, bool)>)
    requires
        is_best_so_far(gains, knots, best),
        thr == knots[gains.len() as int / 2],
        default_left == (gains.len() % 2 == 0),
    ensures
        is_best_so_far(gains.push(gain), knots, r),
{
    proof {
        assert(gains.push(gain).drop_last() =~= gains);
        lemma_scan_best_in_range(gains);
    }
    match gain {
        None => best,
        Some(x) => match best {
            None => Some((x, thr, default_left)),
            Some(b) => if b.0.less(x) {
                Some((x, thr, default_left))
            } else {
                best
            },
        },
    }
}

/// `r` is the candidate with the best of the gains on a numeric column, if any.
pub open spec fn is_numeric_pick(
    gains: Seq<Option<F32>>,
    knots: Seq<F32>,
    r: Option<Candidate>,
) -> bool {
    match scan_best(gains) {
        None => r is None,
        Some(j) => r == Some(
            Candidate {
                gain: gains[j]->0,
                feature: 0,
                split: Split::Numeric { thr: knots[j / 2] },
                default_left: j % 2 == 0,
            },
        ),
    }
}

/// `r` is the best split on a numeric column over the rows: of the splits at every knot, with
/// the rows without a value left or right and enough rows on both sides, the first of
/// highest gain.
pub open spec fn is_best_numeric<A: Arith>(
    rows: Seq<u32>,
    vals: Seq<F32>,
    knots: Seq<F32>,
    g: Seq<F32>,
    h: Seq<F32>,
    cfg: Config,
    parent: F64,
    r: Option<Candidate>,
) -> bool {
    exists|bins: Seq<Bin>, miss: Bin, tot: Bin, lefts: Seq<Bin>, gains: Seq<Option<F32>>|
        {
            &&& #[trigger] are_bins::<A>(rows, vals, knots, g, h, bins, miss)
            &&& #[trigger] folds(Bin::empty(), bins, add_bin::<A>(), tot)
            &&& tot.n == rows_in_bins(bins, bins.len() as int)
            &&& #[trigger] are_left_sides::<A>(bins, lefts)
            &&& #[trigger] are_numeric_gains::<A>(cfg, tot, lefts, miss, parent, gains)
            &&& is_numeric_pick(gains, knots, r)
        }
}

fn bin_totals<A: Arith>(bins: &Vec<Bin>) -> (tot: Bin)
    requires
        rows_in_bins(bins@, bins@.len() as int) <= u64::MAX,
    ensures
        folds(Bin::empty(), bins@, add_bin::<A>(), tot),
        tot.n == rows_in_bins(bins@, bins@.len() as int),
{
    let ghost step = add_bin::<A>();
    let mut tot: Bin = Bin::empty();
    let mut i: usize = 0;
    proof {
        assert(bins@.take(0) =~= Seq::<Bin>::empty());
        lemma_folds_start(Bin::empty(), step);
    }
    while i < bins.len()
        invariant
            i <= bins.len(),
            rows_in_bins(bins@, bins@.len() as int) <= u64::MAX,
            step == add_bin::<A>(),
            folds(Bin::empty(), bins@.take(i as int), step, tot),
            tot.n == rows_in_bins(bins@, i as int),
        decreases bins.len() - i,
    {
        proof {
            lemma_rows_in_bins_grows(bins@, i + 1, bins@.len() as int);
        }
        let next = bin_sum::<A>(tot, bins[i]);
        proof {
            assert(step(bins@[i as int], tot, next));
            lemma_folds_push(Bin::empty(), bins@.take(i as int), step, tot, bins@[i as int], next);
            assert(bins@.take(i + 1) =~= bins@.take(i as int).push(bins@[i as int]));
        }
        tot = next;
        i = i + 1;
    }
    proof {
        assert(bins@.take(bins@.len() as int) =~= bins@);
    }
    tot
}

/// Best split on one numeric/high-card column over `rows`.
pub fn best_numeric<A: Arith>(
    rows: &Vec<u32>,
    vals: &Vec<F32>,
    knots: &Vec<F32>,
    g: &Vec<F32>,
    h: &Vec<F32>,
    cfg: &Config,
    parent_score: F64,
) -> (r: Option<Candidate>)
    requires
        rows_within(rows@, vals@.len() as int),
        rows_within(rows@, g@.len() as int),
        rows_within(rows@, h@.len() as int),
        ascending(knots@),
        knots.len() > 0 || forall|i: int|
            0 <= i < rows.len() ==> vals[#[trigger] rows[i] as int].spec_is_nan(),
    ensures
        is_best_numeric::<A>(rows@, vals@, knots@, g@, h@, *cfg, parent_score, r),
{
    let (bins, miss) = fill_bins::<A>(rows, vals, knots, g, h);
    proof {
        lemma_bins_count_all::<A>(rows@, vals@, knots@, g@, h@, bins@, miss);
        assert(rows.len() <= usize::MAX);
    }
    // Totals over non-missing bins.
    let tot = bin_totals::<A>(&bins);
    // Running left side over bins 0..=t.
    let mut acc: Bin = Bin::empty();
    let ghost mut lefts: Seq<Bin> = Seq::empty();
    let ghost mut gains: Seq<Option<F32>> = Seq::empty();
    let mut best: Option<(F32, F32, bool)> = None;
    let mut t: usize = 0;
    // Threshold at knots[t]: left = bins 0..=t, right = bins t+1..=k.
    while t < knots.len()
        invariant
            t <= knots.len(),
            bins.len() == knots.len() + 1,
            rows_in_bins(bins@, bins@.len() as int) + miss.n <= u64::MAX,
            tot.n == rows_in_bins(bins@, bins@.len() as int),
            lefts.len() == t,
            acc == left_before(lefts, t as int),
            acc.n == rows_in_bins(bins@, t as int),
            forall|k: int|
                0 <= k < t ==> is_bin_sum::<A>(
                    left_before(lefts, k),
                    bins[k],
                    #[trigger] lefts[k],
                ),
            gains.len() == 2 * t,
            forall|k: int|
                0 <= k < t ==> are_threshold_gains::<A>(
                    *cfg,
                    tot,
                    #[trigger] lefts[k],
                    miss,
                    parent_score,
                    gains[2 * k],
                    gains[2 * k + 1],
                ),
            is_best_so_far(gains, knots@, best),
        decreases knots.len() - t,
    {
        proof {
            lemma_rows_in_bins_grows(bins@, t + 1, bins@.len() as int);
        }
        let next = bin_sum::<A>(acc, bins[t]);
        // right = totals - left.
        let right = bin_diff::<A>(tot, next);
        // Both directions for missing rows.
        let to_left = direction_gain::<A>(cfg, next, right, miss, parent_score, true);
        let to_right = direction_gain::<A>(cfg, next, right, miss, parent_score, false);
        best = better(best, to_left, knots[t], true, Ghost(gains), Ghost(knots@));
        best = better(best, to_right, knots[t], false, Ghost(gains.push(to_left)), Ghost(knots@));
        proof {
            let old_lefts = lefts;
            let old_gains = gains;
            lefts = lefts.push(next);
            gains = gains.push(to_left).push(to_right);
            assert(is_bin_diff::<A>(tot, next, right));
            assert forall|k: int| 0 <= k < t + 1 implies is_bin_sum::<A>(
                left_before(lefts, k),
                bins[k],
                #[trigger] lefts[k],
            ) by {
                if k < t {
                    assert(lefts[k] == old_lefts[k]);
                    assert(left_before(lefts, k) == left_before(old_lefts, k));
                }
            }
            assert forall|k: int| 0 <= k < t + 1 implies are_threshold_gains::<A>(
                *cfg,
                tot,
                #[trigger] lefts[k],
                miss,
                parent_score,
                gains[2 * k],
                gains[2 * k + 1],
            ) by {
                if k < t {
                    assert(lefts[k] == old_lefts[k]);
                    assert(gains[2 * k] == old_gains[2 * k]);
                    assert(gains[2 * k + 1] == old_gains[2 * k + 1]);
                }
            }
        }
        acc = next;
        t = t + 1;
    }
    let r = match best {
        None => None,
        Some(b) => Some(
            Candidate {
                gain: b.0,
                feature: 0,
                split: Split::Numeric { thr: b.1 },
                default_left: b.2,
            },
        ),
    };
    proof {
        assert(are_bins::<A>(rows@, vals@, knots@, g@, h@, bins@, miss) && folds(
            Bin::empty(),
            bins@,
            add_bin::<A>(),
            tot,
        ) && are_left_sides::<A>(bins@, lefts) && are_numeric_gains::<A>(
            *cfg,
            tot,
            lefts,
            miss,
            parent_score,
            gains,
        ));
    }
    r
}

/// A row with routing value `v` goes left.
pub open spec fn goes_left(split: Split, default_left: bool, v: Result<F32, u32>) -> bool {
    match (split, v) {
        (Split::Numeric { thr }, Ok(x)) => if x.spec_is_nan() {
            default_left
        } else {
            x.lt(thr)
        },
        (Split::Categorical { left_set }, Err(code)) => left_set@.contains(code),
        _ => default_left,
    }
}

fn holds_code(set: &Vec<u32>, code: u32) -> (r: bool)
    ensures
        r == set@.contains(code),
{
    let mut i: usize = 0;
    while i < set.len()
        invariant
            i <= set.len(),
            forall|k: int| 0 <= k < i ==> #[trigger] set[k] != code,
        decreases set.len() - i,
    {
        if set[i] == code {
            return true;
        }
        i = i + 1;
    }
    false
}

/// Whether a row with routing value `v` goes left.
#[inline]
pub fn sends_left(split: &Split, default_left: bool, v: Result<F32, u32>) -> (r: bool)
    ensures
        r == goes_left(*split, default_left, v),
{
    match (split, v) {
        (Split::Numeric { thr }, Ok(x)) => if x.is_nan() {
            default_left
        } else {
            x.less(*thr)
        },
        (Split::Categorical { left_set }, Err(code)) => holds_code(left_set, code),
        _ => default_left,
    }
}

/// The routing value of a row: a number for numeric and high-card columns, a dense code for
/// bounded categoricals.
pub open spec fn col_value(col: EncCol, row: int) -> Result<F32, u32> {
    match col {
        EncCol::Num(v) => Ok(v[row]),
        EncCol::HighCard { enc, .. } => Ok(enc[row]),
        EncCol::Cat(codes) => Err(codes[row]),
    }
}

/// The column has a routing value for each of `n` rows.
pub open spec fn col_covers(col: EncCol, n: int) -> bool {
    match col {
        EncCol::Num(v) => n <= v.len(),
        EncCol::HighCard { enc, .. } => n <= enc.len(),
        EncCol::Cat(codes) => n <= codes.len(),
    }
}

/// Row `r` goes left.
pub open spec fn row_goes_left(
    split: Split,
    default_left: bool,
    col: EncCol,
) -> spec_fn(u32) -> bool {
    |r: u32| goes_left(split, default_left, col_value(col, r as int))
}

/// Row `r` goes right.
pub open spec fn row_goes_right(
    split: Split,
    default_left: bool,
    col: EncCol,
) -> spec_fn(u32) -> bool {
    |r: u32| !goes_left(split, default_left, col_value(col, r as int))
}

/// The split is of the kind that the column takes.
pub open spec fn split_suits(split: Split, col: EncCol) -> bool {
    match split {
        Split::Numeric { .. } => !(col is Cat),
        Split::Categorical { .. } => col is Cat,
    }
}

#[inline]
pub(crate) fn value_at(col: &EncCol, row: usize) -> (v: Result<F32, u32>)
    requires
        col_covers(*col, row + 1),
    ensures
        v == col_value(*col, row as int),
{
    match col {
        EncCol::Num(v) => Ok(v[row]),
        EncCol::HighCard { enc, .. } => Ok(enc[row]),
        EncCol::Cat(codes) => Err(codes[row]),
    }
}

/// Route a node's rows into (left, right) for a committed split.
pub fn partition(
    rows: &Vec<u32>,
    feature: usize,
    split: &Split,
    default_left: bool,
    matrix: &EncodedMatrix,
) -> (r: (Vec<u32>, Vec<u32>))
    requires
        feature < matrix.cols.len(),
        split_suits(*split, matrix.cols[feature as int]),
        forall|i: int|
            0 <= i < rows.len() ==> col_covers(
                matrix.cols[feature as int],
                #[trigger] rows[i] + 1,
            ),
    ensures
        r.0@ == rows@.filter(row_goes_left(*split, default_left, matrix.cols[feature as int])),
        r.1@ == rows@.filter(row_goes_right(*split, default_left, matrix.cols[feature as int])),
{
    let ghost col = matrix.cols[feature as int];
    let ghost to_left = row_goes_left(*split, default_left, col);
    let ghost to_right = row_goes_right(*split, default_left, col);
    let mut left: Vec<u32> = Vec::new();
    let mut right: Vec<u32> = Vec::new();
    let mut i: usize = 0;
    proof {
        lemma_filter_props(rows@.take(0), to_left);
        lemma_filter_props(rows@.take(0), to_right);
        assert(rows@.take(0).filter(to_left) =~= Seq::<u32>::empty());
        assert(rows@.take(0).filter(to_right) =~= Seq::<u32>::empty());
    }
    while i < rows.len()
        invariant
            i <= rows.len(),
            feature < matrix.cols.len(),
            col == matrix.cols[feature as int],
            forall|i: int| 0 <= i < rows.len() ==> col_covers(col, #[trigger] rows[i] + 1),
            to_left == row_goes_left(*split, default_left, col),
            to_right == row_goes_right(*split, default_left, col),
            left@ == rows@.take(i as int).filter(to_left),
            right@ == rows@.take(i as int).filter(to_right),
        decreases rows.len() - i,
    {
        let r: u32 = rows[i];
        proof {
            lemma_filter_step(rows@, i as int, to_left);
            lemma_filter_step(rows@, i as int, to_right);
        }
        let v = value_at(&matrix.cols[feature], r as usize);
        if sends_left(split, default_left, v) {
            left.push(r);
        } else {
            right.push(r);
        }
        i = i + 1;
    }
    proof {
        assert(rows@.take(rows@.len() as int) =~= rows@);
    }
    (left, right)
}

/// Both sides of a split have the rows that a leaf needs.
pub open spec fn sides_have(rows: Seq<u32>, min: int, c: Candidate, col: EncCol) -> bool {
    &&& rows.filter(row_goes_left(c.split, c.default_left, col)).len() >= min
    &&& rows.filter(row_goes_right(c.split, c.default_left, col)).len() >= min
}

/// The best numeric split leaves enough rows on both sides.
pub proof fn lemma_numeric_sides<A: Arith>(
    rows: Seq<u32>,
    vals: Seq<F32>,
    knots: Seq<F32>,
    g: Seq<F32>,
    h: Seq<F32>,
    cfg: Config,
    parent: F64,
    c: Candidate,
    col: EncCol,
)
    requires
        is_best_numeric::<A>(rows, vals, knots, g, h, cfg, parent, Some(c)),
        ascending(knots),
        match col {
            EncCol::Num(v) => v@ == vals,
            EncCol::HighCard { enc, .. } => enc@ == vals,
            _ => false,
        },
    ensures
        c.split is Numeric,
        sides_have(rows, cfg.min_leaf_samples as int, c, col),
{
    let (bins, miss, tot, lefts, gains) = choose|
        bins: Seq<Bin>,
        miss: Bin,
        tot: Bin,
        lefts: Seq<Bin>,
        gains: Seq<Option<F32>>,
    |
        {
            &&& #[trigger] are_bins::<A>(rows, vals, knots, g, h, bins, miss)
            &&& #[trigger] folds(Bin::empty(), bins, add_bin::<A>(), tot)
            &&& tot.n == rows_in_bins(bins, bins.len() as int)
            &&& #[trigger] are_left_sides::<A>(bins, lefts)
            &&& #[trigger] are_numeric_gains::<A>(cfg, tot, lefts, miss, parent, gains)
            &&& is_numeric_pick(gains, knots, Some(c))
        };
    lemma_scan_best_in_range(gains);
    let j = scan_best(gains)->0;
    let t = j / 2;
    assert(are_threshold_gains::<A>(
        cfg,
        tot,
        lefts[t],
        miss,
        parent,
        gains[2 * t],
        gains[2 * t + 1],
    ));
    lemma_left_counts::<A>(bins, lefts, t);
    lemma_bins_count::<A>(rows, vals, knots, g, h, bins, miss, t + 1);
    lemma_bins_count_all::<A>(rows, vals, knots, g, h, bins, miss);
    let right = choose|right: Bin| #[trigger]
        is_bin_diff::<A>(tot, lefts[t], right) && is_direction_gain::<A>(
            cfg,
            lefts[t],
            right,
            miss,
            parent,
            true,
            gains[2 * t],
        ) && is_direction_gain::<A>(
            cfg,
            lefts[t],
            right,
            miss,
            parent,
            false,
            gains[2 * t + 1],
        );
    let below = in_first_bins(vals, knots, t + 1);
    let lacks = lacks_value(vals);
    let never = |r: u32| false;
    let to_left = row_goes_left(c.split, c.default_left, col);
    let to_right = row_goes_right(c.split, c.default_left, col);
    assert forall|i: int| 0 <= i < rows.len() implies (below(#[trigger] rows[i])
        <==> !vals[rows[i] as int].spec_is_nan() && vals[rows[i] as int].lt(knots[t])) by {
        let v = vals[rows[i] as int];
        if below(rows[i]) {
            let b = choose|b: int| 0 <= b < t + 1 && #[trigger] is_knot_count(knots, v, b);
            assert(v.lt(knots[t]));
        } else if !v.spec_is_nan() {
            let b = lemma_bin_exists(knots, v);
            assert(b > t);
            assert(knots[t].le(v));
        }
    }
    if c.default_left {
        assert(j == 2 * t);
        lemma_filter_split(rows, below, lacks, to_left);
    } else {
        assert(j == 2 * t + 1);
        lemma_filter_none(rows, never);
        lemma_filter_split(rows, below, never, to_left);
    }
    let any = |r: u32| true;
    lemma_filter_split(rows, to_left, to_right, any);
    lemma_filter_all(rows, any);
}

/// Gradient sum, hessian sum and number of rows of a category.
#[derive(Clone, Copy)]
pub struct CatStat {
    pub g: F64,
    pub h: F64,
    pub n: u64,
}

impl CatStat {
    /// The sums over no rows.
    #[verifier::allow_in_spec]
    pub fn empty() -> CatStat
        returns
            (CatStat { g: F64::zero(), h: F64::zero(), n: 0 }),
    {
        CatStat { g: F64::zero(), h: F64::zero(), n: 0 }
    }
}

/// `b` is `a` with one more row.
pub open spec fn is_stat_added<A: Arith>(g: F32, h: F32, a: CatStat, b: CatStat) -> bool {
    &&& is_sum::<A>(a.g, g.spec_widened(), b.g)
    &&& is_sum::<A>(a.h, h.spec_widened(), b.h)
    &&& b.n == a.n + 1
}

#[inline]
fn stat_added<A: Arith>(g: F32, h: F32, a: CatStat) -> (b: CatStat)
    requires
        a.n < u64::MAX,
    ensures
        is_stat_added::<A>(g, h, a, b),
{
    CatStat { g: A::sum(a.g, g.widened()), h: A::sum(a.h, h.widened()), n: a.n + 1 }
}

/// `r` is the sum of `a` and `b`.
pub open spec fn is_stat_sum<A: Arith>(a: CatStat, b: CatStat, r: CatStat) -> bool {
    &&& is_sum::<A>(a.g, b.g, r.g)
    &&& is_sum::<A>(a.h, b.h, r.h)
    &&& r.n == a.n + b.n
}

/// Adding row `r`.
pub open spec fn add_stat<A: Arith>(
    g: Seq<F32>,
    h: Seq<F32>,
) -> spec_fn(u32, CatStat, CatStat) -> bool {
    |r: u32, a: CatStat, b: CatStat| is_stat_added::<A>(g[r as int], h[r as int], a, b)
}

/// Row `r` has code `c`.
pub open spec fn has_code(codes: Seq<u32>, c: u32) -> spec_fn(u32) -> bool {
    |r: u32| codes[r as int] == c
}

/// The code of row `r` is one of `set`.
pub open spec fn has_code_of(codes: Seq<u32>, set: Seq<u32>) -> spec_fn(u32) -> bool {
    |r: u32| set.contains(codes[r as int])
}

/// The codes of the rows in order of first appearance.
pub open spec fn seen_codes(rows: Seq<u32>, codes: Seq<u32>) -> Seq<u32>
    decreases rows.len(),
{
    if rows.len() == 0 {
        Seq::empty()
    } else {
        let seen = seen_codes(rows.drop_last(), codes);
        let c = codes[rows.last() as int];
        if seen.contains(c) {
            seen
        } else {
            seen.push(c)
        }
    }
}

/// `st` holds the sums over the rows with code `c`.
pub open spec fn is_stat_of<A: Arith>(
    rows: Seq<u32>,
    codes: Seq<u32>,
    g: Seq<F32>,
    h: Seq<F32>,
    c: u32,
    st: CatStat,
) -> bool {
    let own = rows.filter(has_code(codes, c));
    &&& folds(CatStat::empty(), own, add_stat::<A>(g, h), st)
    &&& st.n == own.len()
}

/// `stats` hold the sums of the codes `seen`.
pub open spec fn are_code_stats<A: Arith>(
    rows: Seq<u32>,
    codes: Seq<u32>,
    g: Seq<F32>,
    h: Seq<F32>,
    seen: Seq<u32>,
    stats: Seq<CatStat>,
) -> bool {
    &&& stats.len() == seen.len()
    &&& forall|i: int|
        0 <= i < stats.len() ==> is_stat_of::<A>(rows, codes, g, h, seen[i], #[trigger] stats[i])
}

/// `q` is `G/H` of a category; `G` where `H` is not positive.
pub open spec fn is_ratio<A: Arith>(st: CatStat, q: F64) -> bool {
    if F64::zero().lt(st.h) {
        is_quot::<A>(st.g, st.h, q)
    } else {
        is_quot::<A>(st.g, F64::one(), q)
    }
}

/// `ratios` are `G/H` of the categories.
pub open spec fn are_ratios<A: Arith>(stats: Seq<CatStat>, ratios: Seq<F64>) -> bool {
    &&& ratios.len() == stats.len()
    &&& forall|i: int| 0 <= i < ratios.len() ==> is_ratio::<A>(stats[i], #[trigger] ratios[i])
}

/// The sort keys of the ratios.
pub open spec fn ratio_keys(ratios: Seq<F64>) -> Seq<u128> {
    ratios.map_values(|x: F64| x.key() as u128)
}

/// The left side before a category is added.
pub open spec fn stat_before(lefts: Seq<CatStat>, i: int) -> CatStat {
    if i <= 0 {
        CatStat::empty()
    } else {
        lefts[i - 1]
    }
}

/// `lefts[i]` holds the sums over the first `i + 1` categories of the order.
pub open spec fn are_leading_sums<A: Arith>(
    stats: Seq<CatStat>,
    order: Seq<usize>,
    lefts: Seq<CatStat>,
) -> bool {
    forall|i: int|
        0 <= i < lefts.len() ==> is_stat_sum::<A>(
            stat_before(lefts, i),
            stats[order[i] as int],
            #[trigger] lefts[i],
        )
}

/// `lefts` are the sums over the leading categories of the order; the last category is never
/// on the left.
pub open spec fn are_prefix_sums<A: Arith>(
    stats: Seq<CatStat>,
    order: Seq<usize>,
    lefts: Seq<CatStat>,
) -> bool {
    &&& lefts.len() + 1 == order.len() || lefts.len() == 0 && order.len() == 0
    &&& are_leading_sums::<A>(stats, order, lefts)
}

/// `gain` is the gain of a split with sums `left` on the left and the rest of `tot` on the
/// right, under the constant-leaf criterion.
pub open spec fn is_group_gain<A: Arith>(
    lam: F64,
    tot: CatStat,
    left: CatStat,
    parent: F64,
    gain: F32,
) -> bool {
    exists|rg: F64, rh: F64, sl: F64, sr: F64| #[trigger]
        is_diff::<A>(tot.g, left.g, rg) && #[trigger] is_diff::<A>(tot.h, left.h, rh)
            && #[trigger] is_score_const::<A>(left.g, left.h, lam, sl)
            && #[trigger] is_score_const::<A>(rg, rh, lam, sr) && is_gain::<A>(
            sl,
            sr,
            parent,
            gain,
        )
}

/// `gain` is the gain of a prefix of the categories; there is none where a side has too few
/// rows.
pub open spec fn is_prefix_gain<A: Arith>(
    cfg: Config,
    tot: CatStat,
    left: CatStat,
    parent: F64,
    gain: Option<F32>,
) -> bool {
    if left.n < cfg.min_leaf_samples || tot.n - left.n < cfg.min_leaf_samples {
        gain is None
    } else {
        gain is Some && is_group_gain::<A>(
            cfg.lambda.spec_widened(),
            tot,
            left,
            parent,
            gain->0,
        )
    }
}

/// `gains` are the gains of all prefixes of the categories.
pub open spec fn are_prefix_gains<A: Arith>(
    cfg: Config,
    tot: CatStat,
    lefts: Seq<CatStat>,
    parent: F64,
    gains: Seq<Option<F32>>,
) -> bool {
    &&& gains.len() == lefts.len()
    &&& forall|i: int|
        0 <= i < lefts.len() ==> is_prefix_gain::<A>(
            cfg,
            tot,
            #[trigger] lefts[i],
            parent,
            gains[i],
        )
}

/// The first `k` categories of the order.
pub open spec fn first_codes(seen: Seq<u32>, order: Seq<usize>, k: int) -> Seq<u32> {
    Seq::new(k as nat, |i: int| seen[order[i] as int])
}

/// `r` is the candidate with the best of the gains on a categorical column, if any.
pub open spec fn is_categorical_pick(
    gains: Seq<Option<F32>>,
    seen: Seq<u32>,
    order: Seq<usize>,
    r: Option<Candidate>,
) -> bool {
    match scan_best(gains) {
        None => r is None,
        Some(j) => r matches Some(c) && c.gain == gains[j]->0 && c.feature == 0 && c.default_left
            && (c.split matches Split::Categorical { left_set } && left_set@ == first_codes(
            seen,
            order,
            j + 1,
        )),
    }
}

/// `r` is the best split on a categorical column over the rows: with the categories sorted
/// by `G/H`, those of equal ratio by first appearance, the first of highest gain among the
/// prefixes that leave enough rows on both sides.
pub open spec fn is_best_categorical<A: Arith>(
    rows: Seq<u32>,
    codes: Seq<u32>,
    g: Seq<F32>,
    h: Seq<F32>,
    cfg: Config,
    parent: F64,
    r: Option<Candidate>,
) -> bool {
    exists|
        stats: Seq<CatStat>,
        tot: CatStat,
        ratios: Seq<F64>,
        order: Seq<usize>,
        lefts: Seq<CatStat>,
        gains: Seq<Option<F32>>,
    |
        {
            &&& #[trigger] are_code_stats::<A>(
                rows,
                codes,
                g,
                h,
                seen_codes(rows, codes),
                stats,
            )
            &&& #[trigger] folds(CatStat::empty(), rows, add_stat::<A>(g, h), tot)
            &&& tot.n == rows.len()
            &&& #[trigger] are_ratios::<A>(stats, ratios)
            &&& #[trigger] orders(ratio_keys(ratios), 0, ratios.len() as int, order)
            &&& #[trigger] are_prefix_sums::<A>(stats, order, lefts)
            &&& #[trigger] are_prefix_gains::<A>(cfg, tot, lefts, parent, gains)
            &&& is_categorical_pick(gains, seen_codes(rows, codes), order, r)
        }
}

/// No code is listed twice, and every row's code is listed.
pub(crate) proof fn lemma_seen_codes(rows: Seq<u32>, codes: Seq<u32>)
    ensures
        forall|i: int, j: int|
            0 <= i < j < seen_codes(rows, codes).len() ==> #[trigger] seen_codes(rows, codes)[i]
                != #[trigger] seen_codes(rows, codes)[j],
        forall|i: int|
            0 <= i < rows.len() ==> seen_codes(rows, codes).contains(
                codes[#[trigger] rows[i] as int],
            ),
        seen_codes(rows, codes).len() <= rows.len(),
    decreases rows.len(),
{
    if rows.len() > 0 {
        let front = rows.drop_last();
        lemma_seen_codes(front, codes);
        let s = seen_codes(front, codes);
        let t = seen_codes(rows, codes);
        let c = codes[rows[rows.len() - 1] as int];
        if !s.contains(c) {
            assert(t == s.push(c));
            assert(t[s.len() as int] == c);
            assert forall|i: int, j: int| 0 <= i < j < t.len() implies #[trigger] t[i]
                != #[trigger] t[j] by {
                if j == s.len() {
                    assert(s[i] == t[i]);
                    assert(s.contains(s[i]));
                } else {
                    assert(s[i] != s[j]);
                }
            }
        }
        assert forall|i: int| 0 <= i < rows.len() implies t.contains(
            codes[#[trigger] rows[i] as int],
        ) by {
            if i < front.len() {
                assert(front[i] == rows[i]);
                let d = codes[rows[i] as int];
                assert(s.contains(d));
                let k = choose|k: int| 0 <= k < s.len() && s[k] == d;
                assert(t[k] == d);
            }
        }
    }
}

/// One more category of the order adds its rows.
pub(crate) proof fn lemma_prefix_step(
    rows: Seq<u32>,
    codes: Seq<u32>,
    keys: Seq<u128>,
    order: Seq<usize>,
    i: int,
)
    requires
        orders(keys, 0, seen_codes(rows, codes).len() as int, order),
        0 <= i < order.len(),
    ensures
        rows.filter(
            has_code_of(codes, first_codes(seen_codes(rows, codes), order, i + 1)),
        ).len() == rows.filter(
            has_code_of(codes, first_codes(seen_codes(rows, codes), order, i)),
        ).len() + rows.filter(has_code(codes, seen_codes(rows, codes)[order[i] as int])).len(),
        ({
            let seen = seen_codes(rows, codes);
            let all = has_code_of(codes, first_codes(seen, order, i + 1));
            let front = has_code_of(codes, first_codes(seen, order, i));
            let own = has_code(codes, seen[order[i] as int]);
            forall|r: int|
                0 <= r < rows.len() ==> (all(#[trigger] rows[r]) <==> front(rows[r]) || own(
                    rows[r],
                )) && !(front(rows[r]) && own(rows[r]))
        }),
{
    let seen = seen_codes(rows, codes);
    lemma_seen_codes(rows, codes);
    let c = seen[order[i] as int];
    let front = first_codes(seen, order, i);
    let all = first_codes(seen, order, i + 1);
    assert(0 <= order[i] < seen.len());
    assert forall|r: int| 0 <= r < rows.len() implies (has_code_of(codes, all)(
        #[trigger] rows[r],
    ) <==> has_code_of(codes, front)(rows[r]) || has_code(codes, c)(rows[r])) && !(has_code_of(
        codes,
        front,
    )(rows[r]) && has_code(codes, c)(rows[r])) by {
        let d = codes[rows[r] as int];
        if all.contains(d) {
            let k = choose|k: int| 0 <= k < all.len() && all[k] == d;
            if k < i {
                assert(front[k] == d);
            }
        }
        if front.contains(d) {
            let k = choose|k: int| 0 <= k < front.len() && front[k] == d;
            assert(all[k] == d);
            assert(crate::sort::before(keys, order[k] as int, order[i] as int));
            assert(0 <= order[k] < seen.len());
            let (p, q) = (order[k] as int, order[i] as int);
            if p < q {
                assert(seen[p] != seen[q]);
            } else {
                assert(seen[q] != seen[p]);
            }
        }
        if d == c {
            assert(all[i] == c);
        }
    }
    lemma_filter_split(
        rows,
        has_code_of(codes, front),
        has_code(codes, c),
        has_code_of(codes, all),
    );
}

/// A prefix sum counts the rows whose code is in the prefix.
pub(crate) proof fn lemma_prefix_counts<A: Arith>(
    rows: Seq<u32>,
    codes: Seq<u32>,
    g: Seq<F32>,
    h: Seq<F32>,
    stats: Seq<CatStat>,
    keys: Seq<u128>,
    order: Seq<usize>,
    lefts: Seq<CatStat>,
    i: int,
)
    requires
        are_code_stats::<A>(rows, codes, g, h, seen_codes(rows, codes), stats),
        orders(keys, 0, stats.len() as int, order),
        0 <= i <= lefts.len() <= order.len(),
        are_leading_sums::<A>(stats, order, lefts),
    ensures
        stat_before(lefts, i).n == rows.filter(
            has_code_of(codes, first_codes(seen_codes(rows, codes), order, i)),
        ).len(),
    decreases i,
{
    let seen = seen_codes(rows, codes);
    if i > 0 {
        let c = seen[order[i - 1] as int];
        assert(0 <= order[i - 1] < stats.len());
        assert(is_stat_of::<A>(rows, codes, g, h, c, stats[order[i - 1] as int]));
        assert(is_stat_sum::<A>(
            stat_before(lefts, i - 1),
            stats[order[i - 1] as int],
            lefts[i - 1],
        ));
        lemma_prefix_step(rows, codes, keys, order, i - 1);
        lemma_prefix_counts::<A>(rows, codes, g, h, stats, keys, order, lefts, i - 1);
    } else {
        lemma_filter_none(rows, has_code_of(codes, first_codes(seen, order, 0)));
    }
}

/// A prefix sum and the next category count no more rows than there are.
proof fn lemma_prefix_room<A: Arith>(
    rows: Seq<u32>,
    codes: Seq<u32>,
    g: Seq<F32>,
    h: Seq<F32>,
    stats: Seq<CatStat>,
    keys: Seq<u128>,
    order: Seq<usize>,
    lefts: Seq<CatStat>,
)
    requires
        are_code_stats::<A>(rows, codes, g, h, seen_codes(rows, codes), stats),
        orders(keys, 0, stats.len() as int, order),
        lefts.len() < order.len(),
        are_leading_sums::<A>(stats, order, lefts),
    ensures
        order[lefts.len() as int] < stats.len(),
        stat_before(lefts, lefts.len() as int).n + stats[order[lefts.len() as int] as int].n
            <= rows.len(),
{
    let i = lefts.len() as int;
    let seen = seen_codes(rows, codes);
    let c = seen[order[i] as int];
    assert(0 <= order[i] < stats.len());
    assert(is_stat_of::<A>(rows, codes, g, h, c, stats[order[i] as int]));
    lemma_prefix_counts::<A>(rows, codes, g, h, stats, keys, order, lefts, i);
    lemma_prefix_step(rows, codes, keys, order, i);
    lemma_filter_props(rows, has_code_of(codes, first_codes(seen, order, i + 1)));
}

/// One more prefix sum.
proof fn lemma_leading_sums_push<A: Arith>(
    stats: Seq<CatStat>,
    order: Seq<usize>,
    lefts: Seq<CatStat>,
    next: CatStat,
)
    requires
        are_leading_sums::<A>(stats, order, lefts),
        is_stat_sum::<A>(
            stat_before(lefts, lefts.len() as int),
            stats[order[lefts.len() as int] as int],
            next,
        ),
    ensures
        are_leading_sums::<A>(stats, order, lefts.push(next)),
{
    let more = lefts.push(next);
    assert forall|k: int| 0 <= k < more.len() implies is_stat_sum::<A>(
        stat_before(more, k),
        stats[order[k] as int],
        #[trigger] more[k],
    ) by {
        assert(stat_before(more, k) == stat_before(lefts, k));
        if k < lefts.len() {
            assert(more[k] == lefts[k]);
        }
    }
}

/// The codes of the rows in order of first appearance, with the sums of each.
fn code_stats<A: Arith>(
    rows: &Vec<u32>,
    codes: &Vec<u32>,
    g: &Vec<F32>,
    h: &Vec<F32>,
) -> (r: (Vec<u32>, Vec<CatStat>, CatStat))
    requires
        rows_within(rows@, codes@.len() as int),
        rows_within(rows@, g@.len() as int),
        rows_within(rows@, h@.len() as int),
    ensures
        r.0@ == seen_codes(rows@, codes@),
        are_code_stats::<A>(rows@, codes@, g@, h@, r.0@, r.1@),
        folds(CatStat::empty(), rows@, add_stat::<A>(g@, h@), r.2),
        r.2.n == rows.len(),
{
    let ghost step = add_stat::<A>(g@, h@);
    let mut pos: HashMap<u32, usize> = HashMap::new();
    let mut seen: Vec<u32> = Vec::new();
    let mut stats: Vec<CatStat> = Vec::new();
    let mut tot: CatStat = CatStat::empty();
    let mut i: usize = 0;
    proof {
        lemma_folds_start(CatStat::empty(), step);
        assert(rows@.take(0) =~= Seq::<u32>::empty());
    }
    while i < rows.len()
        invariant
            i <= rows.len(),
            rows_within(rows@, codes@.len() as int),
            rows_within(rows@, g@.len() as int),
            rows_within(rows@, h@.len() as int),
            step == add_stat::<A>(g@, h@),
            seen@ == seen_codes(rows@.take(i as int), codes@),
            are_code_stats::<A>(rows@.take(i as int), codes@, g@, h@, seen@, stats@),
            folds(CatStat::empty(), rows@.take(i as int), step, tot),
            tot.n == i,
            forall|c: u32| #[trigger] pos@.contains_key(c) <==> seen@.contains(c),
            forall|c: u32| #[trigger]
                pos@.contains_key(c) ==> pos@[c] < seen.len() && seen[pos@[c] as int] == c,
        decreases rows.len() - i,
    {
        let r: u32 = rows[i];
        let c: u32 = codes[r as usize];
        let gi = g[r as usize];
        let hi = h[r as usize];
        let ghost now = rows@.take(i as int);
        let ghost next = rows@.take(i + 1);
        let ghost before = stats@;
        let ghost seen_before = seen@;
        proof {
            assert(next.drop_last() =~= now);
            assert(next.last() == r);
            assert(next =~= now.push(r));
            lemma_seen_codes(now, codes@);
            lemma_filter_props(now, has_code(codes@, c));
            lemma_filter_step(rows@, i as int, has_code(codes@, c));
        }
        let t2 = stat_added::<A>(gi, hi, tot);
        proof {
            assert(step(r, tot, t2));
            lemma_folds_push(CatStat::empty(), now, step, tot, r, t2);
        }
        tot = t2;
        match pos.get(&c) {
            Some(p) => {
                let p: usize = *p;
                proof {
                    assert(pos@.contains_key(c));
                    assert(is_stat_of::<A>(now, codes@, g@, h@, seen[p as int], stats[p as int]));
                }
                let st = stat_added::<A>(gi, hi, stats[p]);
                proof {
                    assert(step(r, stats[p as int], st));
                    lemma_folds_push(
                        CatStat::empty(),
                        now.filter(has_code(codes@, c)),
                        step,
                        stats[p as int],
                        r,
                        st,
                    );
                }
                stats.set(p, st);
                proof {
                    assert(seen_before.contains(c));
                    assert forall|q: int| 0 <= q < stats.len() implies is_stat_of::<A>(
                        next,
                        codes@,
                        g@,
                        h@,
                        seen[q],
                        #[trigger] stats[q],
                    ) by {
                        if q != p {
                            assert(is_stat_of::<A>(now, codes@, g@, h@, seen[q], before[q]));
                            lemma_filter_step(rows@, i as int, has_code(codes@, seen[q]));
                            if q < p {
                                assert(seen_before[q] != seen_before[p as int]);
                            } else {
                                assert(seen_before[p as int] != seen_before[q]);
                            }
                        }
                    }
                }
            },
            None => {
                let st = stat_added::<A>(gi, hi, CatStat::empty());
                proof {
                    assert(!pos@.contains_key(c));
                    assert forall|k: int| 0 <= k < now.len() implies !has_code(codes@, c)(
                        #[trigger] now[k],
                    ) by {
                        assert(seen_before.contains(codes@[now[k] as int]));
                    }
                    lemma_filter_none(now, has_code(codes@, c));
                    assert(now.filter(has_code(codes@, c)) =~= Seq::<u32>::empty());
                    lemma_folds_start(CatStat::empty(), step);
                    assert(step(r, CatStat::empty(), st));
                    lemma_folds_push(
                        CatStat::empty(),
                        Seq::<u32>::empty(),
                        step,
                        CatStat::empty(),
                        r,
                        st,
                    );
                }
                let at: usize = seen.len();
                pos.insert(c, at);
                seen.push(c);
                stats.push(st);
                proof {
                    assert(seen[at as int] == c);
                    assert forall|d: u32| #[trigger] pos@.contains_key(d) <==> seen@.contains(
                        d,
                    ) by {
                        if seen_before.contains(d) {
                            let k = choose|k: int|
                                0 <= k < seen_before.len() && seen_before[k] == d;
                            assert(seen@[k] == d);
                        }
                        if seen@.contains(d) && d != c {
                            let k = choose|k: int| 0 <= k < seen@.len() && seen@[k] == d;
                            assert(seen_before[k] == d);
                        }
                    }
                    assert forall|q: int| 0 <= q < stats.len() implies is_stat_of::<A>(
                        next,
                        codes@,
                        g@,
                        h@,
                        seen[q],
                        #[trigger] stats[q],
                    ) by {
                        if q < at {
                            assert(is_stat_of::<A>(now, codes@, g@, h@, seen_before[q], before[q]));
                            lemma_filter_step(rows@, i as int, has_code(codes@, seen[q]));
                            assert(seen_before.contains(seen_before[q]));
                        }
                    }
                }
            },
        }
        i = i + 1;
    }
    proof {
        assert(rows@.take(rows@.len() as int) =~= rows@);
    }
    (seen, stats, tot)
}

/// The order of the categories by ratio.
fn ratio_order<A: Arith>(stats: &Vec<CatStat>) -> (order: Vec<usize>)
    ensures
        exists|ratios: Seq<F64>| #[trigger]
            are_ratios::<A>(stats@, ratios) && orders(
                ratio_keys(ratios),
                0,
                ratios.len() as int,
                order@,
            ),
        order.len() == stats.len(),
{
    let ghost mut ratios: Seq<F64> = Seq::empty();
    let mut keys: Vec<u128> = Vec::with_capacity(stats.len());
    let mut i: usize = 0;
    while i < stats.len()
        invariant
            i <= stats.len(),
            ratios.len() == i,
            keys.len() == i,
            forall|k: int| 0 <= k < i ==> is_ratio::<A>(stats[k], #[trigger] ratios[k]),
            forall|k: int| 0 <= k < i ==> #[trigger] keys[k] == ratios[k].key(),
        decreases stats.len() - i,
    {
        let st = stats[i];
        let q = if F64::zero().less(st.h) {
            A::quot(st.g, st.h)
        } else {
            A::quot(st.g, F64::one())
        };
        proof {
            assert(is_ratio::<A>(st, q));
            ratios = ratios.push(q);
        }
        keys.push(q.order_key() as u128);
        i = i + 1;
    }
    let order = order_by_key(&keys);
    proof {
        assert(keys@ =~= ratio_keys(ratios));
        assert(are_ratios::<A>(stats@, ratios));
    }
    order
}

fn group_gain<A: Arith>(lam: F64, tot: CatStat, left: CatStat, parent: F64) -> (gain: F32)
    ensures
        is_group_gain::<A>(lam, tot, left, parent, gain),
{
    let sl = score_const::<A>(left.g, left.h, lam);
    let rg = A::diff(tot.g, left.g);
    let rh = A::diff(tot.h, left.h);
    let sr = score_const::<A>(rg, rh, lam);
    let gain = split_gain::<A>(sl, sr, parent);
    assert(is_diff::<A>(tot.g, left.g, rg) && is_diff::<A>(tot.h, left.h, rh) && is_score_const::<
        A,
    >(left.g, left.h, lam, sl) && is_score_const::<A>(rg, rh, lam, sr));
    gain
}

/// Best many-vs-many split on a bounded categorical column over `rows`.
/// Categories are sorted by `G/H` and a contiguous prefix is taken as the left
/// group. Always scored with the constant-leaf criterion.
pub fn best_categorical<A: Arith>(
    rows: &Vec<u32>,
    codes: &Vec<u32>,
    g: &Vec<F32>,
    h: &Vec<F32>,
    cfg: &Config,
    parent_score: F64,
) -> (r: Option<Candidate>)
    requires
        rows_within(rows@, codes@.len() as int),
        rows_within(rows@, g@.len() as int),
        rows_within(rows@, h@.len() as int),
    ensures
        is_best_categorical::<A>(rows@, codes@, g@, h@, *cfg, parent_score, r),
{
    let (seen, stats, tot) = code_stats::<A>(rows, codes, g, h);
    let order = ratio_order::<A>(&stats);
    let ghost ratios = choose|ratios: Seq<F64>| #[trigger]
        are_ratios::<A>(stats@, ratios) && orders(
            ratio_keys(ratios),
            0,
            ratios.len() as int,
            order@,
        );
    let lam = cfg.lambda.widened();
    let min: u64 = cfg.min_leaf_samples as u64;
    let mut left: CatStat = CatStat::empty();
    let ghost mut lefts: Seq<CatStat> = Seq::empty();
    let ghost mut gains: Seq<Option<F32>> = Seq::empty();
    let mut best: Option<(F32, usize)> = None;
    let mut i: usize = 0;
    while i + 1 < order.len()
        invariant
            i == 0 || i + 1 <= order.len(),
            order.len() == stats.len(),
            are_code_stats::<A>(rows@, codes@, g@, h@, seen_codes(rows@, codes@), stats@),
            orders(ratio_keys(ratios), 0, stats.len() as int, order@),
            tot.n == rows.len(),
            lam == cfg.lambda.spec_widened(),
            min == cfg.min_leaf_samples,
            lefts.len() == i,
            left == stat_before(lefts, i as int),
            left.n <= rows.len(),
            are_leading_sums::<A>(stats@, order@, lefts),
            are_prefix_gains::<A>(*cfg, tot, lefts, parent_score, gains),
            match scan_best(gains) {
                None => best is None,
                Some(j) => best matches Some(b) && b.0 == gains[j]->0 && b.1 == j,
            },
        decreases order.len() - i,
    {
        proof {
            lemma_prefix_room::<A>(
                rows@,
                codes@,
                g@,
                h@,
                stats@,
                ratio_keys(ratios),
                order@,
                lefts,
            );
            assert(rows.len() <= usize::MAX);
        }
        let st = stats[order[i]];
        let next = CatStat {
            g: A::sum(left.g, st.g),
            h: A::sum(left.h, st.h),
            n: left.n + st.n,
        };
        let ghost old_lefts = lefts;
        proof {
            assert(is_stat_sum::<A>(left, st, next));
            lemma_leading_sums_push::<A>(stats@, order@, lefts, next);
            lefts = lefts.push(next);
        }
        left = next;
        let rn: u64 = rows.len() as u64 - left.n;
        let gain: Option<F32> = if left.n < min || rn < min {
            None
        } else {
            Some(group_gain::<A>(lam, tot, left, parent_score))
        };
        proof {
            let old_gains = gains;
            gains = gains.push(gain);
            assert(gains.drop_last() =~= old_gains);
            lemma_scan_best_in_range(old_gains);
            assert(is_prefix_gain::<A>(*cfg, tot, next, parent_score, gain));
            assert forall|k: int| 0 <= k < lefts.len() implies is_prefix_gain::<A>(
                *cfg,
                tot,
                #[trigger] lefts[k],
                parent_score,
                gains[k],
            ) by {
                if k < i {
                    assert(lefts[k] == old_lefts[k]);
                    assert(gains[k] == old_gains[k]);
                }
            }
        }
        if let Some(x) = gain {
            let take = match best {
                None => true,
                Some(b) => b.0.less(x),
            };
            if take {
                best = Some((x, i));
            }
        }
        i = i + 1;
    }
    proof {
        lemma_scan_best_in_range(gains);
    }
    let r = match best {
        None => None,
        Some(b) => {
            let left_set = leading_codes(&seen, &order, b.1 + 1);
            Some(
                Candidate {
                    gain: b.0,
                    feature: 0,
                    split: Split::Categorical { left_set },
                    default_left: true,
                },
            )
        },
    };
    proof {
        assert(is_categorical_pick(gains, seen@, order@, r));
        assert(are_code_stats::<A>(rows@, codes@, g@, h@, seen_codes(rows@, codes@), stats@)
            && folds(CatStat::empty(), rows@, add_stat::<A>(g@, h@), tot) && are_ratios::<A>(
            stats@,
            ratios,
        ) && orders(ratio_keys(ratios), 0, ratios.len() as int, order@) && are_prefix_sums::<A>(
            stats@,
            order@,
            lefts,
        ) && are_prefix_gains::<A>(*cfg, tot, lefts, parent_score, gains));
    }
    r
}

fn leading_codes(seen: &Vec<u32>, order: &Vec<usize>, k: usize) -> (set: Vec<u32>)
    requires
        k <= order.len(),
        forall|i: int| 0 <= i < order.len() ==> #[trigger] order[i] < seen.len(),
    ensures
        set@ == first_codes(seen@, order@, k as int),
{
    let mut set: Vec<u32> = Vec::with_capacity(k);
    let mut i: usize = 0;
    while i < k
        invariant
            i <= k <= order.len(),
            forall|i: int| 0 <= i < order.len() ==> #[trigger] order[i] < seen.len(),
            set.len() == i,
            forall|m: int| 0 <= m < i ==> #[trigger] set[m] == seen[order[m] as int],
        decreases k - i,
    {
        set.push(seen[order[i]]);
        i = i + 1;
    }
    assert(set@ =~= first_codes(seen@, order@, k as int));
    set
}

/// The best categorical split leaves enough rows on both sides.
pub proof fn lemma_categorical_sides<A: Arith>(
    rows: Seq<u32>,
    codes: Vec<u32>,
    g: Seq<F32>,
    h: Seq<F32>,
    cfg: Config,
    parent: F64,
    c: Candidate,
)
    requires
        is_best_categorical::<A>(rows, codes@, g, h, cfg, parent, Some(c)),
    ensures
        c.split is Categorical,
        sides_have(rows, cfg.min_leaf_samples as int, c, EncCol::Cat(codes)),
{
    let seen = seen_codes(rows, codes@);
    let (stats, tot, ratios, order, lefts, gains) = choose|
        stats: Seq<CatStat>,
        tot: CatStat,
        ratios: Seq<F64>,
        order: Seq<usize>,
        lefts: Seq<CatStat>,
        gains: Seq<Option<F32>>,
    |
        {
            &&& #[trigger] are_code_stats::<A>(rows, codes@, g, h, seen, stats)
            &&& #[trigger] folds(CatStat::empty(), rows, add_stat::<A>(g, h), tot)
            &&& tot.n == rows.len()
            &&& #[trigger] are_ratios::<A>(stats, ratios)
            &&& #[trigger] orders(ratio_keys(ratios), 0, ratios.len() as int, order)
            &&& #[trigger] are_prefix_sums::<A>(stats, order, lefts)
            &&& #[trigger] are_prefix_gains::<A>(cfg, tot, lefts, parent, gains)
            &&& is_categorical_pick(gains, seen, order, Some(c))
        };
    lemma_scan_best_in_range(gains);
    let j = scan_best(gains)->0;
    assert(is_prefix_gain::<A>(cfg, tot, lefts[j], parent, gains[j]));
    lemma_prefix_counts::<A>(
        rows,
        codes@,
        g,
        h,
        stats,
        ratio_keys(ratios),
        order,
        lefts,
        j + 1,
    );
    let col = EncCol::Cat(codes);
    let to_left = row_goes_left(c.split, c.default_left, col);
    let to_right = row_goes_right(c.split, c.default_left, col);
    let of = has_code_of(codes@, first_codes(seen, order, j + 1));
    let never = |r: u32| false;
    let any = |r: u32| true;
    lemma_filter_none(rows, never);
    lemma_filter_split(rows, of, never, to_left);
    lemma_filter_split(rows, to_left, to_right, any);
    lemma_filter_all(rows, any);
}

/// The knots and values of a column that is split by thresholds.
pub open spec fn threshold_view(fe: FeatureEncoder, col: EncCol) -> Option<
    (Seq<F32>, Seq<F32>),
> {
    match (fe, col) {
        (FeatureEncoder::Numeric(e), EncCol::Num(vals)) => Some((e.knots@, vals@)),
        (FeatureEncoder::HighCard(e), EncCol::HighCard { enc, .. }) => Some((e.enc_knots@, enc@)),
        _ => None,
    }
}

/// `z` is the normalized value of a row of the parent: zero where the value is missing.
pub open spec fn is_parent_z<A: Arith>(knots: Seq<F32>, v: F32, z: F64) -> bool {
    if v.spec_is_nan() {
        z == F64::zero()
    } else {
        is_znorm::<A>(knots, v, z)
    }
}

/// `b` is `a` with one more row of the parent.
pub open spec fn is_parent_row_added<A: Arith>(
    knots: Seq<F32>,
    v: F32,
    g: F32,
    h: F32,
    a: Bin,
    b: Bin,
) -> bool {
    exists|z: F64| #[trigger]
        is_parent_z::<A>(knots, v, z) && is_moment_added::<A>(
            g.spec_widened(),
            h.spec_widened(),
            z,
            a,
            b,
        )
}

/// Adding row `r` to the parent's moments.
pub open spec fn add_parent_row<A: Arith>(
    vals: Seq<F32>,
    knots: Seq<F32>,
    g: Seq<F32>,
    h: Seq<F32>,
) -> spec_fn(u32, Bin, Bin) -> bool {
    |r: u32, a: Bin, b: Bin|
        is_parent_row_added::<A>(knots, vals[r as int], g[r as int], h[r as int], a, b)
}

/// `s` is the linear score of all rows.
pub open spec fn is_parent_linear<A: Arith>(
    rows: Seq<u32>,
    vals: Seq<F32>,
    knots: Seq<F32>,
    g: Seq<F32>,
    h: Seq<F32>,
    lam: F64,
    s: F64,
) -> bool {
    exists|b: Bin| #[trigger]
        folds(Bin::empty(), rows, add_parent_row::<A>(vals, knots, g, h), b) && is_score_linear::<
            A,
        >(b.h, b.hz, b.hzz, b.g, b.gz, lam, s)
}

/// `s` is the constant score of all rows.
pub open spec fn is_parent_const<A: Arith>(
    rows: Seq<u32>,
    g: Seq<F32>,
    h: Seq<F32>,
    lam: F64,
    s: F64,
) -> bool {
    exists|b: CatStat| #[trigger]
        folds(CatStat::empty(), rows, add_stat::<A>(g, h), b) && is_score_const::<A>(
            b.g,
            b.h,
            lam,
            s,
        )
}

/// `s` is the score of the unsplit rows, under the criterion that scores the splits of the
/// feature.
pub open spec fn is_parent_score<A: Arith>(
    rows: Seq<u32>,
    fe: FeatureEncoder,
    col: EncCol,
    g: Seq<F32>,
    h: Seq<F32>,
    cfg: Config,
    s: F64,
) -> bool {
    match (cfg.gain, threshold_view(fe, col)) {
        (GainKind::LeafAware, Some((knots, vals))) => is_parent_linear::<A>(
            rows,
            vals,
            knots,
            g,
            h,
            cfg.lambda.spec_widened(),
            s,
        ),
        _ => is_parent_const::<A>(rows, g, h, cfg.lambda.spec_widened(), s),
    }
}

/// The first `n` rows of the column can be split by the feature.
pub open spec fn feature_searchable(fe: FeatureEncoder, col: EncCol, n: int) -> bool {
    match (fe, col) {
        (FeatureEncoder::Numeric(e), EncCol::Num(vals)) => n <= vals.len() && e.knots.len() > 0
            && ascending(e.knots@),
        (FeatureEncoder::HighCard(e), EncCol::HighCard { enc, .. }) => n <= enc.len()
            && e.enc_knots.len() > 0 && ascending(e.enc_knots@),
        (FeatureEncoder::BoundedCat(_), EncCol::Cat(codes)) => n <= codes.len(),
        _ => true,
    }
}

fn parent_linear<A: Arith>(
    rows: &Vec<u32>,
    vals: &Vec<F32>,
    knots: &Vec<F32>,
    g: &Vec<F32>,
    h: &Vec<F32>,
    lam: F64,
) -> (s: F64)
    requires
        rows_within(rows@, vals@.len() as int),
        rows_within(rows@, g@.len() as int),
        rows_within(rows@, h@.len() as int),
        knots.len() > 0,
    ensures
        is_parent_linear::<A>(rows@, vals@, knots@, g@, h@, lam, s),
{
    let ghost step = add_parent_row::<A>(vals@, knots@, g@, h@);
    let mut b: Bin = Bin::empty();
    let mut i: usize = 0;
    proof {
        lemma_folds_start(Bin::empty(), step);
        assert(rows@.take(0) =~= Seq::<u32>::empty());
    }
    while i < rows.len()
        invariant
            i <= rows.len(),
            rows_within(rows@, vals@.len() as int),
            rows_within(rows@, g@.len() as int),
            rows_within(rows@, h@.len() as int),
            knots.len() > 0,
            step == add_parent_row::<A>(vals@, knots@, g@, h@),
            folds(Bin::empty(), rows@.take(i as int), step, b),
            b.n == i,
        decreases rows.len() - i,
    {
        let r: usize = rows[i] as usize;
        let v = vals[r];
        let z = if v.is_nan() {
            F64::zero()
        } else {
            znorm::<A>(knots, v)
        };
        let next = moment_added::<A>(g[r].widened(), h[r].widened(), z, b);
        proof {
            assert(is_parent_z::<A>(knots@, v, z));
            assert(step(rows@[i as int], b, next));
            lemma_folds_push(Bin::empty(), rows@.take(i as int), step, b, rows@[i as int], next);
            assert(rows@.take(i + 1) =~= rows@.take(i as int).push(rows@[i as int]));
        }
        b = next;
        i = i + 1;
    }
    proof {
        assert(rows@.take(rows@.len() as int) =~= rows@);
    }
    score_linear::<A>(b.h, b.hz, b.hzz, b.g, b.gz, lam)
}

fn parent_const<A: Arith>(rows: &Vec<u32>, g: &Vec<F32>, h: &Vec<F32>, lam: F64) -> (s: F64)
    requires
        rows_within(rows@, g@.len() as int),
        rows_within(rows@, h@.len() as int),
    ensures
        is_parent_const::<A>(rows@, g@, h@, lam, s),
{
    let ghost step = add_stat::<A>(g@, h@);
    let mut b: CatStat = CatStat::empty();
    let mut i: usize = 0;
    proof {
        lemma_folds_start(CatStat::empty(), step);
        assert(rows@.take(0) =~= Seq::<u32>::empty());
    }
    while i < rows.len()
        invariant
            i <= rows.len(),
            rows_within(rows@, g@.len() as int),
            rows_within(rows@, h@.len() as int),
            step == add_stat::<A>(g@, h@),
            folds(CatStat::empty(), rows@.take(i as int), step, b),
            b.n == i,
        decreases rows.len() - i,
    {
        let r: usize = rows[i] as usize;
        let next = stat_added::<A>(g[r], h[r], b);
        proof {
            assert(step(rows@[i as int], b, next));
            lemma_folds_push(
                CatStat::empty(),
                rows@.take(i as int),
                step,
                b,
                rows@[i as int],
                next,
            );
            assert(rows@.take(i + 1) =~= rows@.take(i as int).push(rows@[i as int]));
        }
        b = next;
        i = i + 1;
    }
    proof {
        assert(rows@.take(rows@.len() as int) =~= rows@);
    }
    score_const::<A>(b.g, b.h, lam)
}

/// Parent score for the constant or leaf-aware criterion over `rows`,
/// per feature kind, so `gain = sL + sR − sP` is comparable across features.
pub fn parent_score_for<A: Arith>(
    rows: &Vec<u32>,
    feat: &FeatureEncoder,
    col: &EncCol,
    g: &Vec<F32>,
    h: &Vec<F32>,
    cfg: &Config,
) -> (s: F64)
    requires
        rows_within(rows@, g@.len() as int),
        rows_within(rows@, h@.len() as int),
        forall|i: int|
            0 <= i < rows.len() ==> feature_searchable(*feat, *col, #[trigger] rows[i] + 1),
        feature_searchable(*feat, *col, 0),
    ensures
        is_parent_score::<A>(rows@, *feat, *col, g@, h@, *cfg, s),
{
    let lam = cfg.lambda.widened();
    match (cfg.gain, feat, col) {
        (GainKind::LeafAware, FeatureEncoder::Numeric(e), EncCol::Num(vals)) => parent_linear::<A>(
            rows,
            vals,
            &e.knots,
            g,
            h,
            lam,
        ),
        (
            GainKind::LeafAware,
            FeatureEncoder::HighCard(e),
            EncCol::HighCard { enc, .. },
        ) => parent_linear::<A>(rows, enc, &e.enc_knots, g, h, lam),
        _ => parent_const::<A>(rows, g, h, lam),
    }
}

/// `c` is the best split of the rows on one feature.
pub open spec fn is_feature_split<A: Arith>(
    rows: Seq<u32>,
    fe: FeatureEncoder,
    col: EncCol,
    g: Seq<F32>,
    h: Seq<F32>,
    cfg: Config,
    c: Option<Candidate>,
) -> bool {
    exists|parent: F64| #[trigger]
        is_parent_score::<A>(rows, fe, col, g, h, cfg, parent) && match (fe, col) {
            (FeatureEncoder::Numeric(e), EncCol::Num(vals)) => is_best_numeric::<A>(
                rows,
                vals@,
                e.knots@,
                g,
                h,
                cfg,
                parent,
                c,
            ),
            (FeatureEncoder::HighCard(e), EncCol::HighCard { enc, .. }) => is_best_numeric::<A>(
                rows,
                enc@,
                e.enc_knots@,
                g,
                h,
                cfg,
                parent,
                c,
            ),
            (FeatureEncoder::BoundedCat(_), EncCol::Cat(codes)) => is_best_categorical::<A>(
                rows,
                codes@,
                g,
                h,
                cfg,
                parent,
                c,
            ),
            _ => c is None,
        }
}

/// `cands` are the best splits of the rows on each feature.
pub open spec fn are_feature_splits<A: Arith>(
    rows: Seq<u32>,
    features: Seq<FeatureEncoder>,
    cols: Seq<EncCol>,
    g: Seq<F32>,
    h: Seq<F32>,
    cfg: Config,
    cands: Seq<Option<Candidate>>,
) -> bool {
    &&& cands.len() == min_int(features.len() as int, cols.len() as int)
    &&& forall|i: int|
        0 <= i < cands.len() ==> is_feature_split::<A>(
            rows,
            features[i],
            cols[i],
            g,
            h,
            cfg,
            #[trigger] cands[i],
        )
}

/// The gain of a candidate, where it is positive.
pub open spec fn positive_gain(c: Option<Candidate>) -> Option<F32> {
    match c {
        Some(c) => if F32::zero().lt(c.gain) {
            Some(c.gain)
        } else {
            None
        },
        None => None,
    }
}

/// The positive gains of the candidates.
pub open spec fn positive_gains(cands: Seq<Option<Candidate>>) -> Seq<Option<F32>> {
    cands.map_values(|c: Option<Candidate>| positive_gain(c))
}

/// `r` is the first candidate of highest positive gain, if any, with its feature.
pub open spec fn is_split_pick(cands: Seq<Option<Candidate>>, r: Option<Candidate>) -> bool {
    match scan_best(positive_gains(cands)) {
        None => r is None,
        Some(j) => r == Some(Candidate { feature: j as u32, ..cands[j]->0 }),
    }
}

/// `r` is the best split of the rows across all features: of the features' best splits that
/// gain anything, the first of highest gain.
pub open spec fn is_best_split<A: Arith>(
    rows: Seq<u32>,
    encoders: Encoders,
    matrix: EncodedMatrix,
    g: Seq<F32>,
    h: Seq<F32>,
    cfg: Config,
    r: Option<Candidate>,
) -> bool {
    exists|cands: Seq<Option<Candidate>>| #[trigger]
        are_feature_splits::<A>(rows, encoders.features@, matrix.cols@, g, h, cfg, cands)
            && is_split_pick(cands, r)
}

/// The first `n` rows of the matrix can be split by the encoders' features.
pub open spec fn searchable(encoders: Encoders, matrix: EncodedMatrix, n: int) -> bool {
    &&& min_int(encoders.features@.len() as int, matrix.cols@.len() as int)
        <= u32::MAX
    &&& forall|i: int|
        0 <= i < encoders.features.len() && i < matrix.cols.len() ==> feature_searchable(
            #[trigger] encoders.features[i],
            matrix.cols[i],
            n,
        )
}

/// Find the best split for a node across all features.
pub fn find_best_split<A: Arith>(
    rows: &Vec<u32>,
    encoders: &Encoders,
    matrix: &EncodedMatrix,
    g: &Vec<F32>,
    h: &Vec<F32>,
    cfg: &Config,
) -> (r: Option<Candidate>)
    requires
        rows_within(rows@, matrix.n_rows as int),
        matrix.n_rows <= g.len(),
        matrix.n_rows <= h.len(),
        searchable(*encoders, *matrix, matrix.n_rows as int),
    ensures
        is_best_split::<A>(rows@, *encoders, *matrix, g@, h@, *cfg, r),
{
    let ghost mut cands: Seq<Option<Candidate>> = Seq::empty();
    let mut best: Option<Candidate> = None;
    let mut fi: usize = 0;
    proof {
        assert(positive_gains(cands).len() == 0);
    }
    while fi < encoders.features.len() && fi < matrix.cols.len()
        invariant
            fi <= encoders.features.len(),
            fi <= matrix.cols.len(),
            rows_within(rows@, matrix.n_rows as int),
            matrix.n_rows <= g.len(),
            matrix.n_rows <= h.len(),
            searchable(*encoders, *matrix, matrix.n_rows as int),
            cands.len() == fi,
            forall|i: int|
                0 <= i < fi ==> is_feature_split::<A>(
                    rows@,
                    encoders.features[i],
                    matrix.cols[i],
                    g@,
                    h@,
                    *cfg,
                    #[trigger] cands[i],
                ),
            is_split_pick(cands, best),
        decreases encoders.features.len() - fi,
    {
        let feat = &encoders.features[fi];
        let col = &matrix.cols[fi];
        proof {
            assert(feature_searchable(*feat, *col, matrix.n_rows as int));
        }
        let parent = parent_score_for::<A>(rows, feat, col, g, h, cfg);
        let cand = match (feat, col) {
            (FeatureEncoder::Numeric(e), EncCol::Num(vals)) => best_numeric::<A>(
                rows,
                vals,
                &e.knots,
                g,
                h,
                cfg,
                parent,
            ),
            (FeatureEncoder::HighCard(e), EncCol::HighCard { enc, .. }) => best_numeric::<A>(
                rows,
                enc,
                &e.enc_knots,
                g,
                h,
                cfg,
                parent,
            ),
            (FeatureEncoder::BoundedCat(_), EncCol::Cat(codes)) => best_categorical::<A>(
                rows,
                codes,
                g,
                h,
                cfg,
                parent,
            ),
            _ => None,
        };
        proof {
            let old_cands = cands;
            assert(is_parent_score::<A>(rows@, *feat, *col, g@, h@, *cfg, parent));
            cands = cands.push(cand);
            assert(is_feature_split::<A>(rows@, *feat, *col, g@, h@, *cfg, cand));
            assert(positive_gains(cands).drop_last() =~= positive_gains(old_cands));
            lemma_scan_best_in_range(positive_gains(old_cands));
        }
        if let Some(c) = cand {
            let take = F32::zero().less(c.gain) && match &best {
                None => true,
                Some(b) => b.gain.less(c.gain),
            };
            if take {
                best = Some(Candidate { feature: fi as u32, ..c });
            }
        }
        fi = fi + 1;
    }
    proof {
        assert(are_feature_splits::<A>(
            rows@,
            encoders.features@,
            matrix.cols@,
            g@,
            h@,
            *cfg,
            cands,
        ));
    }
    best
}

/// A chosen split gains something, is of a feature's kind, and leaves enough rows on both
/// sides.
pub proof fn lemma_best_split_is_sound<A: Arith>(
    rows: Seq<u32>,
    encoders: Encoders,
    matrix: EncodedMatrix,
    g: Seq<F32>,
    h: Seq<F32>,
    cfg: Config,
    c: Candidate,
)
    requires
        is_best_split::<A>(rows, encoders, matrix, g, h, cfg, Some(c)),
        searchable(encoders, matrix, matrix.n_rows as int),
    ensures
        F32::zero().lt(c.gain),
        c.feature < encoders.features.len(),
        c.feature < matrix.cols.len(),
        split_suits(c.split, matrix.cols[c.feature as int]),
        col_covers(matrix.cols[c.feature as int], matrix.n_rows as int),
        sides_have(rows, cfg.min_leaf_samples as int, c, matrix.cols[c.feature as int]),
{
    let cands = choose|cands: Seq<Option<Candidate>>| #[trigger]
        are_feature_splits::<A>(rows, encoders.features@, matrix.cols@, g, h, cfg, cands)
            && is_split_pick(cands, Some(c));
    let gains = positive_gains(cands);
    lemma_scan_best_in_range(gains);
    let j = scan_best(gains)->0;
    let d = cands[j]->0;
    let fe = encoders.features[j];
    let col = matrix.cols[j];
    assert(gains[j] is Some);
    assert(is_feature_split::<A>(rows, fe, col, g, h, cfg, cands[j]));
    assert(feature_searchable(fe, col, matrix.n_rows as int));
    let parent = choose|parent: F64| #[trigger]
        is_parent_score::<A>(rows, fe, col, g, h, cfg, parent) && match (fe, col) {
            (FeatureEncoder::Numeric(e), EncCol::Num(vals)) => is_best_numeric::<A>(
                rows,
                vals@,
                e.knots@,
                g,
                h,
                cfg,
                parent,
                cands[j],
            ),
            (FeatureEncoder::HighCard(e), EncCol::HighCard { enc, .. }) => is_best_numeric::<A>(
                rows,
                enc@,
                e.enc_knots@,
                g,
                h,
                cfg,
                parent,
                cands[j],
            ),
            (FeatureEncoder::BoundedCat(_), EncCol::Cat(codes)) => is_best_categorical::<A>(
                rows,
                codes@,
                g,
                h,
                cfg,
                parent,
                cands[j],
            ),
            _ => cands[j] is None,
        };
    match (fe, col) {
        (FeatureEncoder::Numeric(e), EncCol::Num(vals)) => {
            lemma_numeric_sides::<A>(rows, vals@, e.knots@, g, h, cfg, parent, d, col);
        },
        (FeatureEncoder::HighCard(e), EncCol::HighCard { enc, .. }) => {
            lemma_numeric_sides::<A>(rows, enc@, e.enc_knots@, g, h, cfg, parent, d, col);
        },
        (FeatureEncoder::BoundedCat(_), EncCol::Cat(codes)) => {
            lemma_categorical_sides::<A>(rows, codes, g, h, cfg, parent, d);
        },
        _ => {},
    }
}

/// An open (not-yet-split) leaf and its best candidate split.
pub struct Open {
    pub node: usize,
    pub rows: Vec<u32>,
    pub cand: Option<Candidate>,
}

/// The open leaf to split next: of those that have a candidate, the last of highest gain.
pub open spec fn next_open(open: Seq<Open>) -> Option<int>
    decreases open.len(),
{
    if open.len() == 0 {
        None
    } else {
        let best = next_open(open.drop_last());
        match (open.last().cand, best) {
            (None, _) => best,
            (Some(c), None) => Some(open.len() - 1),
            (Some(c), Some(j)) => if open[j].cand->0.gain.le(c.gain) {
                Some(open.len() - 1)
            } else {
                best
            },
        }
    }
}

/// All row numbers.
pub open spec fn root_rows(n: int) -> Seq<u32> {
    Seq::new(n as nat, |i: int| i as u32)
}

/// `o` is the open leaf at `node` with the given rows and their best split.
pub open spec fn is_opened<A: Arith>(
    encoders: Encoders,
    matrix: EncodedMatrix,
    g: Seq<F32>,
    h: Seq<F32>,
    cfg: Config,
    node: int,
    rows: Seq<u32>,
    o: Open,
) -> bool {
    &&& o.node == node
    &&& o.rows@ == rows
    &&& is_best_split::<A>(rows, encoders, matrix, g, h, cfg, o.cand)
}

/// Growth starts with one open leaf that has all rows.
pub open spec fn is_growth_start<A: Arith>(
    encoders: Encoders,
    matrix: EncodedMatrix,
    g: Seq<F32>,
    h: Seq<F32>,
    cfg: Config,
    s: (Seq<NodeKind>, Seq<Open>),
) -> bool {
    &&& s.0 == seq![NodeKind::Leaf(usize::MAX)]
    &&& s.1.len() == 1
    &&& is_opened::<A>(
        encoders,
        matrix,
        g,
        h,
        cfg,
        0,
        root_rows(matrix.n_rows as int),
        s.1[0],
    )
}

/// The open leaves without that at `i`, whose place the last one takes.
pub open spec fn without(open: Seq<Open>, i: int) -> Seq<Open> {
    open.update(i, open.last()).drop_last()
}

/// The node of a committed split.
pub open spec fn split_node(c: Candidate, left: int) -> NodeKind {
    NodeKind::Internal {
        feature: c.feature,
        split: c.split,
        default_left: c.default_left,
        left: left as usize,
        right: (left + 1) as usize,
    }
}

/// The nodes after open leaf `o` is split.
pub open spec fn split_nodes(nodes: Seq<NodeKind>, o: Open) -> Seq<NodeKind> {
    nodes.push(NodeKind::Leaf(usize::MAX)).push(NodeKind::Leaf(usize::MAX)).update(
        o.node as int,
        split_node(o.cand->0, nodes.len() as int),
    )
}

/// One step of growth, from `a` to `b`: the open leaf of highest gain is split into two.
pub open spec fn is_growth_step<A: Arith>(
    encoders: Encoders,
    matrix: EncodedMatrix,
    g: Seq<F32>,
    h: Seq<F32>,
    cfg: Config,
    a: (Seq<NodeKind>, Seq<Open>),
    b: (Seq<NodeKind>, Seq<Open>),
) -> bool {
    next_open(a.1) matches Some(i) && {
        let o = a.1[i];
        let c = o.cand->0;
        let col = matrix.cols[c.feature as int];
        let k = a.1.len() as int;
        &&& b.0 == split_nodes(a.0, o)
        &&& b.1.len() == k + 1
        &&& b.1.take(k - 1) == without(a.1, i)
        &&& is_opened::<A>(
            encoders,
            matrix,
            g,
            h,
            cfg,
            a.0.len() as int,
            o.rows@.filter(row_goes_left(c.split, c.default_left, col)),
            b.1[k - 1],
        )
        &&& is_opened::<A>(
            encoders,
            matrix,
            g,
            h,
            cfg,
            a.0.len() as int + 1,
            o.rows@.filter(row_goes_right(c.split, c.default_left, col)),
            b.1[k],
        )
    }
}

/// The steps of growth.
pub open spec fn growth<A: Arith>(
    encoders: Encoders,
    matrix: EncodedMatrix,
    g: Seq<F32>,
    h: Seq<F32>,
    cfg: Config,
) -> spec_fn(int, (Seq<NodeKind>, Seq<Open>), (Seq<NodeKind>, Seq<Open>)) -> bool {
    |i: int, a: (Seq<NodeKind>, Seq<Open>), b: (Seq<NodeKind>, Seq<Open>)|
        is_growth_step::<A>(encoders, matrix, g, h, cfg, a, b)
}

/// `tree` has the open leaves, numbered in order, as its leaves.
pub open spec fn is_finished(s: (Seq<NodeKind>, Seq<Open>), tree: GrownTree) -> bool {
    &&& tree.root == 0
    &&& tree.nodes.len() == s.0.len()
    &&& tree.leaf_rows.len() == s.1.len()
    &&& forall|i: int|
        0 <= i < s.1.len() ==> tree.leaf_rows[i]@ == (#[trigger] s.1[i]).rows@
            && tree.nodes[s.1[i].node as int] == NodeKind::Leaf(i as usize)
    &&& forall|k: int|
        0 <= k < s.0.len() && !is_open_node(s.1, k) ==> #[trigger] tree.nodes[k] == s.0[k]
}

/// An open leaf is at node `k`.
pub open spec fn is_open_node(open: Seq<Open>, k: int) -> bool {
    exists|j: int| 0 <= j < open.len() && (#[trigger] open[j]).node == k
}

/// `tree` is grown best-first: from one leaf, until it has as many leaves as were asked for
/// or no open leaf has a split that gains anything.
pub open spec fn is_grown<A: Arith>(
    encoders: Encoders,
    matrix: EncodedMatrix,
    g: Seq<F32>,
    h: Seq<F32>,
    cfg: Config,
    tree: GrownTree,
) -> bool {
    exists|
        start: (Seq<NodeKind>, Seq<Open>),
        steps: nat,
        last: (Seq<NodeKind>, Seq<Open>),
    |
        {
            &&& #[trigger] is_growth_start::<A>(encoders, matrix, g, h, cfg, start)
            &&& #[trigger] runs(start, steps, growth::<A>(encoders, matrix, g, h, cfg), last)
            &&& steps == 0 || steps + 1 <= cfg.num_leaves
            &&& steps + 1 >= cfg.num_leaves || next_open(last.1) is None
            &&& is_finished(last, tree)
        }
}

/// The child to which a row goes from an inner node.
pub open spec fn next_node(
    nodes: Seq<NodeKind>,
    value: spec_fn(int) -> Result<F32, u32>,
    node: int,
) -> int {
    match nodes[node] {
        NodeKind::Leaf(_) => node,
        NodeKind::Internal { feature, split, default_left, left, right } => if goes_left(
            split,
            default_left,
            value(feature as int),
        ) {
            left as int
        } else {
            right as int
        },
    }
}

/// The node where a row is after at most `k` splits from `node` on.
pub open spec fn walk(
    nodes: Seq<NodeKind>,
    value: spec_fn(int) -> Result<F32, u32>,
    node: int,
    k: nat,
) -> int
    decreases k,
{
    if k > 0 && 0 <= node < nodes.len() && nodes[node] is Internal {
        walk(nodes, value, next_node(nodes, value, node), (k - 1) as nat)
    } else {
        node
    }
}

/// A row is at a leaf after at most `k` splits from `node` on.
pub open spec fn stops(
    nodes: Seq<NodeKind>,
    value: spec_fn(int) -> Result<F32, u32>,
    node: int,
    k: nat,
) -> bool {
    let end = walk(nodes, value, node, k);
    0 <= end < nodes.len() && nodes[end] is Leaf
}

/// The node where a row stops that is routed from `node` on.
pub open spec fn arrives(
    nodes: Seq<NodeKind>,
    value: spec_fn(int) -> Result<F32, u32>,
    node: int,
) -> int {
    walk(nodes, value, node, choose|k: nat| stops(nodes, value, node, k))
}

/// The leaf to which a row is routed from `root`.
pub open spec fn leaf_of(
    nodes: Seq<NodeKind>,
    value: spec_fn(int) -> Result<F32, u32>,
    root: int,
) -> int {
    match nodes[arrives(nodes, value, root)] {
        NodeKind::Leaf(id) => id as int,
        _ => -1,
    }
}

/// The routing values of a row of an encoded matrix.
pub open spec fn row_values(matrix: EncodedMatrix, r: int) -> spec_fn(int) -> Result<F32, u32> {
    |fi: int| col_value(matrix.cols[fi], r)
}

/// Every path of splits from `node` on is inside the tree, splits on one of `n` features, and
/// ends at one of `leaves` leaves after at most `k` splits.
pub open spec fn ends_within(
    nodes: Seq<NodeKind>,
    n: int,
    leaves: int,
    node: int,
    k: nat,
) -> bool
    decreases k,
{
    0 <= node < nodes.len() && match nodes[node] {
        NodeKind::Leaf(id) => id < leaves,
        NodeKind::Internal { feature, left, right, .. } => k > 0 && feature < n && ends_within(
            nodes,
            n,
            leaves,
            left as int,
            (k - 1) as nat,
        ) && ends_within(nodes, n, leaves, right as int, (k - 1) as nat),
    }
}

/// Every path from the root ends at a leaf.
pub open spec fn routes(nodes: Seq<NodeKind>, n: int, leaves: int, root: int) -> bool {
    exists|k: nat| ends_within(nodes, n, leaves, root, k)
}

/// Children come after their parents.
pub open spec fn children_ahead(nodes: Seq<NodeKind>) -> bool {
    forall|i: int|
        0 <= i < nodes.len() ==> ((#[trigger] nodes[i]) matches NodeKind::Internal {
            left,
            right,
            ..
        } ==> i < left < nodes.len() && i < right < nodes.len())
}

/// Inner nodes split on one of `n` features.
pub open spec fn features_below(nodes: Seq<NodeKind>, n: int) -> bool {
    forall|i: int|
        0 <= i < nodes.len() ==> ((#[trigger] nodes[i]) matches NodeKind::Internal {
            feature,
            ..
        } ==> feature < n)
}

/// Leaves are numbered below `n`.
pub open spec fn leaves_below(nodes: Seq<NodeKind>, n: int) -> bool {
    forall|i: int|
        0 <= i < nodes.len() ==> ((#[trigger] nodes[i]) matches NodeKind::Leaf(id) ==> id < n)
}

proof fn lemma_walk_settles(
    nodes: Seq<NodeKind>,
    value: spec_fn(int) -> Result<F32, u32>,
    node: int,
    j: nat,
    k: nat,
)
    requires
        stops(nodes, value, node, j),
        stops(nodes, value, node, k),
    ensures
        walk(nodes, value, node, j) == walk(nodes, value, node, k),
    decreases j,
{
    if 0 <= node < nodes.len() && nodes[node] is Internal {
        let next = next_node(nodes, value, node);
        lemma_walk_settles(nodes, value, next, (j - 1) as nat, (k - 1) as nat);
    }
}

/// A row arrives where it stops.
pub proof fn lemma_arrives_where_it_stops(
    nodes: Seq<NodeKind>,
    value: spec_fn(int) -> Result<F32, u32>,
    node: int,
    k: nat,
)
    requires
        stops(nodes, value, node, k),
    ensures
        arrives(nodes, value, node) == walk(nodes, value, node, k),
{
    let j = choose|j: nat| stops(nodes, value, node, j);
    lemma_walk_settles(nodes, value, node, j, k);
}

/// Where paths end, rows stop: at a leaf.
pub proof fn lemma_paths_stop(
    nodes: Seq<NodeKind>,
    n: int,
    leaves: int,
    value: spec_fn(int) -> Result<F32, u32>,
    node: int,
    k: nat,
)
    requires
        ends_within(nodes, n, leaves, node, k),
    ensures
        stops(nodes, value, node, k),
        nodes[walk(nodes, value, node, k)] matches NodeKind::Leaf(id) ==> id < leaves,
    decreases k,
{
    if nodes[node] is Internal {
        let next = next_node(nodes, value, node);
        lemma_paths_stop(nodes, n, leaves, value, next, (k - 1) as nat);
    }
}

/// A row that stops does so where it does from the next node on.
pub proof fn lemma_arrives_next(
    nodes: Seq<NodeKind>,
    n: int,
    leaves: int,
    value: spec_fn(int) -> Result<F32, u32>,
    node: int,
    k: nat,
)
    requires
        ends_within(nodes, n, leaves, node, k),
    ensures
        nodes[node] is Leaf ==> arrives(nodes, value, node) == node,
        nodes[node] is Internal ==> arrives(nodes, value, node) == arrives(
            nodes,
            value,
            next_node(nodes, value, node),
        ),
{
    lemma_paths_stop(nodes, n, leaves, value, node, k);
    lemma_arrives_where_it_stops(nodes, value, node, k);
    if nodes[node] is Internal {
        let next = next_node(nodes, value, node);
        lemma_paths_stop(nodes, n, leaves, value, next, (k - 1) as nat);
        lemma_arrives_where_it_stops(nodes, value, next, (k - 1) as nat);
    }
}

/// A tree that can be routed with some features can be with more.
pub proof fn lemma_routes_with_more(
    nodes: Seq<NodeKind>,
    n: int,
    m: int,
    leaves: int,
    node: int,
    k: nat,
)
    requires
        ends_within(nodes, n, leaves, node, k),
        n <= m,
    ensures
        ends_within(nodes, m, leaves, node, k),
    decreases k,
{
    if let NodeKind::Internal { left, right, .. } = nodes[node] {
        lemma_routes_with_more(nodes, n, m, leaves, left as int, (k - 1) as nat);
        lemma_routes_with_more(nodes, n, m, leaves, right as int, (k - 1) as nat);
    }
}

/// Where children come after their parents, paths end.
pub proof fn lemma_paths_ahead_end(
    nodes: Seq<NodeKind>,
    n: int,
    leaves: int,
    node: int,
)
    requires
        children_ahead(nodes),
        features_below(nodes, n),
        leaves_below(nodes, leaves),
        0 <= node < nodes.len(),
    ensures
        ends_within(nodes, n, leaves, node, (nodes.len() - node) as nat),
    decreases nodes.len() - node,
{
    let k = (nodes.len() - node) as nat;
    if let NodeKind::Internal { left, right, .. } = nodes[node] {
        lemma_paths_ahead_end(nodes, n, leaves, left as int);
        lemma_paths_ahead_end(nodes, n, leaves, right as int);
        lemma_ends_later(
            nodes,
            n,
            leaves,
            left as int,
            (nodes.len() - left) as nat,
            (k - 1) as nat,
        );
        lemma_ends_later(
            nodes,
            n,
            leaves,
            right as int,
            (nodes.len() - right) as nat,
            (k - 1) as nat,
        );
    }
}

proof fn lemma_ends_later(
    nodes: Seq<NodeKind>,
    n: int,
    leaves: int,
    node: int,
    j: nat,
    k: nat,
)
    requires
        ends_within(nodes, n, leaves, node, j),
        j <= k,
    ensures
        ends_within(nodes, n, leaves, node, k),
    decreases j,
{
    if let NodeKind::Internal { left, right, .. } = nodes[node] {
        lemma_ends_later(nodes, n, leaves, left as int, (j - 1) as nat, (k - 1) as nat);
        lemma_ends_later(nodes, n, leaves, right as int, (j - 1) as nat, (k - 1) as nat);
    }
}

/// Routing in a tree whose children come after their parents ends at a leaf, and goes on from
/// the next node as from the node.
pub proof fn lemma_arrives_at_leaf(
    nodes: Seq<NodeKind>,
    value: spec_fn(int) -> Result<F32, u32>,
    node: int,
)
    requires
        children_ahead(nodes),
        0 <= node < nodes.len(),
    ensures
        node <= arrives(nodes, value, node) < nodes.len(),
        nodes[arrives(nodes, value, node)] is Leaf,
        nodes[node] is Leaf ==> arrives(nodes, value, node) == node,
        nodes[node] is Internal ==> arrives(nodes, value, node) == arrives(
            nodes,
            value,
            next_node(nodes, value, node),
        ),
    decreases nodes.len() - node,
{
    let n = u32::MAX + 1;
    let leaves = usize::MAX + 1;
    lemma_paths_ahead_end(nodes, n, leaves, node);
    lemma_arrives_next(nodes, n, leaves, value, node, (nodes.len() - node) as nat);
    if nodes[node] is Internal {
        lemma_arrives_at_leaf(nodes, value, next_node(nodes, value, node));
    }
}

/// Splitting a leaf moves the rows that stopped there to one of its children, and no others.
proof fn lemma_split_arrives(
    nodes: Seq<NodeKind>,
    o: Open,
    value: spec_fn(int) -> Result<F32, u32>,
    node: int,
)
    requires
        children_ahead(nodes),
        0 <= node < nodes.len(),
        o.node < nodes.len(),
        nodes[o.node as int] is Leaf,
        nodes.len() + 1 <= usize::MAX,
    ensures
        arrives(split_nodes(nodes, o), value, node) == if arrives(nodes, value, node) != o.node {
            arrives(nodes, value, node)
        } else if goes_left(
            o.cand->0.split,
            o.cand->0.default_left,
            value(o.cand->0.feature as int),
        ) {
            nodes.len() as int
        } else {
            nodes.len() as int + 1
        },
    decreases nodes.len() - node,
{
    let c = o.cand->0;
    let next = split_nodes(nodes, o);
    let l = nodes.len() as int;
    lemma_arrives_at_leaf(nodes, value, node);
    assert(children_ahead(next)) by {
        assert forall|i: int| 0 <= i < next.len() implies ((#[trigger] next[i]) matches NodeKind::Internal {
            left,
            right,
            ..
        } ==> i < left < next.len() && i < right < next.len()) by {
            if i < nodes.len() && i != o.node {
                assert(next[i] == nodes[i]);
            }
        }
    }
    lemma_arrives_at_leaf(next, value, node);
    lemma_arrives_at_leaf(next, value, l);
    lemma_arrives_at_leaf(next, value, l + 1);
    if node == o.node {
        assert(next[node] == split_node(c, l));
    } else {
        assert(next[node] == nodes[node]);
        match nodes[node] {
            NodeKind::Leaf(_) => {},
            NodeKind::Internal { feature, split, default_left, left, right } => {
                if goes_left(split, default_left, value(feature as int)) {
                    lemma_split_arrives(nodes, o, value, left as int);
                } else {
                    lemma_split_arrives(nodes, o, value, right as int);
                }
            },
        }
    }
}

/// An open leaf is at a leaf node, and its rows, in ascending order, are routed there.
spec fn open_ok(nodes: Seq<NodeKind>, matrix: EncodedMatrix, o: Open) -> bool {
    &&& o.node < nodes.len()
    &&& nodes[o.node as int] is Leaf
    &&& rows_ascend(o.rows@)
    &&& forall|k: int|
        0 <= k < o.rows.len() ==> #[trigger] o.rows[k] < matrix.n_rows && arrives(
            nodes,
            row_values(matrix, o.rows[k] as int),
            0,
        ) == o.node
}

/// Row `r` is in an open leaf.
spec fn is_placed(open: Seq<Open>, r: int) -> bool {
    exists|j: int| 0 <= j < open.len() && (#[trigger] open[j]).rows@.contains(r as u32)
}

/// What holds throughout growth: every row is in the one open leaf to which it is routed.
spec fn growth_holds<A: Arith>(
    encoders: Encoders,
    matrix: EncodedMatrix,
    g: Seq<F32>,
    h: Seq<F32>,
    cfg: Config,
    s: (Seq<NodeKind>, Seq<Open>),
) -> bool {
    &&& s.1.len() > 0
    &&& s.0.len() == 2 * s.1.len() - 1
    &&& children_ahead(s.0)
    &&& features_below(s.0, encoders.features@.len() as int)
    &&& features_below(s.0, matrix.cols@.len() as int)
    &&& forall|j: int| 0 <= j < s.1.len() ==> open_ok(s.0, matrix, #[trigger] s.1[j])
    &&& forall|j: int|
        0 <= j < s.1.len() ==> is_best_split::<A>(
            (#[trigger] s.1[j]).rows@,
            encoders,
            matrix,
            g,
            h,
            cfg,
            s.1[j].cand,
        )
    &&& forall|j: int, k: int|
        0 <= j < k < s.1.len() ==> (#[trigger] s.1[j]).node != (#[trigger] s.1[k]).node
    &&& forall|i: int|
        0 <= i < s.0.len() && (#[trigger] s.0[i]) is Leaf ==> is_open_node(s.1, i)
    &&& forall|r: int| 0 <= r < matrix.n_rows ==> #[trigger] is_placed(s.1, r)
    &&& s.1.len() > 1 ==> forall|j: int|
        0 <= j < s.1.len() ==> (#[trigger] s.1[j]).rows.len() >= cfg.min_leaf_samples
}

proof fn lemma_growth_starts<A: Arith>(
    encoders: Encoders,
    matrix: EncodedMatrix,
    g: Seq<F32>,
    h: Seq<F32>,
    cfg: Config,
    s: (Seq<NodeKind>, Seq<Open>),
)
    requires
        is_growth_start::<A>(encoders, matrix, g, h, cfg, s),
        matrix.n_rows <= u32::MAX,
    ensures
        growth_holds::<A>(encoders, matrix, g, h, cfg, s),
{
    let o = s.1[0];
    assert(s.0[0] is Leaf);
    assert forall|r: int| 0 <= r < matrix.n_rows implies #[trigger] is_placed(s.1, r) by {
        assert(o.rows@[r] == r as u32);
        assert(s.1[0].rows@.contains(r as u32));
    }
    assert(is_open_node(s.1, 0));
}

/// The open leaf to split next is one that has a candidate; there is one where any has.
pub(crate) proof fn lemma_next_open(open: Seq<Open>)
    ensures
        next_open(open) matches Some(i) ==> 0 <= i < open.len() && open[i].cand is Some,
    decreases open.len(),
{
    if open.len() > 0 {
        lemma_next_open(open.drop_last());
    }
}

/// Growth is best-first: no open leaf has a split of higher gain than the one that is split
/// next, and none is split next only where none has a split.
pub proof fn lemma_next_open_is_best(open: Seq<Open>)
    requires
        forall|j: int|
            0 <= j < open.len() ==> ((#[trigger] open[j]).cand matches Some(c)
                ==> !c.gain.spec_is_nan()),
    ensures
        match next_open(open) {
            Some(i) => forall|j: int|
                0 <= j < open.len() ==> ((#[trigger] open[j]).cand matches Some(c) ==> c.gain.le(
                    open[i].cand->0.gain,
                )),
            None => forall|j: int| 0 <= j < open.len() ==> (#[trigger] open[j]).cand is None,
        },
    decreases open.len(),
{
    lemma_next_open(open);
    if open.len() > 0 {
        let front = open.drop_last();
        assert forall|j: int| 0 <= j < front.len() implies ((#[trigger] front[j]).cand matches Some(
            c,
        ) ==> !c.gain.spec_is_nan()) by {
            assert(front[j] == open[j]);
        }
        lemma_next_open_is_best(front);
        lemma_next_open(front);
        assert(open[open.len() - 1].cand matches Some(c) ==> !c.gain.spec_is_nan());
        match next_open(open) {
            Some(i) => {
                assert forall|j: int| 0 <= j < open.len() implies ((
                #[trigger] open[j]).cand matches Some(c) ==> c.gain.le(
                    open[i].cand->0.gain,
                )) by {
                    if j < front.len() {
                        assert(front[j] == open[j]);
                    }
                }
            },
            None => {
                assert forall|j: int| 0 <= j < open.len() implies (
                #[trigger] open[j]).cand is None by {
                    if j < front.len() {
                        assert(front[j] == open[j]);
                    }
                }
            },
        }
    }
}

/// Where an open leaf stays when another is removed.
proof fn lemma_without(open: Seq<Open>, i: int, j: int) -> (k: int)
    requires
        0 <= i < open.len(),
        0 <= j < open.len(),
        i != j,
    ensures
        0 <= k < without(open, i).len(),
        without(open, i)[k] == open[j],
{
    if j == open.len() - 1 {
        i
    } else {
        j
    }
}

/// Where an open leaf was before another was removed.
proof fn lemma_without_source(open: Seq<Open>, i: int, k: int) -> (j: int)
    requires
        0 <= i < open.len(),
        0 <= k < without(open, i).len(),
    ensures
        0 <= j < open.len(),
        j != i,
        without(open, i)[k] == open[j],
        k != i ==> j == k,
        k == i ==> j == open.len() - 1,
{
    if k == i {
        open.len() - 1
    } else {
        k
    }
}

#[verifier::rlimit(50)]
proof fn lemma_growth_goes_on<A: Arith>(
    encoders: Encoders,
    matrix: EncodedMatrix,
    g: Seq<F32>,
    h: Seq<F32>,
    cfg: Config,
    a: (Seq<NodeKind>, Seq<Open>),
    b: (Seq<NodeKind>, Seq<Open>),
)
    requires
        growth_holds::<A>(encoders, matrix, g, h, cfg, a),
        is_growth_step::<A>(encoders, matrix, g, h, cfg, a, b),
        searchable(encoders, matrix, matrix.n_rows as int),
        b.0.len() <= usize::MAX,
    ensures
        growth_holds::<A>(encoders, matrix, g, h, cfg, b),
{
    lemma_next_open(a.1);
    let i = next_open(a.1)->0;
    let o = a.1[i];
    let c = o.cand->0;
    let col = matrix.cols[c.feature as int];
    let n = a.0.len() as int;
    let k = a.1.len() as int;
    let rest = without(a.1, i);
    let (lo, ro) = (b.1[k - 1], b.1[k]);
    let to_left = row_goes_left(c.split, c.default_left, col);
    let to_right = row_goes_right(c.split, c.default_left, col);
    assert(open_ok(a.0, matrix, o));
    lemma_best_split_is_sound::<A>(o.rows@, encoders, matrix, g, h, cfg, c);
    assert(b.0.len() == n + 2);
    assert forall|m: int| 0 <= m < k - 1 implies #[trigger] b.1[m] == rest[m] by {
        assert(b.1.take(k - 1)[m] == rest[m]);
    }
    // The nodes.
    assert forall|x: int| 0 <= x < b.0.len() implies ((#[trigger] b.0[x]) matches NodeKind::Internal {
        left,
        right,
        ..
    } ==> x < left < b.0.len() && x < right < b.0.len()) by {
        if x < n && x != o.node {
            assert(b.0[x] == a.0[x]);
        }
    }
    assert forall|x: int| 0 <= x < b.0.len() implies ((#[trigger] b.0[x]) matches NodeKind::Internal {
        feature,
        ..
    } ==> feature < encoders.features.len() && feature < matrix.cols.len()) by {
        if x < n && x != o.node {
            assert(b.0[x] == a.0[x]);
        }
    }
    // Where rows stop now.
    assert forall|r: int|
        #![trigger arrives(b.0, row_values(matrix, r), 0)]
        arrives(b.0, row_values(matrix, r), 0) == if arrives(a.0, row_values(matrix, r), 0)
            != o.node {
            arrives(a.0, row_values(matrix, r), 0)
        } else if goes_left(c.split, c.default_left, col_value(col, r)) {
            n
        } else {
            n + 1
        } by {
        lemma_split_arrives(a.0, o, row_values(matrix, r), 0);
    }
    // The two new leaves.
    lemma_filter_props(o.rows@, to_left);
    lemma_filter_props(o.rows@, to_right);
    lemma_filter_ascends(o.rows@, to_left);
    lemma_filter_ascends(o.rows@, to_right);
    assert(open_ok(b.0, matrix, lo)) by {
        assert forall|x: int| 0 <= x < lo.rows.len() implies #[trigger] lo.rows[x] < matrix.n_rows
            && arrives(b.0, row_values(matrix, lo.rows[x] as int), 0) == lo.node by {
            let r = lo.rows@[x];
            assert(to_left(r) && o.rows@.contains(r));
            let y = choose|y: int| 0 <= y < o.rows@.len() && o.rows@[y] == r;
            assert(o.rows[y] < matrix.n_rows);
        }
    }
    assert(open_ok(b.0, matrix, ro)) by {
        assert forall|x: int| 0 <= x < ro.rows.len() implies #[trigger] ro.rows[x] < matrix.n_rows
            && arrives(b.0, row_values(matrix, ro.rows[x] as int), 0) == ro.node by {
            let r = ro.rows@[x];
            assert(to_right(r) && o.rows@.contains(r));
            let y = choose|y: int| 0 <= y < o.rows@.len() && o.rows@[y] == r;
            assert(o.rows[y] < matrix.n_rows);
        }
    }
    // The leaves that stay.
    assert forall|m: int| 0 <= m < k - 1 implies open_ok(b.0, matrix, #[trigger] rest[m])
        && rest[m].node < n && rest[m].node != o.node by {
        let j = lemma_without_source(a.1, i, m);
        assert(open_ok(a.0, matrix, a.1[j]));
        if j < i {
            assert(a.1[j].node != a.1[i].node);
        } else {
            assert(a.1[i].node != a.1[j].node);
        }
        assert(b.0[rest[m].node as int] == a.0[rest[m].node as int]);
        assert forall|x: int| 0 <= x < rest[m].rows.len() implies #[trigger] rest[m].rows[x]
            < matrix.n_rows && arrives(b.0, row_values(matrix, rest[m].rows[x] as int), 0)
            == rest[m].node by {
            assert(a.1[j].rows[x] < matrix.n_rows);
        }
    }
    assert forall|j: int| 0 <= j < b.1.len() implies open_ok(b.0, matrix, #[trigger] b.1[j]) by {
        if j < k - 1 {
            assert(b.1[j] == rest[j]);
        }
    }
    assert forall|j: int| 0 <= j < b.1.len() implies is_best_split::<A>(
        (#[trigger] b.1[j]).rows@,
        encoders,
        matrix,
        g,
        h,
        cfg,
        b.1[j].cand,
    ) by {
        if j < k - 1 {
            assert(b.1[j] == rest[j]);
            let q = lemma_without_source(a.1, i, j);
            assert(is_best_split::<A>(a.1[q].rows@, encoders, matrix, g, h, cfg, a.1[q].cand));
        }
    }
    assert forall|p: int, q: int| 0 <= p < q < b.1.len() implies (#[trigger] b.1[p]).node != (
    #[trigger] b.1[q]).node by {
        if q < k - 1 {
            assert(b.1[p] == rest[p] && b.1[q] == rest[q]);
            let x = lemma_without_source(a.1, i, p);
            let y = lemma_without_source(a.1, i, q);
            if x < y {
                assert(a.1[x].node != a.1[y].node);
            } else {
                assert(a.1[y].node != a.1[x].node);
            }
        } else if p < k - 1 {
            assert(b.1[p] == rest[p]);
            assert(rest[p].node < n);
        }
    }
    assert forall|x: int| 0 <= x < b.0.len() && (#[trigger] b.0[x]) is Leaf implies is_open_node(
        b.1,
        x,
    ) by {
        if x == n {
            assert(b.1[k - 1].node == n);
        } else if x == n + 1 {
            assert(b.1[k].node == n + 1);
        } else {
            assert(x != o.node);
            assert(b.0[x] == a.0[x]);
            assert(is_open_node(a.1, x));
            let j = choose|j: int| 0 <= j < a.1.len() && (#[trigger] a.1[j]).node == x;
            let m = lemma_without(a.1, i, j);
            assert(b.1[m] == rest[m]);
            assert(b.1[m].node == x);
        }
    }
    assert forall|r: int| 0 <= r < matrix.n_rows implies #[trigger] is_placed(b.1, r) by {
        assert(is_placed(a.1, r));
        let j = choose|j: int| 0 <= j < a.1.len() && (#[trigger] a.1[j]).rows@.contains(r as u32);
        if j != i {
            let m = lemma_without(a.1, i, j);
            assert(b.1[m] == rest[m]);
            assert(b.1[m].rows@.contains(r as u32));
        } else {
            let y = choose|y: int| 0 <= y < o.rows@.len() && o.rows@[y] == r as u32;
            if to_left(o.rows@[y]) {
                assert(b.1[k - 1].rows@.contains(r as u32));
            } else {
                assert(to_right(o.rows@[y]));
                assert(b.1[k].rows@.contains(r as u32));
            }
        }
    }
    assert forall|j: int| 0 <= j < b.1.len() implies (#[trigger] b.1[j]).rows.len()
        >= cfg.min_leaf_samples by {
        if j < k - 1 {
            assert(b.1[j] == rest[j]);
            let q = lemma_without_source(a.1, i, j);
            assert(a.1[q].rows.len() >= cfg.min_leaf_samples);
        }
    }
}

proof fn lemma_growth_keeps<A: Arith>(
    encoders: Encoders,
    matrix: EncodedMatrix,
    g: Seq<F32>,
    h: Seq<F32>,
    cfg: Config,
    start: (Seq<NodeKind>, Seq<Open>),
    steps: nat,
    last: (Seq<NodeKind>, Seq<Open>),
)
    requires
        is_growth_start::<A>(encoders, matrix, g, h, cfg, start),
        runs(start, steps, growth::<A>(encoders, matrix, g, h, cfg), last),
        searchable(encoders, matrix, matrix.n_rows as int),
        matrix.n_rows <= u32::MAX,
        last.0.len() <= usize::MAX,
    ensures
        growth_holds::<A>(encoders, matrix, g, h, cfg, last),
        last.1.len() == steps + 1,
    decreases steps,
{
    let step = growth::<A>(encoders, matrix, g, h, cfg);
    if steps == 0 {
        let tr = choose|tr: Seq<(Seq<NodeKind>, Seq<Open>)>| #[trigger]
            is_trace(start, steps, step, tr) && tr[0] == last;
        lemma_growth_starts::<A>(encoders, matrix, g, h, cfg, last);
    } else {
        let m = lemma_runs_last(start, steps, step, last);
        assert(is_growth_step::<A>(encoders, matrix, g, h, cfg, m, last));
        lemma_growth_keeps::<A>(encoders, matrix, g, h, cfg, start, (steps - 1) as nat, m);
        lemma_growth_goes_on::<A>(encoders, matrix, g, h, cfg, m, last);
    }
}

impl GrownTree {
    /// A valid tree over `n` features: children come after their parents, every inner node
    /// splits on one of the features, and every leaf node has a leaf.
    pub open spec fn wf(self, n: int) -> bool {
        &&& self.root < self.nodes.len()
        &&& children_ahead(self.nodes@)
        &&& features_below(self.nodes@, n)
        &&& leaves_below(self.nodes@, self.leaf_rows@.len() as int)
        &&& self.nodes.len() == 2 * self.leaf_rows.len() - 1
    }

    /// The leaf of row `r`.
    pub open spec fn leaf_of_row(self, matrix: EncodedMatrix, r: int) -> int {
        leaf_of(self.nodes@, row_values(matrix, r), self.root as int)
    }

    /// Every row lands in the leaf to which it is routed, there once, and nowhere else.
    pub open spec fn partitions(self, matrix: EncodedMatrix) -> bool {
        &&& forall|r: int|
            0 <= r < matrix.n_rows ==> 0 <= #[trigger] self.leaf_of_row(matrix, r)
                < self.leaf_rows.len() && self.leaf_rows[self.leaf_of_row(matrix, r)]@.contains(
                r as u32,
            )
        &&& forall|j: int, k: int|
            0 <= j < self.leaf_rows.len() && 0 <= k < self.leaf_rows[j].len()
                ==> #[trigger] self.leaf_rows[j]@[k] < matrix.n_rows && self.leaf_of_row(
                matrix,
                self.leaf_rows[j]@[k] as int,
            ) == j
        &&& forall|j: int|
            0 <= j < self.leaf_rows.len() ==> rows_ascend((#[trigger] self.leaf_rows[j])@)
    }
}

/// Renumbering leaves does not change where rows stop.
proof fn lemma_arrives_renumbered(
    a: Seq<NodeKind>,
    b: Seq<NodeKind>,
    value: spec_fn(int) -> Result<F32, u32>,
    node: int,
)
    requires
        a.len() == b.len(),
        children_ahead(a),
        0 <= node < a.len(),
        forall|i: int|
            0 <= i < a.len() ==> if (#[trigger] a[i]) is Leaf {
                b[i] is Leaf
            } else {
                b[i] == a[i]
            },
    ensures
        arrives(b, value, node) == arrives(a, value, node),
    decreases a.len() - node,
{
    assert(children_ahead(b)) by {
        assert forall|i: int| 0 <= i < b.len() implies ((#[trigger] b[i]) matches NodeKind::Internal {
            left,
            right,
            ..
        } ==> i < left < b.len() && i < right < b.len()) by {
            assert(a[i] is Leaf || b[i] == a[i]);
        }
    }
    lemma_arrives_at_leaf(a, value, node);
    lemma_arrives_at_leaf(b, value, node);
    match a[node] {
        NodeKind::Leaf(_) => {},
        NodeKind::Internal { feature, split, default_left, left, right } => {
            if goes_left(split, default_left, value(feature as int)) {
                lemma_arrives_renumbered(a, b, value, left as int);
            } else {
                lemma_arrives_renumbered(a, b, value, right as int);
            }
        },
    }
}

/// Growth partitions the rows: a grown tree is valid, has at most as many leaves as were
/// asked for, every row lands in exactly one leaf, that to which the tree routes it, and
/// where there was a split every leaf has the rows that it needs.
pub proof fn lemma_grown_tree_partitions<A: Arith>(
    encoders: Encoders,
    matrix: EncodedMatrix,
    g: Seq<F32>,
    h: Seq<F32>,
    cfg: Config,
    tree: GrownTree,
)
    requires
        is_grown::<A>(encoders, matrix, g, h, cfg, tree),
        searchable(encoders, matrix, matrix.n_rows as int),
        matrix.n_rows <= u32::MAX,
    ensures
        tree.wf(encoders.features@.len() as int),
        tree.wf(matrix.cols@.len() as int),
        1 <= tree.leaf_rows.len(),
        tree.leaf_rows.len() == 1 || tree.leaf_rows.len() <= cfg.num_leaves,
        tree.partitions(matrix),
        tree.leaf_rows.len() > 1 ==> forall|j: int|
            0 <= j < tree.leaf_rows.len() ==> (#[trigger] tree.leaf_rows[j]).len()
                >= cfg.min_leaf_samples,
{
    let (start, steps, s) = choose|
        start: (Seq<NodeKind>, Seq<Open>),
        steps: nat,
        s: (Seq<NodeKind>, Seq<Open>),
    |
        {
            &&& #[trigger] is_growth_start::<A>(encoders, matrix, g, h, cfg, start)
            &&& #[trigger] runs(start, steps, growth::<A>(encoders, matrix, g, h, cfg), s)
            &&& steps == 0 || steps + 1 <= cfg.num_leaves
            &&& steps + 1 >= cfg.num_leaves || next_open(s.1) is None
            &&& is_finished(s, tree)
        };
    assert(s.0.len() == tree.nodes.len() <= usize::MAX);
    lemma_growth_keeps::<A>(encoders, matrix, g, h, cfg, start, steps, s);
    let nodes = tree.nodes@;
    assert forall|i: int| 0 <= i < nodes.len() implies if (#[trigger] s.0[i]) is Leaf {
        nodes[i] matches NodeKind::Leaf(id) && id < tree.leaf_rows.len()
    } else {
        nodes[i] == s.0[i]
    } by {
        if s.0[i] is Leaf {
            assert(is_open_node(s.1, i));
            let j = choose|j: int| 0 <= j < s.1.len() && (#[trigger] s.1[j]).node == i;
            assert(nodes[s.1[j].node as int] == NodeKind::Leaf(j as usize));
        } else if is_open_node(s.1, i) {
            let j = choose|j: int| 0 <= j < s.1.len() && (#[trigger] s.1[j]).node == i;
            assert(open_ok(s.0, matrix, s.1[j]));
        }
    }
    assert forall|i: int| 0 <= i < nodes.len() implies ((#[trigger] nodes[i]) matches NodeKind::Internal {
        left,
        right,
        feature,
        ..
    } ==> i < left < nodes.len() && i < right < nodes.len() && feature < encoders.features.len()
        && feature < matrix.cols.len()) by {
        assert(s.0[i] == s.0[i]);
    }
    assert(leaves_below(nodes, tree.leaf_rows@.len() as int)) by {
        assert forall|i: int| 0 <= i < nodes.len() implies ((#[trigger] nodes[i]) matches NodeKind::Leaf(
            id,
        ) ==> id < tree.leaf_rows.len()) by {
            assert(s.0[i] == s.0[i]);
        }
    }
    assert forall|j: int, r: int|
        0 <= j < s.1.len() && arrives(s.0, row_values(matrix, r), 0) == (#[trigger] s.1[j]).node
        implies #[trigger] tree.leaf_of_row(matrix, r) == j by {
        lemma_arrives_renumbered(s.0, nodes, row_values(matrix, r), 0);
        assert(nodes[s.1[j].node as int] == NodeKind::Leaf(j as usize));
    }
    assert forall|j: int, k: int|
        0 <= j < tree.leaf_rows.len() && 0 <= k < tree.leaf_rows[j].len() implies (
    #[trigger] tree.leaf_rows[j]@[k]) < matrix.n_rows && tree.leaf_of_row(
        matrix,
        tree.leaf_rows[j]@[k] as int,
    ) == j by {
        let o = s.1[j];
        assert(open_ok(s.0, matrix, o));
        assert(tree.leaf_rows[j]@ == o.rows@);
        assert(o.rows[k] < matrix.n_rows);
        assert(tree.leaf_of_row(matrix, o.rows[k] as int) == j);
    }
    assert forall|r: int| 0 <= r < matrix.n_rows implies 0 <= #[trigger] tree.leaf_of_row(matrix, r)
        < tree.leaf_rows.len() && tree.leaf_rows[tree.leaf_of_row(matrix, r)]@.contains(
        r as u32,
    ) by {
        assert(is_placed(s.1, r));
        let j = choose|j: int| 0 <= j < s.1.len() && (#[trigger] s.1[j]).rows@.contains(r as u32);
        let o = s.1[j];
        assert(open_ok(s.0, matrix, o));
        let k = choose|k: int| 0 <= k < o.rows@.len() && o.rows@[k] == r as u32;
        assert(o.rows[k] < matrix.n_rows);
        assert(tree.leaf_of_row(matrix, r) == j);
        assert(tree.leaf_rows[j]@ == o.rows@);
    }
    assert forall|j: int| 0 <= j < tree.leaf_rows.len() implies rows_ascend(
        (#[trigger] tree.leaf_rows[j])@,
    ) by {
        assert(open_ok(s.0, matrix, s.1[j]));
        assert(tree.leaf_rows[j]@ == s.1[j].rows@);
    }
    if tree.leaf_rows.len() > 1 {
        assert forall|j: int| 0 <= j < tree.leaf_rows.len() implies (
        #[trigger] tree.leaf_rows[j]).len() >= cfg.min_leaf_samples by {
            assert(s.1[j].rows.len() >= cfg.min_leaf_samples);
            assert(tree.leaf_rows[j]@ == s.1[j].rows@);
        }
    }
}

/// The open leaf to split next, if any.
fn pick_open(open: &Vec<Open>) -> (r: Option<usize>)
    ensures
        match next_open(open@) {
            None => r is None,
            Some(i) => r == Some(i as usize) && 0 <= i < open.len() && open[i].cand is Some,
        },
{
    let mut best: Option<(usize, F32)> = None;
    let mut i: usize = 0;
    while i < open.len()
        invariant
            i <= open.len(),
            match next_open(open@.take(i as int)) {
                None => best is None,
                Some(j) => best matches Some(b) && b.0 == j && j < i && open[j].cand is Some
                    && b.1 == open[j].cand->0.gain,
            },
        decreases open.len() - i,
    {
        proof {
            assert(open@.take(i + 1).drop_last() =~= open@.take(i as int));
            lemma_next_open(open@.take(i as int));
        }
        if let Some(c) = &open[i].cand {
            let take = match best {
                None => true,
                Some(b) => b.1.at_most(c.gain),
            };
            if take {
                best = Some((i, c.gain));
            }
        }
        i = i + 1;
    }
    proof {
        assert(open@.take(open@.len() as int) =~= open@);
        lemma_next_open(open@);
    }
    match best {
        None => None,
        Some(b) => Some(b.0),
    }
}

fn open_leaf<A: Arith>(
    node: usize,
    rows: Vec<u32>,
    encoders: &Encoders,
    matrix: &EncodedMatrix,
    g: &Vec<F32>,
    h: &Vec<F32>,
    cfg: &Config,
) -> (o: Open)
    requires
        rows_within(rows@, matrix.n_rows as int),
        matrix.n_rows <= g.len(),
        matrix.n_rows <= h.len(),
        searchable(*encoders, *matrix, matrix.n_rows as int),
    ensures
        is_opened::<A>(*encoders, *matrix, g@, h@, *cfg, node as int, rows@, o),
{
    let cand = find_best_split::<A>(&rows, encoders, matrix, g, h, cfg);
    Open { node, rows, cand }
}

/// Turn the open leaves into numbered ones.
fn number_leaves(nodes: Vec<NodeKind>, open: Vec<Open>) -> (tree: GrownTree)
    requires
        forall|j: int| 0 <= j < open.len() ==> (#[trigger] open[j]).node < nodes.len(),
        forall|j: int, k: int|
            0 <= j < k < open.len() ==> (#[trigger] open[j]).node != (#[trigger] open[k]).node,
    ensures
        is_finished((nodes@, open@), tree),
{
    let ghost given = nodes@;
    let ghost all = open@;
    let mut nodes = nodes;
    let mut open = open;
    let mut leaf_rows: Vec<Vec<u32>> = Vec::with_capacity(open.len());
    let n: usize = open.len();
    let mut i: usize = 0;
    while i < n
        invariant
            i <= n,
            n == all.len(),
            open@ == all.skip(i as int),
            nodes.len() == given.len(),
            leaf_rows.len() == i,
            forall|j: int| 0 <= j < all.len() ==> (#[trigger] all[j]).node < nodes.len(),
            forall|j: int, k: int|
                0 <= j < k < all.len() ==> (#[trigger] all[j]).node != (#[trigger] all[k]).node,
            forall|j: int|
                0 <= j < i ==> leaf_rows[j]@ == (#[trigger] all[j]).rows@
                    && nodes[all[j].node as int] == NodeKind::Leaf(j as usize),
            forall|k: int|
                0 <= k < given.len() && !is_open_node(all, k) ==> #[trigger] nodes[k] == given[k],
        decreases n - i,
    {
        let ghost before = nodes@;
        let o = open.remove(0);
        proof {
            assert(o == all[i as int]);
            assert(all.skip(i as int).remove(0) =~= all.skip(i + 1));
        }
        nodes.set(o.node, NodeKind::Leaf(i));
        leaf_rows.push(o.rows);
        proof {
            assert forall|j: int| 0 <= j < i + 1 implies leaf_rows[j]@ == (#[trigger] all[j]).rows@
                && nodes[all[j].node as int] == NodeKind::Leaf(j as usize) by {
                if j < i {
                    assert(all[j].node != all[i as int].node);
                }
            }
            assert forall|k: int| 0 <= k < given.len() && !is_open_node(all, k) implies (
            #[trigger] nodes[k]) == given[k] by {
                assert(all[i as int].node != k);
                assert(nodes[k] == before[k]);
            }
        }
        i = i + 1;
    }
    GrownTree { nodes, root: 0, leaf_rows }
}

/// Grow a coarse tree best-first to at most `cfg.num_leaves` leaves.
pub fn grow<A: Arith>(
    encoders: &Encoders,
    matrix: &EncodedMatrix,
    g: &Vec<F32>,
    h: &Vec<F32>,
    cfg: &Config,
) -> (tree: GrownTree)
    requires
        matrix.n_rows <= u32::MAX,
        matrix.n_rows <= g.len(),
        matrix.n_rows <= h.len(),
        searchable(*encoders, *matrix, matrix.n_rows as int),
    ensures
        is_grown::<A>(*encoders, *matrix, g@, h@, *cfg, tree),
        tree.wf(encoders.features@.len() as int),
        1 <= tree.leaf_rows.len(),
        tree.leaf_rows.len() == 1 || tree.leaf_rows.len() <= cfg.num_leaves,
        tree.partitions(*matrix),
{
    let ghost step = growth::<A>(*encoders, *matrix, g@, h@, *cfg);
    let n: usize = matrix.n_rows;
    let mut all: Vec<u32> = Vec::with_capacity(n);
    let mut r: usize = 0;
    while r < n
        invariant
            r <= n <= u32::MAX,
            all.len() == r,
            forall|k: int| 0 <= k < r ==> #[trigger] all[k] == k,
        decreases n - r,
    {
        all.push(r as u32);
        r = r + 1;
    }
    assert(all@ =~= root_rows(n as int));
    let mut nodes: Vec<NodeKind> = Vec::new();
    nodes.push(NodeKind::Leaf(usize::MAX));
    let root_leaf = open_leaf::<A>(0, all, encoders, matrix, g, h, cfg);
    let mut open: Vec<Open> = Vec::new();
    open.push(root_leaf);
    let mut n_leaves: usize = 1;
    let ghost start = (nodes@, open@);
    proof {
        assert(start.0 =~= seq![NodeKind::Leaf(usize::MAX)]);
        assert(is_growth_start::<A>(*encoders, *matrix, g@, h@, *cfg, start));
        lemma_growth_starts::<A>(*encoders, *matrix, g@, h@, *cfg, start);
        lemma_runs_start(start, step);
    }
    while n_leaves < cfg.num_leaves
        invariant
            matrix.n_rows <= u32::MAX,
            matrix.n_rows <= g.len(),
            matrix.n_rows <= h.len(),
            searchable(*encoders, *matrix, matrix.n_rows as int),
            step == growth::<A>(*encoders, *matrix, g@, h@, *cfg),
            runs(start, (n_leaves - 1) as nat, step, (nodes@, open@)),
            growth_holds::<A>(*encoders, *matrix, g@, h@, *cfg, (nodes@, open@)),
            n_leaves == 1 || n_leaves <= cfg.num_leaves,
            n_leaves >= 1,
        ensures
            n_leaves >= cfg.num_leaves || next_open(open@) is None,
        decreases cfg.num_leaves - n_leaves,
    {
        // Pick the open leaf with the highest-gain candidate.
        let pick = pick_open(&open);
        let idx: usize = match pick {
            None => {
                break ;
            },
            Some(idx) => idx,
        };
        let ghost before = (nodes@, open@);
        let ghost o_then = open@[idx as int];
        proof {
            assert(open_ok(nodes@, *matrix, o_then));
            lemma_best_split_is_sound::<A>(
                o_then.rows@,
                *encoders,
                *matrix,
                g@,
                h@,
                *cfg,
                o_then.cand->0,
            );
        }
        let o = open.swap_remove(idx);
        if let Some(cand) = o.cand {
            let feature: usize = cand.feature as usize;
            let (lrows, rrows) = partition(
                &o.rows,
                feature,
                &cand.split,
                cand.default_left,
                matrix,
            );
            proof {
                let col = matrix.cols[feature as int];
                lemma_filter_rows_within(
                    o.rows@,
                    row_goes_left(cand.split, cand.default_left, col),
                    matrix.n_rows as int,
                );
                lemma_filter_rows_within(
                    o.rows@,
                    row_goes_right(cand.split, cand.default_left, col),
                    matrix.n_rows as int,
                );
            }
            let l: usize = nodes.len();
            nodes.push(NodeKind::Leaf(usize::MAX));
            let r: usize = nodes.len();
            nodes.push(NodeKind::Leaf(usize::MAX));
            nodes.set(
                o.node,
                NodeKind::Internal {
                    feature: cand.feature,
                    split: cand.split,
                    default_left: cand.default_left,
                    left: l,
                    right: r,
                },
            );
            let lo = open_leaf::<A>(l, lrows, encoders, matrix, g, h, cfg);
            let ro = open_leaf::<A>(r, rrows, encoders, matrix, g, h, cfg);
            open.push(lo);
            open.push(ro);
            proof {
                let after = (nodes@, open@);
                let k = before.1.len() as int;
                assert(after.1.take(k - 1) =~= without(before.1, idx as int));
                assert(after.0 =~= split_nodes(before.0, o_then));
                assert(is_growth_step::<A>(*encoders, *matrix, g@, h@, *cfg, before, after));
                assert(step(n_leaves - 1, before, after));
                assert(nodes.len() <= usize::MAX);
                lemma_growth_goes_on::<A>(*encoders, *matrix, g@, h@, *cfg, before, after);
                lemma_runs_next(start, (n_leaves - 1) as nat, step, before, after);
            }
        }
        n_leaves = n_leaves + 1;
    }
    // Assign leaf ids to the remaining open leaves.
    proof {
        assert forall|j: int| 0 <= j < open.len() implies (#[trigger] open[j]).node
            < nodes.len() by {
            assert(open_ok(nodes@, *matrix, open@[j]));
        }
    }
    let ghost last = (nodes@, open@);
    let tree = number_leaves(nodes, open);
    proof {
        assert(is_growth_start::<A>(*encoders, *matrix, g@, h@, *cfg, start) && runs(
            start,
            (n_leaves - 1) as nat,
            growth::<A>(*encoders, *matrix, g@, h@, *cfg),
            last,
        ));
        assert(is_grown::<A>(*encoders, *matrix, g@, h@, *cfg, tree));
        lemma_grown_tree_partitions::<A>(*encoders, *matrix, g@, h@, *cfg, tree);
    }
    tree
}

proof fn lemma_filter_rows_within(rows: Seq<u32>, p: spec_fn(u32) -> bool, n: int)
    requires
        rows_within(rows, n),
    ensures
        rows_within(rows.filter(p), n),
{
    lemma_filter_props(rows, p);
    let f = rows.filter(p);
    assert forall|i: int| 0 <= i < f.len() implies #[trigger] f[i] < n by {
        assert(rows.contains(f[i]));
    }
}

/// A matrix that fits valid encoders can be split by them.
pub proof fn lemma_fitting_is_searchable(encoders: Encoders, matrix: EncodedMatrix)
    requires
        encoders.wf(),
        matrix.fits(encoders),
    ensures
        searchable(encoders, matrix, matrix.n_rows as int),
{
    lemma_features_within_slots(encoders, encoders.features@.len() as int);
    assert forall|i: int|
        0 <= i < encoders.features.len() && i < matrix.cols.len() implies feature_searchable(
        #[trigger] encoders.features[i],
        matrix.cols[i],
        matrix.n_rows as int,
    ) by {
        assert(matrix.cols[i].fits(encoders.features[i], matrix.n_rows as int));
    }
}

/// Of open leaves whose splits gain the same, the last is split next: those after it have splits
/// of lower gain, if any.
pub proof fn lemma_next_open_is_last_of_best(open: Seq<Open>)
    requires
        forall|j: int|
            0 <= j < open.len() ==> ((#[trigger] open[j]).cand matches Some(c)
                ==> !c.gain.spec_is_nan()),
    ensures
        next_open(open) matches Some(i) ==> 0 <= i < open.len() && open[i].cand is Some && forall|
            j: int,
        |
            i < j < open.len() ==> ((#[trigger] open[j]).cand matches Some(c) ==> c.gain.lt(
                open[i].cand->0.gain,
            )),
    decreases open.len(),
{
    lemma_next_open(open);
    if open.len() > 0 {
        let front = open.drop_last();
        assert forall|j: int| 0 <= j < front.len() implies ((#[trigger] front[j]).cand matches Some(
            c,
        ) ==> !c.gain.spec_is_nan()) by {
            assert(front[j] == open[j]);
        }
        lemma_next_open_is_last_of_best(front);
        assert(open[open.len() - 1].cand matches Some(c) ==> !c.gain.spec_is_nan());
        if let Some(i) = next_open(open) {
            assert forall|j: int| i < j < open.len() implies ((
            #[trigger] open[j]).cand matches Some(c) ==> c.gain.lt(open[i].cand->0.gain)) by {
                assert(front[i] == open[i]);
                assert(open[i].cand matches Some(c) ==> !c.gain.spec_is_nan());
                if j < front.len() {
                    assert(front[j] == open[j]);
                }
            }
        }
    }
}

} // verus!
