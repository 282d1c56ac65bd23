//! Columnar (struct-of-arrays) data and the feature schema.
//!
//! Raw values use sentinel encodings for missing: not-a-number for numeric columns and
//! [`MISSING_CAT`] for categorical columns. The dataset carries an implicit row order;
//! the temporal train/valid split is "first `frac` rows are train", so callers should
//! pass rows pre-sorted by time.

use vstd::prelude::*;
use vstd::arithmetic::power2::pow2;
use vstd::string::StringExecFns;
use crate::arith::{
    deterministic, is_diff32, is_index, is_int, is_logistic32, is_prod, is_prod32, is_round, is_sum32,
    lemma_runs_next, lemma_runs_start, lemma_runs_unique, logistic32, runs, Arith,
};
use crate::float::{F32, F64};

verus! {

/// Sentinel category code marking a missing categorical value.
pub const MISSING_CAT: i64 = i64::MIN;

/// How a raw feature column is treated by the model.
#[derive(Clone, Copy, Debug, PartialEq, Eq, Structural)]
pub enum FeatureKind {
    /// Continuous value; quantile knots + piecewise-linear basis.
    Numeric,
    /// Known finite vocabulary; one-hot basis, many-vs-many splits.
    BoundedCat,
    /// Unbounded / high-cardinality; out-of-fold target encoded to a numeric.
    HighCardCat,
}

/// Names + kinds for every feature column, in column order.
#[derive(Clone, Debug)]
pub struct Schema {
    pub names: Vec<String>,
    pub kinds: Vec<FeatureKind>,
}

impl Schema {
    pub fn new(names: Vec<String>, kinds: Vec<FeatureKind>) -> (r: Self)
        requires
            names.len() == kinds.len(),
        ensures
            r.names == names,
            r.kinds == kinds,
    {
        Schema { names, kinds }
    }

    pub fn n_features(&self) -> (n: usize)
        ensures
            n == self.kinds.len(),
    {
        self.kinds.len()
    }

    /// The two schemas list the same names and kinds.
    pub open spec fn same_as(self, other: Schema) -> bool {
        &&& self.kinds@ == other.kinds@
        &&& self.names.len() == other.names.len()
        &&& forall|i: int| 0 <= i < self.names.len() ==> #[trigger] self.names[i]@ == other.names[i]@
    }

    fn copied(&self) -> (r: Schema)
        ensures
            r.same_as(*self),
    {
        let mut names: Vec<String> = Vec::new();
        let mut i: usize = 0;
        while i < self.names.len()
            invariant
                i <= self.names.len(),
                names.len() == i,
                forall|k: int| 0 <= k < i ==> #[trigger] names[k]@ == self.names[k]@,
            decreases self.names.len() - i,
        {
            names.push(self.names[i].clone());
            i = i + 1;
        }
        let mut kinds: Vec<FeatureKind> = Vec::new();
        let mut j: usize = 0;
        while j < self.kinds.len()
            invariant
                j <= self.kinds.len(),
                kinds@ == self.kinds@.take(j as int),
            decreases self.kinds.len() - j,
        {
            kinds.push(self.kinds[j]);
            j = j + 1;
        }
        assert(kinds@ =~= self.kinds@);
        Schema { names, kinds }
    }
}

/// One raw feature column.
#[derive(Clone, Debug)]
pub enum Column {
    /// Not-a-number marks missing.
    Numeric(Vec<F32>),
    /// [`MISSING_CAT`] marks missing.
    Categorical(Vec<i64>),
}

/// A copy of the elements `lo..hi`.
pub(crate) fn copy_range<T: Copy>(v: &Vec<T>, lo: usize, hi: usize) -> (r: Vec<T>)
    requires
        lo <= hi <= v.len(),
    ensures
        r@ == v@.subrange(lo as int, hi as int),
{
    let mut r: Vec<T> = Vec::with_capacity(hi - lo);
    let mut i: usize = lo;
    while i < hi
        invariant
            lo <= i <= hi <= v.len(),
            r@ == v@.subrange(lo as int, i as int),
        decreases hi - i,
    {
        r.push(v[i]);
        i = i + 1;
    }
    r
}

impl Column {
    /// Number of rows.
    pub open spec fn rows(self) -> nat {
        match self {
            Column::Numeric(v) => v@.len(),
            Column::Categorical(v) => v@.len(),
        }
    }

    /// `self` is the rows `lo..hi` of `other`.
    pub open spec fn is_range_of(self, other: Column, lo: int, hi: int) -> bool {
        match (self, other) {
            (Column::Numeric(v), Column::Numeric(w)) => v@ == w@.subrange(lo, hi),
            (Column::Categorical(v), Column::Categorical(w)) => v@ == w@.subrange(lo, hi),
            _ => false,
        }
    }

    pub fn len(&self) -> (n: usize)
        ensures
            n == self.rows(),
    {
        match self {
            Column::Numeric(v) => v.len(),
            Column::Categorical(v) => v.len(),
        }
    }

    pub fn is_empty(&self) -> (r: bool)
        ensures
            r == (self.rows() == 0),
    {
        self.len() == 0
    }

    fn range(&self, lo: usize, hi: usize) -> (r: Column)
        requires
            lo <= hi <= self.rows(),
        ensures
            r.is_range_of(*self, lo as int, hi as int),
    {
        match self {
            Column::Numeric(v) => Column::Numeric(copy_range(v, lo, hi)),
            Column::Categorical(v) => Column::Categorical(copy_range(v, lo, hi)),
        }
    }
}

/// A fully materialized dataset: aligned feature columns, labels, weights.
#[derive(Clone, Debug)]
pub struct Dataset {
    pub schema: Schema,
    pub columns: Vec<Column>,
    pub labels: Vec<u8>,
    /// Per-row class weight `c_i` (1.0 if unset; positives often up-weighted).
    pub weights: Vec<F32>,
}

impl Dataset {
    /// One column per feature of the schema, and one label and one weight per row.
    pub open spec fn wf(self) -> bool {
        &&& self.columns.len() == self.schema.kinds.len()
        &&& forall|i: int|
            0 <= i < self.columns.len() ==> (#[trigger] self.columns[i]).rows() == self.labels.len()
        &&& self.weights.len() == self.labels.len()
    }

    /// Every column holds what the schema says of it.
    pub open spec fn kinds_match(self) -> bool {
        forall|i: int|
            0 <= i < self.columns.len() ==> (#[trigger] self.columns[i] is Numeric
                <==> self.schema.kinds[i] == FeatureKind::Numeric)
    }

    /// `self` is the rows `lo..hi` of `other`.
    pub open spec fn is_range_of(self, other: Dataset, lo: int, hi: int) -> bool {
        &&& self.schema.same_as(other.schema)
        &&& self.columns.len() == other.columns.len()
        &&& forall|i: int|
            0 <= i < self.columns.len() ==> (#[trigger] self.columns[i]).is_range_of(
                other.columns[i],
                lo,
                hi,
            )
        &&& self.labels@ == other.labels@.subrange(lo, hi)
        &&& self.weights@ == other.weights@.subrange(lo, hi)
    }

    pub fn new(schema: Schema, columns: Vec<Column>, labels: Vec<u8>) -> (r: Self)
        requires
            columns.len() == schema.kinds.len(),
            forall|i: int|
                0 <= i < columns.len() ==> (#[trigger] columns[i]).rows() == labels.len(),
        ensures
            r.schema == schema,
            r.columns == columns,
            r.labels == labels,
            r.weights@ == Seq::new(labels@.len(), |i: int| F32::one()),
            r.wf(),
    {
        let mut weights: Vec<F32> = Vec::with_capacity(labels.len());
        let mut i: usize = 0;
        while i < labels.len()
            invariant
                i <= labels.len(),
                weights@ == Seq::new(i as nat, |k: int| F32::one()),
            decreases labels.len() - i,
        {
            weights.push(F32::one());
            i = i + 1;
        }
        Dataset { schema, columns, labels, weights }
    }

    pub fn n_rows(&self) -> (n: usize)
        ensures
            n == self.labels.len(),
    {
        self.labels.len()
    }

    /// Set per-row weights so positives carry `pos_weight` and negatives 1.0.
    pub fn set_class_weights(&mut self, pos_weight: F32)
        ensures
            final(self).schema == old(self).schema,
            final(self).columns == old(self).columns,
            final(self).labels == old(self).labels,
            final(self).weights.len() == old(self).weights.len(),
            forall|i: int|
                0 <= i < old(self).weights.len() ==> #[trigger] final(self).weights[i] == (if i
                    >= old(self).labels.len() {
                    old(self).weights[i]
                } else if old(self).labels[i] == 1 {
                    pos_weight
                } else {
                    F32::one()
                }),
    {
        let mut i: usize = 0;
        while i < self.weights.len() && i < self.labels.len()
            invariant
                i <= self.weights.len(),
                self.schema == old(self).schema,
                self.columns == old(self).columns,
                self.labels == old(self).labels,
                self.weights.len() == old(self).weights.len(),
                forall|k: int|
                    0 <= k < self.weights.len() ==> #[trigger] self.weights[k] == (if k >= i || k
                        >= old(self).labels.len() {
                        old(self).weights[k]
                    } else if old(self).labels[k] == 1 {
                        pos_weight
                    } else {
                        F32::one()
                    }),
            decreases self.weights.len() - i,
        {
            self.weights[i] = if self.labels[i] == 1 {
                pos_weight
            } else {
                F32::one()
            };
            i = i + 1;
        }
    }

    /// Temporal split: first `train_frac` of rows → train, remainder → valid. `None` where
    /// that asks for more rows than there are.
    pub fn temporal_split<A: Arith>(&self, train_frac: F64) -> (r: Option<(Dataset, Dataset)>)
        requires
            self.wf(),
        ensures
            match r {
                Some((train, valid)) => exists|k: usize| #[trigger]
                    is_train_count::<A>(self.labels@.len() as int, train_frac, k) && k
                        <= self.labels.len() && train.is_range_of(*self, 0, k as int)
                        && valid.is_range_of(*self, k as int, self.labels@.len() as int)
                        && train.wf() && valid.wf(),
                None => exists|k: usize| #[trigger]
                    is_train_count::<A>(self.labels@.len() as int, train_frac, k) && k
                        > self.labels.len(),
            },
    {
        let n: usize = self.n_rows();
        let x = A::from_int(n as i128);
        let y = A::prod(x, train_frac);
        let z = A::round(y);
        let n_train: usize = A::to_index(z);
        proof {
            assert(is_int::<A>(n as int, x) && is_prod::<A>(x, train_frac, y) && is_round::<A>(y, z));
            assert(is_train_count::<A>(n as int, train_frac, n_train));
        }
        if n_train > n {
            return None;
        }
        Some((self.slice(0, n_train), self.slice(n_train, n)))
    }

    pub(crate) fn slice(&self, lo: usize, hi: usize) -> (r: Dataset)
        requires
            self.wf(),
            lo <= hi <= self.labels.len(),
        ensures
            r.is_range_of(*self, lo as int, hi as int),
            r.wf(),
    {
        let mut columns: Vec<Column> = Vec::with_capacity(self.columns.len());
        let mut i: usize = 0;
        while i < self.columns.len()
            invariant
                self.wf(),
                lo <= hi <= self.labels.len(),
                i <= self.columns.len(),
                columns.len() == i,
                forall|k: int|
                    0 <= k < i ==> (#[trigger] columns[k]).is_range_of(
                        self.columns[k],
                        lo as int,
                        hi as int,
                    ),
            decreases self.columns.len() - i,
        {
            columns.push(self.columns[i].range(lo, hi));
            i = i + 1;
        }
        let r = Dataset {
            schema: self.schema.copied(),
            columns,
            labels: copy_range(&self.labels, lo, hi),
            weights: copy_range(&self.weights, lo, hi),
        };
        proof {
            assert forall|k: int| 0 <= k < r.columns.len() implies (#[trigger] r.columns[k]).rows()
                == r.labels.len() by {
                assert(self.columns[k].rows() == self.labels.len());
            }
        }
        r
    }
}

/// `k` is the number of training rows among `n`: `n * frac`, rounded.
pub open spec fn is_train_count<A: Arith>(n: int, frac: F64, k: usize) -> bool {
    exists|x: F64, y: F64, z: F64| #[trigger]
        is_int::<A>(n, x) && #[trigger] is_prod::<A>(x, frac, y) && #[trigger] is_round::<A>(y, z)
            && is_index::<A>(z, k)
}

/// The two parts of a split at `k` are the dataset: no row is lost, repeated or moved.
pub proof fn lemma_split_keeps_rows(ds: Dataset, train: Dataset, valid: Dataset, k: int)
    requires
        ds.wf(),
        0 <= k <= ds.labels.len(),
        train.is_range_of(ds, 0, k),
        valid.is_range_of(ds, k, ds.labels@.len() as int),
    ensures
        train.labels@ + valid.labels@ == ds.labels@,
        train.weights@ + valid.weights@ == ds.weights@,
        forall|i: int|
            #![trigger ds.columns[i]]
            0 <= i < ds.columns.len() ==> match (train.columns[i], valid.columns[i], ds.columns[i]) {
                (Column::Numeric(a), Column::Numeric(b), Column::Numeric(c)) => a@ + b@ == c@,
                (Column::Categorical(a), Column::Categorical(b), Column::Categorical(c)) => a@ + b@
                    == c@,
                _ => false,
            },
{
    let n = ds.labels@.len() as int;
    assert(train.labels@ + valid.labels@ =~= ds.labels@);
    assert(train.weights@ + valid.weights@ =~= ds.weights@);
    assert forall|i: int| #![trigger ds.columns[i]] 0 <= i < ds.columns.len() implies match (
        train.columns[i],
        valid.columns[i],
        ds.columns[i],
    ) {
        (Column::Numeric(a), Column::Numeric(b), Column::Numeric(c)) => a@ + b@ == c@,
        (Column::Categorical(a), Column::Categorical(b), Column::Categorical(c)) => a@ + b@ == c@,
        _ => false,
    } by {
        assert(ds.columns[i].rows() == n);
        assert(train.columns[i].is_range_of(ds.columns[i], 0, k));
        assert(valid.columns[i].is_range_of(ds.columns[i], k, n));
        match (train.columns[i], valid.columns[i], ds.columns[i]) {
            (Column::Numeric(a), Column::Numeric(b), Column::Numeric(c)) => {
                assert(a@ + b@ =~= c@);
            },
            (Column::Categorical(a), Column::Categorical(b), Column::Categorical(c)) => {
                assert(a@ + b@ =~= c@);
            },
            _ => {},
        }
    }
}

/// A tiny deterministic xorshift generator so the synthetic data is fully reproducible.
#[derive(Clone)]
pub struct Rng {
    state: u64,
}

/// One step of the generator.
pub open spec fn xorshift(x: u64) -> u64 {
    let a = x ^ (x << 13);
    let b = a ^ (a >> 7);
    b ^ (b << 17)
}

/// The state after `k` draws from state `s`; also the value of the `k`-th draw.
pub open spec fn draw(s: u64, k: nat) -> u64
    decreases k,
{
    if k == 0 {
        s
    } else {
        xorshift(draw(s, (k - 1) as nat))
    }
}

/// `r` is the number `(x >> 40) / 2^24`, in `[0, 1)`.
pub open spec fn is_uniform(x: u64, r: F32) -> bool {
    &&& !r.negative()
    &&& r.spec_is_finite()
    &&& r.units() == (x >> 40) as int * pow2(125)
}

/// `r` is six uniform draws from state `s`, added up in order.
pub open spec fn is_six_draws<A: Arith>(s: u64, r: F32) -> bool {
    runs(F32::zero(), 6, add_draw::<A>(s), r)
}

/// Adding the next uniform draw.
pub open spec fn add_draw<A: Arith>(s: u64) -> spec_fn(int, F32, F32) -> bool {
    |i: int, a: F32, b: F32|
        exists|u: F32| #[trigger] is_uniform(draw(s, (i + 1) as nat), u) && is_sum32::<A>(a, u, b)
}

/// `r` is an approximately normal draw from state `s`: six uniform draws added up, less
/// three, times the square root of two.
pub open spec fn is_normal<A: Arith>(s: u64, r: F32) -> bool {
    exists|t: F32, d: F32| #[trigger]
        is_six_draws::<A>(s, t) && #[trigger] is_diff32::<A>(t, F32 { bits: 0x4040_0000 }, d)
            && is_prod32::<A>(d, F32 { bits: 0x3fb5_04f3 }, r)
}

impl Rng {
    /// The state.
    pub closed spec fn view(&self) -> u64 {
        self.state
    }

    pub fn new(seed: u64) -> (r: Self)
        ensures
            r@ == seed | 1,
            r@ != 0,
    {
        proof {
            assert(seed | 1 != 0) by (bit_vector);
        }
        Rng { state: seed | 1 }
    }

    #[inline]
    pub fn next_u64(&mut self) -> (r: u64)
        ensures
            r == xorshift(old(self)@),
            final(self)@ == r,
    {
        let mut x: u64 = self.state;
        x = x ^ (x << 13);
        x = x ^ (x >> 7);
        x = x ^ (x << 17);
        self.state = x;
        x
    }

    /// Uniform in [0, 1).
    #[inline]
    pub fn next_f32(&mut self) -> (r: F32)
        ensures
            is_uniform(xorshift(old(self)@), r),
            final(self)@ == xorshift(old(self)@),
            F32::zero().le(r) && r.lt(F32::one()),
    {
        let x: u64 = self.next_u64();
        proof {
            assert(x >> 40 < 0x100_0000) by (bit_vector);
        }
        let r = F32::from_fraction((x >> 40) as u32);
        proof {
            lemma_uniform_below_one(x, r);
        }
        r
    }

    /// Approx standard normal via sum of 6 uniforms (Irwin–Hall, centered).
    pub fn next_normal<A: Arith>(&mut self) -> (r: F32)
        ensures
            is_normal::<A>(old(self)@, r),
            final(self)@ == draw(old(self)@, 6),
    {
        let ghost s0 = self@;
        let mut s: F32 = F32::zero();
        let mut i: usize = 0;
        proof {
            lemma_runs_start(F32::zero(), add_draw::<A>(s0));
        }
        while i < 6
            invariant
                i <= 6,
                runs(F32::zero(), i as nat, add_draw::<A>(s0), s),
                self@ == draw(s0, i as nat),
            decreases 6 - i,
        {
            let u = self.next_f32();
            let t = A::sum32(s, u);
            proof {
                assert(draw(s0, (i + 1) as nat) == xorshift(draw(s0, i as nat)));
                assert(is_uniform(draw(s0, (i + 1) as nat), u) && is_sum32::<A>(s, u, t));
                assert(add_draw::<A>(s0)(i as int, s, t));
                lemma_runs_next(F32::zero(), i as nat, add_draw::<A>(s0), s, t);
            }
            s = t;
            i = i + 1;
        }
        let d = A::diff32(s, F32 { bits: 0x4040_0000 });
        let r = A::prod32(d, F32 { bits: 0x3fb5_04f3 });
        proof {
            assert(is_six_draws::<A>(s0, s) && is_diff32::<A>(s, F32 { bits: 0x4040_0000 }, d));
        }
        r
    }

    /// A value below `n`.
    pub fn below(&mut self, n: u64) -> (r: u64)
        requires
            n > 0,
        ensures
            r == xorshift(old(self)@) % n,
            r < n,
            final(self)@ == xorshift(old(self)@),
    {
        self.next_u64() % n
    }
}

proof fn lemma_uniform_below_one(x: u64, r: F32)
    requires
        is_uniform(x, r),
    ensures
        F32::zero().le(r) && r.lt(F32::one()),
{
    let one = F32::one();
    assert(x >> 40 < 0x100_0000) by (bit_vector);
    let k = (x >> 40) as int;
    vstd::arithmetic::power2::lemma2_to64();
    vstd::arithmetic::power2::lemma_pow2_pos(125);
    assert(one.units() == 0x80_0000 * pow2(126)) by {
        assert(0x3f80_0000int / 0x80_0000 == 127);
        assert(0x3f80_0000int % 0x80_0000 == 0);
    }
    vstd::arithmetic::power2::lemma_pow2_unfold(126);
    assert(k * pow2(125) < 0x80_0000 * (2 * pow2(125)) && 0 <= k * pow2(125)) by (nonlinear_arith)
        requires
            0 <= k < 0x100_0000,
            pow2(125) > 0,
    ;
    crate::float::lemma_f32_order_is_numeric(r, one);
    crate::float::lemma_f32_order_is_numeric(F32::zero(), r);
    assert(F32::zero().units() == 0);
}

/// The generator never reaches the state in which it would stop: from a nonzero state
/// every draw is nonzero.
pub proof fn lemma_draws_nonzero(s: u64, k: nat)
    requires
        s != 0,
    ensures
        draw(s, k) != 0,
    decreases k,
{
    if k > 0 {
        let x = draw(s, (k - 1) as nat);
        lemma_draws_nonzero(s, (k - 1) as nat);
        let a = x ^ (x << 13);
        let b = a ^ (a >> 7);
        assert(x != 0 ==> x ^ (x << 13) != 0) by (bit_vector);
        assert(a != 0 ==> a ^ (a >> 7) != 0) by (bit_vector);
        assert(b != 0 ==> b ^ (b << 17) != 0) by (bit_vector);
    }
}

/// Drawing `a` times and then `b` times is drawing `a + b` times.
pub proof fn lemma_draw_adds(s: u64, a: nat, b: nat)
    ensures
        draw(draw(s, a), b) == draw(s, a + b),
    decreases b,
{
    if b > 0 {
        lemma_draw_adds(s, a, (b - 1) as nat);
        assert((a + b - 1) as nat == a + (b - 1) as nat);
    }
}

/// What one synthetic row stores: ten numeric values, ten bounded and five high-card
/// categories, and the label.
pub struct SyntheticRow {
    pub num: Vec<F32>,
    pub bcat: Vec<i64>,
    pub hcat: Vec<i64>,
    pub label: u8,
}

/// `t` is the `i`-th of the five terms of the true log-odds: nonlinear in the first
/// numeric value, an interaction of the second with the first bounded category, linear in
/// the third, a step in the second bounded category, and the risk of the id.
pub open spec fn is_log_odds_term<A: Arith>(
    num: Seq<F32>,
    cat0: u64,
    cat1: u64,
    risk: F32,
    i: int,
    t: F32,
) -> bool {
    if i == 0 {
        exists|q: F32, d: F32| #[trigger]
            is_prod32::<A>(num[0], num[0], q) && #[trigger] is_diff32::<A>(q, F32::one(), d)
                && is_prod32::<A>(F32 { bits: 0x3f4c_cccd }, d, t)
    } else if i == 1 {
        exists|m: F32| #[trigger]
            is_prod32::<A>(F32 { bits: 0x3f8c_cccd }, num[1], m) && is_prod32::<A>(
                m,
                if cat0 % 2 == 0 {
                    F32::one()
                } else {
                    F32::one().spec_negated()
                },
                t,
            )
    } else if i == 2 {
        is_prod32::<A>(F32 { bits: 0x3f19_999a }, num[2], t)
    } else if i == 3 {
        t == if cat1 < 2 {
            F32 { bits: 0x3fa6_6666 }
        } else {
            F32::zero()
        }
    } else {
        t == risk
    }
}

/// Adding the next term of the log-odds.
pub open spec fn add_log_odds_term<A: Arith>(
    num: Seq<F32>,
    cat0: u64,
    cat1: u64,
    risk: F32,
) -> spec_fn(int, F32, F32) -> bool {
    |i: int, a: F32, b: F32|
        exists|t: F32| #[trigger]
            is_log_odds_term::<A>(num, cat0, cat1, risk, i, t) && is_sum32::<A>(a, t, b)
}

/// `s` is the true log-odds of a row: -3.2 and the five terms, added up in order.
pub open spec fn is_target_log_odds<A: Arith>(
    num: Seq<F32>,
    cat0: u64,
    cat1: u64,
    risk: F32,
    s: F32,
) -> bool {
    runs(F32 { bits: 0xc04c_cccd }, 5, add_log_odds_term::<A>(num, cat0, cat1, risk), s)
}

fn log_odds_term<A: Arith>(num: &Vec<F32>, cat0: u64, cat1: u64, risk: F32, i: usize) -> (t: F32)
    requires
        num.len() >= 3,
    ensures
        is_log_odds_term::<A>(num@, cat0, cat1, risk, i as int, t),
{
    if i == 0 {
        let q = A::prod32(num[0], num[0]);
        let d = A::diff32(q, F32::one());
        let t = A::prod32(F32 { bits: 0x3f4c_cccd }, d);
        assert(is_prod32::<A>(num@[0], num@[0], q) && is_diff32::<A>(q, F32::one(), d));
        t
    } else if i == 1 {
        let m = A::prod32(F32 { bits: 0x3f8c_cccd }, num[1]);
        assert(is_prod32::<A>(F32 { bits: 0x3f8c_cccd }, num@[1], m));
        A::prod32(
            m,
            if cat0 % 2 == 0 {
                F32::one()
            } else {
                F32::one().negated()
            },
        )
    } else if i == 2 {
        A::prod32(F32 { bits: 0x3f19_999a }, num[2])
    } else if i == 3 {
        if cat1 < 2 {
            F32 { bits: 0x3fa6_6666 }
        } else {
            F32::zero()
        }
    } else {
        risk
    }
}

fn target_log_odds<A: Arith>(num: &Vec<F32>, cat0: u64, cat1: u64, risk: F32) -> (s: F32)
    requires
        num.len() >= 3,
    ensures
        is_target_log_odds::<A>(num@, cat0, cat1, risk, s),
{
    let ghost step = add_log_odds_term::<A>(num@, cat0, cat1, risk);
    let mut s: F32 = F32 { bits: 0xc04c_cccd };
    let mut i: usize = 0;
    proof {
        lemma_runs_start(s, step);
    }
    while i < 5
        invariant
            i <= 5,
            num.len() >= 3,
            step == add_log_odds_term::<A>(num@, cat0, cat1, risk),
            runs(F32 { bits: 0xc04c_cccd }, i as nat, step, s),
        decreases 5 - i,
    {
        let t = log_odds_term::<A>(num, cat0, cat1, risk, i);
        let u = A::sum32(s, t);
        proof {
            assert(is_log_odds_term::<A>(num@, cat0, cat1, risk, i as int, t) && is_sum32::<A>(
                s,
                t,
                u,
            ));
            assert(step(i as int, s, u));
            lemma_runs_next(F32 { bits: 0xc04c_cccd }, i as nat, step, s, u);
        }
        s = u;
        i = i + 1;
    }
    s
}

/// `stored` is `v`, or missing where the uniform draw `x` is below 0.03.
pub open spec fn is_masked_num(x: u64, v: F32, stored: F32) -> bool {
    exists|u: F32| #[trigger]
        is_uniform(x, u) && stored == if u.lt(F32 { bits: 0x3cf5_c28f }) {
            F32 { bits: 0x7fc0_0000 }
        } else {
            v
        }
}

/// `stored` is `v`, or missing where the uniform draw `x` is below 0.02.
pub open spec fn is_masked_cat(x: u64, v: u64, stored: i64) -> bool {
    exists|u: F32| #[trigger]
        is_uniform(x, u) && stored == if u.lt(F32 { bits: 0x3ca3_d70a }) {
            MISSING_CAT as int
        } else {
            v as int
        }
}

/// `label` is one where the uniform draw `x` is below the probability of log-odds `s`.
pub open spec fn is_drawn_label<A: Arith>(x: u64, s: F32, label: u8) -> bool {
    exists|p: F32, u: F32| #[trigger]
        is_logistic32::<A>(s, p) && #[trigger] is_uniform(x, u) && label == if u.lt(p) {
            1u8
        } else {
            0u8
        }
}

/// `row` is drawn from state `s`, with 96 draws: 60 for the ten numeric values, 10 and 5
/// for the categories, 1 for the label, and 20 to decide which values go missing.
pub open spec fn is_synthetic_row<A: Arith>(s: u64, risk: Seq<F32>, row: SyntheticRow) -> bool {
    &&& row.num.len() == 10
    &&& row.bcat.len() == 10
    &&& row.hcat.len() == 5
    &&& exists|num: Seq<F32>, odds: F32|
        {
            &&& num.len() == 10
            &&& forall|j: int| 0 <= j < 10 ==> is_normal::<A>(draw(s, (6 * j) as nat), #[trigger] num[j])
            &&& #[trigger] is_target_log_odds::<A>(
                num,
                draw(s, 61) % 8,
                draw(s, 62) % 8,
                risk[(draw(s, 71) % 5000) as int],
                odds,
            )
            &&& is_drawn_label::<A>(draw(s, 76), odds, row.label)
            &&& forall|j: int|
                0 <= j < 10 ==> is_masked_num(draw(s, (77 + j) as nat), num[j], #[trigger] row.num[j])
        }
    &&& forall|j: int|
        0 <= j < 10 ==> is_masked_cat(
            draw(s, (87 + j) as nat),
            draw(s, (61 + j) as nat) % 8,
            #[trigger] row.bcat[j],
        )
    &&& forall|j: int| 0 <= j < 5 ==> #[trigger] row.hcat[j] == draw(s, (71 + j) as nat) % 5000
}

fn synthetic_row<A: Arith>(rng: &mut Rng, risk: &Vec<F32>) -> (row: SyntheticRow)
    requires
        risk.len() == 5000,
    ensures
        is_synthetic_row::<A>(old(rng)@, risk@, row),
        final(rng)@ == draw(old(rng)@, 96),
{
    let ghost s = rng@;
    let mut num: Vec<F32> = Vec::with_capacity(10);
    let mut j: usize = 0;
    while j < 10
        invariant
            j <= 10,
            num.len() == j,
            rng@ == draw(s, (6 * j) as nat),
            forall|k: int| 0 <= k < j ==> is_normal::<A>(draw(s, (6 * k) as nat), #[trigger] num[k]),
        decreases 10 - j,
    {
        proof {
            lemma_draw_adds(s, (6 * j) as nat, 6);
        }
        let v = rng.next_normal::<A>();
        num.push(v);
        j = j + 1;
    }
    let mut bcat: Vec<u64> = Vec::with_capacity(10);
    j = 0;
    while j < 10
        invariant
            j <= 10,
            bcat.len() == j,
            rng@ == draw(s, (60 + j) as nat),
            forall|k: int| 0 <= k < j ==> #[trigger] bcat[k] == draw(s, (61 + k) as nat) % 8,
        decreases 10 - j,
    {
        proof {
            assert(draw(s, (61 + j) as nat) == xorshift(draw(s, (60 + j) as nat)));
        }
        let v: u64 = rng.below(8);
        bcat.push(v);
        j = j + 1;
    }
    let mut hcat: Vec<i64> = Vec::with_capacity(5);
    j = 0;
    while j < 5
        invariant
            j <= 5,
            hcat.len() == j,
            rng@ == draw(s, (70 + j) as nat),
            forall|k: int| 0 <= k < j ==> #[trigger] hcat[k] == draw(s, (71 + k) as nat) % 5000,
        decreases 5 - j,
    {
        proof {
            assert(draw(s, (71 + j) as nat) == xorshift(draw(s, (70 + j) as nat)));
        }
        let v: u64 = rng.below(5000);
        hcat.push(v as i64);
        j = j + 1;
    }
    let odds = target_log_odds::<A>(&num, bcat[0], bcat[1], risk[hcat[0] as usize]);
    let p = logistic32::<A>(odds);
    proof {
        assert(draw(s, 76) == xorshift(draw(s, 75)));
    }
    let u = rng.next_f32();
    let label: u8 = if u.less(p) {
        1
    } else {
        0
    };
    assert(is_logistic32::<A>(odds, p) && is_uniform(draw(s, 76), u));
    let mut num_out: Vec<F32> = Vec::with_capacity(10);
    j = 0;
    while j < 10
        invariant
            j <= 10,
            num.len() == 10,
            num_out.len() == j,
            rng@ == draw(s, (76 + j) as nat),
            forall|k: int|
                0 <= k < j ==> is_masked_num(draw(s, (77 + k) as nat), num[k], #[trigger] num_out[k]),
        decreases 10 - j,
    {
        proof {
            assert(draw(s, (77 + j) as nat) == xorshift(draw(s, (76 + j) as nat)));
        }
        let w = rng.next_f32();
        let stored = if w.less(F32 { bits: 0x3cf5_c28f }) {
            F32 { bits: 0x7fc0_0000 }
        } else {
            num[j]
        };
        assert(is_uniform(draw(s, (77 + j) as nat), w));
        num_out.push(stored);
        j = j + 1;
    }
    let mut bcat_out: Vec<i64> = Vec::with_capacity(10);
    j = 0;
    while j < 10
        invariant
            j <= 10,
            bcat.len() == 10,
            bcat_out.len() == j,
            rng@ == draw(s, (86 + j) as nat),
            forall|k: int| 0 <= k < 10 ==> #[trigger] bcat[k] == draw(s, (61 + k) as nat) % 8,
            forall|k: int|
                0 <= k < j ==> is_masked_cat(
                    draw(s, (87 + k) as nat),
                    draw(s, (61 + k) as nat) % 8,
                    #[trigger] bcat_out[k],
                ),
        decreases 10 - j,
    {
        proof {
            assert(draw(s, (87 + j) as nat) == xorshift(draw(s, (86 + j) as nat)));
        }
        let w = rng.next_f32();
        let stored: i64 = if w.less(F32 { bits: 0x3ca3_d70a }) {
            MISSING_CAT
        } else {
            bcat[j] as i64
        };
        assert(is_uniform(draw(s, (87 + j) as nat), w));
        bcat_out.push(stored);
        j = j + 1;
    }
    let row = SyntheticRow { num: num_out, bcat: bcat_out, hcat, label };
    proof {
        assert(is_target_log_odds::<A>(
            num@,
            draw(s, 61) % 8,
            draw(s, 62) % 8,
            risk@[(draw(s, 71) % 5000) as int],
            odds,
        ));
    }
    row
}

/// The decimal digit `i`.
pub open spec fn digit_text(i: int) -> Seq<char> {
    if i == 0 {
        "0"@
    } else if i == 1 {
        "1"@
    } else if i == 2 {
        "2"@
    } else if i == 3 {
        "3"@
    } else if i == 4 {
        "4"@
    } else if i == 5 {
        "5"@
    } else if i == 6 {
        "6"@
    } else if i == 7 {
        "7"@
    } else if i == 8 {
        "8"@
    } else {
        "9"@
    }
}

fn digit(i: usize) -> (r: &'static str)
    requires
        i < 10,
    ensures
        r@ == digit_text(i as int),
{
    if i == 0 {
        "0"
    } else if i == 1 {
        "1"
    } else if i == 2 {
        "2"
    } else if i == 3 {
        "3"
    } else if i == 4 {
        "4"
    } else if i == 5 {
        "5"
    } else if i == 6 {
        "6"
    } else if i == 7 {
        "7"
    } else if i == 8 {
        "8"
    } else {
        "9"
    }
}

/// The name of synthetic feature `i`.
pub open spec fn synthetic_name(i: int) -> Seq<char> {
    if i < 10 {
        "num_"@ + digit_text(i)
    } else if i < 20 {
        "bcat_"@ + digit_text(i - 10)
    } else {
        "hcat_"@ + digit_text(i - 20)
    }
}

/// The kind of synthetic feature `i`.
pub open spec fn synthetic_kind(i: int) -> FeatureKind {
    if i < 10 {
        FeatureKind::Numeric
    } else if i < 20 {
        FeatureKind::BoundedCat
    } else {
        FeatureKind::HighCardCat
    }
}

/// `column` is feature `i` of the rows.
pub open spec fn is_synthetic_column(rows: Seq<SyntheticRow>, i: int, column: Column) -> bool {
    match column {
        Column::Numeric(v) => {
            &&& i < 10
            &&& v.len() == rows.len()
            &&& forall|r: int| 0 <= r < rows.len() ==> #[trigger] v[r] == rows[r].num[i]
        },
        Column::Categorical(v) => {
            &&& i >= 10
            &&& v.len() == rows.len()
            &&& forall|r: int|
                0 <= r < rows.len() ==> #[trigger] v[r] == if i < 20 {
                    rows[r].bcat[i - 10]
                } else {
                    rows[r].hcat[i - 20]
                }
        },
    }
}

/// `risk` is the latent risk of an id: 0.9 times a normal draw from state `s`.
pub open spec fn is_risk<A: Arith>(s: u64, risk: F32) -> bool {
    exists|z: F32| #[trigger]
        is_normal::<A>(s, z) && is_prod32::<A>(z, F32 { bits: 0x3f66_6666 }, risk)
}

/// `rows` are drawn one after the other, after the risks of the 5000 ids, from the seed.
pub open spec fn are_synthetic_rows<A: Arith>(
    seed: u64,
    risk: Seq<F32>,
    rows: Seq<SyntheticRow>,
) -> bool {
    &&& risk.len() == 5000
    &&& forall|k: int|
        0 <= k < 5000 ==> is_risk::<A>(draw(seed | 1, (6 * k) as nat), #[trigger] risk[k])
    &&& forall|r: int|
        0 <= r < rows.len() ==> is_synthetic_row::<A>(
            draw(seed | 1, (30000 + 96 * r) as nat),
            risk,
            #[trigger] rows[r],
        )
}

/// `ds` is the synthetic benchmark of `n` rows.
pub open spec fn is_synthetic<A: Arith>(n: int, seed: u64, ds: Dataset) -> bool {
    &&& ds.schema.names.len() == 25
    &&& ds.schema.kinds.len() == 25
    &&& ds.columns.len() == 25
    &&& forall|i: int| 0 <= i < 25 ==> #[trigger] ds.schema.names[i]@ == synthetic_name(i)
    &&& forall|i: int| 0 <= i < 25 ==> #[trigger] ds.schema.kinds[i] == synthetic_kind(i)
    &&& ds.weights@ == Seq::new(n as nat, |i: int| F32::one())
    &&& exists|risk: Seq<F32>, rows: Seq<SyntheticRow>|
        {
            &&& rows.len() == n
            &&& #[trigger] are_synthetic_rows::<A>(seed, risk, rows)
            &&& forall|i: int| 0 <= i < 25 ==> is_synthetic_column(rows, i, #[trigger] ds.columns[i])
            &&& ds.labels.len() == n
            &&& forall|r: int| 0 <= r < n ==> #[trigger] ds.labels[r] == rows[r].label
        }
}

fn synthetic_schema() -> (r: Schema)
    ensures
        r.names.len() == 25,
        r.kinds.len() == 25,
        forall|i: int| 0 <= i < 25 ==> #[trigger] r.names[i]@ == synthetic_name(i),
        forall|i: int| 0 <= i < 25 ==> #[trigger] r.kinds[i] == synthetic_kind(i),
{
    let mut names: Vec<String> = Vec::new();
    let mut kinds: Vec<FeatureKind> = Vec::new();
    let mut i: usize = 0;
    while i < 25
        invariant
            i <= 25,
            names.len() == i,
            kinds.len() == i,
            forall|k: int| 0 <= k < i ==> #[trigger] names[k]@ == synthetic_name(k),
            forall|k: int| 0 <= k < i ==> #[trigger] kinds[k] == synthetic_kind(k),
        decreases 25 - i,
    {
        if i < 10 {
            names.push(String::from_str("num_").concat(digit(i)));
            kinds.push(FeatureKind::Numeric);
        } else if i < 20 {
            names.push(String::from_str("bcat_").concat(digit(i - 10)));
            kinds.push(FeatureKind::BoundedCat);
        } else {
            names.push(String::from_str("hcat_").concat(digit(i - 20)));
            kinds.push(FeatureKind::HighCardCat);
        }
        i = i + 1;
    }
    Schema::new(names, kinds)
}

fn synthetic_column(rows: &Vec<SyntheticRow>, i: usize) -> (column: Column)
    requires
        i < 25,
        forall|r: int|
            0 <= r < rows.len() ==> (#[trigger] rows[r]).num.len() == 10 && rows[r].bcat.len() == 10
                && rows[r].hcat.len() == 5,
    ensures
        is_synthetic_column(rows@, i as int, column),
{
    let mut num: Vec<F32> = Vec::new();
    let mut cat: Vec<i64> = Vec::new();
    let mut r: usize = 0;
    while r < rows.len()
        invariant
            i < 25,
            forall|r: int|
                0 <= r < rows.len() ==> (#[trigger] rows[r]).num.len() == 10 && rows[r].bcat.len()
                    == 10 && rows[r].hcat.len() == 5,
            r <= rows.len(),
            i < 10 ==> num.len() == r,
            i >= 10 ==> cat.len() == r,
            i < 10 ==> forall|k: int| 0 <= k < r ==> #[trigger] num[k] == rows[k].num[i as int],
            i >= 10 ==> forall|k: int|
                0 <= k < r ==> #[trigger] cat[k] == if i < 20 {
                    rows[k].bcat[i - 10]
                } else {
                    rows[k].hcat[i - 20]
                },
        decreases rows.len() - r,
    {
        if i < 10 {
            num.push(rows[r].num[i]);
        } else if i < 20 {
            cat.push(rows[r].bcat[i - 10]);
        } else {
            cat.push(rows[r].hcat[i - 20]);
        }
        r = r + 1;
    }
    if i < 10 {
        Column::Numeric(num)
    } else {
        Column::Categorical(cat)
    }
}

/// Generate a synthetic imbalanced benchmark dataset:
/// 10 numeric + 10 bounded categorical + 5 high-cardinality categorical.
///
/// The target depends on a nonlinear function of two numerics, an interaction
/// between a numeric and a bounded category, and a per-id signal carried by one
/// high-card feature — exactly the structure a coarse partition + linear leaves
/// should capture. Some values are randomly set missing.
pub fn make_synthetic<A: Arith>(n_rows: usize, seed: u64) -> (ds: Dataset)
    ensures
        is_synthetic::<A>(n_rows as int, seed, ds),
        ds.wf(),
        ds.kinds_match(),
{
    let mut rng = Rng::new(seed);
    let ghost s = rng@;
    let schema = synthetic_schema();
    // Latent per-id risk for the first high-card feature (stable signal).
    let mut risk: Vec<F32> = Vec::with_capacity(5000);
    let mut k: usize = 0;
    while k < 5000
        invariant
            k <= 5000,
            s == seed | 1,
            risk.len() == k,
            rng@ == draw(s, (6 * k) as nat),
            forall|i: int| 0 <= i < k ==> is_risk::<A>(draw(s, (6 * i) as nat), #[trigger] risk[i]),
        decreases 5000 - k,
    {
        proof {
            lemma_draw_adds(s, (6 * k) as nat, 6);
        }
        let z = rng.next_normal::<A>();
        let v = A::prod32(z, F32 { bits: 0x3f66_6666 });
        assert(is_normal::<A>(draw(s, (6 * k) as nat), z) && is_prod32::<A>(
            z,
            F32 { bits: 0x3f66_6666 },
            v,
        ));
        risk.push(v);
        k = k + 1;
    }
    let mut rows: Vec<SyntheticRow> = Vec::with_capacity(n_rows);
    let mut labels: Vec<u8> = Vec::with_capacity(n_rows);
    let mut r: usize = 0;
    while r < n_rows
        invariant
            r <= n_rows,
            risk.len() == 5000,
            rows.len() == r,
            labels.len() == r,
            rng@ == draw(s, (30000 + 96 * r) as nat),
            forall|i: int|
                0 <= i < r ==> is_synthetic_row::<A>(
                    draw(s, (30000 + 96 * i) as nat),
                    risk@,
                    #[trigger] rows[i],
                ),
            forall|i: int| 0 <= i < r ==> #[trigger] labels[i] == rows[i].label,
        decreases n_rows - r,
    {
        proof {
            lemma_draw_adds(s, (30000 + 96 * r) as nat, 96);
        }
        let row = synthetic_row::<A>(&mut rng, &risk);
        labels.push(row.label);
        rows.push(row);
        r = r + 1;
    }
    let mut columns: Vec<Column> = Vec::with_capacity(25);
    let mut i: usize = 0;
    while i < 25
        invariant
            i <= 25,
            columns.len() == i,
            forall|r: int|
                0 <= r < rows.len() ==> (#[trigger] rows[r]).num.len() == 10 && rows[r].bcat.len()
                    == 10 && rows[r].hcat.len() == 5,
            forall|j: int| 0 <= j < i ==> is_synthetic_column(rows@, j, #[trigger] columns[j]),
        decreases 25 - i,
    {
        columns.push(synthetic_column(&rows, i));
        i = i + 1;
    }
    proof {
        assert(are_synthetic_rows::<A>(seed, risk@, rows@));
    }
    Dataset::new(schema, columns, labels)
}

/// A draw has one uniform number.
proof fn lemma_uniform_unique(x: u64, a: F32, b: F32)
    requires
        is_uniform(x, a),
        is_uniform(x, b),
    ensures
        a == b,
{
    crate::float::lemma_f32_order_is_numeric(a, b);
    assert(a.bits == b.bits);
}

proof fn lemma_normal_unique<A: Arith>(s: u64, a: F32, b: F32)
    requires
        deterministic::<A>(),
        is_normal::<A>(s, a),
        is_normal::<A>(s, b),
    ensures
        a == b,
{
    let step = add_draw::<A>(s);
    assert forall|i: int, x: F32, y: F32, z: F32|
        0 <= i < 6 && #[trigger] step(i, x, y) && #[trigger] step(i, x, z) implies y == z by {
        let d = draw(s, (i + 1) as nat);
        let u = choose|u: F32| #[trigger] is_uniform(d, u) && is_sum32::<A>(x, u, y);
        let v = choose|u: F32| #[trigger] is_uniform(d, u) && is_sum32::<A>(x, u, z);
        lemma_uniform_unique(d, u, v);
    }
    let (t1, d1) = choose|t: F32, d: F32| #[trigger]
        is_six_draws::<A>(s, t) && #[trigger] is_diff32::<A>(t, F32 { bits: 0x4040_0000 }, d)
            && is_prod32::<A>(d, F32 { bits: 0x3fb5_04f3 }, a);
    let (t2, d2) = choose|t: F32, d: F32| #[trigger]
        is_six_draws::<A>(s, t) && #[trigger] is_diff32::<A>(t, F32 { bits: 0x4040_0000 }, d)
            && is_prod32::<A>(d, F32 { bits: 0x3fb5_04f3 }, b);
    lemma_runs_unique(F32::zero(), 6, step, t1, t2);
    assert(d1 == d2);
}

proof fn lemma_target_log_odds_unique<A: Arith>(
    num: Seq<F32>,
    cat0: u64,
    cat1: u64,
    risk: F32,
    a: F32,
    b: F32,
)
    requires
        deterministic::<A>(),
        is_target_log_odds::<A>(num, cat0, cat1, risk, a),
        is_target_log_odds::<A>(num, cat0, cat1, risk, b),
    ensures
        a == b,
{
    let step = add_log_odds_term::<A>(num, cat0, cat1, risk);
    assert forall|i: int, x: F32, y: F32, z: F32|
        0 <= i < 5 && #[trigger] step(i, x, y) && #[trigger] step(i, x, z) implies y == z by {
        let t = choose|t: F32| #[trigger]
            is_log_odds_term::<A>(num, cat0, cat1, risk, i, t) && is_sum32::<A>(x, t, y);
        let u = choose|t: F32| #[trigger]
            is_log_odds_term::<A>(num, cat0, cat1, risk, i, t) && is_sum32::<A>(x, t, z);
        if i == 0 {
            let (q1, d1) = choose|q: F32, d: F32| #[trigger]
                is_prod32::<A>(num[0], num[0], q) && #[trigger] is_diff32::<A>(q, F32::one(), d)
                    && is_prod32::<A>(F32 { bits: 0x3f4c_cccd }, d, t);
            let (q2, d2) = choose|q: F32, d: F32| #[trigger]
                is_prod32::<A>(num[0], num[0], q) && #[trigger] is_diff32::<A>(q, F32::one(), d)
                    && is_prod32::<A>(F32 { bits: 0x3f4c_cccd }, d, u);
            assert(q1 == q2);
            assert(d1 == d2);
        } else if i == 1 {
            let sign = if cat0 % 2 == 0 {
                F32::one()
            } else {
                F32::one().spec_negated()
            };
            let m1 = choose|m: F32| #[trigger]
                is_prod32::<A>(F32 { bits: 0x3f8c_cccd }, num[1], m) && is_prod32::<A>(m, sign, t);
            let m2 = choose|m: F32| #[trigger]
                is_prod32::<A>(F32 { bits: 0x3f8c_cccd }, num[1], m) && is_prod32::<A>(m, sign, u);
            assert(m1 == m2);
        }
        assert(t == u);
    }
    lemma_runs_unique(F32 { bits: 0xc04c_cccd }, 5, step, a, b);
}

proof fn lemma_label_unique<A: Arith>(x: u64, s: F32, a: u8, b: u8)
    requires
        deterministic::<A>(),
        is_drawn_label::<A>(x, s, a),
        is_drawn_label::<A>(x, s, b),
    ensures
        a == b,
{
    let (p1, u1) = choose|p: F32, u: F32| #[trigger]
        is_logistic32::<A>(s, p) && #[trigger] is_uniform(x, u) && a == if u.lt(p) {
            1u8
        } else {
            0u8
        };
    let (p2, u2) = choose|p: F32, u: F32| #[trigger]
        is_logistic32::<A>(s, p) && #[trigger] is_uniform(x, u) && b == if u.lt(p) {
            1u8
        } else {
            0u8
        };
    lemma_uniform_unique(x, u1, u2);
    crate::arith::lemma_logistic32_unique::<A>(s, p1, p2);
}

/// The rows store the same values.
pub open spec fn same_row(a: SyntheticRow, b: SyntheticRow) -> bool {
    a.num@ == b.num@ && a.bcat@ == b.bcat@ && a.hcat@ == b.hcat@ && a.label == b.label
}

proof fn lemma_row_unique<A: Arith>(s: u64, risk: Seq<F32>, a: SyntheticRow, b: SyntheticRow)
    requires
        deterministic::<A>(),
        is_synthetic_row::<A>(s, risk, a),
        is_synthetic_row::<A>(s, risk, b),
    ensures
        same_row(a, b),
{
    let (cat0, cat1) = (draw(s, 61) % 8, draw(s, 62) % 8);
    let rk = risk[(draw(s, 71) % 5000) as int];
    let (n1, o1) = choose|num: Seq<F32>, odds: F32|
        {
            &&& num.len() == 10
            &&& forall|j: int| 0 <= j < 10 ==> is_normal::<A>(draw(s, (6 * j) as nat), #[trigger] num[j])
            &&& #[trigger] is_target_log_odds::<A>(num, cat0, cat1, rk, odds)
            &&& is_drawn_label::<A>(draw(s, 76), odds, a.label)
            &&& forall|j: int|
                0 <= j < 10 ==> is_masked_num(draw(s, (77 + j) as nat), num[j], #[trigger] a.num[j])
        };
    let (n2, o2) = choose|num: Seq<F32>, odds: F32|
        {
            &&& num.len() == 10
            &&& forall|j: int| 0 <= j < 10 ==> is_normal::<A>(draw(s, (6 * j) as nat), #[trigger] num[j])
            &&& #[trigger] is_target_log_odds::<A>(num, cat0, cat1, rk, odds)
            &&& is_drawn_label::<A>(draw(s, 76), odds, b.label)
            &&& forall|j: int|
                0 <= j < 10 ==> is_masked_num(draw(s, (77 + j) as nat), num[j], #[trigger] b.num[j])
        };
    assert forall|j: int| 0 <= j < 10 implies n1[j] == n2[j] by {
        lemma_normal_unique::<A>(draw(s, (6 * j) as nat), n1[j], n2[j]);
    }
    assert(n1 =~= n2);
    lemma_target_log_odds_unique::<A>(n1, cat0, cat1, rk, o1, o2);
    lemma_label_unique::<A>(draw(s, 76), o1, a.label, b.label);
    assert forall|j: int| 0 <= j < 10 implies a.num@[j] == b.num@[j] by {
        let x = draw(s, (77 + j) as nat);
        assert(is_masked_num(x, n1[j], a.num[j]));
        assert(is_masked_num(x, n2[j], b.num[j]));
        let u = choose|u: F32| #[trigger]
            is_uniform(x, u) && a.num[j] == if u.lt(F32 { bits: 0x3cf5_c28f }) {
                F32 { bits: 0x7fc0_0000 }
            } else {
                n1[j]
            };
        let v = choose|u: F32| #[trigger]
            is_uniform(x, u) && b.num[j] == if u.lt(F32 { bits: 0x3cf5_c28f }) {
                F32 { bits: 0x7fc0_0000 }
            } else {
                n2[j]
            };
        lemma_uniform_unique(x, u, v);
    }
    assert(a.num@ =~= b.num@);
    assert forall|j: int| 0 <= j < 10 implies a.bcat@[j] == b.bcat@[j] by {
        let x = draw(s, (87 + j) as nat);
        let c = draw(s, (61 + j) as nat) % 8;
        assert(is_masked_cat(x, c, a.bcat[j]));
        assert(is_masked_cat(x, c, b.bcat[j]));
        let u = choose|u: F32| #[trigger]
            is_uniform(x, u) && a.bcat[j] == if u.lt(F32 { bits: 0x3ca3_d70a }) {
                MISSING_CAT as int
            } else {
                c as int
            };
        let v = choose|u: F32| #[trigger]
            is_uniform(x, u) && b.bcat[j] == if u.lt(F32 { bits: 0x3ca3_d70a }) {
                MISSING_CAT as int
            } else {
                c as int
            };
        lemma_uniform_unique(x, u, v);
    }
    assert(a.bcat@ =~= b.bcat@);
    assert forall|j: int| 0 <= j < 5 implies a.hcat@[j] == b.hcat@[j] by {
        assert(a.hcat[j] == draw(s, (71 + j) as nat) % 5000);
        assert(b.hcat[j] == draw(s, (71 + j) as nat) % 5000);
    }
    assert(a.hcat@ =~= b.hcat@);
}

/// The columns hold the same values.
pub open spec fn same_column(a: Column, b: Column) -> bool {
    match (a, b) {
        (Column::Numeric(x), Column::Numeric(y)) => x@ == y@,
        (Column::Categorical(x), Column::Categorical(y)) => x@ == y@,
        _ => false,
    }
}

/// A smaller synthetic benchmark is the beginning of a larger one: with deterministic
/// arithmetic a row depends on the seed and its place alone.
pub proof fn lemma_synthetic_starts_alike<A: Arith>(
    m: int,
    n: int,
    seed: u64,
    a: Dataset,
    b: Dataset,
)
    requires
        deterministic::<A>(),
        m <= n,
        is_synthetic::<A>(m, seed, a),
        is_synthetic::<A>(n, seed, b),
    ensures
        a.is_range_of(b, 0, m),
{
    let (k1, r1) = choose|risk: Seq<F32>, rows: Seq<SyntheticRow>|
        {
            &&& rows.len() == m
            &&& #[trigger] are_synthetic_rows::<A>(seed, risk, rows)
            &&& forall|i: int| 0 <= i < 25 ==> is_synthetic_column(rows, i, #[trigger] a.columns[i])
            &&& a.labels.len() == m
            &&& forall|r: int| 0 <= r < m ==> #[trigger] a.labels[r] == rows[r].label
        };
    let (k2, r2) = choose|risk: Seq<F32>, rows: Seq<SyntheticRow>|
        {
            &&& rows.len() == n
            &&& #[trigger] are_synthetic_rows::<A>(seed, risk, rows)
            &&& forall|i: int| 0 <= i < 25 ==> is_synthetic_column(rows, i, #[trigger] b.columns[i])
            &&& b.labels.len() == n
            &&& forall|r: int| 0 <= r < n ==> #[trigger] b.labels[r] == rows[r].label
        };
    assert forall|k: int| 0 <= k < 5000 implies k1[k] == k2[k] by {
        let s = draw(seed | 1, (6 * k) as nat);
        assert(is_risk::<A>(s, k1[k]) && is_risk::<A>(s, k2[k]));
        let x = choose|z: F32| #[trigger]
            is_normal::<A>(s, z) && is_prod32::<A>(z, F32 { bits: 0x3f66_6666 }, k1[k]);
        let y = choose|z: F32| #[trigger]
            is_normal::<A>(s, z) && is_prod32::<A>(z, F32 { bits: 0x3f66_6666 }, k2[k]);
        lemma_normal_unique::<A>(s, x, y);
    }
    assert(k1 =~= k2);
    assert forall|r: int| 0 <= r < m implies same_row(#[trigger] r1[r], r2[r]) by {
        let s = draw(seed | 1, (30000 + 96 * r) as nat);
        assert(is_synthetic_row::<A>(s, k1, r1[r]) && is_synthetic_row::<A>(s, k1, r2[r]));
        lemma_row_unique::<A>(s, k1, r1[r], r2[r]);
    }
    assert forall|i: int| 0 <= i < a.columns.len() implies (#[trigger] a.columns[i]).is_range_of(
        b.columns[i],
        0,
        m,
    ) by {
        assert(is_synthetic_column(r1, i, a.columns[i]));
        assert(is_synthetic_column(r2, i, b.columns[i]));
        match (a.columns[i], b.columns[i]) {
            (Column::Numeric(x), Column::Numeric(y)) => {
                assert forall|r: int| 0 <= r < m implies x@[r] == y@[r] by {
                    assert(x[r] == r1[r].num@[i] && y[r] == r2[r].num@[i]);
                    assert(same_row(r1[r], r2[r]));
                }
                assert(x@ =~= y@.subrange(0, m));
            },
            (Column::Categorical(x), Column::Categorical(y)) => {
                assert forall|r: int| 0 <= r < m implies x@[r] == y@[r] by {
                    assert(same_row(r1[r], r2[r]));
                    if i < 20 {
                        assert(x[r] == r1[r].bcat@[i - 10] && y[r] == r2[r].bcat@[i - 10]);
                    } else {
                        assert(x[r] == r1[r].hcat@[i - 20] && y[r] == r2[r].hcat@[i - 20]);
                    }
                }
                assert(x@ =~= y@.subrange(0, m));
            },
            _ => {},
        }
    }
    assert forall|r: int| 0 <= r < m implies a.labels@[r] == b.labels@[r] by {
        assert(a.labels[r] == r1[r].label && b.labels[r] == r2[r].label);
        assert(same_row(r1[r], r2[r]));
    }
    assert(a.labels@ =~= b.labels@.subrange(0, m));
    assert(a.weights@ =~= b.weights@.subrange(0, m));
    assert(a.schema.kinds@ =~= b.schema.kinds@) by {
        assert forall|i: int| 0 <= i < 25 implies a.schema.kinds@[i] == b.schema.kinds@[i] by {
            assert(a.schema.kinds[i] == synthetic_kind(i) && b.schema.kinds[i] == synthetic_kind(
                i,
            ));
        }
    }
    assert forall|i: int| 0 <= i < 25 implies #[trigger] a.schema.names[i]@
        == b.schema.names[i]@ by {
        assert(b.schema.names[i]@ == synthetic_name(i));
    }
}

/// The synthetic benchmark is reproducible: with deterministic arithmetic, the number of rows
/// and the seed fix every name, kind, value, label and weight.
pub proof fn lemma_synthetic_is_reproducible<A: Arith>(n: int, seed: u64, a: Dataset, b: Dataset)
    requires
        deterministic::<A>(),
        is_synthetic::<A>(n, seed, a),
        is_synthetic::<A>(n, seed, b),
    ensures
        a.schema.same_as(b.schema),
        a.columns.len() == b.columns.len(),
        forall|i: int|
            0 <= i < a.columns.len() ==> same_column(#[trigger] a.columns[i], b.columns[i]),
        a.labels@ == b.labels@,
        a.weights@ == b.weights@,
{
    lemma_synthetic_starts_alike::<A>(n, n, seed, a, b);
    assert(b.labels@.subrange(0, n) =~= b.labels@);
    assert(b.weights@.subrange(0, n) =~= b.weights@);
    assert forall|i: int| 0 <= i < a.columns.len() implies same_column(
        #[trigger] a.columns[i],
        b.columns[i],
    ) by {
        assert(a.columns[i].is_range_of(b.columns[i], 0, n));
        match b.columns[i] {
            Column::Numeric(y) => {
                assert(y@.subrange(0, n) =~= y@);
            },
            Column::Categorical(y) => {
                assert(y@.subrange(0, n) =~= y@);
            },
        }
    }
}

} // verus!
