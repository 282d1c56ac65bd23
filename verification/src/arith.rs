//! The arithmetic that the model is computed with, as a parameter.

use vstd::prelude::*;
use crate::float::{F32, F64};

verus! {

/// The arithmetic operations on [`F64`] and [`F32`]. Nothing is assumed of an
/// implementation: contracts say what an operation was applied to and where its result
/// went, never what the result is.
pub trait Arith {
    /// `a + b`.
    fn sum(a: F64, b: F64) -> F64;

    /// `a - b`.
    fn diff(a: F64, b: F64) -> F64;

    /// `a * b`.
    fn prod(a: F64, b: F64) -> F64;

    /// `a / b`.
    fn quot(a: F64, b: F64) -> F64;

    /// The square root.
    fn sqrt(a: F64) -> F64;

    /// The exponential function.
    fn exp(a: F64) -> F64;

    /// The natural logarithm.
    fn ln(a: F64) -> F64;

    /// The nearest integer, as a number.
    fn round(a: F64) -> F64;

    /// An integer as a number.
    fn from_int(n: i128) -> F64;

    /// A number as an index, its fraction dropped.
    fn to_index(a: F64) -> usize;

    /// `a + b` in the narrow format.
    fn sum32(a: F32, b: F32) -> F32;

    /// `a - b` in the narrow format.
    fn diff32(a: F32, b: F32) -> F32;

    /// `a * b` in the narrow format.
    fn prod32(a: F32, b: F32) -> F32;

    /// `a / b` in the narrow format.
    fn quot32(a: F32, b: F32) -> F32;

    /// The exponential function in the narrow format.
    fn exp32(a: F32) -> F32;

    /// `ln(1 + n)` in the narrow format.
    fn ln_1p32(n: u32) -> F32;

    /// A number rounded to the narrow format.
    fn narrow(a: F64) -> F32;
}

pub open spec fn is_sum<A: Arith>(a: F64, b: F64, r: F64) -> bool {
    call_ensures(A::sum, (a, b), r)
}

pub open spec fn is_diff<A: Arith>(a: F64, b: F64, r: F64) -> bool {
    call_ensures(A::diff, (a, b), r)
}

pub open spec fn is_prod<A: Arith>(a: F64, b: F64, r: F64) -> bool {
    call_ensures(A::prod, (a, b), r)
}

pub open spec fn is_quot<A: Arith>(a: F64, b: F64, r: F64) -> bool {
    call_ensures(A::quot, (a, b), r)
}

pub open spec fn is_sqrt<A: Arith>(a: F64, r: F64) -> bool {
    call_ensures(A::sqrt, (a,), r)
}

pub open spec fn is_exp<A: Arith>(a: F64, r: F64) -> bool {
    call_ensures(A::exp, (a,), r)
}

pub open spec fn is_ln<A: Arith>(a: F64, r: F64) -> bool {
    call_ensures(A::ln, (a,), r)
}

pub open spec fn is_round<A: Arith>(a: F64, r: F64) -> bool {
    call_ensures(A::round, (a,), r)
}

pub open spec fn is_int<A: Arith>(n: int, r: F64) -> bool {
    call_ensures(A::from_int, (n as i128,), r)
}

pub open spec fn is_index<A: Arith>(a: F64, k: usize) -> bool {
    call_ensures(A::to_index, (a,), k)
}

pub open spec fn is_sum32<A: Arith>(a: F32, b: F32, r: F32) -> bool {
    call_ensures(A::sum32, (a, b), r)
}

pub open spec fn is_diff32<A: Arith>(a: F32, b: F32, r: F32) -> bool {
    call_ensures(A::diff32, (a, b), r)
}

pub open spec fn is_prod32<A: Arith>(a: F32, b: F32, r: F32) -> bool {
    call_ensures(A::prod32, (a, b), r)
}

pub open spec fn is_quot32<A: Arith>(a: F32, b: F32, r: F32) -> bool {
    call_ensures(A::quot32, (a, b), r)
}

pub open spec fn is_exp32<A: Arith>(a: F32, r: F32) -> bool {
    call_ensures(A::exp32, (a,), r)
}

pub open spec fn is_ln_1p32<A: Arith>(n: u32, r: F32) -> bool {
    call_ensures(A::ln_1p32, (n,), r)
}

pub open spec fn is_narrow<A: Arith>(a: F64, r: F32) -> bool {
    call_ensures(A::narrow, (a,), r)
}

/// Every operation of the arithmetic gives one result for given operands.
pub open spec fn deterministic<A: Arith>() -> bool {
    &&& forall|a: F64, b: F64, r: F64, s: F64|
        #[trigger] is_sum::<A>(a, b, r) && #[trigger] is_sum::<A>(a, b, s) ==> r == s
    &&& forall|a: F64, b: F64, r: F64, s: F64|
        #[trigger] is_diff::<A>(a, b, r) && #[trigger] is_diff::<A>(a, b, s) ==> r == s
    &&& forall|a: F64, b: F64, r: F64, s: F64|
        #[trigger] is_prod::<A>(a, b, r) && #[trigger] is_prod::<A>(a, b, s) ==> r == s
    &&& forall|a: F64, b: F64, r: F64, s: F64|
        #[trigger] is_quot::<A>(a, b, r) && #[trigger] is_quot::<A>(a, b, s) ==> r == s
    &&& forall|a: F64, r: F64, s: F64|
        #[trigger] is_sqrt::<A>(a, r) && #[trigger] is_sqrt::<A>(a, s) ==> r == s
    &&& forall|a: F64, r: F64, s: F64|
        #[trigger] is_exp::<A>(a, r) && #[trigger] is_exp::<A>(a, s) ==> r == s
    &&& forall|a: F64, r: F64, s: F64|
        #[trigger] is_ln::<A>(a, r) && #[trigger] is_ln::<A>(a, s) ==> r == s
    &&& forall|a: F64, r: F64, s: F64|
        #[trigger] is_round::<A>(a, r) && #[trigger] is_round::<A>(a, s) ==> r == s
    &&& forall|n: int, r: F64, s: F64|
        #[trigger] is_int::<A>(n, r) && #[trigger] is_int::<A>(n, s) ==> r == s
    &&& forall|a: F64, r: usize, s: usize|
        #[trigger] is_index::<A>(a, r) && #[trigger] is_index::<A>(a, s) ==> r == s
    &&& forall|a: F32, b: F32, r: F32, s: F32|
        #[trigger] is_sum32::<A>(a, b, r) && #[trigger] is_sum32::<A>(a, b, s) ==> r == s
    &&& forall|a: F32, b: F32, r: F32, s: F32|
        #[trigger] is_diff32::<A>(a, b, r) && #[trigger] is_diff32::<A>(a, b, s) ==> r == s
    &&& forall|a: F32, b: F32, r: F32, s: F32|
        #[trigger] is_prod32::<A>(a, b, r) && #[trigger] is_prod32::<A>(a, b, s) ==> r == s
    &&& forall|a: F32, b: F32, r: F32, s: F32|
        #[trigger] is_quot32::<A>(a, b, r) && #[trigger] is_quot32::<A>(a, b, s) ==> r == s
    &&& forall|a: F32, r: F32, s: F32|
        #[trigger] is_exp32::<A>(a, r) && #[trigger] is_exp32::<A>(a, s) ==> r == s
    &&& forall|n: u32, r: F32, s: F32|
        #[trigger] is_ln_1p32::<A>(n, r) && #[trigger] is_ln_1p32::<A>(n, s) ==> r == s
    &&& forall|a: F64, r: F32, s: F32|
        #[trigger] is_narrow::<A>(a, r) && #[trigger] is_narrow::<A>(a, s) ==> r == s
}

/// Step `i` of a trace is one that `step` allows.
pub open spec fn step_allowed<T>(step: spec_fn(int, T, T) -> bool, tr: Seq<T>, i: int) -> bool {
    step(i, tr[i], tr[i + 1])
}

/// `tr` starts at `init` and makes `n` steps, each as `step` allows.
pub open spec fn is_trace<T>(init: T, n: nat, step: spec_fn(int, T, T) -> bool, tr: Seq<T>) -> bool {
    &&& tr.len() == n + 1
    &&& tr[0] == init
    &&& forall|i: int| 0 <= i < n ==> #[trigger] step_allowed(step, tr, i)
}

/// `r` is reached from `init` in `n` steps, where step `i` leads from one value to the
/// next as `step(i, _, _)` allows. A sum, in a given order, is such a run.
pub open spec fn runs<T>(init: T, n: nat, step: spec_fn(int, T, T) -> bool, r: T) -> bool {
    exists|tr: Seq<T>| #[trigger] is_trace(init, n, step, tr) && tr[n as int] == r
}

/// The run of no steps.
pub proof fn lemma_runs_start<T>(init: T, step: spec_fn(int, T, T) -> bool)
    ensures
        runs(init, 0, step, init),
{
    assert(is_trace(init, 0, step, seq![init]));
}

/// A run goes on by one step.
pub proof fn lemma_runs_next<T>(init: T, n: nat, step: spec_fn(int, T, T) -> bool, m: T, r: T)
    requires
        runs(init, n, step, m),
        step(n as int, m, r),
    ensures
        runs(init, n + 1, step, r),
{
    let tr = choose|tr: Seq<T>| #[trigger] is_trace(init, n, step, tr) && tr[n as int] == m;
    let next = tr.push(r);
    assert forall|i: int| 0 <= i < n + 1 implies #[trigger] step_allowed(step, next, i) by {
        if i < n {
            assert(step_allowed(step, tr, i));
        }
    }
    assert(is_trace(init, n + 1, step, next));
}

/// The last step of a run.
pub proof fn lemma_runs_last<T>(init: T, n: nat, step: spec_fn(int, T, T) -> bool, r: T) -> (m: T)
    requires
        runs(init, n, step, r),
        n > 0,
    ensures
        runs(init, (n - 1) as nat, step, m),
        step(n - 1, m, r),
{
    let tr = choose|tr: Seq<T>| #[trigger] is_trace(init, n, step, tr) && tr[n as int] == r;
    let front = tr.drop_last();
    assert forall|i: int| 0 <= i < n - 1 implies #[trigger] step_allowed(step, front, i) by {
        assert(step_allowed(step, tr, i));
    }
    assert(step_allowed(step, tr, n - 1));
    assert(is_trace(init, (n - 1) as nat, step, front));
    tr[n - 1]
}

/// Runs whose steps allow the same lead to the same values.
pub proof fn lemma_runs_agree<T>(
    init: T,
    n: nat,
    s1: spec_fn(int, T, T) -> bool,
    s2: spec_fn(int, T, T) -> bool,
    r: T,
)
    requires
        runs(init, n, s1, r),
        forall|i: int, a: T, b: T| 0 <= i < n && #[trigger] s1(i, a, b) ==> s2(i, a, b),
    ensures
        runs(init, n, s2, r),
{
    let tr = choose|tr: Seq<T>| #[trigger] is_trace(init, n, s1, tr) && tr[n as int] == r;
    assert forall|i: int| 0 <= i < n implies #[trigger] step_allowed(s2, tr, i) by {
        assert(step_allowed(s1, tr, i));
    }
    assert(is_trace(init, n, s2, tr));
}

/// A run whose steps each allow one next value leads to one value.
pub proof fn lemma_runs_unique<T>(
    init: T,
    n: nat,
    step: spec_fn(int, T, T) -> bool,
    r: T,
    s: T,
)
    requires
        runs(init, n, step, r),
        runs(init, n, step, s),
        forall|i: int, a: T, b: T, c: T|
            0 <= i < n && #[trigger] step(i, a, b) && #[trigger] step(i, a, c) ==> b == c,
    ensures
        r == s,
    decreases n,
{
    if n > 0 {
        let m = lemma_runs_last(init, n, step, r);
        let k = lemma_runs_last(init, n, step, s);
        lemma_runs_unique(init, (n - 1) as nat, step, m, k);
    } else {
        let a = choose|tr: Seq<T>| #[trigger] is_trace(init, n, step, tr) && tr[n as int] == r;
        let b = choose|tr: Seq<T>| #[trigger] is_trace(init, n, step, tr) && tr[n as int] == s;
    }
}

/// The values that a longer run passes through, and those that come next.
pub proof fn lemma_run_passes<T>(
    init: T,
    m: nat,
    n: nat,
    step: spec_fn(int, T, T) -> bool,
    r: T,
) -> (p: (T, T))
    requires
        runs(init, n, step, r),
        m < n,
    ensures
        runs(init, m, step, p.0),
        step(m as int, p.0, p.1),
    decreases n,
{
    let last = lemma_runs_last(init, n, step, r);
    if m == n - 1 {
        (last, r)
    } else {
        lemma_run_passes(init, m, (n - 1) as nat, step, last)
    }
}

/// A step that depends on an item, as a step that depends on the item's position.
pub open spec fn item_step<X, T>(
    items: Seq<X>,
    step: spec_fn(X, T, T) -> bool,
) -> spec_fn(int, T, T) -> bool {
    |i: int, a: T, b: T| step(items[i], a, b)
}

/// `r` is reached from `init` by one step for each item, in order.
pub open spec fn folds<X, T>(
    init: T,
    items: Seq<X>,
    step: spec_fn(X, T, T) -> bool,
    r: T,
) -> bool {
    runs(init, items.len(), item_step(items, step), r)
}

/// The fold over no items.
pub proof fn lemma_folds_start<X, T>(init: T, step: spec_fn(X, T, T) -> bool)
    ensures
        folds(init, Seq::<X>::empty(), step, init),
{
    lemma_runs_start(init, item_step(Seq::<X>::empty(), step));
}

/// A fold goes on with one more item.
pub proof fn lemma_folds_push<X, T>(
    init: T,
    items: Seq<X>,
    step: spec_fn(X, T, T) -> bool,
    m: T,
    x: X,
    r: T,
)
    requires
        folds(init, items, step, m),
        step(x, m, r),
    ensures
        folds(init, items.push(x), step, r),
{
    let next = item_step(items.push(x), step);
    lemma_runs_agree(init, items.len(), item_step(items, step), next, m);
    lemma_runs_next(init, items.len(), next, m, r);
}

/// The last step of a fold.
pub proof fn lemma_folds_last<X, T>(
    init: T,
    items: Seq<X>,
    step: spec_fn(X, T, T) -> bool,
    r: T,
) -> (m: T)
    requires
        folds(init, items, step, r),
        items.len() > 0,
    ensures
        folds(init, items.drop_last(), step, m),
        step(items.last(), m, r),
{
    let m = lemma_runs_last(init, items.len(), item_step(items, step), r);
    lemma_runs_agree(
        init,
        (items.len() - 1) as nat,
        item_step(items, step),
        item_step(items.drop_last(), step),
        m,
    );
    m
}

/// Folds over the same items, whose steps allow the same, lead to the same values.
pub proof fn lemma_folds_agree<X, T>(
    init: T,
    items: Seq<X>,
    s1: spec_fn(X, T, T) -> bool,
    s2: spec_fn(X, T, T) -> bool,
    r: T,
)
    requires
        folds(init, items, s1, r),
        forall|i: int, a: T, b: T|
            0 <= i < items.len() && #[trigger] s1(items[i], a, b) ==> s2(items[i], a, b),
    ensures
        folds(init, items, s2, r),
{
    lemma_runs_agree(init, items.len(), item_step(items, s1), item_step(items, s2), r);
}

/// A fold whose steps each allow one next value leads to one value.
pub proof fn lemma_folds_unique<X, T>(
    init: T,
    items: Seq<X>,
    step: spec_fn(X, T, T) -> bool,
    r: T,
    s: T,
)
    requires
        folds(init, items, step, r),
        folds(init, items, step, s),
        forall|x: X, a: T, b: T, c: T| #[trigger]
            step(x, a, b) && #[trigger] step(x, a, c) ==> b == c,
    ensures
        r == s,
{
    lemma_runs_unique(init, items.len(), item_step(items, step), r, s);
}

impl F64 {
    #[verifier::allow_in_spec]
    pub fn zero() -> F64
        returns
            (F64 { bits: 0 }),
    {
        F64 { bits: 0 }
    }

    #[verifier::allow_in_spec]
    pub fn one() -> F64
        returns
            (F64 { bits: 0x3ff0_0000_0000_0000 }),
    {
        F64 { bits: 0x3ff0_0000_0000_0000 }
    }
}

impl F32 {
    #[verifier::allow_in_spec]
    pub fn zero() -> F32
        returns
            (F32 { bits: 0 }),
    {
        F32 { bits: 0 }
    }

    #[verifier::allow_in_spec]
    pub fn one() -> F32
        returns
            (F32 { bits: 0x3f80_0000 }),
    {
        F32 { bits: 0x3f80_0000 }
    }
}

/// `p` is `1 / (1 + exp(-x))` in the narrow format.
pub open spec fn is_logistic32<A: Arith>(x: F32, p: F32) -> bool {
    exists|e: F32, d: F32| #[trigger]
        is_exp32::<A>(x.spec_negated(), e) && #[trigger] is_sum32::<A>(F32::one(), e, d)
            && is_quot32::<A>(F32::one(), d, p)
}

/// The logistic function in the narrow format.
#[inline]
pub fn logistic32<A: Arith>(x: F32) -> (p: F32)
    ensures
        is_logistic32::<A>(x, p),
{
    let e = A::exp32(x.negated());
    let d = A::sum32(F32::one(), e);
    let p = A::quot32(F32::one(), d);
    assert(is_exp32::<A>(x.spec_negated(), e) && is_sum32::<A>(F32::one(), e, d));
    p
}

/// `p` is `1 / (1 + exp(-x))`.
pub open spec fn is_logistic<A: Arith>(x: F64, p: F64) -> bool {
    exists|e: F64, d: F64| #[trigger]
        is_exp::<A>(x.spec_negated(), e) && #[trigger] is_sum::<A>(F64::one(), e, d) && is_quot::<
            A,
        >(F64::one(), d, p)
}

/// The logistic function.
#[inline]
pub fn logistic<A: Arith>(x: F64) -> (p: F64)
    ensures
        is_logistic::<A>(x, p),
{
    let e = A::exp(x.negated());
    let d = A::sum(F64::one(), e);
    let p = A::quot(F64::one(), d);
    assert(is_exp::<A>(x.spec_negated(), e) && is_sum::<A>(F64::one(), e, d));
    p
}

/// `l` is `ln(rate / (1 - rate))`.
pub open spec fn is_log_odds<A: Arith>(rate: F64, l: F64) -> bool {
    exists|d: F64, q: F64| #[trigger]
        is_diff::<A>(F64::one(), rate, d) && #[trigger] is_quot::<A>(rate, d, q) && is_ln::<A>(q, l)
}

/// The log-odds of a rate.
pub fn log_odds<A: Arith>(rate: F64) -> (l: F64)
    ensures
        is_log_odds::<A>(rate, l),
{
    let d = A::diff(F64::one(), rate);
    let q = A::quot(rate, d);
    let l = A::ln(q);
    assert(is_diff::<A>(F64::one(), rate, d) && is_quot::<A>(rate, d, q));
    l
}

/// The least rate that log-odds are taken of: `1e-6`.
#[verifier::allow_in_spec]
pub fn min_rate() -> F64
    returns
        (F64 { bits: 0x3eb0_c6f7_a0b5_ed8d }),
{
    F64 { bits: 0x3eb0_c6f7_a0b5_ed8d }
}

/// The greatest rate that log-odds are taken of: `1 - 1e-6`.
#[verifier::allow_in_spec]
pub fn max_rate() -> F64
    returns
        (F64 { bits: 0x3fef_fffd_e721_0be9 }),
{
    F64 { bits: 0x3fef_fffd_e721_0be9 }
}

/// With deterministic arithmetic the logistic function has one value.
pub proof fn lemma_logistic32_unique<A: Arith>(x: F32, p: F32, q: F32)
    requires
        deterministic::<A>(),
        is_logistic32::<A>(x, p),
        is_logistic32::<A>(x, q),
    ensures
        p == q,
{
    let (e1, d1) = choose|e: F32, d: F32| #[trigger]
        is_exp32::<A>(x.spec_negated(), e) && #[trigger] is_sum32::<A>(F32::one(), e, d)
            && is_quot32::<A>(F32::one(), d, p);
    let (e2, d2) = choose|e: F32, d: F32| #[trigger]
        is_exp32::<A>(x.spec_negated(), e) && #[trigger] is_sum32::<A>(F32::one(), e, d)
            && is_quot32::<A>(F32::one(), d, q);
    assert(e1 == e2);
    assert(d1 == d2);
}

} // verus!
