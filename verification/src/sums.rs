//! Finite sums of integers.

use vstd::prelude::*;

verus! {

/// `f(0) + ... + f(n - 1)`.
pub open spec fn sum_to(f: spec_fn(int) -> int, n: int) -> int
    decreases n,
{
    if n <= 0 {
        0
    } else {
        sum_to(f, n - 1) + f(n - 1)
    }
}

/// Equal terms have equal sums.
pub proof fn lemma_sum_agree(f: spec_fn(int) -> int, g: spec_fn(int) -> int, n: int)
    requires
        forall|i: int| 0 <= i < n ==> #[trigger] f(i) == g(i),
    ensures
        sum_to(f, n) == sum_to(g, n),
    decreases n,
{
    if n > 0 {
        lemma_sum_agree(f, g, n - 1);
        assert(f(n - 1) == g(n - 1));
    }
}

/// Terms that are not negative have such a sum.
pub proof fn lemma_sum_nonneg(f: spec_fn(int) -> int, n: int)
    requires
        forall|i: int| 0 <= i < n ==> 0 <= #[trigger] f(i),
    ensures
        0 <= sum_to(f, n),
    decreases n,
{
    if n > 0 {
        lemma_sum_nonneg(f, n - 1);
        assert(0 <= f(n - 1));
    }
}

/// The sum of term-wise sums.
pub proof fn lemma_sum_adds(
    f: spec_fn(int) -> int,
    g: spec_fn(int) -> int,
    h: spec_fn(int) -> int,
    n: int,
)
    requires
        forall|i: int| 0 <= i < n ==> #[trigger] h(i) == f(i) + g(i),
    ensures
        sum_to(h, n) == sum_to(f, n) + sum_to(g, n),
    decreases n,
{
    if n > 0 {
        lemma_sum_adds(f, g, h, n - 1);
        assert(h(n - 1) == f(n - 1) + g(n - 1));
    }
}

/// A sum of nothing but zeros.
pub proof fn lemma_sum_zero(f: spec_fn(int) -> int, n: int)
    requires
        forall|i: int| 0 <= i < n ==> #[trigger] f(i) == 0,
    ensures
        sum_to(f, n) == 0,
    decreases n,
{
    if n > 0 {
        lemma_sum_zero(f, n - 1);
        assert(f(n - 1) == 0);
    }
}

/// A sum with one term that is not zero.
pub proof fn lemma_sum_point(f: spec_fn(int) -> int, n: int, x: int)
    requires
        0 <= x < n,
        forall|i: int| 0 <= i < n && i != x ==> #[trigger] f(i) == 0,
    ensures
        sum_to(f, n) == f(x),
    decreases n,
{
    if x == n - 1 {
        lemma_sum_zero(f, n - 1);
    } else {
        lemma_sum_point(f, n - 1, x);
        assert(f(n - 1) == 0);
    }
}

/// The number of positions below `k`.
pub proof fn lemma_sum_prefix(f: spec_fn(int) -> int, n: int, k: int)
    requires
        0 <= k <= n,
        forall|i: int| 0 <= i < n ==> #[trigger] f(i) == if i < k {
            1int
        } else {
            0
        },
    ensures
        sum_to(f, n) == k,
    decreases n,
{
    if n > 0 {
        assert(f(n - 1) == if n - 1 < k {
            1int
        } else {
            0
        });
        if k == n {
            lemma_sum_prefix(f, n - 1, k - 1);
        } else {
            lemma_sum_prefix(f, n - 1, k);
        }
    }
}

/// The sums of the rows of a table.
pub open spec fn row_sums(a: spec_fn(int, int) -> int, m: int) -> spec_fn(int) -> int {
    |k: int| sum_to(|i: int| a(k, i), m)
}

/// The sums of the columns of a table.
pub open spec fn column_sums(a: spec_fn(int, int) -> int, n: int) -> spec_fn(int) -> int {
    |i: int| sum_to(|k: int| a(k, i), n)
}

/// A table can be summed by rows or by columns.
pub proof fn lemma_sum_swaps(a: spec_fn(int, int) -> int, n: int, m: int)
    requires
        0 <= n,
        0 <= m,
    ensures
        sum_to(row_sums(a, m), n) == sum_to(column_sums(a, n), m),
    decreases n,
{
    if n > 0 {
        lemma_sum_swaps(a, n - 1, m);
        let last = |i: int| a(n - 1, i);
        assert forall|i: int| 0 <= i < m implies #[trigger] column_sums(a, n)(i) == column_sums(
            a,
            n - 1,
        )(i) + last(i) by {
            let f = |k: int| a(k, i);
            assert(sum_to(f, n) == sum_to(f, n - 1) + f(n - 1));
        }
        lemma_sum_adds(column_sums(a, n - 1), last, column_sums(a, n), m);
        assert(row_sums(a, m)(n - 1) == sum_to(last, m));
    } else {
        lemma_sum_zero(column_sums(a, 0), m);
    }
}

/// Reordering the terms does not change a sum.
pub proof fn lemma_sum_permuted(
    f: spec_fn(int) -> int,
    g: spec_fn(int) -> int,
    order: Seq<usize>,
    n: int,
)
    requires
        order.len() == n,
        forall|k: int| 0 <= k < n ==> #[trigger] order[k] < n,
        forall|i: int, j: int| 0 <= i < j < n ==> #[trigger] order[i] != #[trigger] order[j],
        forall|x: usize| 0 <= x < n ==> #[trigger] order.contains(x),
        n <= usize::MAX,
        forall|k: int| 0 <= k < n ==> #[trigger] g(k) == f(order[k] as int),
    ensures
        sum_to(g, n) == sum_to(f, n),
{
    let a = |k: int, i: int|
        if order[k] == i {
            f(i)
        } else {
            0
        };
    lemma_sum_swaps(a, n, n);
    assert forall|k: int| 0 <= k < n implies #[trigger] row_sums(a, n)(k) == g(k) by {
        let row = |i: int| a(k, i);
        assert(order[k] < n);
        lemma_sum_point(row, n, order[k] as int);
        assert(g(k) == f(order[k] as int));
    }
    lemma_sum_agree(row_sums(a, n), g, n);
    assert forall|i: int| 0 <= i < n implies #[trigger] column_sums(a, n)(i) == f(i) by {
        let col = |k: int| a(k, i);
        assert(order.contains(i as usize));
        let x = choose|x: int| 0 <= x < order.len() && order[x] == i as usize;
        assert forall|k: int| 0 <= k < n && k != x implies #[trigger] col(k) == 0 by {
            if k < x {
                assert(order[k] != order[x]);
            } else {
                assert(order[x] != order[k]);
            }
        }
        lemma_sum_point(col, n, x);
    }
    lemma_sum_agree(column_sums(a, n), f, n);
}

/// Terms of at most one, from `k` on zero, sum up to at most `k`.
pub proof fn lemma_sum_at_most(f: spec_fn(int) -> int, n: int, k: int)
    requires
        0 <= k <= n,
        forall|i: int| 0 <= i < n ==> 0 <= #[trigger] f(i) <= 1,
        forall|i: int| k <= i < n ==> #[trigger] f(i) == 0,
    ensures
        sum_to(f, n) <= k,
    decreases n,
{
    if n > k {
        lemma_sum_at_most(f, n - 1, k);
        assert(f(n - 1) == 0);
    } else if n > 0 {
        lemma_sum_at_most(f, n - 1, k - 1);
        assert(f(n - 1) <= 1);
    }
}

/// Terms that are not negative, the first `k` at least one, sum up to at least `k`.
pub proof fn lemma_sum_at_least(f: spec_fn(int) -> int, n: int, k: int)
    requires
        0 <= k <= n,
        forall|i: int| 0 <= i < n ==> 0 <= #[trigger] f(i),
        forall|i: int| 0 <= i < k ==> 1 <= #[trigger] f(i),
    ensures
        sum_to(f, n) >= k,
    decreases n,
{
    if n > k {
        lemma_sum_at_least(f, n - 1, k);
        assert(0 <= f(n - 1));
    } else if n > 0 {
        lemma_sum_at_least(f, n - 1, k - 1);
        assert(1 <= f(n - 1));
    }
}

} // verus!
