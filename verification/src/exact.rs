//! Exact numbers: the laws that they obey, finite sums of them, and what it takes for
//! floating-point arithmetic to compute with them.

use vstd::prelude::*;
use crate::arith::{
    folds, is_diff, is_diff32, is_int, is_narrow, is_prod, is_prod32, is_quot, is_quot32, is_sqrt,
    is_sum, is_sum32, is_trace, item_step, lemma_folds_last, lemma_runs_last, runs, Arith,
};
use crate::float::{F32, F64};

verus! {

/// A kind of numbers that can be added, subtracted and multiplied.
#[verifier::reject_recursive_types(T)]
pub struct Ring<T> {
    pub zero: T,
    pub one: T,
    pub plus: spec_fn(T, T) -> T,
    pub minus: spec_fn(T, T) -> T,
    pub times: spec_fn(T, T) -> T,
}

impl<T> Ring<T> {
    pub open spec fn sum_of(self, a: T, b: T) -> T {
        (self.plus)(a, b)
    }

    pub open spec fn difference(self, a: T, b: T) -> T {
        (self.minus)(a, b)
    }

    pub open spec fn product(self, a: T, b: T) -> T {
        (self.times)(a, b)
    }

    /// The laws of a commutative ring.
    #[verifier::opaque]
    pub open spec fn obeys_laws(self) -> bool {
        &&& forall|a: T, b: T| #[trigger] self.sum_of(a, b) == self.sum_of(b, a)
        &&& forall|a: T, b: T, c: T| #[trigger]
            self.sum_of(self.sum_of(a, b), c) == self.sum_of(a, self.sum_of(b, c))
        &&& forall|a: T| #[trigger] self.sum_of(self.zero, a) == a
        &&& forall|a: T, b: T| #[trigger] self.sum_of(self.difference(a, b), b) == a
        &&& forall|a: T, b: T| #[trigger] self.difference(self.sum_of(a, b), b) == a
        &&& forall|a: T, b: T| #[trigger] self.product(a, b) == self.product(b, a)
        &&& forall|a: T, b: T, c: T| #[trigger]
            self.product(self.product(a, b), c) == self.product(a, self.product(b, c))
        &&& forall|a: T, b: T, c: T| #[trigger]
            self.product(a, self.sum_of(b, c)) == self.sum_of(
                self.product(a, b),
                self.product(a, c),
            )
        &&& forall|a: T| #[trigger] self.product(self.zero, a) == self.zero
        &&& forall|a: T| #[trigger] self.product(self.one, a) == a
    }

    /// `f(0) + ... + f(n - 1)`.
    pub open spec fn sum_to(self, f: spec_fn(int) -> T, n: int) -> T
        decreases n,
    {
        if n <= 0 {
            self.zero
        } else {
            self.sum_of(self.sum_to(f, n - 1), f(n - 1))
        }
    }

    pub proof fn lemma_sum_commutes(self, a: T, b: T)
        requires
            self.obeys_laws(),
        ensures
            self.sum_of(a, b) == self.sum_of(b, a),
    {
        reveal(Ring::obeys_laws);
    }

    pub proof fn lemma_sum_associates(self, a: T, b: T, c: T)
        requires
            self.obeys_laws(),
        ensures
            self.sum_of(self.sum_of(a, b), c) == self.sum_of(a, self.sum_of(b, c)),
    {
        reveal(Ring::obeys_laws);
    }

    pub proof fn lemma_sum_with_zero(self, a: T)
        requires
            self.obeys_laws(),
        ensures
            self.sum_of(self.zero, a) == a,
            self.sum_of(a, self.zero) == a,
    {
        reveal(Ring::obeys_laws);
        self.lemma_sum_commutes(a, self.zero);
    }

    pub proof fn lemma_difference_undone(self, a: T, b: T)
        requires
            self.obeys_laws(),
        ensures
            self.sum_of(self.difference(a, b), b) == a,
    {
        reveal(Ring::obeys_laws);
    }

    pub proof fn lemma_sum_undone(self, a: T, b: T)
        requires
            self.obeys_laws(),
        ensures
            self.difference(self.sum_of(a, b), b) == a,
            self.difference(self.sum_of(a, b), a) == b,
    {
        reveal(Ring::obeys_laws);
        self.lemma_sum_commutes(a, b);
    }

    pub proof fn lemma_product_commutes(self, a: T, b: T)
        requires
            self.obeys_laws(),
        ensures
            self.product(a, b) == self.product(b, a),
    {
        reveal(Ring::obeys_laws);
    }

    pub proof fn lemma_product_associates(self, a: T, b: T, c: T)
        requires
            self.obeys_laws(),
        ensures
            self.product(self.product(a, b), c) == self.product(a, self.product(b, c)),
    {
        reveal(Ring::obeys_laws);
    }

    pub proof fn lemma_product_distributes(self, a: T, b: T, c: T)
        requires
            self.obeys_laws(),
        ensures
            self.product(a, self.sum_of(b, c)) == self.sum_of(
                self.product(a, b),
                self.product(a, c),
            ),
    {
        reveal(Ring::obeys_laws);
    }

    pub proof fn lemma_product_with_zero(self, a: T)
        requires
            self.obeys_laws(),
        ensures
            self.product(self.zero, a) == self.zero,
            self.product(a, self.zero) == self.zero,
    {
        reveal(Ring::obeys_laws);
        self.lemma_product_commutes(a, self.zero);
    }

    pub proof fn lemma_product_with_one(self, a: T)
        requires
            self.obeys_laws(),
        ensures
            self.product(self.one, a) == a,
            self.product(a, self.one) == a,
    {
        reveal(Ring::obeys_laws);
        self.lemma_product_commutes(a, self.one);
    }

    /// `(a + b) + (c + d) = (a + c) + (b + d)`.
    pub proof fn lemma_sums_interchange(self, a: T, b: T, c: T, d: T)
        requires
            self.obeys_laws(),
        ensures
            self.sum_of(self.sum_of(a, b), self.sum_of(c, d)) == self.sum_of(
                self.sum_of(a, c),
                self.sum_of(b, d),
            ),
    {
        self.lemma_sum_associates(a, b, self.sum_of(c, d));
        self.lemma_sum_associates(b, c, d);
        self.lemma_sum_commutes(b, c);
        self.lemma_sum_associates(c, b, d);
        self.lemma_sum_associates(a, c, self.sum_of(b, d));
    }

    /// Equal terms have equal sums.
    pub proof fn lemma_sum_agrees(self, f: spec_fn(int) -> T, g: spec_fn(int) -> T, n: int)
        requires
            forall|i: int| 0 <= i < n ==> #[trigger] f(i) == g(i),
        ensures
            self.sum_to(f, n) == self.sum_to(g, n),
        decreases n,
    {
        if n > 0 {
            self.lemma_sum_agrees(f, g, n - 1);
            assert(f(n - 1) == g(n - 1));
        }
    }

    /// Terms from `m` on that are zero do not count.
    pub proof fn lemma_sum_ends(self, f: spec_fn(int) -> T, m: int, n: int)
        requires
            self.obeys_laws(),
            0 <= m <= n,
            forall|i: int| m <= i < n ==> #[trigger] f(i) == self.zero,
        ensures
            self.sum_to(f, n) == self.sum_to(f, m),
        decreases n,
    {
        if m < n {
            self.lemma_sum_ends(f, m, n - 1);
            assert(f(n - 1) == self.zero);
            self.lemma_sum_with_zero(self.sum_to(f, n - 1));
        }
    }

    /// Terms before `m` that are zero do not count.
    pub proof fn lemma_sum_begins(
        self,
        f: spec_fn(int) -> T,
        g: spec_fn(int) -> T,
        m: int,
        n: int,
    )
        requires
            self.obeys_laws(),
            0 <= m <= n,
            forall|i: int| 0 <= i < m ==> #[trigger] f(i) == self.zero,
            forall|i: int| 0 <= i < n - m ==> #[trigger] g(i) == f(m + i),
        ensures
            self.sum_to(f, n) == self.sum_to(g, n - m),
        decreases n,
    {
        if m < n {
            self.lemma_sum_begins(f, g, m, n - 1);
            assert(g(n - m - 1) == f(m + (n - m - 1)));
        } else {
            self.lemma_sum_ends(f, 0, m);
        }
    }

    /// The sum of term-wise sums.
    pub proof fn lemma_sum_adds(
        self,
        f: spec_fn(int) -> T,
        g: spec_fn(int) -> T,
        h: spec_fn(int) -> T,
        n: int,
    )
        requires
            self.obeys_laws(),
            forall|i: int| 0 <= i < n ==> #[trigger] h(i) == self.sum_of(f(i), g(i)),
        ensures
            self.sum_to(h, n) == self.sum_of(self.sum_to(f, n), self.sum_to(g, n)),
        decreases n,
    {
        if n > 0 {
            self.lemma_sum_adds(f, g, h, n - 1);
            assert(h(n - 1) == self.sum_of(f(n - 1), g(n - 1)));
            self.lemma_sums_interchange(
                self.sum_to(f, n - 1),
                self.sum_to(g, n - 1),
                f(n - 1),
                g(n - 1),
            );
        } else {
            self.lemma_sum_with_zero(self.zero);
        }
    }

    /// A factor of every term.
    pub proof fn lemma_sum_scales(
        self,
        c: T,
        f: spec_fn(int) -> T,
        h: spec_fn(int) -> T,
        n: int,
    )
        requires
            self.obeys_laws(),
            forall|i: int| 0 <= i < n ==> #[trigger] h(i) == self.product(c, f(i)),
        ensures
            self.sum_to(h, n) == self.product(c, self.sum_to(f, n)),
        decreases n,
    {
        if n > 0 {
            self.lemma_sum_scales(c, f, h, n - 1);
            assert(h(n - 1) == self.product(c, f(n - 1)));
            self.lemma_product_distributes(c, self.sum_to(f, n - 1), f(n - 1));
        } else {
            self.lemma_product_with_zero(c);
        }
    }

    /// The sums of the rows of a table.
    pub open spec fn row_sums(self, a: spec_fn(int, int) -> T, m: int) -> spec_fn(int) -> T {
        |k: int| self.sum_to(|i: int| a(k, i), m)
    }

    /// The sums of the columns of a table.
    pub open spec fn column_sums(self, a: spec_fn(int, int) -> T, n: int) -> spec_fn(int) -> T {
        |i: int| self.sum_to(|k: int| a(k, i), n)
    }

    /// A table can be summed by rows or by columns.
    pub proof fn lemma_sum_swaps(self, a: spec_fn(int, int) -> T, n: int, m: int)
        requires
            self.obeys_laws(),
            0 <= n,
            0 <= m,
        ensures
            self.sum_to(self.row_sums(a, m), n) == self.sum_to(self.column_sums(a, n), m),
        decreases n,
    {
        if n > 0 {
            self.lemma_sum_swaps(a, n - 1, m);
            let last = |i: int| a(n - 1, i);
            assert forall|i: int| 0 <= i < m implies #[trigger] self.column_sums(a, n)(i)
                == self.sum_of(self.column_sums(a, n - 1)(i), last(i)) by {
                let f = |k: int| a(k, i);
                assert(self.sum_to(f, n) == self.sum_of(self.sum_to(f, n - 1), f(n - 1)));
            }
            self.lemma_sum_adds(self.column_sums(a, n - 1), last, self.column_sums(a, n), m);
            assert(self.row_sums(a, m)(n - 1) == self.sum_to(last, m));
        } else {
            assert forall|i: int| 0 <= i < m implies #[trigger] self.column_sums(a, 0)(i)
                == self.zero by {}
            self.lemma_sum_ends(self.column_sums(a, 0), 0, m);
        }
    }

    /// A sum of nothing but zeros.
    pub proof fn lemma_sum_vanishes(self, f: spec_fn(int) -> T, n: int)
        requires
            self.obeys_laws(),
            forall|i: int| 0 <= i < n ==> #[trigger] f(i) == self.zero,
        ensures
            self.sum_to(f, n) == self.zero,
        decreases n,
    {
        if n > 0 {
            self.lemma_sum_vanishes(f, n - 1);
            assert(f(n - 1) == self.zero);
            self.lemma_sum_with_zero(self.zero);
        }
    }

    /// A sum with one term that is not zero.
    pub proof fn lemma_sum_of_point(self, f: spec_fn(int) -> T, n: int, x: int)
        requires
            self.obeys_laws(),
            0 <= x < n,
            forall|i: int| 0 <= i < n && i != x ==> #[trigger] f(i) == self.zero,
        ensures
            self.sum_to(f, n) == f(x),
        decreases n,
    {
        if x == n - 1 {
            self.lemma_sum_vanishes(f, n - 1);
            self.lemma_sum_with_zero(f(x));
        } else {
            self.lemma_sum_of_point(f, n - 1, x);
            assert(f(n - 1) == self.zero);
            self.lemma_sum_with_zero(f(x));
        }
    }

    /// Reordering the terms does not change a sum.
    pub proof fn lemma_sum_reordered(
        self,
        f: spec_fn(int) -> T,
        g: spec_fn(int) -> T,
        order: Seq<usize>,
        n: int,
    )
        requires
            self.obeys_laws(),
            order.len() == n,
            forall|k: int| 0 <= k < n ==> #[trigger] order[k] < n,
            forall|i: int, j: int| 0 <= i < j < n ==> #[trigger] order[i] != #[trigger] order[j],
            forall|x: usize| 0 <= x < n ==> #[trigger] order.contains(x),
            n <= usize::MAX,
            forall|k: int| 0 <= k < n ==> #[trigger] g(k) == f(order[k] as int),
        ensures
            self.sum_to(g, n) == self.sum_to(f, n),
    {
        let a = |k: int, i: int|
            if order[k] == i {
                f(i)
            } else {
                self.zero
            };
        self.lemma_sum_swaps(a, n, n);
        assert forall|k: int| 0 <= k < n implies #[trigger] self.row_sums(a, n)(k) == g(k) by {
            let row = |i: int| a(k, i);
            assert(order[k] < n);
            self.lemma_sum_of_point(row, n, order[k] as int);
            assert(g(k) == f(order[k] as int));
        }
        self.lemma_sum_agrees(self.row_sums(a, n), g, n);
        assert forall|i: int| 0 <= i < n implies #[trigger] self.column_sums(a, n)(i) == f(i) by {
            let col = |k: int| a(k, i);
            assert(order.contains(i as usize));
            let x = choose|x: int| 0 <= x < order.len() && order[x] == i as usize;
            assert forall|k: int| 0 <= k < n && k != x implies #[trigger] col(k) == self.zero by {
                if k < x {
                    assert(order[k] != order[x]);
                } else {
                    assert(order[x] != order[k]);
                }
            }
            self.lemma_sum_of_point(col, n, x);
        }
        self.lemma_sum_agrees(self.column_sums(a, n), f, n);
    }

    /// `1 + ... + 1`, `n` times.
    pub open spec fn count(self, n: int) -> T {
        self.sum_to(|i: int| self.one, n)
    }

    pub proof fn lemma_counts_add(self, m: int, n: int)
        requires
            self.obeys_laws(),
            0 <= m,
            0 <= n,
        ensures
            self.count(m + n) == self.sum_of(self.count(m), self.count(n)),
        decreases n,
    {
        if n > 0 {
            self.lemma_counts_add(m, n - 1);
            self.lemma_sum_associates(self.count(m), self.count(n - 1), self.one);
        } else {
            self.lemma_sum_with_zero(self.count(m));
        }
    }

    pub proof fn lemma_counts_multiply(self, m: int, n: int)
        requires
            self.obeys_laws(),
            0 <= m,
            0 <= n,
        ensures
            self.count(m * n) == self.product(self.count(m), self.count(n)),
        decreases n,
    {
        if n > 0 {
            self.lemma_counts_multiply(m, n - 1);
            assert(m * n == m * (n - 1) + m && 0 <= m * (n - 1)) by (nonlinear_arith)
                requires
                    0 <= m,
                    0 < n,
            ;
            self.lemma_counts_add(m * (n - 1), m);
            self.lemma_product_distributes(self.count(m), self.count(n - 1), self.one);
            self.lemma_product_with_one(self.count(m));
        } else {
            assert(m * n == 0) by (nonlinear_arith)
                requires
                    n == 0,
            ;
            self.lemma_product_with_zero(self.count(m));
        }
    }

    pub proof fn lemma_count_of_one(self)
        requires
            self.obeys_laws(),
        ensures
            self.count(0) == self.zero,
            self.count(1) == self.one,
    {
        reveal_with_fuel(Ring::sum_to, 2);
        self.lemma_sum_with_zero(self.one);
    }

    /// The sum of `f` over the elements.
    pub open spec fn total<X>(self, f: spec_fn(X) -> T, s: Seq<X>) -> T
        decreases s.len(),
    {
        if s.len() == 0 {
            self.zero
        } else {
            self.sum_of(self.total(f, s.drop_last()), f(s.last()))
        }
    }

    /// What `c` multiplies can be told from the product.
    pub open spec fn cancels(self, c: T) -> bool {
        forall|a: T, b: T| #[trigger]
            self.product(c, a) == #[trigger] self.product(c, b) ==> a == b
    }

    /// The three factors of a product can be moved.
    pub proof fn lemma_factors_move(self, a: T, b: T, c: T)
        requires
            self.obeys_laws(),
        ensures
            self.product(a, self.product(b, c)) == self.product(b, self.product(a, c)),
            self.product(a, self.product(b, c)) == self.product(b, self.product(c, a)),
            self.product(a, self.product(b, c)) == self.product(c, self.product(b, a)),
    {
        self.lemma_product_associates(a, b, c);
        self.lemma_product_associates(b, a, c);
        self.lemma_product_commutes(a, b);
        self.lemma_product_commutes(a, c);
        self.lemma_product_commutes(b, c);
        self.lemma_product_associates(a, c, b);
        self.lemma_product_associates(c, a, b);
    }

    /// The sum of a combination of two terms.
    pub proof fn lemma_total_combines<X>(
        self,
        p: T,
        u: spec_fn(X) -> T,
        q: T,
        v: spec_fn(X) -> T,
        f: spec_fn(X) -> T,
        s: Seq<X>,
    )
        requires
            self.obeys_laws(),
            forall|i: int|
                0 <= i < s.len() ==> f(#[trigger] s[i]) == self.sum_of(
                    self.product(p, u(s[i])),
                    self.product(q, v(s[i])),
                ),
        ensures
            self.total(f, s) == self.sum_of(
                self.product(p, self.total(u, s)),
                self.product(q, self.total(v, s)),
            ),
        decreases s.len(),
    {
        if s.len() > 0 {
            let front = s.drop_last();
            let last = s[s.len() - 1];
            assert forall|i: int| 0 <= i < front.len() implies f(#[trigger] front[i])
                == self.sum_of(self.product(p, u(front[i])), self.product(q, v(front[i]))) by {
                assert(front[i] == s[i]);
            }
            self.lemma_total_combines(p, u, q, v, f, front);
            assert(f(last) == self.sum_of(self.product(p, u(last)), self.product(q, v(last))));
            let (tu, tv) = (self.total(u, front), self.total(v, front));
            self.lemma_product_distributes(p, tu, u(last));
            self.lemma_product_distributes(q, tv, v(last));
            self.lemma_sums_interchange(
                self.product(p, tu),
                self.product(q, tv),
                self.product(p, u(last)),
                self.product(q, v(last)),
            );
        } else {
            self.lemma_product_with_zero(p);
            self.lemma_product_with_zero(q);
            self.lemma_sum_with_zero(self.zero);
        }
    }

    /// The sum over the elements that satisfy one of two predicates that exclude each other.
    pub proof fn lemma_total_splits<X>(
        self,
        f: spec_fn(X) -> T,
        s: Seq<X>,
        p: spec_fn(X) -> bool,
        q: spec_fn(X) -> bool,
        either: spec_fn(X) -> bool,
    )
        requires
            self.obeys_laws(),
            forall|i: int|
                0 <= i < s.len() ==> (either(#[trigger] s[i]) <==> p(s[i]) || q(s[i])) && !(p(s[i])
                    && q(s[i])),
        ensures
            self.total(f, s.filter(either)) == self.sum_of(
                self.total(f, s.filter(p)),
                self.total(f, s.filter(q)),
            ),
        decreases s.len(),
    {
        reveal(Seq::filter);
        if s.len() > 0 {
            let front = s.drop_last();
            assert forall|i: int| 0 <= i < front.len() implies (either(#[trigger] front[i]) <==> p(
                front[i],
            ) || q(front[i])) && !(p(front[i]) && q(front[i])) by {
                assert(front[i] == s[i]);
            }
            self.lemma_total_splits(f, front, p, q, either);
            let last = s[s.len() - 1];
            assert(either(last) <==> p(last) || q(last));
            assert(front.filter(either).push(last).drop_last() =~= front.filter(either));
            assert(front.filter(p).push(last).drop_last() =~= front.filter(p));
            assert(front.filter(q).push(last).drop_last() =~= front.filter(q));
            let (a, b, c) = (self.total(f, front.filter(p)), self.total(f, front.filter(q)), f(last));
            self.lemma_sum_associates(a, b, c);
            self.lemma_sum_commutes(b, c);
            self.lemma_sum_associates(a, c, b);
        } else {
            self.lemma_sum_with_zero(self.zero);
        }
    }
}

/// `val` tells which numbers are exact, and what they stand for: an operation whose result is
/// exact had exact operands, and its result is that of the ring. Arithmetic that answers
/// not-a-number where it would have to round is like this.
pub open spec fn stays_exact<A: Arith, T>(ring: Ring<T>, val: spec_fn(F64) -> Option<T>) -> bool {
    &&& val(F64::zero()) == Some(ring.zero)
    &&& val(F64::one()) == Some(ring.one)
    &&& forall|a: F64, b: F64, r: F64| #[trigger]
        is_sum::<A>(a, b, r) && val(r) is Some ==> val(a) is Some && val(b) is Some && val(r)->0
            == ring.sum_of(val(a)->0, val(b)->0)
    &&& forall|a: F64, b: F64, r: F64| #[trigger]
        is_diff::<A>(a, b, r) && val(r) is Some ==> val(a) is Some && val(b) is Some && val(r)->0
            == ring.difference(val(a)->0, val(b)->0)
    &&& forall|a: F64, b: F64, r: F64| #[trigger]
        is_prod::<A>(a, b, r) && val(r) is Some ==> val(a) is Some && val(b) is Some && val(r)->0
            == ring.product(val(a)->0, val(b)->0)
    &&& forall|a: F64, b: F64, r: F64| #[trigger]
        is_quot::<A>(a, b, r) && val(r) is Some ==> val(a) is Some && val(b) is Some && val(a)->0
            == ring.product(val(r)->0, val(b)->0)
    &&& forall|a: F64, r: F64| #[trigger]
        is_sqrt::<A>(a, r) && val(r) is Some ==> val(a) is Some && val(a)->0 == ring.product(
            val(r)->0,
            val(r)->0,
        )
}

/// A negated number that is exact is the opposite of an exact number.
pub open spec fn negates_exactly<T>(ring: Ring<T>, val: spec_fn(F64) -> Option<T>) -> bool {
    forall|a: F64|
        val(#[trigger] a.spec_negated()) is Some ==> val(a) is Some && ring.sum_of(
            val(a.spec_negated())->0,
            val(a)->0,
        ) == ring.zero
}

/// `x` is exact, and stands for `n`.
pub open spec fn is_count<T>(
    ring: Ring<T>,
    val: spec_fn(F64) -> Option<T>,
    n: int,
    x: F64,
) -> bool {
    val(x) == Some(ring.count(n))
}

/// A whole number that was converted exactly stands for itself.
pub open spec fn converts_exactly<A: Arith, T>(
    ring: Ring<T>,
    val: spec_fn(F64) -> Option<T>,
) -> bool {
    forall|n: int, x: F64|
        0 <= n && #[trigger] is_int::<A>(n, x) && val(x) is Some ==> is_count(ring, val, n, x)
}

/// Up to `n`, whole numbers are converted and added exactly, and a number that stands for one
/// of them is positive where that one is.
pub open spec fn counts_exactly<A: Arith, T>(
    ring: Ring<T>,
    val: spec_fn(F64) -> Option<T>,
    n: int,
) -> bool {
    &&& forall|i: int, x: F64|
        0 <= i <= n && #[trigger] is_int::<A>(i, x) ==> is_count(ring, val, i, x)
    &&& forall|i: int, j: int, a: F64, b: F64, x: F64|
        0 <= i && 0 <= j && i + j <= n && #[trigger] is_count(ring, val, i, a)
            && #[trigger] is_count(ring, val, j, b) && #[trigger] is_sum::<A>(a, b, x) ==> is_count(
            ring,
            val,
            i + j,
            x,
        )
    &&& forall|i: int, x: F64|
        0 < i <= n && #[trigger] is_count(ring, val, i, x) ==> F64::zero().lt(x)
}

/// The same of single-precision numbers, by what they stand for when widened.
pub open spec fn stays_exact32<A: Arith, T>(ring: Ring<T>, val: spec_fn(F64) -> Option<T>) -> bool {
    &&& val(F32::one().spec_widened()) == Some(ring.one)
    &&& forall|a: F32, b: F32, r: F32| #[trigger]
        is_diff32::<A>(a, b, r) && val(r.spec_widened()) is Some ==> val(a.spec_widened()) is Some
            && val(b.spec_widened()) is Some && val(r.spec_widened())->0 == ring.difference(
            val(a.spec_widened())->0,
            val(b.spec_widened())->0,
        )
    &&& forall|a: F32, b: F32, r: F32| #[trigger]
        is_prod32::<A>(a, b, r) && val(r.spec_widened()) is Some ==> val(a.spec_widened()) is Some
            && val(b.spec_widened()) is Some && val(r.spec_widened())->0 == ring.product(
            val(a.spec_widened())->0,
            val(b.spec_widened())->0,
        )
    &&& forall|a: F32, b: F32, r: F32| #[trigger]
        is_quot32::<A>(a, b, r) && val(r.spec_widened()) is Some ==> val(a.spec_widened()) is Some
            && val(b.spec_widened()) is Some && val(a.spec_widened())->0 == ring.product(
            val(r.spec_widened())->0,
            val(b.spec_widened())->0,
        )
    &&& forall|a: F64, r: F32| #[trigger]
        is_narrow::<A>(a, r) && val(r.spec_widened()) is Some ==> val(a) == val(r.spec_widened())
}

/// A number that was summed up exactly is the sum of what was added.
pub proof fn lemma_run_total<T>(
    ring: Ring<T>,
    val: spec_fn(F64) -> Option<T>,
    n: nat,
    step: spec_fn(int, F64, F64) -> bool,
    f: spec_fn(int) -> T,
    x: F64,
)
    requires
        val(F64::zero()) == Some(ring.zero),
        runs(F64::zero(), n, step, x),
        val(x) is Some,
        forall|i: int, a: F64, b: F64|
            0 <= i < n && #[trigger] step(i, a, b) && val(b) is Some ==> val(a) is Some && val(b)->0
                == ring.sum_of(val(a)->0, f(i)),
    ensures
        val(x)->0 == ring.sum_to(f, n as int),
    decreases n,
{
    if n > 0 {
        let m = lemma_runs_last(F64::zero(), n, step, x);
        assert(step(n - 1, m, x));
        lemma_run_total(ring, val, (n - 1) as nat, step, f, m);
    } else {
        let tr = choose|tr: Seq<F64>| #[trigger]
            is_trace(F64::zero(), n, step, tr) && tr[0] == x;
    }
}

/// Sums of single-precision numbers are exact in the same way.
pub open spec fn sums_exactly32<A: Arith, T>(ring: Ring<T>, val: spec_fn(F64) -> Option<T>) -> bool {
    forall|a: F32, b: F32, r: F32| #[trigger]
        is_sum32::<A>(a, b, r) && val(r.spec_widened()) is Some ==> val(a.spec_widened()) is Some
            && val(b.spec_widened()) is Some && val(r.spec_widened())->0 == ring.sum_of(
            val(a.spec_widened())->0,
            val(b.spec_widened())->0,
        )
}

/// No operation on exact numbers leaves them, but for a division by zero: arithmetic in a field
/// whose elements all have a number that stands for them is like this.
pub open spec fn never_leaves<A: Arith, T>(ring: Ring<T>, val: spec_fn(F64) -> Option<T>) -> bool {
    &&& forall|a: F64, b: F64, r: F64| #[trigger]
        is_sum::<A>(a, b, r) && val(a) is Some && val(b) is Some ==> val(r) is Some
    &&& forall|a: F64, b: F64, r: F64| #[trigger]
        is_diff::<A>(a, b, r) && val(a) is Some && val(b) is Some ==> val(r) is Some
    &&& forall|a: F64, b: F64, r: F64| #[trigger]
        is_prod::<A>(a, b, r) && val(a) is Some && val(b) is Some ==> val(r) is Some
    &&& forall|a: F64, b: F64, r: F64| #[trigger]
        is_quot::<A>(a, b, r) && val(a) is Some && val(b) is Some && val(b)->0 != ring.zero
            ==> val(r) is Some
    &&& forall|n: int, r: F64| #[trigger] is_int::<A>(n, r) ==> val(r) is Some
    &&& forall|a: F64, r: F32| #[trigger]
        is_narrow::<A>(a, r) && val(a) is Some ==> val(r.spec_widened()) is Some
    &&& forall|n: u8| val(#[trigger] F64::of_byte(n)) is Some
    &&& forall|a: F64| val(a) is Some ==> val(#[trigger] a.spec_negated()) is Some
}

/// The same of single-precision numbers, by what they stand for when widened.
pub open spec fn never_leaves32<A: Arith, T>(
    ring: Ring<T>,
    val: spec_fn(F64) -> Option<T>,
) -> bool {
    &&& forall|a: F32, b: F32, r: F32| #[trigger]
        is_sum32::<A>(a, b, r) && val(a.spec_widened()) is Some && val(b.spec_widened()) is Some
            ==> val(r.spec_widened()) is Some
    &&& forall|a: F32, b: F32, r: F32| #[trigger]
        is_diff32::<A>(a, b, r) && val(a.spec_widened()) is Some && val(b.spec_widened()) is Some
            ==> val(r.spec_widened()) is Some
    &&& forall|a: F32, b: F32, r: F32| #[trigger]
        is_prod32::<A>(a, b, r) && val(a.spec_widened()) is Some && val(b.spec_widened()) is Some
            ==> val(r.spec_widened()) is Some
    &&& forall|a: F32, b: F32, r: F32| #[trigger]
        is_quot32::<A>(a, b, r) && val(a.spec_widened()) is Some && val(b.spec_widened()) is Some
            && val(b.spec_widened())->0 != ring.zero ==> val(r.spec_widened()) is Some
}

/// `c` is `w` kept from `lo` to `hi`: itself there, and the nearer end beyond.
pub open spec fn is_kept_inside(w: F64, lo: F64, hi: F64, c: F64) -> bool {
    &&& !w.spec_is_nan() ==> lo.le(c) && c.le(hi)
    &&& lo.le(w) && w.le(hi) ==> c == w
    &&& w.lt(lo) ==> c == lo
    &&& hi.lt(w) ==> c == hi
    &&& w.spec_is_nan() ==> c == w
}

/// A label that is exact stands for itself.
pub open spec fn labels_stand<T>(ring: Ring<T>, val: spec_fn(F64) -> Option<T>) -> bool {
    forall|y: u8|
        val(#[trigger] F64::of_byte(y)) is Some ==> val(F64::of_byte(y))->0 == ring.count(y as int)
}

/// A number that items were added to exactly is the sum of what they added.
pub proof fn lemma_fold_total<X, T>(
    ring: Ring<T>,
    val: spec_fn(F64) -> Option<T>,
    items: Seq<X>,
    step: spec_fn(X, F64, F64) -> bool,
    f: spec_fn(X) -> T,
    x: F64,
)
    requires
        val(F64::zero()) == Some(ring.zero),
        folds(F64::zero(), items, step, x),
        val(x) is Some,
        forall|i: int, a: F64, b: F64|
            0 <= i < items.len() && #[trigger] step(items[i], a, b) && val(b) is Some ==> val(a)
                is Some && val(b)->0 == ring.sum_of(val(a)->0, f(items[i])),
    ensures
        val(x)->0 == ring.total(f, items),
    decreases items.len(),
{
    if items.len() > 0 {
        let front = items.drop_last();
        let m = lemma_folds_last(F64::zero(), items, step, x);
        assert(step(items[items.len() - 1], m, x));
        assert forall|i: int, a: F64, b: F64|
            0 <= i < front.len() && #[trigger] step(front[i], a, b) && val(b) is Some implies val(a)
            is Some && val(b)->0 == ring.sum_of(val(a)->0, f(front[i])) by {
            assert(front[i] == items[i]);
            assert(step(items[i], a, b));
        }
        lemma_fold_total(ring, val, front, step, f, m);
    } else {
        let tr = choose|tr: Seq<F64>| #[trigger]
            is_trace(F64::zero(), 0, item_step(items, step), tr) && tr[0] == x;
    }
}

/// A number stays exact through steps that keep it so.
pub proof fn lemma_run_stays<T>(
    val: spec_fn(F64) -> Option<T>,
    init: F64,
    n: nat,
    step: spec_fn(int, F64, F64) -> bool,
    x: F64,
)
    requires
        val(init) is Some,
        runs(init, n, step, x),
        forall|i: int, a: F64, b: F64|
            0 <= i < n && #[trigger] step(i, a, b) && val(a) is Some ==> val(b) is Some,
    ensures
        val(x) is Some,
    decreases n,
{
    if n > 0 {
        let m = lemma_runs_last(init, n, step, x);
        assert(step(n - 1, m, x));
        lemma_run_stays(val, init, (n - 1) as nat, step, m);
    } else {
        let tr = choose|tr: Seq<F64>| #[trigger] is_trace(init, n, step, tr) && tr[0] == x;
    }
}

/// A number stays exact through items that keep it so.
pub proof fn lemma_fold_stays<X, T>(
    val: spec_fn(F64) -> Option<T>,
    init: F64,
    items: Seq<X>,
    step: spec_fn(X, F64, F64) -> bool,
    x: F64,
)
    requires
        val(init) is Some,
        folds(init, items, step, x),
        forall|i: int, a: F64, b: F64|
            0 <= i < items.len() && #[trigger] step(items[i], a, b) && val(a) is Some ==> val(b)
                is Some,
    ensures
        val(x) is Some,
{
    lemma_run_stays(val, init, items.len(), item_step(items, step), x);
}

/// A number that items were added to exactly, from any start.
pub proof fn lemma_fold_total_from<X, T>(
    ring: Ring<T>,
    val: spec_fn(F64) -> Option<T>,
    init: F64,
    items: Seq<X>,
    step: spec_fn(X, F64, F64) -> bool,
    f: spec_fn(X) -> T,
    x: F64,
)
    requires
        ring.obeys_laws(),
        folds(init, items, step, x),
        val(x) is Some,
        forall|i: int, a: F64, b: F64|
            0 <= i < items.len() && #[trigger] step(items[i], a, b) && val(b) is Some ==> val(a)
                is Some && val(b)->0 == ring.sum_of(val(a)->0, f(items[i])),
    ensures
        val(init) is Some,
        val(x)->0 == ring.sum_of(val(init)->0, ring.total(f, items)),
    decreases items.len(),
{
    if items.len() > 0 {
        let front = items.drop_last();
        let m = lemma_folds_last(init, items, step, x);
        assert(step(items[items.len() - 1], m, x));
        assert forall|i: int, a: F64, b: F64|
            0 <= i < front.len() && #[trigger] step(front[i], a, b) && val(b) is Some implies val(a)
            is Some && val(b)->0 == ring.sum_of(val(a)->0, f(front[i])) by {
            assert(front[i] == items[i]);
            assert(step(items[i], a, b));
        }
        lemma_fold_total_from(ring, val, init, front, step, f, m);
        ring.lemma_sum_associates(val(init)->0, ring.total(f, front), f(items.last()));
    } else {
        let tr = choose|tr: Seq<F64>| #[trigger]
            is_trace(init, 0, item_step(items, step), tr) && tr[0] == x;
        ring.lemma_sum_with_zero(val(init)->0);
    }
}

} // verus!
