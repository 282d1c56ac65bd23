//! Minimal dense linear algebra: symmetric positive-(semi)definite solves via
//! Cholesky. Used by the leaf-model Newton/IRLS fit (up to d×d). Everything is [`F64`]
//! internally for numerical stability; callers narrow results to
//! [`F32`](crate::float::F32).

use vstd::prelude::*;
use crate::arith::{
    deterministic, is_diff, is_prod, is_quot, is_sqrt, is_sum, is_trace, lemma_runs_last,
    lemma_runs_next, lemma_runs_start, lemma_runs_unique, runs, Arith,
};
use crate::exact::{stays_exact, Ring};
use crate::float::F64;

verus! {

/// A dense symmetric matrix stored row-major (full storage, `n*n`).
#[derive(Clone, Debug)]
pub struct SymMatrix {
    pub n: usize,
    pub data: Vec<F64>,
}

/// An index into row `i` of a row-major `n` by `n` matrix is in range.
pub proof fn lemma_cell_in_range(n: int, i: int, j: int)
    requires
        0 <= i < n,
        0 <= j < n,
    ensures
        0 <= i * n <= i * n + j < n * n,
{
    assert(0 <= i * n && i * n + n <= n * n) by (nonlinear_arith)
        requires
            0 <= i < n,
    ;
}

/// Different cells have different indices.
pub proof fn lemma_cells_differ(n: int, i: int, j: int, k: int, l: int)
    requires
        0 <= j < n,
        0 <= l < n,
        i * n + j == k * n + l,
    ensures
        i == k,
        j == l,
{
    assert(i == k) by (nonlinear_arith)
        requires
            0 <= j < n,
            0 <= l < n,
            i * n + j == k * n + l,
    ;
}

impl SymMatrix {
    /// Full storage.
    pub open spec fn wf(self) -> bool {
        self.data.len() == self.n * self.n
    }

    pub fn zeros(n: usize) -> (r: Self)
        requires
            n * n <= usize::MAX,
        ensures
            r.n == n,
            r.wf(),
            r.data@ == Seq::new((n * n) as nat, |i: int| F64::zero()),
    {
        let len: usize = n * n;
        let mut data: Vec<F64> = Vec::with_capacity(len);
        let mut i: usize = 0;
        while i < len
            invariant
                i <= len,
                data@ == Seq::new(i as nat, |k: int| F64::zero()),
            decreases len - i,
        {
            data.push(F64::zero());
            i = i + 1;
        }
        SymMatrix { n, data }
    }

    #[inline]
    pub fn get(&self, i: usize, j: usize) -> (r: F64)
        requires
            i * self.n + j < self.data.len(),
        ensures
            r == self.data[i * self.n + j],
    {
        proof {
            assert(0 <= i * self.n) by (nonlinear_arith)
                requires
                    i >= 0,
                    self.n >= 0,
            ;
        }
        self.data[i * self.n + j]
    }

    /// Add `v` to the cell at row `i`, column `j`.
    #[inline]
    pub fn add<A: Arith>(&mut self, i: usize, j: usize, v: F64)
        requires
            i * old(self).n + j < old(self).data.len(),
        ensures
            final(self).n == old(self).n,
            exists|s: F64| #[trigger]
                is_sum::<A>(old(self).data[i * old(self).n + j], v, s) && final(self).data@
                    == old(self).data@.update(i * old(self).n + j, s),
    {
        proof {
            assert(0 <= i * self.n) by (nonlinear_arith)
                requires
                    i >= 0,
                    self.n >= 0,
            ;
        }
        let c: usize = i * self.n + j;
        let s = A::sum(self.data[c], v);
        self.data[c] = s;
        assert(is_sum::<A>(old(self).data[c as int], v, s));
    }

    /// Add `v` to the diagonal (L2 regularization `+ λI`).
    pub fn add_diag<A: Arith>(&mut self, v: F64)
        requires
            old(self).wf(),
        ensures
            final(self).n == old(self).n,
            final(self).wf(),
            forall|i: int, j: int|
                0 <= i < old(self).n && 0 <= j < old(self).n ==> {
                    let before = old(self).data[i * old(self).n + j];
                    let after = #[trigger] final(self).data[i * old(self).n + j];
                    if i == j {
                        is_sum::<A>(before, v, after)
                    } else {
                        after == before
                    }
                },
    {
        let n: usize = self.n;
        let mut i: usize = 0;
        while i < n
            invariant
                i <= n,
                n == self.n,
                n == old(self).n,
                self.wf(),
                old(self).wf(),
                forall|k: int, l: int|
                    0 <= k < n && 0 <= l < n ==> {
                        let before = old(self).data[k * n + l];
                        let after = #[trigger] self.data[k * n + l];
                        if k == l && k < i {
                            is_sum::<A>(before, v, after)
                        } else {
                            after == before
                        }
                    },
            decreases n - i,
        {
            proof {
                lemma_cell_in_range(n as int, i as int, i as int);
            }
            let c: usize = i * n + i;
            let ghost prev = self.data@;
            let s = A::sum(self.data[c], v);
            self.data[c] = s;
            proof {
                assert forall|k: int, l: int| 0 <= k < n && 0 <= l < n implies {
                    let before = old(self).data[k * n + l];
                    let after = #[trigger] self.data[k * n + l];
                    if k == l && k < i + 1 {
                        is_sum::<A>(before, v, after)
                    } else {
                        after == before
                    }
                } by {
                    lemma_cell_in_range(n as int, k, l);
                    assert(prev[i * n + i] == old(self).data[i * n + i]);
                    assert(prev[k * n + l] == self.data[k * n + l] || k * n + l == c);
                    if k * n + l == c {
                        lemma_cells_differ(n as int, k, l, i as int, i as int);
                    }
                }
            }
            i = i + 1;
        }
    }
}

/// Taking a product off a running value: `b` is `a - x * y`.
pub open spec fn is_minus_product<A: Arith>(a: F64, x: F64, y: F64, b: F64) -> bool {
    exists|p: F64| #[trigger] is_prod::<A>(x, y, p) && is_diff::<A>(a, p, b)
}

#[inline]
fn minus_product<A: Arith>(a: F64, x: F64, y: F64) -> (b: F64)
    ensures
        is_minus_product::<A>(a, x, y, b),
{
    let p = A::prod(x, y);
    let b = A::diff(a, p);
    assert(is_prod::<A>(x, y, p));
    b
}

/// Taking the products `l[i,k] * l[j,k]` off, in order of `k`.
pub open spec fn row_products<A: Arith>(
    l: Seq<F64>,
    n: int,
    i: int,
    j: int,
) -> spec_fn(int, F64, F64) -> bool {
    |k: int, a: F64, b: F64| is_minus_product::<A>(a, l[i * n + k], l[j * n + k], b)
}

/// `d` is the pivot of column `j`: the diagonal cell of `a` less the squares of the cells
/// of `l` to its left.
pub open spec fn is_pivot<A: Arith>(a: Seq<F64>, l: Seq<F64>, n: int, j: int, d: F64) -> bool {
    runs(a[j * n + j], j as nat, row_products::<A>(l, n, j, j), d)
}

/// A pivot with which the factorization goes on.
pub open spec fn usable_pivot(d: F64) -> bool {
    F64::zero().lt(d) && d.spec_is_finite()
}

/// Column `j` of `l` is the column of a Cholesky factor of `a`.
pub open spec fn is_factor_column<A: Arith>(a: Seq<F64>, l: Seq<F64>, n: int, j: int) -> bool {
    &&& exists|d: F64| #[trigger]
        is_pivot::<A>(a, l, n, j, d) && usable_pivot(d) && is_sqrt::<A>(d, l[j * n + j])
    &&& forall|i: int| j < i < n ==> #[trigger] is_factor_cell::<A>(a, l, n, i, j)
}

/// The cell of `l` at row `i`, column `j`, below the diagonal.
pub open spec fn is_factor_cell<A: Arith>(
    a: Seq<F64>,
    l: Seq<F64>,
    n: int,
    i: int,
    j: int,
) -> bool {
    exists|s: F64| #[trigger]
        runs(a[i * n + j], j as nat, row_products::<A>(l, n, i, j), s) && is_quot::<A>(
            s,
            l[j * n + j],
            l[i * n + j],
        )
}

/// The first `m` columns of `l` are those of a Cholesky factor of `a`.
pub open spec fn is_factor<A: Arith>(a: Seq<F64>, l: Seq<F64>, n: int, m: int) -> bool {
    forall|j: int| 0 <= j < m ==> #[trigger] is_factor_column::<A>(a, l, n, j)
}

/// Taking the products `l[i,k] * y[k]` off, in order of `k`.
pub open spec fn forward_products<A: Arith>(
    l: Seq<F64>,
    y: Seq<F64>,
    n: int,
    i: int,
) -> spec_fn(int, F64, F64) -> bool {
    |k: int, a: F64, b: F64| is_minus_product::<A>(a, l[i * n + k], y[k], b)
}

/// Component `i` of the solution of `L y = b`.
pub open spec fn is_forward<A: Arith>(
    l: Seq<F64>,
    b: Seq<F64>,
    y: Seq<F64>,
    n: int,
    i: int,
) -> bool {
    exists|s: F64| #[trigger]
        runs(b[i], i as nat, forward_products::<A>(l, y, n, i), s) && is_quot::<A>(
            s,
            l[i * n + i],
            y[i],
        )
}

/// Taking the products `l[k,i] * x[k]` off, in order of `k` from `i + 1`.
pub open spec fn back_products<A: Arith>(
    l: Seq<F64>,
    x: Seq<F64>,
    n: int,
    i: int,
) -> spec_fn(int, F64, F64) -> bool {
    |k: int, a: F64, b: F64|
        is_minus_product::<A>(a, l[(i + 1 + k) * n + i], x[i + 1 + k], b)
}

/// Component `i` of the solution of `Lᵀ x = y`.
pub open spec fn is_back<A: Arith>(
    l: Seq<F64>,
    y: Seq<F64>,
    x: Seq<F64>,
    n: int,
    i: int,
) -> bool {
    exists|s: F64| #[trigger]
        runs(y[i], (n - 1 - i) as nat, back_products::<A>(l, x, n, i), s) && is_quot::<A>(
            s,
            l[i * n + i],
            x[i],
        )
}

/// `x` is the solution through the factor `l`: forward to `y`, then back.
pub open spec fn solves_through<A: Arith>(
    l: Seq<F64>,
    b: Seq<F64>,
    y: Seq<F64>,
    x: Seq<F64>,
    n: int,
) -> bool {
    &&& y.len() == n
    &&& x.len() == n
    &&& forall|i: int| 0 <= i < n ==> #[trigger] is_forward::<A>(l, b, y, n, i)
    &&& forall|i: int| 0 <= i < n ==> #[trigger] is_back::<A>(l, y, x, n, i)
}

/// `x` is the Cholesky solution of `A x = b`.
pub open spec fn is_solution<A: Arith>(a: Seq<F64>, b: Seq<F64>, n: int, x: Seq<F64>) -> bool {
    exists|l: Seq<F64>, y: Seq<F64>| #[trigger]
        is_factor::<A>(a, l, n, n) && #[trigger] solves_through::<A>(l, b, y, x, n)
}

/// The factorization of `a` meets a pivot that is not positive and finite.
pub open spec fn is_rejected<A: Arith>(a: Seq<F64>, n: int) -> bool {
    exists|l: Seq<F64>, j: int, d: F64|
        0 <= j < n && #[trigger] is_factor::<A>(a, l, n, j) && #[trigger] is_pivot::<A>(a, l, n, j, d)
            && !usable_pivot(d)
}

/// Below the diagonal (and on it) the first `j` columns of two matrices agree.
spec fn same_columns(l: Seq<F64>, m: Seq<F64>, n: int, j: int) -> bool {
    forall|i: int, k: int|
        0 <= k <= i < n && k < j ==> #[trigger] l[i * n + k] == m[i * n + k]
}

/// What is said of a column only reads that column and those to its left.
proof fn lemma_column_frame<A: Arith>(a: Seq<F64>, l: Seq<F64>, m: Seq<F64>, n: int, j: int)
    requires
        is_factor_column::<A>(a, l, n, j),
        same_columns(l, m, n, j + 1),
        0 <= j < n,
    ensures
        is_factor_column::<A>(a, m, n, j),
{
    let d = choose|d: F64| #[trigger]
        is_pivot::<A>(a, l, n, j, d) && usable_pivot(d) && is_sqrt::<A>(d, l[j * n + j]);
    lemma_products_frame::<A>(l, m, n, j, j, a[j * n + j], d);
    assert(l[j * n + j] == m[j * n + j]);
    assert(is_pivot::<A>(a, m, n, j, d));
    assert forall|i: int| j < i < n implies #[trigger] is_factor_cell::<A>(a, m, n, i, j) by {
        assert(is_factor_cell::<A>(a, l, n, i, j));
        let s = choose|s: F64| #[trigger]
            runs(a[i * n + j], j as nat, row_products::<A>(l, n, i, j), s) && is_quot::<A>(
                s,
                l[j * n + j],
                l[i * n + j],
            );
        lemma_products_frame::<A>(l, m, n, i, j, a[i * n + j], s);
        assert(l[i * n + j] == m[i * n + j]);
    }
}

proof fn lemma_products_frame<A: Arith>(
    l: Seq<F64>,
    m: Seq<F64>,
    n: int,
    i: int,
    j: int,
    init: F64,
    s: F64,
)
    requires
        runs(init, j as nat, row_products::<A>(l, n, i, j), s),
        same_columns(l, m, n, j),
        0 <= j <= i < n,
    ensures
        runs(init, j as nat, row_products::<A>(m, n, i, j), s),
{
    let s1 = row_products::<A>(l, n, i, j);
    let s2 = row_products::<A>(m, n, i, j);
    assert forall|k: int, p: F64, q: F64| 0 <= k < j as nat && #[trigger] s1(k, p, q) implies s2(
        k,
        p,
        q,
    ) by {
        assert(l[i * n + k] == m[i * n + k]);
        assert(l[j * n + k] == m[j * n + k]);
    }
    crate::arith::lemma_runs_agree(init, j as nat, s1, s2, s);
}

proof fn lemma_factor_frame<A: Arith>(a: Seq<F64>, l: Seq<F64>, m: Seq<F64>, n: int, j: int)
    requires
        is_factor::<A>(a, l, n, j),
        same_columns(l, m, n, j),
        0 <= j <= n,
    ensures
        is_factor::<A>(a, m, n, j),
{
    assert forall|c: int| 0 <= c < j implies #[trigger] is_factor_column::<A>(a, m, n, c) by {
        assert(is_factor_column::<A>(a, l, n, c));
        assert(same_columns(l, m, n, c + 1));
        lemma_column_frame::<A>(a, l, m, n, c);
    }
}

/// What is left of cell `(i, j)` of the given matrix after the products of the first
/// `j` columns.
fn reduced<A: Arith>(data: &Vec<F64>, n: usize, i: usize, j: usize, init: F64) -> (s: F64)
    requires
        data.len() == n * n,
        j <= i < n,
    ensures
        runs(init, j as nat, row_products::<A>(data@, n as int, i as int, j as int), s),
{
    let ghost step = row_products::<A>(data@, n as int, i as int, j as int);
    let mut s: F64 = init;
    let mut k: usize = 0;
    proof {
        lemma_runs_start(init, step);
    }
    while k < j
        invariant
            k <= j <= i < n,
            data.len() == n * n,
            step == row_products::<A>(data@, n as int, i as int, j as int),
            runs(init, k as nat, step, s),
        decreases j - k,
    {
        proof {
            lemma_cell_in_range(n as int, i as int, k as int);
            lemma_cell_in_range(n as int, j as int, k as int);
        }
        let t = minus_product::<A>(s, data[i * n + k], data[j * n + k]);
        proof {
            assert(step(k as int, s, t));
            lemma_runs_next(init, k as nat, step, s, t);
        }
        s = t;
        k = k + 1;
    }
    s
}

/// Cells of column `j` and to its right still hold what they held in `a`.
spec fn untouched_from(a: Seq<F64>, l: Seq<F64>, n: int, j: int) -> bool {
    forall|i: int, k: int| 0 <= i < n && j <= k < n ==> #[trigger] l[i * n + k] == a[i * n + k]
}

/// `v` is the factor's cell at row `r`, column `j`, read off the columns of `pre`.
spec fn is_cell_from<A: Arith>(
    a: Seq<F64>,
    pre: Seq<F64>,
    n: int,
    r: int,
    j: int,
    ljj: F64,
    v: F64,
) -> bool {
    exists|s: F64| #[trigger]
        runs(a[r * n + j], j as nat, row_products::<A>(pre, n, r, j), s) && is_quot::<A>(s, ljj, v)
}

/// Turn column `j` of `data` into that of the factor; false where the pivot is unusable.
fn factor_column<A: Arith>(data: &mut Vec<F64>, n: usize, j: usize, Ghost(a): Ghost<Seq<F64>>) -> (r:
    bool)
    requires
        old(data).len() == n * n,
        a.len() == n * n,
        j < n,
        is_factor::<A>(a, old(data)@, n as int, j as int),
        untouched_from(a, old(data)@, n as int, j as int),
    ensures
        r ==> final(data).len() == n * n,
        r ==> is_factor::<A>(a, final(data)@, n as int, j + 1),
        r ==> untouched_from(a, final(data)@, n as int, j + 1),
        !r ==> is_rejected::<A>(a, n as int),
{
    let ghost pre = data@;
    proof {
        lemma_cell_in_range(n as int, j as int, j as int);
    }
    let diag = reduced::<A>(data, n, j, j, data[j * n + j]);
    proof {
        assert(pre[j * n + j] == a[j * n + j]);
        assert(is_pivot::<A>(a, pre, n as int, j as int, diag));
    }
    if diag.at_most(F64::zero()) || !diag.is_finite() {
        return false;
    }
    let ljj = A::sqrt(diag);
    data[j * n + j] = ljj;
    proof {
        assert forall|r: int, c: int| 0 <= c <= r < n && c < j implies #[trigger] pre[r * n + c]
            == data@[r * n + c] by {
            lemma_cell_in_range(n as int, r, c);
            if r * n + c == j * n + j {
                lemma_cells_differ(n as int, r, c, j as int, j as int);
            }
        }
        assert forall|r: int, c: int|
            0 <= r < n && j <= c < n && !(c == j && r <= j) implies #[trigger] data@[r * n + c]
            == a[r * n + c] by {
            lemma_cell_in_range(n as int, r, c);
            assert(pre[r * n + c] == a[r * n + c]);
            if r * n + c == j * n + j {
                lemma_cells_differ(n as int, r, c, j as int, j as int);
            }
        }
    }
    let mut i: usize = j + 1;
    while i < n
        invariant
            j < i <= n,
            a.len() == n * n,
            data.len() == n * n,
            same_columns(pre, data@, n as int, j as int),
            data@[j * n + j] == ljj,
            forall|r: int, c: int|
                0 <= r < n && j <= c < n && !(c == j && r < i) ==> #[trigger] data@[r * n + c]
                    == a[r * n + c],
            forall|r: int|
                j < r < i ==> #[trigger] is_cell_from::<A>(
                    a,
                    pre,
                    n as int,
                    r,
                    j as int,
                    ljj,
                    data@[r * n + j],
                ),
        decreases n - i,
    {
        proof {
            lemma_cell_in_range(n as int, i as int, j as int);
        }
        let ghost prev = data@;
        let c: usize = i * n + j;
        let s = reduced::<A>(data, n, i, j, data[c]);
        proof {
            assert(same_columns(prev, pre, n as int, j as int));
            lemma_products_frame::<A>(
                prev,
                pre,
                n as int,
                i as int,
                j as int,
                a[i * n + j],
                s,
            );
        }
        let q = A::quot(s, ljj);
        data[c] = q;
        proof {
            assert forall|r: int, k: int| 0 <= r < n && 0 <= k < n && !(r == i && k == j) implies
                #[trigger] data@[r * n + k] == prev[r * n + k] by {
                lemma_cell_in_range(n as int, r, k);
                if r * n + k == i * n + j {
                    lemma_cells_differ(n as int, r, k, i as int, j as int);
                }
            }
            assert(data@[j * n + j] == prev[j * n + j]);
            assert forall|r: int, k: int| 0 <= k <= r < n && k < j implies #[trigger] pre[r * n + k]
                == data@[r * n + k] by {
                assert(prev[r * n + k] == pre[r * n + k]);
                assert(data@[r * n + k] == prev[r * n + k]);
            }
            assert forall|r: int, k: int|
                0 <= r < n && j <= k < n && !(k == j && r < i + 1) implies #[trigger] data@[r * n
                + k] == a[r * n + k] by {
                assert(data@[r * n + k] == prev[r * n + k]);
            }
            assert(is_cell_from::<A>(a, pre, n as int, i as int, j as int, ljj, q));
            assert forall|r: int| j < r < i + 1 implies #[trigger] is_cell_from::<A>(
                a,
                pre,
                n as int,
                r,
                j as int,
                ljj,
                data@[r * n + j],
            ) by {
                if r < i {
                    assert(data@[r * n + j] == prev[r * n + j]);
                    assert(is_cell_from::<A>(
                        a,
                        pre,
                        n as int,
                        r,
                        j as int,
                        ljj,
                        prev[r * n + j],
                    ));
                }
            }
        }
        i = i + 1;
    }
    proof {
        let l = data@;
        lemma_factor_frame::<A>(a, pre, l, n as int, j as int);
        lemma_products_frame::<A>(
            pre,
            l,
            n as int,
            j as int,
            j as int,
            a[j * n + j],
            diag,
        );
        assert(is_pivot::<A>(a, l, n as int, j as int, diag));
        assert forall|r: int| j < r < n implies #[trigger] is_factor_cell::<A>(
            a,
            l,
            n as int,
            r,
            j as int,
        ) by {
            assert(is_cell_from::<A>(a, pre, n as int, r, j as int, ljj, l[r * n + j]));
            let s = choose|s: F64| #[trigger]
                runs(a[r * n + j], j as nat, row_products::<A>(pre, n as int, r, j as int), s)
                    && is_quot::<A>(s, ljj, l[r * n + j]);
            lemma_products_frame::<A>(pre, l, n as int, r, j as int, a[r * n + j], s);
        }
        assert(is_factor_column::<A>(a, l, n as int, j as int));
    }
    true
}

/// Solve `L y = b`.
fn forward<A: Arith>(l: &Vec<F64>, b: &Vec<F64>, n: usize) -> (y: Vec<F64>)
    requires
        l.len() == n * n,
        b.len() == n,
    ensures
        y.len() == n,
        forall|i: int| 0 <= i < n ==> #[trigger] is_forward::<A>(l@, b@, y@, n as int, i),
{
    let mut y: Vec<F64> = Vec::with_capacity(n);
    let mut i: usize = 0;
    while i < n
        invariant
            i <= n,
            l.len() == n * n,
            b.len() == n,
            y.len() == i,
            forall|r: int| 0 <= r < i ==> #[trigger] is_forward::<A>(l@, b@, y@, n as int, r),
        decreases n - i,
    {
        let ghost step = forward_products::<A>(l@, y@, n as int, i as int);
        let mut s: F64 = b[i];
        let mut k: usize = 0;
        proof {
            lemma_runs_start(s, step);
        }
        while k < i
            invariant
                k <= i < n,
                l.len() == n * n,
                b.len() == n,
                y.len() == i,
                step == forward_products::<A>(l@, y@, n as int, i as int),
                runs(b[i as int], k as nat, step, s),
            decreases i - k,
        {
            proof {
                lemma_cell_in_range(n as int, i as int, k as int);
            }
            let t = minus_product::<A>(s, l[i * n + k], y[k]);
            proof {
                assert(step(k as int, s, t));
                lemma_runs_next(b[i as int], k as nat, step, s, t);
            }
            s = t;
            k = k + 1;
        }
        proof {
            lemma_cell_in_range(n as int, i as int, i as int);
        }
        let q = A::quot(s, l[i * n + i]);
        let ghost prev = y@;
        y.push(q);
        proof {
            assert forall|r: int| 0 <= r < i + 1 implies #[trigger] is_forward::<A>(
                l@,
                b@,
                y@,
                n as int,
                r,
            ) by {
                let s1 = forward_products::<A>(l@, prev, n as int, r);
                let s2 = forward_products::<A>(l@, y@, n as int, r);
                let v = if r < i {
                    assert(is_forward::<A>(l@, b@, prev, n as int, r));
                    choose|v: F64| #[trigger]
                        runs(b[r], r as nat, s1, v) && is_quot::<A>(v, l[r * n + r], prev[r])
                } else {
                    s
                };
                crate::arith::lemma_runs_agree(b[r], r as nat, s1, s2, v);
                assert(is_quot::<A>(v, l[r * n + r], y[r]));
            }
        }
        i = i + 1;
    }
    y
}

/// Solve `Lᵀ x = y`.
fn back<A: Arith>(l: &Vec<F64>, y: &Vec<F64>, n: usize) -> (x: Vec<F64>)
    requires
        l.len() == n * n,
        y.len() == n,
    ensures
        x.len() == n,
        forall|i: int| 0 <= i < n ==> #[trigger] is_back::<A>(l@, y@, x@, n as int, i),
{
    let mut x: Vec<F64> = Vec::with_capacity(n);
    let mut z: usize = 0;
    while z < n
        invariant
            z <= n,
            x.len() == z,
        decreases n - z,
    {
        x.push(F64::zero());
        z = z + 1;
    }
    let mut m: usize = n;
    while m > 0
        invariant
            m <= n,
            l.len() == n * n,
            y.len() == n,
            x.len() == n,
            forall|r: int| m <= r < n ==> #[trigger] is_back::<A>(l@, y@, x@, n as int, r),
        decreases m,
    {
        let i: usize = m - 1;
        let ghost step = back_products::<A>(l@, x@, n as int, i as int);
        let mut s: F64 = y[i];
        let mut k: usize = i + 1;
        proof {
            lemma_runs_start(s, step);
        }
        while k < n
            invariant
                i < k <= n,
                l.len() == n * n,
                y.len() == n,
                x.len() == n,
                step == back_products::<A>(l@, x@, n as int, i as int),
                runs(y[i as int], (k - i - 1) as nat, step, s),
            decreases n - k,
        {
            proof {
                lemma_cell_in_range(n as int, k as int, i as int);
            }
            let t = minus_product::<A>(s, l[k * n + i], x[k]);
            proof {
                assert(i + 1 + (k - i - 1) == k);
                assert(step(k - i - 1, s, t));
                lemma_runs_next(y[i as int], (k - i - 1) as nat, step, s, t);
            }
            s = t;
            k = k + 1;
        }
        proof {
            lemma_cell_in_range(n as int, i as int, i as int);
        }
        let q = A::quot(s, l[i * n + i]);
        let ghost prev = x@;
        x[i] = q;
        proof {
            assert forall|r: int| i <= r < n implies #[trigger] is_back::<A>(
                l@,
                y@,
                x@,
                n as int,
                r,
            ) by {
                let s1 = back_products::<A>(l@, prev, n as int, r);
                let s2 = back_products::<A>(l@, x@, n as int, r);
                let v = if r > i {
                    assert(is_back::<A>(l@, y@, prev, n as int, r));
                    choose|v: F64| #[trigger]
                        runs(y[r], (n - 1 - r) as nat, s1, v) && is_quot::<A>(
                            v,
                            l[r * n + r],
                            prev[r],
                        )
                } else {
                    s
                };
                crate::arith::lemma_runs_agree(y[r], (n - 1 - r) as nat, s1, s2, v);
                assert(is_quot::<A>(v, l[r * n + r], x[r]));
            }
        }
        m = i;
    }
    x
}

/// Solve `A x = b` for symmetric positive-definite `A` via Cholesky
/// (`A = L Lᵀ`). Returns `None` if `A` is not numerically PD (caller should
/// have added enough L2 to guarantee PD). `A` is consumed as scratch.
pub fn cholesky_solve<A: Arith>(a: SymMatrix, b: &Vec<F64>) -> (r: Option<Vec<F64>>)
    requires
        a.wf(),
        b.len() == a.n,
    ensures
        match r {
            Some(x) => is_solution::<A>(a.data@, b@, a.n as int, x@),
            None => is_rejected::<A>(a.data@, a.n as int),
        },
{
    let n: usize = a.n;
    let mut data = a.data;
    let ghost a0 = data@;
    let ghost given = a;
    // In-place Cholesky factorization; lower triangle of `data` becomes L.
    let mut j: usize = 0;
    while j < n
        invariant
            j <= n,
            data.len() == n * n,
            a0.len() == n * n,
            a0 == given.data@,
            n == given.n,
            given == a,
            is_factor::<A>(a0, data@, n as int, j as int),
            untouched_from(a0, data@, n as int, j as int),
        decreases n - j,
    {
        if !factor_column::<A>(&mut data, n, j, Ghost(a0)) {
            return None;
        }
        j = j + 1;
    }
    let y = forward::<A>(&data, b, n);
    let x = back::<A>(&data, &y, n);
    assert(is_factor::<A>(a0, data@, n as int, n as int) && solves_through::<A>(
        data@,
        b@,
        y@,
        x@,
        n as int,
    ));
    Some(x)
}

proof fn lemma_products_unique<A: Arith>(
    l: Seq<F64>,
    m: Seq<F64>,
    n: int,
    i: int,
    j: int,
    init: F64,
    s: F64,
    t: F64,
)
    requires
        deterministic::<A>(),
        runs(init, j as nat, row_products::<A>(l, n, i, j), s),
        runs(init, j as nat, row_products::<A>(m, n, i, j), t),
        same_columns(l, m, n, j),
        0 <= j <= i < n,
    ensures
        s == t,
{
    lemma_products_frame::<A>(l, m, n, i, j, init, s);
    lemma_runs_unique(init, j as nat, row_products::<A>(m, n, i, j), s, t);
}

proof fn lemma_factor_unique<A: Arith>(a: Seq<F64>, l: Seq<F64>, m: Seq<F64>, n: int, j: int)
    requires
        deterministic::<A>(),
        is_factor::<A>(a, l, n, j),
        is_factor::<A>(a, m, n, j),
        0 <= j <= n,
    ensures
        same_columns(l, m, n, j),
    decreases j,
{
    if j > 0 {
        let c = j - 1;
        assert(is_factor::<A>(a, l, n, c)) by {
            assert forall|k: int| 0 <= k < c implies #[trigger] is_factor_column::<A>(
                a,
                l,
                n,
                k,
            ) by {}
        }
        assert(is_factor::<A>(a, m, n, c)) by {
            assert forall|k: int| 0 <= k < c implies #[trigger] is_factor_column::<A>(
                a,
                m,
                n,
                k,
            ) by {}
        }
        lemma_factor_unique::<A>(a, l, m, n, c);
        assert(is_factor_column::<A>(a, l, n, c));
        assert(is_factor_column::<A>(a, m, n, c));
        let d = choose|d: F64| #[trigger]
            is_pivot::<A>(a, l, n, c, d) && usable_pivot(d) && is_sqrt::<A>(d, l[c * n + c]);
        let e = choose|d: F64| #[trigger]
            is_pivot::<A>(a, m, n, c, d) && usable_pivot(d) && is_sqrt::<A>(d, m[c * n + c]);
        lemma_products_unique::<A>(l, m, n, c, c, a[c * n + c], d, e);
        assert(l[c * n + c] == m[c * n + c]);
        assert forall|i: int, k: int| 0 <= k <= i < n && k < j implies #[trigger] l[i * n + k]
            == m[i * n + k] by {
            if k == c && i > c {
                assert(is_factor_cell::<A>(a, l, n, i, c));
                assert(is_factor_cell::<A>(a, m, n, i, c));
                let s = choose|s: F64| #[trigger]
                    runs(a[i * n + c], c as nat, row_products::<A>(l, n, i, c), s) && is_quot::<A>(
                        s,
                        l[c * n + c],
                        l[i * n + c],
                    );
                let t = choose|s: F64| #[trigger]
                    runs(a[i * n + c], c as nat, row_products::<A>(m, n, i, c), s) && is_quot::<A>(
                        s,
                        m[c * n + c],
                        m[i * n + c],
                    );
                lemma_products_unique::<A>(l, m, n, i, c, a[i * n + c], s, t);
            }
        }
    }
}

proof fn lemma_forward_unique<A: Arith>(
    l: Seq<F64>,
    m: Seq<F64>,
    b: Seq<F64>,
    y: Seq<F64>,
    z: Seq<F64>,
    n: int,
    i: int,
)
    requires
        deterministic::<A>(),
        same_columns(l, m, n, n),
        forall|i: int| 0 <= i < n ==> #[trigger] is_forward::<A>(l, b, y, n, i),
        forall|i: int| 0 <= i < n ==> #[trigger] is_forward::<A>(m, b, z, n, i),
        0 <= i < n,
    ensures
        y[i] == z[i],
    decreases i,
{
    assert forall|k: int| 0 <= k < i implies y[k] == z[k] by {
        lemma_forward_unique::<A>(l, m, b, y, z, n, k);
    }
    assert(is_forward::<A>(l, b, y, n, i));
    assert(is_forward::<A>(m, b, z, n, i));
    let s1 = forward_products::<A>(l, y, n, i);
    let s2 = forward_products::<A>(m, z, n, i);
    let s = choose|s: F64| #[trigger]
        runs(b[i], i as nat, s1, s) && is_quot::<A>(s, l[i * n + i], y[i]);
    let t = choose|s: F64| #[trigger]
        runs(b[i], i as nat, s2, s) && is_quot::<A>(s, m[i * n + i], z[i]);
    assert forall|k: int, p: F64, q: F64| 0 <= k < i as nat && #[trigger] s1(k, p, q) implies s2(
        k,
        p,
        q,
    ) by {
        assert(l[i * n + k] == m[i * n + k]);
    }
    crate::arith::lemma_runs_agree(b[i], i as nat, s1, s2, s);
    lemma_runs_unique(b[i], i as nat, s2, s, t);
    assert(l[i * n + i] == m[i * n + i]);
}

proof fn lemma_back_unique<A: Arith>(
    l: Seq<F64>,
    m: Seq<F64>,
    y: Seq<F64>,
    x: Seq<F64>,
    w: Seq<F64>,
    n: int,
    i: int,
)
    requires
        deterministic::<A>(),
        same_columns(l, m, n, n),
        forall|i: int| 0 <= i < n ==> #[trigger] is_back::<A>(l, y, x, n, i),
        forall|i: int| 0 <= i < n ==> #[trigger] is_back::<A>(m, y, w, n, i),
        0 <= i < n,
    ensures
        x[i] == w[i],
    decreases n - i,
{
    assert forall|k: int| i < k < n implies x[k] == w[k] by {
        lemma_back_unique::<A>(l, m, y, x, w, n, k);
    }
    assert(is_back::<A>(l, y, x, n, i));
    assert(is_back::<A>(m, y, w, n, i));
    let c = (n - 1 - i) as nat;
    let s1 = back_products::<A>(l, x, n, i);
    let s2 = back_products::<A>(m, w, n, i);
    let s = choose|s: F64| #[trigger] runs(y[i], c, s1, s) && is_quot::<A>(s, l[i * n + i], x[i]);
    let t = choose|s: F64| #[trigger] runs(y[i], c, s2, s) && is_quot::<A>(s, m[i * n + i], w[i]);
    assert forall|k: int, p: F64, q: F64| 0 <= k < c && #[trigger] s1(k, p, q) implies s2(
        k,
        p,
        q,
    ) by {
        let r = i + 1 + k;
        assert(l[r * n + i] == m[r * n + i]);
        assert(x[r] == w[r]);
    }
    crate::arith::lemma_runs_agree(y[i], c, s1, s2, s);
    lemma_runs_unique(y[i], c, s2, s, t);
    assert(l[i * n + i] == m[i * n + i]);
}

/// With deterministic arithmetic a system has one Cholesky solution.
pub proof fn lemma_solution_unique<A: Arith>(
    a: Seq<F64>,
    b: Seq<F64>,
    n: int,
    x: Seq<F64>,
    w: Seq<F64>,
)
    requires
        deterministic::<A>(),
        n >= 0,
        is_solution::<A>(a, b, n, x),
        is_solution::<A>(a, b, n, w),
    ensures
        x == w,
{
    let (l, y) = choose|l: Seq<F64>, y: Seq<F64>| #[trigger]
        is_factor::<A>(a, l, n, n) && #[trigger] solves_through::<A>(l, b, y, x, n);
    let (m, z) = choose|l: Seq<F64>, y: Seq<F64>| #[trigger]
        is_factor::<A>(a, l, n, n) && #[trigger] solves_through::<A>(l, b, y, w, n);
    lemma_factor_unique::<A>(a, l, m, n, n);
    assert forall|i: int| 0 <= i < n implies y[i] == z[i] by {
        lemma_forward_unique::<A>(l, m, b, y, z, n, i);
    }
    assert(y =~= z);
    assert forall|i: int| 0 <= i < n implies x[i] == w[i] by {
        lemma_back_unique::<A>(l, m, y, x, w, n, i);
    }
    assert(x =~= w);
}

/// With deterministic arithmetic a matrix is either solved with or rejected, never both.
pub proof fn lemma_solved_or_rejected<A: Arith>(a: Seq<F64>, b: Seq<F64>, n: int, x: Seq<F64>)
    requires
        deterministic::<A>(),
        is_solution::<A>(a, b, n, x),
    ensures
        !is_rejected::<A>(a, n),
{
    let (l, y) = choose|l: Seq<F64>, y: Seq<F64>| #[trigger]
        is_factor::<A>(a, l, n, n) && #[trigger] solves_through::<A>(l, b, y, x, n);
    if is_rejected::<A>(a, n) {
        let (m, j, d) = choose|l: Seq<F64>, j: int, d: F64|
            0 <= j < n && #[trigger] is_factor::<A>(a, l, n, j) && #[trigger] is_pivot::<A>(
                a,
                l,
                n,
                j,
                d,
            ) && !usable_pivot(d);
        assert(is_factor::<A>(a, l, n, j)) by {
            assert forall|k: int| 0 <= k < j implies #[trigger] is_factor_column::<A>(
                a,
                l,
                n,
                k,
            ) by {}
        }
        lemma_factor_unique::<A>(a, l, m, n, j);
        assert(is_factor_column::<A>(a, l, n, j));
        let e = choose|d: F64| #[trigger]
            is_pivot::<A>(a, l, n, j, d) && usable_pivot(d) && is_sqrt::<A>(d, l[j * n + j]);
        lemma_products_unique::<A>(l, m, n, j, j, a[j * n + j], e, d);
    }
}

/// The exact products `x(k) · y(k)`.
spec fn products<T>(
    ring: Ring<T>,
    x: spec_fn(int) -> T,
    y: spec_fn(int) -> T,
) -> spec_fn(int) -> T {
    |k: int| ring.product(x(k), y(k))
}

/// Taking products off leaves the difference: with the products added again it is where the
/// run started.
proof fn lemma_run_takes_off<T>(
    ring: Ring<T>,
    val: spec_fn(F64) -> Option<T>,
    init: F64,
    n: nat,
    step: spec_fn(int, F64, F64) -> bool,
    x: spec_fn(int) -> T,
    y: spec_fn(int) -> T,
    known: spec_fn(int) -> bool,
    s: F64,
)
    requires
        ring.obeys_laws(),
        runs(init, n, step, s),
        val(s) is Some,
        forall|k: int, a: F64, b: F64|
            0 <= k < n && #[trigger] step(k, a, b) && val(b) is Some ==> known(k) && val(a) is Some
                && val(b)->0 == ring.difference(val(a)->0, ring.product(x(k), y(k))),
    ensures
        val(init) is Some,
        val(init)->0 == ring.sum_of(val(s)->0, ring.sum_to(products(ring, x, y), n as int)),
        forall|k: int| 0 <= k < n ==> #[trigger] known(k),
    decreases n,
{
    let f = products(ring, x, y);
    if n > 0 {
        let m = lemma_runs_last(init, n, step, s);
        assert(step(n - 1, m, s));
        lemma_run_takes_off(ring, val, init, (n - 1) as nat, step, x, y, known, m);
        let p = f(n - 1);
        let front = ring.sum_to(f, n - 1);
        ring.lemma_difference_undone(val(m)->0, p);
        ring.lemma_sum_associates(val(s)->0, p, front);
        ring.lemma_sum_commutes(p, front);
    } else {
        let tr = choose|tr: Seq<F64>| #[trigger] is_trace(init, n, step, tr) && tr[0] == s;
        ring.lemma_sum_with_zero(val(s)->0);
    }
}

/// The exact cell of the factor: zero above the diagonal.
spec fn exact_cell<T>(
    ring: Ring<T>,
    val: spec_fn(F64) -> Option<T>,
    l: Seq<F64>,
    n: int,
    i: int,
    k: int,
) -> T {
    if k <= i {
        val(l[i * n + k])->0
    } else {
        ring.zero
    }
}

/// Row `i` of the exact factor.
spec fn exact_row<T>(
    ring: Ring<T>,
    val: spec_fn(F64) -> Option<T>,
    l: Seq<F64>,
    n: int,
    i: int,
) -> spec_fn(int) -> T {
    |k: int| exact_cell(ring, val, l, n, i, k)
}

/// Column `k` of the exact factor.
spec fn exact_column<T>(
    ring: Ring<T>,
    val: spec_fn(F64) -> Option<T>,
    l: Seq<F64>,
    n: int,
    k: int,
) -> spec_fn(int) -> T {
    |i: int| exact_cell(ring, val, l, n, i, k)
}

/// The exact components of a vector.
spec fn exact_vector<T>(val: spec_fn(F64) -> Option<T>, x: Seq<F64>) -> spec_fn(int) -> T {
    |k: int| val(x[k])->0
}

/// The factor times its transpose is the matrix, below the diagonal and on it.
proof fn lemma_factor_squared<A: Arith, T>(
    ring: Ring<T>,
    val: spec_fn(F64) -> Option<T>,
    a: Seq<F64>,
    l: Seq<F64>,
    n: int,
    i: int,
    j: int,
)
    requires
        ring.obeys_laws(),
        stays_exact::<A, T>(ring, val),
        is_factor::<A>(a, l, n, n),
        0 <= j <= i < n,
        val(l[i * n + j]) is Some,
    ensures
        val(a[i * n + j]) is Some,
        val(a[i * n + j])->0 == ring.sum_to(
            products(ring, exact_row(ring, val, l, n, i), exact_row(ring, val, l, n, j)),
            n,
        ),
{
    let x = exact_row(ring, val, l, n, i);
    let y = exact_row(ring, val, l, n, j);
    let f = products(ring, x, y);
    let any = |k: int| true;
    let step = row_products::<A>(l, n, i, j);
    assert(is_factor_column::<A>(a, l, n, j));
    let s = if i == j {
        choose|d: F64| #[trigger]
            is_pivot::<A>(a, l, n, j, d) && usable_pivot(d) && is_sqrt::<A>(d, l[j * n + j])
    } else {
        assert(is_factor_cell::<A>(a, l, n, i, j));
        choose|s: F64| #[trigger]
            runs(a[i * n + j], j as nat, row_products::<A>(l, n, i, j), s) && is_quot::<A>(
                s,
                l[j * n + j],
                l[i * n + j],
            )
    };
    assert forall|k: int, p: F64, q: F64|
        0 <= k < j && #[trigger] step(k, p, q) && val(q) is Some implies any(k) && val(p) is Some
        && val(q)->0 == ring.difference(val(p)->0, ring.product(x(k), y(k))) by {
        assert(is_minus_product::<A>(p, l[i * n + k], l[j * n + k], q));
        let w = choose|w: F64| #[trigger]
            is_prod::<A>(l[i * n + k], l[j * n + k], w) && is_diff::<A>(p, w, q);
    }
    assert(val(s) is Some && val(s)->0 == f(j));
    lemma_run_takes_off(ring, val, a[i * n + j], j as nat, step, x, y, any, s);
    ring.lemma_sum_commutes(val(s)->0, ring.sum_to(f, j));
    assert(ring.sum_to(f, j + 1) == ring.sum_of(ring.sum_to(f, j), f(j)));
    assert forall|k: int| j + 1 <= k < n implies #[trigger] f(k) == ring.zero by {
        ring.lemma_product_with_zero(x(k));
    }
    ring.lemma_sum_ends(f, j + 1, n);
}

/// The forward solve solves `L y = b`.
proof fn lemma_forward_solves<A: Arith, T>(
    ring: Ring<T>,
    val: spec_fn(F64) -> Option<T>,
    l: Seq<F64>,
    b: Seq<F64>,
    y: Seq<F64>,
    n: int,
    i: int,
)
    requires
        ring.obeys_laws(),
        stays_exact::<A, T>(ring, val),
        0 <= i < n,
        is_forward::<A>(l, b, y, n, i),
        val(y[i]) is Some,
    ensures
        val(b[i]) is Some,
        val(b[i])->0 == ring.sum_to(
            products(ring, exact_row(ring, val, l, n, i), exact_vector(val, y)),
            n,
        ),
{
    let x = exact_row(ring, val, l, n, i);
    let v = exact_vector(val, y);
    let f = products(ring, x, v);
    let any = |k: int| true;
    let step = forward_products::<A>(l, y, n, i);
    let s = choose|s: F64| #[trigger]
        runs(b[i], i as nat, forward_products::<A>(l, y, n, i), s) && is_quot::<A>(
            s,
            l[i * n + i],
            y[i],
        );
    assert forall|k: int, p: F64, q: F64|
        0 <= k < i && #[trigger] step(k, p, q) && val(q) is Some implies any(k) && val(p) is Some
        && val(q)->0 == ring.difference(val(p)->0, ring.product(x(k), v(k))) by {
        assert(is_minus_product::<A>(p, l[i * n + k], y[k], q));
        let w = choose|w: F64| #[trigger]
            is_prod::<A>(l[i * n + k], y[k], w) && is_diff::<A>(p, w, q);
    }
    ring.lemma_product_commutes(val(y[i])->0, val(l[i * n + i])->0);
    assert(val(s) is Some && val(s)->0 == f(i));
    lemma_run_takes_off(ring, val, b[i], i as nat, step, x, v, any, s);
    ring.lemma_sum_commutes(val(s)->0, ring.sum_to(f, i));
    assert(ring.sum_to(f, i + 1) == ring.sum_of(ring.sum_to(f, i), f(i)));
    assert forall|k: int| i + 1 <= k < n implies #[trigger] f(k) == ring.zero by {
        ring.lemma_product_with_zero(v(k));
    }
    ring.lemma_sum_ends(f, i + 1, n);
}

/// The back solve solves `Lᵀ x = y`, and reads column `i` of the factor.
proof fn lemma_back_solves<A: Arith, T>(
    ring: Ring<T>,
    val: spec_fn(F64) -> Option<T>,
    l: Seq<F64>,
    y: Seq<F64>,
    x: Seq<F64>,
    n: int,
    i: int,
)
    requires
        ring.obeys_laws(),
        stays_exact::<A, T>(ring, val),
        0 <= i < n,
        is_back::<A>(l, y, x, n, i),
        val(x[i]) is Some,
    ensures
        val(y[i]) is Some,
        val(y[i])->0 == ring.sum_to(
            products(ring, exact_column(ring, val, l, n, i), exact_vector(val, x)),
            n,
        ),
        forall|k: int| i <= k < n ==> val(#[trigger] l[k * n + i]) is Some,
{
    let c = exact_column(ring, val, l, n, i);
    let v = exact_vector(val, x);
    let f = products(ring, c, v);
    let c2 = |k: int| c(i + 1 + k);
    let v2 = |k: int| v(i + 1 + k);
    let f2 = products(ring, c2, v2);
    let known = |k: int| val(l[(i + 1 + k) * n + i]) is Some;
    let m = n - 1 - i;
    let step = back_products::<A>(l, x, n, i);
    let s = choose|s: F64| #[trigger]
        runs(y[i], (n - 1 - i) as nat, back_products::<A>(l, x, n, i), s) && is_quot::<A>(
            s,
            l[i * n + i],
            x[i],
        );
    assert forall|k: int, p: F64, q: F64|
        0 <= k < m && #[trigger] step(k, p, q) && val(q) is Some implies known(k) && val(p) is Some
        && val(q)->0 == ring.difference(val(p)->0, ring.product(c2(k), v2(k))) by {
        let (lk, xk) = (l[(i + 1 + k) * n + i], x[i + 1 + k]);
        assert(is_minus_product::<A>(p, lk, xk, q));
        let w = choose|w: F64| #[trigger] is_prod::<A>(lk, xk, w) && is_diff::<A>(p, w, q);
    }
    ring.lemma_product_commutes(val(x[i])->0, val(l[i * n + i])->0);
    assert(val(s) is Some && val(s)->0 == f(i));
    lemma_run_takes_off(ring, val, y[i], m as nat, step, c2, v2, known, s);
    assert forall|k: int| i <= k < n implies val(#[trigger] l[k * n + i]) is Some by {
        if k > i {
            assert(known(k - i - 1));
        }
    }
    // All terms up to and with the diagonal, and those after it.
    let head = |k: int|
        if k <= i {
            f(k)
        } else {
            ring.zero
        };
    let tail = |k: int|
        if k <= i {
            ring.zero
        } else {
            f(k)
        };
    assert forall|k: int| 0 <= k < n implies #[trigger] f(k) == ring.sum_of(head(k), tail(k)) by {
        ring.lemma_sum_with_zero(f(k));
    }
    ring.lemma_sum_adds(head, tail, f, n);
    assert forall|k: int| i + 1 <= k < n implies #[trigger] head(k) == ring.zero by {}
    ring.lemma_sum_ends(head, i + 1, n);
    assert forall|k: int| 0 <= k < i implies #[trigger] head(k) == ring.zero by {
        ring.lemma_product_with_zero(v(k));
    }
    ring.lemma_sum_ends(head, 0, i);
    ring.lemma_sum_with_zero(f(i));
    assert(ring.sum_to(head, i + 1) == f(i));
    assert forall|k: int| 0 <= k < n - (i + 1) implies #[trigger] f2(k) == tail(i + 1 + k) by {}
    ring.lemma_sum_begins(tail, f2, i + 1, n);
}

/// The exact cell of a symmetric matrix that is read below the diagonal and on it.
pub open spec fn symmetric_cell<T>(
    val: spec_fn(F64) -> Option<T>,
    a: Seq<F64>,
    n: int,
    i: int,
    j: int,
) -> T {
    if j <= i {
        val(a[i * n + j])->0
    } else {
        val(a[j * n + i])->0
    }
}

/// Component `i` of `A x`, exactly.
pub open spec fn matrix_times<T>(
    ring: Ring<T>,
    val: spec_fn(F64) -> Option<T>,
    a: Seq<F64>,
    n: int,
    x: Seq<F64>,
    i: int,
) -> T {
    ring.sum_to(|j: int| ring.product(symmetric_cell(val, a, n, i, j), val(x[j])->0), n)
}

/// The solve solves: a solution that was computed exactly satisfies `A x = b`.
pub proof fn lemma_solution_solves<A: Arith, T>(
    ring: Ring<T>,
    val: spec_fn(F64) -> Option<T>,
    a: Seq<F64>,
    b: Seq<F64>,
    n: int,
    x: Seq<F64>,
    i: int,
)
    requires
        ring.obeys_laws(),
        stays_exact::<A, T>(ring, val),
        is_solution::<A>(a, b, n, x),
        forall|k: int| 0 <= k < n ==> val(#[trigger] x[k]) is Some,
        0 <= i < n,
    ensures
        val(b[i]) == Some(matrix_times(ring, val, a, n, x, i)),
{
    let (l, y) = choose|l: Seq<F64>, y: Seq<F64>| #[trigger]
        is_factor::<A>(a, l, n, n) && #[trigger] solves_through::<A>(l, b, y, x, n);
    let row = exact_row(ring, val, l, n, i);
    let xs = exact_vector(val, x);
    let ys = exact_vector(val, y);
    // L[i,k] · (L[j,k] · x[j]).
    let table = |j: int, k: int|
        ring.product(row(k), ring.product(exact_cell(ring, val, l, n, j, k), xs(j)));
    ring.lemma_sum_swaps(table, n, n);
    // Summed over k, a row of the table is A[i,j] · x[j].
    let lhs = |j: int| ring.product(symmetric_cell(val, a, n, i, j), val(x[j])->0);
    assert forall|j: int| 0 <= j < n implies #[trigger] ring.row_sums(table, n)(j) == lhs(j) by {
        let other = exact_row(ring, val, l, n, j);
        let f = products(ring, row, other);
        let g = products(ring, other, row);
        if j <= i {
            assert(is_back::<A>(l, y, x, n, j));
            lemma_back_solves::<A, T>(ring, val, l, y, x, n, j);
            lemma_factor_squared::<A, T>(ring, val, a, l, n, i, j);
        } else {
            assert(is_back::<A>(l, y, x, n, i));
            lemma_back_solves::<A, T>(ring, val, l, y, x, n, i);
            lemma_factor_squared::<A, T>(ring, val, a, l, n, j, i);
            assert forall|k: int| 0 <= k < n implies #[trigger] f(k) == g(k) by {
                ring.lemma_product_commutes(row(k), other(k));
            }
            ring.lemma_sum_agrees(f, g, n);
        }
        let cell = symmetric_cell(val, a, n, i, j);
        assert(cell == ring.sum_to(f, n));
        let t = |k: int| table(j, k);
        assert forall|k: int| 0 <= k < n implies #[trigger] t(k) == ring.product(xs(j), f(k)) by {
            ring.lemma_product_associates(row(k), other(k), xs(j));
            ring.lemma_product_commutes(f(k), xs(j));
        }
        ring.lemma_sum_scales(xs(j), f, t, n);
        ring.lemma_product_commutes(xs(j), cell);
    }
    ring.lemma_sum_agrees(ring.row_sums(table, n), lhs, n);
    // Summed over j, a column of the table is L[i,k] · y[k].
    let rhs = products(ring, row, ys);
    assert forall|k: int| 0 <= k < n implies #[trigger] ring.column_sums(table, n)(k) == rhs(k) by {
        assert(is_back::<A>(l, y, x, n, k));
        lemma_back_solves::<A, T>(ring, val, l, y, x, n, k);
        let f = products(ring, exact_column(ring, val, l, n, k), xs);
        let t = |j: int| table(j, k);
        assert forall|j: int| 0 <= j < n implies #[trigger] t(j) == ring.product(row(k), f(j)) by {}
        ring.lemma_sum_scales(row(k), f, t, n);
    }
    ring.lemma_sum_agrees(ring.column_sums(table, n), rhs, n);
    assert(is_back::<A>(l, y, x, n, i));
    lemma_back_solves::<A, T>(ring, val, l, y, x, n, i);
    assert(is_forward::<A>(l, b, y, n, i));
    lemma_forward_solves::<A, T>(ring, val, l, b, y, n, i);
}

/// Why a matrix is rejected: some pivot is not positive or not finite. With the squares of the
/// factor's cells to its left the pivot is the diagonal cell. `l` holds the columns before, `j` is
/// the column, and `d` the pivot.
pub proof fn lemma_rejection_has_reason<A: Arith, T>(
    ring: Ring<T>,
    val: spec_fn(F64) -> Option<T>,
    a: Seq<F64>,
    n: int,
) -> (r: (Seq<F64>, int, F64))
    requires
        ring.obeys_laws(),
        stays_exact::<A, T>(ring, val),
        is_rejected::<A>(a, n),
    ensures
        0 <= r.1 < n,
        r.2.le(F64::zero()) || !r.2.spec_is_finite(),
        val(r.2) is Some ==> val(a[r.1 * n + r.1]) is Some && val(a[r.1 * n + r.1])->0
            == ring.sum_of(
            val(r.2)->0,
            ring.sum_to(
                |k: int| ring.product(val(r.0[r.1 * n + k])->0, val(r.0[r.1 * n + k])->0),
                r.1,
            ),
        ),
{
    let (l, j, d) = choose|l: Seq<F64>, j: int, d: F64|
        0 <= j < n && #[trigger] is_factor::<A>(a, l, n, j) && #[trigger] is_pivot::<A>(
            a,
            l,
            n,
            j,
            d,
        ) && !usable_pivot(d);
    lemma_pivot_exact::<A, T>(ring, val, a, l, n, j, d);
    (l, j, d)
}

/// Where a matrix is solved with, every pivot is positive and finite: `ds` are the pivots, and
/// `l` the factor.
pub proof fn lemma_solution_has_pivots<A: Arith, T>(
    ring: Ring<T>,
    val: spec_fn(F64) -> Option<T>,
    a: Seq<F64>,
    b: Seq<F64>,
    n: int,
    x: Seq<F64>,
) -> (r: (Seq<F64>, Seq<F64>))
    requires
        ring.obeys_laws(),
        stays_exact::<A, T>(ring, val),
        0 <= n,
        is_solution::<A>(a, b, n, x),
    ensures
        r.1.len() == n,
        forall|j: int|
            0 <= j < n ==> F64::zero().lt(#[trigger] r.1[j]) && r.1[j].spec_is_finite(),
        forall|j: int|
            0 <= j < n && val(#[trigger] r.1[j]) is Some ==> val(a[j * n + j])->0 == ring.sum_of(
                val(r.1[j])->0,
                ring.sum_to(
                    |k: int| ring.product(val(r.0[j * n + k])->0, val(r.0[j * n + k])->0),
                    j,
                ),
            ),
{
    let (l, y) = choose|l: Seq<F64>, y: Seq<F64>| #[trigger]
        is_factor::<A>(a, l, n, n) && #[trigger] solves_through::<A>(l, b, y, x, n);
    let ds = Seq::new(
        n as nat,
        |j: int|
            choose|d: F64| #[trigger]
                is_pivot::<A>(a, l, n, j, d) && usable_pivot(d) && is_sqrt::<A>(d, l[j * n + j]),
    );
    assert forall|j: int| 0 <= j < n implies is_pivot::<A>(a, l, n, j, #[trigger] ds[j])
        && usable_pivot(ds[j]) by {
        assert(is_factor_column::<A>(a, l, n, j));
    }
    assert forall|j: int| 0 <= j < n && val(#[trigger] ds[j]) is Some implies val(a[j * n + j])->0
        == ring.sum_of(
        val(ds[j])->0,
        ring.sum_to(|k: int| ring.product(val(l[j * n + k])->0, val(l[j * n + k])->0), j),
    ) by {
        lemma_pivot_exact::<A, T>(ring, val, a, l, n, j, ds[j]);
    }
    (l, ds)
}

proof fn lemma_pivot_exact<A: Arith, T>(
    ring: Ring<T>,
    val: spec_fn(F64) -> Option<T>,
    a: Seq<F64>,
    l: Seq<F64>,
    n: int,
    j: int,
    d: F64,
)
    requires
        ring.obeys_laws(),
        stays_exact::<A, T>(ring, val),
        0 <= j < n,
        is_pivot::<A>(a, l, n, j, d),
    ensures
        val(d) is Some ==> val(a[j * n + j]) is Some && val(a[j * n + j])->0 == ring.sum_of(
            val(d)->0,
            ring.sum_to(|k: int| ring.product(val(l[j * n + k])->0, val(l[j * n + k])->0), j),
        ),
{
    if val(d) is Some {
        let x = |k: int| val(l[j * n + k])->0;
        let any = |k: int| true;
        let step = row_products::<A>(l, n, j, j);
        assert forall|k: int, p: F64, q: F64|
            0 <= k < j && #[trigger] step(k, p, q) && val(q) is Some implies any(k) && val(p)
            is Some && val(q)->0 == ring.difference(val(p)->0, ring.product(x(k), x(k))) by {
            assert(is_minus_product::<A>(p, l[j * n + k], l[j * n + k], q));
            let w = choose|w: F64| #[trigger]
                is_prod::<A>(l[j * n + k], l[j * n + k], w) && is_diff::<A>(p, w, q);
        }
        lemma_run_takes_off(ring, val, a[j * n + j], j as nat, step, x, x, any, d);
        ring.lemma_sum_agrees(
            products(ring, x, x),
            |k: int| ring.product(val(l[j * n + k])->0, val(l[j * n + k])->0),
            j,
        );
    }
}

} // verus!
