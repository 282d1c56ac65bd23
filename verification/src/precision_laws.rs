//! What PR-AUC is: the average over the positives of the precision among the rows that are
//! ranked no lower.

use vstd::prelude::*;
use crate::arith::{
    is_diff, is_int, is_prod, is_quot, is_sum, is_trace, lemma_runs_last, runs, Arith,
};
use crate::eval::{
    all_numbers, closes_group, curve, falling_keys, is_curve_step, is_descending_order,
    is_group_closed, is_pr_auc, is_precision, is_row_counted, label_sum, lemma_descending_order,
    lemma_label_sum_counts, positive, positives, ranked, Curve,
};
use crate::exact::{counts_exactly, is_count, stays_exact, Ring};
use crate::float::{F32, F64};
use crate::sort::before;
use crate::sums::{lemma_sum_agree, lemma_sum_permuted, lemma_sum_prefix, sum_to};

verus! {

/// One for every row that is ranked no lower than row `i`.
pub open spec fn no_lower(preds: Seq<F32>, i: int) -> spec_fn(int) -> int {
    |j: int|
        if preds[i].le(preds[j]) {
            1
        } else {
            0
        }
}

/// One for every positive that is ranked no lower than row `i`.
pub open spec fn positive_no_lower(
    preds: Seq<F32>,
    labels: Seq<u8>,
    i: int,
) -> spec_fn(int) -> int {
    |j: int|
        if labels[j] == 1 && preds[i].le(preds[j]) {
            1
        } else {
            0
        }
}

/// `x` is the precision at row `i`: times the rows that are ranked no lower it is the positives
/// among them.
pub open spec fn is_precision_at<T>(
    ring: Ring<T>,
    preds: Seq<F32>,
    labels: Seq<u8>,
    i: int,
    x: T,
) -> bool {
    ring.product(x, ring.count(sum_to(no_lower(preds, i), preds.len() as int))) == ring.count(
        sum_to(positive_no_lower(preds, labels, i), preds.len() as int),
    )
}

/// One for every place with a positive.
spec fn place_positive(labels: Seq<u8>, order: Seq<usize>) -> spec_fn(int) -> int {
    |k: int|
        if labels[order[k] as int] == 1 {
            1
        } else {
            0
        }
}

/// The number of positives at the first `k` places.
spec fn pos(labels: Seq<u8>, order: Seq<usize>, k: int) -> int {
    sum_to(place_positive(labels, order), k)
}

/// The precision of every place with a positive.
spec fn place_term<T>(
    ring: Ring<T>,
    labels: Seq<u8>,
    order: Seq<usize>,
    ys: Seq<T>,
) -> spec_fn(int) -> T {
    |k: int|
        if labels[order[k] as int] == 1 {
            ys[k]
        } else {
            ring.zero
        }
}

/// The tie group of place `i` ends before place `e`.
spec fn ends_at(preds: Seq<F32>, order: Seq<usize>, i: int, e: int) -> bool {
    &&& i < e
    &&& closes_group(preds, order, e - 1)
    &&& forall|j: int| i <= j < e - 1 ==> !#[trigger] closes_group(preds, order, j)
}

/// What holds after `k` places, the first `ys.len()` of them in closed groups: `ys` are their
/// precisions, and `es` the ends of their groups.
spec fn walk_holds<T>(
    ring: Ring<T>,
    val: spec_fn(F64) -> Option<T>,
    preds: Seq<F32>,
    labels: Seq<u8>,
    order: Seq<usize>,
    k: int,
    b: Curve,
    ys: Seq<T>,
    es: Seq<int>,
) -> bool {
    let m = ys.len() as int;
    let p = label_sum(labels);
    &&& m <= k
    &&& es.len() == m
    &&& is_count(ring, val, pos(labels, order, k), b.tp)
    &&& is_count(ring, val, k - pos(labels, order, k), b.fp)
    &&& forall|j: int| m <= j < k ==> !#[trigger] closes_group(preds, order, j)
    &&& forall|i: int|
        0 <= i < m ==> (#[trigger] es[i]) <= m && ends_at(preds, order, i, es[i]) && ring.product(
            ys[i],
            ring.count(es[i]),
        ) == ring.count(pos(labels, order, es[i]))
    &&& val(b.prev_recall) is Some
    &&& ring.product(val(b.prev_recall)->0, ring.count(p)) == ring.count(pos(labels, order, m))
    &&& ring.product(val(b.ap)->0, ring.count(p)) == ring.sum_to(
        place_term(ring, labels, order, ys),
        m,
    )
}

proof fn lemma_pos_bounds(labels: Seq<u8>, order: Seq<usize>, j: int, k: int)
    requires
        0 <= j <= k,
    ensures
        0 <= pos(labels, order, j) <= pos(labels, order, k) <= pos(labels, order, j) + (k - j),
        pos(labels, order, j) <= j,
    decreases k,
{
    if j < k {
        lemma_pos_bounds(labels, order, j, k - 1);
        assert(pos(labels, order, k) == pos(labels, order, k - 1) + place_positive(labels, order)(
            k - 1,
        ));
    } else if k > 0 {
        lemma_pos_bounds(labels, order, k - 1, k - 1);
        assert(pos(labels, order, k) == pos(labels, order, k - 1) + place_positive(labels, order)(
            k - 1,
        ));
    }
}

/// A group of one precision adds it once for every positive.
proof fn lemma_group_adds<T>(
    ring: Ring<T>,
    labels: Seq<u8>,
    order: Seq<usize>,
    ys: Seq<T>,
    m: int,
    k: int,
    x: T,
)
    requires
        ring.obeys_laws(),
        0 <= m <= k <= ys.len(),
        forall|i: int| m <= i < k ==> #[trigger] ys[i] == x,
    ensures
        ring.sum_to(place_term(ring, labels, order, ys), k) == ring.sum_of(
            ring.sum_to(place_term(ring, labels, order, ys), m),
            ring.product(
                ring.count(pos(labels, order, k) - pos(labels, order, m)),
                x,
            ),
        ),
    decreases k - m,
{
    let f = place_term(ring, labels, order, ys);
    let s = ring.sum_to(f, m);
    ring.lemma_count_of_one();
    if m < k {
        lemma_group_adds(ring, labels, order, ys, m, k - 1, x);
        lemma_pos_bounds(labels, order, m, k - 1);
        let t = pos(labels, order, k - 1) - pos(labels, order, m);
        let tx = ring.product(ring.count(t), x);
        assert(ys[k - 1] == x);
        assert(pos(labels, order, k) == pos(labels, order, k - 1) + place_positive(labels, order)(
            k - 1,
        ));
        if labels[order[k - 1] as int] == 1 {
            ring.lemma_counts_add(t, 1);
            ring.lemma_product_commutes(ring.count(t + 1), x);
            ring.lemma_product_distributes(x, ring.count(t), ring.one);
            ring.lemma_product_commutes(x, ring.count(t));
            ring.lemma_product_with_one(x);
            ring.lemma_sum_associates(s, tx, x);
        } else {
            ring.lemma_sum_with_zero(ring.sum_of(s, tx));
        }
    } else {
        ring.lemma_product_with_zero(x);
        ring.lemma_sum_with_zero(s);
    }
}

/// A group is closed: its precision, and what it adds to the area.
proof fn lemma_group_closes<A: Arith, T>(
    ring: Ring<T>,
    val: spec_fn(F64) -> Option<T>,
    labels: Seq<u8>,
    order: Seq<usize>,
    n: int,
    k: int,
    start: int,
    m: Curve,
    b: Curve,
) -> (x: T)
    requires
        ring.obeys_laws(),
        stays_exact::<A, T>(ring, val),
        counts_exactly::<A, T>(ring, val, n),
        0 < label_sum(labels) <= n,
        0 <= start < k <= n,
        is_count(ring, val, pos(labels, order, k), m.tp),
        is_count(ring, val, k - pos(labels, order, k), m.fp),
        val(m.prev_recall) is Some,
        ring.product(val(m.prev_recall)->0, ring.count(label_sum(labels))) == ring.count(
            pos(labels, order, start),
        ),
        is_group_closed::<A>(label_sum(labels), m, b),
        val(b.ap) is Some,
    ensures
        val(m.ap) is Some,
        val(b.prev_recall) is Some,
        ring.product(x, ring.count(k)) == ring.count(pos(labels, order, k)),
        ring.product(val(b.prev_recall)->0, ring.count(label_sum(labels))) == ring.count(
            pos(labels, order, k),
        ),
        ring.product(val(b.ap)->0, ring.count(label_sum(labels))) == ring.sum_of(
            ring.product(val(m.ap)->0, ring.count(label_sum(labels))),
            ring.product(
                ring.count(pos(labels, order, k) - pos(labels, order, start)),
                x,
            ),
        ),
{
    let p = label_sum(labels);
    let pc = ring.count(p);
    let (x, d, y) = choose|x: F64, d: F64, y: F64| #[trigger]
        is_precision::<A>(m.tp, m.fp, x) && #[trigger] is_diff::<A>(
            b.prev_recall,
            m.prev_recall,
            d,
        ) && #[trigger] is_prod::<A>(d, x, y) && is_sum::<A>(m.ap, y, b.ap);
    let c = choose|c: F64| #[trigger] is_int::<A>(p, c) && is_quot::<A>(m.tp, c, b.prev_recall);
    let e = choose|e: F64| #[trigger]
        is_sum::<A>(m.tp, m.fp, e) && if F64::zero().lt(e) {
            is_quot::<A>(m.tp, e, x)
        } else {
            x == F64::one()
        };
    let (pk, ps) = (pos(labels, order, k), pos(labels, order, start));
    lemma_pos_bounds(labels, order, start, k);
    lemma_pos_bounds(labels, order, k, k);
    assert(is_count(ring, val, p, c));
    assert(is_count(ring, val, pk + (k - pk), e));
    assert(F64::zero().lt(e));
    let (xv, dv, yv) = (val(x)->0, val(d)->0, val(y)->0);
    let (recall, prev) = (val(b.prev_recall)->0, val(m.prev_recall)->0);
    // d·p + prev·p = recall·p.
    ring.lemma_difference_undone(recall, prev);
    ring.lemma_product_commutes(dv, pc);
    ring.lemma_product_commutes(prev, pc);
    ring.lemma_product_commutes(recall, pc);
    ring.lemma_product_distributes(pc, dv, prev);
    ring.lemma_counts_add(pk - ps, ps);
    ring.lemma_sum_undone(ring.product(dv, pc), ring.count(ps));
    ring.lemma_sum_undone(ring.count(pk - ps), ring.count(ps));
    assert(ring.product(dv, pc) == ring.count(pk - ps));
    // y·p = (d·p)·x.
    ring.lemma_product_commutes(yv, pc);
    ring.lemma_product_associates(pc, dv, xv);
    assert(ring.product(yv, pc) == ring.product(ring.count(pk - ps), xv));
    let av = val(m.ap)->0;
    ring.lemma_product_commutes(val(b.ap)->0, pc);
    ring.lemma_product_distributes(pc, av, yv);
    ring.lemma_product_commutes(pc, av);
    ring.lemma_product_commutes(pc, yv);
    xv
}

proof fn lemma_walk_holds<A: Arith, T>(
    ring: Ring<T>,
    val: spec_fn(F64) -> Option<T>,
    preds: Seq<F32>,
    labels: Seq<u8>,
    order: Seq<usize>,
    k: nat,
    b: Curve,
) -> (r: (Seq<T>, Seq<int>))
    requires
        ring.obeys_laws(),
        stays_exact::<A, T>(ring, val),
        counts_exactly::<A, T>(ring, val, preds.len() as int),
        0 < label_sum(labels) <= preds.len(),
        k <= preds.len(),
        runs(Curve::start(), k, curve::<A>(preds, labels, order), b),
        val(b.ap) is Some,
    ensures
        walk_holds(ring, val, preds, labels, order, k as int, b, r.0, r.1),
    decreases k,
{
    let step = curve::<A>(preds, labels, order);
    let n = preds.len() as int;
    let p = label_sum(labels);
    ring.lemma_count_of_one();
    assert(is_count(ring, val, 0, F64::zero()));
    assert(is_count(ring, val, 1, F64::one()));
    if k > 0 {
        let a = lemma_runs_last(Curve::start(), k, step, b);
        assert(is_curve_step::<A>(preds, labels, order, k - 1, a, b));
        let closes = closes_group(preds, order, k - 1);
        let m = choose|m: Curve| #[trigger]
            is_row_counted::<A>(labels[order[k - 1] as int], a, m) && if closes {
                is_group_closed::<A>(p, m, b)
            } else {
                b == m
            };
        assert(val(a.ap) is Some) by {
            if closes {
                let (x, d, y) = choose|x: F64, d: F64, y: F64| #[trigger]
                    is_precision::<A>(m.tp, m.fp, x) && #[trigger] is_diff::<A>(
                        b.prev_recall,
                        m.prev_recall,
                        d,
                    ) && #[trigger] is_prod::<A>(d, x, y) && is_sum::<A>(m.ap, y, b.ap);
            }
        }
        let (ys, es) = lemma_walk_holds::<A, T>(
            ring,
            val,
            preds,
            labels,
            order,
            (k - 1) as nat,
            a,
        );
        let start = ys.len() as int;
        let q = pos(labels, order, k - 1);
        lemma_pos_bounds(labels, order, k - 1, k - 1);
        assert(pos(labels, order, k as int) == q + place_positive(labels, order)(k - 1));
        if labels[order[k - 1] as int] == 1 {
            assert(is_sum::<A>(a.tp, F64::one(), m.tp));
            assert(is_count(ring, val, q + 1, m.tp));
        } else {
            assert(is_sum::<A>(a.fp, F64::one(), m.fp));
            assert(is_count(ring, val, (k - 1 - q) + 1, m.fp));
        }
        if closes {
            let x = lemma_group_closes::<A, T>(
                ring,
                val,
                labels,
                order,
                n,
                k as int,
                start,
                m,
                b,
            );
            let more = Seq::new((k - start) as nat, |i: int| x);
            let ends = Seq::new((k - start) as nat, |i: int| k as int);
            let (ys2, es2) = (ys + more, es + ends);
            assert forall|i: int| 0 <= i < k implies (#[trigger] es2[i]) <= k && ends_at(
                preds,
                order,
                i,
                es2[i],
            ) && ring.product(ys2[i], ring.count(es2[i])) == ring.count(
                pos(labels, order, es2[i]),
            ) by {
                if i < start {
                    assert(es2[i] == es[i]);
                    assert(ys2[i] == ys[i]);
                } else {
                    assert(es2[i] == k as int);
                    assert(ys2[i] == x);
                    assert forall|j: int| i <= j < k - 1 implies !#[trigger] closes_group(
                        preds,
                        order,
                        j,
                    ) by {}
                }
            }
            assert forall|i: int| start <= i < k implies #[trigger] ys2[i] == x by {}
            lemma_group_adds(ring, labels, order, ys2, start, k as int, x);
            ring.lemma_sum_agrees(
                place_term(ring, labels, order, ys2),
                place_term(ring, labels, order, ys),
                start,
            );
            (ys2, es2)
        } else {
            assert forall|j: int| start <= j < k implies !#[trigger] closes_group(
                preds,
                order,
                j,
            ) by {}
            (ys, es)
        }
    } else {
        let tr = choose|tr: Seq<Curve>| #[trigger]
            is_trace(Curve::start(), k, step, tr) && tr[0] == b;
        ring.lemma_product_with_zero(ring.count(p));
        (Seq::empty(), Seq::empty())
    }
}

/// The places of a group rank alike, and no lower than those after.
proof fn lemma_group_ranks(preds: Seq<F32>, order: Seq<usize>, i: int, e: int, j: int)
    requires
        all_numbers(preds),
        is_descending_order(preds, order),
        0 <= i < e <= order.len(),
        0 <= j < order.len(),
        ends_at(preds, order, i, e),
    ensures
        ranked(preds, order, i).le(ranked(preds, order, j)) <==> j < e,
    decreases if j > i {
        j - i
    } else {
        0
    },
{
    let keys = falling_keys(preds);
    assert forall|x: int| 0 <= x < order.len() implies !#[trigger] ranked(
        preds,
        order,
        x,
    ).spec_is_nan() by {
        assert(0 <= order[x] < preds.len());
        assert(!preds[order[x] as int].spec_is_nan());
    }
    let (u, v) = (ranked(preds, order, i), ranked(preds, order, j));
    assert(!u.spec_is_nan() && !v.spec_is_nan());
    if j < i {
        lemma_descending_order(preds, order, j, i);
    } else if j > i {
        lemma_group_ranks(preds, order, i, e, j - 1);
        lemma_descending_order(preds, order, j - 1, j);
        let w = ranked(preds, order, j - 1);
        assert(!w.spec_is_nan());
        if j > i + 1 {
            lemma_descending_order(preds, order, i, j - 1);
        }
        if j < e {
            assert(!closes_group(preds, order, j - 1));
        } else if j == e {
            assert(closes_group(preds, order, j - 1));
        }
    }
}

/// The sum of what is left of `e`.
proof fn lemma_sum_cut(f: spec_fn(int) -> int, g: spec_fn(int) -> int, n: int, e: int)
    requires
        0 <= e <= n,
        forall|i: int| 0 <= i < n ==> #[trigger] g(i) == if i < e {
            f(i)
        } else {
            0
        },
    ensures
        sum_to(g, n) == sum_to(f, e),
    decreases n,
{
    if n > e {
        lemma_sum_cut(f, g, n - 1, e);
        assert(g(n - 1) == 0);
    } else {
        lemma_sum_agree(g, f, n);
    }
}

/// PR-AUC is the average precision: times the number of positives it is the sum, over the
/// positives, of the share of positives among the rows that are ranked no lower. `xs` are these
/// shares.
pub proof fn lemma_pr_auc_is_average_precision<A: Arith, T>(
    ring: Ring<T>,
    val: spec_fn(F64) -> Option<T>,
    preds: Seq<F32>,
    labels: Seq<u8>,
    r: F64,
) -> (xs: Seq<T>)
    requires
        ring.obeys_laws(),
        stays_exact::<A, T>(ring, val),
        counts_exactly::<A, T>(ring, val, preds.len() as int),
        all_numbers(preds),
        preds.len() <= usize::MAX,
        labels.len() == preds.len(),
        forall|i: int| 0 <= i < labels.len() ==> #[trigger] labels[i] <= 1,
        is_pr_auc::<A>(preds, labels, r),
        val(r) is Some,
    ensures
        xs.len() == preds.len(),
        sum_to(positive(labels), labels.len() as int) == 0 ==> r == F64::zero(),
        sum_to(positive(labels), labels.len() as int) > 0 ==> forall|i: int|
            0 <= i < xs.len() ==> is_precision_at(ring, preds, labels, i, #[trigger] xs[i]),
        ring.product(
            val(r)->0,
            ring.count(sum_to(positive(labels), labels.len() as int)),
        ) == ring.sum_to(
            |i: int|
                if labels[i] == 1 {
                    xs[i]
                } else {
                    ring.zero
                },
            preds.len() as int,
        ),
{
    let n = preds.len() as int;
    let p = label_sum(labels);
    lemma_label_sum_counts(labels);
    assert(p == sum_to(positive(labels), n));
    lemma_positives_bounded(labels, n);
    if p == 0 {
        let xs = Seq::new(n as nat, |i: int| ring.zero);
        let f = |i: int|
            if labels[i] == 1 {
                xs[i]
            } else {
                ring.zero
            };
        ring.lemma_sum_vanishes(f, n);
        ring.lemma_product_with_zero(ring.count(0));
        xs
    } else {
        let (order, last) = choose|order: Seq<usize>, last: Curve| #[trigger]
            is_descending_order(preds, order) && #[trigger] runs(
                Curve::start(),
                preds.len(),
                curve::<A>(preds, labels, order),
                last,
            ) && r == last.ap;
        let (ys, es) = lemma_walk_holds::<A, T>(
            ring,
            val,
            preds,
            labels,
            order,
            preds.len(),
            last,
        );
        assert(closes_group(preds, order, n - 1));
        assert(ys.len() == n);
        let keys = falling_keys(preds);
        assert forall|i: int, j: int| 0 <= i < j < n implies #[trigger] order[i]
            != #[trigger] order[j] by {
            assert(before(keys, order[i] as int, order[j] as int));
        }
        let xs = Seq::new(
            n as nat,
            |i: int| ys[choose|k: int| 0 <= k < n && #[trigger] order[k] == i],
        );
        assert forall|k: int| 0 <= k < n implies xs[#[trigger] order[k] as int] == ys[k] by {
            let i = order[k] as int;
            let x = choose|x: int| 0 <= x < n && #[trigger] order[x] == i;
            assert(order[x] == order[k]);
            if x < k {
                assert(order[x] != order[k]);
            } else if k < x {
                assert(order[k] != order[x]);
            }
        }
        let f = |i: int|
            if labels[i] == 1 {
                xs[i]
            } else {
                ring.zero
            };
        let g = place_term(ring, labels, order, ys);
        assert forall|k: int| 0 <= k < n implies #[trigger] g(k) == f(order[k] as int) by {
            assert(xs[order[k] as int] == ys[k]);
        }
        ring.lemma_sum_reordered(f, g, order, n);
        assert forall|i: int| 0 <= i < n implies is_precision_at(
            ring,
            preds,
            labels,
            i,
            #[trigger] xs[i],
        ) by {
            assert(order.contains(i as usize));
            let k = choose|k: int| 0 <= k < order.len() && order[k] == i as usize;
            assert(xs[order[k] as int] == ys[k]);
            let e = es[k];
            assert(ends_at(preds, order, k, e));
            let at = |j: int| no_lower(preds, i)(order[j] as int);
            let pos_at = |j: int| positive_no_lower(preds, labels, i)(order[j] as int);
            assert forall|j: int| 0 <= j < n implies #[trigger] at(j) == if j < e {
                1int
            } else {
                0
            } by {
                lemma_group_ranks(preds, order, k, e, j);
            }
            assert forall|j: int| 0 <= j < n implies #[trigger] pos_at(j) == if j < e {
                place_positive(labels, order)(j)
            } else {
                0
            } by {
                lemma_group_ranks(preds, order, k, e, j);
            }
            lemma_sum_prefix(at, n, e);
            lemma_sum_cut(place_positive(labels, order), pos_at, n, e);
            lemma_sum_permuted(no_lower(preds, i), at, order, n);
            lemma_sum_permuted(positive_no_lower(preds, labels, i), pos_at, order, n);
        }
        xs
    }
}

proof fn lemma_positives_bounded(labels: Seq<u8>, n: int)
    requires
        0 <= n,
    ensures
        0 <= positives(labels, n) <= n,
    decreases n,
{
    if n > 0 {
        lemma_positives_bounded(labels, n - 1);
    }
}

} // verus!
