//! Facts about filtered sequences.

use vstd::prelude::*;

verus! {

/// Filtering one more element.
pub proof fn lemma_filter_step<T>(s: Seq<T>, i: int, pred: spec_fn(T) -> bool)
    requires
        0 <= i < s.len(),
    ensures
        s.take(i + 1).filter(pred) == if pred(s[i]) {
            s.take(i).filter(pred).push(s[i])
        } else {
            s.take(i).filter(pred)
        },
{
    reveal(Seq::filter);
    assert(s.take(i + 1).drop_last() == s.take(i));
    assert(s.take(i + 1).last() == s[i]);
}

/// What a filtered sequence holds: the elements that satisfy the predicate.
pub proof fn lemma_filter_props<T>(s: Seq<T>, pred: spec_fn(T) -> bool)
    ensures
        s.filter(pred).len() <= s.len(),
        forall|i: int|
            0 <= i < s.filter(pred).len() ==> pred(#[trigger] s.filter(pred)[i]) && s.contains(
                s.filter(pred)[i],
            ),
        forall|i: int|
            0 <= i < s.len() && pred(#[trigger] s[i]) ==> s.filter(pred).contains(s[i]),
    decreases s.len(),
{
    reveal(Seq::filter);
    if s.len() > 0 {
        let front = s.drop_last();
        lemma_filter_props(front, pred);
        let r = s.filter(pred);
        let f = front.filter(pred);
        assert forall|i: int| 0 <= i < r.len() implies pred(#[trigger] r[i]) && s.contains(
            r[i],
        ) by {
            if i < f.len() {
                assert(r[i] == f[i]);
                assert(front.contains(f[i]));
                let p = choose|p: int| 0 <= p < front.len() && front[p] == f[i];
                assert(s[p] == r[i]);
            } else {
                assert(s[s.len() - 1] == r[i]);
            }
        }
        assert forall|i: int| 0 <= i < s.len() && pred(#[trigger] s[i]) implies r.contains(s[i]) by {
            if i < front.len() {
                assert(front[i] == s[i]);
                assert(f.contains(front[i]));
                let p = choose|p: int| 0 <= p < f.len() && f[p] == front[i];
                assert(r[p] == s[i]);
            } else {
                assert(r[r.len() - 1] == s[i]);
            }
        }
    }
}

/// Predicates that agree on the elements keep the same elements.
pub proof fn lemma_filter_agree<T>(s: Seq<T>, p: spec_fn(T) -> bool, q: spec_fn(T) -> bool)
    requires
        forall|i: int| 0 <= i < s.len() ==> p(#[trigger] s[i]) == q(s[i]),
    ensures
        s.filter(p) == s.filter(q),
    decreases s.len(),
{
    reveal(Seq::filter);
    if s.len() > 0 {
        let front = s.drop_last();
        assert forall|i: int| 0 <= i < front.len() implies p(#[trigger] front[i]) == q(
            front[i],
        ) by {
            assert(front[i] == s[i]);
        }
        lemma_filter_agree(front, p, q);
        assert(p(s[s.len() - 1]) == q(s[s.len() - 1]));
    } else {
        assert(s.filter(p) =~= s.filter(q));
    }
}

/// The elements that satisfy one of two predicates that exclude each other are as many as
/// those that satisfy the one and those that satisfy the other.
pub proof fn lemma_filter_split<T>(
    s: Seq<T>,
    p: spec_fn(T) -> bool,
    q: spec_fn(T) -> bool,
    either: spec_fn(T) -> bool,
)
    requires
        forall|i: int|
            0 <= i < s.len() ==> (either(#[trigger] s[i]) <==> p(s[i]) || q(s[i])) && !(p(s[i])
                && q(s[i])),
    ensures
        s.filter(either).len() == s.filter(p).len() + s.filter(q).len(),
    decreases s.len(),
{
    reveal(Seq::filter);
    if s.len() > 0 {
        let front = s.drop_last();
        assert forall|i: int| 0 <= i < front.len() implies (either(#[trigger] front[i]) <==> p(
            front[i],
        ) || q(front[i])) && !(p(front[i]) && q(front[i])) by {
            assert(front[i] == s[i]);
        }
        lemma_filter_split(front, p, q, either);
        let last = s[s.len() - 1];
        assert(either(last) <==> p(last) || q(last));
    }
}

/// A predicate that no element satisfies leaves none.
pub proof fn lemma_filter_none<T>(s: Seq<T>, p: spec_fn(T) -> bool)
    requires
        forall|i: int| 0 <= i < s.len() ==> !p(#[trigger] s[i]),
    ensures
        s.filter(p).len() == 0,
{
    lemma_filter_props(s, p);
    let f = s.filter(p);
    if f.len() > 0 {
        assert(p(f[0]) && s.contains(f[0]));
    }
}

/// A predicate that every element satisfies keeps all.
pub proof fn lemma_filter_all<T>(s: Seq<T>, p: spec_fn(T) -> bool)
    requires
        forall|i: int| 0 <= i < s.len() ==> p(#[trigger] s[i]),
    ensures
        s.filter(p) == s,
    decreases s.len(),
{
    reveal(Seq::filter);
    if s.len() > 0 {
        let front = s.drop_last();
        assert forall|i: int| 0 <= i < front.len() implies p(#[trigger] front[i]) by {
            assert(front[i] == s[i]);
        }
        lemma_filter_all(front, p);
        assert(p(s[s.len() - 1]));
        assert(front.push(s[s.len() - 1]) =~= s);
    }
}

/// Strictly ascending row numbers.
pub open spec fn rows_ascend(rows: Seq<u32>) -> bool {
    forall|i: int, j: int| 0 <= i < j < rows.len() ==> #[trigger] rows[i] < #[trigger] rows[j]
}

/// Filtering keeps the order.
pub proof fn lemma_filter_ascends(rows: Seq<u32>, p: spec_fn(u32) -> bool)
    requires
        rows_ascend(rows),
    ensures
        rows_ascend(rows.filter(p)),
    decreases rows.len(),
{
    reveal(Seq::filter);
    if rows.len() > 0 {
        let front = rows.drop_last();
        assert forall|i: int, j: int| 0 <= i < j < front.len() implies #[trigger] front[i]
            < #[trigger] front[j] by {
            assert(rows[i] < rows[j]);
        }
        lemma_filter_ascends(front, p);
        lemma_filter_props(front, p);
        let last = rows[rows.len() - 1];
        let f = front.filter(p);
        let r = rows.filter(p);
        if p(last) {
            assert forall|i: int, j: int| 0 <= i < j < r.len() implies #[trigger] r[i]
                < #[trigger] r[j] by {
                if j == f.len() {
                    assert(front.contains(f[i]));
                    let k = choose|k: int| 0 <= k < front.len() && front[k] == f[i];
                    assert(rows[k] < rows[rows.len() - 1]);
                } else {
                    assert(f[i] < f[j]);
                }
            }
        }
    }
}

} // verus!
