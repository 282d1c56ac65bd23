//! Stable ordering of positions by an integer key.

use vstd::prelude::*;

verus! {

/// Position `a` comes before position `b`: by key, and in the given order where the keys
/// are equal.
pub open spec fn before(keys: Seq<u128>, a: int, b: int) -> bool {
    keys[a] < keys[b] || (keys[a] == keys[b] && a < b)
}

/// `order` lists the positions `lo..hi`, each once, in order of their keys; equal keys
/// keep the order of their positions.
pub open spec fn orders(keys: Seq<u128>, lo: int, hi: int, order: Seq<usize>) -> bool {
    &&& order.len() == hi - lo
    &&& forall|i: int| 0 <= i < order.len() ==> lo <= #[trigger] order[i] < hi
    &&& forall|i: int, j: int|
        0 <= i < j < order.len() ==> before(
            keys,
            #[trigger] order[i] as int,
            #[trigger] order[j] as int,
        )
    &&& forall|x: usize| lo <= x < hi ==> #[trigger] order.contains(x)
}

/// Only one list of positions is in order.
pub proof fn lemma_orders_unique(keys: Seq<u128>, lo: int, hi: int, a: Seq<usize>, b: Seq<usize>)
    requires
        orders(keys, lo, hi, a),
        orders(keys, lo, hi, b),
    ensures
        a == b,
{
    let n = a.len() as int;
    assert forall|k: int| 0 <= k < n implies a[k] == b[k] by {
        lemma_orders_agree_up_to(keys, lo, hi, a, b, k);
    }
    assert(a =~= b);
}

proof fn lemma_orders_agree_up_to(
    keys: Seq<u128>,
    lo: int,
    hi: int,
    a: Seq<usize>,
    b: Seq<usize>,
    k: int,
)
    requires
        orders(keys, lo, hi, a),
        orders(keys, lo, hi, b),
        0 <= k < a.len(),
    ensures
        a[k] == b[k],
    decreases k,
{
    assert forall|i: int| 0 <= i < k implies a[i] == b[i] by {
        lemma_orders_agree_up_to(keys, lo, hi, a, b, i);
    }
    if a[k] != b[k] {
        assert(b.contains(a[k]));
        let p = choose|p: int| 0 <= p < b.len() && b[p] == a[k];
        assert(a.contains(b[k]));
        let q = choose|q: int| 0 <= q < a.len() && a[q] == b[k];
        if p < k {
            assert(a[p] == a[k]);
            assert(before(keys, a[p] as int, a[k] as int));
        }
        if q < k {
            assert(b[q] == b[k]);
            assert(before(keys, b[q] as int, b[k] as int));
        }
        assert(before(keys, b[k] as int, b[p] as int));
        assert(before(keys, a[k] as int, a[q] as int));
    }
}

/// Merge two ordered lists of adjoining position ranges.
fn merge(keys: &Vec<u128>, lo: usize, mid: usize, hi: usize, a: &Vec<usize>, b: &Vec<usize>) -> (r: Vec<
    usize,
>)
    requires
        lo <= mid <= hi <= keys.len(),
        orders(keys@, lo as int, mid as int, a@),
        orders(keys@, mid as int, hi as int, b@),
    ensures
        orders(keys@, lo as int, hi as int, r@),
{
    let mut r: Vec<usize> = Vec::with_capacity(hi - lo);
    let mut i: usize = 0;
    let mut j: usize = 0;
    while i < a.len() || j < b.len()
        invariant
            lo <= mid <= hi <= keys.len(),
            orders(keys@, lo as int, mid as int, a@),
            orders(keys@, mid as int, hi as int, b@),
            i <= a.len(),
            j <= b.len(),
            r.len() == i + j,
            forall|k: int| 0 <= k < r.len() ==> lo <= #[trigger] r[k] < hi,
            forall|k: int, l: int|
                0 <= k < l < r.len() ==> before(
                    keys@,
                    #[trigger] r[k] as int,
                    #[trigger] r[l] as int,
                ),
            forall|k: int, l: int|
                0 <= k < r.len() && i <= l < a.len() ==> before(
                    keys@,
                    #[trigger] r[k] as int,
                    #[trigger] a[l] as int,
                ),
            forall|k: int, l: int|
                0 <= k < r.len() && j <= l < b.len() ==> before(
                    keys@,
                    #[trigger] r[k] as int,
                    #[trigger] b[l] as int,
                ),
            forall|l: int| 0 <= l < i ==> r@.contains(#[trigger] a[l]),
            forall|l: int| 0 <= l < j ==> r@.contains(#[trigger] b[l]),
        decreases a.len() - i + b.len() - j,
    {
        let ghost before_push = r@;
        let from_a: bool = j >= b.len() || (i < a.len() && keys[a[i]] <= keys[b[j]]);
        let x: usize = if from_a {
            a[i]
        } else {
            b[j]
        };
        r.push(x);
        if from_a {
            i = i + 1;
        } else {
            j = j + 1;
        }
        proof {
            assert(r@[before_push.len() as int] == x);
            assert forall|y: usize| before_push.contains(y) implies r@.contains(y) by {
                let p = choose|p: int| 0 <= p < before_push.len() && before_push[p] == y;
                assert(r@[p] == y);
            }
        }
    }
    proof {
        assert forall|x: usize| lo <= x < hi implies #[trigger] r@.contains(x) by {
            if x < mid {
                assert(a@.contains(x));
            } else {
                assert(b@.contains(x));
            }
        }
    }
    r
}

fn order_range(keys: &Vec<u128>, lo: usize, hi: usize) -> (r: Vec<usize>)
    requires
        lo <= hi <= keys.len(),
    ensures
        orders(keys@, lo as int, hi as int, r@),
    decreases hi - lo,
{
    if hi - lo <= 1 {
        let mut r: Vec<usize> = Vec::new();
        if lo < hi {
            r.push(lo);
            assert(r@[0] == lo);
        }
        return r;
    }
    let mid: usize = lo + (hi - lo) / 2;
    let a = order_range(keys, lo, mid);
    let b = order_range(keys, mid, hi);
    merge(keys, lo, mid, hi, &a, &b)
}

/// All positions of `keys`, by ascending key; equal keys keep their order.
pub fn order_by_key(keys: &Vec<u128>) -> (r: Vec<usize>)
    ensures
        orders(keys@, 0, keys.len() as int, r@),
{
    order_range(keys, 0, keys.len())
}

} // verus!
