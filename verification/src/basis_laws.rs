//! What a row's sparse basis tells of the row: every feature's value can be read off its block
//! of slots.

use vstd::prelude::*;
use crate::arith::Arith;
use crate::encoding::{
    are_row_parts, is_feature_basis, is_numeric_basis, is_row_basis, layout_start,
    lemma_entries_in_own_slots, lemma_layout_rises, lemma_numeric_entries_in_block, EncCol,
    EncodedMatrix, Encoders, FeatureEncoder,
};
use crate::encoding_laws::{knot_share, lemma_basis_gives_value_back};
use crate::exact::{stays_exact32, Ring};
use crate::float::{F32, F64};

verus! {

/// The weight of an entry.
pub open spec fn weight_of<T>(val: spec_fn(F64) -> Option<T>) -> spec_fn((u32, F32)) -> T {
    |e: (u32, F32)| val(e.1.spec_widened())->0
}

/// `f` of the entries with slots from `lo` up to `hi`, zero of the others.
pub open spec fn in_block<T>(
    ring: Ring<T>,
    f: spec_fn((u32, F32)) -> T,
    lo: int,
    hi: int,
) -> spec_fn((u32, F32)) -> T {
    |e: (u32, F32)|
        if lo <= e.0 < hi {
            f(e)
        } else {
            ring.zero
        }
}

/// A block of slots, one for each knot and one for missing values, tells a number: its weights
/// sum to one, all on the last slot where the number is missing, and otherwise the knots in these
/// weights give the number, kept between the first knot and the last.
pub open spec fn block_tells<T>(
    ring: Ring<T>,
    val: spec_fn(F64) -> Option<T>,
    knots: Seq<F32>,
    off: int,
    v: F32,
    phi: Seq<(u32, F32)>,
) -> bool {
    let k = knots.len() as int;
    let w = weight_of(val);
    &&& ring.total(in_block(ring, w, off, off + k + 1), phi) == ring.one
    &&& v.spec_is_nan() ==> ring.total(in_block(ring, w, off + k, off + k + 1), phi) == ring.one
    &&& !v.spec_is_nan() ==> ring.total(
        in_block(ring, knot_share(ring, val, knots, off), off, off + k),
        phi,
    ) == if v.le(knots[0]) || k == 1 {
        val(knots[0].spec_widened())->0
    } else if knots.last().le(v) {
        val(knots.last().spec_widened())->0
    } else {
        val(v.spec_widened())->0
    }
}

/// Functions that agree on the entries have the same total.
proof fn lemma_total_agrees<T>(
    ring: Ring<T>,
    f: spec_fn((u32, F32)) -> T,
    g: spec_fn((u32, F32)) -> T,
    e: Seq<(u32, F32)>,
)
    requires
        forall|k: int| 0 <= k < e.len() ==> f(#[trigger] e[k]) == g(e[k]),
    ensures
        ring.total(f, e) == ring.total(g, e),
    decreases e.len(),
{
    if e.len() > 0 {
        let front = e.drop_last();
        assert forall|k: int| 0 <= k < front.len() implies f(#[trigger] front[k]) == g(
            front[k],
        ) by {
            assert(front[k] == e[k]);
        }
        lemma_total_agrees(ring, f, g, front);
        assert(f(e[e.len() - 1]) == g(e[e.len() - 1]));
    }
}

/// The total of entries that all give zero.
proof fn lemma_total_none<T>(ring: Ring<T>, f: spec_fn((u32, F32)) -> T, e: Seq<(u32, F32)>)
    requires
        ring.obeys_laws(),
        forall|k: int| 0 <= k < e.len() ==> f(#[trigger] e[k]) == ring.zero,
    ensures
        ring.total(f, e) == ring.zero,
    decreases e.len(),
{
    if e.len() > 0 {
        let front = e.drop_last();
        assert forall|k: int| 0 <= k < front.len() implies f(#[trigger] front[k])
            == ring.zero by {
            assert(front[k] == e[k]);
        }
        lemma_total_none(ring, f, front);
        assert(f(e[e.len() - 1]) == ring.zero);
        ring.lemma_sum_with_zero(ring.zero);
    }
}

/// The total of two parts.
proof fn lemma_total_joined<T>(
    ring: Ring<T>,
    f: spec_fn((u32, F32)) -> T,
    a: Seq<(u32, F32)>,
    b: Seq<(u32, F32)>,
)
    requires
        ring.obeys_laws(),
    ensures
        ring.total(f, a + b) == ring.sum_of(ring.total(f, a), ring.total(f, b)),
    decreases b.len(),
{
    if b.len() > 0 {
        lemma_total_joined(ring, f, a, b.drop_last());
        assert((a + b).drop_last() =~= a + b.drop_last());
        ring.lemma_sum_associates(ring.total(f, a), ring.total(f, b.drop_last()), f(b.last()));
    } else {
        assert(a + b =~= a);
        ring.lemma_sum_with_zero(ring.total(f, a));
    }
}

/// The total of all parts, where only one gives anything.
proof fn lemma_total_of_part<T>(
    ring: Ring<T>,
    f: spec_fn((u32, F32)) -> T,
    parts: Seq<Seq<(u32, F32)>>,
    i: int,
)
    requires
        ring.obeys_laws(),
        forall|j: int|
            0 <= j < parts.len() && j != i ==> ring.total(f, #[trigger] parts[j]) == ring.zero,
    ensures
        ring.total(f, parts.flatten()) == if 0 <= i < parts.len() {
            ring.total(f, parts[i])
        } else {
            ring.zero
        },
    decreases parts.len(),
{
    if parts.len() > 0 {
        let front = parts.drop_last();
        let last = parts[parts.len() - 1];
        assert forall|j: int| 0 <= j < front.len() && j != i implies ring.total(
            f,
            #[trigger] front[j],
        ) == ring.zero by {
            assert(front[j] == parts[j]);
        }
        lemma_total_of_part(ring, f, front, i);
        front.lemma_flatten_push(last);
        assert(front.push(last) =~= parts);
        lemma_total_joined(ring, f, front.flatten(), last);
        ring.lemma_sum_with_zero(ring.total(f, front.flatten()));
        ring.lemma_sum_with_zero(ring.total(f, last));
    } else {
        assert(parts =~= Seq::<Seq<(u32, F32)>>::empty());
        parts.lemma_flatten_and_flatten_alt_are_equivalent();
    }
}

/// What a block of a feature's slots has of the whole basis is what it has of the feature's
/// entries.
proof fn lemma_block_of_feature<A: Arith, T>(
    ring: Ring<T>,
    encoders: Encoders,
    matrix: EncodedMatrix,
    row: int,
    parts: Seq<Seq<(u32, F32)>>,
    i: int,
    f: spec_fn((u32, F32)) -> T,
    lo: int,
    hi: int,
)
    requires
        ring.obeys_laws(),
        encoders.wf(),
        matrix.fits(encoders),
        0 <= row < matrix.n_rows,
        are_row_parts::<A>(encoders.features@, matrix.cols@, row, parts),
        0 <= i < encoders.features.len(),
        layout_start(encoders.features@, i) <= lo,
        hi <= layout_start(encoders.features@, i + 1),
    ensures
        0 <= i < parts.len(),
        ring.total(in_block(ring, f, lo, hi), parts.flatten()) == ring.total(
            in_block(ring, f, lo, hi),
            parts[i],
        ),
{
    let g = in_block(ring, f, lo, hi);
    assert forall|j: int| 0 <= j < parts.len() && j != i implies ring.total(g, #[trigger] parts[j])
        == ring.zero by {
        lemma_entries_in_own_slots::<A>(encoders, matrix, row, parts, j);
        if j < i {
            lemma_layout_rises(encoders, j + 1, i);
        } else {
            lemma_layout_rises(encoders, i + 1, j);
        }
        assert forall|k: int| 0 <= k < parts[j].len() implies g(#[trigger] parts[j][k])
            == ring.zero by {
            assert(layout_start(encoders.features@, j) <= parts[j][k].0 < layout_start(
                encoders.features@,
                j + 1,
            ));
        }
        lemma_total_none(ring, g, parts[j]);
    }
    lemma_total_of_part(ring, g, parts, i);
}

/// A numeric block's entries, with other entries that are outside of the block, tell the number.
proof fn lemma_numeric_block_tells<A: Arith, T>(
    ring: Ring<T>,
    val: spec_fn(F64) -> Option<T>,
    knots: Seq<F32>,
    off: int,
    v: F32,
    a: Seq<(u32, F32)>,
    before: Seq<(u32, F32)>,
    after: Seq<(u32, F32)>,
)
    requires
        ring.obeys_laws(),
        stays_exact32::<A, T>(ring, val),
        knots.len() > 0,
        0 <= off,
        off + knots.len() <= u32::MAX,
        is_numeric_basis::<A>(knots, off, v, a),
        forall|k: int| 0 <= k < a.len() ==> val((#[trigger] a[k]).1.spec_widened()) is Some,
        forall|k: int|
            0 <= k < before.len() ==> !(off <= (#[trigger] before[k]).0 < off + knots.len() + 1),
        forall|k: int|
            0 <= k < after.len() ==> !(off <= (#[trigger] after[k]).0 < off + knots.len() + 1),
    ensures
        block_tells(ring, val, knots, off, v, before + a + after),
{
    let k = knots.len() as int;
    let (w, s) = (weight_of(val), knot_share(ring, val, knots, off));
    lemma_basis_gives_value_back::<A, T>(ring, val, knots, off, v, a);
    lemma_numeric_entries_in_block::<A>(knots, off, v, a);
    let f1 = in_block(ring, w, off, off + k + 1);
    let f2 = in_block(ring, w, off + k, off + k + 1);
    let f3 = in_block(ring, s, off, off + k);
    lemma_total_outside(ring, f1, before, a, after);
    lemma_total_outside(ring, f2, before, a, after);
    lemma_total_outside(ring, f3, before, a, after);
    lemma_total_agrees(ring, w, |x: (u32, F32)| val(x.1.spec_widened())->0, a);
    lemma_total_agrees(ring, f1, w, a);
    if v.spec_is_nan() {
        lemma_total_agrees(ring, f2, w, a);
    } else {
        lemma_total_agrees(ring, f3, s, a);
    }
}

proof fn lemma_total_outside<T>(
    ring: Ring<T>,
    f: spec_fn((u32, F32)) -> T,
    before: Seq<(u32, F32)>,
    a: Seq<(u32, F32)>,
    after: Seq<(u32, F32)>,
)
    requires
        ring.obeys_laws(),
        forall|k: int| 0 <= k < before.len() ==> f(#[trigger] before[k]) == ring.zero,
        forall|k: int| 0 <= k < after.len() ==> f(#[trigger] after[k]) == ring.zero,
    ensures
        ring.total(f, before + a + after) == ring.total(f, a),
{
    lemma_total_none(ring, f, before);
    lemma_total_none(ring, f, after);
    lemma_total_joined(ring, f, before + a, after);
    lemma_total_joined(ring, f, before, a);
    ring.lemma_sum_with_zero(ring.total(f, a));
}

/// Every feature of a row can be read off its sparse basis: a numeric value off its block; the
/// code of a bounded category as the one slot that has a weight, which is one; an encoded
/// high-card category off its block, and its count off the block after, where there is one.
pub proof fn lemma_row_basis_tells_features<A: Arith, T>(
    ring: Ring<T>,
    val: spec_fn(F64) -> Option<T>,
    encoders: Encoders,
    matrix: EncodedMatrix,
    row: int,
    phi: Seq<(u32, F32)>,
    i: int,
)
    requires
        ring.obeys_laws(),
        stays_exact32::<A, T>(ring, val),
        encoders.wf(),
        matrix.fits(encoders),
        0 <= row < matrix.n_rows,
        is_row_basis::<A>(encoders, matrix, row, phi),
        forall|k: int| 0 <= k < phi.len() ==> val((#[trigger] phi[k]).1.spec_widened()) is Some,
        0 <= i < encoders.features.len(),
    ensures
        ({
            let off = layout_start(encoders.features@, i);
            let end = layout_start(encoders.features@, i + 1);
            let w = weight_of(val);
            match (encoders.features[i], matrix.cols[i]) {
                (FeatureEncoder::Numeric(f), EncCol::Num(v)) => block_tells(
                    ring,
                    val,
                    f.knots@,
                    off,
                    v[row],
                    phi,
                ),
                (FeatureEncoder::BoundedCat(f), EncCol::Cat(codes)) => {
                    let slot = off + codes[row];
                    &&& off <= slot < end
                    &&& ring.total(in_block(ring, w, slot, slot + 1), phi) == ring.one
                    &&& ring.total(in_block(ring, w, off, slot), phi) == ring.zero
                    &&& ring.total(in_block(ring, w, slot + 1, end), phi) == ring.zero
                },
                (FeatureEncoder::HighCard(f), EncCol::HighCard { enc, cnt }) => {
                    &&& block_tells(ring, val, f.enc_knots@, off, enc[row], phi)
                    &&& f.use_count ==> block_tells(
                        ring,
                        val,
                        f.cnt_knots@,
                        off + f.enc_knots.len() + 1,
                        cnt[row],
                        phi,
                    )
                },
                _ => false,
            }
        }),
{
    let parts = choose|parts: Seq<Seq<(u32, F32)>>| #[trigger]
        are_row_parts::<A>(encoders.features@, matrix.cols@, row, parts) && phi == parts.flatten();
    let fe = encoders.features[i];
    let col = matrix.cols[i];
    let off = layout_start(encoders.features@, i);
    let end = layout_start(encoders.features@, i + 1);
    let e = parts[i];
    let w = weight_of(val);
    let none = Seq::<(u32, F32)>::empty();
    assert(fe.wf_at(off));
    assert(col.fits(fe, matrix.n_rows as int));
    assert(is_feature_basis::<A>(fe, col, row, e));
    lemma_layout_rises(encoders, 0, i);
    lemma_part_exact(val, parts, i);
    match (fe, col) {
        (FeatureEncoder::Numeric(f), EncCol::Num(v)) => {
            lemma_numeric_block_tells::<A, T>(ring, val, f.knots@, off, v[row], e, none, none);
            assert(none + e + none =~= e);
            lemma_block_read::<A, T>(
                ring,
                val,
                encoders,
                matrix,
                row,
                parts,
                i,
                f.knots@,
                off,
                v[row],
            );
        },
        (FeatureEncoder::BoundedCat(f), EncCol::Cat(codes)) => {
            let slot = off + codes[row];
            assert(codes[row] < f.n_vocab + 2);
            assert(e[0] == (slot as u32, F32::one()));
            lemma_block_of_feature::<A, T>(
                ring,
                encoders,
                matrix,
                row,
                parts,
                i,
                w,
                slot,
                slot + 1,
            );
            lemma_block_of_feature::<A, T>(ring, encoders, matrix, row, parts, i, w, off, slot);
            lemma_block_of_feature::<A, T>(
                ring,
                encoders,
                matrix,
                row,
                parts,
                i,
                w,
                slot + 1,
                end,
            );
            reveal_with_fuel(Ring::total, 2);
            ring.lemma_sum_with_zero(ring.one);
            ring.lemma_sum_with_zero(ring.zero);
        },
        (FeatureEncoder::HighCard(f), EncCol::HighCard { enc, cnt }) => {
            let at = off + f.enc_knots.len() + 1;
            if f.use_count {
                let (a, b) = choose|a: Seq<(u32, F32)>, b: Seq<(u32, F32)>| #[trigger]
                    is_numeric_basis::<A>(f.enc_knots@, f.enc_off as int, enc[row], a)
                        && #[trigger] is_numeric_basis::<A>(
                        f.cnt_knots@,
                        f.cnt_off as int,
                        cnt[row],
                        b,
                    ) && e == a + b;
                lemma_numeric_entries_in_block::<A>(f.enc_knots@, off, enc[row], a);
                lemma_numeric_entries_in_block::<A>(f.cnt_knots@, at, cnt[row], b);
                assert forall|k: int| 0 <= k < a.len() implies val(
                    (#[trigger] a[k]).1.spec_widened(),
                ) is Some by {
                    assert(e[k] == a[k]);
                }
                assert forall|k: int| 0 <= k < b.len() implies val(
                    (#[trigger] b[k]).1.spec_widened(),
                ) is Some by {
                    assert(e[a.len() + k] == b[k]);
                }
                lemma_numeric_block_tells::<A, T>(
                    ring,
                    val,
                    f.enc_knots@,
                    off,
                    enc[row],
                    a,
                    none,
                    b,
                );
                lemma_numeric_block_tells::<A, T>(
                    ring,
                    val,
                    f.cnt_knots@,
                    at,
                    cnt[row],
                    b,
                    a,
                    none,
                );
                assert(none + a + b =~= e);
                assert(a + b + none =~= e);
                lemma_block_read::<A, T>(
                    ring,
                    val,
                    encoders,
                    matrix,
                    row,
                    parts,
                    i,
                    f.cnt_knots@,
                    at,
                    cnt[row],
                );
            } else {
                lemma_numeric_block_tells::<A, T>(
                    ring,
                    val,
                    f.enc_knots@,
                    off,
                    enc[row],
                    e,
                    none,
                    none,
                );
                assert(none + e + none =~= e);
            }
            lemma_block_read::<A, T>(
                ring,
                val,
                encoders,
                matrix,
                row,
                parts,
                i,
                f.enc_knots@,
                off,
                enc[row],
            );
        },
        _ => {},
    }
}

/// What a feature's entries tell, the whole basis tells.
proof fn lemma_block_read<A: Arith, T>(
    ring: Ring<T>,
    val: spec_fn(F64) -> Option<T>,
    encoders: Encoders,
    matrix: EncodedMatrix,
    row: int,
    parts: Seq<Seq<(u32, F32)>>,
    i: int,
    knots: Seq<F32>,
    off: int,
    v: F32,
)
    requires
        ring.obeys_laws(),
        encoders.wf(),
        matrix.fits(encoders),
        0 <= row < matrix.n_rows,
        are_row_parts::<A>(encoders.features@, matrix.cols@, row, parts),
        0 <= i < encoders.features.len(),
        layout_start(encoders.features@, i) <= off,
        off + knots.len() + 1 <= layout_start(encoders.features@, i + 1),
        block_tells(ring, val, knots, off, v, parts[i]),
    ensures
        block_tells(ring, val, knots, off, v, parts.flatten()),
{
    let k = knots.len() as int;
    let (w, s) = (weight_of(val), knot_share(ring, val, knots, off));
    lemma_block_of_feature::<A, T>(
        ring,
        encoders,
        matrix,
        row,
        parts,
        i,
        w,
        off,
        off + k + 1,
    );
    lemma_block_of_feature::<A, T>(
        ring,
        encoders,
        matrix,
        row,
        parts,
        i,
        w,
        off + k,
        off + k + 1,
    );
    lemma_block_of_feature::<A, T>(ring, encoders, matrix, row, parts, i, s, off, off + k);
}

/// Where all entries are exact, those of a part are.
proof fn lemma_part_exact<T>(
    val: spec_fn(F64) -> Option<T>,
    parts: Seq<Seq<(u32, F32)>>,
    i: int,
)
    requires
        0 <= i < parts.len(),
        forall|k: int|
            0 <= k < parts.flatten().len() ==> val((#[trigger] parts.flatten()[k]).1.spec_widened())
                is Some,
    ensures
        forall|k: int|
            0 <= k < parts[i].len() ==> val((#[trigger] parts[i][k]).1.spec_widened()) is Some,
    decreases parts.len(),
{
    let front = parts.drop_last();
    let last = parts[parts.len() - 1];
    front.lemma_flatten_push(last);
    assert(front.push(last) =~= parts);
    let (all, some) = (parts.flatten(), front.flatten());
    assert(all == some + last);
    if i < front.len() {
        assert forall|k: int| 0 <= k < some.len() implies val((#[trigger] some[k]).1.spec_widened())
            is Some by {
            assert(all[k] == some[k]);
        }
        lemma_part_exact(val, front, i);
    } else {
        assert forall|k: int| 0 <= k < last.len() implies val((#[trigger] last[k]).1.spec_widened())
            is Some by {
            assert(all[some.len() + k] == last[k]);
        }
    }
}

} // verus!
