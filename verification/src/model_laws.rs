//! What training and scoring do: class weights, base score, gradient statistics, growth,
//! routing and probabilities in terms of the data.

use vstd::prelude::*;
use crate::arith::{
    is_diff32, is_exp32, is_ln, is_log_odds, is_logistic32, is_narrow, is_prod32, is_quot, is_sum32,
    is_trace, lemma_runs_last, max_rate, min_rate, runs, Arith,
};
use crate::data::{same_column, Dataset, MISSING_CAT};
use crate::encoding::{
    are_rate_sums, is_fit, is_row_basis, is_transform, EncCol, EncodedMatrix, Encoders,
    FeatureEncoder,
};
use crate::encoding_laws::{lemma_rate_sums_total, positive_weight_at, weight_at};
use crate::exact::{
    is_kept_inside, labels_stand, stays_exact, stays_exact32, sums_exactly32, Ring,
};
use crate::float::{F32, F64};
use crate::infer::{raw_values, row_suits, value_suits, Model, RawValue};
use crate::leaf_laws::{
    leaf_term, lemma_dot_adds_up, lemma_log_odds_are_of_odds, lemma_logistic32_is_share,
};
use crate::leaf_model::is_leaf_fit;
use crate::seqs::lemma_filter_agree;
use crate::split_laws::{is_among, is_below};
use crate::train::{
    are_base_stats, are_leaf_fits, class_weight, is_base_score, is_global_rate, is_gradient,
    is_hessian, is_trained, is_trained_on, is_weighted_copy,
};
use crate::tree::{
    arrives, ends_within, growth, is_best_split, is_finished, is_grown, is_growth_start,
    is_growth_step, is_open_node, leaf_of, lemma_arrives_next, lemma_best_split_is_sound,
    lemma_next_open, lemma_next_open_is_best, next_node, next_open, root_rows, row_goes_left,
    row_goes_right, row_values, searchable, split_node, split_suits, without, Candidate, GrownTree,
    NodeKind, Open, Split,
};
use crate::Config;

verus! {

/// Gradient and hessian of a row of class weight `c` at probability `p`: `c (p - y)` and
/// `c p (1 - p)`.
pub open spec fn are_row_derivatives<T>(
    ring: Ring<T>,
    val: spec_fn(F64) -> Option<T>,
    c: F32,
    p: F32,
    label: u8,
    g: F32,
    h: F32,
) -> bool {
    let (cv, pv) = (val(c.spec_widened())->0, val(p.spec_widened())->0);
    &&& val(g.spec_widened()) is Some ==> val(g.spec_widened())->0 == ring.product(
        cv,
        ring.difference(pv, ring.count(label as int)),
    )
    &&& val(h.spec_widened()) is Some ==> val(h.spec_widened())->0 == ring.product(
        cv,
        ring.product(pv, ring.difference(ring.one, pv)),
    )
}

/// The gradient statistics that the tree is grown on are the class-weighted derivatives of the
/// log-loss at the base probability.
pub proof fn lemma_base_stats_weigh_rows<A: Arith, T>(
    ring: Ring<T>,
    val: spec_fn(F64) -> Option<T>,
    ds: Dataset,
    p0: F32,
    g: Seq<F32>,
    h: Seq<F32>,
    i: int,
)
    requires
        ring.obeys_laws(),
        stays_exact::<A, T>(ring, val),
        stays_exact32::<A, T>(ring, val),
        labels_stand(ring, val),
        are_base_stats::<A>(ds, p0, g, h),
        0 <= i < ds.labels.len(),
    ensures
        g.len() == ds.labels.len(),
        h.len() == ds.labels.len(),
        are_row_derivatives(ring, val, ds.weights[i], p0, ds.labels[i], g[i], h[i]),
{
    let (c, label) = (ds.weights[i], ds.labels[i]);
    assert(is_gradient::<A>(c, p0, label, g[i]));
    assert(is_hessian::<A>(c, p0, h[i]));
    let (y, u) = choose|y: F32, u: F32| #[trigger]
        is_narrow::<A>(F64::of_byte(label), y) && #[trigger] is_diff32::<A>(p0, y, u)
            && is_prod32::<A>(c, u, g[i]);
    let (cp, q) = choose|cp: F32, q: F32| #[trigger]
        is_prod32::<A>(c, p0, cp) && #[trigger] is_diff32::<A>(F32::one(), p0, q) && is_prod32::<A>(
            cp,
            q,
            h[i],
        );
    if val(h[i].spec_widened()) is Some {
        ring.lemma_product_associates(
            val(c.spec_widened())->0,
            val(p0.spec_widened())->0,
            val(q.spec_widened())->0,
        );
    }
}

/// The base of a model. `share` is the positive share of all weight, `rate` that share kept
/// inside `[1e-6, 1 - 1e-6]`, `q` the odds of the rate; the base score is their logarithm `l`.
pub open spec fn is_base_of<A: Arith, T>(
    ring: Ring<T>,
    val: spec_fn(F64) -> Option<T>,
    labels: Seq<u8>,
    weights: Seq<F32>,
    share: F64,
    rate: F64,
    q: F64,
    l: F64,
    s0: F32,
) -> bool {
    let n = labels.len() as int;
    &&& val(share) is Some ==> ring.product(
        val(share)->0,
        ring.sum_to(weight_at(val, weights), n),
    ) == ring.sum_to(positive_weight_at(ring, val, labels, weights), n)
    &&& is_kept_inside(
        share,
        F64 { bits: 0x3eb0_c6f7_a0b5_ed8d },
        F64 { bits: 0x3fef_fffd_e721_0be9 },
        rate,
    )
    &&& val(q) is Some ==> ring.product(val(q)->0, ring.difference(ring.one, val(rate)->0)) == val(
        rate,
    )->0
    &&& is_ln::<A>(q, l)
    &&& val(s0.spec_widened()) is Some ==> val(l) == val(s0.spec_widened())
}

/// The base score is the log-odds of the weighted positive rate.
pub proof fn lemma_base_score_is_log_odds<A: Arith, T>(
    ring: Ring<T>,
    val: spec_fn(F64) -> Option<T>,
    ds: Dataset,
    rate: F64,
    s0: F32,
) -> (r: (F64, F64, F64))
    requires
        ring.obeys_laws(),
        stays_exact::<A, T>(ring, val),
        stays_exact32::<A, T>(ring, val),
        labels_stand(ring, val),
        is_global_rate::<A>(ds, rate),
        is_base_score::<A>(rate, s0),
    ensures
        is_base_of::<A, T>(ring, val, ds.labels@, ds.weights@, r.0, rate, r.1, r.2, s0),
{
    let (labels, weights) = (ds.labels@, ds.weights@);
    let (wy, wsum, share) = choose|wy: F64, wsum: F64, q: F64| #[trigger]
        are_rate_sums::<A>(labels, weights, labels.len(), wy, wsum) && #[trigger] is_quot::<A>(
            wy,
            wsum,
            q,
        ) && rate == q.spec_clamped(min_rate(), max_rate());
    lemma_rate_sums_total::<A, T>(ring, val, labels, weights, labels.len(), wy, wsum);
    let l = choose|l: F64| #[trigger] is_log_odds::<A>(rate, l) && is_narrow::<A>(l, s0);
    let q = lemma_log_odds_are_of_odds::<A, T>(ring, val, rate, l);
    (share, q, l)
}

/// What a model was trained from: the weighted rows, their encoded matrix, the base rate and
/// probability, the gradient statistics and the tree.
pub struct Trained {
    pub ds: Dataset,
    pub matrix: EncodedMatrix,
    pub prior: F32,
    pub rate: F64,
    pub p0: F32,
    pub g: Seq<F32>,
    pub h: Seq<F32>,
    pub tree: GrownTree,
}

/// Training follows its plan: positives get the class weight and the others one; encoders are
/// fit on the weighted rows; the base score is the log-odds of their positive rate; the tree is
/// grown on the derivatives at that rate; and every leaf is fit on its own rows.
pub proof fn lemma_training_follows_plan<A: Arith, T>(
    ring: Ring<T>,
    val: spec_fn(F64) -> Option<T>,
    train: Dataset,
    cfg: Config,
    model: Model,
) -> (r: (Trained, F64, F64, F64))
    requires
        ring.obeys_laws(),
        stays_exact::<A, T>(ring, val),
        stays_exact32::<A, T>(ring, val),
        labels_stand(ring, val),
        is_trained::<A>(train, cfg, model),
    ensures
        r.0.ds.labels@ == train.labels@,
        r.0.ds.weights@.len() == train.labels@.len(),
        forall|i: int|
            0 <= i < train.labels.len() ==> #[trigger] r.0.ds.weights[i] == if train.labels[i]
                == 1 {
                cfg.pos_weight
            } else {
                F32::one()
            },
        r.0.ds.columns.len() == train.columns.len(),
        forall|i: int|
            0 <= i < train.columns.len() ==> same_column(
                #[trigger] train.columns[i],
                r.0.ds.columns[i],
            ),
        is_fit::<A>(r.0.ds, cfg, r.0.prior, model.encoders, r.0.matrix),
        is_base_of::<A, T>(
            ring,
            val,
            r.0.ds.labels@,
            r.0.ds.weights@,
            r.1,
            r.0.rate,
            r.2,
            r.3,
            model.s0,
        ),
        val(r.0.p0.spec_widened()) is Some ==> val(r.0.p0.spec_widened()) == val(r.0.rate),
        r.0.g.len() == train.labels.len(),
        r.0.h.len() == train.labels.len(),
        forall|i: int|
            0 <= i < train.labels.len() ==> are_row_derivatives(
                ring,
                val,
                r.0.ds.weights[i],
                r.0.p0,
                train.labels[i],
                #[trigger] r.0.g[i],
                r.0.h[i],
            ),
        is_grown::<A>(model.encoders, r.0.matrix, r.0.g, r.0.h, cfg, r.0.tree),
        model.nodes == r.0.tree.nodes,
        model.root == r.0.tree.root,
        model.leaves.len() == r.0.tree.leaf_rows.len(),
        forall|j: int|
            0 <= j < model.leaves.len() ==> is_leaf_fit::<A>(
                r.0.tree.leaf_rows[j]@,
                model.encoders,
                r.0.matrix,
                r.0.ds.labels@,
                r.0.ds.weights@,
                model.s0,
                cfg,
                #[trigger] model.leaves[j],
            ),
{
    let (ds, prior, matrix) = choose|ds: Dataset, prior: F32, matrix: EncodedMatrix| #[trigger]
        is_weighted_copy(train, cfg.pos_weight, ds) && #[trigger] is_trained_on::<A>(
            ds,
            cfg,
            prior,
            matrix,
            model,
        );
    let (rate, p0, g, h, tree) = choose|
        rate: F64,
        p0: F32,
        g: Seq<F32>,
        h: Seq<F32>,
        tree: GrownTree,
    |
        {
            &&& #[trigger] is_global_rate::<A>(ds, rate)
            &&& is_base_score::<A>(rate, model.s0)
            &&& #[trigger] is_narrow::<A>(rate, p0)
            &&& #[trigger] are_base_stats::<A>(ds, p0, g, h)
            &&& #[trigger] is_grown::<A>(model.encoders, matrix, g, h, cfg, tree)
            &&& model.nodes == tree.nodes
            &&& model.root == tree.root
            &&& are_leaf_fits::<A>(
                tree,
                model.encoders,
                matrix,
                ds,
                model.s0,
                cfg,
                model.leaves@,
            )
        };
    assert forall|i: int| 0 <= i < train.labels.len() implies #[trigger] ds.weights[i] == if train.labels[i]
        == 1 {
        cfg.pos_weight
    } else {
        F32::one()
    } by {
        assert(ds.weights@[i] == class_weight(train.labels@[i], cfg.pos_weight));
    }
    assert forall|i: int| 0 <= i < train.labels.len() implies are_row_derivatives(
        ring,
        val,
        ds.weights[i],
        p0,
        train.labels[i],
        #[trigger] g[i],
        h[i],
    ) by {
        lemma_base_stats_weigh_rows::<A, T>(ring, val, ds, p0, g, h, i);
        assert(ds.labels@[i] == train.labels@[i]);
    }
    let (share, q, l) = lemma_base_score_is_log_odds::<A, T>(ring, val, ds, rate, model.s0);
    (Trained { ds, matrix, prior, rate, p0, g, h, tree }, share, q, l)
}

/// The probability of a row at a leaf is the logistic function of the base score, the leaf's
/// bias and its weighted basis entries. `s` is the score, `e` the exponential of minus that.
pub proof fn lemma_proba_is_logistic_of_score<A: Arith, T>(
    ring: Ring<T>,
    val: spec_fn(F64) -> Option<T>,
    model: Model,
    leaf: int,
    phi: Seq<(u32, F32)>,
    p: F32,
) -> (r: (F32, F32))
    requires
        ring.obeys_laws(),
        stays_exact32::<A, T>(ring, val),
        sums_exactly32::<A, T>(ring, val),
        model.is_leaf_proba::<A>(leaf, phi, p),
    ensures
        val(r.0.spec_widened()) is Some ==> val(r.0.spec_widened())->0 == ring.sum_of(
            val(model.s0.spec_widened())->0,
            ring.sum_of(
                val(model.leaves[leaf].bias.spec_widened())->0,
                ring.total(leaf_term(ring, val, model.leaves[leaf]), phi),
            ),
        ),
        is_exp32::<A>(r.0.spec_negated(), r.1),
        val(p.spec_widened()) is Some ==> val(r.1.spec_widened()) is Some && ring.product(
            val(p.spec_widened())->0,
            ring.sum_of(ring.one, val(r.1.spec_widened())->0),
        ) == ring.one,
{
    let (d, s) = choose|d: F32, s: F32| #[trigger]
        model.leaves[leaf].is_dot::<A>(phi, d) && #[trigger] is_sum32::<A>(model.s0, d, s)
            && is_logistic32::<A>(s, p);
    lemma_dot_adds_up::<A, T>(ring, val, model.leaves[leaf], phi, d);
    let e = lemma_logistic32_is_share::<A, T>(ring, val, s, p);
    (s, e)
}

/// Routing follows the splits: a leaf node is where its rows stop; at a threshold, rows with a
/// smaller value go left and the others right, those without one the default way; at a set of
/// codes, rows with one of these go left and the others right.
pub proof fn lemma_routing_follows_splits(
    nodes: Seq<NodeKind>,
    n: int,
    leaves: int,
    value: spec_fn(int) -> Result<F32, u32>,
    node: int,
    k: nat,
)
    requires
        ends_within(nodes, n, leaves, node, k),
    ensures
        match nodes[node] {
            NodeKind::Leaf(id) => leaf_of(nodes, value, node) == id,
            NodeKind::Internal { feature, split, default_left, left, right } => {
                let to_left = leaf_of(nodes, value, node) == leaf_of(nodes, value, left as int);
                let to_right = leaf_of(nodes, value, node) == leaf_of(nodes, value, right as int);
                match (split, value(feature as int)) {
                    (Split::Numeric { thr }, Ok(x)) => {
                        &&& x.lt(thr) ==> to_left
                        &&& !x.spec_is_nan() && !x.lt(thr) ==> to_right
                        &&& x.spec_is_nan() && default_left ==> to_left
                        &&& x.spec_is_nan() && !default_left ==> to_right
                    },
                    (Split::Categorical { left_set }, Err(code)) => {
                        &&& left_set@.contains(code) ==> to_left
                        &&& !left_set@.contains(code) ==> to_right
                    },
                    _ => {
                        &&& default_left ==> to_left
                        &&& !default_left ==> to_right
                    },
                }
            },
        },
{
    lemma_arrives_next(nodes, n, leaves, value, node, k);
    if nodes[node] is Internal {
        assert(arrives(nodes, value, node) == arrives(
            nodes,
            value,
            next_node(nodes, value, node),
        ));
    }
}

/// The split sends a row left, by its routing value.
pub open spec fn sends_left_by(
    split: Split,
    default_left: bool,
    col: EncCol,
) -> spec_fn(u32) -> bool {
    |r: u32|
        match (split, col) {
            (Split::Numeric { thr }, EncCol::Num(v)) => is_below(v@, thr, default_left)(r),
            (Split::Numeric { thr }, EncCol::HighCard { enc, .. }) => is_below(
                enc@,
                thr,
                default_left,
            )(r),
            (Split::Categorical { left_set }, EncCol::Cat(codes)) => is_among(
                codes@,
                left_set@,
            )(r),
            _ => default_left,
        }
}

/// The split sends a row right.
pub open spec fn sends_right_by(
    split: Split,
    default_left: bool,
    col: EncCol,
) -> spec_fn(u32) -> bool {
    |r: u32| !sends_left_by(split, default_left, col)(r)
}

/// Inner node `k` splits its rows, `at[k]`, by their best split, and each child has the rows
/// that the split sends there.
pub open spec fn splits_best<A: Arith>(
    encoders: Encoders,
    matrix: EncodedMatrix,
    g: Seq<F32>,
    h: Seq<F32>,
    cfg: Config,
    nodes: Seq<NodeKind>,
    at: Seq<Seq<u32>>,
    k: int,
) -> bool {
    nodes[k] matches NodeKind::Internal { feature, split, default_left, left, right } ==> {
        let col = matrix.cols[feature as int];
        &&& k < left < at.len()
        &&& k < right < at.len()
        &&& exists|gain: F32|
            is_best_split::<A>(
                at[k],
                encoders,
                matrix,
                g,
                h,
                cfg,
                Some(#[trigger] candidate_of(gain, feature, split, default_left)),
            )
        &&& at[left as int] == at[k].filter(sends_left_by(split, default_left, col))
        &&& at[right as int] == at[k].filter(sends_right_by(split, default_left, col))
    }
}

/// A split of some gain.
pub open spec fn candidate_of(gain: F32, feature: u32, split: Split, default_left: bool) -> Candidate {
    Candidate { gain, feature, split, default_left }
}

/// The rows at every node during growth.
spec fn growth_follows<A: Arith>(
    encoders: Encoders,
    matrix: EncodedMatrix,
    g: Seq<F32>,
    h: Seq<F32>,
    cfg: Config,
    s: (Seq<NodeKind>, Seq<Open>),
    at: Seq<Seq<u32>>,
) -> bool {
    &&& at.len() == s.0.len()
    &&& at.len() > 0
    &&& at[0] == root_rows(matrix.n_rows as int)
    &&& forall|k: int|
        0 <= k < s.0.len() ==> #[trigger] splits_best::<A>(
            encoders,
            matrix,
            g,
            h,
            cfg,
            s.0,
            at,
            k,
        )
    &&& forall|j: int|
        0 <= j < s.1.len() ==> is_open_well::<A>(
            encoders,
            matrix,
            g,
            h,
            cfg,
            s.0,
            at,
            #[trigger] s.1[j],
        )
    &&& forall|k: int|
        0 <= k < s.0.len() && (#[trigger] s.0[k]) is Leaf ==> is_open_node(s.1, k)
    &&& forall|i: int, j: int|
        0 <= i < j < s.1.len() ==> (#[trigger] s.1[i]).node != (#[trigger] s.1[j]).node
}

spec fn is_open_well<A: Arith>(
    encoders: Encoders,
    matrix: EncodedMatrix,
    g: Seq<F32>,
    h: Seq<F32>,
    cfg: Config,
    nodes: Seq<NodeKind>,
    at: Seq<Seq<u32>>,
    o: Open,
) -> bool {
    &&& o.node < nodes.len()
    &&& nodes[o.node as int] is Leaf
    &&& at[o.node as int] == o.rows@
    &&& is_best_split::<A>(o.rows@, encoders, matrix, g, h, cfg, o.cand)
}

proof fn lemma_sides_agree(rows: Seq<u32>, split: Split, default_left: bool, col: EncCol)
    requires
        split_suits(split, col),
    ensures
        rows.filter(row_goes_left(split, default_left, col)) == rows.filter(
            sends_left_by(split, default_left, col),
        ),
        rows.filter(row_goes_right(split, default_left, col)) == rows.filter(
            sends_right_by(split, default_left, col),
        ),
{
    lemma_filter_agree(
        rows,
        row_goes_left(split, default_left, col),
        sends_left_by(split, default_left, col),
    );
    lemma_filter_agree(
        rows,
        row_goes_right(split, default_left, col),
        sends_right_by(split, default_left, col),
    );
}

#[verifier::rlimit(40)]
proof fn lemma_growth_step_follows<A: Arith>(
    encoders: Encoders,
    matrix: EncodedMatrix,
    g: Seq<F32>,
    h: Seq<F32>,
    cfg: Config,
    a: (Seq<NodeKind>, Seq<Open>),
    b: (Seq<NodeKind>, Seq<Open>),
    at: Seq<Seq<u32>>,
) -> (at2: Seq<Seq<u32>>)
    requires
        growth_follows::<A>(encoders, matrix, g, h, cfg, a, at),
        is_growth_step::<A>(encoders, matrix, g, h, cfg, a, b),
        searchable(encoders, matrix, matrix.n_rows as int),
        b.0.len() <= usize::MAX,
    ensures
        growth_follows::<A>(encoders, matrix, g, h, cfg, b, at2),
        at2.take(a.0.len() as int) == at,
{
    lemma_next_open(a.1);
    let i = next_open(a.1)->0;
    let o = a.1[i];
    let c = o.cand->0;
    let col = matrix.cols[c.feature as int];
    let (n, k) = (a.0.len() as int, a.1.len() as int);
    let rest = without(a.1, i);
    assert(is_open_well::<A>(encoders, matrix, g, h, cfg, a.0, at, o));
    lemma_best_split_is_sound::<A>(o.rows@, encoders, matrix, g, h, cfg, c);
    lemma_sides_agree(o.rows@, c.split, c.default_left, col);
    let lefts = o.rows@.filter(sends_left_by(c.split, c.default_left, col));
    let rights = o.rows@.filter(sends_right_by(c.split, c.default_left, col));
    let at2 = at.push(lefts).push(rights);
    assert(b.0.len() == n + 2);
    assert forall|x: int| 0 <= x < b.0.len() implies #[trigger] splits_best::<A>(
        encoders,
        matrix,
        g,
        h,
        cfg,
        b.0,
        at2,
        x,
    ) by {
        if x == o.node {
            assert(b.0[x] == split_node(c, n));
            assert(candidate_of(c.gain, c.feature, c.split, c.default_left) == c);
            assert(at2[x] == o.rows@);
        } else if x < n {
            assert(b.0[x] == a.0[x]);
            assert(splits_best::<A>(encoders, matrix, g, h, cfg, a.0, at, x));
            if let NodeKind::Internal { feature, split, default_left, left, right } = a.0[x] {
                assert(at2[x] == at[x]);
                assert(at2[left as int] == at[left as int]);
                assert(at2[right as int] == at[right as int]);
                let gain = choose|gain: F32|
                    is_best_split::<A>(
                        at[x],
                        encoders,
                        matrix,
                        g,
                        h,
                        cfg,
                        Some(#[trigger] candidate_of(gain, feature, split, default_left)),
                    );
                assert(is_best_split::<A>(
                    at2[x],
                    encoders,
                    matrix,
                    g,
                    h,
                    cfg,
                    Some(candidate_of(gain, feature, split, default_left)),
                ));
            }
        }
    }
    assert forall|m: int| 0 <= m < k - 1 implies #[trigger] b.1[m] == if m == i {
        a.1[k - 1]
    } else {
        a.1[m]
    } by {
        assert(b.1.take(k - 1)[m] == rest[m]);
    }
    assert forall|m: int| 0 <= m < b.1.len() implies is_open_well::<A>(
        encoders,
        matrix,
        g,
        h,
        cfg,
        b.0,
        at2,
        #[trigger] b.1[m],
    ) by {
        if m < k - 1 {
            let j = if m == i {
                k - 1
            } else {
                m
            };
            let p = a.1[j];
            assert(b.1[m] == p);
            assert(is_open_well::<A>(encoders, matrix, g, h, cfg, a.0, at, p));
            assert(p.node != o.node) by {
                if j < i {
                    assert(a.1[j].node != a.1[i].node);
                } else {
                    assert(a.1[i].node != a.1[j].node);
                }
            }
            assert(b.0[p.node as int] == a.0[p.node as int]);
        }
    }
    assert forall|x: int| 0 <= x < b.0.len() && (#[trigger] b.0[x]) is Leaf implies is_open_node(
        b.1,
        x,
    ) by {
        if x == n {
            assert(b.1[k - 1].node == n);
        } else if x == n + 1 {
            assert(b.1[k].node == n + 1);
        } else {
            assert(b.0[x] == a.0[x]);
            assert(is_open_node(a.1, x));
            let j = choose|j: int| 0 <= j < a.1.len() && (#[trigger] a.1[j]).node == x;
            if j == k - 1 {
                assert(b.1[i].node == x);
            } else {
                assert(b.1[j].node == x);
            }
        }
    }
    assert forall|p: int, q: int| 0 <= p < q < b.1.len() implies (#[trigger] b.1[p]).node
        != (#[trigger] b.1[q]).node by {
        if q < k - 1 {
            let (x, y) = (if p == i {
                k - 1
            } else {
                p
            }, if q == i {
                k - 1
            } else {
                q
            });
            if x < y {
                assert(a.1[x].node != a.1[y].node);
            } else {
                assert(a.1[y].node != a.1[x].node);
            }
        } else if p < k - 1 {
            let x = if p == i {
                k - 1
            } else {
                p
            };
            assert(is_open_well::<A>(encoders, matrix, g, h, cfg, a.0, at, a.1[x]));
        }
    }
    assert(at2.take(n) =~= at);
    at2
}

proof fn lemma_no_next_open(open: Seq<Open>)
    requires
        next_open(open) is None,
    ensures
        forall|j: int| 0 <= j < open.len() ==> (#[trigger] open[j]).cand is None,
    decreases open.len(),
{
    if open.len() > 0 {
        let front = open.drop_last();
        lemma_no_next_open(front);
        assert forall|j: int| 0 <= j < open.len() implies (#[trigger] open[j]).cand is None by {
            if j < front.len() {
                assert(front[j] == open[j]);
            }
        }
    }
}

/// A grown tree splits at every inner node by the best split of the rows there, from all rows at
/// the root on, and best first: no node that waited while another was split has a split that
/// gains more. Its leaves have the rows that arrive; and where it has fewer leaves than were
/// asked for, no leaf has a split that gains anything. `at` are the rows at the nodes, and
/// `cands` their best splits.
pub proof fn lemma_tree_splits_best<A: Arith>(
    encoders: Encoders,
    matrix: EncodedMatrix,
    g: Seq<F32>,
    h: Seq<F32>,
    cfg: Config,
    tree: GrownTree,
) -> (found: (Seq<Seq<u32>>, Seq<Option<Candidate>>))
    requires
        is_grown::<A>(encoders, matrix, g, h, cfg, tree),
        searchable(encoders, matrix, matrix.n_rows as int),
    ensures
        found.0.len() == tree.nodes.len(),
        found.1.len() == tree.nodes.len(),
        tree.root < found.0.len(),
        found.0[tree.root as int] == Seq::new(matrix.n_rows as nat, |i: int| i as u32),
        forall|k: int|
            0 <= k < tree.nodes.len() ==> #[trigger] splits_best::<A>(
                encoders,
                matrix,
                g,
                h,
                cfg,
                tree.nodes@,
                found.0,
                k,
            ),
        forall|k: int|
            0 <= k < tree.nodes.len() ==> is_best_split::<A>(
                found.0[k],
                encoders,
                matrix,
                g,
                h,
                cfg,
                #[trigger] found.1[k],
            ),
        forall|k: int|
            0 <= k < tree.nodes.len() && (#[trigger] tree.nodes[k]) is Internal ==> is_split_of(
                tree.nodes[k],
                found.1[k],
            ),
        forall|x: int, k: int|
            0 <= x < tree.nodes.len() && 0 <= k < tree.nodes.len() && #[trigger] waits_for(
                tree.nodes@,
                x,
                k,
            ) ==> gains_no_more(found.1, x, k),
        forall|k: int|
            0 <= k < tree.nodes.len() ==> ((#[trigger] tree.nodes[k]) matches NodeKind::Leaf(id)
                ==> id < tree.leaf_rows.len() && tree.leaf_rows[id as int]@ == found.0[k]),
        tree.leaf_rows.len() <= cfg.num_leaves || tree.leaf_rows.len() == 1,
        tree.leaf_rows.len() < cfg.num_leaves ==> forall|j: int|
            0 <= j < tree.leaf_rows.len() ==> is_best_split::<A>(
                (#[trigger] tree.leaf_rows[j])@,
                encoders,
                matrix,
                g,
                h,
                cfg,
                None,
            ),
{
    let (start, steps, last) = choose|
        start: (Seq<NodeKind>, Seq<Open>),
        steps: nat,
        last: (Seq<NodeKind>, Seq<Open>),
    |
        {
            &&& #[trigger] is_growth_start::<A>(encoders, matrix, g, h, cfg, start)
            &&& #[trigger] runs(start, steps, growth::<A>(encoders, matrix, g, h, cfg), last)
            &&& steps == 0 || steps + 1 <= cfg.num_leaves
            &&& steps + 1 >= cfg.num_leaves || next_open(last.1) is None
            &&& is_finished(last, tree)
        };
    let (at, cands) = lemma_growth_run_ranks::<A>(
        encoders,
        matrix,
        g,
        h,
        cfg,
        start,
        steps,
        last,
    );
    assert forall|k: int| 0 <= k < at.len() implies (#[trigger] tree.nodes[k]) is Leaf
        && last.0[k] is Leaf || tree.nodes[k] == last.0[k] by {
        if is_open_node(last.1, k) {
            let j = choose|j: int| 0 <= j < last.1.len() && (#[trigger] last.1[j]).node == k;
            assert(is_open_well::<A>(encoders, matrix, g, h, cfg, last.0, at, last.1[j]));
            assert(tree.nodes[last.1[j].node as int] == NodeKind::Leaf(j as usize));
        }
    }
    assert forall|k: int|
        0 <= k < at.len() && (#[trigger] tree.nodes[k]) is Internal implies is_split_of(
        tree.nodes[k],
        cands[k],
    ) by {
        assert(tree.nodes[k] == last.0[k]);
        assert(last.0[k] is Internal);
    }
    assert forall|x: int, k: int|
        0 <= x < at.len() && 0 <= k < at.len() && #[trigger] waits_for(
            tree.nodes@,
            x,
            k,
        ) implies gains_no_more(cands, x, k) by {
        assert(tree.nodes[k] == last.0[k]);
        assert(tree.nodes[x] is Leaf && last.0[x] is Leaf || tree.nodes[x] == last.0[x]);
        assert(waits_for(last.0, x, k));
    }
    assert forall|k: int| 0 <= k < at.len() implies #[trigger] splits_best::<A>(
        encoders,
        matrix,
        g,
        h,
        cfg,
        tree.nodes@,
        at,
        k,
    ) by {
        assert(splits_best::<A>(encoders, matrix, g, h, cfg, last.0, at, k));
        if is_open_node(last.1, k) {
            let j = choose|j: int| 0 <= j < last.1.len() && (#[trigger] last.1[j]).node == k;
            assert(tree.nodes[last.1[j].node as int] == NodeKind::Leaf(j as usize));
        } else {
            assert(tree.nodes[k] == last.0[k]);
        }
    }
    assert forall|k: int| 0 <= k < at.len() implies ((
    #[trigger] tree.nodes[k]) matches NodeKind::Leaf(id) ==> id < tree.leaf_rows.len()
        && tree.leaf_rows[id as int]@ == at[k]) by {
        if is_open_node(last.1, k) {
            let j = choose|j: int| 0 <= j < last.1.len() && (#[trigger] last.1[j]).node == k;
            assert(is_open_well::<A>(encoders, matrix, g, h, cfg, last.0, at, last.1[j]));
            assert(tree.nodes[last.1[j].node as int] == NodeKind::Leaf(j as usize));
            assert(tree.leaf_rows[j]@ == last.1[j].rows@);
        } else {
            assert(tree.nodes[k] == last.0[k]);
        }
    }
    if tree.leaf_rows.len() < cfg.num_leaves {
        lemma_no_next_open(last.1);
        assert forall|j: int| 0 <= j < tree.leaf_rows.len() implies is_best_split::<A>(
            (#[trigger] tree.leaf_rows[j])@,
            encoders,
            matrix,
            g,
            h,
            cfg,
            None,
        ) by {
            assert(is_open_well::<A>(encoders, matrix, g, h, cfg, last.0, at, last.1[j]));
            assert(tree.leaf_rows[j]@ == last.1[j].rows@);
            assert(last.1[j].cand is None);
        }
    }
    (at, cands)
}

/// What routing reads of a raw row: a number as it is; the encoding of a high-card category, or
/// the prior; the id of a bounded one, the first after the vocabulary where it is missing, and the
/// second where it is unknown.
pub proof fn lemma_raw_rows_are_read(encoders: Encoders, row: Seq<RawValue>, i: int)
    requires
        encoders.wf(),
        row_suits(encoders, row),
        0 <= i < encoders.features.len(),
    ensures
        match (encoders.features[i], row[i]) {
            (FeatureEncoder::Numeric(_), RawValue::Num(x)) => raw_values(encoders, row)(i) == Ok::<
                F32,
                u32,
            >(x),
            (FeatureEncoder::HighCard(e), RawValue::Cat(c)) => raw_values(encoders, row)(i) == Ok::<
                F32,
                u32,
            >(
                if c != MISSING_CAT && e.enc@.contains_key(c) {
                    e.enc@[c]
                } else {
                    e.prior
                },
            ),
            (FeatureEncoder::BoundedCat(e), RawValue::Cat(c)) => raw_values(encoders, row)(i)
                == Err::<F32, u32>(
                if c == MISSING_CAT {
                    e.n_vocab
                } else if e.vocab@.contains_key(c) {
                    e.vocab@[c]
                } else {
                    (e.n_vocab + 1) as u32
                },
            ),
            _ => false,
        },
{
    assert(value_suits(encoders.features[i], row[i]));
}

/// A dataset is scored row by row: each prediction is what the model gives to that row of the
/// encoded dataset, at the leaf where the row arrives, with the row's own basis.
pub proof fn lemma_predictions_follow_rows<A: Arith>(
    model: Model,
    ds: Dataset,
    preds: Seq<F32>,
    r: int,
) -> (f: (EncodedMatrix, Seq<(u32, F32)>))
    requires
        model.are_predictions::<A>(ds, preds),
        0 <= r < ds.labels.len(),
    ensures
        preds.len() == ds.labels.len(),
        is_transform::<A>(model.encoders, ds, f.0),
        is_row_basis::<A>(model.encoders, f.0, r, f.1),
        model.is_leaf_proba::<A>(
            leaf_of(model.nodes@, row_values(f.0, r), model.root as int),
            f.1,
            preds[r],
        ),
{
    let m = choose|m: EncodedMatrix| #[trigger]
        is_transform::<A>(model.encoders, ds, m) && model.are_matrix_predictions::<A>(m, preds);
    assert(model.is_encoded_proba::<A>(m, r, preds[r]));
    let phi = choose|phi: Seq<(u32, F32)>| #[trigger]
        is_row_basis::<A>(model.encoders, m, r, phi) && model.is_leaf_proba::<A>(
            model.encoded_leaf(m, r),
            phi,
            preds[r],
        );
    (m, phi)
}

/// Node `x` was there when node `k` was split, and not yet split itself: nodes are numbered as
/// they come, so that is told by the children's numbers.
pub open spec fn waits_for(nodes: Seq<NodeKind>, x: int, k: int) -> bool {
    &&& x != k
    &&& nodes[k] is Internal
    &&& x < nodes[k]->left
    &&& nodes[x] is Internal ==> nodes[k]->left < nodes[x]->left
}

/// The best split of node `x`, if any, gains no more than that of node `k`.
pub open spec fn gains_no_more(cands: Seq<Option<Candidate>>, x: int, k: int) -> bool {
    cands[x] is Some ==> cands[k] is Some && (cands[x]->0).gain.le((cands[k]->0).gain)
}

/// The best splits of the nodes during growth, and that those that wait gain no more.
spec fn growth_ranks<A: Arith>(
    encoders: Encoders,
    matrix: EncodedMatrix,
    g: Seq<F32>,
    h: Seq<F32>,
    cfg: Config,
    s: (Seq<NodeKind>, Seq<Open>),
    at: Seq<Seq<u32>>,
    cands: Seq<Option<Candidate>>,
) -> bool {
    &&& cands.len() == s.0.len()
    &&& forall|k: int|
        0 <= k < s.0.len() ==> is_best_split::<A>(
            at[k],
            encoders,
            matrix,
            g,
            h,
            cfg,
            #[trigger] cands[k],
        )
    &&& forall|k: int|
        0 <= k < s.0.len() && (#[trigger] s.0[k]) is Internal ==> s.0[k]->left < s.0.len()
            && is_split_of(s.0[k], cands[k])
    &&& forall|j: int| 0 <= j < s.1.len() ==> cands[(#[trigger] s.1[j]).node as int] == s.1[j].cand
    &&& forall|x: int, k: int|
        0 <= x < s.0.len() && 0 <= k < s.0.len() && #[trigger] waits_for(s.0, x, k)
            ==> gains_no_more(cands, x, k)
}

/// The node is split by the candidate.
pub open spec fn is_split_of(node: NodeKind, cand: Option<Candidate>) -> bool {
    &&& node is Internal
    &&& cand is Some
    &&& (cand->0).feature == node->feature
    &&& (cand->0).split == node->split
    &&& (cand->0).default_left == node->default_left
}

#[verifier::rlimit(40)]
proof fn lemma_growth_step_ranks<A: Arith>(
    encoders: Encoders,
    matrix: EncodedMatrix,
    g: Seq<F32>,
    h: Seq<F32>,
    cfg: Config,
    a: (Seq<NodeKind>, Seq<Open>),
    b: (Seq<NodeKind>, Seq<Open>),
    at: Seq<Seq<u32>>,
    at2: Seq<Seq<u32>>,
    cands: Seq<Option<Candidate>>,
) -> (cands2: Seq<Option<Candidate>>)
    requires
        growth_follows::<A>(encoders, matrix, g, h, cfg, a, at),
        growth_follows::<A>(encoders, matrix, g, h, cfg, b, at2),
        growth_ranks::<A>(encoders, matrix, g, h, cfg, a, at, cands),
        is_growth_step::<A>(encoders, matrix, g, h, cfg, a, b),
        searchable(encoders, matrix, matrix.n_rows as int),
        b.0.len() <= usize::MAX,
        at2.take(a.0.len() as int) == at,
    ensures
        growth_ranks::<A>(encoders, matrix, g, h, cfg, b, at2, cands2),
{
    lemma_next_open(a.1);
    let i = next_open(a.1)->0;
    let o = a.1[i];
    let c = o.cand->0;
    let (n, k) = (a.0.len() as int, a.1.len() as int);
    let p = o.node as int;
    let cands2 = cands.push(b.1[k - 1].cand).push(b.1[k].cand);
    assert(is_open_well::<A>(encoders, matrix, g, h, cfg, a.0, at, o));
    assert(cands[o.node as int] == o.cand);
    assert(is_open_well::<A>(encoders, matrix, g, h, cfg, b.0, at2, b.1[k - 1]));
    assert(is_open_well::<A>(encoders, matrix, g, h, cfg, b.0, at2, b.1[k]));
    assert(b.0[p] == split_node(c, n));
    assert forall|x: int| 0 <= x < b.0.len() implies is_best_split::<A>(
        at2[x],
        encoders,
        matrix,
        g,
        h,
        cfg,
        #[trigger] cands2[x],
    ) by {
        if x < n {
            assert(cands2[x] == cands[x]);
            assert(at2.take(n)[x] == at2[x]);
        } else if x == n {
            assert(b.1[k - 1].node == n);
        } else {
            assert(b.1[k].node == n + 1);
        }
    }
    assert forall|x: int| 0 <= x < b.0.len() && (#[trigger] b.0[x]) is Internal implies b.0[x]->left
        < b.0.len() && is_split_of(b.0[x], cands2[x]) by {
        if x != p {
            assert(x < n);
            assert(b.0[x] == a.0[x]);
        }
        assert(cands2[x] == cands[x]);
    }
    assert forall|m: int| 0 <= m < k - 1 implies #[trigger] b.1[m] == if m == i {
        a.1[k - 1]
    } else {
        a.1[m]
    } by {
        assert(b.1.take(k - 1)[m] == without(a.1, i)[m]);
    }
    assert forall|m: int| 0 <= m < b.1.len() implies cands2[(#[trigger] b.1[m]).node as int]
        == b.1[m].cand by {
        if m < k - 1 {
            let j = if m == i {
                k - 1
            } else {
                m
            };
            assert(b.1[m] == a.1[j]);
            assert(is_open_well::<A>(encoders, matrix, g, h, cfg, a.0, at, a.1[j]));
            assert(cands[a.1[j].node as int] == a.1[j].cand);
        }
    }
    assert forall|j: int| 0 <= j < a.1.len() implies ((#[trigger] a.1[j]).cand matches Some(d)
        ==> !d.gain.spec_is_nan()) by {
        assert(is_open_well::<A>(encoders, matrix, g, h, cfg, a.0, at, a.1[j]));
        if let Some(d) = a.1[j].cand {
            lemma_best_split_is_sound::<A>(a.1[j].rows@, encoders, matrix, g, h, cfg, d);
        }
    }
    lemma_next_open_is_best(a.1);
    assert forall|x: int, y: int|
        0 <= x < b.0.len() && 0 <= y < b.0.len() && #[trigger] waits_for(
            b.0,
            x,
            y,
        ) implies gains_no_more(cands2, x, y) by {
        if y == p {
            // Everything that waits is an open leaf.
            assert(x < n);
            assert(b.0[x] == a.0[x]);
            assert(a.0[x] is Leaf);
            assert(is_open_node(a.1, x));
            let j = choose|j: int| 0 <= j < a.1.len() && (#[trigger] a.1[j]).node == x;
            assert(cands[x] == a.1[j].cand);
        } else {
            assert(y < n);
            assert(b.0[y] == a.0[y]);
            assert(a.0[y]->left < n);
            assert(x < n);
            if x != p {
                assert(b.0[x] == a.0[x]);
            }
            assert(waits_for(a.0, x, y));
        }
    }
    cands2
}

proof fn lemma_growth_run_ranks<A: Arith>(
    encoders: Encoders,
    matrix: EncodedMatrix,
    g: Seq<F32>,
    h: Seq<F32>,
    cfg: Config,
    start: (Seq<NodeKind>, Seq<Open>),
    steps: nat,
    last: (Seq<NodeKind>, Seq<Open>),
) -> (r: (Seq<Seq<u32>>, Seq<Option<Candidate>>))
    requires
        is_growth_start::<A>(encoders, matrix, g, h, cfg, start),
        runs(start, steps, growth::<A>(encoders, matrix, g, h, cfg), last),
        searchable(encoders, matrix, matrix.n_rows as int),
        last.0.len() <= usize::MAX,
    ensures
        growth_follows::<A>(encoders, matrix, g, h, cfg, last, r.0),
        growth_ranks::<A>(encoders, matrix, g, h, cfg, last, r.0, r.1),
        last.1.len() == steps + 1,
    decreases steps,
{
    let step = growth::<A>(encoders, matrix, g, h, cfg);
    if steps == 0 {
        let tr = choose|tr: Seq<(Seq<NodeKind>, Seq<Open>)>| #[trigger]
            is_trace(start, steps, step, tr) && tr[0] == last;
        let at = seq![root_rows(matrix.n_rows as int)];
        let cands = seq![last.1[0].cand];
        assert(splits_best::<A>(encoders, matrix, g, h, cfg, last.0, at, 0));
        assert(last.1[0].node == 0);
        assert forall|x: int, y: int|
            0 <= x < last.0.len() && 0 <= y < last.0.len() && #[trigger] waits_for(
                last.0,
                x,
                y,
            ) implies gains_no_more(cands, x, y) by {}
        (at, cands)
    } else {
        let m = lemma_runs_last(start, steps, step, last);
        assert(is_growth_step::<A>(encoders, matrix, g, h, cfg, m, last));
        let (at, cands) = lemma_growth_run_ranks::<A>(
            encoders,
            matrix,
            g,
            h,
            cfg,
            start,
            (steps - 1) as nat,
            m,
        );
        let at2 = lemma_growth_step_follows::<A>(encoders, matrix, g, h, cfg, m, last, at);
        let cands2 = lemma_growth_step_ranks::<A>(
            encoders,
            matrix,
            g,
            h,
            cfg,
            m,
            last,
            at,
            at2,
            cands,
        );
        (at2, cands2)
    }
}

} // verus!
