//! Training orchestration: class weights → encoders → base score → gradient
//! statistics at `s_0` → coarse tree → per-leaf linear fits → [`Model`].

use vstd::prelude::*;
use crate::arith::{
    deterministic, is_diff32, is_log_odds, is_narrow, is_prod32, is_quot, is_sum, log_odds,
    max_rate, min_rate, Arith,
};
use crate::data::{same_column, Dataset, MISSING_CAT};
use crate::encoding::{
    add_weight, add_weighted_label, are_rate_sums, dataset_suits, fit_accepts, is_fit, is_fitted,
    is_label_added, layout_start, lemma_fit_accepts_alike, lemma_fit_is_wf, lemma_fit_suits,
    lemma_unseen_is_not_mapped, rate_sums, slots_bound, EncodedMatrix, Encoders,
};
use crate::exact::{lemma_run_total, stays_exact, stays_exact32, Ring};
use crate::float::{F32, F64};
use crate::infer::{
    lemma_unknown_categories_score_alike, log_of_one_is_zero, values_alike, Model, RawValue,
};
use crate::leaf_model::{fit_leaf, is_leaf_fit, lemma_fitting_rows_accepted, Leaf};
use crate::tree::{
    ends_within, grow, is_grown, lemma_fitting_is_searchable, lemma_grown_tree_partitions,
    lemma_paths_ahead_end, GrownTree,
};
use crate::Config;

verus! {

/// The weight of a row: `pos_weight` for positives, one for the others.
pub open spec fn class_weight(label: u8, pos_weight: F32) -> F32 {
    if label == 1 {
        pos_weight
    } else {
        F32::one()
    }
}

/// `ds` is `train` with class weights.
pub open spec fn is_weighted_copy(train: Dataset, pos_weight: F32, ds: Dataset) -> bool {
    &&& ds.schema.same_as(train.schema)
    &&& ds.columns.len() == train.columns.len()
    &&& forall|i: int|
        0 <= i < train.columns.len() ==> same_column(#[trigger] train.columns[i], ds.columns[i])
    &&& ds.labels@ == train.labels@
    &&& ds.weights@ == train.labels@.map_values(|y: u8| class_weight(y, pos_weight))
}

/// `rate` is the weighted positive rate, kept away from zero and one.
pub open spec fn is_global_rate<A: Arith>(ds: Dataset, rate: F64) -> bool {
    exists|wy: F64, wsum: F64, q: F64| #[trigger]
        are_rate_sums::<A>(ds.labels@, ds.weights@, ds.labels@.len(), wy, wsum)
            && #[trigger] is_quot::<A>(wy, wsum, q) && rate == q.spec_clamped(
            min_rate(),
            max_rate(),
        )
}

/// `s0` is the log-odds of the rate.
pub open spec fn is_base_score<A: Arith>(rate: F64, s0: F32) -> bool {
    exists|l: F64| #[trigger] is_log_odds::<A>(rate, l) && is_narrow::<A>(l, s0)
}

/// `g` is `c·(p0 - y)`.
pub open spec fn is_gradient<A: Arith>(c: F32, p0: F32, label: u8, g: F32) -> bool {
    exists|y: F32, u: F32| #[trigger]
        is_narrow::<A>(F64::of_byte(label), y) && #[trigger] is_diff32::<A>(p0, y, u)
            && is_prod32::<A>(c, u, g)
}

/// `h` is `c·p0·(1 - p0)`.
pub open spec fn is_hessian<A: Arith>(c: F32, p0: F32, h: F32) -> bool {
    exists|cp: F32, q: F32| #[trigger]
        is_prod32::<A>(c, p0, cp) && #[trigger] is_diff32::<A>(F32::one(), p0, q) && is_prod32::<A>(
            cp,
            q,
            h,
        )
}

/// `g` and `h` are the gradient statistics of all rows at the base score.
pub open spec fn are_base_stats<A: Arith>(
    ds: Dataset,
    p0: F32,
    g: Seq<F32>,
    h: Seq<F32>,
) -> bool {
    &&& g.len() == ds.labels.len()
    &&& h.len() == ds.labels.len()
    &&& forall|i: int|
        0 <= i < g.len() ==> is_gradient::<A>(ds.weights[i], p0, ds.labels[i], #[trigger] g[i])
    &&& forall|i: int| 0 <= i < h.len() ==> is_hessian::<A>(ds.weights[i], p0, #[trigger] h[i])
}

/// `leaves` are the heads fit over the rows of each leaf.
pub open spec fn are_leaf_fits<A: Arith>(
    tree: GrownTree,
    encoders: Encoders,
    matrix: EncodedMatrix,
    ds: Dataset,
    s0: F32,
    cfg: Config,
    leaves: Seq<Leaf>,
) -> bool {
    &&& leaves.len() == tree.leaf_rows.len()
    &&& forall|j: int|
        0 <= j < leaves.len() ==> is_leaf_fit::<A>(
            tree.leaf_rows[j]@,
            encoders,
            matrix,
            ds.labels@,
            ds.weights@,
            s0,
            cfg,
            #[trigger] leaves[j],
        )
}

/// `model` is trained on the weighted rows: encoders, base score, tree and leaf heads.
pub open spec fn is_trained_on<A: Arith>(
    ds: Dataset,
    cfg: Config,
    prior: F32,
    matrix: EncodedMatrix,
    model: Model,
) -> bool {
    &&& is_fit::<A>(ds, cfg, prior, model.encoders, matrix)
    &&& exists|rate: F64, p0: F32, g: Seq<F32>, h: Seq<F32>, tree: GrownTree|
        {
            &&& #[trigger] is_global_rate::<A>(ds, rate)
            &&& is_base_score::<A>(rate, model.s0)
            &&& #[trigger] is_narrow::<A>(rate, p0)
            &&& #[trigger] are_base_stats::<A>(ds, p0, g, h)
            &&& #[trigger] is_grown::<A>(model.encoders, matrix, g, h, cfg, tree)
            &&& model.nodes == tree.nodes
            &&& model.root == tree.root
            &&& are_leaf_fits::<A>(
                tree,
                model.encoders,
                matrix,
                ds,
                model.s0,
                cfg,
                model.leaves@,
            )
        }
}

/// `model` is trained on `train`.
pub open spec fn is_trained<A: Arith>(train: Dataset, cfg: Config, model: Model) -> bool {
    exists|ds: Dataset, prior: F32, matrix: EncodedMatrix| #[trigger]
        is_weighted_copy(train, cfg.pos_weight, ds) && #[trigger] is_trained_on::<A>(
            ds,
            cfg,
            prior,
            matrix,
            model,
        )
}

/// A training set that [`train`] takes: one that the encoders can be fit on, and for linear
/// leaves a Newton system that fits in memory.
pub open spec fn train_accepts(train: Dataset, cfg: Config) -> bool {
    let slots = slots_bound(train, cfg, train.columns@.len() as int);
    &&& fit_accepts(train, cfg)
    &&& cfg.leaf_model is Linear ==> (slots + 1) * (slots + 1) <= usize::MAX
}

proof fn lemma_weighted_copy_accepted(train: Dataset, cfg: Config, ds: Dataset)
    requires
        fit_accepts(train, cfg),
        is_weighted_copy(train, cfg.pos_weight, ds),
    ensures
        fit_accepts(ds, cfg),
        slots_bound(ds, cfg, ds.columns@.len() as int) == slots_bound(
            train,
            cfg,
            train.columns@.len() as int,
        ),
{
    lemma_fit_accepts_alike(train, ds, cfg, train.columns@.len() as int);
    assert forall|i: int| 0 <= i < ds.columns.len() implies (#[trigger] ds.columns[i]).rows()
        == ds.labels.len() && (ds.columns[i] is Numeric <==> ds.schema.kinds[i]
        == crate::data::FeatureKind::Numeric) by {
        assert(same_column(train.columns[i], ds.columns[i]));
        assert(train.columns[i].rows() == train.labels.len());
        assert(train.schema.kinds@[i] == ds.schema.kinds@[i]);
    }
}

fn weighted_copy(train: &Dataset, pos_weight: F32) -> (ds: Dataset)
    requires
        train.wf(),
    ensures
        is_weighted_copy(*train, pos_weight, ds),
{
    let n: usize = train.n_rows();
    let mut ds = train.slice(0, n);
    proof {
        assert(train.labels@.subrange(0, n as int) =~= train.labels@);
        assert forall|i: int| 0 <= i < train.columns.len() implies same_column(
            #[trigger] train.columns[i],
            ds.columns[i],
        ) by {
            assert(ds.columns[i].is_range_of(train.columns[i], 0, n as int));
            assert(train.columns[i].rows() == n);
            match train.columns[i] {
                crate::data::Column::Numeric(v) => {
                    assert(v@.subrange(0, n as int) =~= v@);
                },
                crate::data::Column::Categorical(v) => {
                    assert(v@.subrange(0, n as int) =~= v@);
                },
            }
        }
    }
    ds.set_class_weights(pos_weight);
    assert(ds.weights@ =~= train.labels@.map_values(|y: u8| class_weight(y, pos_weight)));
    ds
}

/// Gradient statistics at the base score.
fn base_stats<A: Arith>(ds: &Dataset, p0: F32) -> (r: (Vec<F32>, Vec<F32>))
    requires
        ds.wf(),
    ensures
        are_base_stats::<A>(*ds, p0, r.0@, r.1@),
{
    let n: usize = ds.n_rows();
    let mut g: Vec<F32> = Vec::with_capacity(n);
    let mut h: Vec<F32> = Vec::with_capacity(n);
    let mut i: usize = 0;
    while i < n
        invariant
            i <= n,
            n == ds.labels.len(),
            n == ds.weights.len(),
            g.len() == i,
            h.len() == i,
            forall|k: int|
                0 <= k < i ==> is_gradient::<A>(
                    ds.weights[k],
                    p0,
                    ds.labels[k],
                    #[trigger] g[k],
                ),
            forall|k: int| 0 <= k < i ==> is_hessian::<A>(ds.weights[k], p0, #[trigger] h[k]),
        decreases n - i,
    {
        let c = ds.weights[i];
        let y = A::narrow(F64::from_byte(ds.labels[i]));
        let u = A::diff32(p0, y);
        let gi = A::prod32(c, u);
        let cp = A::prod32(c, p0);
        let q = A::diff32(F32::one(), p0);
        let hi = A::prod32(cp, q);
        proof {
            assert(is_narrow::<A>(F64::of_byte(ds.labels@[i as int]), y) && is_diff32::<A>(
                p0,
                y,
                u,
            ));
            assert(is_gradient::<A>(c, p0, ds.labels@[i as int], gi));
            assert(is_prod32::<A>(c, p0, cp) && is_diff32::<A>(F32::one(), p0, q));
            assert(is_hessian::<A>(c, p0, hi));
        }
        g.push(gi);
        h.push(hi);
        i = i + 1;
    }
    (g, h)
}

/// Fit a full model on `data`.
pub fn train<A: Arith>(data: &Dataset, cfg: &Config) -> (model: Model)
    requires
        train_accepts(*data, *cfg),
    ensures
        is_trained::<A>(*data, *cfg, model),
        model.wf(),
        1 <= model.leaves.len(),
        model.leaves.len() == 1 || model.leaves.len() <= cfg.num_leaves,
        dataset_suits(model.encoders, *data),
{
    // Apply class weights for imbalance (positives up-weighted by pos_weight).
    let ds = weighted_copy(data, cfg.pos_weight);
    proof {
        lemma_weighted_copy_accepted(*data, *cfg, ds);
    }
    // Encoders + the leakage-safe (out-of-fold) training matrix.
    let (encoders, matrix) = Encoders::fit::<A>(&ds, cfg);
    let ghost prior = choose|prior: F32| #[trigger]
        is_fit::<A>(ds, *cfg, prior, encoders, matrix);
    proof {
        lemma_fitting_is_searchable(encoders, matrix);
        assert forall|i: int| 0 <= i < data.columns.len() implies (#[trigger] data.columns[i] is Numeric
            <==> ds.columns[i] is Numeric) by {
            assert(same_column(data.columns[i], ds.columns[i]));
        }
        lemma_fit_suits::<A>(ds, *cfg, prior, encoders, matrix, *data);
    }
    // Base score s_0 = log-odds of the weighted positive rate, so Σ g_i ≈ 0.
    let (wy, wsum) = rate_sums::<A>(&ds.labels, &ds.weights);
    let q = A::quot(wy, wsum);
    let rate = q.clamped(min_rate(), max_rate());
    let l = log_odds::<A>(rate);
    let s0 = A::narrow(l);
    let p0 = A::narrow(rate);
    proof {
        assert(are_rate_sums::<A>(ds.labels@, ds.weights@, ds.labels@.len(), wy, wsum)
            && is_quot::<A>(wy, wsum, q));
        assert(is_global_rate::<A>(ds, rate));
        assert(is_log_odds::<A>(rate, l));
        assert(is_base_score::<A>(rate, s0));
    }
    // Single-tree model: all gradient/hessian stats computed once at s_0.
    let (g, h) = base_stats::<A>(&ds, p0);
    // Coarse partition.
    let tree = grow::<A>(&encoders, &matrix, &g, &h, cfg);
    // Per-leaf linear heads (fit on the same out-of-fold training matrix).
    let mut leaves: Vec<Leaf> = Vec::with_capacity(tree.leaf_rows.len());
    let mut j: usize = 0;
    proof {
        if cfg.leaf_model is Linear {
            let x = encoders.basis_dim as int + 1;
            let y = slots_bound(ds, *cfg, ds.columns@.len() as int) + 1;
            assert(x * x <= y * y) by (nonlinear_arith)
                requires
                    0 <= x <= y,
            ;
        }
    }
    while j < tree.leaf_rows.len()
        invariant
            j <= tree.leaf_rows.len(),
            encoders.wf(),
            matrix.fits(encoders),
            matrix.n_rows == ds.labels.len(),
            matrix.n_rows == ds.weights.len(),
            tree.partitions(matrix),
            cfg.leaf_model is Linear ==> (encoders.basis_dim + 1) * (encoders.basis_dim + 1)
                <= usize::MAX,
            leaves.len() == j,
            forall|k: int| 0 <= k < j ==> (#[trigger] leaves[k]).wf(),
            forall|k: int|
                0 <= k < j ==> is_leaf_fit::<A>(
                    tree.leaf_rows[k]@,
                    encoders,
                    matrix,
                    ds.labels@,
                    ds.weights@,
                    s0,
                    *cfg,
                    #[trigger] leaves[k],
                ),
        decreases tree.leaf_rows.len() - j,
    {
        proof {
            let rows = tree.leaf_rows[j as int]@;
            assert forall|k: int| 0 <= k < rows.len() implies #[trigger] rows[k]
                < matrix.n_rows by {
                assert(tree.leaf_rows[j as int]@[k] < matrix.n_rows);
            }
            if cfg.leaf_model is Linear {
                lemma_fitting_rows_accepted(encoders, matrix, rows);
            }
        }
        let leaf = fit_leaf::<A>(
            &tree.leaf_rows[j],
            &encoders,
            &matrix,
            &ds.labels,
            &ds.weights,
            s0,
            cfg,
        );
        leaves.push(leaf);
        j = j + 1;
    }
    let ghost grown = tree;
    proof {
        let (n, leaves) = (encoders.features@.len() as int, tree.leaf_rows@.len() as int);
        let root = tree.root as int;
        lemma_paths_ahead_end(tree.nodes@, n, leaves, root);
        assert(ends_within(tree.nodes@, n, leaves, root, (tree.nodes@.len() - root) as nat));
    }
    let model = Model { encoders, nodes: tree.nodes, root: tree.root, leaves, s0 };
    proof {
        assert(are_leaf_fits::<A>(
            grown,
            model.encoders,
            matrix,
            ds,
            model.s0,
            *cfg,
            model.leaves@,
        ));
        assert(is_global_rate::<A>(ds, rate) && is_base_score::<A>(rate, model.s0) && is_narrow::<
            A,
        >(rate, p0) && are_base_stats::<A>(ds, p0, g@, h@) && is_grown::<A>(
            model.encoders,
            matrix,
            g@,
            h@,
            *cfg,
            grown,
        ));
        assert(is_trained_on::<A>(ds, *cfg, prior, matrix, model));
        assert(is_weighted_copy(*data, cfg.pos_weight, ds) && is_trained_on::<A>(
            ds,
            *cfg,
            prior,
            matrix,
            model,
        ));
    }
    model
}

/// Row `r` of the training matrix is among the rows that the head of leaf `leaf` was fit on.
pub open spec fn is_fit_row<A: Arith>(
    ds: Dataset,
    cfg: Config,
    matrix: EncodedMatrix,
    model: Model,
    leaf: int,
    r: int,
) -> bool {
    exists|rows: Seq<u32>| #[trigger]
        is_leaf_fit::<A>(
            rows,
            model.encoders,
            matrix,
            ds.labels@,
            ds.weights@,
            model.s0,
            cfg,
            model.leaves[leaf],
        ) && rows.contains(r as u32)
}

/// Every training row is routed to the leaf whose head was fit on it.
pub proof fn lemma_rows_train_the_leaf_they_reach<A: Arith>(
    ds: Dataset,
    cfg: Config,
    prior: F32,
    matrix: EncodedMatrix,
    model: Model,
    r: int,
)
    requires
        fit_accepts(ds, cfg),
        is_trained_on::<A>(ds, cfg, prior, matrix, model),
        0 <= r < ds.labels.len(),
    ensures
        0 <= model.encoded_leaf(matrix, r) < model.leaves.len(),
        is_fit_row::<A>(ds, cfg, matrix, model, model.encoded_leaf(matrix, r), r),
{
    let (rate, p0, g, h, tree) = choose|
        rate: F64,
        p0: F32,
        g: Seq<F32>,
        h: Seq<F32>,
        tree: GrownTree,
    |
        {
            &&& #[trigger] is_global_rate::<A>(ds, rate)
            &&& is_base_score::<A>(rate, model.s0)
            &&& #[trigger] is_narrow::<A>(rate, p0)
            &&& #[trigger] are_base_stats::<A>(ds, p0, g, h)
            &&& #[trigger] is_grown::<A>(model.encoders, matrix, g, h, cfg, tree)
            &&& model.nodes == tree.nodes
            &&& model.root == tree.root
            &&& are_leaf_fits::<A>(
                tree,
                model.encoders,
                matrix,
                ds,
                model.s0,
                cfg,
                model.leaves@,
            )
        };
    lemma_fit_is_wf::<A>(ds, cfg, prior, model.encoders, matrix);
    lemma_fitting_is_searchable(model.encoders, matrix);
    lemma_grown_tree_partitions::<A>(model.encoders, matrix, g, h, cfg, tree);
    let leaf = tree.leaf_of_row(matrix, r);
    assert(model.encoded_leaf(matrix, r) == leaf);
    assert(is_leaf_fit::<A>(
        tree.leaf_rows[leaf]@,
        model.encoders,
        matrix,
        ds.labels@,
        ds.weights@,
        model.s0,
        cfg,
        model.leaves[leaf],
    ));
}

/// What the gradient of row `i` stands for.
pub open spec fn gradient_val<T>(
    val: spec_fn(F64) -> Option<T>,
    g: Seq<F32>,
) -> spec_fn(int) -> T {
    |i: int| val(g[i].spec_widened())->0
}

/// At the base score the gradients cancel out: where nothing was rounded and the rate was not
/// moved away from zero or one, `Σ g_i = 0`.
pub proof fn lemma_base_gradients_cancel<A: Arith, T>(
    ring: Ring<T>,
    val: spec_fn(F64) -> Option<T>,
    ds: Dataset,
    wy: F64,
    wsum: F64,
    rate: F64,
    p0: F32,
    g: Seq<F32>,
    h: Seq<F32>,
)
    requires
        ring.obeys_laws(),
        stays_exact::<A, T>(ring, val),
        stays_exact32::<A, T>(ring, val),
        are_rate_sums::<A>(ds.labels@, ds.weights@, ds.labels@.len(), wy, wsum),
        is_quot::<A>(wy, wsum, rate),
        is_narrow::<A>(rate, p0),
        are_base_stats::<A>(ds, p0, g, h),
        forall|i: int| 0 <= i < g.len() ==> val((#[trigger] g[i]).spec_widened()) is Some,
    ensures
        ring.sum_to(gradient_val(val, g), g.len() as int) == ring.zero,
{
    let n = g.len() as int;
    if n > 0 {
        let (labels, weights) = (ds.labels@, ds.weights@);
        let p = val(p0.spec_widened())->0;
        let fg = gradient_val(val, g);
        let c = |i: int| val(weights[i].spec_widened())->0;
        let cy = |i: int| ring.product(c(i), val(F64::of_byte(labels[i]))->0);
        let cp = |i: int| ring.product(p, c(i));
        assert forall|i: int| 0 <= i < n implies val(p0.spec_widened()) is Some && #[trigger] cp(i)
            == ring.sum_of(fg(i), cy(i)) by {
            assert(is_gradient::<A>(weights[i], p0, labels[i], g[i]));
            let (y, u) = choose|y: F32, u: F32| #[trigger]
                is_narrow::<A>(F64::of_byte(labels[i]), y) && #[trigger] is_diff32::<A>(p0, y, u)
                    && is_prod32::<A>(weights[i], u, g[i]);
            assert(val(g[i].spec_widened()) is Some);
            let (yv, uv) = (val(y.spec_widened())->0, val(u.spec_widened())->0);
            ring.lemma_difference_undone(p, yv);
            ring.lemma_product_distributes(c(i), uv, yv);
            ring.lemma_product_commutes(c(i), p);
        }
        assert(cp(0) == ring.sum_of(fg(0), cy(0)));
        assert(val(rate) is Some);
        let s1 = add_weighted_label::<A>(labels, weights);
        assert forall|i: int, a: F64, b: F64|
            0 <= i < n && #[trigger] s1(i, a, b) && val(b) is Some implies val(a) is Some
            && val(b)->0 == ring.sum_of(val(a)->0, cy(i)) by {
            assert(is_label_added::<A>(labels[i], weights[i], a, b));
        }
        lemma_run_total(ring, val, n as nat, s1, cy, wy);
        let s2 = add_weight::<A>(weights);
        assert forall|i: int, a: F64, b: F64|
            0 <= i < n && #[trigger] s2(i, a, b) && val(b) is Some implies val(a) is Some
            && val(b)->0 == ring.sum_of(val(a)->0, c(i)) by {
            assert(is_sum::<A>(a, weights[i].spec_widened(), b));
        }
        lemma_run_total(ring, val, n as nat, s2, c, wsum);
        ring.lemma_sum_adds(fg, cy, cp, n);
        ring.lemma_sum_scales(p, c, cp, n);
        // Σ g + Σ c·y = p·Σ c = Σ c·y.
        let (sg, sy) = (ring.sum_to(fg, n), ring.sum_to(cy, n));
        assert(ring.sum_of(sg, sy) == sy);
        ring.lemma_sum_undone(sg, sy);
        ring.lemma_sum_undone(ring.zero, sy);
        ring.lemma_sum_with_zero(sy);
    }
}

/// Two training sets differ in nothing but their weights.
pub open spec fn same_but_weights(a: Dataset, b: Dataset) -> bool {
    &&& a.schema.same_as(b.schema)
    &&& a.columns.len() == b.columns.len()
    &&& forall|i: int|
        0 <= i < a.columns.len() ==> same_column(#[trigger] a.columns[i], b.columns[i])
    &&& a.labels@ == b.labels@
}

proof fn lemma_weighted_copy_shared(a: Dataset, b: Dataset, pos_weight: F32, ds: Dataset)
    requires
        same_but_weights(a, b),
        is_weighted_copy(a, pos_weight, ds),
    ensures
        is_weighted_copy(b, pos_weight, ds),
{
    assert forall|i: int| 0 <= i < b.columns.len() implies same_column(
        #[trigger] b.columns[i],
        ds.columns[i],
    ) by {
        assert(same_column(a.columns[i], b.columns[i]) && same_column(
            a.columns[i],
            ds.columns[i],
        ));
    }
    assert forall|i: int| 0 <= i < ds.schema.names.len() implies #[trigger] ds.schema.names[i]@
        == b.schema.names[i]@ by {
        assert(a.schema.names[i]@ == b.schema.names[i]@);
    }
}

/// Weights that a training set had before have no influence: the class weights replace them.
pub proof fn lemma_earlier_weights_have_no_influence<A: Arith>(
    a: Dataset,
    b: Dataset,
    cfg: Config,
    model: Model,
)
    requires
        same_but_weights(a, b),
    ensures
        is_trained::<A>(a, cfg, model) <==> is_trained::<A>(b, cfg, model),
{
    if is_trained::<A>(a, cfg, model) {
        let (ds, prior, matrix) = choose|ds: Dataset, prior: F32, matrix: EncodedMatrix| #[trigger]
            is_weighted_copy(a, cfg.pos_weight, ds) && #[trigger] is_trained_on::<A>(
                ds,
                cfg,
                prior,
                matrix,
                model,
            );
        lemma_weighted_copy_shared(a, b, cfg.pos_weight, ds);
    }
    if is_trained::<A>(b, cfg, model) {
        let (ds, prior, matrix) = choose|ds: Dataset, prior: F32, matrix: EncodedMatrix| #[trigger]
            is_weighted_copy(b, cfg.pos_weight, ds) && #[trigger] is_trained_on::<A>(
                ds,
                cfg,
                prior,
                matrix,
                model,
            );
        assert(same_but_weights(b, a)) by {
            assert forall|i: int| 0 <= i < b.columns.len() implies same_column(
                #[trigger] b.columns[i],
                a.columns[i],
            ) by {
                assert(same_column(a.columns[i], b.columns[i]));
            }
            assert forall|i: int| 0 <= i < b.schema.names.len() implies #[trigger] b.schema.names[i]@
                == a.schema.names[i]@ by {
                assert(a.schema.names[i]@ == b.schema.names[i]@);
            }
        }
        lemma_weighted_copy_shared(b, a, cfg.pos_weight, ds);
    }
}

/// A trained model scores a category that it has not seen as a missing one: with
/// deterministic arithmetic and `log(1 + 0) = 0`, two rows that agree but at a high-card
/// feature, where one is missing and the other holds a category that is in no training row,
/// get the same probability.
pub proof fn lemma_unseen_scores_as_missing<A: Arith>(
    train: Dataset,
    cfg: Config,
    model: Model,
    fi: int,
    raw: Seq<i64>,
    c: i64,
    row1: Seq<RawValue>,
    row2: Seq<RawValue>,
    p1: F32,
    p2: F32,
)
    requires
        deterministic::<A>(),
        log_of_one_is_zero::<A>(),
        is_trained::<A>(train, cfg, model),
        model.wf(),
        0 <= fi < train.columns.len(),
        train.schema.kinds[fi] is HighCardCat,
        train.columns[fi] is Categorical,
        raw == train.columns[fi]->Categorical_0@,
        !raw.contains(c),
        row1[fi] == RawValue::Cat(MISSING_CAT),
        row2[fi] == RawValue::Cat(c),
        forall|i: int|
            0 <= i < train.columns.len() && i != fi ==> #[trigger] row1[i] == row2[i],
        model.is_raw_proba::<A>(row1, p1),
        model.is_raw_proba::<A>(row2, p2),
    ensures
        p1 == p2,
{
    let (ds, prior, matrix) = choose|ds: Dataset, prior: F32, matrix: EncodedMatrix| #[trigger]
        is_weighted_copy(train, cfg.pos_weight, ds) && #[trigger] is_trained_on::<A>(
            ds,
            cfg,
            prior,
            matrix,
            model,
        );
    let enc = model.encoders;
    assert(same_column(train.columns[fi], ds.columns[fi]));
    assert(ds.schema.kinds@[fi] == train.schema.kinds@[fi]);
    assert(is_fitted::<A>(
        ds,
        cfg,
        prior,
        fi,
        layout_start(enc.features@, fi),
        enc.features[fi],
        matrix.cols[fi],
    ));
    let e = enc.features[fi]->HighCard_0;
    lemma_unseen_is_not_mapped::<A>(
        raw,
        ds.labels@,
        ds.weights@,
        cfg,
        prior,
        layout_start(enc.features@, fi),
        e,
        matrix.cols[fi]->enc@,
        matrix.cols[fi]->cnt@,
        c,
    );
    assert forall|i: int| 0 <= i < enc.features.len() implies values_alike(
        #[trigger] enc.features[i],
        row1[i],
        row2[i],
    ) by {
        if i != fi {
            assert(row1[i] == row2[i]);
        }
    }
    lemma_unknown_categories_score_alike::<A>(model, row1, row2, p1, p2);
}

} // verus!
