//! The trained [`Model`] and single-row scorer.
//!
//! Inference is: encode high-card lookups → route through the coarse tree (a
//! handful of predicated compares) → compute the sparse basis → gather the
//! active leaf's weights and accumulate → sigmoid. There is a raw single-row
//! path ([`Model::predict_proba`]) and an encoded-matrix path used by training
//! and evaluation ([`Model::predict_proba_encoded`]).

use vstd::prelude::*;
use crate::arith::{
    deterministic, is_ln_1p32, is_logistic32, is_sum32, lemma_folds_unique, lemma_logistic32_unique,
    logistic32, Arith,
};
use crate::data::{Column, Dataset, MISSING_CAT};
use crate::encoding::{
    are_bracket_entries, are_row_parts, dataset_suits, expand_row, is_feature_basis,
    is_highcard_basis, is_highcard_fit, is_numeric_basis, is_row_basis, is_transform,
    is_transformed, layout_start, lemma_fitting_rows_expand, lemma_transform_fits,
    lemma_unseen_category_gets_prior, push_highcard, push_numeric, row_expands, strictly_ascending,
    EncCol, EncodedMatrix, Encoders, FeatureEncoder, HighCardEnc,
};
use crate::float::F32;
use crate::leaf_model::Leaf;
use crate::Config;
use crate::tree::{
    arrives, col_covers, ends_within, goes_left, leaf_of, lemma_arrives_next,
    lemma_routes_with_more, next_node, routes, row_values, sends_left, value_at, NodeKind, Split,
};

verus! {

/// A single raw feature value for the single-row inference path.
#[derive(Clone, Copy, Debug)]
pub enum RawValue {
    /// Numeric (not-a-number = missing).
    Num(F32),
    /// Categorical raw code ([`MISSING_CAT`](crate::data::MISSING_CAT) = missing).
    Cat(i64),
}

/// The trained model: encoders + routing tree + leaf heads + base score.
#[derive(Clone, Debug)]
pub struct Model {
    pub encoders: Encoders,
    pub nodes: Vec<NodeKind>,
    pub root: usize,
    pub leaves: Vec<Leaf>,
    /// Global base log-odds `s_0`.
    pub s0: F32,
}

/// The value is of the kind that the encoder takes.
pub open spec fn value_suits(fe: FeatureEncoder, v: RawValue) -> bool {
    match fe {
        FeatureEncoder::Numeric(_) => v is Num,
        _ => v is Cat,
    }
}

/// The row has a value of the right kind for every feature.
pub open spec fn row_suits(encoders: Encoders, row: Seq<RawValue>) -> bool {
    &&& encoders.features.len() <= row.len()
    &&& forall|i: int|
        0 <= i < encoders.features.len() ==> value_suits(#[trigger] encoders.features[i], row[i])
}

/// The routing value of a raw value: a number for numeric and high-card features, a dense
/// code for bounded categoricals.
pub open spec fn raw_value(fe: FeatureEncoder, v: RawValue) -> Result<F32, u32> {
    match (fe, v) {
        (FeatureEncoder::Numeric(_), RawValue::Num(x)) => Ok(x),
        (FeatureEncoder::HighCard(e), RawValue::Cat(c)) => Ok(e.spec_enc_of(c)),
        (FeatureEncoder::BoundedCat(e), RawValue::Cat(c)) => Err(e.spec_code_of(c) as u32),
        _ => arbitrary(),
    }
}

/// The routing values of a raw row.
pub open spec fn raw_values(
    encoders: Encoders,
    row: Seq<RawValue>,
) -> spec_fn(int) -> Result<F32, u32> {
    |fi: int| raw_value(encoders.features[fi], row[fi])
}

/// `e` are the basis entries of one raw value.
pub open spec fn is_raw_feature_basis<A: Arith>(
    fe: FeatureEncoder,
    v: RawValue,
    e: Seq<(u32, F32)>,
) -> bool {
    match (fe, v) {
        (FeatureEncoder::Numeric(f), RawValue::Num(x)) => is_numeric_basis::<A>(
            f.knots@,
            f.basis_off as int,
            x,
            e,
        ),
        (FeatureEncoder::BoundedCat(f), RawValue::Cat(c)) => e == seq![
            ((f.basis_off + f.spec_code_of(c)) as u32, F32::one()),
        ],
        (FeatureEncoder::HighCard(f), RawValue::Cat(c)) => exists|cnt: F32| #[trigger]
            is_highcard_basis::<A>(f, f.spec_enc_of(c), cnt, e) && (f.use_count ==> f.is_count_of::<
                A,
            >(c, cnt)),
        _ => false,
    }
}

/// `parts` are the basis entries of a raw row, feature by feature.
pub open spec fn are_raw_parts<A: Arith>(
    features: Seq<FeatureEncoder>,
    row: Seq<RawValue>,
    parts: Seq<Seq<(u32, F32)>>,
) -> bool {
    &&& parts.len() == features.len()
    &&& forall|i: int|
        0 <= i < parts.len() ==> is_raw_feature_basis::<A>(
            features[i],
            row[i],
            #[trigger] parts[i],
        )
}

/// `phi` is the sparse basis of a raw row.
pub open spec fn is_raw_basis<A: Arith>(
    encoders: Encoders,
    row: Seq<RawValue>,
    phi: Seq<(u32, F32)>,
) -> bool {
    exists|parts: Seq<Seq<(u32, F32)>>| #[trigger]
        are_raw_parts::<A>(encoders.features@, row, parts) && phi == parts.flatten()
}

/// The raw value of a row of a column.
pub open spec fn column_value(c: Column, r: int) -> RawValue {
    match c {
        Column::Numeric(v) => RawValue::Num(v[r]),
        Column::Categorical(v) => RawValue::Cat(v[r]),
    }
}

/// The raw values of a row of a dataset.
pub open spec fn dataset_row(ds: Dataset, r: int) -> Seq<RawValue> {
    ds.columns@.map_values(|c: Column| column_value(c, r))
}

/// Every column of the matrix has row `row`.
pub open spec fn matrix_covers(m: EncodedMatrix, row: int) -> bool {
    forall|i: int| 0 <= i < m.cols.len() ==> col_covers(#[trigger] m.cols[i], row + 1)
}

/// Where routing takes its values from.
#[derive(Clone, Copy)]
enum RowSource<'a> {
    /// A raw row.
    Raw(&'a Vec<RawValue>),
    /// A row of an encoded matrix.
    Encoded(&'a EncodedMatrix, usize),
}

impl<'a> RowSource<'a> {
    spec fn values(self, encoders: Encoders) -> spec_fn(int) -> Result<F32, u32> {
        match self {
            RowSource::Raw(row) => raw_values(encoders, row@),
            RowSource::Encoded(m, row) => row_values(*m, row as int),
        }
    }

    /// The number of features that there are values of.
    spec fn features(self, encoders: Encoders) -> int {
        match self {
            RowSource::Raw(row) => encoders.features@.len() as int,
            RowSource::Encoded(m, row) => m.cols@.len() as int,
        }
    }

    spec fn covers(self, encoders: Encoders) -> bool {
        match self {
            RowSource::Raw(row) => encoders.wf() && row_suits(encoders, row@),
            RowSource::Encoded(m, row) => matrix_covers(*m, row as int),
        }
    }
}

impl Model {
    /// The routing tree is valid for `n` features: every path from the root splits on some of
    /// these and ends at a leaf that has a head.
    pub open spec fn tree_wf(self, n: int) -> bool {
        routes(self.nodes@, n, self.leaves@.len() as int, self.root as int)
    }

    /// A valid model: valid encoders, a valid tree that splits on their features, and valid
    /// leaf heads.
    pub open spec fn wf(self) -> bool {
        &&& self.encoders.wf()
        &&& self.tree_wf(self.encoders.features@.len() as int)
        &&& forall|i: int| 0 <= i < self.leaves.len() ==> (#[trigger] self.leaves[i]).wf()
    }

    /// The leaf of a raw row.
    pub open spec fn raw_leaf(self, row: Seq<RawValue>) -> int {
        leaf_of(self.nodes@, raw_values(self.encoders, row), self.root as int)
    }

    /// The leaf of a row of an encoded matrix.
    pub open spec fn encoded_leaf(self, m: EncodedMatrix, row: int) -> int {
        leaf_of(self.nodes@, row_values(m, row), self.root as int)
    }

    /// `p` is the probability that a leaf gives to a sparse basis.
    pub open spec fn is_leaf_proba<A: Arith>(
        self,
        leaf: int,
        phi: Seq<(u32, F32)>,
        p: F32,
    ) -> bool {
        exists|d: F32, s: F32| #[trigger]
            self.leaves[leaf].is_dot::<A>(phi, d) && #[trigger] is_sum32::<A>(self.s0, d, s)
                && is_logistic32::<A>(s, p)
    }

    /// `p` is the probability of a raw row.
    pub open spec fn is_raw_proba<A: Arith>(self, row: Seq<RawValue>, p: F32) -> bool {
        exists|phi: Seq<(u32, F32)>| #[trigger]
            is_raw_basis::<A>(self.encoders, row, phi) && self.is_leaf_proba::<A>(
                self.raw_leaf(row),
                phi,
                p,
            )
    }

    /// `p` is the probability of a row of an encoded matrix.
    pub open spec fn is_encoded_proba<A: Arith>(
        self,
        m: EncodedMatrix,
        row: int,
        p: F32,
    ) -> bool {
        exists|phi: Seq<(u32, F32)>| #[trigger]
            is_row_basis::<A>(self.encoders, m, row, phi) && self.is_leaf_proba::<A>(
                self.encoded_leaf(m, row),
                phi,
                p,
            )
    }

    /// Build the sparse basis entries for a raw row.
    fn expand_raw<A: Arith>(&self, row: &Vec<RawValue>, out: &mut Vec<(u32, F32)>)
        requires
            self.encoders.wf(),
            row_suits(self.encoders, row@),
        ensures
            is_raw_basis::<A>(self.encoders, row@, final(out)@),
    {
        out.clear();
        let ghost mut parts: Seq<Seq<(u32, F32)>> = Seq::empty();
        let mut fi: usize = 0;
        while fi < self.encoders.features.len()
            invariant
                self.encoders.wf(),
                row_suits(self.encoders, row@),
                fi <= self.encoders.features.len(),
                parts.len() == fi,
                forall|k: int|
                    0 <= k < fi ==> is_raw_feature_basis::<A>(
                        self.encoders.features[k],
                        row[k],
                        #[trigger] parts[k],
                    ),
                out@ == parts.flatten(),
            decreases self.encoders.features.len() - fi,
        {
            let ghost start = out@;
            let ghost mut e: Seq<(u32, F32)> = Seq::empty();
            proof {
                assert(value_suits(self.encoders.features[fi as int], row[fi as int]));
                assert(self.encoders.features[fi as int].wf_at(
                    layout_start(self.encoders.features@, fi as int),
                ));
            }
            match (&self.encoders.features[fi], row[fi]) {
                (FeatureEncoder::Numeric(f), RawValue::Num(v)) => {
                    push_numeric::<A>(&f.knots, f.basis_off, v, out);
                    proof {
                        e = choose|e: Seq<(u32, F32)>| #[trigger]
                            is_numeric_basis::<A>(f.knots@, f.basis_off as int, v, e) && out@
                                == start + e;
                    }
                },
                (FeatureEncoder::BoundedCat(f), RawValue::Cat(c)) => {
                    out.push((f.basis_off + f.code_of(c), F32::one()));
                    proof {
                        e = seq![((f.basis_off + f.spec_code_of(c)) as u32, F32::one())];
                    }
                },
                (FeatureEncoder::HighCard(f), RawValue::Cat(c)) => {
                    let cnt = if f.use_count {
                        f.count_of::<A>(c)
                    } else {
                        F32::zero()
                    };
                    push_highcard::<A>(f, f.enc_of(c), cnt, out);
                    proof {
                        e = choose|e: Seq<(u32, F32)>| #[trigger]
                            is_highcard_basis::<A>(*f, f.spec_enc_of(c), cnt, e) && out@ == start
                                + e;
                        assert(is_highcard_basis::<A>(*f, f.spec_enc_of(c), cnt, e));
                    }
                },
                _ => {},
            }
            proof {
                assert(is_raw_feature_basis::<A>(
                    self.encoders.features[fi as int],
                    row[fi as int],
                    e,
                ));
                assert(out@ =~= start + e);
                parts.lemma_flatten_push(e);
                parts = parts.push(e);
            }
            fi = fi + 1;
        }
        assert(are_raw_parts::<A>(self.encoders.features@, row@, parts));
    }

    /// The routing value of feature `fi` for a raw row: `Ok(numeric)` for
    /// numeric / high-card features, `Err(code)` for bounded categoricals.
    #[inline]
    fn route_value_raw(&self, fi: usize, row: &Vec<RawValue>) -> (v: Result<F32, u32>)
        requires
            self.encoders.wf(),
            row_suits(self.encoders, row@),
            fi < self.encoders.features.len(),
        ensures
            v == raw_values(self.encoders, row@)(fi as int),
    {
        proof {
            assert(value_suits(self.encoders.features[fi as int], row[fi as int]));
            assert(self.encoders.features[fi as int].wf_at(
                layout_start(self.encoders.features@, fi as int),
            ));
        }
        match (&self.encoders.features[fi], row[fi]) {
            (FeatureEncoder::Numeric(_), RawValue::Num(v)) => Ok(v),
            (FeatureEncoder::HighCard(e), RawValue::Cat(c)) => Ok(e.enc_of(c)),
            (FeatureEncoder::BoundedCat(e), RawValue::Cat(c)) => Err(e.code_of(c)),
            _ => Err(0),
        }
    }

    /// Routing value of feature `fi` for a row of an [`EncodedMatrix`].
    #[inline]
    fn route_value_encoded(&self, fi: usize, m: &EncodedMatrix, row: usize) -> (v: Result<F32, u32>)
        requires
            fi < m.cols.len(),
            matrix_covers(*m, row as int),
        ensures
            v == row_values(*m, row as int)(fi as int),
    {
        value_at(&m.cols[fi], row)
    }

    /// Walk the routing tree to a leaf id, given where the routing values come from.
    #[inline]
    fn route(&self, source: RowSource) -> (leaf: usize)
        requires
            self.tree_wf(source.features(self.encoders)),
            source.covers(self.encoders),
        ensures
            leaf == leaf_of(self.nodes@, source.values(self.encoders), self.root as int),
            leaf < self.leaves.len(),
    {
        let ghost value = source.values(self.encoders);
        let ghost n = source.features(self.encoders);
        let ghost leaves = self.leaves@.len() as int;
        let ghost end = arrives(self.nodes@, value, self.root as int);
        let ghost mut k = choose|k: nat|
            ends_within(self.nodes@, n, leaves, self.root as int, k);
        let mut node: usize = self.root;
        loop
            invariant
                source.covers(self.encoders),
                value == source.values(self.encoders),
                n == source.features(self.encoders),
                leaves == self.leaves@.len(),
                end == arrives(self.nodes@, value, self.root as int),
                ends_within(self.nodes@, n, leaves, node as int, k),
                arrives(self.nodes@, value, node as int) == end,
            decreases k,
        {
            proof {
                lemma_arrives_next(self.nodes@, n, leaves, value, node as int, k);
            }
            match &self.nodes[node] {
                NodeKind::Leaf(id) => {
                    return *id;
                },
                NodeKind::Internal { feature, split, default_left, left, right } => {
                    let fi: usize = *feature as usize;
                    let v = match source {
                        RowSource::Raw(row) => self.route_value_raw(fi, row),
                        RowSource::Encoded(m, row) => self.route_value_encoded(fi, m, row),
                    };
                    let go_left = sends_left(split, *default_left, v);
                    proof {
                        k = (k - 1) as nat;
                    }
                    node = if go_left {
                        *left
                    } else {
                        *right
                    };
                },
            }
        }
    }

    /// Single-row probability from raw feature values (the hot path).
    pub fn predict_proba<A: Arith>(&self, row: &Vec<RawValue>) -> (p: F32)
        requires
            self.wf(),
            row_suits(self.encoders, row@),
        ensures
            self.is_raw_proba::<A>(row@, p),
    {
        let leaf_id: usize = self.route(RowSource::Raw(row));
        let mut phi: Vec<(u32, F32)> = Vec::with_capacity(40);
        self.expand_raw::<A>(row, &mut phi);
        self.leaf_proba::<A>(leaf_id, &phi)
    }

    fn leaf_proba<A: Arith>(&self, leaf: usize, phi: &Vec<(u32, F32)>) -> (p: F32)
        requires
            leaf < self.leaves.len(),
            self.leaves[leaf as int].wf(),
        ensures
            self.is_leaf_proba::<A>(leaf as int, phi@, p),
    {
        let d = self.leaves[leaf].dot::<A>(phi);
        let s = A::sum32(self.s0, d);
        proof {
            assert(self.leaves[leaf as int].is_dot::<A>(phi@, d) && is_sum32::<A>(self.s0, d, s));
        }
        logistic32::<A>(s)
    }

    /// Leaf id for a row of an encoded matrix.
    pub fn route_leaf_encoded(&self, m: &EncodedMatrix, row: usize) -> (leaf: usize)
        requires
            self.tree_wf(m.cols@.len() as int),
            matrix_covers(*m, row as int),
        ensures
            leaf == self.encoded_leaf(*m, row as int),
            leaf < self.leaves.len(),
    {
        self.route(RowSource::Encoded(m, row))
    }

    /// Probability for a row of an encoded matrix (batch eval path).
    pub fn predict_proba_encoded<A: Arith>(&self, m: &EncodedMatrix, row: usize) -> (p: F32)
        requires
            self.wf(),
            m.cols.len() >= self.encoders.features.len(),
            matrix_covers(*m, row as int),
            row_expands(self.encoders, *m, row as int),
        ensures
            self.is_encoded_proba::<A>(*m, row as int, p),
    {
        proof {
            let (n, leaves) = (self.encoders.features@.len() as int, self.leaves@.len() as int);
            let k = choose|k: nat| ends_within(self.nodes@, n, leaves, self.root as int, k);
            lemma_routes_with_more(
                self.nodes@,
                n,
                m.cols@.len() as int,
                leaves,
                self.root as int,
                k,
            );
        }
        let leaf_id: usize = self.route_leaf_encoded(m, row);
        let mut phi: Vec<(u32, F32)> = Vec::with_capacity(40);
        expand_row::<A>(&self.encoders, m, row, &mut phi);
        self.leaf_proba::<A>(leaf_id, &phi)
    }

    /// `preds` are the probabilities of all rows of a dataset.
    pub open spec fn are_predictions<A: Arith>(self, ds: Dataset, preds: Seq<F32>) -> bool {
        exists|m: EncodedMatrix| #[trigger]
            is_transform::<A>(self.encoders, ds, m) && self.are_matrix_predictions::<A>(m, preds)
    }

    /// `preds` are the probabilities of all rows of an encoded matrix.
    pub open spec fn are_matrix_predictions<A: Arith>(
        self,
        m: EncodedMatrix,
        preds: Seq<F32>,
    ) -> bool {
        &&& preds.len() == m.n_rows
        &&& forall|r: int|
            0 <= r < preds.len() ==> self.is_encoded_proba::<A>(m, r, #[trigger] preds[r])
    }

    /// Score every row of a dataset (encodes via the full-data maps first).
    pub fn predict_dataset<A: Arith>(&self, ds: &Dataset) -> (preds: Vec<F32>)
        requires
            self.wf(),
            ds.wf(),
            dataset_suits(self.encoders, *ds),
        ensures
            self.are_predictions::<A>(*ds, preds@),
            preds.len() == ds.labels.len(),
    {
        let m = self.encoders.transform::<A>(ds);
        proof {
            lemma_transform_fits::<A>(self.encoders, *ds, m);
        }
        let mut preds: Vec<F32> = Vec::with_capacity(m.n_rows);
        let mut r: usize = 0;
        while r < m.n_rows
            invariant
                r <= m.n_rows,
                self.wf(),
                m.fits(self.encoders),
                preds.len() == r,
                forall|k: int|
                    0 <= k < r ==> self.is_encoded_proba::<A>(m, k, #[trigger] preds[k]),
            decreases m.n_rows - r,
        {
            proof {
                lemma_fitting_rows_expand(self.encoders, m, r as int);
                lemma_fitting_covers(self.encoders, m, r as int);
            }
            preds.push(self.predict_proba_encoded::<A>(&m, r));
            r = r + 1;
        }
        proof {
            assert(self.are_matrix_predictions::<A>(m, preds@));
        }
        preds
    }

    /// Extract row `r` of a dataset as a `RawValue` vector for the raw path.
    pub fn raw_row(ds: &Dataset, r: usize) -> (row: Vec<RawValue>)
        requires
            forall|i: int| 0 <= i < ds.columns.len() ==> r < (#[trigger] ds.columns[i]).rows(),
        ensures
            row@ == dataset_row(*ds, r as int),
    {
        let mut row: Vec<RawValue> = Vec::with_capacity(ds.columns.len());
        let mut i: usize = 0;
        while i < ds.columns.len()
            invariant
                i <= ds.columns.len(),
                forall|i: int| 0 <= i < ds.columns.len() ==> r < (#[trigger] ds.columns[i]).rows(),
                row.len() == i,
                forall|k: int|
                    0 <= k < i ==> #[trigger] row[k] == column_value(ds.columns[k], r as int),
            decreases ds.columns.len() - i,
        {
            proof {
                assert(r < ds.columns[i as int].rows());
            }
            let v = match &ds.columns[i] {
                Column::Numeric(v) => RawValue::Num(v[r]),
                Column::Categorical(v) => RawValue::Cat(v[r]),
            };
            row.push(v);
            i = i + 1;
        }
        assert(row@ =~= dataset_row(*ds, r as int));
        row
    }
}

/// A matrix that fits has all its rows in every column.
pub proof fn lemma_fitting_covers(encoders: Encoders, m: EncodedMatrix, row: int)
    requires
        m.fits(encoders),
        0 <= row < m.n_rows,
    ensures
        matrix_covers(m, row),
{
    assert forall|i: int| 0 <= i < m.cols.len() implies col_covers(#[trigger] m.cols[i], row + 1) by {
        assert(m.cols[i].fits(encoders.features[i], m.n_rows as int));
    }
}

/// Rows with the same routing values stop at the same node.
proof fn lemma_same_values_arrive(
    nodes: Seq<NodeKind>,
    n: int,
    leaves: int,
    f: spec_fn(int) -> Result<F32, u32>,
    g: spec_fn(int) -> Result<F32, u32>,
    node: int,
    k: nat,
)
    requires
        ends_within(nodes, n, leaves, node, k),
        forall|i: int| 0 <= i < n ==> f(i) == #[trigger] g(i),
    ensures
        arrives(nodes, f, node) == arrives(nodes, g, node),
    decreases k,
{
    lemma_arrives_next(nodes, n, leaves, f, node, k);
    lemma_arrives_next(nodes, n, leaves, g, node, k);
    match nodes[node] {
        NodeKind::Leaf(_) => {},
        NodeKind::Internal { feature, split, default_left, left, right } => {
            assert(f(feature as int) == g(feature as int));
            let next = next_node(nodes, f, node);
            lemma_same_values_arrive(nodes, n, leaves, f, g, next, (k - 1) as nat);
        },
    }
}

/// A valid model routes rows with the same routing values to the same leaf.
proof fn lemma_same_values_same_leaf(
    model: Model,
    f: spec_fn(int) -> Result<F32, u32>,
    g: spec_fn(int) -> Result<F32, u32>,
)
    requires
        model.wf(),
        forall|i: int| 0 <= i < model.encoders.features.len() ==> f(i) == #[trigger] g(i),
    ensures
        leaf_of(model.nodes@, f, model.root as int) == leaf_of(model.nodes@, g, model.root as int),
{
    let (n, leaves) = (model.encoders.features@.len() as int, model.leaves@.len() as int);
    let root = model.root as int;
    let k = choose|k: nat| ends_within(model.nodes@, n, leaves, root, k);
    lemma_same_values_arrive(model.nodes@, n, leaves, f, g, root, k);
}

/// The raw path and the encoded path route a row to the same leaf.
pub proof fn lemma_paths_reach_same_leaf<A: Arith>(
    model: Model,
    ds: Dataset,
    m: EncodedMatrix,
    r: int,
)
    requires
        model.wf(),
        ds.wf(),
        dataset_suits(model.encoders, ds),
        is_transform::<A>(model.encoders, ds, m),
        0 <= r < ds.labels.len(),
    ensures
        model.raw_leaf(dataset_row(ds, r)) == model.encoded_leaf(m, r),
{
    let enc = model.encoders;
    let f = raw_values(enc, dataset_row(ds, r));
    let g = row_values(m, r);
    assert forall|i: int| 0 <= i < enc.features.len() implies f(i) == #[trigger] g(i) by {
        assert(is_transformed::<A>(enc.features[i], ds.columns[i], m.cols[i]));
        assert(ds.columns[i].rows() == ds.labels.len());
        assert(dataset_row(ds, r)[i] == column_value(ds.columns[i], r));
        match (enc.features[i], ds.columns[i], m.cols[i]) {
            (FeatureEncoder::BoundedCat(e), Column::Categorical(raw), EncCol::Cat(codes)) => {
                assert(codes[r] == e.spec_code_of(raw[r]));
            },
            (
                FeatureEncoder::HighCard(e),
                Column::Categorical(raw),
                EncCol::HighCard { enc, cnt },
            ) => {
                assert(enc[r] == e.spec_enc_of(raw[r]));
            },
            _ => {},
        }
    }
    lemma_same_values_same_leaf(model, f, g);
}

/// With deterministic arithmetic a value has one piecewise-linear basis.
pub(crate) proof fn lemma_numeric_basis_unique<A: Arith>(
    knots: Seq<F32>,
    off: int,
    v: F32,
    a: Seq<(u32, F32)>,
    b: Seq<(u32, F32)>,
)
    requires
        deterministic::<A>(),
        strictly_ascending(knots),
        is_numeric_basis::<A>(knots, off, v, a),
        is_numeric_basis::<A>(knots, off, v, b),
    ensures
        a == b,
{
    if !v.spec_is_nan() && !(knots.len() == 1 || v.le(knots[0])) && !knots.last().le(v) {
        let i = choose|j: int| #[trigger] are_bracket_entries::<A>(knots, off, v, j, a);
        let j = choose|j: int| #[trigger] are_bracket_entries::<A>(knots, off, v, j, b);
        if i < j {
            assert(knots[i + 1].le(knots[j]));
        } else if j < i {
            assert(knots[j + 1].le(knots[i]));
        }
        assert(i == j);
        assert(a[1].1 == b[1].1) by {
            let lo = knots[i];
            let hi = knots[i + 1];
            let (x1, y1) = choose|x: F32, y: F32| #[trigger]
                crate::arith::is_diff32::<A>(v, lo, x) && #[trigger] crate::arith::is_diff32::<A>(
                    hi,
                    lo,
                    y,
                ) && crate::arith::is_quot32::<A>(x, y, a[1].1);
            let (x2, y2) = choose|x: F32, y: F32| #[trigger]
                crate::arith::is_diff32::<A>(v, lo, x) && #[trigger] crate::arith::is_diff32::<A>(
                    hi,
                    lo,
                    y,
                ) && crate::arith::is_quot32::<A>(x, y, b[1].1);
            assert(x1 == x2 && y1 == y2);
        }
        assert(a[0].1 == b[0].1);
        assert(a =~= b);
    }
}

pub(crate) proof fn lemma_highcard_basis_unique<A: Arith>(
    f: HighCardEnc,
    enc: F32,
    c1: F32,
    c2: F32,
    a: Seq<(u32, F32)>,
    b: Seq<(u32, F32)>,
)
    requires
        deterministic::<A>(),
        strictly_ascending(f.enc_knots@),
        strictly_ascending(f.cnt_knots@),
        is_highcard_basis::<A>(f, enc, c1, a),
        is_highcard_basis::<A>(f, enc, c2, b),
        f.use_count ==> c1 == c2,
    ensures
        a == b,
{
    if f.use_count {
        let (p, q) = choose|p: Seq<(u32, F32)>, q: Seq<(u32, F32)>| #[trigger]
            is_numeric_basis::<A>(f.enc_knots@, f.enc_off as int, enc, p)
                && #[trigger] is_numeric_basis::<A>(f.cnt_knots@, f.cnt_off as int, c1, q) && a == p
                + q;
        let (r, s) = choose|r: Seq<(u32, F32)>, s: Seq<(u32, F32)>| #[trigger]
            is_numeric_basis::<A>(f.enc_knots@, f.enc_off as int, enc, r)
                && #[trigger] is_numeric_basis::<A>(f.cnt_knots@, f.cnt_off as int, c2, s) && b == r
                + s;
        lemma_numeric_basis_unique::<A>(f.enc_knots@, f.enc_off as int, enc, p, r);
        lemma_numeric_basis_unique::<A>(f.cnt_knots@, f.cnt_off as int, c1, q, s);
    } else {
        lemma_numeric_basis_unique::<A>(f.enc_knots@, f.enc_off as int, enc, a, b);
    }
}

/// The basis of a raw value is that of the encoded value.
proof fn lemma_feature_bases_agree<A: Arith>(
    fe: FeatureEncoder,
    off: int,
    column: Column,
    col: EncCol,
    r: int,
    a: Seq<(u32, F32)>,
    b: Seq<(u32, F32)>,
)
    requires
        deterministic::<A>(),
        fe.wf_at(off),
        is_transformed::<A>(fe, column, col),
        0 <= r < column.rows(),
        is_raw_feature_basis::<A>(fe, column_value(column, r), a),
        is_feature_basis::<A>(fe, col, r, b),
    ensures
        a == b,
{
    match (fe, column, col) {
        (FeatureEncoder::Numeric(f), Column::Numeric(raw), EncCol::Num(v)) => {
            lemma_numeric_basis_unique::<A>(f.knots@, f.basis_off as int, v[r], a, b);
        },
        (FeatureEncoder::BoundedCat(f), Column::Categorical(raw), EncCol::Cat(codes)) => {
            assert(codes[r] == f.spec_code_of(raw[r]));
        },
        (
            FeatureEncoder::HighCard(f),
            Column::Categorical(raw),
            EncCol::HighCard { enc, cnt },
        ) => {
            let c = raw[r];
            assert(enc[r] == f.spec_enc_of(c));
            assert(f.is_count_of::<A>(c, cnt[r]));
            let c1 = choose|x: F32| #[trigger]
                is_highcard_basis::<A>(f, f.spec_enc_of(c), x, a) && (f.use_count
                    ==> f.is_count_of::<A>(c, x));
            lemma_highcard_basis_unique::<A>(f, enc[r], c1, cnt[r], a, b);
        },
        _ => {},
    }
}

/// With deterministic arithmetic a leaf gives one probability to a sparse basis.
pub(crate) proof fn lemma_leaf_proba_unique<A: Arith>(
    model: Model,
    leaf: int,
    phi: Seq<(u32, F32)>,
    p: F32,
    q: F32,
)
    requires
        deterministic::<A>(),
        model.is_leaf_proba::<A>(leaf, phi, p),
        model.is_leaf_proba::<A>(leaf, phi, q),
    ensures
        p == q,
{
    let head = model.leaves[leaf];
    let (d1, s1) = choose|d: F32, s: F32| #[trigger]
        head.is_dot::<A>(phi, d) && #[trigger] is_sum32::<A>(model.s0, d, s) && is_logistic32::<A>(
            s,
            p,
        );
    let (d2, s2) = choose|d: F32, s: F32| #[trigger]
        head.is_dot::<A>(phi, d) && #[trigger] is_sum32::<A>(model.s0, d, s) && is_logistic32::<A>(
            s,
            q,
        );
    let step = head.score_entry::<A>();
    assert forall|x: (u32, F32), a: F32, b: F32, c: F32| #[trigger] step(x, a, b)
        && #[trigger] step(x, a, c) implies b == c by {
        assert(head.is_entry_scored::<A>(x, a, b) && head.is_entry_scored::<A>(x, a, c));
        if head.idx@.contains(x.0) {
            let w = head.w[head.idx@.index_of(x.0)];
            let p1 = choose|p: F32| #[trigger]
                crate::arith::is_prod32::<A>(w, x.1, p) && is_sum32::<A>(a, p, b);
            let p2 = choose|p: F32| #[trigger]
                crate::arith::is_prod32::<A>(w, x.1, p) && is_sum32::<A>(a, p, c);
        }
    }
    lemma_folds_unique(head.bias, phi, step, d1, d2);
    assert(s1 == s2);
    lemma_logistic32_unique::<A>(s1, p, q);
}

/// The raw path and the encoded path agree: with deterministic arithmetic they give every row
/// of a dataset the same probability.
pub proof fn lemma_paths_agree<A: Arith>(
    model: Model,
    ds: Dataset,
    m: EncodedMatrix,
    r: int,
    p_raw: F32,
    p_enc: F32,
)
    requires
        deterministic::<A>(),
        model.wf(),
        ds.wf(),
        dataset_suits(model.encoders, ds),
        is_transform::<A>(model.encoders, ds, m),
        0 <= r < ds.labels.len(),
        model.is_raw_proba::<A>(dataset_row(ds, r), p_raw),
        model.is_encoded_proba::<A>(m, r, p_enc),
    ensures
        p_raw == p_enc,
{
    let enc = model.encoders;
    let row = dataset_row(ds, r);
    let leaf = model.encoded_leaf(m, r);
    lemma_paths_reach_same_leaf::<A>(model, ds, m, r);
    let phi1 = choose|phi: Seq<(u32, F32)>| #[trigger]
        is_raw_basis::<A>(enc, row, phi) && model.is_leaf_proba::<A>(model.raw_leaf(row), phi, p_raw);
    let phi2 = choose|phi: Seq<(u32, F32)>| #[trigger]
        is_row_basis::<A>(enc, m, r, phi) && model.is_leaf_proba::<A>(leaf, phi, p_enc);
    let parts1 = choose|parts: Seq<Seq<(u32, F32)>>| #[trigger]
        are_raw_parts::<A>(enc.features@, row, parts) && phi1 == parts.flatten();
    let parts2 = choose|parts: Seq<Seq<(u32, F32)>>| #[trigger]
        are_row_parts::<A>(enc.features@, m.cols@, r, parts) && phi2 == parts.flatten();
    assert forall|i: int| 0 <= i < parts1.len() implies parts1[i] == parts2[i] by {
        assert(enc.features[i].wf_at(layout_start(enc.features@, i)));
        assert(is_transformed::<A>(enc.features[i], ds.columns[i], m.cols[i]));
        assert(ds.columns[i].rows() == ds.labels.len());
        assert(row[i] == column_value(ds.columns[i], r));
        assert(is_raw_feature_basis::<A>(enc.features[i], row[i], parts1[i]));
        assert(is_feature_basis::<A>(enc.features[i], m.cols[i], r, parts2[i]));
        lemma_feature_bases_agree::<A>(
            enc.features[i],
            layout_start(enc.features@, i),
            ds.columns[i],
            m.cols[i],
            r,
            parts1[i],
            parts2[i],
        );
    }
    assert(parts1 =~= parts2);
    lemma_leaf_proba_unique::<A>(model, leaf, phi1, p_raw, p_enc);
}

/// A missing numeric value takes the default direction of a numeric split.
pub proof fn lemma_missing_takes_default(thr: F32, default_left: bool, fe: FeatureEncoder, v: F32)
    requires
        fe is Numeric,
        v.spec_is_nan(),
    ensures
        goes_left(Split::Numeric { thr }, default_left, raw_value(fe, RawValue::Num(v)))
            == default_left,
{
}

/// A category that the training column does not hold, and the missing one, are routed by
/// the prior.
pub proof fn lemma_unseen_routes_by_prior<A: Arith>(
    raw: Seq<i64>,
    labels: Seq<u8>,
    weights: Seq<F32>,
    cfg: Config,
    prior: F32,
    off: int,
    e: HighCardEnc,
    enc: Seq<F32>,
    cnt: Seq<F32>,
    c: i64,
)
    requires
        is_highcard_fit::<A>(raw, labels, weights, cfg, prior, off, e, enc, cnt),
        c == MISSING_CAT || !raw.contains(c),
    ensures
        raw_value(FeatureEncoder::HighCard(e), RawValue::Cat(c)) == Ok::<F32, u32>(prior),
{
    lemma_unseen_category_gets_prior::<A>(
        raw,
        labels,
        weights,
        cfg,
        prior,
        off,
        e,
        enc,
        cnt,
        c,
    );
}

/// A category that the encoder knows nothing of: the missing one, or one it has not seen.
pub open spec fn is_unknown(e: HighCardEnc, c: i64) -> bool {
    c == MISSING_CAT || !e.enc@.contains_key(c) && !e.count@.contains_key(c)
}

/// Two values of a feature are equal, or both unknown categories of a high-card feature.
pub open spec fn values_alike(fe: FeatureEncoder, v: RawValue, w: RawValue) -> bool {
    v == w || match (fe, v, w) {
        (FeatureEncoder::HighCard(e), RawValue::Cat(c), RawValue::Cat(d)) => is_unknown(e, c)
            && is_unknown(e, d),
        _ => false,
    }
}

/// Two rows have alike values of every feature.
pub open spec fn rows_alike(
    encoders: Encoders,
    row1: Seq<RawValue>,
    row2: Seq<RawValue>,
) -> bool {
    forall|i: int|
        0 <= i < encoders.features.len() ==> values_alike(
            #[trigger] encoders.features[i],
            row1[i],
            row2[i],
        )
}

/// `log(1 + 0)` is zero.
pub open spec fn log_of_one_is_zero<A: Arith>() -> bool {
    forall|r: F32| #[trigger] is_ln_1p32::<A>(0, r) ==> r == F32::zero()
}

proof fn lemma_alike_values_basis<A: Arith>(
    fe: FeatureEncoder,
    off: int,
    v: RawValue,
    w: RawValue,
    a: Seq<(u32, F32)>,
    b: Seq<(u32, F32)>,
)
    requires
        deterministic::<A>(),
        log_of_one_is_zero::<A>(),
        fe.wf_at(off),
        values_alike(fe, v, w),
        is_raw_feature_basis::<A>(fe, v, a),
        is_raw_feature_basis::<A>(fe, w, b),
    ensures
        a == b,
{
    match (fe, v, w) {
        (FeatureEncoder::Numeric(f), RawValue::Num(x), RawValue::Num(_)) => {
            lemma_numeric_basis_unique::<A>(f.knots@, f.basis_off as int, x, a, b);
        },
        (FeatureEncoder::HighCard(f), RawValue::Cat(c), RawValue::Cat(d)) => {
            let x = choose|cnt: F32| #[trigger]
                is_highcard_basis::<A>(f, f.spec_enc_of(c), cnt, a) && (f.use_count
                    ==> f.is_count_of::<A>(c, cnt));
            let y = choose|cnt: F32| #[trigger]
                is_highcard_basis::<A>(f, f.spec_enc_of(d), cnt, b) && (f.use_count
                    ==> f.is_count_of::<A>(d, cnt));
            lemma_highcard_basis_unique::<A>(f, f.spec_enc_of(c), x, y, a, b);
        },
        _ => {},
    }
}

/// Unknown categories of a high-card feature score alike: with deterministic arithmetic and
/// `log(1 + 0) = 0`, rows that differ in nothing but such categories get the same probability,
/// whether these are missing or not seen in training.
pub proof fn lemma_unknown_categories_score_alike<A: Arith>(
    model: Model,
    row1: Seq<RawValue>,
    row2: Seq<RawValue>,
    p1: F32,
    p2: F32,
)
    requires
        deterministic::<A>(),
        log_of_one_is_zero::<A>(),
        model.wf(),
        rows_alike(model.encoders, row1, row2),
        model.is_raw_proba::<A>(row1, p1),
        model.is_raw_proba::<A>(row2, p2),
    ensures
        p1 == p2,
        model.raw_leaf(row1) == model.raw_leaf(row2),
{
    let enc = model.encoders;
    let (f, g) = (raw_values(enc, row1), raw_values(enc, row2));
    assert forall|i: int| 0 <= i < enc.features.len() implies f(i) == #[trigger] g(i) by {
        assert(values_alike(enc.features[i], row1[i], row2[i]));
    }
    lemma_same_values_same_leaf(model, f, g);
    let phi1 = choose|phi: Seq<(u32, F32)>| #[trigger]
        is_raw_basis::<A>(enc, row1, phi) && model.is_leaf_proba::<A>(model.raw_leaf(row1), phi, p1);
    let phi2 = choose|phi: Seq<(u32, F32)>| #[trigger]
        is_raw_basis::<A>(enc, row2, phi) && model.is_leaf_proba::<A>(model.raw_leaf(row2), phi, p2);
    let parts1 = choose|parts: Seq<Seq<(u32, F32)>>| #[trigger]
        are_raw_parts::<A>(enc.features@, row1, parts) && phi1 == parts.flatten();
    let parts2 = choose|parts: Seq<Seq<(u32, F32)>>| #[trigger]
        are_raw_parts::<A>(enc.features@, row2, parts) && phi2 == parts.flatten();
    assert forall|i: int| 0 <= i < parts1.len() implies parts1[i] == parts2[i] by {
        let off = layout_start(enc.features@, i);
        assert(enc.features[i].wf_at(off));
        assert(values_alike(enc.features[i], row1[i], row2[i]));
        assert(is_raw_feature_basis::<A>(enc.features[i], row1[i], parts1[i]));
        assert(is_raw_feature_basis::<A>(enc.features[i], row2[i], parts2[i]));
        lemma_alike_values_basis::<A>(
            enc.features[i],
            off,
            row1[i],
            row2[i],
            parts1[i],
            parts2[i],
        );
    }
    assert(parts1 =~= parts2);
    lemma_leaf_proba_unique::<A>(model, model.raw_leaf(row1), phi1, p1, p2);
}

/// All paths agree: with deterministic arithmetic the probability that a row of a dataset gets
/// among all rows is that of the raw path.
pub proof fn lemma_dataset_path_agrees<A: Arith>(
    model: Model,
    ds: Dataset,
    preds: Seq<F32>,
    r: int,
    p_raw: F32,
)
    requires
        deterministic::<A>(),
        model.wf(),
        ds.wf(),
        dataset_suits(model.encoders, ds),
        model.are_predictions::<A>(ds, preds),
        0 <= r < ds.labels.len(),
        model.is_raw_proba::<A>(dataset_row(ds, r), p_raw),
    ensures
        preds[r] == p_raw,
{
    let m = choose|m: EncodedMatrix| #[trigger]
        is_transform::<A>(model.encoders, ds, m) && model.are_matrix_predictions::<A>(m, preds);
    assert(model.is_encoded_proba::<A>(m, r, preds[r]));
    lemma_paths_agree::<A>(model, ds, m, r, p_raw, preds[r]);
}

} // verus!
