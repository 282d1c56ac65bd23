//! # perceptree
//!
//! A binary classifier for imbalanced, mixed numeric/categorical tabular data.
//!
//! The model is a **coarse partition with linear leaves**: a small gain-built
//! tree (8–32 regions) splits the heterogeneous input space, and each leaf is a
//! small linear model over a sparse per-feature basis `φ(x)` — a
//! piecewise-additive function per region. Inference routes a row to a leaf (a
//! handful of comparisons) then does one sparse dot product.
//!
//! Module map:
//! - [`float`]     — IEEE 754 numbers by their bits: order, widening.
//! - [`arith`]     — the arithmetic as a parameter, and runs of its operations.
//! - [`seqs`]      — facts about filtered sequences.
//! - [`sums`]      — finite sums of integers.
//! - [`exact`]     — exact numbers, and arithmetic that does not round.
//! - [`sort`]      — stable ordering of positions by a key.
//! - [`data`]      — columnar data, schema, temporal split, synthetic benchmark.
//! - [`data_laws`] — what the split and the benchmark are, exactly.
//! - [`encoding`]  — quantile knots, vocabs, out-of-fold target encoders,
//!                   sparse basis expansion `φ(x)`.
//! - [`encoding_laws`] — what the encodings are, exactly.
//! - [`basis_laws`] — what a row's sparse basis tells of the row.
//! - [`tree`]      — histogram split-finding with a pluggable gain criterion
//!                   (constant-leaf / leaf-aware) and best-first growth.
//! - [`moments`]   — what the split search scores, exactly.
//! - [`split_laws`] — what the chosen split gains, exactly.
//! - [`linalg`]    — SPD Cholesky solve.
//! - [`leaf_model`]— per-leaf linear head fit by Newton/IRLS with L2.
//! - [`determinism`] — that a leaf fit has one outcome.
//! - [`normal_equations`] — what a leaf's Newton system is, exactly.
//! - [`leaf_laws`] — what a leaf's scores, gradients and weights are, exactly.
//! - [`infer`]     — the trained [`infer::Model`] and single-row scorer.
//! - [`train`]     — orchestration of the full fit pipeline.
//! - [`reproducible`] — that training has one outcome.
//! - [`model_laws`] — what training and scoring do, exactly.
//! - [`eval`]      — PR-AUC, lift, log-loss, reliability, latency summary.
//! - [`metric_laws`] — what the metrics are, exactly.
//! - [`precision_laws`] — what the average precision is, exactly.

use vstd::prelude::*;
use crate::float::F32;

pub mod arith;
pub mod basis_laws;
pub mod data;
pub mod data_laws;
pub mod determinism;
pub mod encoding;
pub mod encoding_laws;
pub mod eval;
pub mod exact;
pub mod float;
pub mod infer;
pub mod leaf_laws;
pub mod leaf_model;
pub mod linalg;
pub mod metric_laws;
pub mod model_laws;
pub mod moments;
pub mod normal_equations;
pub mod precision_laws;
pub mod reproducible;
pub mod seqs;
pub mod sort;
pub mod split_laws;
pub mod sums;
pub mod train;
pub mod tree;

verus! {

/// Which split-scoring criterion the tree uses.
#[derive(Clone, Copy, Debug, PartialEq, Eq, Structural)]
pub enum GainKind {
    /// Standard constant-leaf gain `G²/(H+λ)`.
    Constant,
    /// Leaf-aware gain: scores a split assuming the leaf will fit a line in the
    /// split feature, so a pure linear trend earns nothing.
    LeafAware,
}

/// What sits in each leaf.
#[derive(Clone, Copy, Debug, PartialEq, Eq, Structural)]
pub enum LeafKind {
    /// A single constant log-odds correction (ablation baseline).
    Constant,
    /// A linear model over the leaf's active sparse basis (the real model).
    Linear,
}

/// All tunable knobs.
#[derive(Clone, Debug)]
pub struct Config {
    /// `K`: stop growing at this many leaves.
    pub num_leaves: usize,
    /// L2 regularization `λ`, shared by split scores and leaf fits.
    pub lambda: F32,
    /// Quantile knots per numeric feature.
    pub knots: usize,
    /// Quantile knots per high-card encoded feature.
    pub hc_knots: usize,
    /// Target-encoding smoothing `α` (shrink toward the prior).
    pub alpha: F32,
    /// Number of out-of-fold folds for leakage-safe target encoding.
    pub n_folds: usize,
    /// Class weight applied to positive rows (imbalance handling).
    pub pos_weight: F32,
    /// Split-scoring criterion.
    pub gain: GainKind,
    /// Leaf model family.
    pub leaf_model: LeafKind,
    /// Newton/IRLS iterations for each leaf fit.
    pub irls_iters: usize,
    /// Minimum rows required on each side of a split.
    pub min_leaf_samples: usize,
    /// Whether high-card features also emit a `log(1+count)` basis block.
    pub hc_use_count: bool,
}

impl Default for Config {
    fn default() -> (r: Self)
        ensures
            r.num_leaves == 16,
            r.lambda == F32::one(),
            r.knots == 16,
            r.hc_knots == 16,
            r.alpha == (F32 { bits: 0x41a0_0000 }),
            r.n_folds == 5,
            r.pos_weight == F32::one(),
            r.gain == GainKind::Constant,
            r.leaf_model == LeafKind::Linear,
            r.irls_iters == 8,
            r.min_leaf_samples == 50,
            r.hc_use_count,
    {
        Config {
            num_leaves: 16,
            lambda: F32::one(),
            knots: 16,
            hc_knots: 16,
            alpha: F32 { bits: 0x41a0_0000 },
            n_folds: 5,
            pos_weight: F32::one(),
            gain: GainKind::Constant,
            leaf_model: LeafKind::Linear,
            irls_iters: 8,
            min_leaf_samples: 50,
            hc_use_count: true,
        }
    }
}

} // verus!
