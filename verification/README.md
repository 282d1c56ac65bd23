# perceptree

A **coarse-partition / linear-leaf** binary classifier for imbalanced, mixed
numeric/categorical tabular data, written and verified in Verus.

- A coarse gain-built tree finds a small partition of the input space (8–32
  regions).
- Each region's leaf is a small linear model over a sparse per-feature basis
  `φ(x)`: piecewise-linear over quantile knots for numbers, one-hot for bounded
  categories, out-of-fold target encoding for unbounded ones.

Inference routes a row to a leaf (a handful of comparisons) and does one sparse
dot product.

## Numbers

The library holds floating-point numbers as bit patterns (`float`). Comparing,
widening, negating and clamping them is proved against the numbers that the bits
denote. Arithmetic is a parameter, the trait `Arith`, of which nothing is
assumed: a contract says which operations were applied to what, in which order,
and where their results went. What needs an operation to have one result for
given operands says so (`arith::deterministic`). `app/` and `tests/` plug in the
machine's arithmetic.

## Modules

| module       | responsibility                                                          |
|--------------|-------------------------------------------------------------------------|
| `float`      | bit patterns, their order, exact conversions                            |
| `arith`      | arithmetic as a parameter; sums as runs and folds                        |
| `data`       | columns, schema, temporal split, generator, synthetic benchmark          |
| `encoding`   | quantile knots, vocabularies, out-of-fold target encoders, sparse basis |
| `tree`       | histogram split-finding, gain criteria, best-first growth                |
| `leaf_model` | per-leaf logistic fit by Newton/IRLS with L2                             |
| `infer`      | the trained `Model`, raw and encoded scorers                             |
| `train`      | the fit pipeline                                                         |
| `eval`       | PR-AUC, lift, log-loss, ROC-AUC, reliability, latency summary            |
| `linalg`     | Cholesky solve                                                           |
| `exact`, `moments`, `normal_equations` | arithmetic that does not round; the split search and a leaf's Newton system under it |
| `determinism`, `reproducible` | that a leaf fit, and training as a whole, have one outcome |
| `sort`, `seqs`, `sums` | stable sorting, filtered sequences, finite sums                |

## What is proved beyond the contracts

- The raw and the encoded path route every row to the same leaf and, with
  deterministic arithmetic, give it the same probability
  (`infer::lemma_paths_agree`, `infer::lemma_dataset_path_agrees`).
- A training row's target encoding does not depend on the labels of its own fold,
  its own among them (`encoding::lemma_out_of_fold_is_leakage_free`,
  `encoding::lemma_fit_is_leakage_free`).
- A category that was not seen in training scores as a missing one
  (`train::lemma_unseen_scores_as_missing`).
- Every feature's basis entries stay in its own slots, below the basis dimension
  (`encoding::lemma_entries_in_own_slots`, `encoding::lemma_row_basis_in_range`).
- A grown tree partitions the rows, routes each to its leaf, and leaves enough
  rows in every leaf (`tree::lemma_grown_tree_partitions`).
- Where nothing was rounded (`exact::stays_exact` says what arithmetic is meant:
  one that never passes off a rounded result as exact, which the machine's as a
  whole is not):
  - the basis weights of a value sum to one, and interpolate between its knots
    (`encoding::lemma_basis_partitions_unity`,
    `encoding::lemma_bracket_interpolates`);
  - the gradients cancel out at the base score
    (`train::lemma_base_gradients_cancel`);
  - the split search scores the sums that a scan of the rows would give, under
    both criteria (`moments::lemma_histogram_matches_brute_force`,
    `moments::lemma_histogram_slopes_match_brute_force`);
  - without L2 a pure linear trend earns nothing under the leaf-aware criterion
    (`moments::lemma_linear_trend_earns_nothing`);
  - the Cholesky solve solves (`linalg::lemma_solution_solves`), and a Newton
    step solves `(Σ h x xᵀ + λI) δ = Σ g x + λ w`
    (`normal_equations::lemma_newton_step_solves_normal_equations`);
  - the ROC-AUC is the share of ordered pairs
    (`eval::lemma_roc_auc_is_mann_whitney`), a perfect ranking scores one
    (`eval::lemma_perfect_ranking_has_full_precision`,
    `eval::lemma_perfect_ranking_has_full_roc`), and constant predictions earn the
    positive rate (`eval::lemma_constant_predictions_earn_the_base_rate`).
- A row trains the leaf that it is routed to
  (`train::lemma_rows_train_the_leaf_they_reach`), and weights that a training set
  had before have no influence
  (`train::lemma_earlier_weights_have_no_influence`).
- Fitting a linear leaf starts at the constant leaf
  (`determinism::lemma_linear_leaf_starts_as_constant`).
- With deterministic arithmetic training has one outcome, and fixes every
  prediction (`reproducible::lemma_training_is_reproducible`,
  `reproducible::lemma_training_fixes_predictions`), and the synthetic benchmark is
  reproducible, a smaller one being the beginning of a larger
  (`data::lemma_synthetic_is_reproducible`, `data::lemma_synthetic_starts_alike`).
