# shap_rs

Model explainability with Shapley values, in two layers.

- `src/` is the verified library. It holds every discrete rule the
  explainers follow: shape and index checks with their exact error
  messages, coalition enumeration and sampling plans, permutation and
  hierarchy orderings, feature partitions and causal orders, grouping of
  tokens, image segments and source columns, the least-recently-used caches
  of coalition values and model predictions, evaluation budgets, metadata
  validation, sample selection for summaries, and agglomerative clustering
  of features into a hierarchy. Each public function states in its contract
  what it returns; the laws that relate several functions are public proof
  functions.
- `app/` is the numeric layer over `ndarray`: model and masker adapters,
  the floating-point estimators (exact, kernel, permutation, partition,
  causal, linear, gradient and Deep SHAP), explanations and their JSON form,
  metrics, summaries and parallel execution. It asks the library for every
  decision and only does arithmetic and I/O around it.
- `tests/` exercises the library on concrete values.

Random draws come from `rand`'s `StdRng`; the library states only what holds
of every draw (a shuffle is a rearrangement, a choice is one of the
offered items).
