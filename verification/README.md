# citest

Conditional-independence testing for causal discovery, with its integer
core verified by Verus.

- `src/` is the verified library: the dataset model (columns given as IEEE-754
  bit patterns, discrete columns factorized in first-seen order, missing values
  refused), grouping of rows into strata by a conditioning set, the
  budget-bounded cache of those groupings, contingency tables with their
  marginals, active shape and degrees of freedom, value-keyed tables and row
  groupings, query validation, test metadata and the registry, the column
  bookkeeping of the Gaussian sufficient statistics, and the parsing of caller
  input (kind names, negative column indices, column-major matrices, string
  categories).
- `app/` holds what is floating-point arithmetic: the power-divergence
  statistics, p-values, effect sizes, partial correlations, the `CITest` trait
  and a `Dataset` front end taking `f64` columns and owning the caches.
- `tests/` exercises the library.
