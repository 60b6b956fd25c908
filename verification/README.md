# ax-tensor (verified core)

Combinatorics and exact algebra behind tensor index manipulation, written in
Verus and proved against its contracts.

Layout of `src/`:

- `shape`, `shape_order`, `lattice`, `lr`, `lr_bounds`, `product`,
  `dimension`, `multiplicity_trace`: Young diagrams, Littlewood-Richardson
  products counted by fillings, products of several diagrams, dimensions by
  the hook-content formula, and the summary of a product with its repeated
  diagrams.
- `symmetry`, `indices`, `sparse_apply`, `multiterm`, `match_result`: slot
  symmetries of tensor products (generating sets), index contractions,
  dense labels, permutation parity and signs, stable slot ranking, multi-term
  identities.
- `mixed`: tensor and spinor sectors of mixed symmetries and the
  decomposition of small products sector by sector.
- `rational`, `linear`, `gauss`, `linear_system`, `exact`: fractions as pairs,
  the laws of their values, Gauss-Jordan elimination proved to keep the
  solutions of a system, and the solver over `num-rational` fractions.
- `newman_penrose`, `numerical_gr`, `trace_engine`: the decision and input
  checks of the geometric routines (Petrov type from vanishing Weyl scalars,
  dimension checks of spin coefficients, Weyl scalars, parallel transport and
  geodesic integration), and their error types.

What this crate does not hold: expression canonicalisation (`canonicalise`,
`canonicalize_indices`, `meld` and their parallel and pooled variants),
index renaming, contraction and elimination rewrites, Young projection of
expressions, and the symbolic geometry (Christoffel symbols, curvature,
null tetrads, spin coefficients, Weyl scalars). All of them work on the
expression trees, interner and property lookups of the `ax_ir` crate and on
the group and tableau machinery of `ax_perm` and `ax_young`, which are not
available here; their logic cannot be separated from those calls. The
numerical integrators need `ax_ode` and floating point, and are left out
too; only their input checks are held.

Trusted items: the wrappers of `exact` around `num-bigint` and
`num-rational` operations, each stating the value of its result; the
declaration of `anyhow::Error` and the wrapper that reads its text in
`multiterm`; the wrapper of `usize::to_string` in `numerical_gr`.

`app/` holds the copies of the error types that derive `thiserror::Error`,
and the conversion of interned `lasso` symbols to the integer keys used by
the library.
