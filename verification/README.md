# rustsat

A verified core of a SAT toolkit: literals and clauses, a variable manager,
satisfiability instances with cardinality and pseudo-Boolean constraints,
and the generalized totalizer encoding of pseudo-Boolean constraints into
clauses, proved with Verus.

- `src/types.rs`, `src/types/constraints.rs`: variables, literals, and
  cardinality and pseudo-Boolean constraints with their meaning under an
  assignment.
- `src/instances.rs`: clauses, CNF formulas, the variable manager, and
  `SatInstance`, whose conversion to CNF is proved sound and complete.
- `src/maps.rs`: the sorted map of output literals and the insertion-ordered
  map of literal weights that the totalizer uses.
- `src/encodings/pb/gte.rs`: the generalized totalizer; `fresh.rs`,
  `semantics.rs`, `witness.rs` and `incremental.rs` hold what its clauses mean:
  the bounds they enforce, that every assignment within the bounds extends to
  a model, that incremental encoding gives the clauses of encoding from
  scratch, and that adding literals, reserving and re-encoding behave as
  the totalizer promises.
- `src/encodings/pb/bounds.rs`: upper and lower bounds on weighted sums, and
  pseudo-Boolean constraints, encoded with a fresh totalizer.
- `src/encodings/card.rs`: cardinality constraints encoded with totalizers.
- `src/solvers.rs`, `src/solvers/minisat.rs`: solver states and results, and
  the Minisat interface types.
- `app/`: the error types with `std::error::Error` and the `Display` of
  limits, built with `thiserror` on top of the verified types.
