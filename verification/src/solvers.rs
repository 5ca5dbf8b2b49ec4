//! The states and results that SAT solvers report, and the interface types
//! of the Minisat solver.

pub mod minisat;

use vstd::prelude::*;

verus! {

/// The state a solver is in.
#[derive(Clone, Copy, Debug, PartialEq, Eq, Structural)]
pub enum SolverState {
    /// The solver has been created and can still be configured
    Configuring,
    /// Clauses have been added since the last call to solve
    Input,
    /// The last call to solve found the instance satisfiable
    Sat,
    /// The last call to solve found the instance unsatisfiable
    Unsat,
}

/// What a call to solve found.
#[derive(Clone, Copy, Debug, PartialEq, Eq, Structural)]
pub enum SolverResult {
    /// The instance is satisfiable
    SAT,
    /// The instance is unsatisfiable
    UNSAT,
    /// The solver stopped before it found an answer
    Interrupted,
}

} // verus!
