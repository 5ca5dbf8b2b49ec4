//! Encodings of constraints into clauses.

pub mod card;
pub mod pb;

use vstd::prelude::*;

verus! {

/// The kind of bound an encoding enforces.
#[derive(Clone, Copy, Debug, PartialEq, Eq, Structural)]
pub enum BoundType {
    /// Lower bounds
    LB,
    /// Upper bounds
    UB,
    /// Both lower and upper bounds
    BOTH,
}

/// Errors that an encoding reports.
#[derive(Clone, Copy, Debug, PartialEq, Eq, Structural)]
pub enum EncodingError {
    /// The requested bound was not encoded yet
    NotEncoded,
    /// The requested bound makes the constraint unsatisfiable
    Unsat,
    /// The encoding does not support this bound type
    NoTypeSupport,
    /// The encoding was not built for this kind of bound
    NoObjectSupport,
}

} // verus!
