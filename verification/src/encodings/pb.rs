//! Encodings of pseudo-Boolean constraints.

pub mod gte;
pub mod fresh;
pub mod semantics;
pub mod witness;
pub mod incremental;
pub mod bounds;
