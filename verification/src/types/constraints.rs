//! Cardinality and pseudo-Boolean constraints over literals.

use vstd::prelude::*;
use crate::types::Lit;
use crate::encodings::pb::semantics::{count_true, true_weight};

verus! {

/// A bound on the number of true literals among `lits`, each occurrence
/// counting once.
#[derive(Debug)]
pub enum CardConstraint {
    /// At most `b` of `lits` are true
    UB { lits: Vec<Lit>, b: usize },
    /// At least `b` of `lits` are true
    LB { lits: Vec<Lit>, b: usize },
    /// Exactly `b` of `lits` are true
    EQ { lits: Vec<Lit>, b: usize },
}

impl CardConstraint {
    /// The literals the constraint counts.
    pub open spec fn lits_view(self) -> Seq<Lit> {
        match self {
            CardConstraint::UB { lits, .. } => lits@,
            CardConstraint::LB { lits, .. } => lits@,
            CardConstraint::EQ { lits, .. } => lits@,
        }
    }

    /// The bound of the constraint.
    pub open spec fn bound(self) -> usize {
        match self {
            CardConstraint::UB { b, .. } => b,
            CardConstraint::LB { b, .. } => b,
            CardConstraint::EQ { b, .. } => b,
        }
    }

    /// Whether the assignment `sigma` satisfies the constraint.
    pub open spec fn satisfied(self, sigma: spec_fn(nat) -> bool) -> bool {
        let n = count_true(self.lits_view(), sigma);
        match self {
            CardConstraint::UB { b, .. } => n <= b,
            CardConstraint::LB { b, .. } => n >= b,
            CardConstraint::EQ { b, .. } => n == b,
        }
    }

    /// At most `b` of `lits` are true.
    pub fn new_ub(lits: Vec<Lit>, b: usize) -> (c: Self)
        ensures
            c is UB,
            c.lits_view() == lits@,
            c.bound() == b,
    {
        CardConstraint::UB { lits, b }
    }

    /// At least `b` of `lits` are true.
    pub fn new_lb(lits: Vec<Lit>, b: usize) -> (c: Self)
        ensures
            c is LB,
            c.lits_view() == lits@,
            c.bound() == b,
    {
        CardConstraint::LB { lits, b }
    }

    /// Exactly `b` of `lits` are true.
    pub fn new_eq(lits: Vec<Lit>, b: usize) -> (c: Self)
        ensures
            c is EQ,
            c.lits_view() == lits@,
            c.bound() == b,
    {
        CardConstraint::EQ { lits, b }
    }

    /// The literals the constraint counts.
    pub fn lits(&self) -> (r: &Vec<Lit>)
        ensures
            r@ == self.lits_view(),
    {
        match self {
            CardConstraint::UB { lits, .. } => lits,
            CardConstraint::LB { lits, .. } => lits,
            CardConstraint::EQ { lits, .. } => lits,
        }
    }
}

/// A bound on the total weight of the true literals among `lits`, each
/// occurrence counting with its weight.
#[derive(Debug)]
pub enum PBConstraint {
    /// The true literals weigh at most `b`
    UB { lits: Vec<(Lit, usize)>, b: usize },
    /// The true literals weigh at least `b`
    LB { lits: Vec<(Lit, usize)>, b: usize },
    /// The true literals weigh exactly `b`
    EQ { lits: Vec<(Lit, usize)>, b: usize },
}

impl PBConstraint {
    /// The weighted literals of the constraint.
    pub open spec fn lits_view(self) -> Seq<(Lit, usize)> {
        match self {
            PBConstraint::UB { lits, .. } => lits@,
            PBConstraint::LB { lits, .. } => lits@,
            PBConstraint::EQ { lits, .. } => lits@,
        }
    }

    /// The bound of the constraint.
    pub open spec fn bound(self) -> usize {
        match self {
            PBConstraint::UB { b, .. } => b,
            PBConstraint::LB { b, .. } => b,
            PBConstraint::EQ { b, .. } => b,
        }
    }

    /// Whether the assignment `sigma` satisfies the constraint.
    pub open spec fn satisfied(self, sigma: spec_fn(nat) -> bool) -> bool {
        let w = true_weight(self.lits_view(), sigma);
        match self {
            PBConstraint::UB { b, .. } => w <= b,
            PBConstraint::LB { b, .. } => w >= b,
            PBConstraint::EQ { b, .. } => w == b,
        }
    }

    /// The true literals of `lits` weigh at most `b`.
    pub fn new_ub(lits: Vec<(Lit, usize)>, b: usize) -> (c: Self)
        ensures
            c is UB,
            c.lits_view() == lits@,
            c.bound() == b,
    {
        PBConstraint::UB { lits, b }
    }

    /// The true literals of `lits` weigh at least `b`.
    pub fn new_lb(lits: Vec<(Lit, usize)>, b: usize) -> (c: Self)
        ensures
            c is LB,
            c.lits_view() == lits@,
            c.bound() == b,
    {
        PBConstraint::LB { lits, b }
    }

    /// The true literals of `lits` weigh exactly `b`.
    pub fn new_eq(lits: Vec<(Lit, usize)>, b: usize) -> (c: Self)
        ensures
            c is EQ,
            c.lits_view() == lits@,
            c.bound() == b,
    {
        PBConstraint::EQ { lits, b }
    }

    /// The weighted literals of the constraint.
    pub fn lits(&self) -> (r: &Vec<(Lit, usize)>)
        ensures
            r@ == self.lits_view(),
    {
        match self {
            PBConstraint::UB { lits, .. } => lits,
            PBConstraint::LB { lits, .. } => lits,
            PBConstraint::EQ { lits, .. } => lits,
        }
    }
}

} // verus!
