//! Variables, literals and constraints over them.

pub mod constraints;

use vstd::prelude::*;

verus! {

/// The largest index a variable may have.
pub const MAX_VAR_IDX: u32 = 0x7FFF_FFFF;

/// A Boolean variable, identified by its index.
#[derive(Clone, Copy, Debug, PartialEq, Eq, Structural, Hash, PartialOrd, Ord)]
pub struct Var {
    idx: u32,
}

impl Var {
    #[verifier::type_invariant]
    spec fn inv(self) -> bool {
        self.idx <= MAX_VAR_IDX
    }

    /// The index of the variable.
    pub closed spec fn index(self) -> nat {
        self.idx as nat
    }

    /// Creates the variable with index `idx`.
    pub fn new(idx: u32) -> (v: Var)
        requires
            idx <= MAX_VAR_IDX,
        ensures
            v.index() == idx,
    {
        Var { idx }
    }

    /// The index of the variable.
    pub fn idx(&self) -> (i: u32)
        ensures
            i == self.index(),
            i <= MAX_VAR_IDX,
        no_unwind
    {
        proof {
            use_type_invariant(self);
        }
        self.idx
    }

    /// The positive literal of the variable.
    pub fn pos_lit(&self) -> (l: Lit)
        ensures
            l.var_index() == self.index(),
            !l.is_neg(),
    {
        proof {
            use_type_invariant(self);
        }
        Lit { lidx: 2 * self.idx }
    }

    /// The negative literal of the variable.
    pub fn neg_lit(&self) -> (l: Lit)
        ensures
            l.var_index() == self.index(),
            l.is_neg(),
    {
        proof {
            use_type_invariant(self);
        }
        Lit { lidx: 2 * self.idx + 1 }
    }
}

/// A literal: a variable or its negation.
#[derive(Clone, Copy, Debug, PartialEq, Eq, Structural, Hash, PartialOrd, Ord)]
pub struct Lit {
    lidx: u32,
}

impl Lit {
    /// The index of the literal's variable.
    pub closed spec fn var_index(self) -> nat {
        (self.lidx / 2) as nat
    }

    /// Whether the literal is the negation of its variable.
    pub closed spec fn is_neg(self) -> bool {
        self.lidx % 2 == 1
    }

    /// The negation of a literal, in spec code.
    pub open spec fn spec_negate(self) -> Lit {
        choose|r: Lit| r.var_index() == self.var_index() && r.is_neg() == !self.is_neg()
    }

    /// Negation flips the sign, keeps the variable, and undoes itself.
    pub proof fn lemma_negate(l: Lit)
        ensures
            l.spec_negate().var_index() == l.var_index(),
            l.spec_negate().is_neg() == !l.is_neg(),
            l.spec_negate().spec_negate() == l,
            l.spec_negate() != l,
    {
        Lit::lemma_exists(l.var_index(), !l.is_neg());
        let n = l.spec_negate();
        Lit::lemma_exists(n.var_index(), !n.is_neg());
    }

    /// Every variable index up to the maximum has a literal of each sign.
    pub proof fn lemma_exists(idx: nat, neg: bool)
        requires
            idx <= MAX_VAR_IDX,
        ensures
            exists|r: Lit| r.var_index() == idx && r.is_neg() == neg,
    {
        let r = Lit { lidx: (2 * idx + if neg { 1int } else { 0int }) as u32 };
        assert(r.var_index() == idx && r.is_neg() == neg);
    }

    /// Creates a literal of the variable with index `idx`.
    pub fn new(idx: u32, negated: bool) -> (l: Lit)
        requires
            idx <= MAX_VAR_IDX,
        ensures
            l.var_index() == idx,
            l.is_neg() == negated,
    {
        if negated {
            Lit { lidx: 2 * idx + 1 }
        } else {
            Lit { lidx: 2 * idx }
        }
    }

    /// The positive literal of the variable with index `idx`.
    pub fn positive(idx: u32) -> (l: Lit)
        requires
            idx <= MAX_VAR_IDX,
        ensures
            l.var_index() == idx,
            !l.is_neg(),
    {
        Lit::new(idx, false)
    }

    /// The negative literal of the variable with index `idx`.
    pub fn negative(idx: u32) -> (l: Lit)
        requires
            idx <= MAX_VAR_IDX,
        ensures
            l.var_index() == idx,
            l.is_neg(),
    {
        Lit::new(idx, true)
    }

    /// The variable of the literal.
    pub fn var(&self) -> (v: Var)
        ensures
            v.index() == self.var_index(),
    {
        Var::new(self.lidx / 2)
    }

    /// Whether the literal is negated.
    pub fn is_negated(&self) -> (b: bool)
        ensures
            b == self.is_neg(),
    {
        self.lidx % 2 == 1
    }

    /// The negation of the literal.
    pub fn negate(&self) -> (l: Lit)
        ensures
            l.var_index() == self.var_index(),
            l.is_neg() == !self.is_neg(),
            l == self.spec_negate(),
    {
        let r = if self.lidx % 2 == 1 {
            Lit { lidx: self.lidx - 1 }
        } else {
            Lit { lidx: self.lidx + 1 }
        };
        proof {
            Lit::lemma_exists(self.var_index(), !self.is_neg());
        }
        r
    }
}

} // verus!
