//! Clause collections, the variable manager and satisfiability instances.

use vstd::prelude::*;
use crate::types::{Lit, Var, MAX_VAR_IDX};
use crate::types::constraints::{CardConstraint, PBConstraint};
use crate::encodings::pb::bounds::{pb_vars, encode_pb_constraint};
use crate::encodings::pb::semantics::total_weight;
use crate::encodings::card::{
    card_vars, encode_cardinality_constraint, lemma_cnf_sat_prefix, lemma_count_true_agree, lemma_true_weight_agree,
};

verus! {

/// Whether `l` holds under the assignment `sigma` of variable indices to values.
pub open spec fn lit_true(sigma: spec_fn(nat) -> bool, l: Lit) -> bool {
    sigma(l.var_index()) != l.is_neg()
}

/// Whether some literal of `c` holds under `sigma`.
pub open spec fn clause_sat(sigma: spec_fn(nat) -> bool, c: Seq<Lit>) -> bool {
    exists|i: int| 0 <= i < c.len() && lit_true(sigma, #[trigger] c[i])
}

/// Whether every clause of `cnf` holds under `sigma`.
pub open spec fn cnf_sat(sigma: spec_fn(nat) -> bool, cnf: Seq<Seq<Lit>>) -> bool {
    forall|i: int| 0 <= i < cnf.len() ==> clause_sat(sigma, #[trigger] cnf[i])
}

/// Whether `a` and `b` agree on every variable below `n`.
pub open spec fn agrees_below(a: spec_fn(nat) -> bool, b: spec_fn(nat) -> bool, n: nat) -> bool {
    forall|v: nat| v < n ==> #[trigger] a(v) == b(v)
}

/// Whether `sigma` can be changed on the variables from `lo` on into an
/// assignment `w` such that every assignment that agrees with `w` below `hi`
/// satisfies `cnf`.
pub open spec fn completable(sigma: spec_fn(nat) -> bool, cnf: Seq<Seq<Lit>>, lo: nat, hi: nat) -> bool {
    exists|w: spec_fn(nat) -> bool|
        #[trigger] agrees_below(w, sigma, lo) && forall|w2: spec_fn(nat) -> bool|
            #[trigger] agrees_below(w2, w, hi) ==> cnf_sat(w2, cnf)
}

/// Nothing needs to change to satisfy no clauses.
pub proof fn lemma_completable_empty(sigma: spec_fn(nat) -> bool, lo: nat, hi: nat)
    ensures
        completable(sigma, Seq::<Seq<Lit>>::empty(), lo, hi),
{
    assert(agrees_below(sigma, sigma, lo));
}

/// Satisfying one set of clauses by a change from `lo` on, and then a
/// second set by a further change from `mid` on, satisfies both.
pub proof fn lemma_completable_concat(
    sigma: spec_fn(nat) -> bool,
    w1: spec_fn(nat) -> bool,
    a: Seq<Seq<Lit>>,
    b: Seq<Seq<Lit>>,
    lo: nat,
    mid: nat,
    hi: nat,
)
    requires
        lo <= mid <= hi,
        agrees_below(w1, sigma, lo),
        forall|w2: spec_fn(nat) -> bool| #[trigger] agrees_below(w2, w1, mid) ==> cnf_sat(w2, a),
        completable(w1, b, mid, hi),
    ensures
        completable(sigma, a + b, lo, hi),
{
    let w = choose|w: spec_fn(nat) -> bool|
        #[trigger] agrees_below(w, w1, mid) && forall|w2: spec_fn(nat) -> bool|
            #[trigger] agrees_below(w2, w, hi) ==> cnf_sat(w2, b);
    assert(agrees_below(w, sigma, lo)) by {
        assert forall|v: nat| v < lo implies #[trigger] w(v) == sigma(v) by {
            assert(w(v) == w1(v));
        }
    }
    assert forall|w2: spec_fn(nat) -> bool| #[trigger] agrees_below(w2, w, hi) implies cnf_sat(w2, a + b) by {
        assert(agrees_below(w2, w1, mid)) by {
            assert forall|v: nat| v < mid implies #[trigger] w2(v) == w1(v) by {
                assert(w2(v) == w(v));
                assert(w(v) == w1(v));
            }
        }
        assert(cnf_sat(w2, a));
        assert(cnf_sat(w2, b));
        assert forall|i: int| 0 <= i < (a + b).len() implies clause_sat(w2, #[trigger] (a + b)[i]) by {
            if i < a.len() {
                assert((a + b)[i] == a[i]);
            } else {
                assert((a + b)[i] == b[i - a.len()]);
            }
        }
    }
}

/// Whether every literal of `cnf` has a variable below `n`.
pub open spec fn cnf_vars_below(cnf: Seq<Seq<Lit>>, n: nat) -> bool {
    forall|i: int, j: int| 0 <= i < cnf.len() && 0 <= j < cnf[i].len() ==> (#[trigger] cnf[i][j]).var_index() < n
}

/// Clauses over variables below `n` hold under every assignment that
/// agrees below `n` with one that satisfies them.
pub proof fn lemma_cnf_sat_agree(a: spec_fn(nat) -> bool, b: spec_fn(nat) -> bool, cnf: Seq<Seq<Lit>>, n: nat)
    requires
        cnf_sat(a, cnf),
        cnf_vars_below(cnf, n),
        agrees_below(a, b, n),
    ensures
        cnf_sat(b, cnf),
{
    assert forall|i: int| 0 <= i < cnf.len() implies clause_sat(b, #[trigger] cnf[i]) by {
        assert(clause_sat(a, cnf[i]));
        let j = choose|j: int| 0 <= j < cnf[i].len() && lit_true(a, #[trigger] cnf[i][j]);
        assert(a(cnf[i][j].var_index()) == b(cnf[i][j].var_index()));
        assert(lit_true(b, cnf[i][j]));
    }
}

/// The unit clause of each literal of `lits`, in order.
pub open spec fn unit_cnf(lits: Seq<Lit>) -> Seq<Seq<Lit>> {
    lits.map_values(|a: Lit| seq![a])
}

/// The clause `a -> b`.
pub open spec fn impl_clause(a: Lit, b: Lit) -> Seq<Lit> {
    seq![a.spec_negate(), b]
}

/// The clause `a & b -> c`.
pub open spec fn cube_impl_clause(a: Lit, b: Lit, c: Lit) -> Seq<Lit> {
    seq![a.spec_negate(), b.spec_negate(), c]
}

/// A disjunction of literals.
#[derive(Debug)]
pub struct Clause {
    lits: Vec<Lit>,
}

impl View for Clause {
    type V = Seq<Lit>;

    closed spec fn view(&self) -> Seq<Lit> {
        self.lits@
    }
}

impl Clause {
    /// The literals of the clause, in order.
    pub fn lits(&self) -> (r: &Vec<Lit>)
        ensures
            r@ == self@,
    {
        &self.lits
    }

    /// The number of literals in the clause.
    pub fn len(&self) -> (n: usize)
        ensures
            n == self@.len(),
    {
        self.lits.len()
    }
}

/// A conjunction of clauses.
#[derive(Debug)]
pub struct CNF {
    clauses: Vec<Clause>,
}

impl View for CNF {
    type V = Seq<Seq<Lit>>;

    closed spec fn view(&self) -> Seq<Seq<Lit>> {
        Seq::new(self.clauses@.len(), |i: int| self.clauses@[i]@)
    }
}

impl CNF {
    /// The empty conjunction.
    pub fn new() -> (c: CNF)
        ensures
            c@ == Seq::<Seq<Lit>>::empty(),
    {
        let c = CNF { clauses: Vec::new() };
        assert(c@ =~= Seq::<Seq<Lit>>::empty());
        c
    }

    /// The number of clauses.
    pub fn n_clauses(&self) -> (n: usize)
        ensures
            n == self@.len(),
    {
        self.clauses.len()
    }

    /// The number of clauses.
    pub fn len(&self) -> (n: usize)
        ensures
            n == self@.len(),
    {
        self.clauses.len()
    }

    /// Whether there is no clause.
    pub fn is_empty(&self) -> (b: bool)
        ensures
            b == (self@.len() == 0),
    {
        self.clauses.len() == 0
    }

    /// The clause at position `i`.
    pub fn clause(&self, i: usize) -> (c: &Clause)
        requires
            i < self@.len(),
        ensures
            c@ == self@[i as int],
    {
        &self.clauses[i]
    }

    /// Appends the clause `a -> b`.
    pub fn add_lit_impl_lit(&mut self, a: Lit, b: Lit)
        ensures
            final(self)@ == old(self)@.push(impl_clause(a, b)),
    {
        let mut lits = Vec::new();
        lits.push(a.negate());
        lits.push(b);
        let c = Clause { lits };
        assert(c@ =~= impl_clause(a, b));
        self.clauses.push(c);
        assert(self@ =~= old(self)@.push(impl_clause(a, b)));
    }

    /// Appends the clause `a & b -> c`.
    pub fn add_cube_impl_lit(&mut self, a: Lit, b: Lit, c: Lit)
        ensures
            final(self)@ == old(self)@.push(cube_impl_clause(a, b, c)),
    {
        let mut lits = Vec::new();
        lits.push(a.negate());
        lits.push(b.negate());
        lits.push(c);
        let cl = Clause { lits };
        assert(cl@ =~= cube_impl_clause(a, b, c));
        self.clauses.push(cl);
        assert(self@ =~= old(self)@.push(cube_impl_clause(a, b, c)));
    }

    /// Appends the unit clause `l`.
    pub fn add_unit(&mut self, l: Lit)
        ensures
            final(self)@ == old(self)@.push(seq![l]),
    {
        let mut lits = Vec::new();
        lits.push(l);
        let c = Clause { lits };
        assert(c@ =~= seq![l]);
        self.clauses.push(c);
        assert(self@ =~= old(self)@.push(seq![l]));
    }

    /// Appends the clause made of `lits`.
    pub fn add_clause(&mut self, lits: Vec<Lit>)
        ensures
            final(self)@ == old(self)@.push(lits@),
    {
        let c = Clause { lits };
        self.clauses.push(c);
        assert(self@ =~= old(self)@.push(c@));
    }

    /// Appends the clauses of `other`, in order.
    pub fn extend(&mut self, other: CNF)
        ensures
            final(self)@ == old(self)@ + other@,
    {
        let mut other = other;
        let ghost o = other@;
        self.clauses.append(&mut other.clauses);
        assert(self@ =~= old(self)@ + o);
    }
}

/// Hands out fresh variables in increasing order of their indices.
#[derive(Debug)]
pub struct BasicVarManager {
    next_var: u32,
}

impl BasicVarManager {
    #[verifier::type_invariant]
    spec fn inv(self) -> bool {
        self.next_var <= MAX_VAR_IDX + 1
    }

    /// The index of the next variable to be handed out.
    pub closed spec fn next_idx(self) -> nat {
        self.next_var as nat
    }

    /// A manager that has handed out no variable yet.
    pub fn new() -> (vm: BasicVarManager)
        ensures
            vm.next_idx() == 0,
    {
        BasicVarManager { next_var: 0 }
    }

    /// The number of variables handed out so far.
    pub fn n_used(&self) -> (n: u32)
        ensures
            n == self.next_idx(),
            n <= MAX_VAR_IDX + 1,
    {
        proof {
            use_type_invariant(self);
        }
        self.next_var
    }

    /// Makes sure that `v` and all variables below it count as used.
    pub fn increase_next_free(&mut self, v: Var)
        ensures
            final(self).next_idx() == if old(self).next_idx() > v.index() {
                old(self).next_idx()
            } else {
                v.index() + 1
            },
        no_unwind
    {
        let i = v.idx();
        if self.next_var <= i {
            self.next_var = i + 1;
        }
    }

    /// Hands out the next free variable.
    pub fn next_free(&mut self) -> (v: Var)
        requires
            old(self).next_idx() <= MAX_VAR_IDX,
        ensures
            v.index() == old(self).next_idx(),
            final(self).next_idx() == old(self).next_idx() + 1,
    {
        let v = Var::new(self.next_var);
        self.next_var = self.next_var + 1;
        v
    }
}

/// The number of variables in use after marking the variables of `lits` as
/// used, starting from `n`.
pub open spec fn vars_after(n: nat, lits: Seq<Lit>) -> nat
    decreases lits.len(),
{
    if lits.len() == 0 {
        n
    } else {
        let m = vars_after(n, lits.drop_last());
        if m > lits.last().var_index() {
            m
        } else {
            lits.last().var_index() + 1
        }
    }
}

/// Marking variables as used never lowers the count, and counts each of them.
pub proof fn lemma_vars_after(n: nat, lits: Seq<Lit>)
    ensures
        n <= vars_after(n, lits),
        forall|i: int| 0 <= i < lits.len() ==> (#[trigger] lits[i]).var_index() < vars_after(n, lits),
    decreases lits.len(),
{
    if lits.len() > 0 {
        lemma_vars_after(n, lits.drop_last());
        assert forall|i: int| 0 <= i < lits.len() implies (#[trigger] lits[i]).var_index() < vars_after(n, lits) by {
            if i < lits.len() - 1 {
                assert(lits.drop_last()[i] == lits[i]);
            }
        }
    }
}

/// The number of fresh variables that encoding the constraints `cs` takes.
pub open spec fn cards_vars(cs: Seq<CardConstraint>) -> nat
    decreases cs.len(),
{
    if cs.len() == 0 {
        0
    } else {
        cards_vars(cs.drop_last()) + card_vars(cs.last())
    }
}

/// Encoding a prefix of the constraints takes no more variables than all.
pub proof fn lemma_cards_vars_prefix(cs: Seq<CardConstraint>, i: int)
    requires
        0 <= i <= cs.len(),
    ensures
        cards_vars(cs.take(i)) <= cards_vars(cs),
    decreases cs.len(),
{
    if i < cs.len() {
        assert(cs.drop_last().take(i) =~= cs.take(i));
        lemma_cards_vars_prefix(cs.drop_last(), i);
    } else {
        assert(cs.take(i) =~= cs);
    }
}

/// Whether every literal of every constraint of `cs` has a variable below `n`.
pub open spec fn cards_vars_below(cs: Seq<CardConstraint>, n: nat) -> bool {
    forall|i: int, j: int|
        0 <= i < cs.len() && 0 <= j < cs[i].lits_view().len() ==> (#[trigger] cs[i].lits_view()[j]).var_index() < n
}

/// The literals of the weighted literals `s`, in order.
pub open spec fn weighted_lits(s: Seq<(Lit, usize)>) -> Seq<Lit> {
    s.map_values(|e: (Lit, usize)| e.0)
}

/// The number of fresh variables that encoding the constraints `cs` takes.
pub open spec fn pbs_vars(cs: Seq<PBConstraint>) -> nat
    decreases cs.len(),
{
    if cs.len() == 0 {
        0
    } else {
        pbs_vars(cs.drop_last()) + pb_vars(cs.last())
    }
}

/// Encoding a prefix of the constraints takes no more variables than all.
pub proof fn lemma_pbs_vars_prefix(cs: Seq<PBConstraint>, i: int)
    requires
        0 <= i <= cs.len(),
    ensures
        pbs_vars(cs.take(i)) <= pbs_vars(cs),
    decreases cs.len(),
{
    if i < cs.len() {
        assert(cs.drop_last().take(i) =~= cs.take(i));
        lemma_pbs_vars_prefix(cs.drop_last(), i);
    } else {
        assert(cs.take(i) =~= cs);
    }
}

/// Whether every literal of every constraint of `cs` has a variable below `n`.
pub open spec fn pbs_vars_below(cs: Seq<PBConstraint>, n: nat) -> bool {
    forall|i: int, j: int|
        0 <= i < cs.len() && 0 <= j < cs[i].lits_view().len() ==> (#[trigger] cs[i].lits_view()[j]).0.var_index() < n
}

/// A satisfiability instance: clauses, cardinality and pseudo-Boolean
/// constraints over variables handed out by a variable manager.
#[derive(Debug)]
pub struct SatInstance {
    cnf: CNF,
    cards: Vec<CardConstraint>,
    pbs: Vec<PBConstraint>,
    var_manager: BasicVarManager,
}

impl SatInstance {
    /// Every variable of the clauses and constraints counts as used.
    #[verifier::type_invariant]
    spec fn inv(self) -> bool {
        &&& cnf_vars_below(self.cnf@, self.var_manager.next_idx())
        &&& cards_vars_below(self.cards@, self.var_manager.next_idx())
        &&& pbs_vars_below(self.pbs@, self.var_manager.next_idx())
    }

    /// The clauses of the instance, in order.
    pub closed spec fn clauses(self) -> Seq<Seq<Lit>> {
        self.cnf@
    }

    /// The cardinality constraints of the instance, in order.
    pub closed spec fn card_constrs(self) -> Seq<CardConstraint> {
        self.cards@
    }

    /// The pseudo-Boolean constraints of the instance, in order.
    pub closed spec fn pb_constrs(self) -> Seq<PBConstraint> {
        self.pbs@
    }

    /// The number of variables in use.
    pub closed spec fn n_vars(self) -> nat {
        self.var_manager.next_idx()
    }

    /// Whether every constraint is small enough to encode: twice its
    /// number of literals, or twice its total weight, fits in `usize`.
    pub open spec fn encodable(self) -> bool {
        &&& forall|i: int| 0 <= i < self.card_constrs().len() ==> 2 * (#[trigger] self.card_constrs()[i]).lits_view().len()
            <= usize::MAX
        &&& forall|i: int| 0 <= i < self.pb_constrs().len() ==> 2 * total_weight(
            (#[trigger] self.pb_constrs()[i]).lits_view(),
        ) <= usize::MAX
    }

    /// Whether `sigma` satisfies every clause and every constraint.
    pub open spec fn satisfied_by(self, sigma: spec_fn(nat) -> bool) -> bool {
        &&& cnf_sat(sigma, self.clauses())
        &&& forall|i: int| 0 <= i < self.card_constrs().len() ==> (#[trigger] self.card_constrs()[i]).satisfied(sigma)
        &&& forall|i: int| 0 <= i < self.pb_constrs().len() ==> (#[trigger] self.pb_constrs()[i]).satisfied(sigma)
    }

    /// The empty instance.
    pub fn new() -> (inst: SatInstance)
        ensures
            inst.clauses() == Seq::<Seq<Lit>>::empty(),
            inst.card_constrs() == Seq::<CardConstraint>::empty(),
            inst.pb_constrs() == Seq::<PBConstraint>::empty(),
            inst.n_vars() == 0,
    {
        let cnf = CNF::new();
        let cards: Vec<CardConstraint> = Vec::new();
        let pbs: Vec<PBConstraint> = Vec::new();
        SatInstance { cnf, cards, pbs, var_manager: BasicVarManager::new() }
    }

    /// Marks the variables of `lits` as used.
    fn use_vars(&mut self, lits: &Vec<Lit>)
        ensures
            final(self).n_vars() == vars_after(old(self).n_vars(), lits@),
            final(self).cnf@ == old(self).cnf@,
            final(self).cards@ == old(self).cards@,
            final(self).pbs@ == old(self).pbs@,
    {
        proof {
            use_type_invariant(&*self);
        }
        let mut i: usize = 0;
        while i < lits.len()
            invariant
                i <= lits@.len(),
                self.var_manager.next_idx() == vars_after(old(self).n_vars(), lits@.take(i as int)),
                old(self).n_vars() <= self.var_manager.next_idx(),
                self.cnf@ == old(self).cnf@,
                self.cards@ == old(self).cards@,
                self.pbs@ == old(self).pbs@,
                cnf_vars_below(old(self).cnf@, old(self).n_vars()),
                cards_vars_below(old(self).cards@, old(self).n_vars()),
                pbs_vars_below(old(self).pbs@, old(self).n_vars()),
            decreases lits@.len() - i,
        {
            self.var_manager.increase_next_free(lits[i].var());
            proof {
                assert(lits@.take(i + 1).drop_last() =~= lits@.take(i as int));
            }
            i = i + 1;
        }
        proof {
            assert(lits@.take(lits@.len() as int) =~= lits@);
        }
    }

    /// Marks the variables of the weighted literals `lits` as used.
    fn use_weighted_vars(&mut self, lits: &Vec<(Lit, usize)>)
        ensures
            final(self).n_vars() == vars_after(old(self).n_vars(), weighted_lits(lits@)),
            final(self).cnf@ == old(self).cnf@,
            final(self).cards@ == old(self).cards@,
            final(self).pbs@ == old(self).pbs@,
    {
        proof {
            use_type_invariant(&*self);
        }
        let mut i: usize = 0;
        while i < lits.len()
            invariant
                i <= lits@.len(),
                self.var_manager.next_idx() == vars_after(old(self).n_vars(), weighted_lits(lits@.take(i as int))),
                old(self).n_vars() <= self.var_manager.next_idx(),
                self.cnf@ == old(self).cnf@,
                self.cards@ == old(self).cards@,
                self.pbs@ == old(self).pbs@,
                cnf_vars_below(old(self).cnf@, old(self).n_vars()),
                cards_vars_below(old(self).cards@, old(self).n_vars()),
                pbs_vars_below(old(self).pbs@, old(self).n_vars()),
            decreases lits@.len() - i,
        {
            self.var_manager.increase_next_free(lits[i].0.var());
            proof {
                assert(weighted_lits(lits@.take(i + 1)).drop_last() =~= weighted_lits(lits@.take(i as int)));
            }
            i = i + 1;
        }
        proof {
            assert(lits@.take(lits@.len() as int) =~= lits@);
        }
    }

    /// Adds the clause made of `lits` and marks its variables as used.
    pub fn add_clause(&mut self, lits: Vec<Lit>)
        ensures
            final(self).clauses() == old(self).clauses().push(lits@),
            final(self).card_constrs() == old(self).card_constrs(),
            final(self).pb_constrs() == old(self).pb_constrs(),
            final(self).n_vars() == vars_after(old(self).n_vars(), lits@),
    {
        self.use_vars(&lits);
        proof {
            use_type_invariant(&*self);
            lemma_vars_after(old(self).n_vars(), lits@);
        }
        let mut cnf = CNF::new();
        std::mem::swap(&mut cnf, &mut self.cnf);
        cnf.add_clause(lits);
        self.cnf = cnf;
    }

    /// Adds the cardinality constraint `c` and marks its variables as used.
    pub fn add_card_constr(&mut self, c: CardConstraint)
        ensures
            final(self).clauses() == old(self).clauses(),
            final(self).card_constrs() == old(self).card_constrs().push(c),
            final(self).pb_constrs() == old(self).pb_constrs(),
            final(self).n_vars() == vars_after(old(self).n_vars(), c.lits_view()),
    {
        self.use_vars(c.lits());
        proof {
            use_type_invariant(&*self);
            lemma_vars_after(old(self).n_vars(), c.lits_view());
        }
        let mut cards: Vec<CardConstraint> = Vec::new();
        std::mem::swap(&mut cards, &mut self.cards);
        cards.push(c);
        self.cards = cards;
    }

    /// Adds the pseudo-Boolean constraint `c` and marks its variables as used.
    pub fn add_pb_constr(&mut self, c: PBConstraint)
        ensures
            final(self).clauses() == old(self).clauses(),
            final(self).card_constrs() == old(self).card_constrs(),
            final(self).pb_constrs() == old(self).pb_constrs().push(c),
            final(self).n_vars() == vars_after(old(self).n_vars(), weighted_lits(c.lits_view())),
    {
        self.use_weighted_vars(c.lits());
        proof {
            use_type_invariant(&*self);
            lemma_vars_after(old(self).n_vars(), weighted_lits(c.lits_view()));
            assert forall|j: int| 0 <= j < c.lits_view().len() implies (#[trigger] c.lits_view()[j]).0.var_index()
                < self.var_manager.next_idx() by {
                assert(weighted_lits(c.lits_view())[j] == c.lits_view()[j].0);
            }
        }
        let mut pbs: Vec<PBConstraint> = Vec::new();
        std::mem::swap(&mut pbs, &mut self.pbs);
        pbs.push(c);
        self.pbs = pbs;
    }

    /// The number of clauses.
    pub fn n_clauses(&self) -> (n: usize)
        ensures
            n == self.clauses().len(),
    {
        self.cnf.len()
    }

    /// The number of cardinality constraints.
    pub fn n_card_constrs(&self) -> (n: usize)
        ensures
            n == self.card_constrs().len(),
    {
        self.cards.len()
    }

    /// The number of pseudo-Boolean constraints.
    pub fn n_pb_constrs(&self) -> (n: usize)
        ensures
            n == self.pb_constrs().len(),
    {
        self.pbs.len()
    }

    /// Converts the instance to clauses: its own clauses, followed by the
    /// encodings of its cardinality constraints and then of its
    /// pseudo-Boolean constraints, each in order, with the variable manager
    /// that handed out the encodings' fresh variables. Every assignment that
    /// satisfies the result satisfies the instance, and every assignment that
    /// satisfies the instance can be changed on the fresh variables alone into
    /// one that satisfies the result.
    pub fn as_cnf(self) -> (r: (CNF, BasicVarManager))
        requires
            self.encodable(),
            self.n_vars() + cards_vars(self.card_constrs()) + pbs_vars(self.pb_constrs()) <= MAX_VAR_IDX + 1,
        ensures
            r.0@.len() >= self.clauses().len(),
            r.0@.take(self.clauses().len() as int) == self.clauses(),
            r.1.next_idx() == self.n_vars() + cards_vars(self.card_constrs()) + pbs_vars(self.pb_constrs()),
            forall|sigma: spec_fn(nat) -> bool| #[trigger] cnf_sat(sigma, r.0@) ==> self.satisfied_by(sigma),
            forall|sigma: spec_fn(nat) -> bool| #[trigger] self.satisfied_by(sigma) ==> exists|w: spec_fn(nat) -> bool|
                #[trigger] agrees_below(w, sigma, self.n_vars()) && cnf_sat(w, r.0@),
    {
        proof {
            use_type_invariant(&self);
        }
        let ghost inst = self;
        let SatInstance { cnf, cards, pbs, var_manager } = self;
        let mut cnf = cnf;
        let mut var_manager = var_manager;
        let ghost c0 = cnf@;
        let ghost cs = cards@;
        let ghost ps = pbs@;
        let ghost n0 = var_manager.next_idx();
        proof {
            assert(cnf@.skip(c0.len() as int) =~= Seq::<Seq<Lit>>::empty());
            assert forall|sigma: spec_fn(nat) -> bool| #[trigger] inst.satisfied_by(sigma) implies completable(
                sigma,
                cnf@.skip(c0.len() as int),
                n0,
                n0,
            ) by {
                lemma_completable_empty(sigma, n0, n0);
            }
        }
        let mut i: usize = 0;
        while i < cards.len()
            invariant
                i <= cs.len(),
                cards@ == cs,
                cs == inst.card_constrs(),
                ps == inst.pb_constrs(),
                c0 == inst.clauses(),
                n0 == inst.n_vars(),
                inst.encodable(),
                cards_vars_below(cs, n0),
                n0 + cards_vars(cs) + pbs_vars(ps) <= MAX_VAR_IDX + 1,
                var_manager.next_idx() == n0 + cards_vars(cs.take(i as int)),
                cnf@.len() >= c0.len(),
                cnf@.take(c0.len() as int) == c0,
                forall|sigma: spec_fn(nat) -> bool| #[trigger] cnf_sat(sigma, cnf@) ==> forall|j: int|
                    0 <= j < i ==> (#[trigger] cs[j]).satisfied(sigma),
                forall|sigma: spec_fn(nat) -> bool| #[trigger] inst.satisfied_by(sigma) ==> completable(
                    sigma,
                    cnf@.skip(c0.len() as int),
                    n0,
                    var_manager.next_idx(),
                ),
            decreases cs.len() - i,
        {
            let ghost prev = cnf@;
            let ghost vprev = var_manager.next_idx();
            proof {
                assert(cs.take(i + 1).drop_last() =~= cs.take(i as int));
                lemma_cards_vars_prefix(cs, i + 1);
                assert(2 * cs[i as int].lits_view().len() <= usize::MAX);
            }
            encode_cardinality_constraint(&cards[i], &mut cnf, &mut var_manager);
            proof {
                assert(cnf@.take(c0.len() as int) =~= prev.take(c0.len() as int));
                assert forall|sigma: spec_fn(nat) -> bool| #[trigger] cnf_sat(sigma, cnf@) implies forall|j: int|
                    0 <= j < i + 1 ==> (#[trigger] cs[j]).satisfied(sigma) by {
                    lemma_cnf_sat_prefix(sigma, cnf@, prev.len() as int);
                    assert(cnf@.take(prev.len() as int) == prev);
                }
                let c = cs[i as int];
                let a = prev.skip(c0.len() as int);
                let b = cnf@.skip(prev.len() as int);
                assert(cnf@.skip(c0.len() as int) =~= a + b);
                assert forall|j: int| 0 <= j < c.lits_view().len() implies (#[trigger] c.lits_view()[j]).var_index()
                    < vprev by {
                    assert(cs[i as int].lits_view()[j].var_index() < n0);
                }
                assert forall|sigma: spec_fn(nat) -> bool| #[trigger] inst.satisfied_by(sigma) implies completable(
                    sigma,
                    cnf@.skip(c0.len() as int),
                    n0,
                    var_manager.next_idx(),
                ) by {
                    assert(completable(sigma, a, n0, vprev));
                    let w1 = choose|w: spec_fn(nat) -> bool|
                        #[trigger] agrees_below(w, sigma, n0) && forall|w2: spec_fn(nat) -> bool|
                            #[trigger] agrees_below(w2, w, vprev) ==> cnf_sat(w2, a);
                    assert forall|j: int| 0 <= j < c.lits_view().len() implies (#[trigger] c.lits_view()[j]).var_index()
                        < n0 by {
                        assert(cs[i as int].lits_view()[j].var_index() < n0);
                    }
                    lemma_count_true_agree(c.lits_view(), w1, sigma, n0);
                    assert(c.satisfied(sigma));
                    assert(c.satisfied(w1));
                    assert(completable(w1, b, vprev, var_manager.next_idx()));
                    lemma_completable_concat(sigma, w1, a, b, n0, vprev, var_manager.next_idx());
                }
            }
            i = i + 1;
        }
        proof {
            assert(cs.take(cs.len() as int) =~= cs);
        }
        let ghost nc = n0 + cards_vars(cs);
        let mut k: usize = 0;
        while k < pbs.len()
            invariant
                k <= ps.len(),
                pbs@ == ps,
                cs == inst.card_constrs(),
                ps == inst.pb_constrs(),
                c0 == inst.clauses(),
                n0 == inst.n_vars(),
                nc == n0 + cards_vars(cs),
                inst.encodable(),
                pbs_vars_below(ps, n0),
                n0 + cards_vars(cs) + pbs_vars(ps) <= MAX_VAR_IDX + 1,
                var_manager.next_idx() == nc + pbs_vars(ps.take(k as int)),
                cnf@.len() >= c0.len(),
                cnf@.take(c0.len() as int) == c0,
                forall|sigma: spec_fn(nat) -> bool| #[trigger] cnf_sat(sigma, cnf@) ==> forall|j: int|
                    0 <= j < cs.len() ==> (#[trigger] cs[j]).satisfied(sigma),
                forall|sigma: spec_fn(nat) -> bool| #[trigger] cnf_sat(sigma, cnf@) ==> forall|j: int|
                    0 <= j < k ==> (#[trigger] ps[j]).satisfied(sigma),
                forall|sigma: spec_fn(nat) -> bool| #[trigger] inst.satisfied_by(sigma) ==> completable(
                    sigma,
                    cnf@.skip(c0.len() as int),
                    n0,
                    var_manager.next_idx(),
                ),
            decreases ps.len() - k,
        {
            let ghost prev = cnf@;
            let ghost vprev = var_manager.next_idx();
            proof {
                assert(ps.take(k + 1).drop_last() =~= ps.take(k as int));
                lemma_pbs_vars_prefix(ps, k + 1);
                assert(2 * total_weight(ps[k as int].lits_view()) <= usize::MAX);
            }
            encode_pb_constraint(&pbs[k], &mut cnf, &mut var_manager);
            proof {
                assert(cnf@.take(c0.len() as int) =~= prev.take(c0.len() as int));
                assert forall|sigma: spec_fn(nat) -> bool| #[trigger] cnf_sat(sigma, cnf@) implies {
                    &&& forall|j: int| 0 <= j < cs.len() ==> (#[trigger] cs[j]).satisfied(sigma)
                    &&& forall|j: int| 0 <= j < k + 1 ==> (#[trigger] ps[j]).satisfied(sigma)
                } by {
                    lemma_cnf_sat_prefix(sigma, cnf@, prev.len() as int);
                    assert(cnf@.take(prev.len() as int) == prev);
                }
                let c = ps[k as int];
                let a = prev.skip(c0.len() as int);
                let b = cnf@.skip(prev.len() as int);
                assert(cnf@.skip(c0.len() as int) =~= a + b);
                assert forall|j: int| 0 <= j < c.lits_view().len() implies (#[trigger] c.lits_view()[j]).0.var_index()
                    < n0 by {
                    assert(ps[k as int].lits_view()[j].0.var_index() < n0);
                }
                assert forall|sigma: spec_fn(nat) -> bool| #[trigger] inst.satisfied_by(sigma) implies completable(
                    sigma,
                    cnf@.skip(c0.len() as int),
                    n0,
                    var_manager.next_idx(),
                ) by {
                    assert(completable(sigma, a, n0, vprev));
                    let w1 = choose|w: spec_fn(nat) -> bool|
                        #[trigger] agrees_below(w, sigma, n0) && forall|w2: spec_fn(nat) -> bool|
                            #[trigger] agrees_below(w2, w, vprev) ==> cnf_sat(w2, a);
                    lemma_true_weight_agree(c.lits_view(), w1, sigma, n0);
                    assert(c.satisfied(sigma));
                    assert(c.satisfied(w1));
                    assert(completable(w1, b, vprev, var_manager.next_idx()));
                    lemma_completable_concat(sigma, w1, a, b, n0, vprev, var_manager.next_idx());
                }
            }
            k = k + 1;
        }
        proof {
            assert(ps.take(ps.len() as int) =~= ps);
            assert forall|sigma: spec_fn(nat) -> bool| #[trigger] cnf_sat(sigma, cnf@) implies inst.satisfied_by(sigma) by {
                lemma_cnf_sat_prefix(sigma, cnf@, c0.len() as int);
            }
            let hi = var_manager.next_idx();
            assert forall|sigma: spec_fn(nat) -> bool| #[trigger] inst.satisfied_by(sigma) implies exists|
                w: spec_fn(nat) -> bool,
            | #[trigger] agrees_below(w, sigma, n0) && cnf_sat(w, cnf@) by {
                let rest = cnf@.skip(c0.len() as int);
                assert(completable(sigma, rest, n0, hi));
                let w = choose|w: spec_fn(nat) -> bool|
                    #[trigger] agrees_below(w, sigma, n0) && forall|w2: spec_fn(nat) -> bool|
                        #[trigger] agrees_below(w2, w, hi) ==> cnf_sat(w2, rest);
                assert(agrees_below(w, w, hi));
                assert(cnf_sat(w, rest));
                assert(agrees_below(sigma, w, n0));
                lemma_cnf_sat_agree(sigma, w, c0, n0);
                assert(cnf@ =~= c0 + rest);
                crate::encodings::pb::witness::lemma_cnf_sat_join(w, c0, rest);
            }
        }
        (cnf, var_manager)
    }
}

} // verus!
