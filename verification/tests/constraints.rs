use rustsat::encodings::pb::gte::GeneralizedTotalizer;
use rustsat::encodings::BoundType;
use rustsat::instances::{BasicVarManager, SatInstance, CNF};
use rustsat::maps::LitWeights;
use rustsat::solvers::SolverResult;
use rustsat::types::constraints::{CardConstraint, PBConstraint};
use std::collections::HashMap;
use rustsat::types::Lit;

fn lit(idx: u32) -> Lit {
    Lit::positive(idx)
}

fn neg(idx: u32) -> Lit {
    Lit::negative(idx)
}

/// A small complete solver: the clauses of a CNF as (variable, negated)
/// pairs, decided by DPLL under unit assumptions.
struct TestSolver {
    clauses: Vec<Vec<(usize, bool)>>,
    n_vars: usize,
}

impl TestSolver {
    fn new() -> Self {
        TestSolver { clauses: Vec::new(), n_vars: 0 }
    }

    fn add_lits(&mut self, lits: &[Lit]) {
        let mut clause = Vec::new();
        for l in lits {
            let v = l.var().idx() as usize;
            if v + 1 > self.n_vars {
                self.n_vars = v + 1;
            }
            clause.push((v, l.is_negated()));
        }
        self.clauses.push(clause);
    }

    fn add_cnf(&mut self, cnf: CNF) {
        for i in 0..cnf.n_clauses() {
            self.add_lits(cnf.clause(i).lits());
        }
    }

    fn solve_assumps(&self, assumps: Vec<Lit>) -> Result<SolverResult, ()> {
        let mut clauses = self.clauses.clone();
        let mut n_vars = self.n_vars;
        for a in &assumps {
            let v = a.var().idx() as usize;
            if v + 1 > n_vars {
                n_vars = v + 1;
            }
            clauses.push(vec![(v, a.is_negated())]);
        }
        let mut assignment = vec![None; n_vars];
        if dpll(&clauses, &mut assignment) {
            Ok(SolverResult::SAT)
        } else {
            Ok(SolverResult::UNSAT)
        }
    }
}

fn lit_value(assignment: &[Option<bool>], (v, negated): (usize, bool)) -> Option<bool> {
    assignment[v].map(|b| b != negated)
}

fn dpll(clauses: &[Vec<(usize, bool)>], assignment: &mut Vec<Option<bool>>) -> bool {
    let saved = assignment.clone();
    loop {
        let mut changed = false;
        for clause in clauses {
            let mut satisfied = false;
            let mut open = Vec::new();
            for &l in clause {
                match lit_value(assignment, l) {
                    Some(true) => satisfied = true,
                    Some(false) => {}
                    None => open.push(l),
                }
            }
            if satisfied {
                continue;
            }
            if open.is_empty() {
                *assignment = saved;
                return false;
            }
            if open.len() == 1 {
                let (v, negated) = open[0];
                assignment[v] = Some(!negated);
                changed = true;
            }
        }
        if !changed {
            break;
        }
    }
    match assignment.iter().position(|a| a.is_none()) {
        None => true,
        Some(v) => {
            for value in [true, false] {
                let before = assignment.clone();
                assignment[v] = Some(value);
                if dpll(clauses, assignment) {
                    return true;
                }
                *assignment = before;
            }
            *assignment = saved;
            false
        }
    }
}

fn test_card(constr: CardConstraint, sat_assump: Vec<Lit>, unsat_assump: Vec<Lit>) {
    let mut inst: SatInstance = SatInstance::new();
    inst.add_card_constr(constr);
    let (cnf, _) = inst.as_cnf();
    println!("{:?}", cnf);
    let mut solver = TestSolver::new();
    solver.add_cnf(cnf);
    assert_eq!(solver.solve_assumps(sat_assump).unwrap(), SolverResult::SAT);
    assert_eq!(solver.solve_assumps(unsat_assump).unwrap(), SolverResult::UNSAT);
}

#[test]
fn card_ub() {
    let lits = vec![lit(0), lit(1), lit(2)];
    test_card(
        CardConstraint::new_ub(lits.clone(), 1),
        vec![neg(0), lit(1), neg(2)],
        vec![lit(0), lit(1), neg(2)],
    );
    test_card(
        CardConstraint::new_ub(lits.clone(), 2),
        vec![lit(0), lit(1), neg(2)],
        vec![lit(0), lit(1), lit(2)],
    );
}

#[test]
fn card_lb() {
    let lits = vec![lit(0), lit(1), lit(2)];
    test_card(
        CardConstraint::new_lb(lits.clone(), 1),
        vec![lit(0), lit(1), neg(2)],
        vec![neg(0), neg(1), neg(2)],
    );
    test_card(
        CardConstraint::new_lb(lits.clone(), 2),
        vec![lit(0), lit(1), neg(2)],
        vec![neg(0), neg(1), neg(2)],
    );
    test_card(
        CardConstraint::new_lb(lits.clone(), 3),
        vec![lit(0), lit(1), lit(2)],
        vec![neg(0), lit(1), neg(2)],
    );
}

#[test]
fn card_eq() {
    let lits = vec![lit(0), lit(1), lit(2)];
    test_card(
        CardConstraint::new_eq(lits.clone(), 1),
        vec![lit(0), neg(1), neg(2)],
        vec![neg(0), lit(1), lit(2)],
    );
    test_card(
        CardConstraint::new_eq(lits.clone(), 2),
        vec![lit(0), lit(1), neg(2)],
        vec![neg(0), neg(1), neg(2)],
    );
    test_card(
        CardConstraint::new_eq(lits.clone(), 3),
        vec![lit(0), lit(1), lit(2)],
        vec![neg(0), lit(1), neg(2)],
    );
}

fn test_pb(constr: PBConstraint, sat_assump: Vec<Lit>, unsat_assump: Vec<Lit>) {
    let mut inst: SatInstance = SatInstance::new();
    inst.add_pb_constr(constr);
    let (cnf, _) = inst.as_cnf();
    println!("{:?}", cnf);
    let mut solver = TestSolver::new();
    solver.add_cnf(cnf);
    assert_eq!(solver.solve_assumps(sat_assump).unwrap(), SolverResult::SAT);
    assert_eq!(solver.solve_assumps(unsat_assump).unwrap(), SolverResult::UNSAT);
}

fn weighted(lits: &HashMap<Lit, usize>) -> Vec<(Lit, usize)> {
    lits.iter().map(|(l, w)| (*l, *w)).collect()
}

#[test]
fn pb_ub() {
    let mut lits = HashMap::new();
    lits.insert(lit(0), 1);
    lits.insert(lit(1), 2);
    lits.insert(lit(2), 3);
    test_pb(
        PBConstraint::new_eq(weighted(&lits), 1),
        vec![lit(0), neg(1), neg(2)],
        vec![neg(0), lit(1), neg(2)],
    );
    test_pb(
        PBConstraint::new_eq(weighted(&lits), 2),
        vec![neg(0), lit(1), neg(2)],
        vec![neg(0), neg(1), lit(2)],
    );
    test_pb(
        PBConstraint::new_eq(weighted(&lits), 3),
        vec![neg(0), neg(1), lit(2)],
        vec![lit(0), neg(1), lit(2)],
    );
}

#[test]
fn pb_lb() {
    let mut lits = HashMap::new();
    lits.insert(lit(0), 1);
    lits.insert(lit(1), 2);
    lits.insert(lit(2), 3);
    test_pb(
        PBConstraint::new_lb(weighted(&lits), 1),
        vec![lit(0), lit(1), neg(2)],
        vec![neg(0), neg(1), neg(2)],
    );
    test_pb(
        PBConstraint::new_lb(weighted(&lits), 2),
        vec![lit(0), lit(1), neg(2)],
        vec![lit(0), neg(1), neg(2)],
    );
    test_pb(
        PBConstraint::new_lb(weighted(&lits), 3),
        vec![neg(0), neg(1), lit(2)],
        vec![neg(0), lit(1), neg(2)],
    );
}

#[test]
fn pb_eq() {
    let mut lits = HashMap::new();
    lits.insert(lit(0), 1);
    lits.insert(lit(1), 2);
    lits.insert(lit(2), 3);
    test_pb(
        PBConstraint::new_eq(weighted(&lits), 1),
        vec![lit(0), neg(1), neg(2)],
        vec![neg(0), lit(1), lit(2)],
    );
    test_pb(
        PBConstraint::new_eq(weighted(&lits), 2),
        vec![neg(0), lit(1), neg(2)],
        vec![neg(0), neg(1), neg(2)],
    );
    test_pb(
        PBConstraint::new_eq(weighted(&lits), 3),
        vec![neg(0), neg(1), lit(2)],
        vec![neg(0), lit(1), neg(2)],
    );
}

#[test]
fn pb_ub_weighted_upper_bound() {
    let lits = vec![(lit(0), 1), (lit(1), 2), (lit(2), 3)];
    test_pb(
        PBConstraint::new_ub(lits.clone(), 3),
        vec![lit(0), lit(1), neg(2)],
        vec![lit(0), neg(1), lit(2)],
    );
    test_pb(
        PBConstraint::new_ub(lits.clone(), 5),
        vec![neg(0), lit(1), lit(2)],
        vec![lit(0), lit(1), lit(2)],
    );
}

#[test]
fn pb_repeated_and_zero_weights() {
    // the literal 0 occurs twice, so it weighs 3; the literal 1 weighs nothing
    let lits = vec![(lit(0), 1), (lit(1), 0), (lit(0), 2), (lit(2), 2)];
    test_pb(
        PBConstraint::new_ub(lits.clone(), 2),
        vec![neg(0), lit(1), lit(2)],
        vec![lit(0), neg(1), neg(2)],
    );
    test_pb(
        PBConstraint::new_lb(lits.clone(), 3),
        vec![lit(0), neg(1), neg(2)],
        vec![neg(0), lit(1), lit(2)],
    );
}

#[test]
fn pb_lb_above_total_weight_is_unsat() {
    let lits = vec![(lit(0), 1), (lit(1), 2)];
    let mut inst: SatInstance = SatInstance::new();
    inst.add_pb_constr(PBConstraint::new_lb(lits, 4));
    let (cnf, _) = inst.as_cnf();
    let mut solver = TestSolver::new();
    solver.add_cnf(cnf);
    assert_eq!(solver.solve_assumps(vec![lit(0), lit(1)]).unwrap(), SolverResult::UNSAT);
}

fn solve_cnf_with(cnf: CNF, assumps: Vec<Lit>) -> SolverResult {
    let mut solver = TestSolver::new();
    solver.add_cnf(cnf);
    solver.solve_assumps(assumps).unwrap()
}

#[test]
fn gte_ub_bounds_unit_weights() {

    let mut gte = GeneralizedTotalizer::new(BoundType::UB).unwrap();
    let mut lits = LitWeights::new();
    for i in 0..4 {
        lits.insert(lit(i), 1);
    }
    gte.add(lits);
    let mut var_manager = BasicVarManager::new();
    var_manager.increase_next_free(lit(3).var());
    let cnf = gte.encode(0, 2, &mut var_manager);
    let assumps = gte.enforce_ub(2).unwrap();
    let mut solver = TestSolver::new();
    solver.add_cnf(cnf);
    // three true literals exceed the bound
    let mut a = assumps.clone();
    a.extend([lit(0), lit(1), lit(2)]);
    assert_eq!(solver.solve_assumps(a).unwrap(), SolverResult::UNSAT);
    // two true literals meet it
    let mut a = assumps.clone();
    a.extend([lit(0), lit(3), neg(1), neg(2)]);
    assert_eq!(solver.solve_assumps(a).unwrap(), SolverResult::SAT);
}

#[test]
fn gte_ub_complete_weighted() {

    let mut gte = GeneralizedTotalizer::new(BoundType::UB).unwrap();
    let mut lits = LitWeights::new();
    lits.insert(lit(0), 2);
    lits.insert(lit(1), 3);
    lits.insert(lit(2), 4);
    gte.add(lits);
    let mut var_manager = BasicVarManager::new();
    var_manager.increase_next_free(lit(2).var());
    let cnf = gte.encode(0, 5, &mut var_manager);
    let assumps = gte.enforce_ub(5).unwrap();
    let mut solver = TestSolver::new();
    solver.add_cnf(cnf);
    // every assignment of weight at most 5 extends to a model
    for (a0, a1, a2) in [(false, false, false), (true, false, false), (true, true, false), (false, false, true)] {
        let mut a = assumps.clone();
        a.push(if a0 { lit(0) } else { neg(0) });
        a.push(if a1 { lit(1) } else { neg(1) });
        a.push(if a2 { lit(2) } else { neg(2) });
        assert_eq!(solver.solve_assumps(a).unwrap(), SolverResult::SAT);
    }
}

#[test]
fn card_trivial_bounds() {
    let lits = vec![lit(0), lit(1)];
    // an upper bound at the number of literals adds nothing
    let mut inst = SatInstance::new();
    inst.add_card_constr(CardConstraint::new_ub(lits.clone(), 2));
    let (cnf, _) = inst.as_cnf();
    assert_eq!(cnf.n_clauses(), 0);
    // a lower bound of 0 adds nothing
    let mut inst = SatInstance::new();
    inst.add_card_constr(CardConstraint::new_lb(lits.clone(), 0));
    let (cnf, _) = inst.as_cnf();
    assert_eq!(cnf.n_clauses(), 0);
    // a lower bound above the number of literals adds the empty clause
    let mut inst = SatInstance::new();
    inst.add_card_constr(CardConstraint::new_lb(lits.clone(), 3));
    let (cnf, _) = inst.as_cnf();
    assert_eq!(cnf.n_clauses(), 1);
    assert_eq!(cnf.clause(0).len(), 0);
    assert_eq!(solve_cnf_with(cnf, vec![]), SolverResult::UNSAT);
}

#[test]
fn instance_clauses_and_constraints() {
    let mut inst = SatInstance::new();
    inst.add_clause(vec![lit(0), lit(1)]);
    inst.add_clause(vec![neg(0)]);
    inst.add_card_constr(CardConstraint::new_ub(vec![lit(1), lit(2), lit(3)], 1));
    assert_eq!(inst.n_clauses(), 2);
    assert_eq!(inst.n_card_constrs(), 1);
    assert_eq!(inst.n_pb_constrs(), 0);
    let (cnf, var_manager) = inst.as_cnf();
    // the instance's clauses come first
    assert_eq!(cnf.clause(0).lits(), &vec![lit(0), lit(1)]);
    assert_eq!(cnf.clause(1).lits(), &vec![neg(0)]);
    // fresh variables start after the instance's variables
    assert!(var_manager.n_used() > 4);
    // the clauses force lit 1, so lit 2 and lit 3 must be false
    assert_eq!(solve_cnf_with(cnf, vec![lit(2)]), SolverResult::UNSAT);
    let mut inst = SatInstance::new();
    inst.add_clause(vec![lit(0), lit(1)]);
    inst.add_clause(vec![neg(0)]);
    inst.add_card_constr(CardConstraint::new_ub(vec![lit(1), lit(2), lit(3)], 1));
    let (cnf, _) = inst.as_cnf();
    assert_eq!(solve_cnf_with(cnf, vec![neg(2), neg(3)]), SolverResult::SAT);
}

#[test]
fn card_eq_exhaustive() {
    // every assignment of four literals satisfies "exactly 2" iff two are true
    let lits = vec![lit(0), lit(1), lit(2), lit(3)];
    for mask in 0u32..16 {
        let mut inst = SatInstance::new();
        inst.add_card_constr(CardConstraint::new_eq(lits.clone(), 2));
        let (cnf, _) = inst.as_cnf();
        let assumps: Vec<Lit> = (0..4).map(|i| if mask & (1 << i) != 0 { lit(i) } else { neg(i) }).collect();
        let expected = if mask.count_ones() == 2 { SolverResult::SAT } else { SolverResult::UNSAT };
        assert_eq!(solve_cnf_with(cnf, assumps), expected);
    }
}

#[test]
fn gte_ub_bounds_weighted() {
    let mut gte = GeneralizedTotalizer::new(BoundType::UB).unwrap();
    let mut lits = LitWeights::new();
    lits.insert(lit(0), 1);
    lits.insert(lit(1), 1);
    lits.insert(lit(2), 2);
    gte.add(lits);
    let mut var_manager = BasicVarManager::new();
    var_manager.increase_next_free(lit(2).var());
    let cnf = gte.encode(0, 2, &mut var_manager);
    let assumps = gte.enforce_ub(2).unwrap();
    let mut solver = TestSolver::new();
    solver.add_cnf(cnf);
    let cases = [
        ([true, true, false], SolverResult::SAT),
        ([false, false, true], SolverResult::SAT),
        ([true, false, true], SolverResult::UNSAT),
        ([true, true, true], SolverResult::UNSAT),
    ];
    for (values, expected) in cases {
        let mut a = assumps.clone();
        for (i, v) in values.iter().enumerate() {
            a.push(if *v { lit(i as u32) } else { neg(i as u32) });
        }
        assert_eq!(solver.solve_assumps(a).unwrap(), expected);
    }
}

#[test]
fn gte_ub_weighted_above_leaf_count() {
    let mut gte = GeneralizedTotalizer::new(BoundType::UB).unwrap();
    let mut lits = LitWeights::new();
    lits.insert(lit(0), 3);
    lits.insert(lit(1), 3);
    gte.add(lits);
    let mut var_manager = BasicVarManager::new();
    var_manager.increase_next_free(lit(1).var());
    let cnf = gte.encode(0, 4, &mut var_manager);
    let assumps = gte.enforce_ub(4).unwrap();
    assert!(!assumps.is_empty());
    let mut solver = TestSolver::new();
    solver.add_cnf(cnf);
    let mut a = assumps.clone();
    a.extend([lit(0), lit(1)]);
    assert_eq!(solver.solve_assumps(a).unwrap(), SolverResult::UNSAT);
    let mut a = assumps.clone();
    a.extend([lit(0), neg(1)]);
    assert_eq!(solver.solve_assumps(a).unwrap(), SolverResult::SAT);
}

#[test]
fn gte_lb_without_tree_forces_every_literal() {
    let mut gte = GeneralizedTotalizer::new(BoundType::LB).unwrap();
    let mut lits = LitWeights::new();
    lits.insert(lit(0), 1);
    lits.insert(lit(1), 2);
    gte.add(lits);
    let mut var_manager = BasicVarManager::new();
    var_manager.increase_next_free(lit(1).var());
    let cnf = gte.encode(1, 1, &mut var_manager);
    assert_eq!(cnf.n_clauses(), 0);
    assert_eq!(gte.get_depth(), 0);
    let assumps = gte.enforce_lb(1).unwrap();
    assert_eq!(assumps, vec![lit(0), lit(1)]);
    let mut solver = TestSolver::new();
    solver.add_cnf(cnf);
    let mut a = assumps.clone();
    a.push(neg(0));
    assert_eq!(solver.solve_assumps(a).unwrap(), SolverResult::UNSAT);
    let mut a = assumps.clone();
    a.extend([lit(0), lit(1)]);
    assert_eq!(solver.solve_assumps(a).unwrap(), SolverResult::SAT);
}

fn ub_solutions(first: &[(u32, usize)], second: &[(u32, usize)], ub: usize) -> Vec<SolverResult> {
    let mut gte = GeneralizedTotalizer::new(BoundType::UB).unwrap();
    let mut a = LitWeights::new();
    for (v, w) in first {
        a.insert(lit(*v), *w);
    }
    let mut b = LitWeights::new();
    for (v, w) in second {
        b.insert(lit(*v), *w);
    }
    gte.add(a);
    gte.add(b);
    let mut var_manager = BasicVarManager::new();
    var_manager.increase_next_free(lit(2).var());
    let cnf = gte.encode(0, ub, &mut var_manager);
    let assumps = gte.enforce_ub(ub).unwrap();
    let mut solver = TestSolver::new();
    solver.add_cnf(cnf);
    let mut results = Vec::new();
    for bits in 0..8u32 {
        let mut assumptions = assumps.clone();
        for i in 0..3u32 {
            assumptions.push(if bits & (1 << i) != 0 { lit(i) } else { neg(i) });
        }
        results.push(solver.solve_assumps(assumptions).unwrap());
    }
    results
}

#[test]
fn gte_add_order_does_not_matter() {
    let a = [(0, 1), (1, 2)];
    let b = [(0, 2), (2, 1)];
    let ab = ub_solutions(&a, &b, 3);
    let ba = ub_solutions(&b, &a, 3);
    assert_eq!(ab, ba);
    // the literal 0 weighs 3 after both additions
    assert_eq!(ab[0b001], SolverResult::SAT);
    assert_eq!(ab[0b011], SolverResult::UNSAT);
    assert_eq!(ab[0b110], SolverResult::SAT);
}

#[test]
fn card_counts_repeated_literals() {
    test_card(
        CardConstraint::new_ub(vec![lit(0), lit(0), lit(1)], 1),
        vec![neg(0), lit(1)],
        vec![lit(0), neg(1)],
    );
    test_card(
        CardConstraint::new_lb(vec![lit(0), lit(0), lit(1)], 2),
        vec![lit(0), neg(1)],
        vec![neg(0), lit(1)],
    );
}
