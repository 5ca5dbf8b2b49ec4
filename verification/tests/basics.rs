use rustsat::encodings::pb::gte::{GeneralizedTotalizer, Node};
use rustsat::encodings::{BoundType, EncodingError};
use rustsat::instances::{BasicVarManager, CNF};
use rustsat::maps::{LitWeights, OutLits};
use rustsat::solvers::minisat::{AssumpEliminated, InternalSolverState, InvalidApiReturn, Limit};
use rustsat::solvers::SolverState;
use rustsat::types::{Lit, Var};

#[test]
fn literals_and_variables() {
    let l = Lit::positive(3);
    assert_eq!(l.var(), Var::new(3));
    assert!(!l.is_negated());
    let n = l.negate();
    assert!(n.is_negated());
    assert_eq!(n.var().idx(), 3);
    assert_eq!(n.negate(), l);
    assert_eq!(Lit::negative(3), n);
    assert_eq!(Var::new(7).pos_lit(), Lit::new(7, false));
    assert_eq!(Var::new(7).neg_lit(), Lit::new(7, true));
}

#[test]
fn var_manager_hands_out_in_order() {
    let mut vm = BasicVarManager::new();
    assert_eq!(vm.n_used(), 0);
    assert_eq!(vm.next_free(), Var::new(0));
    vm.increase_next_free(Var::new(5));
    assert_eq!(vm.n_used(), 6);
    vm.increase_next_free(Var::new(2));
    assert_eq!(vm.next_free(), Var::new(6));
}

#[test]
fn cnf_building() {
    let mut cnf = CNF::new();
    assert!(cnf.is_empty());
    cnf.add_lit_impl_lit(Lit::positive(0), Lit::positive(1));
    cnf.add_cube_impl_lit(Lit::positive(0), Lit::positive(1), Lit::positive(2));
    cnf.add_unit(Lit::negative(3));
    assert_eq!(cnf.len(), 3);
    assert_eq!(cnf.clause(0).lits(), &vec![Lit::negative(0), Lit::positive(1)]);
    assert_eq!(
        cnf.clause(1).lits(),
        &vec![Lit::negative(0), Lit::negative(1), Lit::positive(2)]
    );
    let mut other = CNF::new();
    other.add_clause(vec![Lit::positive(4), Lit::positive(5)]);
    cnf.extend(other);
    assert_eq!(cnf.n_clauses(), 4);
    assert_eq!(cnf.clause(3).len(), 2);
}

#[test]
fn out_lits_stay_sorted() {
    let mut m = OutLits::new();
    m.insert(5, Lit::positive(1));
    m.insert(2, Lit::positive(2));
    m.insert(9, Lit::positive(3));
    m.insert(5, Lit::positive(4));
    assert_eq!(m.len(), 3);
    assert_eq!(m.entry(0), (2, Lit::positive(2)));
    assert_eq!(m.entry(1), (5, Lit::positive(4)));
    assert_eq!(m.entry(2), (9, Lit::positive(3)));
    assert_eq!(m.get(9), Some(Lit::positive(3)));
    assert_eq!(m.get(4), None);
    assert!(m.contains_key(2));
}

#[test]
fn lit_weights_keep_insertion_order() {
    let mut w = LitWeights::new();
    assert!(w.is_empty());
    w.insert(Lit::positive(3), 4);
    w.insert(Lit::positive(1), 2);
    w.insert(Lit::positive(3), 7);
    assert_eq!(w.len(), 2);
    assert_eq!(w.entry(0), (Lit::positive(3), 7));
    assert_eq!(w.get(Lit::positive(1)), Some(2));
    assert_eq!(w.get(Lit::positive(2)), None);
    w.retain_above(5);
    assert_eq!(w.len(), 1);
    assert_eq!(w.entry(0), (Lit::positive(3), 7));
}

#[test]
fn gte_adds_weights_of_repeated_literals() {
    let mut gte = GeneralizedTotalizer::new(BoundType::UB).unwrap();
    let mut lits = LitWeights::new();
    lits.insert(Lit::positive(0), 2);
    gte.add(lits);
    let mut lits = LitWeights::new();
    lits.insert(Lit::positive(0), 3);
    gte.add(lits);
    // the literal now weighs 5: above the bound 4 it is simply assumed false
    assert_eq!(gte.enforce_ub(4), Ok(vec![Lit::negative(0)]));
    assert_eq!(gte.enforce_ub(5), Err(EncodingError::NotEncoded));
}

#[test]
fn gte_errors() {
    let gte = GeneralizedTotalizer::new(BoundType::UB).unwrap();
    assert_eq!(gte.enforce_lb(1), Err(EncodingError::NoObjectSupport));
    let mut gte = GeneralizedTotalizer::new(BoundType::LB).unwrap();
    assert_eq!(gte.enforce_ub(1), Err(EncodingError::NoObjectSupport));
    let mut lits = LitWeights::new();
    lits.insert(Lit::positive(0), 1);
    lits.insert(Lit::positive(1), 1);
    gte.add(lits);
    let mut vm = BasicVarManager::new();
    vm.increase_next_free(Var::new(1));
    gte.encode(0, 1, &mut vm);
    // without a tree, every literal is forced directly
    assert_eq!(gte.get_depth(), 0);
    assert_eq!(gte.enforce_lb(3), Ok(vec![Lit::positive(0), Lit::positive(1)]));
    // a tree of total weight 0 cannot reach a lower bound of 1
    let mut gte = GeneralizedTotalizer::new(BoundType::LB).unwrap();
    let mut lits = LitWeights::new();
    lits.insert(Lit::positive(0), 0);
    lits.insert(Lit::positive(1), 2);
    gte.add(lits);
    gte.encode(0, 0, &mut vm);
    assert_eq!(gte.get_depth(), 1);
    assert_eq!(gte.enforce_lb(1), Err(EncodingError::Unsat));
    assert_eq!(gte.enforce_lb(0), Ok(vec![Lit::positive(1)]));
    assert!(GeneralizedTotalizer::new_reserving(BoundType::BOTH).is_err());
}

#[test]
fn gte_depth_of_empty_and_single() {
    let mut gte = GeneralizedTotalizer::new(BoundType::UB).unwrap();
    assert_eq!(gte.get_depth(), 0);
    let mut lits = LitWeights::new();
    lits.insert(Lit::positive(0), 1);
    gte.add(lits);
    let mut vm = BasicVarManager::new();
    vm.increase_next_free(Var::new(0));
    let cnf = gte.encode(0, 1, &mut vm);
    assert_eq!(gte.get_depth(), 1);
    assert_eq!(cnf.n_clauses(), 0);
}

#[test]
fn gte_incremental_encoding() {
    let mut gte = GeneralizedTotalizer::new_reserving(BoundType::UB).unwrap();
    let mut lits = LitWeights::new();
    for i in 0..4 {
        lits.insert(Lit::positive(i), 1);
    }
    gte.add(lits);
    let mut vm = BasicVarManager::new();
    vm.increase_next_free(Var::new(3));
    let first = gte.encode_change(0, 1, &mut vm);
    let used = vm.n_used();
    // reserving takes all variables of the tree at once
    let second = gte.encode_change(0, 3, &mut vm);
    assert_eq!(vm.n_used(), used);
    assert!(first.n_clauses() > 0);
    assert!(second.n_clauses() > 0);
}

#[test]
fn limit_text() {
    assert_eq!(Limit::NoLimit.to_string(), "none");
    assert_eq!(Limit::Conflicts(5).to_string(), "conflicts (5)");
    assert_eq!(Limit::Propagations(-42).to_string(), "propagations (-42)");
    assert_eq!(Limit::Conflicts(1234567890).to_string(), "conflicts (1234567890)");
    assert_eq!(
        Limit::Propagations(i64::MIN).to_string(),
        "propagations (-9223372036854775808)"
    );
    assert_eq!(Limit::Conflicts(0).to_string(), "conflicts (0)");
}

#[test]
fn error_messages() {
    let e = InvalidApiReturn::new("minisat_solve", -1);
    assert_eq!(e.api_call(), "minisat_solve");
    assert_eq!(e.value(), -1);
    assert_eq!(
        e.description(),
        "minisat c-api returned an invalid value: minisat_solve -> -1"
    );
    let e = AssumpEliminated(Var::new(12));
    assert_eq!(
        e.description(),
        "assumption variable x12 has been eliminated by minisat simplification"
    );
}

#[test]
fn internal_state_to_external() {
    assert_eq!(InternalSolverState::Configuring.to_external(), SolverState::Configuring);
    assert_eq!(InternalSolverState::Input.to_external(), SolverState::Input);
    assert_eq!(InternalSolverState::Sat.to_external(), SolverState::Sat);
    assert_eq!(
        InternalSolverState::Unsat(vec![Lit::positive(0)]).to_external(),
        SolverState::Unsat
    );
}

#[test]
fn internal_node_max_val_sums_weights() {
    let n = Node::new_internal(Node::new_leaf(Lit::positive(0), 5), Node::new_leaf(Lit::positive(1), 3));
    match n {
        Node::Internal { max_val, depth, .. } => {
            assert_eq!(max_val, 8);
            assert_eq!(depth, 2);
        }
        Node::Leaf { .. } => panic!(),
    }
}

#[test]
fn reserve_all_vars_reserves_every_output() {
    let mut n = Node::new_internal(Node::new_leaf(Lit::positive(0), 5), Node::new_leaf(Lit::positive(1), 3));
    let mut vm = BasicVarManager::new();
    vm.increase_next_free(Var::new(1));
    n.reserve_all_vars(&mut vm, &BoundType::UB);
    match n {
        Node::Internal { out_lits, .. } => {
            assert_eq!(out_lits.len(), 3);
            assert!(out_lits.contains_key(3));
            assert!(out_lits.contains_key(5));
            assert!(out_lits.contains_key(8));
        }
        Node::Leaf { .. } => panic!(),
    }
    assert_eq!(vm.n_used(), 5);
}

#[test]
fn reserving_again_takes_no_variables() {
    let mut n = Node::new_internal(Node::new_leaf(Lit::positive(0), 5), Node::new_leaf(Lit::positive(1), 3));
    let mut vm = BasicVarManager::new();
    vm.increase_next_free(Var::new(1));
    n.reserve_all_vars(&mut vm, &BoundType::UB);
    n.reserve_all_vars(&mut vm, &BoundType::UB);
    assert_eq!(vm.n_used(), 5);
    match n {
        Node::Internal { out_lits, .. } => assert_eq!(out_lits.len(), 3),
        Node::Leaf { .. } => panic!(),
    }
}

#[test]
fn encode_change_adds_only_new_clauses() {
    let mut gte = GeneralizedTotalizer::new(BoundType::UB).unwrap();
    let mut lits = LitWeights::new();
    for i in 0..3 {
        lits.insert(Lit::positive(i), 1);
    }
    gte.add(lits);
    let mut vm = BasicVarManager::new();
    vm.increase_next_free(Var::new(2));
    let first = gte.encode_change(0, 1, &mut vm);
    let second = gte.encode_change(0, 2, &mut vm);
    let mut seen = Vec::new();
    for i in 0..first.n_clauses() {
        seen.push(first.clause(i).lits().clone());
    }
    for i in 0..second.n_clauses() {
        assert!(!seen.contains(second.clause(i).lits()));
    }
    assert_eq!(second.n_clauses(), 1);
    // encoding again up to the same bound adds nothing
    let third = gte.encode_change(0, 2, &mut vm);
    assert_eq!(third.n_clauses(), 0);
}

#[test]
fn reserve_all_vars_rec_goes_in_post_order() {
    let left = Node::new_internal(Node::new_leaf(Lit::positive(0), 1), Node::new_leaf(Lit::positive(1), 1));
    let mut n = Node::new_internal(left, Node::new_leaf(Lit::positive(2), 1));
    let mut vm = BasicVarManager::new();
    vm.increase_next_free(Var::new(2));
    n.reserve_all_vars_rec(&mut vm, &BoundType::UB);
    assert_eq!(vm.n_used(), 8);
    match n {
        Node::Internal { out_lits, left, .. } => {
            // the left child's two outputs come first, then the root's three
            match *left {
                Node::Internal { out_lits: left_lits, .. } => {
                    assert_eq!(left_lits.len(), 2);
                    for i in 0..left_lits.len() {
                        let v = left_lits.entry(i).1.var().idx();
                        assert!(v == 3 || v == 4);
                    }
                }
                Node::Leaf { .. } => panic!(),
            }
            assert_eq!(out_lits.len(), 3);
            for i in 0..out_lits.len() {
                let v = out_lits.entry(i).1.var().idx();
                assert!((5..8).contains(&v));
            }
        }
        Node::Leaf { .. } => panic!(),
    }
}

#[test]
fn encoding_twice_gives_the_same_clauses() {
    let mut gte = GeneralizedTotalizer::new(BoundType::UB).unwrap();
    let mut lits = LitWeights::new();
    for i in 0..3 {
        lits.insert(Lit::positive(i), 1);
    }
    gte.add(lits);
    let mut vm = BasicVarManager::new();
    vm.increase_next_free(Var::new(2));
    let first = gte.encode(0, 1, &mut vm);
    let used = vm.n_used();
    let depth = gte.get_depth();
    let second = gte.encode(0, 1, &mut vm);
    assert_eq!(vm.n_used(), used);
    assert_eq!(gte.get_depth(), depth);
    assert_eq!(first.n_clauses(), second.n_clauses());
    for i in 0..first.n_clauses() {
        assert_eq!(first.clause(i).lits(), second.clause(i).lits());
    }
}
