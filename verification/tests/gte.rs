use rustsat::encodings::pb::gte::{GeneralizedTotalizer, Node};
use rustsat::encodings::{BoundType, EncodingError};
use rustsat::instances::BasicVarManager;
use rustsat::maps::{LitWeights, OutLits};
use rustsat::types::{Lit, Var};
use std::collections::BTreeSet;

fn lit(idx: u32) -> Lit {
    Lit::positive(idx)
}

/// An internal node whose output literals do not match its children.
fn inconsistent_child(lits: &[(usize, Lit)]) -> Node {
    let mut out_lits = OutLits::new();
    for (w, l) in lits {
        out_lits.insert(*w, *l);
    }
    Node::Internal {
        out_lits,
        depth: 1,
        n_clauses: 0,
        max_val: 2,
        max_enc: 2,
        // Dummy nodes for children
        left: Box::new(Node::new_leaf(lit(0), 5)),
        right: Box::new(Node::new_leaf(lit(0), 3)),
    }
}

fn out_lits_len(node: &Node) -> usize {
    match node {
        Node::Leaf { .. } => panic!(),
        Node::Internal { out_lits, .. } => out_lits.len(),
    }
}

#[test]
fn adder_1() {
    // Child nodes
    let child1 = Node::new_leaf(lit(0), 5);
    let child2 = Node::new_leaf(lit(1), 3);
    let mut node = Node::new_internal(child1, child2);
    let mut var_manager = BasicVarManager::new();
    let cnf = node.encode_from_till(0, 8, &mut var_manager, &BoundType::UB);
    assert_eq!(out_lits_len(&node), 3);
    assert_eq!(cnf.n_clauses(), 3);
}

#[test]
fn adder_2() {
    let child1 = inconsistent_child(&[(3, lit(1)), (5, lit(2)), (8, lit(3))]);
    let child2 = inconsistent_child(&[(3, lit(4)), (5, lit(5)), (8, lit(6))]);
    let mut node = Node::new_internal(child1, child2);
    let mut var_manager = BasicVarManager::new();
    let cnf = node.encode_from_till(0, 6, &mut var_manager, &BoundType::UB);
    assert_eq!(out_lits_len(&node), 3);
    assert_eq!(cnf.n_clauses(), 5);
}

#[test]
fn partial_adder_1() {
    let child1 = inconsistent_child(&[(3, lit(1)), (5, lit(2)), (8, lit(3))]);
    let child2 = inconsistent_child(&[(3, lit(4)), (5, lit(5)), (8, lit(6))]);
    let mut node = Node::new_internal(child1, child2);
    let mut var_manager = BasicVarManager::new();
    let cnf = node.encode_from_till(4, 6, &mut var_manager, &BoundType::UB);
    assert_eq!(out_lits_len(&node), 3);
    assert_eq!(cnf.n_clauses(), 3);
}

#[test]
fn partial_adder_already_encoded() {
    let child1 = inconsistent_child(&[(3, lit(1)), (5, lit(2)), (8, lit(3))]);
    let child2 = inconsistent_child(&[(3, lit(4)), (5, lit(5)), (8, lit(6))]);
    let mut node = Node::new_internal(child1, child2);
    let mut var_manager = BasicVarManager::new();
    let cnf = node.encode_from_till(6, 4, &mut var_manager, &BoundType::UB);
    assert_eq!(cnf.n_clauses(), 0);
}

#[test]
fn gte_functions() {
    let mut gte = GeneralizedTotalizer::new(BoundType::UB).unwrap();
    let mut lits = LitWeights::new();
    lits.insert(lit(0), 5);
    lits.insert(lit(1), 5);
    lits.insert(lit(2), 3);
    lits.insert(lit(3), 3);
    gte.add(lits);
    assert_eq!(gte.enforce_ub(4), Err(EncodingError::NotEncoded));
    assert_eq!(gte.enforce_lb(4), Err(EncodingError::NoObjectSupport));
    let mut var_manager = BasicVarManager::new();
    gte.encode(0, 6, &mut var_manager);
    assert_eq!(gte.get_depth(), 3);
}

#[test]
fn invalid_useage() {
    let mut gte = GeneralizedTotalizer::new(BoundType::LB).unwrap();
    let mut lits = LitWeights::new();
    lits.insert(lit(0), 5);
    lits.insert(lit(1), 3);
    gte.add(lits);
    assert_eq!(gte.enforce_ub(1), Err(EncodingError::NoObjectSupport));
    let mut gte = GeneralizedTotalizer::new(BoundType::UB).unwrap();
    let mut lits = LitWeights::new();
    lits.insert(lit(0), 5);
    lits.insert(lit(1), 3);
    gte.add(lits);
    assert_eq!(gte.enforce_lb(1), Err(EncodingError::NoObjectSupport));
    match GeneralizedTotalizer::new(BoundType::BOTH) {
        Ok(_) => panic!(),
        Err(err) => assert_eq!(err, EncodingError::NoTypeSupport),
    };
}

fn clause_set(cnfs: &[&rustsat::instances::CNF]) -> BTreeSet<Vec<Lit>> {
    let mut set = BTreeSet::new();
    for cnf in cnfs {
        for i in 0..cnf.n_clauses() {
            set.insert(cnf.clause(i).lits().clone());
        }
    }
    set
}

#[test]
fn incremental_encoding_matches_scratch() {
    let left = Node::new_internal(Node::new_leaf(lit(0), 1), Node::new_leaf(lit(1), 1));
    let right = Node::new_internal(Node::new_leaf(lit(2), 1), Node::new_leaf(lit(3), 1));
    let mut node = Node::new_internal(left, right);
    let mut var_manager = BasicVarManager::new();
    var_manager.increase_next_free(Var::new(3));
    let first = node.encode_rec(1, &mut var_manager, &BoundType::UB);
    let second = node.encode_change_rec(3, &mut var_manager, &BoundType::UB);
    let used = var_manager.n_used();
    let full = node.encode_rec(3, &mut var_manager, &BoundType::UB);
    // encoding from scratch needs no further output literal
    assert_eq!(var_manager.n_used(), used);
    assert_eq!(clause_set(&[&first, &second]), clause_set(&[&full]));
    assert!(second.n_clauses() > 0);
}
