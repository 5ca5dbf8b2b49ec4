//! What the clauses of a totalizer tree mean: under any assignment that
//! satisfies them, the output literals of a node are true for the weights of
//! the true leaves below it.

use vstd::prelude::*;
use crate::types::Lit;
use crate::encodings::BoundType;
use crate::instances::{lit_true, clause_sat, cnf_sat, impl_clause, cube_impl_clause};
use crate::maps::{entries_map, has_key, upsert, weight_or_zero, weight_at_most, weight_above, distinct_keys, LitWeights};
use crate::encodings::pb::gte::{
    sort_by_weight, insert_by_weight, merge_weights, merge_fits, merge_moved, merge_moved_fits, GeneralizedTotalizer,
    largest_weight, lits_of,
    Node, KeyTree, needed, key_set, unit_clauses, sum_clauses, sum_clauses_with, negated_in_range,
    lemma_keys_entries,
};

verus! {

/// The sum of the weights of the literals in `s` that are true under `sigma`.
pub open spec fn true_weight(s: Seq<(Lit, usize)>, sigma: spec_fn(nat) -> bool) -> int
    decreases s.len(),
{
    if s.len() == 0 {
        0
    } else {
        true_weight(s.drop_last(), sigma) + if lit_true(sigma, s.last().0) {
            s.last().1 as int
        } else {
            0
        }
    }
}

/// The weights of the sets of true leaves of a subtree under `sigma`.
pub open spec fn true_sums(n: Node, sigma: spec_fn(nat) -> bool) -> Set<int>
    decreases n,
{
    match n {
        Node::Leaf { lit, weight } => if lit_true(sigma, lit) {
            set![0, weight as int]
        } else {
            set![0]
        },
        Node::Internal { left, right, .. } => Set::new(
            |s: int|
                exists|a: int, b: int|
                    true_sums(*left, sigma).contains(a) && true_sums(*right, sigma).contains(b) && s == a + b,
        ),
    }
}

/// Every node of the key tree has an output for each weight up to `m` that
/// its adder needs.
pub open spec fn key_tree_encoded(t: KeyTree, m: int) -> bool
    decreases t,
{
    match t {
        KeyTree::Leaf { .. } => true,
        KeyTree::Node { keys, left, right, .. } => needed(left.keys(), right.keys(), m).subset_of(keys)
            && key_tree_encoded(*left, m) && key_tree_encoded(*right, m),
    }
}

/// Every leaf of `n` weighs at most `d`.
pub open spec fn leaf_weights_at_most(s: Seq<(Lit, usize)>, d: int) -> bool {
    forall|i: int| 0 <= i < s.len() ==> (#[trigger] s[i]).1 <= d
}

/// Encoding from scratch up to `m` leaves the tree encoded up to `m`.
pub proof fn lemma_encode_encoded(t: KeyTree, m: int)
    ensures
        key_tree_encoded(t.encode(m), m),
    decreases t,
{
    if let KeyTree::Node { left, right, .. } = t {
        lemma_encode_encoded(*left, m);
        lemma_encode_encoded(*right, m);
    }
}

/// The weight of a concatenation is the sum of the weights.
pub proof fn lemma_true_weight_concat(a: Seq<(Lit, usize)>, b: Seq<(Lit, usize)>, sigma: spec_fn(nat) -> bool)
    ensures
        true_weight(a + b, sigma) == true_weight(a, sigma) + true_weight(b, sigma),
    decreases b.len(),
{
    if b.len() == 0 {
        assert(a + b =~= a);
    } else {
        lemma_true_weight_concat(a, b.drop_last(), sigma);
        assert((a + b).drop_last() =~= a + b.drop_last());
    }
}

/// True weights are between 0 and the number of literals if all weights are
/// at most 1.
pub proof fn lemma_true_weight_bounds(s: Seq<(Lit, usize)>, sigma: spec_fn(nat) -> bool)
    ensures
        0 <= true_weight(s, sigma),
        leaf_weights_at_most(s, 1) ==> true_weight(s, sigma) <= s.len(),
    decreases s.len(),
{
    if s.len() > 0 {
        lemma_true_weight_bounds(s.drop_last(), sigma);
        if leaf_weights_at_most(s, 1) {
            assert(leaf_weights_at_most(s.drop_last(), 1)) by {
                assert forall|i: int| 0 <= i < s.drop_last().len() implies (#[trigger] s.drop_last()[i]).1 <= 1 by {
                    assert(s.drop_last()[i] == s[i]);
                }
            }
            assert(s[s.len() - 1].1 <= 1);
        }
    }
}

/// The weight of all true leaves is one of the sums, and it bounds them.
pub proof fn lemma_true_sums_total(n: Node, sigma: spec_fn(nat) -> bool)
    ensures
        true_sums(n, sigma).contains(true_weight(n.leaves(), sigma)),
        forall|s: int| #[trigger] true_sums(n, sigma).contains(s) ==> 0 <= s <= true_weight(n.leaves(), sigma),
    decreases n,
{
    match n {
        Node::Leaf { lit, weight } => {
            assert(n.leaves().drop_last() =~= Seq::<(Lit, usize)>::empty());
            assert(n.leaves().last() == (lit, weight));
            assert(true_weight(Seq::<(Lit, usize)>::empty(), sigma) == 0);
            if lit_true(sigma, lit) {
                assert(true_sums(n, sigma).contains(weight as int));
            } else {
                assert(true_sums(n, sigma).contains(0));
            }
        },
        Node::Internal { left, right, .. } => {
            lemma_true_sums_total(*left, sigma);
            lemma_true_sums_total(*right, sigma);
            lemma_true_weight_concat(left.leaves(), right.leaves(), sigma);
            let a = true_weight(left.leaves(), sigma);
            let b = true_weight(right.leaves(), sigma);
            assert(true_sums(n, sigma).contains(a + b));
        },
    }
}

/// Taking away one true leaf of positive weight at most `d` steps a positive
/// sum down by at most `d`.
pub proof fn lemma_step_down(n: Node, sigma: spec_fn(nat) -> bool, d: int, s: int)
    requires
        leaf_weights_at_most(n.leaves(), d),
        true_sums(n, sigma).contains(s),
        s > 0,
    ensures
        exists|t: int| #[trigger] true_sums(n, sigma).contains(t) && s - d <= t < s,
    decreases n,
{
    match n {
        Node::Leaf { lit, weight } => {
            assert(n.leaves()[0].1 == weight);
            assert(true_sums(n, sigma).contains(0));
        },
        Node::Internal { left, right, .. } => {
            let (a, b) = choose|a: int, b: int|
                true_sums(*left, sigma).contains(a) && true_sums(*right, sigma).contains(b) && s == a + b;
            lemma_true_sums_total(*left, sigma);
            lemma_true_sums_total(*right, sigma);
            assert(leaf_weights_at_most(left.leaves(), d)) by {
                assert forall|i: int| 0 <= i < left.leaves().len() implies (#[trigger] left.leaves()[i]).1 <= d by {
                    assert(n.leaves()[i] == left.leaves()[i]);
                }
            }
            assert(leaf_weights_at_most(right.leaves(), d)) by {
                assert forall|i: int| 0 <= i < right.leaves().len() implies (#[trigger] right.leaves()[i]).1 <= d by {
                    assert(n.leaves()[left.leaves().len() + i] == right.leaves()[i]);
                }
            }
            if a > 0 {
                lemma_step_down(*left, sigma, d, a);
                let t = choose|t: int| #[trigger] true_sums(*left, sigma).contains(t) && a - d <= t < a;
                assert(true_sums(n, sigma).contains(t + b));
            } else {
                lemma_step_down(*right, sigma, d, b);
                let t = choose|t: int| #[trigger] true_sums(*right, sigma).contains(t) && b - d <= t < b;
                assert(true_sums(n, sigma).contains(a + t));
            }
        },
    }
}

/// A sum above `ub` leads, in steps of at most `d`, to a sum in
/// `(ub, ub + d]`.
pub proof fn lemma_descend(n: Node, sigma: spec_fn(nat) -> bool, d: int, ub: int, s: int)
    requires
        leaf_weights_at_most(n.leaves(), d),
        true_sums(n, sigma).contains(s),
        0 <= ub < s,
    ensures
        exists|t: int| #[trigger] true_sums(n, sigma).contains(t) && ub < t <= ub + d && t <= s,
    decreases s,
{
    if s > ub + d {
        lemma_step_down(n, sigma, d, s);
        let t = choose|t: int| #[trigger] true_sums(n, sigma).contains(t) && s - d <= t < s;
        lemma_descend(n, sigma, d, ub, t);
    }
}

/// A satisfied conjunction of two parts satisfies each part.
pub proof fn lemma_cnf_sat_concat(sigma: spec_fn(nat) -> bool, a: Seq<Seq<Lit>>, b: Seq<Seq<Lit>>)
    requires
        cnf_sat(sigma, a + b),
    ensures
        cnf_sat(sigma, a),
        cnf_sat(sigma, b),
{
    assert forall|i: int| 0 <= i < a.len() implies clause_sat(sigma, #[trigger] a[i]) by {
        assert((a + b)[i] == a[i]);
    }
    assert forall|i: int| 0 <= i < b.len() implies clause_sat(sigma, #[trigger] b[i]) by {
        assert((a + b)[a.len() + i] == b[i]);
    }
}

/// A satisfied implication with a true premise has a true conclusion.
pub proof fn lemma_impl_sat(sigma: spec_fn(nat) -> bool, a: Lit, b: Lit)
    requires
        clause_sat(sigma, impl_clause(a, b)),
        lit_true(sigma, a),
    ensures
        lit_true(sigma, b),
{
    Lit::lemma_negate(a);
    let c = impl_clause(a, b);
    let i = choose|i: int| 0 <= i < c.len() && lit_true(sigma, #[trigger] c[i]);
}

/// A satisfied implication with two true premises has a true conclusion.
pub proof fn lemma_cube_impl_sat(sigma: spec_fn(nat) -> bool, a: Lit, b: Lit, c: Lit)
    requires
        clause_sat(sigma, cube_impl_clause(a, b, c)),
        lit_true(sigma, a),
        lit_true(sigma, b),
    ensures
        lit_true(sigma, c),
{
    Lit::lemma_negate(a);
    Lit::lemma_negate(b);
    let cl = cube_impl_clause(a, b, c);
    let i = choose|i: int| 0 <= i < cl.len() && lit_true(sigma, #[trigger] cl[i]);
}

/// The implication of each entry in range is among the unit clauses.
pub proof fn lemma_unit_clause_in(es: Seq<(usize, Lit)>, out: Map<usize, Lit>, lo: int, hi: int, i: int)
    requires
        0 <= i < es.len(),
        lo <= es[i].0 <= hi,
    ensures
        unit_clauses(es, out, lo, hi).contains(impl_clause(es[i].1, out[es[i].0])),
    decreases es.len(),
{
    let u = unit_clauses(es, out, lo, hi);
    if i == es.len() - 1 {
        assert(u[u.len() - 1] == impl_clause(es[i].1, out[es[i].0]));
    } else {
        lemma_unit_clause_in(es.drop_last(), out, lo, hi, i);
        assert(es.drop_last()[i] == es[i]);
        let p = unit_clauses(es.drop_last(), out, lo, hi);
        let j = choose|j: int| 0 <= j < p.len() && p[j] == impl_clause(es[i].1, out[es[i].0]);
        assert(u[j] == p[j]);
    }
}

/// The implication of each pair in range is among the sum clauses with `a`.
pub proof fn lemma_sum_with_clause_in(
    a: usize,
    la: Lit,
    rs: Seq<(usize, Lit)>,
    out: Map<usize, Lit>,
    lo: int,
    hi: int,
    j: int,
)
    requires
        0 <= j < rs.len(),
        lo <= a + rs[j].0 <= hi,
    ensures
        sum_clauses_with(a, la, rs, out, lo, hi).contains(cube_impl_clause(la, rs[j].1, out[(a + rs[j].0) as usize])),
    decreases rs.len(),
{
    let u = sum_clauses_with(a, la, rs, out, lo, hi);
    if j == rs.len() - 1 {
        assert(u[u.len() - 1] == cube_impl_clause(la, rs[j].1, out[(a + rs[j].0) as usize]));
    } else {
        lemma_sum_with_clause_in(a, la, rs.drop_last(), out, lo, hi, j);
        assert(rs.drop_last()[j] == rs[j]);
        let p = sum_clauses_with(a, la, rs.drop_last(), out, lo, hi);
        let k = choose|k: int| 0 <= k < p.len() && p[k] == cube_impl_clause(la, rs[j].1, out[(a + rs[j].0) as usize]);
        assert(u[k] == p[k]);
    }
}

/// The implication of each pair in range is among the sum clauses.
pub proof fn lemma_sum_clause_in(
    ls: Seq<(usize, Lit)>,
    rs: Seq<(usize, Lit)>,
    out: Map<usize, Lit>,
    lo: int,
    hi: int,
    i: int,
    j: int,
)
    requires
        0 <= i < ls.len(),
        0 <= j < rs.len(),
        0 < ls[i].0 <= hi,
        lo <= ls[i].0 + rs[j].0 <= hi,
    ensures
        sum_clauses(ls, rs, out, lo, hi).contains(cube_impl_clause(ls[i].1, rs[j].1, out[(ls[i].0 + rs[j].0) as usize])),
    decreases ls.len(),
{
    let c = cube_impl_clause(ls[i].1, rs[j].1, out[(ls[i].0 + rs[j].0) as usize]);
    let u = sum_clauses(ls, rs, out, lo, hi);
    let p = sum_clauses(ls.drop_last(), rs, out, lo, hi);
    if i == ls.len() - 1 {
        lemma_sum_with_clause_in(ls[i].0, ls[i].1, rs, out, lo, hi, j);
        let w = sum_clauses_with(ls[i].0, ls[i].1, rs, out, lo, hi);
        let k = choose|k: int| 0 <= k < w.len() && w[k] == c;
        assert(u[p.len() + k] == c);
    } else {
        lemma_sum_clause_in(ls.drop_last(), rs, out, lo, hi, i, j);
        assert(ls.drop_last()[i] == ls[i]);
        let k = choose|k: int| 0 <= k < p.len() && p[k] == c;
        assert(u[k] == p[k]);
    }
}

/// Each output of weight in `(lo, hi]` has its negation in
/// `negated_in_range`.
pub proof fn lemma_negated_in_range(es: Seq<(usize, Lit)>, lo: int, hi: int, i: int)
    requires
        0 <= i < es.len(),
        lo < es[i].0 <= hi,
    ensures
        negated_in_range(es, lo, hi).contains(es[i].1.spec_negate()),
    decreases es.len(),
{
    let u = negated_in_range(es, lo, hi);
    if i == es.len() - 1 {
        assert(u[u.len() - 1] == es[i].1.spec_negate());
    } else {
        lemma_negated_in_range(es.drop_last(), lo, hi, i);
        assert(es.drop_last()[i] == es[i]);
        let p = negated_in_range(es.drop_last(), lo, hi);
        let k = choose|k: int| 0 <= k < p.len() && p[k] == es[i].1.spec_negate();
        assert(u[k] == p[k]);
    }
}

/// A satisfied conjunction that contains `c` satisfies `c`.
pub proof fn lemma_sat_contains(sigma: spec_fn(nat) -> bool, cnf: Seq<Seq<Lit>>, c: Seq<Lit>)
    requires
        cnf_sat(sigma, cnf),
        cnf.contains(c),
    ensures
        clause_sat(sigma, c),
{
    let k = choose|k: int| 0 <= k < cnf.len() && cnf[k] == c;
    assert(clause_sat(sigma, cnf[k]));
}

/// The literal a node hands on for a weight it has comes from one of its
/// entries.
pub proof fn lemma_lit_map_entry(n: Node, k: usize) -> (i: int)
    requires
        n.maps_wf(),
        n.lit_map().contains_key(k),
    ensures
        0 <= i < n.entries().len(),
        n.entries()[i].0 == k,
        n.entries()[i].1 == n.lit_map()[k],
{
    let i = choose|i: int| 0 <= i < n.entries().len() && (#[trigger] n.entries()[i]).0 == k;
    match n {
        Node::Leaf { .. } => {
            assert(crate::maps::distinct_keys(n.entries()));
        },
        Node::Internal { out_lits, .. } => {
            crate::maps::OutLits::lemma_sorted_distinct(out_lits.entries());
        },
    }
    crate::maps::lemma_entries_map_index(n.entries(), i);
    i
}

/// Under an assignment that satisfies the clauses of a subtree encoded up to
/// `m`, for each weight `s` in `(0, m]` of some set of true leaves, the
/// subtree hands on a literal for `s`, and that literal is true.
pub proof fn lemma_outputs_true(n: Node, m: int, sigma: spec_fn(nat) -> bool, s: int)
    requires
        n.maps_wf(),
        key_tree_encoded(n.key_tree(), m),
        cnf_sat(sigma, n.tree_clauses(m)),
        true_sums(n, sigma).contains(s),
        0 < s <= m,
        m <= usize::MAX,
    ensures
        n.lit_map().contains_key(s as usize),
        lit_true(sigma, n.lit_map()[s as usize]),
    decreases n,
{
    match n {
        Node::Leaf { lit, weight } => {
            assert(s == weight);
            assert(n.entries()[0].0 == weight);
            let i = choose|i: int| 0 <= i < n.entries().len() && (#[trigger] n.entries()[i]).0 == weight;
            assert(i == 0);
        },
        Node::Internal { out_lits, left, right, .. } => {
            let ls = left.entries();
            let rs = right.entries();
            let out = out_lits@;
            lemma_cnf_sat_concat(sigma, left.tree_clauses(m) + right.tree_clauses(m), crate::encodings::pb::gte::adder_clauses(ls, rs, out, 0, m));
            lemma_cnf_sat_concat(sigma, left.tree_clauses(m), right.tree_clauses(m));
            let adder = crate::encodings::pb::gte::adder_clauses(ls, rs, out, 0, m);
            lemma_cnf_sat_concat(sigma, unit_clauses(ls, out, 0, m) + unit_clauses(rs, out, 0, m), sum_clauses(ls, rs, out, 0, m));
            lemma_cnf_sat_concat(sigma, unit_clauses(ls, out, 0, m), unit_clauses(rs, out, 0, m));
            lemma_keys_entries(*left);
            lemma_keys_entries(*right);
            lemma_true_sums_total(*left, sigma);
            lemma_true_sums_total(*right, sigma);
            let (a, b) = choose|a: int, b: int|
                true_sums(*left, sigma).contains(a) && true_sums(*right, sigma).contains(b) && s == a + b;
            let need = needed(key_set(ls), key_set(rs), m);
            if b == 0 {
                lemma_outputs_true(*left, m, sigma, a);
                let i = lemma_lit_map_entry(*left, a as usize);
                assert(key_set(ls).contains(a as usize)) by {
                    assert(ls[i].0 == a);
                }
                assert(need.contains(s as usize));
                lemma_unit_clause_in(ls, out, 0, m, i);
                lemma_sat_contains(sigma, unit_clauses(ls, out, 0, m), impl_clause(ls[i].1, out[ls[i].0]));
                lemma_impl_sat(sigma, ls[i].1, out[ls[i].0]);
            } else if a == 0 {
                lemma_outputs_true(*right, m, sigma, b);
                let j = lemma_lit_map_entry(*right, b as usize);
                assert(key_set(rs).contains(b as usize)) by {
                    assert(rs[j].0 == b);
                }
                assert(need.contains(s as usize));
                lemma_unit_clause_in(rs, out, 0, m, j);
                lemma_sat_contains(sigma, unit_clauses(rs, out, 0, m), impl_clause(rs[j].1, out[rs[j].0]));
                lemma_impl_sat(sigma, rs[j].1, out[rs[j].0]);
            } else {
                lemma_outputs_true(*left, m, sigma, a);
                lemma_outputs_true(*right, m, sigma, b);
                let i = lemma_lit_map_entry(*left, a as usize);
                let j = lemma_lit_map_entry(*right, b as usize);
                assert(key_set(ls).contains(a as usize)) by {
                    assert(ls[i].0 == a);
                }
                assert(key_set(rs).contains(b as usize)) by {
                    assert(rs[j].0 == b);
                }
                assert(need.contains(s as usize));
                lemma_sum_clause_in(ls, rs, out, 0, m, i, j);
                let c = cube_impl_clause(ls[i].1, rs[j].1, out[(ls[i].0 + rs[j].0) as usize]);
                lemma_sat_contains(sigma, sum_clauses(ls, rs, out, 0, m), c);
                lemma_cube_impl_sat(sigma, ls[i].1, rs[j].1, out[(ls[i].0 + rs[j].0) as usize]);
            }
        },
    }
}

/// The leaves of a consistent subtree weigh its maximum value in total.
pub proof fn lemma_leaves_weight(n: Node)
    requires
        n.wf(),
    ensures
        total_weight(n.leaves()) == n.max_val_of(),
        n.leaves().len() >= 1,
    decreases n,
{
    match n {
        Node::Leaf { lit, weight } => {
            assert(n.leaves().drop_last() =~= Seq::<(Lit, usize)>::empty());
            assert(total_weight(Seq::<(Lit, usize)>::empty()) == 0);
            assert(n.leaves().last() == (lit, weight));
        },
        Node::Internal { left, right, .. } => {
            lemma_leaves_weight(*left);
            lemma_leaves_weight(*right);
            lemma_total_weight_concat(left.leaves(), right.leaves());
        },
    }
}

/// The total weight of a concatenation is the sum of the total weights.
pub proof fn lemma_total_weight_concat(a: Seq<(Lit, usize)>, b: Seq<(Lit, usize)>)
    ensures
        total_weight(a + b) == total_weight(a) + total_weight(b),
    decreases b.len(),
{
    if b.len() == 0 {
        assert(a + b =~= a);
    } else {
        lemma_total_weight_concat(a, b.drop_last());
        assert((a + b).drop_last() =~= a + b.drop_last());
    }
}

/// Literals that are all true weigh their total weight.
pub proof fn lemma_true_weight_all_true(s: Seq<(Lit, usize)>, sigma: spec_fn(nat) -> bool)
    requires
        forall|i: int| 0 <= i < s.len() ==> lit_true(sigma, (#[trigger] s[i]).0),
    ensures
        true_weight(s, sigma) == total_weight(s),
    decreases s.len(),
{
    if s.len() > 0 {
        assert forall|i: int| 0 <= i < s.drop_last().len() implies lit_true(sigma, (#[trigger] s.drop_last()[i]).0) by {
            assert(s.drop_last()[i] == s[i]);
        }
        lemma_true_weight_all_true(s.drop_last(), sigma);
        assert(lit_true(sigma, s[s.len() - 1].0));
    }
}

/// Total weights are not negative.
pub proof fn lemma_total_weight_nonneg(s: Seq<(Lit, usize)>)
    ensures
        total_weight(s) >= 0,
    decreases s.len(),
{
    if s.len() > 0 {
        lemma_total_weight_nonneg(s.drop_last());
    }
}

/// A prefix weighs at most the whole.
pub proof fn lemma_total_weight_prefix(s: Seq<(Lit, usize)>, i: int)
    requires
        0 <= i <= s.len(),
    ensures
        total_weight(s.take(i)) <= total_weight(s),
    decreases s.len(),
{
    if i < s.len() {
        assert(s.drop_last().take(i) =~= s.take(i));
        lemma_total_weight_prefix(s.drop_last(), i);
    } else {
        assert(s.take(i) =~= s);
    }
}

/// The true weight is at most the total weight.
pub proof fn lemma_true_weight_le_total(s: Seq<(Lit, usize)>, sigma: spec_fn(nat) -> bool)
    ensures
        true_weight(s, sigma) <= total_weight(s),
    decreases s.len(),
{
    if s.len() > 0 {
        lemma_true_weight_le_total(s.drop_last(), sigma);
    }
}

/// Under an assignment that satisfies the clauses of a tree of leaves of
/// weight at most 1 encoded up to `m`, and that makes false each output of
/// the root of weight in `(ub, ub + d]`, where `d` bounds the leaf weights
/// and the root was encoded at least up to `ub + d` or to its maximum value,
/// at most `ub` leaves are true.
pub proof fn lemma_tree_bounds_weight(n: Node, m: int, ub: int, d: int, sigma: spec_fn(nat) -> bool)
    requires
        n is Internal,
        n.wf(),
        n.maps_wf(),
        key_tree_encoded(n.key_tree(), m),
        m <= usize::MAX,
        n->max_enc <= m,
        cnf_sat(sigma, n.tree_clauses(m)),
        leaf_weights_at_most(n.leaves(), d),
        0 <= ub < n->max_val,
        n->max_enc >= ub + d || n->max_enc >= n->max_val || ub + d <= m,
        forall|i: int|
            0 <= i < negated_in_range(n->out_lits.entries(), ub, ub + d).len() ==> lit_true(
                sigma,
                #[trigger] negated_in_range(n->out_lits.entries(), ub, ub + d)[i],
            ),
    ensures
        true_weight(n.leaves(), sigma) <= ub,
{
    let tw = true_weight(n.leaves(), sigma);
    if tw > ub {
        lemma_true_sums_total(n, sigma);
        lemma_descend(n, sigma, d, ub, tw);
        let t = choose|t: int| #[trigger] true_sums(n, sigma).contains(t) && ub < t <= ub + d && t <= tw;
        lemma_leaves_weight(n);
        lemma_true_weight_le_total(n.leaves(), sigma);
        lemma_true_weight_bounds(n.leaves(), sigma);
        lemma_outputs_true(n, m, sigma, t);
        let i = lemma_lit_map_entry(n, t as usize);
        let es = n->out_lits.entries();
        lemma_negated_in_range(es, ub, ub + d, i);
        let ng = negated_in_range(es, ub, ub + d);
        let k = choose|k: int| 0 <= k < ng.len() && ng[k] == es[i].1.spec_negate();
        assert(lit_true(sigma, ng[k]));
        Lit::lemma_negate(es[i].1);
    }
}

/// The literals of `s` negated, with their weights.
pub open spec fn negated_lits(s: Seq<(Lit, usize)>) -> Seq<(Lit, usize)> {
    s.map_values(|e: (Lit, usize)| (e.0.spec_negate(), e.1))
}

/// The sum of the weights of `s`.
pub open spec fn total_weight(s: Seq<(Lit, usize)>) -> int
    decreases s.len(),
{
    if s.len() == 0 {
        0
    } else {
        total_weight(s.drop_last()) + s.last().1
    }
}

/// Entries of positive weight weigh at least their number.
pub proof fn lemma_total_weight_at_least_len(s: Seq<(Lit, usize)>)
    requires
        forall|i: int| 0 <= i < s.len() ==> (#[trigger] s[i]).1 >= 1,
    ensures
        total_weight(s) >= s.len(),
    decreases s.len(),
{
    if s.len() > 0 {
        assert forall|i: int| 0 <= i < s.drop_last().len() implies (#[trigger] s.drop_last()[i]).1 >= 1 by {
            assert(s.drop_last()[i] == s[i]);
        }
        lemma_total_weight_at_least_len(s.drop_last());
        assert(s[s.len() - 1].1 >= 1);
    }
}

/// Each weight counts either for a literal or for its negation.
pub proof fn lemma_negated_weight(s: Seq<(Lit, usize)>, sigma: spec_fn(nat) -> bool)
    ensures
        true_weight(negated_lits(s), sigma) + true_weight(s, sigma) == total_weight(s),
        leaf_weights_at_most(s, 1) && (forall|i: int| 0 <= i < s.len() ==> (#[trigger] s[i]).1 >= 1) ==> total_weight(s) == s.len(),
    decreases s.len(),
{
    if s.len() > 0 {
        lemma_negated_weight(s.drop_last(), sigma);
        assert(negated_lits(s).drop_last() =~= negated_lits(s.drop_last()));
        Lit::lemma_negate(s.last().0);
        if leaf_weights_at_most(s, 1) && (forall|i: int| 0 <= i < s.len() ==> (#[trigger] s[i]).1 >= 1) {
            assert(leaf_weights_at_most(s.drop_last(), 1)) by {
                assert forall|i: int| 0 <= i < s.drop_last().len() implies (#[trigger] s.drop_last()[i]).1 <= 1 by {
                    assert(s.drop_last()[i] == s[i]);
                }
            }
            assert forall|i: int| 0 <= i < s.drop_last().len() implies (#[trigger] s.drop_last()[i]).1 >= 1 by {
                assert(s.drop_last()[i] == s[i]);
            }
            assert(s[s.len() - 1].1 >= 1);
            assert(s[s.len() - 1].1 <= 1);
        }
    }
}

/// Each literal of `lits` with weight 1.
pub open spec fn ones(lits: Seq<Lit>) -> Seq<(Lit, usize)> {
    lits.map_values(|l: Lit| (l, 1usize))
}

/// The number of literals of `lits` that are true under `sigma`, counted
/// with repetition.
pub open spec fn count_true(lits: Seq<Lit>, sigma: spec_fn(nat) -> bool) -> int {
    true_weight(ones(lits), sigma)
}

/// The negations of the literals of `lits`.
pub open spec fn negations(lits: Seq<Lit>) -> Seq<Lit> {
    lits.map_values(|l: Lit| l.spec_negate())
}

/// Inserting by weight adds the inserted literal's weight.
pub proof fn lemma_true_weight_insert(t: Seq<(Lit, usize)>, e: (Lit, usize), sigma: spec_fn(nat) -> bool)
    ensures
        true_weight(insert_by_weight(t, e), sigma) == true_weight(t, sigma) + true_weight(seq![e], sigma),
    decreases t.len(),
{
    assert(seq![e].drop_last() =~= Seq::<(Lit, usize)>::empty());
    assert(true_weight(Seq::<(Lit, usize)>::empty(), sigma) == 0);
    assert(true_weight(seq![e], sigma) == if lit_true(sigma, e.0) { e.1 as int } else { 0 });
    if t.len() == 0 {
        assert(insert_by_weight(t, e) == seq![e]);
    } else if t.last().1 <= e.1 {
        assert(t.push(e).drop_last() =~= t);
    } else {
        lemma_true_weight_insert(t.drop_last(), e, sigma);
        let r = insert_by_weight(t.drop_last(), e);
        assert(r.push(t.last()).drop_last() =~= r);
    }
}

/// Sorting keeps the weight.
pub proof fn lemma_true_weight_sort(s: Seq<(Lit, usize)>, sigma: spec_fn(nat) -> bool)
    ensures
        true_weight(sort_by_weight(s), sigma) == true_weight(s, sigma),
    decreases s.len(),
{
    if s.len() > 0 {
        lemma_true_weight_sort(s.drop_last(), sigma);
        lemma_true_weight_insert(sort_by_weight(s.drop_last()), s.last(), sigma);
        assert(seq![s.last()].drop_last() =~= Seq::<(Lit, usize)>::empty());
        assert(true_weight(Seq::<(Lit, usize)>::empty(), sigma) == 0);
    }
}

/// The light and the heavy literals share the weight.
pub proof fn lemma_true_weight_split(s: Seq<(Lit, usize)>, b: usize, sigma: spec_fn(nat) -> bool)
    ensures
        true_weight(s.filter(weight_at_most(b)), sigma) + true_weight(s.filter(weight_above(b)), sigma)
            == true_weight(s, sigma),
    decreases s.len(),
{
    reveal(Seq::filter);
    if s.len() > 0 {
        lemma_true_weight_split(s.drop_last(), b, sigma);
        let lo = s.drop_last().filter(weight_at_most(b));
        let hi = s.drop_last().filter(weight_above(b));
        if s.last().1 <= b {
            assert(s.filter(weight_at_most(b)) == lo.push(s.last()));
            assert(lo.push(s.last()).drop_last() =~= lo);
        } else {
            assert(s.filter(weight_above(b)) == hi.push(s.last()));
            assert(hi.push(s.last()).drop_last() =~= hi);
        }
    }
}

/// Changing the weight of one entry changes the weight by the difference.
pub proof fn lemma_true_weight_update(s: Seq<(Lit, usize)>, i: int, w: usize, sigma: spec_fn(nat) -> bool)
    requires
        0 <= i < s.len(),
    ensures
        true_weight(s.update(i, (s[i].0, w)), sigma) == true_weight(s, sigma) + if lit_true(sigma, s[i].0) {
            w - s[i].1
        } else {
            0
        },
    decreases s.len(),
{
    let t = s.update(i, (s[i].0, w));
    if i == s.len() - 1 {
        assert(t.drop_last() =~= s.drop_last());
    } else {
        lemma_true_weight_update(s.drop_last(), i, w, sigma);
        assert(t.drop_last() =~= s.drop_last().update(i, (s[i].0, w)));
    }
}

/// Merging weights adds them up.
pub proof fn lemma_true_weight_merge(es: Seq<(Lit, usize)>, moved: Seq<(Lit, usize)>, sigma: spec_fn(nat) -> bool)
    requires
        crate::encodings::pb::gte::merge_fits(es, moved),
    ensures
        true_weight(merge_weights(es, moved), sigma) == true_weight(es, sigma) + true_weight(moved, sigma),
    decreases moved.len(),
{
    if moved.len() > 0 {
        lemma_true_weight_merge(es, moved.drop_last(), sigma);
        let prev = merge_weights(es, moved.drop_last());
        let e = moved.last();
        let nw = (weight_or_zero(entries_map(prev), e.0) + e.1) as usize;
        if has_key(prev, e.0) {
            let i = choose|i: int| 0 <= i < prev.len() && (#[trigger] prev[i]).0 == e.0;
            lemma_true_weight_update(prev, i, nw, sigma);
            assert(entries_map(prev).contains_key(e.0));
        } else {
            assert(prev.push((e.0, nw)).drop_last() =~= prev);
            assert(!entries_map(prev).contains_key(e.0));
        }
    }
}

/// Each literal counts either itself or its negation.
pub proof fn lemma_count_negations(lits: Seq<Lit>, sigma: spec_fn(nat) -> bool)
    ensures
        count_true(negations(lits), sigma) + count_true(lits, sigma) == lits.len(),
{
    let o = ones(lits);
    assert(negated_lits(o) =~= ones(negations(lits)));
    lemma_negated_weight(o, sigma);
    assert(leaf_weights_at_most(o, 1));
    assert forall|i: int| 0 <= i < o.len() implies (#[trigger] o[i]).1 >= 1 by {}
}

/// Inserting an entry adds its weight to the total.
pub proof fn lemma_total_weight_insert(t: Seq<(Lit, usize)>, e: (Lit, usize))
    ensures
        total_weight(insert_by_weight(t, e)) == total_weight(t) + e.1,
    decreases t.len(),
{
    assert(seq![e].drop_last() =~= Seq::<(Lit, usize)>::empty());
    assert(total_weight(Seq::<(Lit, usize)>::empty()) == 0);
    if t.len() == 0 {
        assert(insert_by_weight(t, e) == seq![e]);
    } else if t.last().1 <= e.1 {
        assert(t.push(e).drop_last() =~= t);
    } else {
        lemma_total_weight_insert(t.drop_last(), e);
        let r = insert_by_weight(t.drop_last(), e);
        assert(r.push(t.last()).drop_last() =~= r);
    }
}

/// Sorting keeps the total weight.
pub proof fn lemma_total_weight_sort(s: Seq<(Lit, usize)>)
    ensures
        total_weight(sort_by_weight(s)) == total_weight(s),
    decreases s.len(),
{
    if s.len() > 0 {
        lemma_total_weight_sort(s.drop_last());
        lemma_total_weight_insert(sort_by_weight(s.drop_last()), s.last());
    }
}

/// The light and the heavy entries share the total weight.
pub proof fn lemma_total_weight_split(s: Seq<(Lit, usize)>, b: usize)
    ensures
        total_weight(s.filter(weight_at_most(b))) + total_weight(s.filter(weight_above(b))) == total_weight(s),
    decreases s.len(),
{
    reveal(Seq::filter);
    if s.len() > 0 {
        lemma_total_weight_split(s.drop_last(), b);
        let lo = s.drop_last().filter(weight_at_most(b));
        let hi = s.drop_last().filter(weight_above(b));
        if s.last().1 <= b {
            assert(s.filter(weight_at_most(b)) == lo.push(s.last()));
            assert(lo.push(s.last()).drop_last() =~= lo);
        } else {
            assert(s.filter(weight_above(b)) == hi.push(s.last()));
            assert(hi.push(s.last()).drop_last() =~= hi);
        }
    }
}

/// Changing the weight of one entry changes the total by the difference.
pub proof fn lemma_total_weight_update(s: Seq<(Lit, usize)>, i: int, w: usize)
    requires
        0 <= i < s.len(),
    ensures
        total_weight(s.update(i, (s[i].0, w))) == total_weight(s) + w - s[i].1,
    decreases s.len(),
{
    let t = s.update(i, (s[i].0, w));
    if i == s.len() - 1 {
        assert(t.drop_last() =~= s.drop_last());
    } else {
        lemma_total_weight_update(s.drop_last(), i, w);
        assert(t.drop_last() =~= s.drop_last().update(i, (s[i].0, w)));
    }
}

/// Merging weights adds up their totals.
pub proof fn lemma_total_weight_merge(es: Seq<(Lit, usize)>, moved: Seq<(Lit, usize)>)
    requires
        crate::encodings::pb::gte::merge_fits(es, moved),
    ensures
        total_weight(merge_weights(es, moved)) == total_weight(es) + total_weight(moved),
    decreases moved.len(),
{
    if moved.len() > 0 {
        lemma_total_weight_merge(es, moved.drop_last());
        let prev = merge_weights(es, moved.drop_last());
        let e = moved.last();
        let nw = (weight_or_zero(entries_map(prev), e.0) + e.1) as usize;
        if has_key(prev, e.0) {
            let i = choose|i: int| 0 <= i < prev.len() && (#[trigger] prev[i]).0 == e.0;
            lemma_total_weight_update(prev, i, nw);
            assert(entries_map(prev).contains_key(e.0));
        } else {
            assert(prev.push((e.0, nw)).drop_last() =~= prev);
            assert(!entries_map(prev).contains_key(e.0));
        }
    }
}

/// The total weight of the entries of `s` with the literal `l`.
pub open spec fn lit_weight(s: Seq<(Lit, usize)>, l: Lit) -> int
    decreases s.len(),
{
    if s.len() == 0 {
        0
    } else {
        lit_weight(s.drop_last(), l) + if s.last().0 == l {
            s.last().1 as int
        } else {
            0
        }
    }
}

/// With distinct literals, a literal weighs what its entry says, and a
/// literal without an entry weighs nothing.
pub proof fn lemma_lit_weight_distinct(s: Seq<(Lit, usize)>, l: Lit)
    requires
        distinct_keys(s),
    ensures
        !has_key(s, l) ==> lit_weight(s, l) == 0,
        forall|i: int| 0 <= i < s.len() && (#[trigger] s[i]).0 == l ==> lit_weight(s, l) == s[i].1,
    decreases s.len(),
{
    if s.len() > 0 {
        let pre = s.drop_last();
        assert(distinct_keys(pre)) by {
            assert forall|i: int, j: int| 0 <= i < pre.len() && 0 <= j < pre.len() && i != j implies (#[trigger] pre[i]).0
                != (#[trigger] pre[j]).0 by {
                assert(s[i].0 != s[j].0);
            }
        }
        lemma_lit_weight_distinct(pre, l);
        if !has_key(s, l) {
            assert(!has_key(pre, l)) by {
                if has_key(pre, l) {
                    let q = choose|q: int| 0 <= q < pre.len() && (#[trigger] pre[q]).0 == l;
                    assert(s[q].0 == l);
                }
            }
            assert(s[s.len() - 1].0 != l);
        }
        assert forall|i: int| 0 <= i < s.len() && (#[trigger] s[i]).0 == l implies lit_weight(s, l) == s[i].1 by {
            if i == s.len() - 1 {
                assert(!has_key(pre, l)) by {
                    if has_key(pre, l) {
                        let q = choose|q: int| 0 <= q < pre.len() && (#[trigger] pre[q]).0 == l;
                        assert(s[q].0 == l);
                    }
                }
            } else {
                assert(pre[i] == s[i]);
                assert(s[s.len() - 1].0 != l);
            }
        }
    }
}

/// Setting the entry of `k` to `v` makes `k` weigh `v` and keeps the
/// weights of the other literals.
pub proof fn lemma_lit_weight_upsert(s: Seq<(Lit, usize)>, k: Lit, v: usize, l: Lit)
    requires
        distinct_keys(s),
    ensures
        lit_weight(upsert(s, k, v), l) == if l == k {
            v as int
        } else {
            lit_weight(s, l)
        },
        has_key(upsert(s, k, v), l) == (l == k || has_key(s, l)),
{
    let t = upsert(s, k, v);
    crate::maps::lemma_upsert_distinct(s, k, v);
    lemma_lit_weight_distinct(s, l);
    lemma_lit_weight_distinct(t, l);
    if has_key(s, k) {
        let p = choose|i: int| 0 <= i < s.len() && (#[trigger] s[i]).0 == k;
        assert(t == s.update(p, (k, v)));
        assert(t[p] == (k, v));
        if l != k {
            if has_key(s, l) {
                let j = choose|j: int| 0 <= j < s.len() && (#[trigger] s[j]).0 == l;
                assert(t[j] == s[j]);
            }
            if has_key(t, l) {
                let j = choose|j: int| 0 <= j < t.len() && (#[trigger] t[j]).0 == l;
                assert(t[j] == s[j]);
            }
        }
    } else {
        assert(t == s.push((k, v)));
        assert(t[s.len() as int] == (k, v));
        if l != k {
            if has_key(s, l) {
                let j = choose|j: int| 0 <= j < s.len() && (#[trigger] s[j]).0 == l;
                assert(t[j] == s[j]);
            }
            if has_key(t, l) {
                let j = choose|j: int| 0 <= j < t.len() && (#[trigger] t[j]).0 == l;
                assert(t[j] == s[j]);
            }
        }
    }
}

/// Merging weights adds up the weights of each literal, keeps the literals
/// distinct, and gives an entry to the literals of both.
pub proof fn lemma_lit_weight_merge(es: Seq<(Lit, usize)>, moved: Seq<(Lit, usize)>, l: Lit)
    requires
        distinct_keys(es),
        merge_fits(es, moved),
    ensures
        distinct_keys(merge_weights(es, moved)),
        lit_weight(merge_weights(es, moved), l) == lit_weight(es, l) + lit_weight(moved, l),
        has_key(merge_weights(es, moved), l) == (has_key(es, l) || has_key(moved, l)),
    decreases moved.len(),
{
    if moved.len() > 0 {
        let pre = moved.drop_last();
        let e = moved.last();
        lemma_lit_weight_merge(es, pre, l);
        lemma_lit_weight_merge(es, pre, e.0);
        let prev = merge_weights(es, pre);
        let nw = (weight_or_zero(entries_map(prev), e.0) + e.1) as usize;
        lemma_lit_weight_distinct(prev, e.0);
        if entries_map(prev).contains_key(e.0) {
            let j = choose|j: int| 0 <= j < prev.len() && (#[trigger] prev[j]).0 == e.0;
            crate::maps::lemma_entries_map_index(prev, j);
        }
        assert(nw == lit_weight(prev, e.0) + e.1);
        lemma_lit_weight_upsert(prev, e.0, nw, l);
        crate::maps::lemma_upsert_distinct(prev, e.0, nw);
        assert(has_key(moved, l) == (has_key(pre, l) || e.0 == l)) by {
            if has_key(moved, l) {
                let q = choose|q: int| 0 <= q < moved.len() && (#[trigger] moved[q]).0 == l;
                if q < pre.len() {
                    assert(pre[q] == moved[q]);
                }
            }
            if has_key(pre, l) {
                let q = choose|q: int| 0 <= q < pre.len() && (#[trigger] pre[q]).0 == l;
                assert(moved[q] == pre[q]);
            }
            if e.0 == l {
                assert(moved[moved.len() - 1].0 == l);
            }
        }
    }
}

/// With distinct literals, the map of the entries gives each literal with
/// an entry its weight.
pub proof fn lemma_entries_map_lit_weight(s: Seq<(Lit, usize)>, l: Lit)
    requires
        distinct_keys(s),
        has_key(s, l),
    ensures
        entries_map(s).contains_key(l),
        entries_map(s)[l] == lit_weight(s, l),
{
    let j = choose|j: int| 0 <= j < s.len() && (#[trigger] s[j]).0 == l;
    crate::maps::lemma_entries_map_index(s, j);
    lemma_lit_weight_distinct(s, l);
}

/// Adding weighted literals to a totalizer in either order leaves the same
/// buffered weights: merging `a` and then `b` into the buffer gives the same
/// map of literals to weights as merging `b` and then `a`.
pub proof fn lemma_add_commutes(g: GeneralizedTotalizer, a: LitWeights, b: LitWeights)
    requires
        g.wf(),
        a.wf(),
        b.wf(),
        merge_fits(g.buffer().entries(), a.entries()),
        merge_fits(merge_weights(g.buffer().entries(), a.entries()), b.entries()),
        merge_fits(g.buffer().entries(), b.entries()),
        merge_fits(merge_weights(g.buffer().entries(), b.entries()), a.entries()),
    ensures
        entries_map(merge_weights(merge_weights(g.buffer().entries(), a.entries()), b.entries())) == entries_map(
            merge_weights(merge_weights(g.buffer().entries(), b.entries()), a.entries()),
        ),
{
    let e = g.buffer().entries();
    let ab = merge_weights(merge_weights(e, a.entries()), b.entries());
    let ba = merge_weights(merge_weights(e, b.entries()), a.entries());
    assert forall|l: Lit| #![trigger has_key(ab, l)] #![trigger has_key(ba, l)]
        has_key(ab, l) == has_key(ba, l) && lit_weight(ab, l) == lit_weight(ba, l) by {
        lemma_lit_weight_merge(e, a.entries(), l);
        lemma_lit_weight_merge(merge_weights(e, a.entries()), b.entries(), l);
        lemma_lit_weight_merge(e, b.entries(), l);
        lemma_lit_weight_merge(merge_weights(e, b.entries()), a.entries(), l);
    }
    assert forall|l: Lit| #[trigger] entries_map(ab).contains_key(l) implies entries_map(ba).contains_key(l)
        && entries_map(ab)[l] == entries_map(ba)[l] by {
        lemma_lit_weight_merge(e, a.entries(), l);
        lemma_lit_weight_merge(merge_weights(e, a.entries()), b.entries(), l);
        lemma_lit_weight_merge(e, b.entries(), l);
        lemma_lit_weight_merge(merge_weights(e, b.entries()), a.entries(), l);
        assert(has_key(ab, l));
        lemma_entries_map_lit_weight(ab, l);
        lemma_entries_map_lit_weight(ba, l);
    }
    assert forall|l: Lit| #[trigger] entries_map(ba).contains_key(l) implies entries_map(ab).contains_key(l) by {
        assert(has_key(ba, l));
    }
    assert(entries_map(ab) =~= entries_map(ba));
}

/// The weight of a literal in two sequences one after the other adds up.
pub proof fn lemma_lit_weight_concat(a: Seq<(Lit, usize)>, b: Seq<(Lit, usize)>, l: Lit)
    ensures
        lit_weight(a + b, l) == lit_weight(a, l) + lit_weight(b, l),
    decreases b.len(),
{
    if b.len() == 0 {
        assert(a + b =~= a);
    } else {
        lemma_lit_weight_concat(a, b.drop_last(), l);
        assert((a + b).drop_last() =~= a + b.drop_last());
    }
}

/// Sorting by weight keeps the weight of each literal.
pub proof fn lemma_lit_weight_sort(s: Seq<(Lit, usize)>, l: Lit)
    ensures
        lit_weight(sort_by_weight(s), l) == lit_weight(s, l),
    decreases s.len(),
{
    if s.len() > 0 {
        lemma_lit_weight_sort(s.drop_last(), l);
        lemma_lit_weight_insert(sort_by_weight(s.drop_last()), s.last(), l);
    }
}

/// Inserting an entry adds its weight to its literal.
pub proof fn lemma_lit_weight_insert(t: Seq<(Lit, usize)>, e: (Lit, usize), l: Lit)
    ensures
        lit_weight(insert_by_weight(t, e), l) == lit_weight(t, l) + if e.0 == l {
            e.1 as int
        } else {
            0
        },
    decreases t.len(),
{
    if t.len() == 0 {
        assert(seq![e].drop_last() =~= Seq::<(Lit, usize)>::empty());
        assert(insert_by_weight(t, e) == seq![e]);
        assert(lit_weight(Seq::<(Lit, usize)>::empty(), l) == 0);
        assert(lit_weight(t, l) == 0);
    } else if t.last().1 <= e.1 {
        assert(t.push(e).drop_last() =~= t);
    } else {
        lemma_lit_weight_insert(t.drop_last(), e, l);
        let r = insert_by_weight(t.drop_last(), e);
        assert(r.push(t.last()).drop_last() =~= r);
    }
}

/// Giving every entry its tree literal keeps the weight of each literal,
/// now carried by its tree literal.
pub proof fn lemma_lit_weight_tree_lit(g: GeneralizedTotalizer, s: Seq<(Lit, usize)>, l: Lit)
    ensures
        lit_weight(s.map_values(|e: (Lit, usize)| (g.tree_lit(e.0), e.1)), g.tree_lit(l)) == lit_weight(s, l),
    decreases s.len(),
{
    if s.len() > 0 {
        let t = s.map_values(|e: (Lit, usize)| (g.tree_lit(e.0), e.1));
        assert(t.drop_last() =~= s.drop_last().map_values(|e: (Lit, usize)| (g.tree_lit(e.0), e.1)));
        lemma_lit_weight_tree_lit(g, s.drop_last(), l);
        Lit::lemma_negate(l);
        Lit::lemma_negate(s.last().0);
        assert(t.last() == (g.tree_lit(s.last().0), s.last().1));
        if g.tree_lit(s.last().0) == g.tree_lit(l) {
            if g.bound() != BoundType::UB {
                assert(s.last().0.spec_negate().spec_negate() == l.spec_negate().spec_negate());
            }
        }
    }
}

/// Moving the light entries of a buffer merges exactly them.
pub proof fn lemma_merge_moved_filter(es: Seq<(Lit, usize)>, buf: Seq<(Lit, usize)>, b: usize)
    ensures
        merge_moved(es, buf, b) == merge_weights(es, buf.filter(weight_at_most(b))),
        merge_moved_fits(es, buf, b) ==> merge_fits(es, buf.filter(weight_at_most(b))),
    decreases buf.len(),
{
    reveal(Seq::filter);
    if buf.len() > 0 {
        lemma_merge_moved_filter(es, buf.drop_last(), b);
        let f = buf.drop_last().filter(weight_at_most(b));
        if buf.last().1 <= b {
            assert(buf.filter(weight_at_most(b)) == f.push(buf.last()));
            assert(f.push(buf.last()).drop_last() =~= f);
        } else {
            assert(buf.filter(weight_at_most(b)) == f);
        }
    }
}

/// The leaves of the tree are the literals moved into it, each given as its
/// tree literal: every literal weighs as much among the moved literals as its
/// tree literal weighs among the leaves.
pub open spec fn leaves_match(g: GeneralizedTotalizer) -> bool {
    forall|l: Lit| #[trigger] lit_weight(g.in_lits().entries(), l) == lit_weight(g.tree_leaves(), g.tree_lit(l))
}

/// A fresh totalizer's leaves match the literals moved into it.
pub proof fn lemma_fresh_leaves_match(g: GeneralizedTotalizer, bound_type: BoundType, reserving: bool)
    requires
        g.is_fresh(bound_type, reserving),
    ensures
        leaves_match(g),
{
    assert(g.in_lits().entries() =~= Seq::<(Lit, usize)>::empty());
}

/// Extending the tree keeps its leaves matching the literals moved into it:
/// the literals moved from the buffer are added to both.
pub proof fn lemma_extend_leaves_match(g0: GeneralizedTotalizer, g1: GeneralizedTotalizer, b: usize)
    requires
        g0.wf(),
        g0.extend_ok(b),
        g0.extended_to(g1, b),
        leaves_match(g0),
    ensures
        leaves_match(g1),
{
    let in0 = g0.in_lits().entries();
    let moved = g0.moved(b);
    let mm = moved.map_values(|e: (Lit, usize)| (g0.tree_lit(e.0), e.1));
    lemma_merge_moved_filter(in0, g0.buffer().entries(), b);
    crate::encodings::pb::gte::lemma_sort_by_weight(mm);
    if g0.new_leaves(b).len() == 0 {
        assert(moved =~= Seq::<(Lit, usize)>::empty());
    }
    assert(merge_fits(in0, moved));
    assert forall|l: Lit| #[trigger] lit_weight(g1.in_lits().entries(), l) == lit_weight(
        g1.tree_leaves(),
        g1.tree_lit(l),
    ) by {
        lemma_lit_weight_merge(in0, moved, l);
        lemma_lit_weight_concat(g0.tree_leaves(), g0.new_leaves(b), g0.tree_lit(l));
        lemma_lit_weight_sort(mm, g0.tree_lit(l));
        lemma_lit_weight_tree_lit(g0, moved, l);
        assert(lit_weight(in0, l) == lit_weight(g0.tree_leaves(), g0.tree_lit(l)));
    }
}

/// Adding literals to the buffer keeps the leaves matching the literals
/// moved into the tree.
pub proof fn lemma_add_leaves_match(g0: GeneralizedTotalizer, g1: GeneralizedTotalizer)
    requires
        g0.same_but_buffer(g1),
        leaves_match(g0),
    ensures
        leaves_match(g1),
{
}

/// Adding two maps of weighted literals one after the other leaves the same
/// buffered weights as adding once the map of their summed weights.
pub proof fn lemma_add_summed(g: GeneralizedTotalizer, a: LitWeights, b: LitWeights)
    requires
        g.wf(),
        a.wf(),
        b.wf(),
        merge_fits(g.buffer().entries(), a.entries()),
        merge_fits(merge_weights(g.buffer().entries(), a.entries()), b.entries()),
        merge_fits(a.entries(), b.entries()),
        merge_fits(g.buffer().entries(), merge_weights(a.entries(), b.entries())),
    ensures
        entries_map(merge_weights(merge_weights(g.buffer().entries(), a.entries()), b.entries())) == entries_map(
            merge_weights(g.buffer().entries(), merge_weights(a.entries(), b.entries())),
        ),
{
    let e = g.buffer().entries();
    let c = merge_weights(a.entries(), b.entries());
    let ab = merge_weights(merge_weights(e, a.entries()), b.entries());
    let ec = merge_weights(e, c);
    assert forall|l: Lit| #![trigger has_key(ab, l)] #![trigger has_key(ec, l)]
        has_key(ab, l) == has_key(ec, l) && lit_weight(ab, l) == lit_weight(ec, l) by {
        lemma_lit_weight_merge(e, a.entries(), l);
        lemma_lit_weight_merge(merge_weights(e, a.entries()), b.entries(), l);
        lemma_lit_weight_merge(a.entries(), b.entries(), l);
        lemma_lit_weight_merge(e, c, l);
    }
    assert forall|l: Lit| #[trigger] entries_map(ab).contains_key(l) implies entries_map(ec).contains_key(l)
        && entries_map(ab)[l] == entries_map(ec)[l] by {
        lemma_lit_weight_merge(e, a.entries(), l);
        lemma_lit_weight_merge(merge_weights(e, a.entries()), b.entries(), l);
        lemma_lit_weight_merge(a.entries(), b.entries(), l);
        lemma_lit_weight_merge(e, c, l);
        assert(has_key(ab, l));
        lemma_entries_map_lit_weight(ab, l);
        lemma_entries_map_lit_weight(ec, l);
    }
    assert forall|l: Lit| #[trigger] entries_map(ec).contains_key(l) implies entries_map(ab).contains_key(l) by {
        assert(has_key(ec, l));
    }
    assert(entries_map(ab) =~= entries_map(ec));
}

/// The largest weight of `a + b` from `init` is the largest weight of `b`
/// from the largest weight of `a`.
pub proof fn lemma_largest_concat(a: Seq<(Lit, usize)>, b: Seq<(Lit, usize)>, init: usize)
    ensures
        largest_weight(a + b, init) == largest_weight(b, largest_weight(a, init)),
    decreases b.len(),
{
    if b.len() == 0 {
        assert(a + b =~= a);
    } else {
        lemma_largest_concat(a, b.drop_last(), init);
        assert((a + b).drop_last() =~= a + b.drop_last());
    }
}

/// The largest weight is the start or one of the weights, and no weight
/// exceeds it.
pub proof fn lemma_largest_attained(s: Seq<(Lit, usize)>, init: usize)
    ensures
        init <= largest_weight(s, init),
        forall|i: int| 0 <= i < s.len() ==> (#[trigger] s[i]).1 <= largest_weight(s, init),
        largest_weight(s, init) == init || exists|i: int| 0 <= i < s.len() && (#[trigger] s[i]).1 == largest_weight(
            s,
            init,
        ),
    decreases s.len(),
{
    crate::encodings::pb::gte::lemma_max_weight(s, init);
    if s.len() > 0 {
        lemma_largest_attained(s.drop_last(), init);
        let m = largest_weight(s.drop_last(), init);
        if s.last().1 > m {
            assert(s[s.len() - 1].1 == largest_weight(s, init));
        } else if m != init {
            let i = choose|i: int| 0 <= i < s.drop_last().len() && (#[trigger] s.drop_last()[i]).1 == m;
            assert(s[i].1 == largest_weight(s, init));
        }
    }
}

/// Whether some entry of `t` has weight `w`.
pub open spec fn has_weight(t: Seq<(Lit, usize)>, w: usize) -> bool {
    exists|j: int| 0 <= j < t.len() && t[j].1 == w
}

/// Sequences with the same weights have the same largest weight.
pub proof fn lemma_largest_same_weights(s: Seq<(Lit, usize)>, t: Seq<(Lit, usize)>, init: usize)
    requires
        forall|i: int| 0 <= i < s.len() ==> has_weight(t, (#[trigger] s[i]).1),
        forall|j: int| 0 <= j < t.len() ==> has_weight(s, (#[trigger] t[j]).1),
    ensures
        largest_weight(s, init) == largest_weight(t, init),
{
    lemma_largest_attained(s, init);
    lemma_largest_attained(t, init);
    let x = largest_weight(s, init);
    let y = largest_weight(t, init);
    if x != init {
        let i = choose|i: int| 0 <= i < s.len() && (#[trigger] s[i]).1 == x;
        assert(has_weight(t, s[i].1));
        let j = choose|j: int| 0 <= j < t.len() && t[j].1 == s[i].1;
        assert(t[j].1 <= y);
    }
    if y != init {
        let j = choose|j: int| 0 <= j < t.len() && (#[trigger] t[j]).1 == y;
        assert(has_weight(s, t[j].1));
        let i = choose|i: int| 0 <= i < s.len() && s[i].1 == t[j].1;
        assert(s[i].1 <= x);
    }
}

/// The maximum leaf weight is exactly the largest weight of a leaf of the
/// tree, 0 without one.
pub open spec fn leaf_weight_exact(g: GeneralizedTotalizer) -> bool {
    g.leaf_weight_max() == largest_weight(g.tree_leaves(), 0)
}

/// Sorting keeps every entry, and adds none.
pub proof fn lemma_sort_same_entries(s: Seq<(Lit, usize)>)
    ensures
        forall|i: int| 0 <= i < sort_by_weight(s).len() ==> s.contains(#[trigger] sort_by_weight(s)[i]),
        forall|j: int| 0 <= j < s.len() ==> sort_by_weight(s).contains(#[trigger] s[j]),
{
    crate::encodings::pb::gte::lemma_sort_by_weight(s);
    crate::encodings::pb::gte::lemma_sort_by_weight_sorts(s);
    assert forall|j: int| 0 <= j < s.len() implies sort_by_weight(s).contains(#[trigger] s[j]) by {
        broadcast use vstd::seq_lib::group_to_multiset_ensures;
        assert(s.contains(s[j]));
        assert(s.to_multiset().count(s[j]) > 0);
    }
}

/// Appending the sorted relabelled moved entries to the leaves gives the
/// largest weight of the moved entries from the largest leaf weight.
pub proof fn lemma_largest_extend(leaves: Seq<(Lit, usize)>, moved: Seq<(Lit, usize)>, mm: Seq<(Lit, usize)>)
    requires
        mm.len() == moved.len(),
        forall|j: int| 0 <= j < mm.len() ==> (#[trigger] mm[j]).1 == moved[j].1,
    ensures
        largest_weight(leaves + sort_by_weight(mm), 0) == largest_weight(moved, largest_weight(leaves, 0)),
{
    let n = sort_by_weight(mm);
    lemma_largest_concat(leaves, n, 0);
    lemma_sort_same_entries(mm);
    crate::encodings::pb::gte::lemma_sort_by_weight(mm);
    assert forall|i: int| 0 <= i < n.len() implies has_weight(moved, (#[trigger] n[i]).1) by {
        assert(mm.contains(n[i]));
        let j = choose|j: int| 0 <= j < mm.len() && mm[j] == n[i];
        assert(moved[j].1 == mm[j].1);
    }
    assert forall|j: int| 0 <= j < moved.len() implies has_weight(n, (#[trigger] moved[j]).1) by {
        assert(mm[j].1 == moved[j].1);
        assert(n.contains(mm[j]));
        let i = choose|i: int| 0 <= i < n.len() && n[i] == mm[j];
        assert(n[i].1 == moved[j].1);
    }
    lemma_largest_same_weights(n, moved, largest_weight(leaves, 0));
}

/// Extending the tree keeps the maximum leaf weight exact.
pub proof fn lemma_extend_leaf_weight_exact(g0: GeneralizedTotalizer, g1: GeneralizedTotalizer, b: usize)
    requires
        g0.extended_to(g1, b),
        leaf_weight_exact(g0),
    ensures
        leaf_weight_exact(g1),
{
    let moved = g0.moved(b);
    let mm = moved.map_values(|e: (Lit, usize)| (g0.tree_lit(e.0), e.1));
    assert(g0.new_leaves(b) == sort_by_weight(mm));
    lemma_largest_extend(g0.tree_leaves(), moved, mm);
}

/// Adding literals to the buffer keeps the maximum leaf weight exact, and a
/// fresh totalizer has it exact.
pub proof fn lemma_add_leaf_weight_exact(g0: GeneralizedTotalizer, g1: GeneralizedTotalizer)
    requires
        g0.same_but_buffer(g1),
        leaf_weight_exact(g0),
    ensures
        leaf_weight_exact(g1),
{
}

/// A fresh totalizer has its maximum leaf weight exact.
pub proof fn lemma_fresh_leaf_weight_exact(g: GeneralizedTotalizer, bound_type: BoundType, reserving: bool)
    requires
        g.is_fresh(bound_type, reserving),
    ensures
        leaf_weight_exact(g),
{
    assert(g.tree_leaves() =~= Seq::<(Lit, usize)>::empty());
}

/// A tree exists exactly when some literal was moved into it: extending keeps
/// this.
pub proof fn lemma_extend_tree_has_inputs(g0: GeneralizedTotalizer, g1: GeneralizedTotalizer, b: usize)
    requires
        g0.wf(),
        g0.extend_ok(b),
        g0.extended_to(g1, b),
        g0.root() is Some <==> g0.in_lits().entries().len() > 0,
    ensures
        g1.root() is Some <==> g1.in_lits().entries().len() > 0,
{
    let in0 = g0.in_lits().entries();
    let in1 = g1.in_lits().entries();
    let moved = g0.moved(b);
    let mm = moved.map_values(|e: (Lit, usize)| (g0.tree_lit(e.0), e.1));
    lemma_merge_moved_filter(in0, g0.buffer().entries(), b);
    crate::encodings::pb::gte::lemma_sort_by_weight(mm);
    if g0.new_leaves(b).len() == 0 {
        assert(moved =~= Seq::<(Lit, usize)>::empty());
    }
    assert(merge_fits(in0, moved));
    if g1.root() is Some {
        if in0.len() > 0 {
            lemma_lit_weight_merge(in0, moved, in0[0].0);
            assert(has_key(in0, in0[0].0));
        } else {
            assert(g0.root() is None);
            if moved.len() == 0 {
                assert(g1.tree_leaves() =~= Seq::<(Lit, usize)>::empty());
                crate::encodings::pb::semantics::lemma_leaves_weight(*g1.root().unwrap());
            } else {
                lemma_lit_weight_merge(in0, moved, moved[0].0);
                assert(has_key(moved, moved[0].0));
            }
        }
        assert(in1.len() > 0);
    } else {
        if in1.len() > 0 {
            lemma_lit_weight_merge(in0, moved, in1[0].0);
            assert(has_key(in1, in1[0].0));
            if has_key(in0, in1[0].0) {
                assert(in0.len() > 0);
            } else {
                assert(moved.len() > 0);
                assert(g1.tree_leaves().len() > 0);
            }
        }
    }
}

/// A literal weighs at most the total weight.
pub proof fn lemma_lit_weight_le_total(s: Seq<(Lit, usize)>, l: Lit)
    ensures
        0 <= lit_weight(s, l) <= total_weight(s),
    decreases s.len(),
{
    if s.len() > 0 {
        lemma_lit_weight_le_total(s.drop_last(), l);
    }
}

/// An upper bound that the whole tree cannot exceed needs no encoding: for
/// an upper bounding totalizer whose tree's leaves weigh at most `ub` in
/// total and whose buffered literals all weigh more than `ub`,
/// `enforce_ub(ub)` succeeds however far the tree was encoded; where the
/// leaves match the literals moved into the tree, it assumes exactly the
/// negations of the buffered literals.
pub proof fn lemma_enforce_ub_above_total(g: GeneralizedTotalizer, ub: usize)
    requires
        g.wf(),
        g.bound() == BoundType::UB,
        g.tree_total() <= ub,
        !g.buffer_has_weight_at_most(ub),
    ensures
        g.enforce_ub_result(ub) is Ok,
        leaves_match(g) ==> g.enforce_ub_result(ub) == Ok::<Seq<Lit>, crate::encodings::EncodingError>(
            lits_of(g.buffer().entries(), true),
        ),
{
    assert(g.tree_ub_result(ub) == Ok::<Seq<Lit>, crate::encodings::EncodingError>(Seq::empty()));
    if leaves_match(g) {
        let ie = g.in_lits().entries();
        if let Some(r) = g.root() {
            lemma_leaves_weight(*r);
        }
        assert(ie.filter(weight_above(ub)) =~= Seq::<(Lit, usize)>::empty()) by {
            if ie.filter(weight_above(ub)).len() > 0 {
                let e = ie.filter(weight_above(ub))[0];
                ie.lemma_filter_pred(weight_above(ub), 0);
                ie.lemma_filter_contains_rev(weight_above(ub), e);
                let i = choose|i: int| 0 <= i < ie.len() && ie[i] == e;
                lemma_lit_weight_distinct(ie, e.0);
                assert(lit_weight(ie, e.0) == e.1);
                assert(lit_weight(ie, e.0) == lit_weight(g.tree_leaves(), g.tree_lit(e.0)));
                lemma_lit_weight_le_total(g.tree_leaves(), g.tree_lit(e.0));
                if g.root() is None {
                    assert(g.tree_leaves() =~= Seq::<(Lit, usize)>::empty());
                }
            }
        }
        assert(lits_of(ie.filter(weight_above(ub)), true) =~= Seq::<Lit>::empty());
        assert(lits_of(g.buffer().entries(), true) + Seq::<Lit>::empty() + Seq::<Lit>::empty() =~= lits_of(
            g.buffer().entries(),
            true,
        ));
    }
}

/// The same holds of lower bounds: where `lb` converts to a bound on the
/// tree that its leaves cannot exceed and no buffered literal weighs that
/// little, `enforce_lb(lb)` succeeds however far the tree was encoded.
pub proof fn lemma_enforce_lb_above_total(g: GeneralizedTotalizer, lb: usize, ub: usize)
    requires
        g.wf(),
        g.bound() == BoundType::LB,
        g.converted_bound(lb) == Ok::<usize, crate::encodings::EncodingError>(ub),
        g.tree_total() <= ub,
        !g.buffer_has_weight_at_most(ub),
    ensures
        g.enforce_lb_result(lb) is Ok,
{
    assert(g.tree_ub_result(ub) == Ok::<Seq<Lit>, crate::encodings::EncodingError>(Seq::empty()));
}

} // verus!
