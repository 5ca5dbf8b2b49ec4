//! Completeness of the totalizer tree: every assignment of the input
//! literals extends, on the variables of the output literals, to an
//! assignment that satisfies the tree's clauses, where each output literal
//! of a node is true exactly when the true leaves below the node weigh at
//! least its weight.

use vstd::prelude::*;
use crate::types::Lit;
use crate::instances::{lit_true, clause_sat, cnf_sat, impl_clause, cube_impl_clause};
use crate::maps::{entries_map, has_key, OutLits};
use crate::encodings::pb::gte::{
    Node, unit_clauses, sum_clauses, sum_clauses_with, adder_clauses, needed, key_set, lemma_keys_entries,
    negated_in_range,
};
use crate::encodings::pb::fresh::{fresh_outputs, out_vars, own_vars, lemma_fresh_range};
use crate::encodings::pb::semantics::{
    true_weight, key_tree_encoded, lemma_true_weight_concat, lemma_true_weight_bounds,
};

verus! {

/// Each literal of the entries of `es` that is true under `w` has a weight
/// of at most `s`.
pub open spec fn entries_bounded(es: Seq<(usize, Lit)>, w: spec_fn(nat) -> bool, s: int) -> bool {
    forall|i: int| 0 <= i < es.len() && lit_true(w, (#[trigger] es[i]).1) ==> es[i].0 <= s
}

/// Each output literal of `out` whose weight is at most `total` is true
/// under `w`.
pub open spec fn outputs_reach(out: Map<usize, Lit>, w: spec_fn(nat) -> bool, total: int) -> bool {
    forall|k: usize| out.contains_key(k) && k <= total ==> lit_true(w, #[trigger] out[k])
}

/// Two satisfied clause sets satisfy their concatenation.
pub proof fn lemma_cnf_sat_join(w: spec_fn(nat) -> bool, a: Seq<Seq<Lit>>, b: Seq<Seq<Lit>>)
    requires
        cnf_sat(w, a),
        cnf_sat(w, b),
    ensures
        cnf_sat(w, a + b),
{
    assert forall|i: int| 0 <= i < (a + b).len() implies clause_sat(w, #[trigger] (a + b)[i]) by {
        if i < a.len() {
            assert((a + b)[i] == a[i]);
        } else {
            assert((a + b)[i] == b[i - a.len()]);
        }
    }
}

/// A literal and its negation take opposite values.
pub proof fn lemma_negate_value(w: spec_fn(nat) -> bool, l: Lit)
    ensures
        lit_true(w, l.spec_negate()) == !lit_true(w, l),
{
    Lit::lemma_negate(l);
}

/// The clauses `l -> out(k)` hold when each true child literal's weight is
/// reached by the node's total.
pub proof fn lemma_unit_clauses_sat(
    es: Seq<(usize, Lit)>,
    out: Map<usize, Lit>,
    lo: int,
    hi: int,
    w: spec_fn(nat) -> bool,
    s: int,
    total: int,
)
    requires
        entries_bounded(es, w, s),
        s <= total,
        outputs_reach(out, w, total),
        forall|i: int| 0 <= i < es.len() && lo <= (#[trigger] es[i]).0 <= hi ==> out.contains_key(es[i].0),
    ensures
        cnf_sat(w, unit_clauses(es, out, lo, hi)),
    decreases es.len(),
{
    if es.len() > 0 {
        let pre = es.drop_last();
        assert forall|i: int| 0 <= i < pre.len() && lit_true(w, (#[trigger] pre[i]).1) implies pre[i].0 <= s by {
            assert(pre[i] == es[i]);
        }
        assert forall|i: int| 0 <= i < pre.len() && lo <= (#[trigger] pre[i]).0 <= hi implies out.contains_key(pre[i].0) by {
            assert(pre[i] == es[i]);
        }
        lemma_unit_clauses_sat(pre, out, lo, hi, w, s, total);
        let e = es.last();
        let prev = unit_clauses(pre, out, lo, hi);
        if lo <= e.0 <= hi {
            let c = impl_clause(e.1, out[e.0]);
            lemma_negate_value(w, e.1);
            assert(es[es.len() - 1] == e);
            if lit_true(w, e.1) {
                assert(lit_true(w, c[1]));
            } else {
                assert(lit_true(w, c[0]));
            }
            assert(clause_sat(w, c));
            assert forall|i: int| 0 <= i < prev.push(c).len() implies clause_sat(w, #[trigger] prev.push(c)[i]) by {
                if i < prev.len() {
                    assert(prev.push(c)[i] == prev[i]);
                }
            }
        }
    }
}

/// The clauses `la & lb -> out(a + b)` hold when the weights of the true
/// literals add up to at most the node's total.
pub proof fn lemma_sum_clauses_with_sat(
    a: usize,
    la: Lit,
    rs: Seq<(usize, Lit)>,
    out: Map<usize, Lit>,
    lo: int,
    hi: int,
    w: spec_fn(nat) -> bool,
    sl: int,
    sr: int,
    total: int,
)
    requires
        lit_true(w, la) ==> a <= sl,
        entries_bounded(rs, w, sr),
        sl + sr <= total,
        outputs_reach(out, w, total),
        forall|i: int| 0 <= i < rs.len() && lo <= a + (#[trigger] rs[i]).0 <= hi ==> out.contains_key((a + rs[i].0) as usize),
    ensures
        cnf_sat(w, sum_clauses_with(a, la, rs, out, lo, hi)),
    decreases rs.len(),
{
    if rs.len() > 0 {
        let pre = rs.drop_last();
        assert forall|i: int| 0 <= i < pre.len() && lit_true(w, (#[trigger] pre[i]).1) implies pre[i].0 <= sr by {
            assert(pre[i] == rs[i]);
        }
        assert forall|i: int| 0 <= i < pre.len() && lo <= a + (#[trigger] pre[i]).0 <= hi implies out.contains_key(
            (a + pre[i].0) as usize,
        ) by {
            assert(pre[i] == rs[i]);
        }
        lemma_sum_clauses_with_sat(a, la, pre, out, lo, hi, w, sl, sr, total);
        let e = rs.last();
        let prev = sum_clauses_with(a, la, pre, out, lo, hi);
        if lo <= a + e.0 <= hi {
            let k = (a + e.0) as usize;
            let c = cube_impl_clause(la, e.1, out[k]);
            lemma_negate_value(w, la);
            lemma_negate_value(w, e.1);
            assert(rs[rs.len() - 1] == e);
            if lit_true(w, la) && lit_true(w, e.1) {
                assert(out.contains_key(k));
                assert(lit_true(w, c[2]));
            } else if !lit_true(w, la) {
                assert(lit_true(w, c[0]));
            } else {
                assert(lit_true(w, c[1]));
            }
            assert(clause_sat(w, c));
            assert forall|i: int| 0 <= i < prev.push(c).len() implies clause_sat(w, #[trigger] prev.push(c)[i]) by {
                if i < prev.len() {
                    assert(prev.push(c)[i] == prev[i]);
                }
            }
        }
    }
}

/// The clauses of all sums hold when the weights of the true literals on
/// each side add up to at most the node's total.
pub proof fn lemma_sum_clauses_sat(
    ls: Seq<(usize, Lit)>,
    rs: Seq<(usize, Lit)>,
    out: Map<usize, Lit>,
    lo: int,
    hi: int,
    w: spec_fn(nat) -> bool,
    sl: int,
    sr: int,
    total: int,
)
    requires
        entries_bounded(ls, w, sl),
        entries_bounded(rs, w, sr),
        sl + sr <= total,
        outputs_reach(out, w, total),
        forall|i: int, j: int|
            0 <= i < ls.len() && 0 <= j < rs.len() && 0 < (#[trigger] ls[i]).0 <= hi && lo <= ls[i].0 + (
            #[trigger] rs[j]).0 <= hi ==> out.contains_key((ls[i].0 + rs[j].0) as usize),
    ensures
        cnf_sat(w, sum_clauses(ls, rs, out, lo, hi)),
    decreases ls.len(),
{
    if ls.len() > 0 {
        let pre = ls.drop_last();
        assert forall|i: int| 0 <= i < pre.len() && lit_true(w, (#[trigger] pre[i]).1) implies pre[i].0 <= sl by {
            assert(pre[i] == ls[i]);
        }
        assert forall|i: int, j: int|
            0 <= i < pre.len() && 0 <= j < rs.len() && 0 < (#[trigger] pre[i]).0 <= hi && lo <= pre[i].0 + (
            #[trigger] rs[j]).0 <= hi implies out.contains_key((pre[i].0 + rs[j].0) as usize) by {
            assert(pre[i] == ls[i]);
        }
        lemma_sum_clauses_sat(pre, rs, out, lo, hi, w, sl, sr, total);
        let e = ls.last();
        if 0 < e.0 <= hi {
            assert(ls[ls.len() - 1] == e);
            assert forall|j: int| 0 <= j < rs.len() && lo <= e.0 + (#[trigger] rs[j]).0 <= hi implies out.contains_key(
                (e.0 + rs[j].0) as usize,
            ) by {
                assert(0 < ls[ls.len() - 1].0 <= hi);
            }
            lemma_sum_clauses_with_sat(e.0, e.1, rs, out, lo, hi, w, sl, sr, total);
            lemma_cnf_sat_join(w, sum_clauses(pre, rs, out, lo, hi), sum_clauses_with(e.0, e.1, rs, out, lo, hi));
        }
    }
}

/// Whether, under `w`, the output literals of every node of the subtree are
/// true exactly for the weights that the leaves below the node that are true
/// under `sigma` reach, and every leaf literal has its value under `sigma`.
pub open spec fn outputs_track(n: Node, w: spec_fn(nat) -> bool, sigma: spec_fn(nat) -> bool) -> bool
    decreases n,
{
    match n {
        Node::Leaf { lit, .. } => lit_true(w, lit) == lit_true(sigma, lit),
        Node::Internal { out_lits, left, right, .. } => {
            &&& forall|k: usize|
                #[trigger] out_lits@.contains_key(k) ==> (lit_true(w, out_lits@[k]) <==> k <= true_weight(
                    n.leaves(),
                    sigma,
                ))
            &&& outputs_track(*left, w, sigma)
            &&& outputs_track(*right, w, sigma)
        },
    }
}

/// Every leaf literal of the subtree has a variable below `lo`.
pub open spec fn leaves_below(n: Node, lo: nat) -> bool {
    forall|i: int| 0 <= i < n.leaves().len() ==> (#[trigger] n.leaves()[i]).0.var_index() < lo
}

/// The value of variable `v` in the witness of the subtree under `sigma`:
/// an output variable of a node is true exactly when the leaves below the
/// node that are true under `sigma` reach its weight; every other variable
/// keeps its value under `sigma`.
pub open spec fn witness_value(n: Node, sigma: spec_fn(nat) -> bool, v: nat) -> bool
    decreases n,
{
    match n {
        Node::Leaf { .. } => sigma(v),
        Node::Internal { left, right, .. } => if own_vars(n).contains(v) {
            let k = choose|k: usize| #[trigger] n.out_map().contains_key(k) && n.out_map()[k].var_index() == v;
            k <= true_weight(n.leaves(), sigma)
        } else if out_vars(*left).contains(v) {
            witness_value(*left, sigma, v)
        } else {
            witness_value(*right, sigma, v)
        },
    }
}

/// The witness of the subtree under `sigma`, as an assignment.
pub open spec fn witness(n: Node, sigma: spec_fn(nat) -> bool) -> spec_fn(nat) -> bool {
    |v: nat| witness_value(n, sigma, v)
}

/// The witness keeps every variable that is not an output variable.
pub proof fn lemma_witness_keeps(n: Node, sigma: spec_fn(nat) -> bool, v: nat)
    requires
        !out_vars(n).contains(v),
    ensures
        witness_value(n, sigma, v) == sigma(v),
    decreases n,
{
    if let Node::Internal { left, right, .. } = n {
        lemma_witness_keeps(*right, sigma, v);
    }
}

/// The leaves of the children of a node whose leaves are below `lo` are
/// below `lo`.
pub proof fn lemma_leaves_below_children(n: Node, lo: nat)
    requires
        n is Internal,
        leaves_below(n, lo),
    ensures
        leaves_below(*n->left, lo),
        leaves_below(*n->right, lo),
{
    let l = *n->left;
    let r = *n->right;
    assert forall|i: int| 0 <= i < l.leaves().len() implies (#[trigger] l.leaves()[i]).0.var_index() < lo by {
        assert(n.leaves()[i] == l.leaves()[i]);
    }
    assert forall|i: int| 0 <= i < r.leaves().len() implies (#[trigger] r.leaves()[i]).0.var_index() < lo by {
        assert(n.leaves()[l.leaves().len() + i] == r.leaves()[i]);
    }
}

/// Tracking outputs carries over to any assignment that agrees on the
/// output variables and on the variables below `lo`.
pub proof fn lemma_track_transfer(
    n: Node,
    w1: spec_fn(nat) -> bool,
    w2: spec_fn(nat) -> bool,
    sigma: spec_fn(nat) -> bool,
    lo: nat,
)
    requires
        outputs_track(n, w1, sigma),
        leaves_below(n, lo),
        forall|v: nat| (out_vars(n).contains(v) || v < lo) ==> #[trigger] w1(v) == w2(v),
    ensures
        outputs_track(n, w2, sigma),
    decreases n,
{
    match n {
        Node::Leaf { lit, weight } => {
            assert(n.leaves()[0] == (lit, weight));
            assert(w1(lit.var_index()) == w2(lit.var_index()));
        },
        Node::Internal { out_lits, left, right, .. } => {
            lemma_leaves_below_children(n, lo);
            assert forall|k: usize| #[trigger] out_lits@.contains_key(k) implies (lit_true(w2, out_lits@[k]) <==> k
                <= true_weight(n.leaves(), sigma)) by {
                assert(n.out_map().contains_key(k));
                assert(own_vars(n).contains(out_lits@[k].var_index()));
                assert(w1(out_lits@[k].var_index()) == w2(out_lits@[k].var_index()));
            }
            lemma_track_transfer(*left, w1, w2, sigma, lo);
            lemma_track_transfer(*right, w1, w2, sigma, lo);
        },
    }
}

/// The witness of a subtree with fresh outputs above its leaves tracks its
/// outputs.
pub proof fn lemma_witness_tracks(n: Node, sigma: spec_fn(nat) -> bool, lo: nat, hi: nat)
    requires
        fresh_outputs(n, lo, hi),
        leaves_below(n, lo),
    ensures
        outputs_track(n, witness(n, sigma), sigma),
    decreases n,
{
    let w = witness(n, sigma);
    match n {
        Node::Leaf { lit, weight } => {
            assert(w(lit.var_index()) == sigma(lit.var_index()));
        },
        Node::Internal { out_lits, left, right, .. } => {
            lemma_leaves_below_children(n, lo);
            assert forall|k: usize| #[trigger] out_lits@.contains_key(k) implies (lit_true(w, out_lits@[k]) <==> k
                <= true_weight(n.leaves(), sigma)) by {
                let v = out_lits@[k].var_index();
                assert(n.out_map().contains_key(k));
                assert(own_vars(n).contains(v));
                let k2 = choose|k2: usize| #[trigger] n.out_map().contains_key(k2) && n.out_map()[k2].var_index() == v;
                if k2 != k {
                    assert(out_lits@[k2].var_index() != out_lits@[k].var_index());
                }
            }
            lemma_witness_tracks(*left, sigma, lo, hi);
            lemma_witness_tracks(*right, sigma, lo, hi);
            assert forall|v: nat| (out_vars(*left).contains(v) || v < lo) implies #[trigger] witness(*left, sigma)(v)
                == w(v) by {
                if out_vars(*left).contains(v) {
                    lemma_fresh_range(*left, lo, hi, v);
                    if own_vars(n).contains(v) {
                        let k = choose|k: usize| #[trigger] n.out_map().contains_key(k) && n.out_map()[k].var_index() == v;
                        assert(out_lits@.contains_key(k));
                    }
                } else {
                    if own_vars(n).contains(v) {
                        let k = choose|k: usize| #[trigger] n.out_map().contains_key(k) && n.out_map()[k].var_index() == v;
                        assert(out_lits@.contains_key(k));
                    }
                    if out_vars(*right).contains(v) {
                        lemma_fresh_range(*right, lo, hi, v);
                    }
                    lemma_witness_keeps(*left, sigma, v);
                    lemma_witness_keeps(*right, sigma, v);
                }
            }
            lemma_track_transfer(*left, witness(*left, sigma), w, sigma, lo);
            assert forall|v: nat| (out_vars(*right).contains(v) || v < lo) implies #[trigger] witness(*right, sigma)(v)
                == w(v) by {
                if own_vars(n).contains(v) {
                    let k = choose|k: usize| #[trigger] n.out_map().contains_key(k) && n.out_map()[k].var_index() == v;
                    assert(out_lits@.contains_key(k));
                    if !out_vars(*right).contains(v) {
                        assert(v >= lo);
                    }
                }
                if out_vars(*left).contains(v) {
                    if out_vars(*right).contains(v) {
                        assert(out_vars(*left).disjoint(out_vars(*right)));
                    } else {
                        lemma_fresh_range(*left, lo, hi, v);
                    }
                }
            }
            lemma_track_transfer(*right, witness(*right, sigma), w, sigma, lo);
        },
    }
}

/// A child's true literals weigh at most what its true leaves weigh.
pub proof fn lemma_child_entries_bounded(c: Node, w: spec_fn(nat) -> bool, sigma: spec_fn(nat) -> bool)
    requires
        outputs_track(c, w, sigma),
        c.maps_wf(),
    ensures
        entries_bounded(c.entries(), w, true_weight(c.leaves(), sigma)),
{
    match c {
        Node::Leaf { lit, weight } => {
            assert(c.leaves().drop_last() =~= Seq::<(Lit, usize)>::empty());
            assert(c.leaves().last() == (lit, weight));
            assert(true_weight(Seq::<(Lit, usize)>::empty(), sigma) == 0);
            assert(c.entries()[0] == (weight, lit));
            assert(c.entries().len() == 1);
            if lit_true(w, lit) {
                assert(true_weight(c.leaves(), sigma) == weight);
            }
        },
        Node::Internal { out_lits, .. } => {
            let es = out_lits.entries();
            OutLits::lemma_sorted_distinct(es);
            assert forall|i: int| 0 <= i < es.len() && lit_true(w, (#[trigger] es[i]).1) implies es[i].0
                <= true_weight(c.leaves(), sigma) by {
                crate::maps::lemma_entries_map_index(es, i);
                assert(out_lits@.contains_key(es[i].0));
            }
        },
    }
}

/// An assignment that tracks the outputs of a subtree encoded up to `m`
/// satisfies the subtree's clauses.
pub proof fn lemma_track_sat(n: Node, w: spec_fn(nat) -> bool, sigma: spec_fn(nat) -> bool, m: int)
    requires
        outputs_track(n, w, sigma),
        n.maps_wf(),
        n.zero_free(),
        key_tree_encoded(n.key_tree(), m),
        m <= usize::MAX,
    ensures
        cnf_sat(w, n.tree_clauses(m)),
    decreases n,
{
    if let Node::Internal { out_lits, left, right, .. } = n {
        let l = *left;
        let r = *right;
        lemma_track_sat(l, w, sigma, m);
        lemma_track_sat(r, w, sigma, m);
        let sl = true_weight(l.leaves(), sigma);
        let sr = true_weight(r.leaves(), sigma);
        lemma_true_weight_concat(l.leaves(), r.leaves(), sigma);
        lemma_true_weight_bounds(l.leaves(), sigma);
        lemma_true_weight_bounds(r.leaves(), sigma);
        let total = true_weight(n.leaves(), sigma);
        assert(total == sl + sr);
        let out = out_lits@;
        assert(outputs_reach(out, w, total));
        lemma_child_entries_bounded(l, w, sigma);
        lemma_child_entries_bounded(r, w, sigma);
        lemma_keys_entries(l);
        lemma_keys_entries(r);
        let ls = l.entries();
        let rs = r.entries();
        let lk = l.key_tree().keys();
        let rk = r.key_tree().keys();
        assert(needed(lk, rk, m).subset_of(out.dom()));
        assert forall|i: int| 0 <= i < ls.len() && 0 <= (#[trigger] ls[i]).0 <= m implies out.contains_key(ls[i].0) by {
            assert(key_set(ls).contains(ls[i].0));
            if ls[i].0 == 0 {
                assert(has_key(ls, 0));
            }
            assert(needed(lk, rk, m).contains(ls[i].0));
        }
        assert forall|i: int| 0 <= i < rs.len() && 0 <= (#[trigger] rs[i]).0 <= m implies out.contains_key(rs[i].0) by {
            assert(key_set(rs).contains(rs[i].0));
            if rs[i].0 == 0 {
                assert(has_key(rs, 0));
            }
            assert(needed(lk, rk, m).contains(rs[i].0));
        }
        assert forall|i: int, j: int|
            0 <= i < ls.len() && 0 <= j < rs.len() && 0 < (#[trigger] ls[i]).0 <= m && 0 <= ls[i].0 + (
            #[trigger] rs[j]).0 <= m implies out.contains_key((ls[i].0 + rs[j].0) as usize) by {
            let a = ls[i].0;
            let b = rs[j].0;
            assert(key_set(ls).contains(a));
            assert(key_set(rs).contains(b));
            if b == 0 {
                assert(has_key(rs, 0));
            }
            let k = (a + b) as usize;
            assert(lk.contains(a) && rk.contains(b) && a + b == k);
            assert(needed(lk, rk, m).contains(k));
        }
        lemma_unit_clauses_sat(ls, out, 0, m, w, sl, total);
        lemma_unit_clauses_sat(rs, out, 0, m, w, sr, total);
        lemma_sum_clauses_sat(ls, rs, out, 0, m, w, sl, sr, total);
        lemma_cnf_sat_join(w, unit_clauses(ls, out, 0, m), unit_clauses(rs, out, 0, m));
        lemma_cnf_sat_join(w, unit_clauses(ls, out, 0, m) + unit_clauses(rs, out, 0, m), sum_clauses(ls, rs, out, 0, m));
        lemma_cnf_sat_join(w, l.tree_clauses(m), r.tree_clauses(m));
        lemma_cnf_sat_join(w, l.tree_clauses(m) + r.tree_clauses(m), adder_clauses(ls, rs, out, 0, m));
    }
}

/// Each literal of `negated_in_range(es, lo, hi)` negates the literal of an
/// entry of `es` whose weight lies in `(lo, hi]`.
pub proof fn lemma_negated_in_range_from(es: Seq<(usize, Lit)>, lo: int, hi: int, j: int) -> (i: int)
    requires
        0 <= j < negated_in_range(es, lo, hi).len(),
    ensures
        0 <= i < es.len(),
        lo < es[i].0 <= hi,
        negated_in_range(es, lo, hi)[j] == es[i].1.spec_negate(),
    decreases es.len(),
{
    let pre = es.drop_last();
    let p = negated_in_range(pre, lo, hi);
    if j < p.len() {
        let i = lemma_negated_in_range_from(pre, lo, hi, j);
        assert(pre[i] == es[i]);
        i
    } else {
        (es.len() - 1) as int
    }
}

} // verus!
