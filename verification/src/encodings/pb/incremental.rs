//! Incremental encoding: encoding a tree from scratch up to `m0` and then
//! incrementally up to `m1` gives clauses that hold under exactly the
//! assignments that satisfy the encoding of the tree from scratch up to `m1`.

use vstd::prelude::*;
use crate::types::Lit;
use crate::encodings::BoundType;
use crate::instances::{clause_sat, cnf_sat, impl_clause, cube_impl_clause};
use crate::maps::{entries_map, has_key, OutLits, weight_above, weight_at_most};
use crate::encodings::pb::fresh::{fresh_outputs, own_vars, out_vars};
use crate::encodings::pb::gte::{
    GeneralizedTotalizer, build_key_tree, weights_of, fresh_extension, join_key_trees,
    Node, KeyTree, unit_clauses, sum_clauses, sum_clauses_with, adder_clauses, needed, key_set, lemma_keys_entries,
};
use crate::encodings::pb::semantics::{
    total_weight, leaf_weights_at_most, lemma_total_weight_split, lemma_total_weight_sort, lemma_total_weight_concat, lemma_leaves_weight,
    key_tree_encoded, lemma_unit_clause_in, lemma_sum_clause_in, lemma_lit_map_entry, lemma_encode_encoded,
    lemma_sat_contains,
};

verus! {

/// Each clause of `unit_clauses` is the implication of an entry in range.
pub proof fn lemma_unit_clause_from(es: Seq<(usize, Lit)>, out: Map<usize, Lit>, lo: int, hi: int, c: Seq<Lit>) -> (i: int)
    requires
        unit_clauses(es, out, lo, hi).contains(c),
    ensures
        0 <= i < es.len(),
        lo <= es[i].0 <= hi,
        c == impl_clause(es[i].1, out[es[i].0]),
    decreases es.len(),
{
    let u = unit_clauses(es, out, lo, hi);
    let p = unit_clauses(es.drop_last(), out, lo, hi);
    let k = choose|k: int| 0 <= k < u.len() && u[k] == c;
    if k < p.len() {
        assert(u[k] == p[k]);
        assert(p.contains(c));
        let i = lemma_unit_clause_from(es.drop_last(), out, lo, hi, c);
        assert(es.drop_last()[i] == es[i]);
        i
    } else {
        (es.len() - 1) as int
    }
}

/// Each clause of `sum_clauses_with` is the implication of a pair in range.
pub proof fn lemma_sum_with_clause_from(
    a: usize,
    la: Lit,
    rs: Seq<(usize, Lit)>,
    out: Map<usize, Lit>,
    lo: int,
    hi: int,
    c: Seq<Lit>,
) -> (j: int)
    requires
        sum_clauses_with(a, la, rs, out, lo, hi).contains(c),
    ensures
        0 <= j < rs.len(),
        lo <= a + rs[j].0 <= hi,
        c == cube_impl_clause(la, rs[j].1, out[(a + rs[j].0) as usize]),
    decreases rs.len(),
{
    let u = sum_clauses_with(a, la, rs, out, lo, hi);
    let p = sum_clauses_with(a, la, rs.drop_last(), out, lo, hi);
    let k = choose|k: int| 0 <= k < u.len() && u[k] == c;
    if k < p.len() {
        assert(u[k] == p[k]);
        assert(p.contains(c));
        let j = lemma_sum_with_clause_from(a, la, rs.drop_last(), out, lo, hi, c);
        assert(rs.drop_last()[j] == rs[j]);
        j
    } else {
        (rs.len() - 1) as int
    }
}

/// Each clause of `sum_clauses` is the implication of a pair in range.
pub proof fn lemma_sum_clause_from(
    ls: Seq<(usize, Lit)>,
    rs: Seq<(usize, Lit)>,
    out: Map<usize, Lit>,
    lo: int,
    hi: int,
    c: Seq<Lit>,
) -> (ij: (int, int))
    requires
        sum_clauses(ls, rs, out, lo, hi).contains(c),
    ensures
        0 <= ij.0 < ls.len(),
        0 <= ij.1 < rs.len(),
        0 < ls[ij.0].0 <= hi,
        lo <= ls[ij.0].0 + rs[ij.1].0 <= hi,
        c == cube_impl_clause(ls[ij.0].1, rs[ij.1].1, out[(ls[ij.0].0 + rs[ij.1].0) as usize]),
    decreases ls.len(),
{
    let u = sum_clauses(ls, rs, out, lo, hi);
    let p = sum_clauses(ls.drop_last(), rs, out, lo, hi);
    let e = ls.last();
    let k = choose|k: int| 0 <= k < u.len() && u[k] == c;
    if k < p.len() {
        if 0 < e.0 <= hi {
            assert(u[k] == p[k]);
        }
        assert(p.contains(c));
        let (i, j) = lemma_sum_clause_from(ls.drop_last(), rs, out, lo, hi, c);
        assert(ls.drop_last()[i] == ls[i]);
        (i, j)
    } else {
        let w = sum_clauses_with(e.0, e.1, rs, out, lo, hi);
        assert(0 < e.0 <= hi);
        assert(u[k] == w[k - p.len()]);
        assert(w.contains(c));
        let j = lemma_sum_with_clause_from(e.0, e.1, rs, out, lo, hi, c);
        ((ls.len() - 1) as int, j)
    }
}

/// A clause of a concatenation is a clause of one of its parts.
pub proof fn lemma_contains_concat(a: Seq<Seq<Lit>>, b: Seq<Seq<Lit>>, c: Seq<Lit>)
    ensures
        (a + b).contains(c) <==> a.contains(c) || b.contains(c),
{
    if (a + b).contains(c) {
        let k = choose|k: int| 0 <= k < (a + b).len() && (a + b)[k] == c;
        if k < a.len() {
            assert(a[k] == c);
        } else {
            assert(b[k - a.len()] == c);
        }
    }
    if a.contains(c) {
        let k = choose|k: int| 0 <= k < a.len() && a[k] == c;
        assert((a + b)[k] == c);
    }
    if b.contains(c) {
        let k = choose|k: int| 0 <= k < b.len() && b[k] == c;
        assert((a + b)[a.len() + k] == c);
    }
}

/// Every node of the key tree has encoded at most up to `m`.
pub open spec fn enc_at_most(t: KeyTree, m: int) -> bool
    decreases t,
{
    match t {
        KeyTree::Leaf { .. } => true,
        KeyTree::Node { max_enc, left, right, .. } => max_enc <= m && enc_at_most(*left, m) && enc_at_most(*right, m),
    }
}

/// Encoding from scratch up to `m` encodes every node at most up to `m`.
pub proof fn lemma_encode_enc_at_most(t: KeyTree, m: int)
    requires
        0 <= m,
    ensures
        enc_at_most(t.encode(m), m),
    decreases t,
{
    if let KeyTree::Node { left, right, .. } = t {
        lemma_encode_enc_at_most(*left, m);
        lemma_encode_enc_at_most(*right, m);
    }
}

/// Every node of the key tree has only keys up to its maximum value, which
/// is the sum of its children's maximum values.
pub open spec fn keys_bounded(t: KeyTree) -> bool
    decreases t,
{
    match t {
        KeyTree::Leaf { .. } => true,
        KeyTree::Node { keys, max_val, left, right, .. } => {
            &&& forall|k: usize| keys.contains(k) ==> k <= max_val
            &&& max_val == left.max_val() + right.max_val()
            &&& keys_bounded(*left)
            &&& keys_bounded(*right)
        },
    }
}

/// The keys of a bounded key tree are at most its maximum value.
pub proof fn lemma_keys_below_max(t: KeyTree, k: usize)
    requires
        keys_bounded(t),
        t.keys().contains(k),
    ensures
        k <= t.max_val(),
{
}

/// Encoding keeps the keys bounded, and the maximum values.
pub proof fn lemma_encode_keys_bounded(t: KeyTree, m: int)
    requires
        keys_bounded(t),
    ensures
        keys_bounded(t.encode(m)),
        keys_bounded(t.encode_change(m)),
        t.encode(m).max_val() == t.max_val(),
        t.encode_change(m).max_val() == t.max_val(),
    decreases t,
{
    if let KeyTree::Node { keys, max_val, left, right, .. } = t {
        lemma_encode_keys_bounded(*left, m);
        lemma_encode_keys_bounded(*right, m);
        let l1 = left.encode(m);
        let r1 = right.encode(m);
        let l2 = left.encode_change(m);
        let r2 = right.encode_change(m);
        assert forall|k: usize| needed(l1.keys(), r1.keys(), m).contains(k) implies k <= max_val by {
            if l1.keys().contains(k) {
                lemma_keys_below_max(l1, k);
            } else if r1.keys().contains(k) {
                lemma_keys_below_max(r1, k);
            } else {
                let (a, b) = choose|a: usize, b: usize|
                    0 < a && 0 < b && l1.keys().contains(a) && r1.keys().contains(b) && a + b == k;
                lemma_keys_below_max(l1, a);
                lemma_keys_below_max(r1, b);
            }
        }
        assert forall|k: usize| needed(l2.keys(), r2.keys(), m).contains(k) implies k <= max_val by {
            if l2.keys().contains(k) {
                lemma_keys_below_max(l2, k);
            } else if r2.keys().contains(k) {
                lemma_keys_below_max(r2, k);
            } else {
                let (a, b) = choose|a: usize, b: usize|
                    0 < a && 0 < b && l2.keys().contains(a) && r2.keys().contains(b) && a + b == k;
                lemma_keys_below_max(l2, a);
                lemma_keys_below_max(r2, b);
            }
        }
    }
}

/// A key up to `m0` that a tree encoded up to `m0` has after an incremental
/// encoding it had before.
pub proof fn lemma_change_keys_old(t: KeyTree, m0: int, m1: int, k: usize)
    requires
        key_tree_encoded(t, m0),
        m0 <= m1,
        k <= m0,
        t.encode_change(m1).keys().contains(k),
    ensures
        t.keys().contains(k),
    decreases t,
{
    if let KeyTree::Node { keys, max_enc, left, right, .. } = t {
        let l2 = left.encode_change(m1);
        let r2 = right.encode_change(m1);
        if !keys.contains(k) {
            assert(needed(l2.keys(), r2.keys(), m1).contains(k));
            if l2.keys().contains(k) {
                lemma_change_keys_old(*left, m0, m1, k);
                assert(needed(left.keys(), right.keys(), m0).contains(k));
            } else if r2.keys().contains(k) {
                lemma_change_keys_old(*right, m0, m1, k);
                assert(needed(left.keys(), right.keys(), m0).contains(k));
            } else {
                let (a, b) = choose|a: usize, b: usize|
                    0 < a && 0 < b && l2.keys().contains(a) && r2.keys().contains(b) && a + b == k;
                lemma_change_keys_old(*left, m0, m1, a);
                lemma_change_keys_old(*right, m0, m1, b);
                assert(left.keys().contains(a) && right.keys().contains(b) && a + b == k);
                assert(needed(left.keys(), right.keys(), m0).contains(k));
            }
        }
    }
}

/// An entry of a node is still an entry after the node was extended.
pub proof fn lemma_entry_kept(old: Node, new: Node, lo: nat, hi: nat, i: int) -> (j: int)
    requires
        old.maps_wf(),
        new.maps_wf(),
        old.extended_by(new, lo, hi),
        0 <= i < old.entries().len(),
    ensures
        0 <= j < new.entries().len(),
        new.entries()[j] == old.entries()[i],
{
    match old {
        Node::Leaf { .. } => i,
        Node::Internal { out_lits, .. } => {
            let es = out_lits.entries();
            OutLits::lemma_sorted_distinct(es);
            crate::maps::lemma_entries_map_index(es, i);
            let k = es[i].0;
            assert(new.lit_map().contains_key(k));
            let j = lemma_lit_map_entry(new, k);
            j
        },
    }
}

/// An entry of an extended node whose weight the node had before is an
/// entry of the node before.
pub proof fn lemma_entry_old(old: Node, new: Node, lo: nat, hi: nat, j: int) -> (i: int)
    requires
        old.maps_wf(),
        new.maps_wf(),
        old.extended_by(new, lo, hi),
        0 <= j < new.entries().len(),
        old.key_tree().keys().contains(new.entries()[j].0),
    ensures
        0 <= i < old.entries().len(),
        old.entries()[i] == new.entries()[j],
{
    match old {
        Node::Leaf { .. } => j,
        Node::Internal { out_lits, .. } => {
            let es = new->out_lits.entries();
            OutLits::lemma_sorted_distinct(es);
            crate::maps::lemma_entries_map_index(es, j);
            let k = es[j].0;
            assert(out_lits@.contains_key(k));
            assert(old.lit_map().contains_key(k));
            let i = lemma_lit_map_entry(old, k);
            i
        },
    }
}

/// What one step of the incremental induction knows of a node: `old` was
/// encoded from scratch up to `m0`, and `new` is `old` encoded
/// incrementally up to `m1`.
pub open spec fn incremental_step(old: Node, new: Node, m0: int, m1: int, lo: nat, hi: nat) -> bool {
    &&& old.maps_wf()
    &&& new.maps_wf()
    &&& old.wf()
    &&& old.zero_free()
    &&& key_tree_encoded(old.key_tree(), m0)
    &&& enc_at_most(old.key_tree(), m0)
    &&& 0 <= m0 <= m1 <= usize::MAX
    &&& old.extended_by(new, lo, hi)
    &&& new.key_tree() == old.key_tree().encode_change(m1)
    &&& keys_bounded(old.key_tree())
}

/// The induction carries over to the children.
pub proof fn lemma_incremental_step_children(old: Node, new: Node, m0: int, m1: int, lo: nat, hi: nat)
    requires
        incremental_step(old, new, m0, m1, lo, hi),
        old is Internal,
    ensures
        new is Internal,
        incremental_step(*old->left, *new->left, m0, m1, lo, hi),
        incremental_step(*old->right, *new->right, m0, m1, lo, hi),
        new->max_val == old->max_val,
{
    assert(new.key_tree()->left == old.key_tree()->left.encode_change(m1));
    assert(new.key_tree()->right == old.key_tree()->right.encode_change(m1));
}

/// A child weight up to `m0` that the extended child has, it had before,
/// with the same literal.
pub proof fn lemma_child_entry_old(
    ochild: Node,
    nchild: Node,
    m0: int,
    m1: int,
    lo: nat,
    hi: nat,
    j: int,
) -> (i: int)
    requires
        incremental_step(ochild, nchild, m0, m1, lo, hi),
        0 <= j < nchild.entries().len(),
        nchild.entries()[j].0 <= m0,
    ensures
        0 <= i < ochild.entries().len(),
        ochild.entries()[i] == nchild.entries()[j],
{
    lemma_keys_entries(nchild);
    assert(key_set(nchild.entries()).contains(nchild.entries()[j].0));
    lemma_change_keys_old(ochild.key_tree(), m0, m1, nchild.entries()[j].0);
    lemma_entry_old(ochild, nchild, lo, hi, j)
}

/// Each adder clause of the node encoded up to `m1` is an adder clause of
/// the node encoded up to `m0` or an adder clause of the incremental step.
pub proof fn lemma_adder_covered(old: Node, new: Node, m0: int, m1: int, lo: nat, hi: nat, c: Seq<Lit>)
    requires
        incremental_step(old, new, m0, m1, lo, hi),
        old is Internal,
        adder_clauses((*new->left).entries(), (*new->right).entries(), new->out_lits@, 0, m1).contains(c),
    ensures
        adder_clauses((*old->left).entries(), (*old->right).entries(), old->out_lits@, 0, m0).contains(c) || (
        old->max_enc < m1 && old->max_enc < old->max_val && adder_clauses(
            (*new->left).entries(),
            (*new->right).entries(),
            new->out_lits@,
            old->max_enc + 1int,
            m1,
        ).contains(c)),
{
    lemma_incremental_step_children(old, new, m0, m1, lo, hi);
    let ol = *old->left;
    let or = *old->right;
    let nl = *new->left;
    let nr = *new->right;
    let ols = ol.entries();
    let ors = or.entries();
    let nls = nl.entries();
    let nrs = nr.entries();
    let oout = old->out_lits@;
    let nout = new->out_lits@;
    let me = old->max_enc + 1int;
    lemma_encode_keys_bounded(ol.key_tree(), m1);
    lemma_encode_keys_bounded(or.key_tree(), m1);
    lemma_keys_entries(nl);
    lemma_keys_entries(nr);
    let lk = ol.key_tree().keys();
    let rk = or.key_tree().keys();
    lemma_keys_entries(ol);
    lemma_keys_entries(or);
    assert(needed(lk, rk, m0).subset_of(oout.dom()));
    let ua = unit_clauses(nls, nout, 0, m1);
    let ub = unit_clauses(nrs, nout, 0, m1);
    let sm = sum_clauses(nls, nrs, nout, 0, m1);
    lemma_contains_concat(ua + ub, sm, c);
    lemma_contains_concat(ua, ub, c);
    let oa = unit_clauses(ols, oout, 0, m0);
    let ob = unit_clauses(ors, oout, 0, m0);
    let osm = sum_clauses(ols, ors, oout, 0, m0);
    let ca = unit_clauses(nls, nout, me, m1);
    let cb = unit_clauses(nrs, nout, me, m1);
    let csm = sum_clauses(nls, nrs, nout, me, m1);
    if ua.contains(c) {
        let j = lemma_unit_clause_from(nls, nout, 0, m1, c);
        assert(key_set(nls).contains(nls[j].0));
        lemma_keys_below_max(nl.key_tree(), nls[j].0);
        if nls[j].0 >= me {
            lemma_unit_clause_in(nls, nout, me, m1, j);
            lemma_contains_concat(ca, cb, c);
            lemma_contains_concat(ca + cb, csm, c);
        } else {
            let i = lemma_child_entry_old(ol, nl, m0, m1, lo, hi, j);
            if ols[i].0 == 0 {
                assert(has_key(ols, 0));
            }
            assert(key_set(ols).contains(ols[i].0));
            assert(needed(lk, rk, m0).contains(ols[i].0));
            lemma_unit_clause_in(ols, oout, 0, m0, i);
            lemma_contains_concat(oa, ob, c);
            lemma_contains_concat(oa + ob, osm, c);
        }
    } else if ub.contains(c) {
        let j = lemma_unit_clause_from(nrs, nout, 0, m1, c);
        assert(key_set(nrs).contains(nrs[j].0));
        lemma_keys_below_max(nr.key_tree(), nrs[j].0);
        if nrs[j].0 >= me {
            lemma_unit_clause_in(nrs, nout, me, m1, j);
            lemma_contains_concat(ca, cb, c);
            lemma_contains_concat(ca + cb, csm, c);
        } else {
            let i = lemma_child_entry_old(or, nr, m0, m1, lo, hi, j);
            if ors[i].0 == 0 {
                assert(has_key(ors, 0));
            }
            assert(key_set(ors).contains(ors[i].0));
            assert(needed(lk, rk, m0).contains(ors[i].0));
            lemma_unit_clause_in(ors, oout, 0, m0, i);
            lemma_contains_concat(oa, ob, c);
            lemma_contains_concat(oa + ob, osm, c);
        }
    } else {
        let (a, b) = lemma_sum_clause_from(nls, nrs, nout, 0, m1, c);
        assert(key_set(nls).contains(nls[a].0));
        assert(key_set(nrs).contains(nrs[b].0));
        lemma_keys_below_max(nl.key_tree(), nls[a].0);
        lemma_keys_below_max(nr.key_tree(), nrs[b].0);
        if nls[a].0 + nrs[b].0 >= me {
            lemma_sum_clause_in(nls, nrs, nout, me, m1, a, b);
            lemma_contains_concat(ca + cb, csm, c);
        } else {
            let i = lemma_child_entry_old(ol, nl, m0, m1, lo, hi, a);
            let j = lemma_child_entry_old(or, nr, m0, m1, lo, hi, b);
            if ors[j].0 == 0 {
                assert(has_key(ors, 0));
            }
            assert(key_set(ols).contains(ols[i].0));
            assert(key_set(ors).contains(ors[j].0));
            let k = (ols[i].0 + ors[j].0) as usize;
            assert(lk.contains(ols[i].0) && rk.contains(ors[j].0) && ols[i].0 + ors[j].0 == k);
            assert(needed(lk, rk, m0).contains(k));
            lemma_sum_clause_in(ols, ors, oout, 0, m0, i, j);
            lemma_contains_concat(oa + ob, osm, c);
        }
    }
}

/// Each adder clause of the node encoded up to `m0` stays an adder clause
/// of the node encoded up to `m1`.
pub proof fn lemma_adder_kept(old: Node, new: Node, m0: int, m1: int, lo: nat, hi: nat, c: Seq<Lit>)
    requires
        incremental_step(old, new, m0, m1, lo, hi),
        old is Internal,
        adder_clauses((*old->left).entries(), (*old->right).entries(), old->out_lits@, 0, m0).contains(c),
    ensures
        adder_clauses((*new->left).entries(), (*new->right).entries(), new->out_lits@, 0, m1).contains(c),
{
    lemma_incremental_step_children(old, new, m0, m1, lo, hi);
    let ol = *old->left;
    let or = *old->right;
    let nl = *new->left;
    let nr = *new->right;
    let ols = ol.entries();
    let ors = or.entries();
    let nls = nl.entries();
    let nrs = nr.entries();
    let oout = old->out_lits@;
    let nout = new->out_lits@;
    let lk = ol.key_tree().keys();
    let rk = or.key_tree().keys();
    lemma_keys_entries(ol);
    lemma_keys_entries(or);
    assert(needed(lk, rk, m0).subset_of(oout.dom()));
    let oa = unit_clauses(ols, oout, 0, m0);
    let ob = unit_clauses(ors, oout, 0, m0);
    let osm = sum_clauses(ols, ors, oout, 0, m0);
    let ua = unit_clauses(nls, nout, 0, m1);
    let ub = unit_clauses(nrs, nout, 0, m1);
    let sm = sum_clauses(nls, nrs, nout, 0, m1);
    lemma_contains_concat(oa + ob, osm, c);
    lemma_contains_concat(oa, ob, c);
    if oa.contains(c) {
        let i = lemma_unit_clause_from(ols, oout, 0, m0, c);
        let j = lemma_entry_kept(ol, nl, lo, hi, i);
        if ols[i].0 == 0 {
            assert(has_key(ols, 0));
        }
        assert(key_set(ols).contains(ols[i].0));
        assert(needed(lk, rk, m0).contains(ols[i].0));
        lemma_unit_clause_in(nls, nout, 0, m1, j);
        lemma_contains_concat(ua, ub, c);
        lemma_contains_concat(ua + ub, sm, c);
    } else if ob.contains(c) {
        let i = lemma_unit_clause_from(ors, oout, 0, m0, c);
        let j = lemma_entry_kept(or, nr, lo, hi, i);
        if ors[i].0 == 0 {
            assert(has_key(ors, 0));
        }
        assert(key_set(ors).contains(ors[i].0));
        assert(needed(lk, rk, m0).contains(ors[i].0));
        lemma_unit_clause_in(nrs, nout, 0, m1, j);
        lemma_contains_concat(ua, ub, c);
        lemma_contains_concat(ua + ub, sm, c);
    } else {
        let (a, b) = lemma_sum_clause_from(ols, ors, oout, 0, m0, c);
        let i = lemma_entry_kept(ol, nl, lo, hi, a);
        let j = lemma_entry_kept(or, nr, lo, hi, b);
        if ors[b].0 == 0 {
            assert(has_key(ors, 0));
        }
        assert(key_set(ols).contains(ols[a].0));
        assert(key_set(ors).contains(ors[b].0));
        let k = (ols[a].0 + ors[b].0) as usize;
        assert(lk.contains(ols[a].0) && rk.contains(ors[b].0) && ols[a].0 + ors[b].0 == k);
        assert(needed(lk, rk, m0).contains(k));
        lemma_sum_clause_in(nls, nrs, nout, 0, m1, i, j);
        lemma_contains_concat(ua + ub, sm, c);
    }
}

/// Each adder clause of the incremental step is an adder clause of the node
/// encoded up to `m1`.
pub proof fn lemma_adder_change_in(
    ls: Seq<(usize, Lit)>,
    rs: Seq<(usize, Lit)>,
    out: Map<usize, Lit>,
    lo: int,
    m1: int,
    c: Seq<Lit>,
)
    requires
        0 <= lo,
        adder_clauses(ls, rs, out, lo, m1).contains(c),
    ensures
        adder_clauses(ls, rs, out, 0, m1).contains(c),
{
    let ca = unit_clauses(ls, out, lo, m1);
    let cb = unit_clauses(rs, out, lo, m1);
    let csm = sum_clauses(ls, rs, out, lo, m1);
    let ua = unit_clauses(ls, out, 0, m1);
    let ub = unit_clauses(rs, out, 0, m1);
    let sm = sum_clauses(ls, rs, out, 0, m1);
    lemma_contains_concat(ca + cb, csm, c);
    lemma_contains_concat(ca, cb, c);
    if ca.contains(c) {
        let i = lemma_unit_clause_from(ls, out, lo, m1, c);
        lemma_unit_clause_in(ls, out, 0, m1, i);
        lemma_contains_concat(ua, ub, c);
    } else if cb.contains(c) {
        let i = lemma_unit_clause_from(rs, out, lo, m1, c);
        lemma_unit_clause_in(rs, out, 0, m1, i);
        lemma_contains_concat(ua, ub, c);
    } else {
        let (a, b) = lemma_sum_clause_from(ls, rs, out, lo, m1, c);
        lemma_sum_clause_in(ls, rs, out, 0, m1, a, b);
    }
    lemma_contains_concat(ua + ub, sm, c);
}

/// The clause sets of incremental encoding: every clause of the tree
/// encoded up to `m1` is a clause of the tree encoded up to `m0` or of the
/// incremental step, and every clause of these is one of the tree encoded
/// up to `m1`.
pub proof fn lemma_incremental_clauses(old: Node, new: Node, m0: int, m1: int, lo: nat, hi: nat)
    requires
        incremental_step(old, new, m0, m1, lo, hi),
    ensures
        forall|c: Seq<Lit>| #[trigger] new.tree_clauses(m1).contains(c) ==> old.tree_clauses(m0).contains(c)
            || new.change_clauses(old.key_tree(), m1).contains(c),
        forall|c: Seq<Lit>| #[trigger] old.tree_clauses(m0).contains(c) ==> new.tree_clauses(m1).contains(c),
        forall|c: Seq<Lit>|
            #[trigger] new.change_clauses(old.key_tree(), m1).contains(c) ==> new.tree_clauses(m1).contains(c),
    decreases old,
{
    if let Node::Internal { left, right, max_enc, max_val, out_lits, .. } = old {
        lemma_incremental_step_children(old, new, m0, m1, lo, hi);
        let ol = *left;
        let or = *right;
        let nl = *new->left;
        let nr = *new->right;
        lemma_incremental_clauses(ol, nl, m0, m1, lo, hi);
        lemma_incremental_clauses(or, nr, m0, m1, lo, hi);
        let okt = old.key_tree();
        let nadd = adder_clauses(nl.entries(), nr.entries(), new->out_lits@, 0, m1);
        let oadd = adder_clauses(ol.entries(), or.entries(), out_lits@, 0, m0);
        let cadd = if max_enc >= m1 || max_enc >= max_val {
            Seq::<Seq<Lit>>::empty()
        } else {
            adder_clauses(nl.entries(), nr.entries(), new->out_lits@, max_enc + 1int, m1)
        };
        let nt = nl.tree_clauses(m1) + nr.tree_clauses(m1);
        let ot = ol.tree_clauses(m0) + or.tree_clauses(m0);
        let nc = nl.change_clauses(*okt->left, m1) + nr.change_clauses(*okt->right, m1);
        assert(new.tree_clauses(m1) == nt + nadd);
        assert(old.tree_clauses(m0) == ot + oadd);
        assert(new.change_clauses(okt, m1) == nc + cadd);
        assert forall|c: Seq<Lit>| #[trigger] new.tree_clauses(m1).contains(c) implies old.tree_clauses(m0).contains(c)
            || new.change_clauses(okt, m1).contains(c) by {
            lemma_contains_concat(nt, nadd, c);
            lemma_contains_concat(nl.tree_clauses(m1), nr.tree_clauses(m1), c);
            lemma_contains_concat(ot, oadd, c);
            lemma_contains_concat(ol.tree_clauses(m0), or.tree_clauses(m0), c);
            lemma_contains_concat(nc, cadd, c);
            lemma_contains_concat(nl.change_clauses(*okt->left, m1), nr.change_clauses(*okt->right, m1), c);
            if nadd.contains(c) {
                lemma_adder_covered(old, new, m0, m1, lo, hi, c);
            }
        }
        assert forall|c: Seq<Lit>| #[trigger] old.tree_clauses(m0).contains(c) implies new.tree_clauses(m1).contains(c) by {
            lemma_contains_concat(nt, nadd, c);
            lemma_contains_concat(nl.tree_clauses(m1), nr.tree_clauses(m1), c);
            lemma_contains_concat(ot, oadd, c);
            lemma_contains_concat(ol.tree_clauses(m0), or.tree_clauses(m0), c);
            if oadd.contains(c) {
                lemma_adder_kept(old, new, m0, m1, lo, hi, c);
            }
        }
        assert forall|c: Seq<Lit>| #[trigger] new.change_clauses(okt, m1).contains(c) implies new.tree_clauses(
            m1,
        ).contains(c) by {
            lemma_contains_concat(nt, nadd, c);
            lemma_contains_concat(nl.tree_clauses(m1), nr.tree_clauses(m1), c);
            lemma_contains_concat(nc, cadd, c);
            lemma_contains_concat(nl.change_clauses(*okt->left, m1), nr.change_clauses(*okt->right, m1), c);
            if cadd.contains(c) {
                lemma_adder_change_in(nl.entries(), nr.entries(), new->out_lits@, max_enc + 1int, m1, c);
            }
        }
    }
}

/// Incremental encoding is encoding from scratch: for a subtree `old`
/// encoded from scratch up to `m0` (as `encode_rec` leaves it, from a
/// subtree whose key tree `t` has its keys bounded by the maximum values),
/// and then incrementally up to `m1 >= m0` into
/// `new` (as `encode_change_rec` leaves it: the output literals of `old`
/// kept, new ones from `[lo, hi)`), the clauses of both steps are, as a
/// set, the clauses of encoding `new` from scratch up to `m1`, so an
/// assignment satisfies the ones exactly when it satisfies the others.
pub proof fn lemma_incremental_encoding(
    t: KeyTree,
    old: Node,
    new: Node,
    m0: int,
    m1: int,
    lo: nat,
    hi: nat,
    sigma: spec_fn(nat) -> bool,
)
    requires
        old.wf(),
        old.maps_wf(),
        old.zero_free(),
        old.key_tree() == t.encode(m0),
        keys_bounded(t),
        new.maps_wf(),
        old.extended_by(new, lo, hi),
        new.key_tree() == old.key_tree().encode_change(m1),
        0 <= m0 <= m1 <= usize::MAX,
    ensures
        cnf_sat(sigma, old.tree_clauses(m0) + new.change_clauses(old.key_tree(), m1)) == cnf_sat(
            sigma,
            new.tree_clauses(m1),
        ),
        forall|c: Seq<Lit>|
            #[trigger] (old.tree_clauses(m0) + new.change_clauses(old.key_tree(), m1)).contains(c)
                == new.tree_clauses(m1).contains(c),
{
    lemma_encode_encoded(t, m0);
    lemma_encode_enc_at_most(t, m0);
    lemma_encode_keys_bounded(t, m0);
    lemma_incremental_clauses(old, new, m0, m1, lo, hi);
    let both = old.tree_clauses(m0) + new.change_clauses(old.key_tree(), m1);
    let full = new.tree_clauses(m1);
    assert forall|c: Seq<Lit>| #[trigger] both.contains(c) == full.contains(c) by {
        lemma_contains_concat(old.tree_clauses(m0), new.change_clauses(old.key_tree(), m1), c);
    }
    if cnf_sat(sigma, both) {
        assert forall|i: int| 0 <= i < full.len() implies clause_sat(sigma, #[trigger] full[i]) by {
            assert(full.contains(full[i]));
            lemma_contains_concat(old.tree_clauses(m0), new.change_clauses(old.key_tree(), m1), full[i]);
            lemma_sat_contains(sigma, both, full[i]);
        }
    }
    if cnf_sat(sigma, full) {
        assert forall|i: int| 0 <= i < both.len() implies clause_sat(sigma, #[trigger] both[i]) by {
            assert(both.contains(both[i]));
            lemma_contains_concat(old.tree_clauses(m0), new.change_clauses(old.key_tree(), m1), both[i]);
            lemma_sat_contains(sigma, full, both[i]);
        }
    }
}


/// Every node of the key tree has encoded at most up to its maximum value.
pub open spec fn enc_within(t: KeyTree) -> bool
    decreases t,
{
    match t {
        KeyTree::Leaf { .. } => true,
        KeyTree::Node { max_val, max_enc, left, right, .. } => max_enc <= max_val && enc_within(*left) && enc_within(
            *right,
        ),
    }
}

/// Encoding incrementally a second time up to the same weight changes no
/// node and takes no fresh variable.
pub proof fn lemma_encode_change_twice(t: KeyTree, m: int)
    requires
        enc_within(t),
        0 <= m,
    ensures
        enc_within(t.encode_change(m)),
        t.encode_change(m).encode_change(m) == t.encode_change(m),
        t.encode_change(m).encode_change_count(m) == 0,
    decreases t,
{
    if let KeyTree::Node { keys, max_val, max_enc, left, right } = t {
        lemma_encode_change_twice(*left, m);
        lemma_encode_change_twice(*right, m);
        let l = left.encode_change(m);
        let r = right.encode_change(m);
        let t1 = t.encode_change(m);
        let k1 = t1.keys();
        let nd = needed(l.keys(), r.keys(), m);
        let me1: nat = if m < max_val {
            m as nat
        } else {
            max_val
        };
        assert(t1 == KeyTree::Node {
            keys: k1,
            max_val,
            max_enc: me1,
            left: Box::new(l),
            right: Box::new(r),
        });
        assert(me1 <= max_val);
        assert(enc_within(l) && enc_within(r));
        assert(enc_within(t1));
        if me1 < m {
            assert(max_enc < m);
            assert(k1 == keys.union(nd));
            assert(k1.union(nd) =~= k1);
            assert(nd.difference(k1) =~= Set::<usize>::empty());
        }
        assert(t1.encode_change(m) == t1);
    }
}

/// A subtree whose key tree is an incremental encoding up to `m` gives no
/// clause when it is encoded incrementally up to `m` again.
pub proof fn lemma_change_clauses_again(n: Node, t: KeyTree, m: int)
    requires
        n.key_tree() == t.encode_change(m),
    ensures
        n.change_clauses(n.key_tree(), m) == Seq::<Seq<Lit>>::empty(),
    decreases n,
{
    if let Node::Internal { left, right, .. } = n {
        lemma_change_clauses_again(*left, *t->left, m);
        lemma_change_clauses_again(*right, *t->right, m);
        assert(n.change_clauses(n.key_tree(), m) =~= Seq::<Seq<Lit>>::empty());
    }
}

/// Reserving the outputs of a subtree's root a second time, up to the same
/// or a smaller weight, changes nothing and takes no fresh variable.
pub proof fn lemma_reserve_twice(t: KeyTree, m: int, m2: int)
    requires
        m2 <= m,
    ensures
        t.reserve(m).reserve(m2) == t.reserve(m),
        t.reserve(m).reserve_count(m2) == 0,
        t.reserve(m).max_val() == t.max_val(),
{
    if let KeyTree::Node { keys, left, right, .. } = t {
        let nd = needed(left.keys(), right.keys(), m);
        let nd2 = needed(left.keys(), right.keys(), m2);
        assert(nd2.subset_of(nd));
        assert(keys.union(nd).union(nd2) =~= keys.union(nd));
        assert(nd2.difference(keys.union(nd)) =~= Set::<usize>::empty());
    }
}

/// Reserving all outputs of a subtree a second time changes nothing and
/// takes no fresh variable.
pub proof fn lemma_reserve_all_twice(t: KeyTree)
    ensures
        t.reserve_all_rec().reserve_all_rec() == t.reserve_all_rec(),
        t.reserve_all_rec().reserve_all_rec_count() == 0,
        t.reserve_all_rec().max_val() == t.max_val(),
    decreases t,
{
    if let KeyTree::Node { keys, max_val, left, right, .. } = t {
        lemma_reserve_all_twice(*left);
        lemma_reserve_all_twice(*right);
        let l = left.reserve_all_rec();
        let r = right.reserve_all_rec();
        let nd = needed(l.keys(), r.keys(), max_val as int);
        assert(keys.union(nd).union(nd) =~= keys.union(nd));
        assert(nd.difference(keys.union(nd)) =~= Set::<usize>::empty());
    }
}

/// The key tree of a consistent subtree has encoded each node at most up
/// to its maximum value.
pub proof fn lemma_wf_enc_within(n: Node)
    requires
        n.wf(),
    ensures
        enc_within(n.key_tree()),
    decreases n,
{
    if let Node::Internal { left, right, .. } = n {
        lemma_wf_enc_within(*left);
        lemma_wf_enc_within(*right);
    }
}

/// A freshly built key tree has encoded nothing.
pub proof fn lemma_build_enc_within(ws: Seq<usize>)
    ensures
        enc_within(build_key_tree(ws)),
    decreases ws.len(),
{
    if ws.len() > 1 {
        let split = ws.len() / 2;
        lemma_build_enc_within(ws.take(split as int));
        lemma_build_enc_within(ws.skip(split as int));
    }
}

/// Reserving keeps what each node has encoded and its maximum value.
pub proof fn lemma_reserve_all_enc_within(t: KeyTree)
    requires
        enc_within(t),
    ensures
        enc_within(t.reserve_all_rec()),
    decreases t,
{
    if let KeyTree::Node { left, right, .. } = t {
        lemma_reserve_all_enc_within(*left);
        lemma_reserve_all_enc_within(*right);
        lemma_reserve_all_twice(*left);
        lemma_reserve_all_twice(*right);
    }
}

/// The tree that extending a consistent totalizer gives has encoded each
/// node at most up to its maximum value.
pub proof fn lemma_extended_enc_within(g: GeneralizedTotalizer, b: usize)
    requires
        g.wf(),
    ensures
        match g.extended_key_tree(b) {
            None => true,
            Some(t) => enc_within(t),
        },
{
    if let Some(r) = g.root() {
        lemma_wf_enc_within(*r);
    }
    let new = g.new_leaves(b);
    if new.len() > 0 {
        let sub0 = build_key_tree(weights_of(new));
        lemma_build_enc_within(weights_of(new));
        lemma_reserve_all_enc_within(sub0);
    }
}

/// Changing only the literals keeps the total weight.
pub proof fn lemma_total_weight_relabel(s: Seq<(Lit, usize)>, f: spec_fn(Lit) -> Lit)
    ensures
        total_weight(s.map_values(|e: (Lit, usize)| (f(e.0), e.1))) == total_weight(s),
    decreases s.len(),
{
    if s.len() > 0 {
        assert(s.map_values(|e: (Lit, usize)| (f(e.0), e.1)).drop_last() =~= s.drop_last().map_values(
            |e: (Lit, usize)| (f(e.0), e.1),
        ));
        lemma_total_weight_relabel(s.drop_last(), f);
    }
}

/// Encoding incrementally a second time with the same bound changes
/// nothing: after `encode_change(_, max_rhs)` took `g0` to `g1`, and a
/// second `encode_change(_, max_rhs)` took `g1` to `g2`, the second call
/// moved no literal into the tree, took no fresh variable, left the key
/// tree as it was and gave no clause. For lower bounds this holds while the
/// tree's leaves weigh nothing in total, as they do in every totalizer built
/// from a fresh one: without a tree the bound on the tree is 0.
pub proof fn lemma_encode_change_again(
    g0: GeneralizedTotalizer,
    g1: GeneralizedTotalizer,
    g2: GeneralizedTotalizer,
    max_rhs: usize,
)
    requires
        g0.wf(),
        g0.bound() == BoundType::LB ==> g0.tree_total() == 0,
        g0.encode_ok(max_rhs),
        g0.extended_to(g1, g0.encoding_bound(max_rhs)),
        g1.key_tree() == match g0.extended_key_tree(g0.encoding_bound(max_rhs)) {
            None => None,
            Some(t) => Some(t.encode_change(g0.encode_target(max_rhs))),
        },
        g1.extended_to(g2, g1.encoding_bound(max_rhs)),
        g2.key_tree() == match g1.extended_key_tree(g1.encoding_bound(max_rhs)) {
            None => None,
            Some(t) => Some(t.encode_change(g1.encode_target(max_rhs))),
        },
    ensures
        g1.encoding_bound(max_rhs) == g0.encoding_bound(max_rhs),
        g1.encode_target(max_rhs) == g0.encode_target(max_rhs),
        g1.new_leaves(g1.encoding_bound(max_rhs)).len() == 0,
        g1.encode_change_vars(max_rhs) == 0,
        g2.key_tree() == g1.key_tree(),
        match g2.root() {
            None => true,
            Some(r) => r.change_clauses(
                g1.extended_key_tree(g1.encoding_bound(max_rhs)).unwrap(),
                g1.encode_target(max_rhs),
            ) == Seq::<Seq<Lit>>::empty(),
        },
{
    let b0 = g0.encoding_bound(max_rhs);
    let m = g0.encode_target(max_rhs);
    let moved = g0.moved(b0);
    let f = |l: Lit| g0.tree_lit(l);
    // the bound on the tree stays
    if g0.bound() == BoundType::LB {
        assert(b0 == 0);
        assert(leaf_weights_at_most(moved, 0)) by {
            assert forall|i: int| 0 <= i < moved.len() implies (#[trigger] moved[i]).1 <= 0 by {
                g0.buffer().entries().lemma_filter_pred(weight_at_most(b0), i);
            }
        }
        crate::encodings::pb::bounds::lemma_total_weight_zero(moved);
    }
    lemma_total_weight_sort(moved.map_values(|e: (Lit, usize)| (f(e.0), e.1)));
    assert(moved.map_values(|e: (Lit, usize)| (f(e.0), e.1)) =~= moved.map_values(
        |e: (Lit, usize)| (g0.tree_lit(e.0), e.1),
    ));
    lemma_total_weight_relabel(moved, f);
    lemma_total_weight_concat(g0.tree_leaves(), g0.new_leaves(b0));
    if let Some(r) = g0.root() {
        lemma_leaves_weight(*r);
    }
    if let Some(r) = g1.root() {
        lemma_leaves_weight(*r);
    }
    if g0.bound() == BoundType::LB {
        assert(g1.tree_total() == 0);
    }
    assert(g1.encoding_bound(max_rhs) == b0);
    // nothing is left to move
    let be1 = g1.buffer().entries();
    assert forall|i: int| 0 <= i < be1.len() implies (#[trigger] be1[i]).1 > b0 by {
        g0.buffer().entries().lemma_filter_pred(weight_above(b0), i);
    }
    assert(g1.moved(b0) =~= Seq::<(Lit, usize)>::empty()) by {
        reveal(Seq::filter);
        if g1.moved(b0).len() > 0 {
            let x = g1.moved(b0)[0];
            be1.lemma_filter_pred(weight_at_most(b0), 0);
            be1.lemma_filter_contains_rev(weight_at_most(b0), x);
        }
    }
    assert(g1.new_leaves(b0).len() == 0);
    assert(g1.extended_leaf_weight_max(b0) == g1.leaf_weight_max());
    assert(g1.encode_target(max_rhs) == m);
    lemma_extended_enc_within(g0, b0);
    if let Some(t) = g0.extended_key_tree(b0) {
        lemma_encode_change_twice(t, m);
        assert(g2.key_tree() == g1.key_tree());
        let r2 = g2.root().unwrap();
        lemma_change_clauses_again(*r2, t, m);
    }
}

/// Encoding from scratch a second time up to the same weight changes no
/// node and takes no fresh variable.
pub proof fn lemma_encode_twice(t: KeyTree, m: int)
    requires
        0 <= m,
    ensures
        t.encode(m).encode(m) == t.encode(m),
        t.encode(m).encode_count(m) == 0,
    decreases t,
{
    if let KeyTree::Node { keys, max_val, left, right, .. } = t {
        lemma_encode_twice(*left, m);
        lemma_encode_twice(*right, m);
        let l = left.encode(m);
        let r = right.encode(m);
        let nd = needed(l.keys(), r.keys(), m);
        assert(keys.union(nd).union(nd) =~= keys.union(nd));
        assert(nd.difference(keys.union(nd)) =~= Set::<usize>::empty());
    }
}

/// Encoding from scratch a second time with the same bound gives the same
/// clauses: after `encode(_, max_rhs)` took `g0` to `g1`, and a second
/// `encode(_, max_rhs)` took `g1` to `g2`, handing out variables from `v1`
/// on and ending at `v2`, the second call moved no literal into the tree,
/// took no fresh variable, left the key tree, the depth and the output
/// literals as they were, and gave the clauses of the first call again. For
/// lower bounds this holds while the tree's leaves weigh nothing in total,
/// as they do in every totalizer built from a fresh one.
pub proof fn lemma_encode_again(
    g0: GeneralizedTotalizer,
    g1: GeneralizedTotalizer,
    g2: GeneralizedTotalizer,
    max_rhs: usize,
    v1: nat,
    v2: nat,
)
    requires
        g0.wf(),
        g0.encode_ok(max_rhs),
        g0.bound() == BoundType::LB ==> g0.tree_total() == 0,
        g0.extended_to(g1, g0.encoding_bound(max_rhs)),
        g1.key_tree() == match g0.extended_key_tree(g0.encoding_bound(max_rhs)) {
            None => None,
            Some(t) => Some(t.encode(g0.encode_target(max_rhs))),
        },
        g1.extended_to(g2, g1.encoding_bound(max_rhs)),
        g2.key_tree() == match g1.extended_key_tree(g1.encoding_bound(max_rhs)) {
            None => None,
            Some(t) => Some(t.encode(g1.encode_target(max_rhs))),
        },
        v2 == v1 + g1.encode_vars(max_rhs),
        g1.new_leaves(g1.encoding_bound(max_rhs)).len() == 0 ==> match g1.root() {
            None => g2.root() is None,
            Some(r) => g2.root() is Some && r.extended_by(*g2.root().unwrap(), v1, v2),
        },
        g2.tree_depth() == g1.extended_depth(g1.encoding_bound(max_rhs)),
    ensures
        g1.encoding_bound(max_rhs) == g0.encoding_bound(max_rhs),
        g1.encode_target(max_rhs) == g0.encode_target(max_rhs),
        g1.new_leaves(g1.encoding_bound(max_rhs)).len() == 0,
        v2 == v1,
        g2.key_tree() == g1.key_tree(),
        g2.tree_depth() == g1.tree_depth(),
        match g1.root() {
            None => g2.root() is None,
            Some(r) => g2.root().unwrap().out_map() == r.out_map(),
        },
        g2.tree_clauses(g1.encode_target(max_rhs)) == g1.tree_clauses(g0.encode_target(max_rhs)),
{
    let b0 = g0.encoding_bound(max_rhs);
    let m = g0.encode_target(max_rhs);
    let moved = g0.moved(b0);
    let f = |l: Lit| g0.tree_lit(l);
    if g0.bound() == BoundType::LB {
        assert(leaf_weights_at_most(moved, 0)) by {
            assert forall|i: int| 0 <= i < moved.len() implies (#[trigger] moved[i]).1 <= 0 by {
                g0.buffer().entries().lemma_filter_pred(weight_at_most(b0), i);
            }
        }
        crate::encodings::pb::bounds::lemma_total_weight_zero(moved);
    }
    lemma_total_weight_sort(moved.map_values(|e: (Lit, usize)| (f(e.0), e.1)));
    assert(moved.map_values(|e: (Lit, usize)| (f(e.0), e.1)) =~= moved.map_values(
        |e: (Lit, usize)| (g0.tree_lit(e.0), e.1),
    ));
    lemma_total_weight_relabel(moved, f);
    lemma_total_weight_concat(g0.tree_leaves(), g0.new_leaves(b0));
    if let Some(r) = g0.root() {
        lemma_leaves_weight(*r);
    }
    if let Some(r) = g1.root() {
        lemma_leaves_weight(*r);
    }
    if g0.bound() == BoundType::LB {
        assert(g1.tree_total() == 0);
    }
    assert(g1.encoding_bound(max_rhs) == b0);
    let be1 = g1.buffer().entries();
    assert forall|i: int| 0 <= i < be1.len() implies (#[trigger] be1[i]).1 > b0 by {
        g0.buffer().entries().lemma_filter_pred(weight_above(b0), i);
    }
    assert(g1.moved(b0) =~= Seq::<(Lit, usize)>::empty()) by {
        reveal(Seq::filter);
        if g1.moved(b0).len() > 0 {
            let x = g1.moved(b0)[0];
            be1.lemma_filter_pred(weight_at_most(b0), 0);
            be1.lemma_filter_contains_rev(weight_at_most(b0), x);
        }
    }
    assert(g1.new_leaves(b0).len() == 0);
    assert(g1.extended_leaf_weight_max(b0) == g1.leaf_weight_max());
    assert(g1.encode_target(max_rhs) == m);
    if let Some(t) = g0.extended_key_tree(b0) {
        lemma_encode_twice(t, m);
        assert(g2.key_tree() == g1.key_tree());
        let r1 = g1.root().unwrap();
        let r2 = g2.root().unwrap();
        r1.lemma_extended_same_keys(*r2, v1, v2);
    }
}

/// Extending a map of output literals by no fresh variable leaves it as it
/// was: reserving again, which takes no variable, changes no output literal.
pub proof fn lemma_fresh_extension_empty(old: Map<usize, Lit>, new: Map<usize, Lit>, v: nat)
    requires
        fresh_extension(old, new, v, v),
        old.dom().finite(),
        new.dom().finite(),
    ensures
        new == old,
{
    let d = new.dom().difference(old.dom());
    assert(d.len() == 0);
    assert forall|k: usize| new.contains_key(k) implies old.contains_key(k) by {
        if !old.contains_key(k) {
            assert(d.contains(k));
            d.lemma_len0_is_empty();
            assert(false);
        }
    }
    assert(new =~= old);
}

/// Extending a subtree keeps the variables of its output literals.
pub proof fn lemma_extended_keeps_vars(old: Node, new: Node, a: nat, b: nat)
    requires
        old.extended_by(new, a, b),
    ensures
        forall|v: nat| #[trigger] out_vars(old).contains(v) ==> out_vars(new).contains(v),
    decreases old,
{
    if let Node::Internal { out_lits, left, right, .. } = old {
        lemma_extended_keeps_vars(*left, *new->left, a, b);
        lemma_extended_keeps_vars(*right, *new->right, a, b);
        assert forall|v: nat| #[trigger] out_vars(old).contains(v) implies out_vars(new).contains(v) by {
            if own_vars(old).contains(v) {
                let k = choose|k: usize| #[trigger] old.out_map().contains_key(k) && old.out_map()[k].var_index() == v;
                assert(new.out_map().contains_key(k) && new.out_map()[k].var_index() == v);
                assert(own_vars(new).contains(v));
            } else if out_vars(*left).contains(v) {
                assert(out_vars(*new->left).contains(v));
            } else {
                assert(out_vars(*right).contains(v));
                assert(out_vars(*new->right).contains(v));
            }
        }
    }
}

/// A clause of a node's adder in an incremental step, above what `ko` had
/// encoded, ends with the node's output literal of a weight above what `ko`
/// had encoded and at most `m`.
pub proof fn lemma_change_adder_head(n: Node, ko: KeyTree, m: int, c: Seq<Lit>) -> (k: usize)
    requires
        n is Internal,
        n.key_tree() == ko.encode_change(m),
        ko->max_enc < m,
        m <= usize::MAX,
        adder_clauses(n->left.entries(), n->right.entries(), n->out_lits@, ko->max_enc + 1int, m).contains(c),
    ensures
        ko->max_enc < k <= m,
        n.out_map().contains_key(k),
        c.len() >= 1,
        c[c.len() - 1] == n.out_map()[k],
{
    let l = *n->left;
    let r = *n->right;
    let out = n->out_lits@;
    let lo = ko->max_enc + 1int;
    lemma_keys_entries(l);
    lemma_keys_entries(r);
    let lk = l.key_tree().keys();
    let rk = r.key_tree().keys();
    let nd = needed(lk, rk, m);
    assert(n.key_tree().keys() == ko.keys().union(nd));
    let ua = unit_clauses(l.entries(), out, lo, m);
    let ub = unit_clauses(r.entries(), out, lo, m);
    let sm = sum_clauses(l.entries(), r.entries(), out, lo, m);
    lemma_contains_concat(ua + ub, sm, c);
    lemma_contains_concat(ua, ub, c);
    if ua.contains(c) {
        let i = lemma_unit_clause_from(l.entries(), out, lo, m, c);
        let k = l.entries()[i].0;
        assert(key_set(l.entries()).contains(k));
        assert(nd.contains(k));
        k
    } else if ub.contains(c) {
        let i = lemma_unit_clause_from(r.entries(), out, lo, m, c);
        let k = r.entries()[i].0;
        assert(key_set(r.entries()).contains(k));
        assert(nd.contains(k));
        k
    } else {
        let (i, j) = lemma_sum_clause_from(l.entries(), r.entries(), out, lo, m, c);
        let a = l.entries()[i].0;
        let b = r.entries()[j].0;
        let k = (a + b) as usize;
        assert(key_set(l.entries()).contains(a));
        assert(key_set(r.entries()).contains(b));
        if b == 0 {
            assert(k == a);
            assert(nd.contains(k));
        } else {
            assert(0 < a && 0 < b && lk.contains(a) && rk.contains(b) && a + b == k);
            assert(nd.contains(k));
        }
        k
    }
}

/// Every clause of an incremental step ends with an output literal of the
/// subtree.
pub proof fn lemma_change_heads(n: Node, ko: KeyTree, m: int, c: Seq<Lit>)
    requires
        n.key_tree() == ko.encode_change(m),
        m <= usize::MAX,
        n.change_clauses(ko, m).contains(c),
    ensures
        c.len() >= 1,
        out_vars(n).contains(c[c.len() - 1].var_index()),
    decreases n,
{
    if let Node::Internal { left, right, max_val, out_lits, .. } = n {
        let lc = left.change_clauses(*ko->left, m);
        let rc = right.change_clauses(*ko->right, m);
        let ad = if ko->max_enc >= m || ko->max_enc >= max_val {
            Seq::<Seq<Lit>>::empty()
        } else {
            adder_clauses(left.entries(), right.entries(), out_lits@, ko->max_enc + 1int, m)
        };
        assert(n.change_clauses(ko, m) == lc + rc + ad);
        lemma_contains_concat(lc + rc, ad, c);
        lemma_contains_concat(lc, rc, c);
        if lc.contains(c) {
            lemma_change_heads(*left, *ko->left, m, c);
        } else if rc.contains(c) {
            lemma_change_heads(*right, *ko->right, m, c);
        } else {
            let k = lemma_change_adder_head(n, ko, m, c);
            assert(own_vars(n).contains(n.out_map()[k].var_index()));
        }
    }
}

/// Incremental encoding only encodes new clauses: after a subtree was
/// encoded incrementally up to `m1` (from key tree `ko` to `mid`) and then
/// again up to `m2` (from `mid` to `new`, its outputs extended with fresh
/// variables), no clause of the first step occurs in the second.
pub proof fn lemma_change_no_repeat(
    mid: Node,
    new: Node,
    ko: KeyTree,
    m1: int,
    m2: int,
    lo: nat,
    hi: nat,
    flo: nat,
    fhi: nat,
    c: Seq<Lit>,
)
    requires
        mid.key_tree() == ko.encode_change(m1),
        new.key_tree() == mid.key_tree().encode_change(m2),
        m1 <= usize::MAX,
        m2 <= usize::MAX,
        mid.extended_by(new, lo, hi),
        fresh_outputs(new, flo, fhi),
        mid.change_clauses(ko, m1).contains(c),
    ensures
        !new.change_clauses(mid.key_tree(), m2).contains(c),
    decreases mid,
{
    if let Node::Internal { left, right, max_val, out_lits, .. } = mid {
        let km = mid.key_tree();
        let nl = *new->left;
        let nr = *new->right;
        let lc1 = left.change_clauses(*ko->left, m1);
        let rc1 = right.change_clauses(*ko->right, m1);
        let ad1 = if ko->max_enc >= m1 || ko->max_enc >= max_val {
            Seq::<Seq<Lit>>::empty()
        } else {
            adder_clauses(left.entries(), right.entries(), out_lits@, ko->max_enc + 1int, m1)
        };
        let lc2 = nl.change_clauses(*km->left, m2);
        let rc2 = nr.change_clauses(*km->right, m2);
        let ad2 = if km->max_enc >= m2 || km->max_enc >= new->max_val {
            Seq::<Seq<Lit>>::empty()
        } else {
            adder_clauses(nl.entries(), nr.entries(), new->out_lits@, km->max_enc + 1int, m2)
        };
        assert(mid.change_clauses(ko, m1) == lc1 + rc1 + ad1);
        assert(new.change_clauses(km, m2) == lc2 + rc2 + ad2);
        lemma_contains_concat(lc1 + rc1, ad1, c);
        lemma_contains_concat(lc1, rc1, c);
        lemma_contains_concat(lc2 + rc2, ad2, c);
        lemma_contains_concat(lc2, rc2, c);
        lemma_extended_keeps_vars(*left, nl, lo, hi);
        lemma_extended_keeps_vars(*right, nr, lo, hi);
        if new.change_clauses(km, m2).contains(c) {
            let hv = c[c.len() - 1].var_index();
            // where the clause ends in the second step
            if lc2.contains(c) {
                lemma_change_heads(nl, *km->left, m2, c);
            } else if rc2.contains(c) {
                lemma_change_heads(nr, *km->right, m2, c);
            }
            if ad2.contains(c) {
                let k2 = lemma_change_adder_head(new, km, m2, c);
                assert(own_vars(new).contains(hv));
                assert(!out_vars(nl).contains(hv) && !out_vars(nr).contains(hv));
            }
            // where it ends in the first step
            if lc1.contains(c) {
                lemma_change_heads(*left, *ko->left, m1, c);
                if lc2.contains(c) {
                    lemma_change_no_repeat(*left, nl, *ko->left, m1, m2, lo, hi, flo, fhi, c);
                }
                assert(out_vars(nl).contains(hv));
                assert(out_vars(nl).disjoint(out_vars(nr)));
            } else if rc1.contains(c) {
                lemma_change_heads(*right, *ko->right, m1, c);
                if rc2.contains(c) {
                    lemma_change_no_repeat(*right, nr, *ko->right, m1, m2, lo, hi, flo, fhi, c);
                }
                assert(out_vars(nr).contains(hv));
                assert(out_vars(nl).disjoint(out_vars(nr)));
            } else {
                let k1 = lemma_change_adder_head(mid, ko, m1, c);
                assert(new.out_map()[k1] == mid.out_map()[k1]);
                assert(own_vars(new).contains(hv));
                if ad2.contains(c) {
                    let k2 = lemma_change_adder_head(new, km, m2, c);
                    assert(km->max_enc == m1);
                    assert(k1 != k2);
                }
            }
        }
    }
}

/// Whether no node of the key tree has encoded anything yet.
pub open spec fn never_encoded(t: KeyTree) -> bool
    decreases t,
{
    match t {
        KeyTree::Leaf { .. } => true,
        KeyTree::Node { max_enc, left, right, .. } => max_enc == 0 && never_encoded(*left) && never_encoded(*right),
    }
}

/// On a tree that has encoded nothing yet, encoding incrementally is
/// encoding from scratch: the same outputs, the same number of fresh
/// variables.
pub proof fn lemma_change_unencoded_is_encode(t: KeyTree, m: int)
    requires
        never_encoded(t),
    ensures
        t.encode_change(m) == t.encode(m),
        t.encode_change_count(m) == t.encode_count(m),
    decreases t,
{
    if let KeyTree::Node { keys, left, right, .. } = t {
        lemma_change_unencoded_is_encode(*left, m);
        lemma_change_unencoded_is_encode(*right, m);
        if m <= 0 {
            let nd = needed(left.encode(m).keys(), right.encode(m).keys(), m);
            assert(nd =~= Set::<usize>::empty());
            assert(keys.union(nd) =~= keys);
            assert(nd.difference(keys) =~= Set::<usize>::empty());
        }
    }
}

/// Unit clauses for positive weights only do not depend on whether the
/// range starts at 0 or 1.
pub proof fn lemma_unit_clauses_from_one(es: Seq<(usize, Lit)>, out: Map<usize, Lit>, hi: int)
    requires
        !has_key(es, 0),
    ensures
        unit_clauses(es, out, 1, hi) == unit_clauses(es, out, 0, hi),
    decreases es.len(),
{
    if es.len() > 0 {
        assert(!has_key(es.drop_last(), 0)) by {
            if has_key(es.drop_last(), 0) {
                let i = choose|i: int| 0 <= i < es.drop_last().len() && (#[trigger] es.drop_last()[i]).0 == 0;
                assert(es[i].0 == 0);
            }
        }
        lemma_unit_clauses_from_one(es.drop_last(), out, hi);
        assert(es[es.len() - 1].0 != 0);
    }
}

/// Sum clauses with a positive first weight do not depend on whether the
/// range starts at 0 or 1.
pub proof fn lemma_sum_with_from_one(a: usize, la: Lit, rs: Seq<(usize, Lit)>, out: Map<usize, Lit>, hi: int)
    requires
        0 < a,
    ensures
        sum_clauses_with(a, la, rs, out, 1, hi) == sum_clauses_with(a, la, rs, out, 0, hi),
    decreases rs.len(),
{
    if rs.len() > 0 {
        lemma_sum_with_from_one(a, la, rs.drop_last(), out, hi);
    }
}

/// Sum clauses do not depend on whether the range starts at 0 or 1.
pub proof fn lemma_sum_clauses_from_one(ls: Seq<(usize, Lit)>, rs: Seq<(usize, Lit)>, out: Map<usize, Lit>, hi: int)
    ensures
        sum_clauses(ls, rs, out, 1, hi) == sum_clauses(ls, rs, out, 0, hi),
    decreases ls.len(),
{
    if ls.len() > 0 {
        lemma_sum_clauses_from_one(ls.drop_last(), rs, out, hi);
        let e = ls.last();
        if 0 < e.0 {
            lemma_sum_with_from_one(e.0, e.1, rs, out, hi);
        }
    }
}

/// On a subtree that has encoded nothing yet, without children of weight 0,
/// the clauses of encoding incrementally up to `m >= 0` are those of encoding
/// from scratch up to `m`, in the same order.
pub proof fn lemma_change_unencoded_clauses(n: Node, m: int)
    requires
        never_encoded(n.key_tree()),
        n.zero_free(),
        n.wf(),
        0 <= m,
    ensures
        n.change_clauses(n.key_tree(), m) == n.tree_clauses(m),
    decreases n,
{
    if let Node::Internal { left, right, out_lits, max_val, .. } = n {
        lemma_change_unencoded_clauses(*left, m);
        lemma_change_unencoded_clauses(*right, m);
        lemma_keys_entries(*left);
        lemma_keys_entries(*right);
        assert(!has_key(left.entries(), 0)) by {
            if has_key(left.entries(), 0) {
                assert(key_set(left.entries()).contains(0));
            }
        }
        assert(!has_key(right.entries(), 0)) by {
            if has_key(right.entries(), 0) {
                assert(key_set(right.entries()).contains(0));
            }
        }
        lemma_unit_clauses_from_one(left.entries(), out_lits@, m);
        lemma_unit_clauses_from_one(right.entries(), out_lits@, m);
        lemma_sum_clauses_from_one(left.entries(), right.entries(), out_lits@, m);
        if m == 0 {
            lemma_unit_clauses_empty(left.entries(), out_lits@);
            lemma_unit_clauses_empty(right.entries(), out_lits@);
            lemma_sum_clauses_empty(left.entries(), right.entries(), out_lits@);
        }
        lemma_zero_free_positive(n);
        assert(adder_clauses(left.entries(), right.entries(), out_lits@, 1, m) == adder_clauses(
            left.entries(),
            right.entries(),
            out_lits@,
            0,
            m,
        ));
        if m == 0 {
            assert(adder_clauses(left.entries(), right.entries(), out_lits@, 1, 0) =~= Seq::<Seq<Lit>>::empty());
        }
        assert(n.change_clauses(n.key_tree(), m) == left.tree_clauses(m) + right.tree_clauses(m) + (if 0 >= m {
            Seq::<Seq<Lit>>::empty()
        } else {
            adder_clauses(left.entries(), right.entries(), out_lits@, 1, m)
        }));
    }
}

/// No clause is in range `[1, 0]`.
pub proof fn lemma_unit_clauses_empty(es: Seq<(usize, Lit)>, out: Map<usize, Lit>)
    ensures
        unit_clauses(es, out, 1, 0) == Seq::<Seq<Lit>>::empty(),
    decreases es.len(),
{
    if es.len() > 0 {
        lemma_unit_clauses_empty(es.drop_last(), out);
    }
}

/// No sum clause is in range `[1, 0]`.
pub proof fn lemma_sum_clauses_empty(ls: Seq<(usize, Lit)>, rs: Seq<(usize, Lit)>, out: Map<usize, Lit>)
    ensures
        sum_clauses(ls, rs, out, 1, 0) == Seq::<Seq<Lit>>::empty(),
    decreases ls.len(),
{
    if ls.len() > 0 {
        lemma_sum_clauses_empty(ls.drop_last(), rs, out);
    }
}

/// A consistent subtree without children of weight 0 has a positive
/// maximum value, if it is internal.
pub proof fn lemma_zero_free_positive(n: Node)
    requires
        n.wf(),
        n.zero_free(),
        n is Internal,
    ensures
        n.max_val_of() >= 1,
    decreases n,
{
    let l = *n->left;
    match l {
        Node::Leaf { lit, weight } => {
            assert(l.entries()[0].0 == weight);
            if weight == 0 {
                assert(has_key(l.entries(), 0));
            }
        },
        Node::Internal { .. } => {
            lemma_zero_free_positive(l);
        },
    }
}

/// Encoding from scratch up to `m0` and then incrementally up to `m >= m0`
/// gives the key tree of encoding from scratch up to `m`.
pub proof fn lemma_encode_then_change(t: KeyTree, m0: int, m: int)
    requires
        0 <= m0 <= m,
    ensures
        t.encode(m0).encode_change(m) == t.encode(m),
        t.encode(m0).keys().subset_of(t.encode(m).keys()),
    decreases t,
{
    if let KeyTree::Node { keys, max_val, left, right, .. } = t {
        lemma_encode_then_change(*left, m0, m);
        lemma_encode_then_change(*right, m0, m);
        let l0 = left.encode(m0);
        let r0 = right.encode(m0);
        let l = left.encode(m);
        let r = right.encode(m);
        let n0 = needed(l0.keys(), r0.keys(), m0);
        let n1 = needed(l.keys(), r.keys(), m);
        assert(n0.subset_of(n1)) by {
            assert forall|k: usize| n0.contains(k) implies n1.contains(k) by {
                if !(l0.keys().contains(k) || r0.keys().contains(k)) {
                    let (a, b) = choose|a: usize, b: usize|
                        0 < a && 0 < b && l0.keys().contains(a) && r0.keys().contains(b) && a + b == k;
                    assert(l.keys().contains(a) && r.keys().contains(b));
                }
            }
        }
        let me0: nat = if m0 < max_val {
            m0 as nat
        } else {
            max_val
        };
        if me0 >= m {
            assert(m0 == m);
        } else {
            assert(keys.union(n0).union(n1) =~= keys.union(n1));
        }
    }
}

/// A freshly built key tree has encoded nothing.
pub proof fn lemma_build_never_encoded(ws: Seq<usize>)
    ensures
        never_encoded(build_key_tree(ws)),
        keys_bounded(build_key_tree(ws)),
    decreases ws.len(),
{
    if ws.len() > 1 {
        let split = ws.len() / 2;
        lemma_build_never_encoded(ws.take(split as int));
        lemma_build_never_encoded(ws.skip(split as int));
    }
}

/// Reserving all outputs keeps a key tree unencoded and its keys bounded.
pub proof fn lemma_reserve_all_never_encoded(t: KeyTree)
    requires
        never_encoded(t),
        keys_bounded(t),
    ensures
        never_encoded(t.reserve_all_rec()),
        keys_bounded(t.reserve_all_rec()),
    decreases t,
{
    if let KeyTree::Node { keys, max_val, left, right, .. } = t {
        lemma_reserve_all_never_encoded(*left);
        lemma_reserve_all_never_encoded(*right);
        lemma_reserve_all_twice(*left);
        lemma_reserve_all_twice(*right);
    }
}

/// On a subtree that has encoded nothing yet, without children of weight 0,
/// the clauses of encoding incrementally up to `m >= 0` are those of encoding
/// from scratch up to `m`, in the same order.
pub proof fn lemma_change_from_unencoded(n: Node, ko: KeyTree, m: int)
    requires
        n.key_tree() == ko.encode_change(m),
        never_encoded(ko),
        n.zero_free(),
        n.wf(),
        0 <= m,
    ensures
        n.change_clauses(ko, m) == n.tree_clauses(m),
    decreases n,
{
    if let Node::Internal { left, right, out_lits, max_val, .. } = n {
        lemma_change_from_unencoded(*left, *ko->left, m);
        lemma_change_from_unencoded(*right, *ko->right, m);
        lemma_keys_entries(*left);
        lemma_keys_entries(*right);
        assert(!has_key(left.entries(), 0)) by {
            if has_key(left.entries(), 0) {
                assert(key_set(left.entries()).contains(0));
            }
        }
        assert(!has_key(right.entries(), 0)) by {
            if has_key(right.entries(), 0) {
                assert(key_set(right.entries()).contains(0));
            }
        }
        lemma_unit_clauses_from_one(left.entries(), out_lits@, m);
        lemma_unit_clauses_from_one(right.entries(), out_lits@, m);
        lemma_sum_clauses_from_one(left.entries(), right.entries(), out_lits@, m);
        if m == 0 {
            lemma_unit_clauses_empty(left.entries(), out_lits@);
            lemma_unit_clauses_empty(right.entries(), out_lits@);
            lemma_sum_clauses_empty(left.entries(), right.entries(), out_lits@);
        }
        lemma_zero_free_positive(n);
        assert(adder_clauses(left.entries(), right.entries(), out_lits@, 1, m) == adder_clauses(
            left.entries(),
            right.entries(),
            out_lits@,
            0,
            m,
        ));
        if m == 0 {
            assert(adder_clauses(left.entries(), right.entries(), out_lits@, 1, 0) =~= Seq::<Seq<Lit>>::empty());
        }
    }
}

/// At a consistent node without children of weight 0, the adder clauses for
/// the output weights above 0 up to `m` are those for the weights up to `m`:
/// an incremental step from a node that encoded nothing gives the node's
/// whole adder.
pub proof fn lemma_root_adder_from_zero(n: Node, m: int)
    requires
        n is Internal,
        n.wf(),
        n.zero_free(),
        0 <= m,
    ensures
        (if 0 >= m || 0 >= n->max_val {
            Seq::<Seq<Lit>>::empty()
        } else {
            adder_clauses(n->left.entries(), n->right.entries(), n->out_lits@, 1, m)
        }) == adder_clauses(n->left.entries(), n->right.entries(), n->out_lits@, 0, m),
{
    let left = *n->left;
    let right = *n->right;
    let out = n->out_lits@;
    lemma_keys_entries(left);
    lemma_keys_entries(right);
    assert(!has_key(left.entries(), 0)) by {
        if has_key(left.entries(), 0) {
            assert(key_set(left.entries()).contains(0));
        }
    }
    assert(!has_key(right.entries(), 0)) by {
        if has_key(right.entries(), 0) {
            assert(key_set(right.entries()).contains(0));
        }
    }
    lemma_unit_clauses_from_one(left.entries(), out, m);
    lemma_unit_clauses_from_one(right.entries(), out, m);
    lemma_sum_clauses_from_one(left.entries(), right.entries(), out, m);
    lemma_zero_free_positive(n);
    if m == 0 {
        lemma_unit_clauses_empty(left.entries(), out);
        lemma_unit_clauses_empty(right.entries(), out);
        lemma_sum_clauses_empty(left.entries(), right.entries(), out);
        assert(adder_clauses(left.entries(), right.entries(), out, 0, 0) =~= Seq::<Seq<Lit>>::empty());
    }
}

/// The tree of `g` has a key tree, if any, whose keys are bounded by the
/// maximum values.
pub open spec fn tree_keys_bounded(g: GeneralizedTotalizer) -> bool {
    match g.key_tree() {
        None => true,
        Some(kt) => keys_bounded(kt),
    }
}

/// The state that encoding leaves: the clauses `cs` are, as a set, those of
/// encoding the tree of `g` from scratch up to `m`; the tree's key tree is
/// that of a tree with bounded keys encoded from scratch up to `m`, and no
/// child of weight 0 is in it.
pub open spec fn encoded_as(g: GeneralizedTotalizer, cs: Seq<Seq<Lit>>, m: int) -> bool {
    &&& 0 <= m <= usize::MAX
    &&& g.tree_zero_free()
    &&& forall|c: Seq<Lit>| #![trigger cs.contains(c)] #![trigger g.tree_clauses(m).contains(c)]
        cs.contains(c) <==> g.tree_clauses(m).contains(c)
    &&& match g.key_tree() {
        None => true,
        Some(kt) => exists|t: KeyTree| kt == t.encode(m) && keys_bounded(t),
    }
}

/// A fresh totalizer, with no clause yet, is in the state that encoding
/// leaves.
pub proof fn lemma_fresh_encoded_as(g: GeneralizedTotalizer, bound_type: BoundType, reserving: bool)
    requires
        g.is_fresh(bound_type, reserving),
    ensures
        encoded_as(g, Seq::empty(), 0),
{
}

/// Adding literals to the buffer keeps the state that encoding left.
pub proof fn lemma_add_keeps_encoded_as(g0: GeneralizedTotalizer, g1: GeneralizedTotalizer, cs: Seq<Seq<Lit>>, m: int)
    requires
        g0.same_but_buffer(g1),
        encoded_as(g0, cs, m),
    ensures
        encoded_as(g1, cs, m),
{
}

/// The key tree that extending the tree gives: a tree with bounded keys
/// encoded up to `m0` joined with a fresh subtree, as the key tree of a tree
/// with bounded keys of which only the old part was encoded.
pub proof fn lemma_extended_unencoded(g: GeneralizedTotalizer, b: usize, t0: KeyTree, m0: int) -> (t1: KeyTree)
    requires
        g.new_leaves(b).len() > 0,
        g.key_tree() == Some(t0.encode(m0)),
        keys_bounded(t0),
    ensures
        keys_bounded(t1),
        t1 is Node,
        t1->left == t0,
        never_encoded(*t1->right),
        t1->max_enc == 0,
        g.extended_key_tree(b) == Some(KeyTree::Node {
            keys: t1->keys,
            max_val: t1->max_val,
            max_enc: 0,
            left: Box::new(t0.encode(m0)),
            right: t1->right,
        }),
{
    let new = g.new_leaves(b);
    let sub0 = build_key_tree(weights_of(new));
    lemma_build_never_encoded(weights_of(new));
    let sub = if g.reserving() {
        sub0.reserve_all_rec()
    } else {
        sub0
    };
    lemma_reserve_all_never_encoded(sub0);
    lemma_encode_keys_bounded(t0, m0);
    let kt = t0.encode(m0);
    let j = join_key_trees(kt, sub);
    let e = if g.reserving() {
        j.reserve(j.max_val() as int)
    } else {
        j
    };
    lemma_reserve_twice(j, j.max_val() as int, j.max_val() as int);
    KeyTree::Node { keys: e->keys, max_val: e->max_val, max_enc: 0, left: Box::new(t0), right: Box::new(sub) }
}

/// Incremental encoding gives the clauses of encoding from scratch, also
/// after literals were added: if the clauses `cs` so far are, as a set, those
/// of encoding the tree of `g0` from scratch up to `m0`, and
/// `encode_change(_, max_rhs)` took `g0` to `g1` returning `cnf`, encoding
/// up to a target `m >= m0`, then `cs + cnf` are, as a set, the clauses of
/// encoding the tree of `g1` (which holds the literals moved in) from
/// scratch up to `m`. A root that the extension creates has encoded nothing,
/// so its whole adder is among the new clauses.
pub proof fn lemma_encode_change_step(
    g0: GeneralizedTotalizer,
    g1: GeneralizedTotalizer,
    cs: Seq<Seq<Lit>>,
    cnf: Seq<Seq<Lit>>,
    m0: int,
    max_rhs: usize,
    v0: nat,
    v1: nat,
)
    requires
        g0.wf(),
        g0.encode_ok(max_rhs),
        encoded_as(g0, cs, m0),
        m0 <= g0.encode_target(max_rhs),
        g0.extended_to(g1, g0.encoding_bound(max_rhs)),
        g1.key_tree() == match g0.extended_key_tree(g0.encoding_bound(max_rhs)) {
            None => None,
            Some(t) => Some(t.encode_change(g0.encode_target(max_rhs))),
        },
        cnf == match g1.root() {
            None => Seq::<Seq<Lit>>::empty(),
            Some(r) => r.change_clauses(
                g0.extended_key_tree(g0.encoding_bound(max_rhs)).unwrap(),
                g0.encode_target(max_rhs),
            ),
        },
        g1.tree_zero_free(),
        g0.new_leaves(g0.encoding_bound(max_rhs)).len() == 0 ==> match g0.root() {
            None => g1.root() is None,
            Some(r) => g1.root() is Some && r.extended_by(*g1.root().unwrap(), v0, v1),
        },
        g0.new_leaves(g0.encoding_bound(max_rhs)).len() > 0 ==> match g0.root() {
            None => g1.root() is Some,
            Some(r) => g1.root() is Some && *g1.root().unwrap() is Internal && r.extended_by(
                *g1.root().unwrap()->left,
                v0,
                v1,
            ),
        },
    ensures
        encoded_as(g1, cs + cnf, g0.encode_target(max_rhs)),
{
    let b = g0.encoding_bound(max_rhs);
    let m = g0.encode_target(max_rhs);
    let ext = g0.extended_key_tree(b);
    let all = cs + cnf;
    assert forall|c: Seq<Lit>| #[trigger] all.contains(c) == (cs.contains(c) || cnf.contains(c)) by {
        lemma_contains_concat(cs, cnf, c);
    }
    if g0.new_leaves(b).len() == 0 {
        match g0.root() {
            None => {
                assert(g1.tree_clauses(m) =~= Seq::<Seq<Lit>>::empty());
                assert(g0.tree_clauses(m0) =~= Seq::<Seq<Lit>>::empty());
            },
            Some(r0) => {
                let r1 = *g1.root().unwrap();
                let kt0 = r0.key_tree();
                let t0 = choose|t: KeyTree| kt0 == t.encode(m0) && keys_bounded(t);
                lemma_encode_then_change(t0, m0, m);
                lemma_incremental_encoding(t0, *r0, r1, m0, m, v0, v1, |v: nat| true);
                assert(cnf == r1.change_clauses(kt0, m));
                assert forall|c: Seq<Lit>| #[trigger] all.contains(c) == g1.tree_clauses(m).contains(c) by {
                    lemma_contains_concat(r0.tree_clauses(m0), r1.change_clauses(kt0, m), c);
                    assert(cs.contains(c) == g0.tree_clauses(m0).contains(c));
                }
            },
        }
    } else {
        match g0.root() {
            None => {
                let r1 = *g1.root().unwrap();
                let new = g0.new_leaves(b);
                let sub0 = build_key_tree(weights_of(new));
                lemma_build_never_encoded(weights_of(new));
                lemma_reserve_all_never_encoded(sub0);
                let sub = ext.unwrap();
                lemma_change_unencoded_is_encode(sub, m);
                lemma_change_from_unencoded(r1, sub, m);
                assert(g0.tree_clauses(m0) =~= Seq::<Seq<Lit>>::empty());
                assert forall|c: Seq<Lit>| #[trigger] all.contains(c) == g1.tree_clauses(m).contains(c) by {
                    assert(cs.contains(c) == g0.tree_clauses(m0).contains(c));
                }
                assert(g1.key_tree() == Some(sub.encode(m)));
            },
            Some(r0) => {
                let r1 = *g1.root().unwrap();
                let kt0 = r0.key_tree();
                let t0 = choose|t: KeyTree| kt0 == t.encode(m0) && keys_bounded(t);
                let t1 = lemma_extended_unencoded(g0, b, t0, m0);
                let sub = *t1->right;
                let e = ext.unwrap();
                lemma_encode_then_change(t0, m0, m);
                lemma_change_unencoded_is_encode(sub, m);
                let l1 = *r1->left;
                let rr1 = *r1->right;
                assert(l1.key_tree() == kt0.encode_change(m));
                assert(rr1.key_tree() == sub.encode_change(m));
                lemma_incremental_encoding(t0, *r0, l1, m0, m, v0, v1, |v: nat| true);
                lemma_change_from_unencoded(rr1, sub, m);
                lemma_root_adder_from_zero(r1, m);
                let lc = l1.change_clauses(*e->left, m);
                let rc = rr1.change_clauses(*e->right, m);
                let ad = adder_clauses(l1.entries(), rr1.entries(), r1->out_lits@, 0, m);
                assert(cnf == lc + rc + ad);
                assert(g1.tree_clauses(m) == l1.tree_clauses(m) + rr1.tree_clauses(m) + ad);
                assert forall|c: Seq<Lit>| #[trigger] all.contains(c) == g1.tree_clauses(m).contains(c) by {
                    lemma_contains_concat(lc + rc, ad, c);
                    lemma_contains_concat(lc, rc, c);
                    lemma_contains_concat(l1.tree_clauses(m) + rr1.tree_clauses(m), ad, c);
                    lemma_contains_concat(l1.tree_clauses(m), rr1.tree_clauses(m), c);
                    lemma_contains_concat(r0.tree_clauses(m0), lc, c);
                    assert(cs.contains(c) == g0.tree_clauses(m0).contains(c));
                }
                let nd = needed(t0.encode(m).keys(), sub.encode(m).keys(), m);
                if m == 0 {
                    assert(nd =~= Set::<usize>::empty());
                    assert(t1->keys.union(nd) =~= t1->keys);
                }
                assert(g1.key_tree() == Some(t1.encode(m)));
            },
        }
    }
}

/// Clauses in the state that encoding leaves enforce upper bounds: every
/// assignment that satisfies the clauses `cs` so far and the assumptions
/// that `enforce_ub(ub)` returns makes every buffered literal false and
/// gives the literals in the tree a true weight of at most `ub`.
pub proof fn lemma_encoded_as_ub_sound(
    g: GeneralizedTotalizer,
    cs: Seq<Seq<Lit>>,
    m: int,
    ub: usize,
    assumps: Seq<Lit>,
    sigma: spec_fn(nat) -> bool,
)
    requires
        g.wf(),
        g.bound() == BoundType::UB,
        encoded_as(g, cs, m),
        g.enforce_ub_result(ub) == Ok::<Seq<Lit>, crate::encodings::EncodingError>(assumps),
        cnf_sat(sigma, cs),
        forall|i: int| 0 <= i < assumps.len() ==> crate::instances::lit_true(sigma, #[trigger] assumps[i]),
    ensures
        crate::encodings::pb::semantics::true_weight(g.tree_leaves(), sigma) <= ub,
        forall|i: int|
            0 <= i < g.buffer().entries().len() ==> !crate::instances::lit_true(
                sigma,
                (#[trigger] g.buffer().entries()[i]).0,
            ),
{
    let tc = g.tree_clauses(m);
    assert forall|i: int| 0 <= i < tc.len() implies clause_sat(sigma, #[trigger] tc[i]) by {
        assert(tc.contains(tc[i]));
        assert(cs.contains(tc[i]));
        lemma_sat_contains(sigma, cs, tc[i]);
    }
    if let Some(kt) = g.key_tree() {
        let t = choose|t: KeyTree| kt == t.encode(m) && keys_bounded(t);
        lemma_encode_encoded(t, m);
        lemma_encode_enc_at_most(t, m);
    }
    g.lemma_enforce_ub_sound(m, ub, assumps, sigma);
}

/// Extending a tree with bounded keys gives a tree with bounded keys.
pub proof fn lemma_extended_keys_bounded(g: GeneralizedTotalizer, b: usize)
    requires
        tree_keys_bounded(g),
    ensures
        match g.extended_key_tree(b) {
            None => true,
            Some(e) => keys_bounded(e),
        },
{
    let new = g.new_leaves(b);
    if new.len() > 0 {
        let sub0 = build_key_tree(weights_of(new));
        lemma_build_never_encoded(weights_of(new));
        lemma_reserve_all_never_encoded(sub0);
        lemma_reserve_all_twice(sub0);
        if let Some(kt) = g.key_tree() {
            let sub = if g.reserving() {
                sub0.reserve_all_rec()
            } else {
                sub0
            };
            let j = join_key_trees(kt, sub);
            lemma_reserve_twice(j, j.max_val() as int, j.max_val() as int);
        }
    }
}

/// The state that encoding leaves has a tree with bounded keys.
pub proof fn lemma_encoded_as_keys_bounded(g: GeneralizedTotalizer, cs: Seq<Seq<Lit>>, m: int)
    requires
        encoded_as(g, cs, m),
    ensures
        tree_keys_bounded(g),
{
    if let Some(kt) = g.key_tree() {
        let t = choose|t: KeyTree| kt == t.encode(m) && keys_bounded(t);
        lemma_encode_keys_bounded(t, m);
    }
}

/// Encoding from scratch leaves its clauses in the state that encoding
/// leaves: after `encode(_, max_rhs)` took `g0`, whose tree has bounded keys,
/// to `g1` returning `cnf`, the clauses `cnf` are those of encoding the tree
/// of `g1` from scratch up to the target.
pub proof fn lemma_encode_step(g0: GeneralizedTotalizer, g1: GeneralizedTotalizer, cnf: Seq<Seq<Lit>>, max_rhs: usize)
    requires
        g0.wf(),
        g0.encode_ok(max_rhs),
        tree_keys_bounded(g0),
        g1.key_tree() == match g0.extended_key_tree(g0.encoding_bound(max_rhs)) {
            None => None,
            Some(t) => Some(t.encode(g0.encode_target(max_rhs))),
        },
        cnf == g1.tree_clauses(g0.encode_target(max_rhs)),
        g1.tree_zero_free(),
    ensures
        encoded_as(g1, cnf, g0.encode_target(max_rhs)),
{
    lemma_extended_keys_bounded(g0, g0.encoding_bound(max_rhs));
    let b = g0.encoding_bound(max_rhs);
    crate::encodings::pb::gte::lemma_max_weight(g0.moved(b), g0.leaf_weight_max());
}

} // verus!
