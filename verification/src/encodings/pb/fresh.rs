//! Which variables the output literals of a totalizer tree use: every output
//! literal is positive, its variable comes from a given range, and no two
//! output literals of the tree share a variable.

use vstd::prelude::*;
use crate::types::Lit;
use crate::encodings::pb::gte::{Node, fresh_extension};

verus! {

/// The variables of the output literals of the node itself.
pub open spec fn own_vars(n: Node) -> Set<nat> {
    Set::new(|v: nat| exists|k: usize| #[trigger] n.out_map().contains_key(k) && n.out_map()[k].var_index() == v)
}

/// The variables of all output literals of the subtree.
pub open spec fn out_vars(n: Node) -> Set<nat>
    decreases n,
{
    match n {
        Node::Leaf { .. } => Set::empty(),
        Node::Internal { left, right, .. } => own_vars(n).union(out_vars(*left)).union(out_vars(*right)),
    }
}

/// Every output literal of the subtree is positive with a variable in
/// `[lo, hi)`, and no two of them share a variable.
pub open spec fn fresh_outputs(n: Node, lo: nat, hi: nat) -> bool
    decreases n,
{
    match n {
        Node::Leaf { .. } => true,
        Node::Internal { out_lits, left, right, .. } => {
            &&& forall|k: usize|
                #[trigger] out_lits@.contains_key(k) ==> !out_lits@[k].is_neg() && lo <= out_lits@[k].var_index() < hi
            &&& forall|k1: usize, k2: usize|
                out_lits@.contains_key(k1) && out_lits@.contains_key(k2) && k1 != k2 ==> (#[trigger] out_lits@[k1]).var_index()
                    != (#[trigger] out_lits@[k2]).var_index()
            &&& forall|k: usize|
                #[trigger] out_lits@.contains_key(k) ==> !out_vars(*left).contains(out_lits@[k].var_index())
                    && !out_vars(*right).contains(out_lits@[k].var_index())
            &&& out_vars(*left).disjoint(out_vars(*right))
            &&& fresh_outputs(*left, lo, hi)
            &&& fresh_outputs(*right, lo, hi)
        },
    }
}

/// The variables of fresh outputs lie in their range.
pub proof fn lemma_fresh_range(n: Node, lo: nat, hi: nat, v: nat)
    requires
        fresh_outputs(n, lo, hi),
        out_vars(n).contains(v),
    ensures
        lo <= v < hi,
    decreases n,
{
    if let Node::Internal { out_lits, left, right, .. } = n {
        if own_vars(n).contains(v) {
            let k = choose|k: usize| #[trigger] n.out_map().contains_key(k) && n.out_map()[k].var_index() == v;
            assert(out_lits@.contains_key(k));
        } else if out_vars(*left).contains(v) {
            lemma_fresh_range(*left, lo, hi, v);
        } else {
            lemma_fresh_range(*right, lo, hi, v);
        }
    }
}

/// Fresh outputs stay fresh in a wider range.
pub proof fn lemma_fresh_widen(n: Node, lo: nat, hi: nat, hi2: nat)
    requires
        fresh_outputs(n, lo, hi),
        hi <= hi2,
    ensures
        fresh_outputs(n, lo, hi2),
    decreases n,
{
    if let Node::Internal { left, right, .. } = n {
        lemma_fresh_widen(*left, lo, hi, hi2);
        lemma_fresh_widen(*right, lo, hi, hi2);
    }
}

/// A subtree without output literals has fresh outputs in every range.
pub proof fn lemma_fresh_empty(n: Node, lo: nat, hi: nat)
    requires
        out_vars(n) == Set::<nat>::empty(),
    ensures
        fresh_outputs(n, lo, hi),
    decreases n,
{
    if let Node::Internal { out_lits, left, right, .. } = n {
        assert forall|k: usize| #[trigger] out_lits@.contains_key(k) implies false by {
            assert(n.out_map().contains_key(k));
            assert(own_vars(n).contains(out_lits@[k].var_index()));
            assert(out_vars(n).contains(out_lits@[k].var_index()));
        }
        assert(out_vars(*left) =~= Set::<nat>::empty()) by {
            assert forall|v: nat| out_vars(*left).contains(v) implies false by {
                assert(out_vars(n).contains(v));
            }
        }
        assert(out_vars(*right) =~= Set::<nat>::empty()) by {
            assert forall|v: nat| out_vars(*right).contains(v) implies false by {
                assert(out_vars(n).contains(v));
            }
        }
        lemma_fresh_empty(*left, lo, hi);
        lemma_fresh_empty(*right, lo, hi);
    }
}

/// Adding fresh output literals to the node itself keeps the outputs fresh
/// and adds only variables of the new range.
pub proof fn lemma_fresh_own_extension(n: Node, n2: Node, lo: nat, a: nat, b: nat)
    requires
        fresh_outputs(n, lo, a),
        lo <= a,
        n.same_but_out(n2),
        fresh_extension(n.out_map(), n2.out_map(), a, b),
    ensures
        fresh_outputs(n2, lo, b),
        forall|v: nat| #[trigger] out_vars(n2).contains(v) ==> out_vars(n).contains(v) || a <= v < b,
{
    match n {
        Node::Leaf { .. } => {},
        Node::Internal { out_lits, left, right, .. } => {
            let o2 = n2->out_lits@;
            let o = out_lits@;
            lemma_fresh_widen(*left, lo, a, b);
            lemma_fresh_widen(*right, lo, a, b);
            assert forall|k: usize| #[trigger] o2.contains_key(k) implies !o2[k].is_neg() && lo <= o2[k].var_index() < b
                && !out_vars(*left).contains(o2[k].var_index()) && !out_vars(*right).contains(o2[k].var_index()) by {
                if !o.contains_key(k) {
                    assert(a <= o2[k].var_index());
                    if out_vars(*left).contains(o2[k].var_index()) {
                        lemma_fresh_range(*left, lo, a, o2[k].var_index());
                    }
                    if out_vars(*right).contains(o2[k].var_index()) {
                        lemma_fresh_range(*right, lo, a, o2[k].var_index());
                    }
                }
            }
            assert forall|k1: usize, k2: usize|
                o2.contains_key(k1) && o2.contains_key(k2) && k1 != k2 implies (#[trigger] o2[k1]).var_index()
                != (#[trigger] o2[k2]).var_index() by {
                if o.contains_key(k1) && o.contains_key(k2) {
                } else if o.contains_key(k1) {
                    assert(o2[k1].var_index() < a);
                } else if o.contains_key(k2) {
                    assert(o2[k2].var_index() < a);
                }
            }
            assert forall|v: nat| #[trigger] out_vars(n2).contains(v) implies out_vars(n).contains(v) || a <= v < b by {
                if own_vars(n2).contains(v) {
                    let k = choose|k: usize| #[trigger] n2.out_map().contains_key(k) && n2.out_map()[k].var_index() == v;
                    if o.contains_key(k) {
                        assert(own_vars(n).contains(v));
                    }
                }
            }
        },
    }
}

/// Extending a subtree adds only variables of the extension's range.
pub proof fn lemma_extended_vars(old: Node, new: Node, a: nat, b: nat)
    requires
        old.extended_by(new, a, b),
    ensures
        forall|v: nat| #[trigger] out_vars(new).contains(v) ==> out_vars(old).contains(v) || a <= v < b,
    decreases old,
{
    if let Node::Internal { out_lits, left, right, .. } = old {
        lemma_extended_vars(*left, *new->left, a, b);
        lemma_extended_vars(*right, *new->right, a, b);
        assert forall|v: nat| #[trigger] out_vars(new).contains(v) implies out_vars(old).contains(v) || a <= v < b by {
            if own_vars(new).contains(v) {
                let k = choose|k: usize| #[trigger] new.out_map().contains_key(k) && new.out_map()[k].var_index() == v;
                if out_lits@.contains_key(k) {
                    assert(old.out_map().contains_key(k));
                    assert(own_vars(old).contains(v));
                }
            } else if out_vars(*new->left).contains(v) {
                assert(out_vars(*left).contains(v) || a <= v < b);
            } else {
                assert(out_vars(*new->right).contains(v));
                assert(out_vars(*right).contains(v) || a <= v < b);
            }
        }
    }
}

/// A node whose children were extended one after the other, each with
/// fresh variables of its own range, keeps fresh outputs.
pub proof fn lemma_fresh_children(old: Node, mid: Node, lo: nat, v0: nat, v1: nat, v2: nat)
    requires
        old is Internal,
        mid is Internal,
        mid->out_lits == old->out_lits,
        fresh_outputs(old, lo, v0),
        lo <= v0 <= v1 <= v2,
        (*old->left).extended_by(*mid->left, v0, v1),
        fresh_outputs(*mid->left, lo, v1),
        (*old->right).extended_by(*mid->right, v1, v2),
        fresh_outputs(*mid->right, lo, v2),
    ensures
        fresh_outputs(mid, lo, v2),
        forall|v: nat| #[trigger] out_vars(mid).contains(v) ==> out_vars(old).contains(v) || v0 <= v < v2,
{
    let ol = *old->left;
    let or = *old->right;
    let ml = *mid->left;
    let mr = *mid->right;
    let o = old->out_lits@;
    lemma_extended_vars(ol, ml, v0, v1);
    lemma_extended_vars(or, mr, v1, v2);
    lemma_fresh_widen(ml, lo, v1, v2);
    assert forall|v: nat| out_vars(ml).contains(v) implies !out_vars(mr).contains(v) by {
        if out_vars(mr).contains(v) {
            if out_vars(ol).contains(v) {
                lemma_fresh_range(ol, lo, v0, v);
                if out_vars(or).contains(v) {
                    assert(out_vars(ol).disjoint(out_vars(or)));
                }
            } else {
                if out_vars(or).contains(v) {
                    lemma_fresh_range(or, lo, v0, v);
                }
            }
        }
    }
    assert forall|k: usize| #[trigger] o.contains_key(k) implies !out_vars(ml).contains(o[k].var_index())
        && !out_vars(mr).contains(o[k].var_index()) by {
        assert(o[k].var_index() < v0);
    }
    assert forall|v: nat| #[trigger] out_vars(mid).contains(v) implies out_vars(old).contains(v) || v0 <= v < v2 by {
        if own_vars(mid).contains(v) {
            let k = choose|k: usize| #[trigger] mid.out_map().contains_key(k) && mid.out_map()[k].var_index() == v;
            assert(old.out_map().contains_key(k));
            assert(own_vars(old).contains(v));
        } else if out_vars(ml).contains(v) {
            if out_vars(ol).contains(v) {
                assert(out_vars(old).contains(v));
            }
        } else {
            assert(out_vars(mr).contains(v));
            if out_vars(or).contains(v) {
                assert(out_vars(old).contains(v));
            }
        }
    }
}

/// Fresh outputs stay fresh in a range that starts lower.
pub proof fn lemma_fresh_lower(n: Node, lo2: nat, lo: nat, hi: nat)
    requires
        fresh_outputs(n, lo, hi),
        lo2 <= lo,
    ensures
        fresh_outputs(n, lo2, hi),
    decreases n,
{
    if let Node::Internal { left, right, .. } = n {
        lemma_fresh_lower(*left, lo2, lo, hi);
        lemma_fresh_lower(*right, lo2, lo, hi);
    }
}

/// A node without output literals of its own over two subtrees whose outputs
/// come from consecutive ranges has fresh outputs.
pub proof fn lemma_fresh_join(n: Node, lo: nat, mid: nat, hi: nat)
    requires
        n is Internal,
        n->out_lits@.dom() == Set::<usize>::empty(),
        fresh_outputs(*n->left, lo, mid),
        fresh_outputs(*n->right, mid, hi),
        lo <= mid <= hi,
    ensures
        fresh_outputs(n, lo, hi),
        forall|v: nat| #[trigger] out_vars(n).contains(v) ==> lo <= v < hi,
{
    let l = *n->left;
    let r = *n->right;
    lemma_fresh_widen(l, lo, mid, hi);
    lemma_fresh_lower(r, lo, mid, hi);
    assert forall|v: nat| out_vars(l).contains(v) implies !out_vars(r).contains(v) by {
        lemma_fresh_range(l, lo, mid, v);
        if out_vars(r).contains(v) {
            lemma_fresh_range(r, mid, hi, v);
        }
    }
    assert(out_vars(l).disjoint(out_vars(r)));
    assert forall|v: nat| #[trigger] out_vars(n).contains(v) implies lo <= v < hi by {
        if own_vars(n).contains(v) {
            let k = choose|k: usize| #[trigger] n.out_map().contains_key(k) && n.out_map()[k].var_index() == v;
            assert(n->out_lits@.dom().contains(k));
        }
        lemma_fresh_range(n, lo, hi, v);
    }
}

} // verus!
