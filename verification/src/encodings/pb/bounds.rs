//! Upper and lower bounds on weighted sums of literals, encoded with a fresh
//! generalized totalizer.

use vstd::prelude::*;
use crate::types::{Lit, MAX_VAR_IDX};
use crate::instances::{
    BasicVarManager, CNF, lit_true, cnf_sat, clause_sat, agrees_below, completable, unit_cnf, lemma_completable_empty,
    lemma_completable_concat,
};
use crate::maps::{LitWeights, entries_map, has_key, upsert, weight_or_zero, weight_at_most, weight_above, distinct_keys};
use crate::encodings::BoundType;
use crate::encodings::pb::gte::{
    GeneralizedTotalizer, build_key_tree, sort_by_weight, weights_of, merge_weights, merge_fits, merge_moved,
    largest_weight, lemma_sort_by_weight, lemma_max_weight,
};
use crate::encodings::pb::semantics::{
    true_weight, total_weight, negated_lits, leaf_weights_at_most, lemma_true_weight_sort, lemma_true_weight_split,
    lemma_true_weight_bounds, lemma_true_weight_merge, lemma_total_weight_merge, lemma_total_weight_split,
    lemma_total_weight_sort, lemma_total_weight_nonneg, lemma_total_weight_at_least_len, lemma_total_weight_prefix,
    lemma_negated_weight, lemma_true_weight_le_total,
};
use crate::encodings::card::{
    lemma_merge_moved_keys, lemma_merge_moved_fits_distinct, lemma_build_zero_free, lemma_true_weight_all_false,
    lemma_true_weight_ge, lemma_merge_moved_bounded, lemma_largest_bounded, lemma_cnf_sat_prefix,
    lemma_true_weight_agree,
};
use crate::encodings::pb::witness::lemma_cnf_sat_join;
use crate::types::constraints::PBConstraint;

verus! {

/// The number of fresh variables that `encode_weights_ub` takes for the
/// weights `counts` and the bound `b`.
pub open spec fn weights_ub_vars(counts: Seq<(Lit, usize)>, b: usize) -> nat {
    let moved = counts.filter(weight_at_most(b));
    if moved.len() == 0 {
        0
    } else {
        build_key_tree(weights_of(sort_by_weight(moved))).encode_count(b + largest_weight(moved, 0))
    }
}

/// Each weight is at most the total.
pub proof fn lemma_entry_le_total(s: Seq<(Lit, usize)>, i: int)
    requires
        0 <= i < s.len(),
    ensures
        s[i].1 <= total_weight(s),
    decreases s.len(),
{
    if i == s.len() - 1 {
        lemma_total_weight_nonneg(s.drop_last());
    } else {
        lemma_entry_le_total(s.drop_last(), i);
        assert(s.drop_last()[i] == s[i]);
    }
}

/// Entries of weight 0 weigh nothing in total.
pub proof fn lemma_total_weight_zero(s: Seq<(Lit, usize)>)
    requires
        leaf_weights_at_most(s, 0),
    ensures
        total_weight(s) == 0,
    decreases s.len(),
{
    if s.len() > 0 {
        assert(leaf_weights_at_most(s.drop_last(), 0)) by {
            assert forall|i: int| 0 <= i < s.drop_last().len() implies (#[trigger] s.drop_last()[i]).1 <= 0 by {
                assert(s.drop_last()[i] == s[i]);
            }
        }
        lemma_total_weight_zero(s.drop_last());
        assert(s[s.len() - 1].1 <= 0);
    }
}

/// Dropping the entries of weight 0 changes neither the true nor the total
/// weight.
pub proof fn lemma_positive_weights(s: Seq<(Lit, usize)>, sigma: spec_fn(nat) -> bool)
    ensures
        true_weight(s.filter(weight_above(0)), sigma) == true_weight(s, sigma),
        total_weight(s.filter(weight_above(0))) == total_weight(s),
        forall|i: int|
            0 <= i < s.filter(weight_above(0)).len() ==> (#[trigger] s.filter(weight_above(0))[i]).1 >= 1,
{
    let z = s.filter(weight_at_most(0));
    lemma_true_weight_split(s, 0, sigma);
    lemma_total_weight_split(s, 0);
    assert(leaf_weights_at_most(z, 0)) by {
        assert forall|i: int| 0 <= i < z.len() implies (#[trigger] z[i]).1 <= 0 by {
            s.lemma_filter_pred(weight_at_most(0), i);
        }
    }
    lemma_total_weight_zero(z);
    lemma_true_weight_bounds(z, sigma);
    lemma_true_weight_le_total(z, sigma);
    assert forall|i: int| 0 <= i < s.filter(weight_above(0)).len() implies (#[trigger] s.filter(weight_above(0))[i]).1
        >= 1 by {
        s.lemma_filter_pred(weight_above(0), i);
    }
}

/// Merging weights whose total fits in `usize` fits, keeps the total, and
/// gives each literal of positive weights a positive weight.
pub proof fn lemma_merge_fits_total(s: Seq<(Lit, usize)>)
    requires
        total_weight(s) <= usize::MAX,
    ensures
        merge_fits(Seq::empty(), s),
        distinct_keys(merge_weights(Seq::empty(), s)),
        total_weight(merge_weights(Seq::empty(), s)) == total_weight(s),
        (forall|i: int| 0 <= i < s.len() ==> (#[trigger] s[i]).1 >= 1) ==> forall|i: int|
            0 <= i < merge_weights(Seq::empty(), s).len() ==> (#[trigger] merge_weights(Seq::empty(), s)[i]).1 >= 1,
        forall|i: int|
            0 <= i < merge_weights(Seq::empty(), s).len() ==> has_key(s, (#[trigger] merge_weights(Seq::empty(), s)[i]).0),
    decreases s.len(),
{
    if s.len() > 0 {
        let pre = s.drop_last();
        let e = s.last();
        assert(total_weight(s) == total_weight(pre) + e.1);
        lemma_merge_fits_total(pre);
        let prev = merge_weights(Seq::empty(), pre);
        let t = merge_weights(Seq::empty(), s);
        let nw = (weight_or_zero(entries_map(prev), e.0) + e.1) as usize;
        crate::maps::lemma_upsert_distinct(prev, e.0, nw);
        if entries_map(prev).contains_key(e.0) {
            let j = choose|j: int| 0 <= j < prev.len() && (#[trigger] prev[j]).0 == e.0;
            crate::maps::lemma_entries_map_index(prev, j);
            lemma_entry_le_total(prev, j);
        }
        assert(merge_fits(Seq::empty(), s));
        lemma_total_weight_merge(Seq::empty(), s);
        assert(total_weight(Seq::<(Lit, usize)>::empty()) == 0);
        assert(t == upsert(prev, e.0, nw));
        assert forall|i: int| 0 <= i < t.len() implies has_key(s, (#[trigger] t[i]).0) by {
            if t[i].0 == e.0 {
                assert(s[s.len() - 1] == e);
            } else {
                if has_key(prev, e.0) {
                    let q = choose|q: int| 0 <= q < prev.len() && (#[trigger] prev[q]).0 == e.0;
                    assert(t == prev.update(q, (e.0, nw)));
                    assert(t[i] == prev[i]);
                } else {
                    assert(t == prev.push((e.0, nw)));
                    assert(t[i] == prev[i]);
                }
                let q = choose|q: int| 0 <= q < pre.len() && (#[trigger] pre[q]).0 == t[i].0;
                assert(s[q] == pre[q]);
            }
        }
        if forall|i: int| 0 <= i < s.len() ==> (#[trigger] s[i]).1 >= 1 {
            assert forall|i: int| 0 <= i < pre.len() implies (#[trigger] pre[i]).1 >= 1 by {
                assert(pre[i] == s[i]);
            }
            assert(e.1 >= 1);
            assert forall|i: int| 0 <= i < t.len() implies (#[trigger] t[i]).1 >= 1 by {
                if has_key(prev, e.0) {
                    let q = choose|q: int| 0 <= q < prev.len() && (#[trigger] prev[q]).0 == e.0;
                    assert(t == prev.update(q, (e.0, nw)));
                    if i != q {
                        assert(t[i] == prev[i]);
                    }
                } else {
                    assert(t == prev.push((e.0, nw)));
                    if i < prev.len() {
                        assert(t[i] == prev[i]);
                    }
                }
            }
        }
    }
}

/// The clauses of a fresh totalizer over the distinct weighted literals
/// `counts`, encoded up to `m`, followed by the unit clauses of the
/// assumptions that enforce the upper bound `b`, can be met by changing, at
/// the totalizer's fresh variables, any assignment under which the true
/// literals of `counts` weigh at most `b`.
pub proof fn lemma_encode_weights_ub_complete(
    counts: Seq<(Lit, usize)>,
    b: usize,
    g: GeneralizedTotalizer,
    m: int,
    n0: nat,
    n1: nat,
    tree_cnf: Seq<Seq<Lit>>,
    assumps: Seq<Lit>,
)
    requires
        distinct_keys(counts),
        forall|i: int| 0 <= i < counts.len() ==> (#[trigger] counts[i]).0.var_index() < n0,
        n0 <= n1,
        g.wf(),
        g.bound() == BoundType::UB,
        g.encoded_to(m),
        g.tree_zero_free(),
        g.outputs_fresh(n0, n1),
        g.enforce_ub_result(b) == Ok::<Seq<Lit>, crate::encodings::EncodingError>(assumps),
        g.buffer().entries() == counts.filter(weight_above(b)),
        g.in_lits().entries() == merge_moved(Seq::empty(), counts, b),
        g.tree_leaves() == sort_by_weight(counts.filter(weight_at_most(b))),
        tree_cnf == g.tree_clauses(m),
    ensures
        forall|sigma: spec_fn(nat) -> bool|
            true_weight(counts, sigma) <= b ==> #[trigger] completable(sigma, tree_cnf + unit_cnf(assumps), n0, n1),
{
    let moved = counts.filter(weight_at_most(b));
    let heavy = counts.filter(weight_above(b));
    let units = unit_cnf(assumps);
    lemma_sort_by_weight(moved);
    lemma_merge_moved_bounded(counts, b);
    let ie = g.in_lits().entries();
    let be = g.buffer().entries();
    let tl = g.tree_leaves();
    assert forall|i: int| 0 <= i < tl.len() implies (#[trigger] tl[i]).0.var_index() < n0 by {
        assert(moved.contains(tl[i]));
        counts.lemma_filter_contains_rev(weight_at_most(b), tl[i]);
        let q = choose|q: int| 0 <= q < counts.len() && counts[q] == tl[i];
        assert(counts[q].0.var_index() < n0);
    }
    assert forall|i: int| 0 <= i < be.len() implies (#[trigger] be[i]).0.var_index() < n0 by {
        assert(heavy.contains(be[i]));
        counts.lemma_filter_contains_rev(weight_above(b), be[i]);
        let q = choose|q: int| 0 <= q < counts.len() && counts[q] == be[i];
        assert(counts[q].0.var_index() < n0);
    }
    assert forall|i: int| 0 <= i < ie.len() implies (#[trigger] ie[i]).0.var_index() < n0 by {
        assert(has_key(ie, ie[i].0));
        lemma_merge_moved_keys(counts, b, ie[i].0);
        let q = choose|q: int| 0 <= q < counts.len() && (#[trigger] counts[q]).0 == ie[i].0;
        assert(counts[q].0.var_index() < n0);
    }
    assert forall|sigma: spec_fn(nat) -> bool| true_weight(counts, sigma) <= b implies #[trigger] completable(
        sigma,
        tree_cnf + units,
        n0,
        n1,
    ) by {
        lemma_true_weight_split(counts, b, sigma);
        lemma_true_weight_bounds(moved, sigma);
        lemma_true_weight_bounds(heavy, sigma);
        lemma_true_weight_sort(moved, sigma);
        assert forall|i: int| 0 <= i < be.len() implies !lit_true(sigma, (#[trigger] be[i]).0) by {
            counts.lemma_filter_pred(weight_above(b), i);
            assert(heavy.contains(be[i]));
            counts.lemma_filter_contains_rev(weight_above(b), be[i]);
            let q = choose|q: int| 0 <= q < counts.len() && counts[q] == be[i];
            if lit_true(sigma, be[i].0) {
                lemma_true_weight_ge(counts, sigma, q);
            }
        }
        let w = g.lemma_enforce_ub_complete(m, b, assumps, sigma, n0, n1);
        assert(agrees_below(w, sigma, n0));
        assert forall|w2: spec_fn(nat) -> bool| #[trigger] agrees_below(w2, w, n1) implies cnf_sat(w2, tree_cnf + units) by {
            assert(cnf_sat(w2, g.tree_clauses(m)));
            assert forall|j: int| 0 <= j < units.len() implies clause_sat(w2, #[trigger] units[j]) by {
                assert(lit_true(w2, assumps[j]));
                assert(units[j] == seq![assumps[j]]);
                assert(units[j][0] == assumps[j]);
            }
            lemma_cnf_sat_join(w2, tree_cnf, units);
        }
    }
}

/// Appends to `cnf` the clauses of a fresh upper-bounding totalizer over the
/// weighted literals `weights`, encoded up to `b`, followed by the unit
/// clauses of the assumptions that enforce the upper bound `b`. Every
/// assignment that satisfies the result gives the true literals of
/// `weights` a weight of at most `b`; where the literals' variables are
/// below the first fresh one, every such assignment can be changed on the
/// fresh variables alone into one that satisfies the appended clauses.
pub fn encode_weights_ub(weights: LitWeights, b: usize, cnf: &mut CNF, var_manager: &mut BasicVarManager)
    requires
        weights.wf(),
        forall|i: int| 0 <= i < weights.entries().len() ==> (#[trigger] weights.entries()[i]).1 >= 1,
        total_weight(weights.entries()) <= usize::MAX,
        2 * b <= usize::MAX,
        old(var_manager).next_idx() + weights_ub_vars(weights.entries(), b) <= MAX_VAR_IDX + 1,
    ensures
        final(var_manager).next_idx() == old(var_manager).next_idx() + weights_ub_vars(weights.entries(), b),
        final(cnf)@.len() >= old(cnf)@.len(),
        final(cnf)@.take(old(cnf)@.len() as int) == old(cnf)@,
        forall|sigma: spec_fn(nat) -> bool|
            cnf_sat(sigma, #[trigger] final(cnf)@) ==> true_weight(weights.entries(), sigma) <= b,
        (forall|i: int|
            0 <= i < weights.entries().len() ==> (#[trigger] weights.entries()[i]).0.var_index() < old(
                var_manager,
            ).next_idx()) ==> forall|sigma: spec_fn(nat) -> bool|
            true_weight(weights.entries(), sigma) <= b ==> #[trigger] completable(
                sigma,
                final(cnf)@.skip(old(cnf)@.len() as int),
                old(var_manager).next_idx(),
                final(var_manager).next_idx(),
            ),
{
    let ghost counts = weights.entries();
    let ghost n0 = var_manager.next_idx();
    let mut gte = match GeneralizedTotalizer::new(BoundType::UB) {
        Ok(g) => g,
        Err(_) => {
            proof {
                assert(false);
            }
            return;
        },
    };
    proof {
        crate::encodings::card::lemma_merge_distinct(counts);
        assert(gte.buffer().entries() =~= Seq::<(Lit, usize)>::empty());
    }
    gte.add(weights);
    let ghost g1 = gte;
    let ghost moved = counts.filter(weight_at_most(b));
    proof {
        assert(g1.buffer().entries() == counts);
        assert(g1.moved(b) == moved);
        let f = |e: (Lit, usize)| (g1.tree_lit(e.0), e.1);
        assert(moved.map_values(f) =~= moved);
        lemma_sort_by_weight(moved);
        lemma_max_weight(moved, 0);
        lemma_merge_moved_fits_distinct(counts, b);
        let new = sort_by_weight(moved);
        if new.len() > 0 {
            let ws = weights_of(new);
            assert forall|k: int| 0 <= k < ws.len() implies #[trigger] ws[k] >= 1 by {
                assert(moved.contains(new[k]));
                counts.lemma_filter_contains_rev(weight_at_most(b), new[k]);
                let q = choose|q: int| 0 <= q < counts.len() && counts[q] == new[k];
                assert(counts[q].1 >= 1);
            }
            lemma_build_zero_free(ws);
        }
        assert forall|k: int| 0 <= k < moved.len() implies (#[trigger] moved[k]).1 <= b by {
            counts.lemma_filter_pred(weight_at_most(b), k);
        }
        assert(largest_weight(moved, 0) <= b) by {
            lemma_largest_bounded(moved, 0, b as int);
        }
        assert(g1.in_lits().entries() =~= Seq::<(Lit, usize)>::empty());
        assert(g1.new_leaves(b) == new);
        assert(g1.encoding_bound(b) == b);
        assert(total_weight(new) <= total_weight(counts)) by {
            lemma_total_weight_sort(moved);
            lemma_total_weight_split(counts, b);
            lemma_total_weight_nonneg(counts.filter(weight_above(b)));
        }
        counts.lemma_filter_len(weight_at_most(b));
        lemma_total_weight_at_least_len(counts);
        assert(g1.tree_total() == 0);
        assert(g1.tree_leaves().len() == 0);
        assert(g1.tree_total() + total_weight(new) <= usize::MAX);
        assert(new.len() <= usize::MAX);
        assert(g1.extend_ok(b));
        assert(g1.encode_target(b) == b + largest_weight(moved, 0));
        assert(g1.encode_vars(b) == weights_ub_vars(counts, b));
    }
    let tree_cnf = gte.encode(0, b, var_manager);
    let assumps = match gte.enforce_ub(b) {
        Ok(a) => a,
        Err(_) => {
            proof {
                assert(false);
            }
            return;
        },
    };
    let ghost g2 = gte;
    let ghost c0 = cnf@;
    cnf.extend(tree_cnf);
    let ghost c1 = cnf@;
    let mut k: usize = 0;
    while k < assumps.len()
        invariant
            k <= assumps@.len(),
            cnf@ == c1 + assumps@.take(k as int).map_values(|a: Lit| seq![a]),
        decreases assumps@.len() - k,
    {
        cnf.add_unit(assumps[k]);
        proof {
            assert(assumps@.take(k + 1).map_values(|a: Lit| seq![a]) =~= assumps@.take(k as int).map_values(
                |a: Lit| seq![a],
            ).push(seq![assumps@[k as int]]));
        }
        k = k + 1;
    }
    proof {
        assert(assumps@.take(assumps@.len() as int) =~= assumps@);
        let units = assumps@.map_values(|a: Lit| seq![a]);
        assert(cnf@ =~= c0 + tree_cnf@ + units);
        assert(cnf@.take(c0.len() as int) =~= c0);
        let m = g1.encode_target(b);
        assert forall|sigma: spec_fn(nat) -> bool| cnf_sat(sigma, #[trigger] cnf@) implies true_weight(counts, sigma)
            <= b by {
            assert forall|j: int| 0 <= j < tree_cnf@.len() implies clause_sat(sigma, #[trigger] tree_cnf@[j]) by {
                assert(cnf@[c0.len() + j] == tree_cnf@[j]);
            }
            assert forall|j: int| 0 <= j < assumps@.len() implies lit_true(sigma, #[trigger] assumps@[j]) by {
                assert(cnf@[c0.len() + tree_cnf@.len() + j] == seq![assumps@[j]]);
                assert(clause_sat(sigma, seq![assumps@[j]]));
            }
            g2.lemma_enforce_ub_sound(m, b, assumps@, sigma);
            lemma_true_weight_all_false(g2.buffer().entries(), sigma);
            lemma_true_weight_split(counts, b, sigma);
            lemma_true_weight_sort(moved, sigma);
            assert(g2.tree_leaves() =~= sort_by_weight(moved));
        }
        if forall|i: int| 0 <= i < counts.len() ==> (#[trigger] counts[i]).0.var_index() < n0 {
            assert(g1.outputs_fresh(n0, n0));
            assert(g2.tree_leaves() =~= sort_by_weight(moved));
            lemma_encode_weights_ub_complete(counts, b, g2, m, n0, var_manager.next_idx(), tree_cnf@, assumps@);
            assert(cnf@.skip(c0.len() as int) =~= tree_cnf@ + unit_cnf(assumps@));
        }
    }
}

/// The literals of `lits` of positive weight, each once with the sum of its
/// weights, in the order of first occurrence.
pub open spec fn summed_weights(lits: Seq<(Lit, usize)>) -> Seq<(Lit, usize)> {
    merge_weights(Seq::empty(), lits.filter(weight_above(0)))
}

/// Summing the weights per literal keeps the true and the total weight,
/// gives each literal once with a positive weight, and uses only literals
/// of `lits`.
pub proof fn lemma_summed_weights(lits: Seq<(Lit, usize)>, sigma: spec_fn(nat) -> bool)
    requires
        total_weight(lits) <= usize::MAX,
    ensures
        distinct_keys(summed_weights(lits)),
        merge_fits(Seq::empty(), lits.filter(weight_above(0))),
        total_weight(summed_weights(lits)) == total_weight(lits),
        true_weight(summed_weights(lits), sigma) == true_weight(lits, sigma),
        forall|i: int| 0 <= i < summed_weights(lits).len() ==> (#[trigger] summed_weights(lits)[i]).1 >= 1,
        forall|i: int| 0 <= i < summed_weights(lits).len() ==> has_key(lits, (#[trigger] summed_weights(lits)[i]).0),
{
    let p = lits.filter(weight_above(0));
    lemma_positive_weights(lits, sigma);
    lemma_merge_fits_total(p);
    lemma_true_weight_merge(Seq::empty(), p, sigma);
    assert(true_weight(Seq::<(Lit, usize)>::empty(), sigma) == 0);
    let t = summed_weights(lits);
    assert forall|i: int| 0 <= i < t.len() implies has_key(lits, (#[trigger] t[i]).0) by {
        let q = choose|q: int| 0 <= q < p.len() && (#[trigger] p[q]).0 == t[i].0;
        assert(p.contains(p[q]));
        lits.lemma_filter_contains_rev(weight_above(0), p[q]);
        let r = choose|r: int| 0 <= r < lits.len() && lits[r] == p[q];
        assert(lits[r].0 == t[i].0);
    }
}

/// The total weight of `lits`.
fn weight_sum(lits: &Vec<(Lit, usize)>) -> (w: usize)
    requires
        total_weight(lits@) <= usize::MAX,
    ensures
        w == total_weight(lits@),
{
    let mut w: usize = 0;
    let mut i: usize = 0;
    while i < lits.len()
        invariant
            i <= lits@.len(),
            total_weight(lits@) <= usize::MAX,
            w == total_weight(lits@.take(i as int)),
        decreases lits@.len() - i,
    {
        proof {
            assert(lits@.take(i + 1).drop_last() =~= lits@.take(i as int));
            lemma_total_weight_prefix(lits@, i + 1);
        }
        w = w + lits[i].1;
        i = i + 1;
    }
    proof {
        assert(lits@.take(lits@.len() as int) =~= lits@);
    }
    w
}

/// The literals of `lits` of positive weight with their summed weights.
fn sum_weights(lits: &Vec<(Lit, usize)>) -> (m: LitWeights)
    requires
        total_weight(lits@) <= usize::MAX,
    ensures
        m.wf(),
        m.entries() == summed_weights(lits@),
{
    let mut m = LitWeights::new();
    let mut i: usize = 0;
    while i < lits.len()
        invariant
            i <= lits@.len(),
            total_weight(lits@) <= usize::MAX,
            m.wf(),
            m.entries() == merge_weights(Seq::empty(), lits@.take(i as int).filter(weight_above(0))),
        decreases lits@.len() - i,
    {
        let (l, w) = lits[i];
        let ghost t = lits@.take(i as int).filter(weight_above(0));
        let ghost t1 = lits@.take(i + 1).filter(weight_above(0));
        proof {
            reveal(Seq::filter);
            assert(lits@.take(i + 1).drop_last() =~= lits@.take(i as int));
            assert(lits@.take(i + 1).last() == (l, w));
            if w > 0 {
                assert(t1 == t.push((l, w)));
                assert(t.push((l, w)).drop_last() =~= t);
            } else {
                assert(t1 == t);
            }
            lemma_total_weight_prefix(lits@, i + 1);
            lemma_positive_weights(lits@.take(i + 1), |v: nat| true);
            lemma_merge_fits_total(t1);
        }
        if w > 0 {
            match m.get(l) {
                Some(v) => {
                    m.insert(l, v + w);
                },
                None => {
                    m.insert(l, w);
                },
            }
        }
        i = i + 1;
    }
    proof {
        assert(lits@.take(lits@.len() as int) =~= lits@);
    }
    m
}

/// The number of fresh variables that `encode_pb_ub(lits, b, ..)` takes.
pub open spec fn pb_ub_vars(lits: Seq<(Lit, usize)>, b: usize) -> nat {
    if b < total_weight(lits) {
        weights_ub_vars(summed_weights(lits), b)
    } else {
        0
    }
}

/// Appends to `cnf` clauses that bound the weight of the true literals of
/// `lits` by `b`: those of a fresh totalizer over the literals of positive
/// weight, followed by the unit clauses of the assumptions that enforce the
/// bound; nothing where the literals weigh at most `b` in total.
pub fn encode_pb_ub(lits: &Vec<(Lit, usize)>, b: usize, cnf: &mut CNF, var_manager: &mut BasicVarManager)
    requires
        2 * total_weight(lits@) <= usize::MAX,
        old(var_manager).next_idx() + pb_ub_vars(lits@, b) <= MAX_VAR_IDX + 1,
    ensures
        final(var_manager).next_idx() == old(var_manager).next_idx() + pb_ub_vars(lits@, b),
        final(cnf)@.len() >= old(cnf)@.len(),
        final(cnf)@.take(old(cnf)@.len() as int) == old(cnf)@,
        forall|sigma: spec_fn(nat) -> bool| cnf_sat(sigma, #[trigger] final(cnf)@) ==> true_weight(lits@, sigma) <= b,
        (forall|i: int| 0 <= i < lits@.len() ==> (#[trigger] lits@[i]).0.var_index() < old(var_manager).next_idx())
            ==> forall|sigma: spec_fn(nat) -> bool|
            true_weight(lits@, sigma) <= b ==> #[trigger] completable(
                sigma,
                final(cnf)@.skip(old(cnf)@.len() as int),
                old(var_manager).next_idx(),
                final(var_manager).next_idx(),
            ),
{
    let ghost c0 = cnf@;
    let ghost n0 = var_manager.next_idx();
    proof {
        lemma_total_weight_nonneg(lits@);
    }
    let total = weight_sum(lits);
    if b >= total {
        proof {
            assert forall|sigma: spec_fn(nat) -> bool| cnf_sat(sigma, #[trigger] cnf@) implies true_weight(lits@, sigma)
                <= b by {
                lemma_true_weight_le_total(lits@, sigma);
            }
            assert(cnf@.skip(c0.len() as int) =~= Seq::<Seq<Lit>>::empty());
            assert forall|sigma: spec_fn(nat) -> bool| true_weight(lits@, sigma) <= b implies #[trigger] completable(
                sigma,
                cnf@.skip(c0.len() as int),
                n0,
                n0,
            ) by {
                lemma_completable_empty(sigma, n0, n0);
            }
        }
        return;
    }
    let weights = sum_weights(lits);
    proof {
        lemma_summed_weights(lits@, |v: nat| true);
    }
    encode_weights_ub(weights, b, cnf, var_manager);
    proof {
        let t = summed_weights(lits@);
        assert forall|sigma: spec_fn(nat) -> bool| true_weight(t, sigma) == true_weight(lits@, sigma) by {
            lemma_summed_weights(lits@, sigma);
        }
        if forall|i: int| 0 <= i < lits@.len() ==> (#[trigger] lits@[i]).0.var_index() < n0 {
            assert forall|i: int| 0 <= i < t.len() implies (#[trigger] t[i]).0.var_index() < n0 by {
                let q = choose|q: int| 0 <= q < lits@.len() && (#[trigger] lits@[q]).0 == t[i].0;
            }
        }
    }
}

/// Negating the literals keeps the total weight.
pub proof fn lemma_negated_total(s: Seq<(Lit, usize)>)
    ensures
        total_weight(negated_lits(s)) == total_weight(s),
    decreases s.len(),
{
    if s.len() > 0 {
        assert(negated_lits(s).drop_last() =~= negated_lits(s.drop_last()));
        lemma_negated_total(s.drop_last());
    }
}

/// The literals of `lits` negated, with their weights.
fn negate_weighted(lits: &Vec<(Lit, usize)>) -> (r: Vec<(Lit, usize)>)
    ensures
        r@ == negated_lits(lits@),
{
    let mut r: Vec<(Lit, usize)> = Vec::new();
    let mut i: usize = 0;
    while i < lits.len()
        invariant
            i <= lits@.len(),
            r@ == negated_lits(lits@.take(i as int)),
        decreases lits@.len() - i,
    {
        let (l, w) = lits[i];
        r.push((l.negate(), w));
        proof {
            assert(negated_lits(lits@.take(i + 1)) =~= negated_lits(lits@.take(i as int)).push(
                (lits@[i as int].0.spec_negate(), lits@[i as int].1),
            ));
        }
        i = i + 1;
    }
    proof {
        assert(lits@.take(lits@.len() as int) =~= lits@);
    }
    r
}

/// The number of fresh variables that `encode_pb_lb(lits, b, ..)` takes.
pub open spec fn pb_lb_vars(lits: Seq<(Lit, usize)>, b: usize) -> nat {
    if 0 < b <= total_weight(lits) {
        pb_ub_vars(negated_lits(lits), (total_weight(lits) - b) as usize)
    } else {
        0
    }
}

/// Appends to `cnf` clauses that make the true literals of `lits` weigh at
/// least `b`: the upper bound of the total weight less `b` on their
/// negations; nothing where `b` is 0, the empty clause where `b` exceeds
/// the total weight.
pub fn encode_pb_lb(lits: &Vec<(Lit, usize)>, b: usize, cnf: &mut CNF, var_manager: &mut BasicVarManager)
    requires
        2 * total_weight(lits@) <= usize::MAX,
        old(var_manager).next_idx() + pb_lb_vars(lits@, b) <= MAX_VAR_IDX + 1,
    ensures
        final(var_manager).next_idx() == old(var_manager).next_idx() + pb_lb_vars(lits@, b),
        final(cnf)@.len() >= old(cnf)@.len(),
        final(cnf)@.take(old(cnf)@.len() as int) == old(cnf)@,
        forall|sigma: spec_fn(nat) -> bool| cnf_sat(sigma, #[trigger] final(cnf)@) ==> true_weight(lits@, sigma) >= b,
        (forall|i: int| 0 <= i < lits@.len() ==> (#[trigger] lits@[i]).0.var_index() < old(var_manager).next_idx())
            ==> forall|sigma: spec_fn(nat) -> bool|
            true_weight(lits@, sigma) >= b ==> #[trigger] completable(
                sigma,
                final(cnf)@.skip(old(cnf)@.len() as int),
                old(var_manager).next_idx(),
                final(var_manager).next_idx(),
            ),
{
    let ghost c00 = cnf@;
    let ghost n0 = var_manager.next_idx();
    proof {
        lemma_total_weight_nonneg(lits@);
    }
    if b == 0 {
        proof {
            assert forall|sigma: spec_fn(nat) -> bool| cnf_sat(sigma, #[trigger] cnf@) implies true_weight(lits@, sigma)
                >= b by {
                lemma_true_weight_bounds(lits@, sigma);
            }
            assert(cnf@.skip(c00.len() as int) =~= Seq::<Seq<Lit>>::empty());
            assert forall|sigma: spec_fn(nat) -> bool| true_weight(lits@, sigma) >= b implies #[trigger] completable(
                sigma,
                cnf@.skip(c00.len() as int),
                n0,
                n0,
            ) by {
                lemma_completable_empty(sigma, n0, n0);
            }
        }
        return;
    }
    let total = weight_sum(lits);
    if b > total {
        cnf.add_clause(Vec::new());
        proof {
            assert(cnf@.take(c00.len() as int) =~= c00);
            assert forall|sigma: spec_fn(nat) -> bool| cnf_sat(sigma, #[trigger] cnf@) implies true_weight(lits@, sigma)
                >= b by {
                assert(clause_sat(sigma, cnf@[c00.len() as int]));
            }
            assert forall|sigma: spec_fn(nat) -> bool| true_weight(lits@, sigma) >= b implies #[trigger] completable(
                sigma,
                cnf@.skip(c00.len() as int),
                n0,
                n0,
            ) by {
                lemma_true_weight_le_total(lits@, sigma);
            }
        }
        return;
    }
    let negs = negate_weighted(lits);
    proof {
        lemma_negated_total(lits@);
    }
    encode_pb_ub(&negs, total - b, cnf, var_manager);
    proof {
        assert forall|sigma: spec_fn(nat) -> bool| true_weight(negs@, sigma) + true_weight(lits@, sigma) == total by {
            lemma_negated_weight(lits@, sigma);
        }
        if forall|i: int| 0 <= i < lits@.len() ==> (#[trigger] lits@[i]).0.var_index() < n0 {
            assert forall|i: int| 0 <= i < negs@.len() implies (#[trigger] negs@[i]).0.var_index() < n0 by {
                Lit::lemma_negate(lits@[i].0);
                assert(negs@[i].0 == lits@[i].0.spec_negate());
            }
        }
    }
}

/// The number of fresh variables that encoding `c` takes.
pub open spec fn pb_vars(c: PBConstraint) -> nat {
    let lits = c.lits_view();
    let b = c.bound();
    match c {
        PBConstraint::UB { .. } => pb_ub_vars(lits, b),
        PBConstraint::LB { .. } => pb_lb_vars(lits, b),
        PBConstraint::EQ { .. } => pb_ub_vars(lits, b) + pb_lb_vars(lits, b),
    }
}

/// Appends to `cnf` clauses that enforce the constraint `c`, taking fresh
/// variables from `var_manager`: a generalized totalizer over the literals for
/// an upper bound, one over their negations for a lower bound, both for an
/// equality. A bound that every assignment meets adds nothing, a lower bound
/// above the total weight adds the empty clause. Every assignment that
/// satisfies the result satisfies `c`; every assignment that satisfies `c`
/// can be changed on the fresh variables alone into one that satisfies the
/// appended clauses.
pub fn encode_pb_constraint(c: &PBConstraint, cnf: &mut CNF, var_manager: &mut BasicVarManager)
    requires
        2 * total_weight(c.lits_view()) <= usize::MAX,
        old(var_manager).next_idx() + pb_vars(*c) <= MAX_VAR_IDX + 1,
    ensures
        final(var_manager).next_idx() == old(var_manager).next_idx() + pb_vars(*c),
        final(cnf)@.len() >= old(cnf)@.len(),
        final(cnf)@.take(old(cnf)@.len() as int) == old(cnf)@,
        forall|sigma: spec_fn(nat) -> bool| cnf_sat(sigma, #[trigger] final(cnf)@) ==> c.satisfied(sigma),
        (forall|i: int|
            0 <= i < c.lits_view().len() ==> (#[trigger] c.lits_view()[i]).0.var_index() < old(var_manager).next_idx())
            ==> forall|sigma: spec_fn(nat) -> bool|
            c.satisfied(sigma) ==> #[trigger] completable(
                sigma,
                final(cnf)@.skip(old(cnf)@.len() as int),
                old(var_manager).next_idx(),
                final(var_manager).next_idx(),
            ),
{
    let lits = c.lits();
    let ghost c0 = cnf@;
    let ghost n0 = var_manager.next_idx();
    match c {
        PBConstraint::UB { b, .. } => {
            encode_pb_ub(lits, *b, cnf, var_manager);
        },
        PBConstraint::LB { b, .. } => {
            encode_pb_lb(lits, *b, cnf, var_manager);
        },
        PBConstraint::EQ { b, .. } => {
            let b = *b;
            encode_pb_ub(lits, b, cnf, var_manager);
            let ghost c1 = cnf@;
            let ghost v1 = var_manager.next_idx();
            encode_pb_lb(lits, b, cnf, var_manager);
            proof {
                assert(cnf@.take(c0.len() as int) =~= c1.take(c0.len() as int));
                if forall|i: int| 0 <= i < lits@.len() ==> (#[trigger] lits@[i]).0.var_index() < n0 {
                    let a = c1.skip(c0.len() as int);
                    let bb = cnf@.skip(c1.len() as int);
                    assert(cnf@.skip(c0.len() as int) =~= a + bb);
                    assert forall|sigma: spec_fn(nat) -> bool| c.satisfied(sigma) implies #[trigger] completable(
                        sigma,
                        cnf@.skip(c0.len() as int),
                        n0,
                        var_manager.next_idx(),
                    ) by {
                        assert(completable(sigma, a, n0, v1));
                        let w1 = choose|w: spec_fn(nat) -> bool|
                            #[trigger] agrees_below(w, sigma, n0) && forall|w2: spec_fn(nat) -> bool|
                                #[trigger] agrees_below(w2, w, v1) ==> cnf_sat(w2, a);
                        lemma_true_weight_agree(lits@, w1, sigma, n0);
                        assert(true_weight(lits@, w1) >= b);
                        assert(completable(w1, bb, v1, var_manager.next_idx()));
                        lemma_completable_concat(sigma, w1, a, bb, n0, v1, var_manager.next_idx());
                    }
                }
                assert forall|sigma: spec_fn(nat) -> bool| cnf_sat(sigma, #[trigger] cnf@) implies c.satisfied(sigma) by {
                    lemma_cnf_sat_prefix(sigma, cnf@, c1.len() as int);
                    assert(cnf@.take(c1.len() as int) == c1);
                }
            }
        },
    }
}

} // verus!
