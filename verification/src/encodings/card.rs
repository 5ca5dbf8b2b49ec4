//! Cardinality constraints, encoded with generalized totalizers.

use vstd::prelude::*;
use crate::types::{Lit, MAX_VAR_IDX};
use crate::instances::{
    BasicVarManager, CNF, lit_true, cnf_sat, clause_sat, agrees_below, completable, unit_cnf, lemma_completable_empty,
    lemma_completable_concat,
};
use crate::maps::{LitWeights, entries_map, has_key, upsert, weight_or_zero, weight_at_most, weight_above, distinct_keys};
use crate::encodings::BoundType;
use crate::encodings::pb::gte::{
    GeneralizedTotalizer, KeyTree, build_key_tree, sort_by_weight, weights_of, merge_weights, merge_fits,
    merge_moved, merge_moved_fits, largest_weight, lemma_sort_by_weight, lemma_max_weight,
};
use crate::encodings::pb::semantics::{
    true_weight, total_weight, count_true, ones, negations, lemma_true_weight_sort, lemma_true_weight_split,
    leaf_weights_at_most, lemma_count_negations, lemma_true_weight_bounds, lemma_true_weight_concat,
};
use crate::types::constraints::CardConstraint;
use crate::encodings::pb::witness::lemma_cnf_sat_join;
use crate::encodings::pb::bounds::{weights_ub_vars, encode_weights_ub};
use crate::encodings::pb::semantics::lemma_true_weight_merge;

verus! {

/// The weights of the literals of `lits`, each occurrence counting 1, in
/// the order of first occurrence.
pub open spec fn lit_counts(lits: Seq<Lit>) -> Seq<(Lit, usize)> {
    merge_weights(Seq::empty(), ones(lits))
}

/// The number of fresh variables that `encode_card_ub(lits, b, ..)` takes.
pub open spec fn card_ub_vars(lits: Seq<Lit>, b: usize) -> nat {
    weights_ub_vars(lit_counts(lits), b)
}

/// Counting occurrences gives each literal once, with a weight between 1
/// and the number of literals; with distinct literals, each weight is 1.
pub proof fn lemma_lit_counts(lits: Seq<Lit>)
    requires
        lits.len() <= usize::MAX,
    ensures
        merge_fits(Seq::empty(), ones(lits)),
        distinct_keys(lit_counts(lits)),
        forall|i: int| 0 <= i < lit_counts(lits).len() ==> 1 <= (#[trigger] lit_counts(lits)[i]).1 <= lits.len(),
        lits.no_duplicates() ==> lit_counts(lits) == ones(lits),
        lit_counts(lits).len() <= lits.len(),
    decreases lits.len(),
{
    if lits.len() > 0 {
        let pre = lits.drop_last();
        lemma_lit_counts(pre);
        assert(ones(lits).drop_last() =~= ones(pre));
        let prev = lit_counts(pre);
        let l = lits.last();
        assert(ones(lits).last() == (l, 1usize));
        let w = weight_or_zero(entries_map(prev), l);
        if has_key(prev, l) {
            let i = choose|i: int| 0 <= i < prev.len() && (#[trigger] prev[i]).0 == l;
            assert(entries_map(prev).contains_key(l));
            crate::maps::lemma_entries_map_index(prev, i);
            assert(w == prev[i].1);
            assert(prev[i].1 <= pre.len());
            let t = lit_counts(lits);
            assert(t == prev.update(i, (l, (w + 1) as usize)));
            assert forall|q: int| 0 <= q < t.len() implies 1 <= (#[trigger] t[q]).1 <= lits.len() by {
                if q != i {
                    assert(t[q] == prev[q]);
                }
            }
            assert(distinct_keys(t)) by {
                assert forall|a: int, c: int| 0 <= a < t.len() && 0 <= c < t.len() && a != c implies (#[trigger] t[a]).0 != (#[trigger] t[c]).0 by {
                    assert(prev[a].0 != prev[c].0);
                }
            }
            if lits.no_duplicates() {
                assert(pre.no_duplicates());
                assert(prev == ones(pre));
                assert(pre[i] == l);
                assert(lits[i] == lits[lits.len() - 1]);
            }
        } else {
            assert(!entries_map(prev).contains_key(l));
            let t = lit_counts(lits);
            assert(t == prev.push((l, 1usize)));
            assert forall|q: int| 0 <= q < t.len() implies 1 <= (#[trigger] t[q]).1 <= lits.len() by {
                if q < prev.len() {
                    assert(t[q] == prev[q]);
                }
            }
            assert(distinct_keys(t)) by {
                assert forall|a: int, c: int| 0 <= a < t.len() && 0 <= c < t.len() && a != c implies (#[trigger] t[a]).0 != (#[trigger] t[c]).0 by {
                    if a < prev.len() && c < prev.len() {
                        assert(prev[a].0 != prev[c].0);
                    } else if a < prev.len() {
                        assert(prev[a].0 != l);
                    } else {
                        assert(prev[c].0 != l);
                    }
                }
            }
            if lits.no_duplicates() {
                assert(pre.no_duplicates());
                assert(t =~= ones(lits));
            }
        }
    }
}

/// Each occurrence weighs 1 in total.
pub proof fn lemma_total_weight_ones(lits: Seq<Lit>)
    ensures
        total_weight(ones(lits)) == lits.len(),
    decreases lits.len(),
{
    if lits.len() > 0 {
        assert(ones(lits).drop_last() =~= ones(lits.drop_last()));
        lemma_total_weight_ones(lits.drop_last());
    }
}

/// Merging distinct entries into nothing gives them back, and fits.
pub proof fn lemma_merge_distinct(s: Seq<(Lit, usize)>)
    requires
        distinct_keys(s),
    ensures
        merge_weights(Seq::empty(), s) == s,
        merge_fits(Seq::empty(), s),
    decreases s.len(),
{
    if s.len() > 0 {
        let pre = s.drop_last();
        assert(distinct_keys(pre));
        lemma_merge_distinct(pre);
        let l = s.last().0;
        assert(!has_key(pre, l)) by {
            if has_key(pre, l) {
                let i = choose|i: int| 0 <= i < pre.len() && (#[trigger] pre[i]).0 == l;
                assert(s[i].0 == s[s.len() - 1].0);
            }
        }
        assert(!entries_map(pre).contains_key(l));
        assert(pre.push((l, s.last().1)) =~= s);
    }
}

/// Merging moved entries only uses keys of the entries or of the buffer.
pub proof fn lemma_merge_moved_keys(buf: Seq<(Lit, usize)>, b: usize, l: Lit)
    requires
        has_key(merge_moved(Seq::empty(), buf, b), l),
    ensures
        has_key(buf, l),
    decreases buf.len(),
{
    if buf.len() > 0 {
        let prev = merge_moved(Seq::empty(), buf.drop_last(), b);
        let e = buf.last();
        let t = merge_moved(Seq::empty(), buf, b);
        let i = choose|i: int| 0 <= i < t.len() && (#[trigger] t[i]).0 == l;
        if e.1 <= b && e.0 == l {
            assert(buf[buf.len() - 1].0 == l);
        } else {
            if e.1 <= b {
                if has_key(prev, e.0) {
                    let j = choose|j: int| 0 <= j < prev.len() && (#[trigger] prev[j]).0 == e.0;
                    assert(t == prev.update(j, (e.0, (weight_or_zero(entries_map(prev), e.0) + e.1) as usize)));
                    assert(prev[i].0 == l);
                } else {
                    assert(t == prev.push((e.0, (weight_or_zero(entries_map(prev), e.0) + e.1) as usize)));
                    assert(prev[i].0 == l);
                }
            }
            assert(has_key(prev, l));
            lemma_merge_moved_keys(buf.drop_last(), b, l);
            let j = choose|j: int| 0 <= j < buf.drop_last().len() && (#[trigger] buf.drop_last()[j]).0 == l;
            assert(buf[j].0 == l);
        }
    }
}

/// Moving distinct entries into nothing fits.
pub proof fn lemma_merge_moved_fits_distinct(buf: Seq<(Lit, usize)>, b: usize)
    requires
        distinct_keys(buf),
    ensures
        merge_moved_fits(Seq::empty(), buf, b),
    decreases buf.len(),
{
    if buf.len() > 0 {
        let pre = buf.drop_last();
        assert(distinct_keys(pre));
        lemma_merge_moved_fits_distinct(pre, b);
        let l = buf.last().0;
        let prev = merge_moved(Seq::empty(), pre, b);
        if entries_map(prev).contains_key(l) {
            lemma_merge_moved_keys(pre, b, l);
            let i = choose|i: int| 0 <= i < pre.len() && (#[trigger] pre[i]).0 == l;
            assert(buf[i].0 == buf[buf.len() - 1].0);
        }
    }
}

/// A balanced tree over positive weights has no child of weight 0.
pub proof fn lemma_build_zero_free(ws: Seq<usize>)
    requires
        ws.len() > 0,
        forall|i: int| 0 <= i < ws.len() ==> #[trigger] ws[i] >= 1,
    ensures
        build_key_tree(ws).zero_free(),
        !build_key_tree(ws).keys().contains(0),
    decreases ws.len(),
{
    if ws.len() > 1 {
        let split = ws.len() / 2;
        let l = ws.take(split as int);
        let r = ws.skip(split as int);
        assert forall|i: int| 0 <= i < l.len() implies #[trigger] l[i] >= 1 by {
            assert(l[i] == ws[i]);
        }
        assert forall|i: int| 0 <= i < r.len() implies #[trigger] r[i] >= 1 by {
            assert(r[i] == ws[split + i]);
        }
        lemma_build_zero_free(l);
        lemma_build_zero_free(r);
    } else {
        assert(ws[0] >= 1);
    }
}

/// Literals that are all false weigh nothing.
pub proof fn lemma_true_weight_all_false(s: Seq<(Lit, usize)>, sigma: spec_fn(nat) -> bool)
    requires
        forall|i: int| 0 <= i < s.len() ==> !lit_true(sigma, (#[trigger] s[i]).0),
    ensures
        true_weight(s, sigma) == 0,
    decreases s.len(),
{
    if s.len() > 0 {
        assert forall|i: int| 0 <= i < s.drop_last().len() implies !lit_true(sigma, (#[trigger] s.drop_last()[i]).0) by {
            assert(s.drop_last()[i] == s[i]);
        }
        lemma_true_weight_all_false(s.drop_last(), sigma);
        assert(!lit_true(sigma, s[s.len() - 1].0));
    }
}

/// A true literal's weight counts toward the true weight.
pub proof fn lemma_true_weight_ge(s: Seq<(Lit, usize)>, sigma: spec_fn(nat) -> bool, i: int)
    requires
        0 <= i < s.len(),
        lit_true(sigma, s[i].0),
    ensures
        true_weight(s, sigma) >= s[i].1,
    decreases s.len(),
{
    lemma_true_weight_bounds(s.drop_last(), sigma);
    if i < s.len() - 1 {
        assert(s.drop_last()[i] == s[i]);
        lemma_true_weight_ge(s.drop_last(), sigma, i);
    }
}

/// Moving entries with distinct literals into nothing keeps each weight, so
/// each moved weight is at most `b`.
pub proof fn lemma_merge_moved_bounded(buf: Seq<(Lit, usize)>, b: usize)
    requires
        distinct_keys(buf),
    ensures
        forall|i: int| 0 <= i < merge_moved(Seq::empty(), buf, b).len() ==> (#[trigger] merge_moved(
            Seq::empty(),
            buf,
            b,
        )[i]).1 <= b,
    decreases buf.len(),
{
    if buf.len() > 0 {
        let pre = buf.drop_last();
        assert(distinct_keys(pre));
        lemma_merge_moved_bounded(pre, b);
        let prev = merge_moved(Seq::empty(), pre, b);
        let e = buf.last();
        if e.1 <= b {
            if has_key(prev, e.0) {
                lemma_merge_moved_keys(pre, b, e.0);
                let i = choose|i: int| 0 <= i < pre.len() && (#[trigger] pre[i]).0 == e.0;
                assert(buf[i].0 == buf[buf.len() - 1].0);
            }
            assert(!entries_map(prev).contains_key(e.0));
            let t = merge_moved(Seq::empty(), buf, b);
            assert(t == prev.push((e.0, e.1)));
            assert forall|i: int| 0 <= i < t.len() implies (#[trigger] t[i]).1 <= b by {
                if i < prev.len() {
                    assert(t[i] == prev[i]);
                }
            }
        }
    }
}

/// Appends to `cnf` the clauses of a fresh totalizer over `lits`, each
/// occurrence weighing 1, encoded up to `b`, followed by the unit clauses of
/// the assumptions that enforce the upper bound `b`. Every assignment that
/// satisfies the result makes at most `b` occurrences true.
pub fn encode_card_ub(lits: &Vec<Lit>, b: usize, cnf: &mut CNF, var_manager: &mut BasicVarManager)
    requires
        b < lits@.len(),
        b + lits@.len() <= usize::MAX,
        old(var_manager).next_idx() + card_ub_vars(lits@, b) <= MAX_VAR_IDX + 1,
    ensures
        final(var_manager).next_idx() == old(var_manager).next_idx() + card_ub_vars(lits@, b),
        final(cnf)@.len() >= old(cnf)@.len(),
        final(cnf)@.take(old(cnf)@.len() as int) == old(cnf)@,
        forall|sigma: spec_fn(nat) -> bool|
            cnf_sat(sigma, #[trigger] final(cnf)@) ==> count_true(lits@, sigma) <= b,
        (forall|i: int| 0 <= i < lits@.len() ==> (#[trigger] lits@[i]).var_index() < old(var_manager).next_idx())
            ==> forall|sigma: spec_fn(nat) -> bool|
            count_true(lits@, sigma) <= b ==> #[trigger] completable(
                sigma,
                final(cnf)@.skip(old(cnf)@.len() as int),
                old(var_manager).next_idx(),
                final(var_manager).next_idx(),
            ),
{
    let ghost ls = lits@;
    let ghost n0 = var_manager.next_idx();
    proof {
        lemma_lit_counts(ls);
    }
    let mut weights = LitWeights::new();
    let mut i: usize = 0;
    while i < lits.len()
        invariant
            ls == lits@,
            i <= ls.len(),
            weights.wf(),
            weights.entries() == lit_counts(ls.take(i as int)),
        decreases ls.len() - i,
    {
        let l = lits[i];
        proof {
            lemma_lit_counts(ls.take(i + 1));
            assert(ones(ls.take(i + 1)).drop_last() =~= ones(ls.take(i as int)));
            assert(ls.take(i + 1).drop_last() =~= ls.take(i as int));
            assert(ones(ls.take(i + 1)).last() == (l, 1usize));
            assert(ls.take(i + 1).len() <= ls.len());
        }
        match weights.get(l) {
            Some(w) => {
                proof {
                    let prev = lit_counts(ls.take(i as int));
                    let j = choose|j: int| 0 <= j < prev.len() && (#[trigger] prev[j]).0 == l;
                    crate::maps::lemma_entries_map_index(prev, j);
                    lemma_lit_counts(ls.take(i as int));
                    assert(prev[j].1 <= i);
                }
                weights.insert(l, w + 1);
            },
            None => weights.insert(l, 1),
        }
        i = i + 1;
    }
    proof {
        assert(ls.take(ls.len() as int) =~= ls);
    }
    let ghost counts = weights.entries();
    proof {
        lemma_total_weight_ones(ls);
        crate::encodings::pb::bounds::lemma_merge_fits_total(ones(ls));
        lemma_largest_bounded(Seq::empty(), 0, 0);
        assert forall|k: int| 0 <= k < counts.len() implies (#[trigger] counts[k]).1 >= 1 by {}
    }
    encode_weights_ub(weights, b, cnf, var_manager);
    proof {
        assert forall|sigma: spec_fn(nat) -> bool| count_true(ls, sigma) == true_weight(counts, sigma) by {
            lemma_true_weight_merge(Seq::empty(), ones(ls), sigma);
            assert(true_weight(Seq::<(Lit, usize)>::empty(), sigma) == 0);
        }
        if forall|i: int| 0 <= i < ls.len() ==> (#[trigger] ls[i]).var_index() < n0 {
            assert forall|i: int| 0 <= i < counts.len() implies (#[trigger] counts[i]).0.var_index() < n0 by {
                let q = choose|q: int| 0 <= q < ones(ls).len() && (#[trigger] ones(ls)[q]).0 == counts[i].0;
                assert(ones(ls)[q].0 == ls[q]);
            }
        }
    }
}

/// The largest weight is bounded by any bound on the start and the weights.
pub proof fn lemma_largest_bounded(s: Seq<(Lit, usize)>, init: usize, bound: int)
    requires
        init <= bound,
        forall|k: int| 0 <= k < s.len() ==> (#[trigger] s[k]).1 <= bound,
    ensures
        largest_weight(s, init) <= bound,
    decreases s.len(),
{
    if s.len() > 0 {
        assert forall|k: int| 0 <= k < s.drop_last().len() implies (#[trigger] s.drop_last()[k]).1 <= bound by {
            assert(s.drop_last()[k] == s[k]);
        }
        lemma_largest_bounded(s.drop_last(), init, bound);
        assert(s[s.len() - 1].1 <= bound);
    }
}

/// A satisfied clause set satisfies each of its prefixes.
pub proof fn lemma_cnf_sat_prefix(sigma: spec_fn(nat) -> bool, cnf: Seq<Seq<Lit>>, k: int)
    requires
        0 <= k <= cnf.len(),
        cnf_sat(sigma, cnf),
    ensures
        cnf_sat(sigma, cnf.take(k)),
{
    assert forall|i: int| 0 <= i < cnf.take(k).len() implies clause_sat(sigma, #[trigger] cnf.take(k)[i]) by {
        assert(cnf.take(k)[i] == cnf[i]);
    }
}

/// Between none and all of the literals are true.
pub proof fn lemma_count_true_bounds(lits: Seq<Lit>, sigma: spec_fn(nat) -> bool)
    ensures
        0 <= count_true(lits, sigma) <= lits.len(),
{
    lemma_true_weight_bounds(ones(lits), sigma);
    assert(leaf_weights_at_most(ones(lits), 1));
}

/// The true weight only depends on the variables of the literals.
pub proof fn lemma_true_weight_agree(s: Seq<(Lit, usize)>, a: spec_fn(nat) -> bool, b: spec_fn(nat) -> bool, n: nat)
    requires
        forall|i: int| 0 <= i < s.len() ==> (#[trigger] s[i]).0.var_index() < n,
        agrees_below(a, b, n),
    ensures
        true_weight(s, a) == true_weight(s, b),
    decreases s.len(),
{
    if s.len() > 0 {
        assert forall|i: int| 0 <= i < s.drop_last().len() implies (#[trigger] s.drop_last()[i]).0.var_index() < n by {
            assert(s.drop_last()[i] == s[i]);
        }
        lemma_true_weight_agree(s.drop_last(), a, b, n);
        let l = s[s.len() - 1].0;
        assert(a(l.var_index()) == b(l.var_index()));
    }
}

/// The number of true literals only depends on their variables.
pub proof fn lemma_count_true_agree(lits: Seq<Lit>, a: spec_fn(nat) -> bool, b: spec_fn(nat) -> bool, n: nat)
    requires
        forall|i: int| 0 <= i < lits.len() ==> (#[trigger] lits[i]).var_index() < n,
        agrees_below(a, b, n),
    ensures
        count_true(lits, a) == count_true(lits, b),
{
    let o = ones(lits);
    assert forall|i: int| 0 <= i < o.len() implies (#[trigger] o[i]).0.var_index() < n by {
        assert(o[i].0 == lits[i]);
    }
    lemma_true_weight_agree(o, a, b, n);
}

/// The number of fresh variables that encoding `c` takes.
pub open spec fn card_vars(c: CardConstraint) -> nat {
    let lits = c.lits_view();
    let n = lits.len();
    let b = c.bound();
    let ub = if b < n {
        card_ub_vars(lits, b)
    } else {
        0
    };
    let lb = if 0 < b <= n {
        card_ub_vars(negations(lits), (n - b) as usize)
    } else {
        0
    };
    match c {
        CardConstraint::UB { .. } => ub,
        CardConstraint::LB { .. } => lb,
        CardConstraint::EQ { .. } => ub + lb,
    }
}

/// The negations of `lits`, in order.
fn negate_all(lits: &Vec<Lit>) -> (r: Vec<Lit>)
    ensures
        r@ == negations(lits@),
{
    let mut r: Vec<Lit> = Vec::new();
    let mut i: usize = 0;
    while i < lits.len()
        invariant
            i <= lits@.len(),
            r@ == negations(lits@.take(i as int)),
        decreases lits@.len() - i,
    {
        r.push(lits[i].negate());
        proof {
            assert(negations(lits@.take(i + 1)) =~= negations(lits@.take(i as int)).push(lits@[i as int].spec_negate()));
        }
        i = i + 1;
    }
    proof {
        assert(lits@.take(lits@.len() as int) =~= lits@);
    }
    r
}

/// Encodes the lower bound `b` on `lits` as the upper bound `n - b` on their
/// negations, or adds the empty clause where `b` exceeds their number.
fn encode_card_lb(lits: &Vec<Lit>, b: usize, cnf: &mut CNF, var_manager: &mut BasicVarManager)
    requires
        2 * lits@.len() <= usize::MAX,
        0 < b <= lits@.len() ==> old(var_manager).next_idx() + card_ub_vars(negations(lits@), (lits@.len() - b) as usize)
            <= MAX_VAR_IDX + 1,
    ensures
        final(var_manager).next_idx() == old(var_manager).next_idx() + if 0 < b <= lits@.len() {
            card_ub_vars(negations(lits@), (lits@.len() - b) as usize)
        } else {
            0
        },
        final(cnf)@.len() >= old(cnf)@.len(),
        final(cnf)@.take(old(cnf)@.len() as int) == old(cnf)@,
        forall|sigma: spec_fn(nat) -> bool|
            cnf_sat(sigma, #[trigger] final(cnf)@) ==> count_true(lits@, sigma) >= b,
        (forall|i: int| 0 <= i < lits@.len() ==> (#[trigger] lits@[i]).var_index() < old(var_manager).next_idx())
            ==> forall|sigma: spec_fn(nat) -> bool|
            count_true(lits@, sigma) >= b ==> #[trigger] completable(
                sigma,
                final(cnf)@.skip(old(cnf)@.len() as int),
                old(var_manager).next_idx(),
                final(var_manager).next_idx(),
            ),
{
    let ghost c00 = cnf@;
    let n = lits.len();
    if b == 0 {
        proof {
            assert forall|sigma: spec_fn(nat) -> bool| cnf_sat(sigma, #[trigger] cnf@) implies count_true(lits@, sigma) >= b by {
                lemma_count_true_bounds(lits@, sigma);
            }
            assert(cnf@.skip(c00.len() as int) =~= Seq::<Seq<Lit>>::empty());
            assert forall|sigma: spec_fn(nat) -> bool| count_true(lits@, sigma) >= b implies #[trigger] completable(
                sigma,
                cnf@.skip(c00.len() as int),
                var_manager.next_idx(),
                var_manager.next_idx(),
            ) by {
                lemma_completable_empty(sigma, var_manager.next_idx(), var_manager.next_idx());
            }
        }
        return;
    }
    if b > n {
        let ghost c0 = cnf@;
        cnf.add_clause(Vec::new());
        proof {
            assert(cnf@.take(c0.len() as int) =~= c0);
            assert forall|sigma: spec_fn(nat) -> bool| cnf_sat(sigma, #[trigger] cnf@) implies count_true(lits@, sigma) >= b by {
                assert(clause_sat(sigma, cnf@[c0.len() as int]));
            }
            assert forall|sigma: spec_fn(nat) -> bool| count_true(lits@, sigma) >= b implies #[trigger] completable(
                sigma,
                cnf@.skip(c00.len() as int),
                var_manager.next_idx(),
                var_manager.next_idx(),
            ) by {
                lemma_count_true_bounds(lits@, sigma);
            }
        }
        return;
    }
    let negs = negate_all(lits);
    encode_card_ub(&negs, n - b, cnf, var_manager);
    proof {
        {
            assert forall|sigma: spec_fn(nat) -> bool| cnf_sat(sigma, #[trigger] cnf@) implies count_true(lits@, sigma) >= b by {
                lemma_count_negations(lits@, sigma);
            }
            assert forall|i: int| 0 <= i < negs@.len() implies (#[trigger] negs@[i]).var_index() == lits@[i].var_index() by {
                Lit::lemma_negate(lits@[i]);
            }
            assert forall|sigma: spec_fn(nat) -> bool| count_true(lits@, sigma) >= b implies count_true(negs@, sigma) <= n - b by {
                lemma_count_negations(lits@, sigma);
            }
        }
    }
}

/// Appends to `cnf` clauses that enforce the constraint `c`, taking fresh
/// variables from `var_manager`: a generalized totalizer over the literals for
/// an upper bound, one over their negations for a lower bound, both for an
/// equality. A bound that every assignment meets adds nothing, a lower bound
/// above the number of literals adds the empty clause. Every assignment that
/// satisfies the result satisfies `c`; every assignment that satisfies `c`
/// can be changed on the fresh variables alone into one that satisfies the
/// appended clauses.
pub fn encode_cardinality_constraint(c: &CardConstraint, cnf: &mut CNF, var_manager: &mut BasicVarManager)
    requires
        2 * c.lits_view().len() <= usize::MAX,
        old(var_manager).next_idx() + card_vars(*c) <= MAX_VAR_IDX + 1,
    ensures
        final(var_manager).next_idx() == old(var_manager).next_idx() + card_vars(*c),
        final(cnf)@.len() >= old(cnf)@.len(),
        final(cnf)@.take(old(cnf)@.len() as int) == old(cnf)@,
        forall|sigma: spec_fn(nat) -> bool|
            cnf_sat(sigma, #[trigger] final(cnf)@) ==> c.satisfied(sigma),
        (forall|i: int|
            0 <= i < c.lits_view().len() ==> (#[trigger] c.lits_view()[i]).var_index() < old(var_manager).next_idx())
            ==> forall|sigma: spec_fn(nat) -> bool|
            c.satisfied(sigma) ==> #[trigger] completable(
                sigma,
                final(cnf)@.skip(old(cnf)@.len() as int),
                old(var_manager).next_idx(),
                final(var_manager).next_idx(),
            ),
{
    let lits = c.lits();
    let n = lits.len();
    let ghost c0 = cnf@;
    let ghost n0 = var_manager.next_idx();
    match c {
        CardConstraint::UB { b, .. } => {
            let b = *b;
            if b < n {
                encode_card_ub(lits, b, cnf, var_manager);
            } else {
                proof {
                    assert forall|sigma: spec_fn(nat) -> bool| cnf_sat(sigma, #[trigger] cnf@) implies c.satisfied(sigma) by {
                        lemma_count_true_bounds(lits@, sigma);
                    }
                    assert(cnf@.skip(c0.len() as int) =~= Seq::<Seq<Lit>>::empty());
                    assert forall|sigma: spec_fn(nat) -> bool| c.satisfied(sigma) implies #[trigger] completable(
                        sigma,
                        cnf@.skip(c0.len() as int),
                        n0,
                        var_manager.next_idx(),
                    ) by {
                        lemma_completable_empty(sigma, n0, var_manager.next_idx());
                    }
                }
            }
        },
        CardConstraint::LB { b, .. } => {
            encode_card_lb(lits, *b, cnf, var_manager);
        },
        CardConstraint::EQ { b, .. } => {
            let b = *b;
            if b < n {
                encode_card_ub(lits, b, cnf, var_manager);
            }
            let ghost c1 = cnf@;
            let ghost v1 = var_manager.next_idx();
            encode_card_lb(lits, b, cnf, var_manager);
            proof {
                assert(cnf@.take(c0.len() as int) =~= c1.take(c0.len() as int));
                if forall|i: int| 0 <= i < lits@.len() ==> (#[trigger] lits@[i]).var_index() < n0 {
                    let a = c1.skip(c0.len() as int);
                    let bb = cnf@.skip(c1.len() as int);
                    assert(cnf@.skip(c0.len() as int) =~= a + bb);
                    assert forall|sigma: spec_fn(nat) -> bool| c.satisfied(sigma) implies #[trigger] completable(
                        sigma,
                        cnf@.skip(c0.len() as int),
                        n0,
                        var_manager.next_idx(),
                    ) by {
                        if b < n {
                            assert(completable(sigma, a, n0, v1));
                            let w1 = choose|w: spec_fn(nat) -> bool|
                                #[trigger] agrees_below(w, sigma, n0) && forall|w2: spec_fn(nat) -> bool|
                                    #[trigger] agrees_below(w2, w, v1) ==> cnf_sat(w2, a);
                            lemma_count_true_agree(lits@, w1, sigma, n0);
                            assert(count_true(lits@, w1) >= b);
                            assert(completable(w1, bb, v1, var_manager.next_idx()));
                            lemma_completable_concat(sigma, w1, a, bb, n0, v1, var_manager.next_idx());
                        } else {
                            assert(a =~= Seq::<Seq<Lit>>::empty());
                            assert(a + bb =~= bb);
                            assert(completable(sigma, bb, v1, var_manager.next_idx()));
                        }
                    }
                }
                {
                    assert forall|sigma: spec_fn(nat) -> bool| cnf_sat(sigma, #[trigger] cnf@) implies c.satisfied(sigma) by {
                        lemma_cnf_sat_prefix(sigma, cnf@, c1.len() as int);
                        assert(cnf@.take(c1.len() as int) == c1);
                        lemma_count_true_bounds(lits@, sigma);
                    }
                }
            }
        },
    }
}

} // verus!
