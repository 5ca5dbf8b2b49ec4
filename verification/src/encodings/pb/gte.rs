//! # Generalized Totalizer Encoding
//!
//! Implementation of the binary adder tree generalized totalizer encoding
//! (Joshi, Martins and Manquinho: Generalized Totalizer Encoding for
//! Pseudo-Boolean Constraints, CP 2015). The implementation is incremental
//! and recursive.

use vstd::prelude::*;
use crate::types::{Lit, MAX_VAR_IDX};
use crate::instances::{BasicVarManager, CNF, impl_clause, cube_impl_clause};
use crate::maps::{OutLits, LitWeights, entries_map, has_key, upsert, weight_or_zero, weight_at_most, weight_above};
use crate::encodings::{BoundType, EncodingError};
use crate::encodings::pb::semantics::{
    key_tree_encoded, lemma_encode_encoded, true_weight, leaf_weights_at_most, lemma_tree_bounds_weight,
    lemma_leaves_weight, lemma_true_weight_bounds, negated_lits, lemma_negated_weight, total_weight,
    lemma_total_weight_prefix, lemma_true_weight_le_total, lemma_total_weight_concat,
};
use crate::instances::{lit_true, cnf_sat};
use crate::encodings::pb::witness::{
    witness, lemma_witness_keeps, lemma_witness_tracks, lemma_track_transfer, lemma_track_sat, lemma_negated_in_range_from,
    outputs_track,
};
use crate::encodings::pb::fresh::{
    fresh_outputs, out_vars, own_vars, lemma_fresh_children, lemma_fresh_own_extension, lemma_fresh_widen, lemma_fresh_lower,
    lemma_fresh_join, lemma_fresh_empty, lemma_fresh_range,
};

verus! {

/// A node of the totalizer tree. The nodes only encode upper bounds; lower
/// bounds are encoded by negating the input literals.
#[derive(Debug)]
pub enum Node {
    Leaf {
        /// The input literal to the tree
        lit: Lit,
        /// The weight of the input literal
        weight: usize,
    },
    Internal {
        /// The weighted output literals of this node
        out_lits: OutLits,
        /// The path length to the leaf furthest away in the subtree
        depth: usize,
        /// The number of clauses this node produced
        n_clauses: usize,
        /// The maximum output this node can have
        max_val: usize,
        /// The maximum output weight that is encoded by this node
        max_enc: usize,
        /// The left child
        left: Box<Node>,
        /// The right child
        right: Box<Node>,
    },
}

/// The weights for which a subtree has output literals, with the counters that
/// decide how far it has been encoded: what the variable budget of an
/// encoding step depends on.
pub enum KeyTree {
    Leaf { weight: usize },
    Node { keys: Set<usize>, max_val: nat, max_enc: nat, left: Box<KeyTree>, right: Box<KeyTree> },
}

/// The weights in `(0, m]` that an adder over children with output weights
/// `lk` and `rk` needs an output literal for: each child weight, and each sum
/// of two positive child weights.
pub open spec fn needed(lk: Set<usize>, rk: Set<usize>, m: int) -> Set<usize> {
    Set::new(
        |k: usize|
            0 < k <= m && (lk.contains(k) || rk.contains(k) || exists|a: usize, b: usize|
                0 < a && 0 < b && lk.contains(a) && rk.contains(b) && a + b == k),
    )
}

/// The set of keys of a sequence of entries.
pub open spec fn key_set<V>(s: Seq<(usize, V)>) -> Set<usize> {
    Set::new(|k: usize| has_key(s, k))
}

impl KeyTree {
    /// The weights of the output literals of the subtree's root.
    pub open spec fn keys(self) -> Set<usize> {
        match self {
            KeyTree::Leaf { weight } => set![weight],
            KeyTree::Node { keys, .. } => keys,
        }
    }

    /// The maximum value of the subtree's root: the sum of its leaves' weights.
    pub open spec fn max_val(self) -> nat {
        match self {
            KeyTree::Leaf { weight } => weight as nat,
            KeyTree::Node { max_val, .. } => max_val,
        }
    }

    /// No internal node has a child that hands it weight 0.
    pub open spec fn zero_free(self) -> bool
        decreases self,
    {
        match self {
            KeyTree::Leaf { .. } => true,
            KeyTree::Node { left, right, .. } => !left.keys().contains(0) && !right.keys().contains(0)
                && left.zero_free() && right.zero_free(),
        }
    }

    /// The root after reserving output literals up to `m`.
    pub open spec fn reserve(self, m: int) -> KeyTree {
        match self {
            KeyTree::Leaf { .. } => self,
            KeyTree::Node { keys, max_val, max_enc, left, right } => KeyTree::Node {
                keys: keys.union(needed(left.keys(), right.keys(), m)),
                max_val,
                max_enc,
                left,
                right,
            },
        }
    }

    /// The number of fresh variables that reserving up to `m` takes.
    pub open spec fn reserve_count(self, m: int) -> nat {
        match self {
            KeyTree::Leaf { .. } => 0,
            KeyTree::Node { keys, left, right, .. } => needed(left.keys(), right.keys(), m).difference(
                keys,
            ).len(),
        }
    }

    /// The subtree after encoding it from scratch up to `m`.
    pub open spec fn encode(self, m: int) -> KeyTree
        decreases self,
    {
        match self {
            KeyTree::Leaf { .. } => self,
            KeyTree::Node { keys, max_val, left, right, .. } => {
                let l = left.encode(m);
                let r = right.encode(m);
                KeyTree::Node {
                    keys: keys.union(needed(l.keys(), r.keys(), m)),
                    max_val,
                    max_enc: if m < max_val { m as nat } else { max_val },
                    left: Box::new(l),
                    right: Box::new(r),
                }
            },
        }
    }

    /// The number of fresh variables that encoding from scratch up to `m` takes.
    pub open spec fn encode_count(self, m: int) -> nat
        decreases self,
    {
        match self {
            KeyTree::Leaf { .. } => 0,
            KeyTree::Node { keys, left, right, .. } => left.encode_count(m) + right.encode_count(m)
                + needed(left.encode(m).keys(), right.encode(m).keys(), m).difference(keys).len(),
        }
    }

    /// The subtree after encoding it incrementally up to `m`.
    pub open spec fn encode_change(self, m: int) -> KeyTree
        decreases self,
    {
        match self {
            KeyTree::Leaf { .. } => self,
            KeyTree::Node { keys, max_val, max_enc, left, right } => {
                let l = left.encode_change(m);
                let r = right.encode_change(m);
                KeyTree::Node {
                    keys: if max_enc >= m {
                        keys
                    } else {
                        keys.union(needed(l.keys(), r.keys(), m))
                    },
                    max_val,
                    max_enc: if m < max_val { m as nat } else { max_val },
                    left: Box::new(l),
                    right: Box::new(r),
                }
            },
        }
    }

    /// The number of fresh variables that encoding incrementally up to `m` takes.
    pub open spec fn encode_change_count(self, m: int) -> nat
        decreases self,
    {
        match self {
            KeyTree::Leaf { .. } => 0,
            KeyTree::Node { keys, max_enc, left, right, .. } => left.encode_change_count(m)
                + right.encode_change_count(m) + if max_enc >= m {
                0
            } else {
                needed(left.encode_change(m).keys(), right.encode_change(m).keys(), m).difference(
                    keys,
                ).len()
            },
        }
    }

    /// The subtree after reserving, bottom up, all output literals each node
    /// might need.
    pub open spec fn reserve_all_rec(self) -> KeyTree
        decreases self,
    {
        match self {
            KeyTree::Leaf { .. } => self,
            KeyTree::Node { keys, max_val, max_enc, left, right } => {
                let l = left.reserve_all_rec();
                let r = right.reserve_all_rec();
                KeyTree::Node {
                    keys: keys.union(needed(l.keys(), r.keys(), max_val as int)),
                    max_val,
                    max_enc,
                    left: Box::new(l),
                    right: Box::new(r),
                }
            },
        }
    }

    /// The number of fresh variables that `reserve_all_rec` takes.
    pub open spec fn reserve_all_rec_count(self) -> nat
        decreases self,
    {
        match self {
            KeyTree::Leaf { .. } => 0,
            KeyTree::Node { keys, max_val, left, right, .. } => left.reserve_all_rec_count()
                + right.reserve_all_rec_count() + needed(
                left.reserve_all_rec().keys(),
                right.reserve_all_rec().keys(),
                max_val as int,
            ).difference(keys).len(),
        }
    }
}

/// Whether `new` extends `old` by fresh positive literals: old entries stay,
/// and each new weight gets a positive literal of its own whose variable index
/// lies in `[lo, hi)`, where `hi - lo` is the number of new weights.
pub open spec fn fresh_extension(old: Map<usize, Lit>, new: Map<usize, Lit>, lo: nat, hi: nat) -> bool {
    &&& old.dom().subset_of(new.dom())
    &&& forall|k: usize| old.contains_key(k) ==> new[k] == old[k]
    &&& forall|k: usize|
        new.contains_key(k) && !old.contains_key(k) ==> !(#[trigger] new[k]).is_neg() && lo
            <= new[k].var_index() < hi
    &&& forall|k1: usize, k2: usize|
        new.contains_key(k1) && !old.contains_key(k1) && new.contains_key(k2) && !old.contains_key(
            k2,
        ) && k1 != k2 ==> (#[trigger] new[k1]).var_index() != (#[trigger] new[k2]).var_index()
    &&& hi == lo + new.dom().difference(old.dom()).len()
}


/// The clauses `l -> out(k)` for the entries `(k, l)` of `es` with
/// `lo <= k <= hi`, in order.
pub open spec fn unit_clauses(es: Seq<(usize, Lit)>, out: Map<usize, Lit>, lo: int, hi: int) -> Seq<Seq<Lit>>
    decreases es.len(),
{
    if es.len() == 0 {
        Seq::empty()
    } else {
        let prev = unit_clauses(es.drop_last(), out, lo, hi);
        let e = es.last();
        if lo <= e.0 <= hi {
            prev.push(impl_clause(e.1, out[e.0]))
        } else {
            prev
        }
    }
}

/// The clauses `la & lb -> out(a + b)` for the entries `(b, lb)` of `rs`
/// with `lo <= a + b <= hi`, in order.
pub open spec fn sum_clauses_with(
    a: usize,
    la: Lit,
    rs: Seq<(usize, Lit)>,
    out: Map<usize, Lit>,
    lo: int,
    hi: int,
) -> Seq<Seq<Lit>>
    decreases rs.len(),
{
    if rs.len() == 0 {
        Seq::empty()
    } else {
        let prev = sum_clauses_with(a, la, rs.drop_last(), out, lo, hi);
        let e = rs.last();
        if lo <= a + e.0 <= hi {
            prev.push(cube_impl_clause(la, e.1, out[(a + e.0) as usize]))
        } else {
            prev
        }
    }
}

/// For each entry `(a, la)` of `ls` with `0 < a <= hi`, in order, the clauses
/// `sum_clauses_with(a, la, rs, ..)`.
pub open spec fn sum_clauses(
    ls: Seq<(usize, Lit)>,
    rs: Seq<(usize, Lit)>,
    out: Map<usize, Lit>,
    lo: int,
    hi: int,
) -> Seq<Seq<Lit>>
    decreases ls.len(),
{
    if ls.len() == 0 {
        Seq::empty()
    } else {
        let prev = sum_clauses(ls.drop_last(), rs, out, lo, hi);
        let e = ls.last();
        if 0 < e.0 <= hi {
            prev + sum_clauses_with(e.0, e.1, rs, out, lo, hi)
        } else {
            prev
        }
    }
}

/// The clauses of the adder from children with weighted literals `ls` and
/// `rs` to the output literals `out`, for the output weights in `[lo, hi]`:
/// each child literal implies the output of its weight, and each pair of
/// child literals of positive weight on the left implies the output of the
/// sum of their weights.
pub open spec fn adder_clauses(
    ls: Seq<(usize, Lit)>,
    rs: Seq<(usize, Lit)>,
    out: Map<usize, Lit>,
    lo: int,
    hi: int,
) -> Seq<Seq<Lit>> {
    unit_clauses(ls, out, lo, hi) + unit_clauses(rs, out, lo, hi) + sum_clauses(ls, rs, out, lo, hi)
}

/// `new` counts, at each internal node of the subtree, on top of what `old`
/// counted (wrapping around), the clauses of the node's adder for the output
/// weights in `[0, m]`, as encoding from scratch up to `m` produces them.
pub open spec fn counted_encode(old: Node, new: Node, m: int) -> bool
    decreases old,
{
    match old {
        Node::Leaf { .. } => true,
        Node::Internal { n_clauses, left, right, .. } => {
            &&& new is Internal
            &&& new->n_clauses == vstd::wrapping::usize_specs::wrapping_add(
                n_clauses,
                adder_clauses((*new->left).entries(), (*new->right).entries(), new->out_lits@, 0, m).len() as usize,
            )
            &&& counted_encode(*left, *new->left, m)
            &&& counted_encode(*right, *new->right, m)
        },
    }
}

/// `new` counts, at each internal node of the subtree, on top of what `old`
/// counted (wrapping around), the clauses that encoding incrementally up to
/// `m` adds to the node's adder.
pub open spec fn counted_change(old: Node, new: Node, m: int) -> bool
    decreases old,
{
    match old {
        Node::Leaf { .. } => true,
        Node::Internal { n_clauses, max_enc, max_val, left, right, .. } => {
            &&& new is Internal
            &&& new->n_clauses == vstd::wrapping::usize_specs::wrapping_add(
                n_clauses,
                if max_enc >= m || max_enc >= max_val {
                    0usize
                } else {
                    adder_clauses((*new->left).entries(), (*new->right).entries(), new->out_lits@, max_enc + 1int, m).len() as usize
                },
            )
            &&& counted_change(*left, *new->left, m)
            &&& counted_change(*right, *new->right, m)
        },
    }
}

/// The depth of the balanced tree that `build_tree` builds over `n` leaves.
pub open spec fn build_depth(n: nat) -> nat
    decreases n,
{
    if n <= 1 {
        1
    } else {
        let a = build_depth(n / 2);
        let b = build_depth((n - n / 2) as nat);
        1 + if a > b {
            a
        } else {
            b
        }
    }
}

/// No node of the subtree has encoded anything yet: no output literals, no
/// clauses counted, nothing encoded.
pub open spec fn unencoded(n: Node) -> bool
    decreases n,
{
    match n {
        Node::Leaf { .. } => true,
        Node::Internal { out_lits, n_clauses, max_enc, left, right, .. } => {
            &&& out_lits.entries().len() == 0
            &&& n_clauses == 0
            &&& max_enc == 0
            &&& unencoded(*left)
            &&& unencoded(*right)
        },
    }
}

/// A prefix one longer drops its last entry back to the shorter one.
proof fn lemma_take_succ<A>(s: Seq<A>, i: int)
    requires
        0 <= i < s.len(),
    ensures
        s.take(i + 1).drop_last() == s.take(i),
        s.take(i + 1).last() == s[i],
        s.take(i + 1).len() == i + 1,
{
    assert(s.take(i + 1).drop_last() =~= s.take(i));
}

/// Encoding never gives a subtree's root an output of weight 0.
pub proof fn lemma_no_zero_key(t: KeyTree, m: int)
    requires
        !t.keys().contains(0),
    ensures
        !t.encode(m).keys().contains(0),
        !t.encode_change(m).keys().contains(0),
        !t.reserve_all_rec().keys().contains(0),
        !t.reserve(m).keys().contains(0),
{
}

/// Widening the range of fresh variables keeps an extension.
pub proof fn lemma_extended_widen(old: Node, new: Node, lo: nat, hi: nat, lo2: nat, hi2: nat)
    requires
        old.extended_by(new, lo, hi),
        lo2 <= lo,
        hi <= hi2,
    ensures
        old.extended_by(new, lo2, hi2),
    decreases old,
{
    if let Node::Internal { left, right, .. } = old {
        lemma_extended_widen(*left, *new->left, lo, hi, lo2, hi2);
        lemma_extended_widen(*right, *new->right, lo, hi, lo2, hi2);
    }
}

/// Inserts `e` into `t` after the last entry whose weight is at most `e`'s.
pub open spec fn insert_by_weight(t: Seq<(Lit, usize)>, e: (Lit, usize)) -> Seq<(Lit, usize)>
    decreases t.len(),
{
    if t.len() == 0 {
        seq![e]
    } else if t.last().1 <= e.1 {
        t.push(e)
    } else {
        insert_by_weight(t.drop_last(), e).push(t.last())
    }
}

/// The stable sort of `s` by increasing weight.
pub open spec fn sort_by_weight(s: Seq<(Lit, usize)>) -> Seq<(Lit, usize)>
    decreases s.len(),
{
    if s.len() == 0 {
        s
    } else {
        insert_by_weight(sort_by_weight(s.drop_last()), s.last())
    }
}

/// The weights of a sequence of weighted literals.
pub open spec fn weights_of(s: Seq<(Lit, usize)>) -> Seq<usize> {
    s.map_values(|e: (Lit, usize)| e.1)
}

/// A fresh internal node over two subtrees.
pub open spec fn join_key_trees(a: KeyTree, b: KeyTree) -> KeyTree {
    KeyTree::Node {
        keys: Set::empty(),
        max_val: a.max_val() + b.max_val(),
        max_enc: 0,
        left: Box::new(a),
        right: Box::new(b),
    }
}

/// The key tree of the balanced tree over leaves of weights `ws`: the first
/// half goes left, the rest right.
pub open spec fn build_key_tree(ws: Seq<usize>) -> KeyTree
    decreases ws.len(),
{
    if ws.len() <= 1 {
        KeyTree::Leaf { weight: ws[0] }
    } else {
        let split = ws.len() / 2;
        join_key_trees(build_key_tree(ws.take(split as int)), build_key_tree(ws.skip(split as int)))
    }
}

/// A node is zero-free exactly when its key tree is.
pub proof fn lemma_zero_free_key_tree(n: Node)
    ensures
        n.zero_free() == n.key_tree().zero_free(),
    decreases n,
{
    if let Node::Internal { left, right, .. } = n {
        lemma_keys_entries(*left);
        lemma_keys_entries(*right);
        lemma_zero_free_key_tree(*left);
        lemma_zero_free_key_tree(*right);
    }
}

/// The largest of `init` and the weights in `s`.
pub open spec fn largest_weight(s: Seq<(Lit, usize)>, init: usize) -> usize
    decreases s.len(),
{
    if s.len() == 0 {
        init
    } else {
        let m = largest_weight(s.drop_last(), init);
        if s.last().1 > m {
            s.last().1
        } else {
            m
        }
    }
}

/// Adds each weighted literal of `moved` to the weights in `es`, in order.
pub open spec fn merge_weights(es: Seq<(Lit, usize)>, moved: Seq<(Lit, usize)>) -> Seq<(Lit, usize)>
    decreases moved.len(),
{
    if moved.len() == 0 {
        es
    } else {
        let prev = merge_weights(es, moved.drop_last());
        let e = moved.last();
        upsert(prev, e.0, (weight_or_zero(entries_map(prev), e.0) + e.1) as usize)
    }
}

/// Whether merging `moved` into `es` keeps every weight within `usize`.
pub open spec fn merge_fits(es: Seq<(Lit, usize)>, moved: Seq<(Lit, usize)>) -> bool
    decreases moved.len(),
{
    if moved.len() == 0 {
        true
    } else {
        let prev = merge_weights(es, moved.drop_last());
        let e = moved.last();
        merge_fits(es, moved.drop_last()) && weight_or_zero(entries_map(prev), e.0) + e.1 <= usize::MAX
    }
}

/// The negations of the literals of the entries of `es` whose weight lies in
/// `(lo, hi]`, in order.
pub open spec fn negated_in_range(es: Seq<(usize, Lit)>, lo: int, hi: int) -> Seq<Lit>
    decreases es.len(),
{
    if es.len() == 0 {
        Seq::empty()
    } else {
        let prev = negated_in_range(es.drop_last(), lo, hi);
        let e = es.last();
        if lo < e.0 <= hi {
            prev.push(e.1.spec_negate())
        } else {
            prev
        }
    }
}

/// The literals of `es`, negated if `neg`, in order.
pub open spec fn lits_of(es: Seq<(Lit, usize)>, neg: bool) -> Seq<Lit> {
    es.map_values(|e: (Lit, usize)| if neg { e.0.spec_negate() } else { e.0 })
}

/// Merging fits for every prefix of what fits.
pub proof fn lemma_merge_fits_prefix(es: Seq<(Lit, usize)>, moved: Seq<(Lit, usize)>, k: int)
    requires
        merge_fits(es, moved),
        0 <= k <= moved.len(),
    ensures
        merge_fits(es, moved.take(k)),
    decreases moved.len(),
{
    if k == moved.len() {
        assert(moved.take(k) =~= moved);
    } else {
        assert(moved.drop_last().take(k) =~= moved.take(k));
        lemma_merge_fits_prefix(es, moved.drop_last(), k);
    }
}

/// Adds the weighted literals of `buf` of weight at most `b` to the weights
/// in `es`, in order.
pub open spec fn merge_moved(es: Seq<(Lit, usize)>, buf: Seq<(Lit, usize)>, b: usize) -> Seq<(Lit, usize)>
    decreases buf.len(),
{
    if buf.len() == 0 {
        es
    } else {
        let prev = merge_moved(es, buf.drop_last(), b);
        let e = buf.last();
        if e.1 <= b {
            upsert(prev, e.0, (weight_or_zero(entries_map(prev), e.0) + e.1) as usize)
        } else {
            prev
        }
    }
}

/// Whether `merge_moved(es, buf, b)` keeps every weight within `usize`.
pub open spec fn merge_moved_fits(es: Seq<(Lit, usize)>, buf: Seq<(Lit, usize)>, b: usize) -> bool
    decreases buf.len(),
{
    if buf.len() == 0 {
        true
    } else {
        let prev = merge_moved(es, buf.drop_last(), b);
        let e = buf.last();
        merge_moved_fits(es, buf.drop_last(), b) && (e.1 <= b ==> weight_or_zero(entries_map(prev), e.0) + e.1
            <= usize::MAX)
    }
}

/// Merging fits for every prefix of what fits.
pub proof fn lemma_merge_moved_fits_prefix(es: Seq<(Lit, usize)>, buf: Seq<(Lit, usize)>, b: usize, k: int)
    requires
        merge_moved_fits(es, buf, b),
        0 <= k <= buf.len(),
    ensures
        merge_moved_fits(es, buf.take(k), b),
    decreases buf.len(),
{
    if k == buf.len() {
        assert(buf.take(k) =~= buf);
    } else {
        assert(buf.drop_last().take(k) =~= buf.take(k));
        lemma_merge_moved_fits_prefix(es, buf.drop_last(), b, k);
    }
}

/// Sorting keeps the length and the entries.
pub proof fn lemma_sort_by_weight(s: Seq<(Lit, usize)>)
    ensures
        sort_by_weight(s).len() == s.len(),
        forall|i: int| 0 <= i < s.len() ==> s.contains(#[trigger] sort_by_weight(s)[i]),
    decreases s.len(),
{
    if s.len() > 0 {
        lemma_sort_by_weight(s.drop_last());
        lemma_insert_by_weight(sort_by_weight(s.drop_last()), s.last());
        let t = sort_by_weight(s);
        assert forall|i: int| 0 <= i < s.len() implies s.contains(#[trigger] t[i]) by {
            if t[i] == s.last() {
                assert(s[s.len() - 1] == t[i]);
            } else {
                let u = sort_by_weight(s.drop_last());
                assert(u.contains(t[i]));
                let j = choose|j: int| 0 <= j < u.len() && u[j] == t[i];
                assert(s.drop_last().contains(u[j]));
                let k = choose|k: int| 0 <= k < s.drop_last().len() && s.drop_last()[k] == u[j];
                assert(s[k] == t[i]);
            }
        }
    }
}

/// Whether the weights of `s` do not decrease.
pub open spec fn weights_sorted(s: Seq<(Lit, usize)>) -> bool {
    forall|i: int, j: int| 0 <= i <= j < s.len() ==> (#[trigger] s[i]).1 <= (#[trigger] s[j]).1
}

/// Inserting into entries sorted by weight keeps them sorted and adds the
/// entry to the multiset of entries.
pub proof fn lemma_insert_by_weight_sorted(t: Seq<(Lit, usize)>, e: (Lit, usize))
    requires
        weights_sorted(t),
    ensures
        weights_sorted(insert_by_weight(t, e)),
        insert_by_weight(t, e).to_multiset() == t.to_multiset().insert(e),
    decreases t.len(),
{
    broadcast use vstd::seq_lib::group_to_multiset_ensures;
    lemma_insert_by_weight(t, e);
    let r = insert_by_weight(t, e);
    if t.len() == 0 {
        assert(seq![e] == Seq::<(Lit, usize)>::empty().push(e));
    } else if t.last().1 <= e.1 {
        assert(weights_sorted(r)) by {
            assert forall|a: int, b: int| 0 <= a <= b < r.len() implies (#[trigger] r[a]).1 <= (#[trigger] r[b]).1 by {
                if b == t.len() {
                    if a < t.len() {
                        assert(t[a].1 <= t[t.len() - 1].1);
                    }
                }
            }
        }
    } else {
        let p = t.drop_last();
        assert(weights_sorted(p)) by {
            assert forall|a: int, b: int| 0 <= a <= b < p.len() implies (#[trigger] p[a]).1 <= (#[trigger] p[b]).1 by {
                assert(p[a] == t[a] && p[b] == t[b]);
            }
        }
        lemma_insert_by_weight_sorted(p, e);
        lemma_insert_by_weight(p, e);
        let r0 = insert_by_weight(p, e);
        assert(r == r0.push(t.last()));
        assert(t == p.push(t.last()));
        assert(weights_sorted(r)) by {
            assert forall|a: int, b: int| 0 <= a <= b < r.len() implies (#[trigger] r[a]).1 <= (#[trigger] r[b]).1 by {
                if b == r.len() - 1 && a < b {
                    assert(r[a] == r0[a]);
                    if r0[a] != e {
                        let k = choose|k: int| 0 <= k < p.len() && p[k] == r0[a];
                        assert(t[k] == p[k]);
                    }
                } else if b < r.len() - 1 {
                    assert(r[a] == r0[a] && r[b] == r0[b]);
                }
            }
        }
    }
}

/// Sorting by weight gives the same entries, in an order of non-decreasing
/// weight.
pub proof fn lemma_sort_by_weight_sorts(s: Seq<(Lit, usize)>)
    ensures
        weights_sorted(sort_by_weight(s)),
        sort_by_weight(s).to_multiset() == s.to_multiset(),
    decreases s.len(),
{
    broadcast use vstd::seq_lib::group_to_multiset_ensures;
    if s.len() > 0 {
        lemma_sort_by_weight_sorts(s.drop_last());
        lemma_insert_by_weight_sorted(sort_by_weight(s.drop_last()), s.last());
        assert(s == s.drop_last().push(s.last()));
    }
}

/// Insertion adds one entry and keeps the others.
pub proof fn lemma_insert_by_weight(t: Seq<(Lit, usize)>, e: (Lit, usize))
    ensures
        insert_by_weight(t, e).len() == t.len() + 1,
        forall|i: int| 0 <= i < t.len() + 1 ==> (#[trigger] insert_by_weight(t, e)[i] == e || t.contains(insert_by_weight(t, e)[i])),
    decreases t.len(),
{
    if t.len() > 0 && t.last().1 > e.1 {
        lemma_insert_by_weight(t.drop_last(), e);
        let r = insert_by_weight(t, e);
        let r0 = insert_by_weight(t.drop_last(), e);
        assert forall|i: int| 0 <= i < t.len() + 1 implies (#[trigger] r[i] == e || t.contains(r[i])) by {
            if i < t.len() {
                assert(r[i] == r0[i]);
                if r0[i] != e {
                    let j = choose|j: int| 0 <= j < t.drop_last().len() && t.drop_last()[j] == r0[i];
                    assert(t[j] == r[i]);
                }
            } else {
                assert(t[t.len() - 1] == r[i]);
            }
        }
    } else if t.len() > 0 {
        let r = insert_by_weight(t, e);
        assert forall|i: int| 0 <= i < t.len() + 1 implies (#[trigger] r[i] == e || t.contains(r[i])) by {
            if i < t.len() {
                assert(t[i] == r[i]);
            }
        }
    }
}

/// The maximum bounds its start and every weight.
pub proof fn lemma_max_weight(s: Seq<(Lit, usize)>, init: usize)
    ensures
        init <= largest_weight(s, init),
        forall|i: int| 0 <= i < s.len() ==> (#[trigger] s[i]).1 <= largest_weight(s, init),
    decreases s.len(),
{
    if s.len() > 0 {
        lemma_max_weight(s.drop_last(), init);
        assert forall|i: int| 0 <= i < s.len() implies (#[trigger] s[i]).1 <= largest_weight(s, init) by {
            if i < s.len() - 1 {
                assert(s.drop_last()[i] == s[i]);
            }
        }
    }
}

/// If no entry weighs at most `b`, then all weigh more.
pub proof fn lemma_filter_none_moved(s: Seq<(Lit, usize)>, b: usize)
    requires
        s.filter(weight_at_most(b)).len() == 0,
    ensures
        s.filter(weight_above(b)) == s,
    decreases s.len(),
{
    reveal(Seq::filter);
    if s.len() > 0 {
        let t = s.drop_last();
        if weight_at_most(b)(s.last()) {
            assert(s.filter(weight_at_most(b)) == t.filter(weight_at_most(b)).push(s.last()));
        } else {
            assert(s.filter(weight_at_most(b)) == t.filter(weight_at_most(b)));
            lemma_filter_none_moved(t, b);
            assert(s.filter(weight_above(b)) == t.filter(weight_above(b)).push(s.last()));
            assert(t.push(s.last()) =~= s);
        }
    }
}

/// Merging the entries of weight at most `b` is merging the filtered entries.
pub proof fn lemma_merge_moved_filter(es: Seq<(Lit, usize)>, buf: Seq<(Lit, usize)>, b: usize)
    ensures
        merge_moved(es, buf, b) == merge_weights(es, buf.filter(weight_at_most(b))),
    decreases buf.len(),
{
    reveal(Seq::filter);
    if buf.len() > 0 {
        lemma_merge_moved_filter(es, buf.drop_last(), b);
        let t = buf.drop_last().filter(weight_at_most(b));
        if buf.last().1 <= b {
            assert(buf.filter(weight_at_most(b)) == t.push(buf.last()));
            assert(t.push(buf.last()).drop_last() =~= t);
        }
    }
}

/// A zero-free subtree is zero-free for incremental encoding too.
pub proof fn lemma_zero_free_change(n: Node)
    requires
        n.zero_free(),
    ensures
        n.change_zero_free(),
    decreases n,
{
    if let Node::Internal { left, right, .. } = n {
        lemma_zero_free_change(*left);
        lemma_zero_free_change(*right);
    }
}

/// Every set of weights is finite.
pub proof fn lemma_usize_set_finite(s: Set<usize>)
    ensures
        s.finite(),
{
    <usize as vstd::set_lib::FiniteFull>::full_properties();
    assert(Set::<usize>::full().finite());
    vstd::set_lib::lemma_set_subset_finite(Set::<usize>::full(), s);
}

/// The keys a node hands to its parent are the keys of its entries.
pub proof fn lemma_keys_entries(n: Node)
    ensures
        n.key_tree().keys() == key_set(n.entries()),
        n.lit_map().dom() == key_set(n.entries()),
{
    match n {
        Node::Leaf { lit, weight } => {
            assert(key_set(n.entries()).contains(weight)) by {
                assert(n.entries()[0].0 == weight);
            }
            assert(n.key_tree().keys() =~= key_set(n.entries()));
        },
        Node::Internal { .. } => {
            assert(n.key_tree().keys() =~= key_set(n.entries()));
        },
    }
    assert(n.lit_map().dom() =~= key_set(n.entries()));
}

/// Adding a fresh literal for a new weight keeps a fresh extension.
pub proof fn lemma_fresh_insert(m0: Map<usize, Lit>, m: Map<usize, Lit>, lo: nat, hi: nat, k: usize, v: Lit)
    requires
        fresh_extension(m0, m, lo, hi),
        !m.contains_key(k),
        !v.is_neg(),
        v.var_index() == hi,
    ensures
        fresh_extension(m0, m.insert(k, v), lo, hi + 1),
{
    let m2 = m.insert(k, v);
    let a = m.dom().difference(m0.dom());
    lemma_usize_set_finite(a);
    assert(m2.dom().difference(m0.dom()) =~= a.insert(k));
    assert(!a.contains(k));
}

/// A key that is still missing shows that fewer keys were added than needed.
pub proof fn lemma_budget(m0: Map<usize, Lit>, m: Map<usize, Lit>, need: Set<usize>, k: usize)
    requires
        m0.dom().subset_of(m.dom()),
        m.dom().subset_of(m0.dom().union(need)),
        need.contains(k),
        !m.contains_key(k),
    ensures
        m.dom().difference(m0.dom()).len() < need.difference(m0.dom()).len(),
{
    let a = m.dom().difference(m0.dom());
    let b = need.difference(m0.dom());
    lemma_usize_set_finite(a);
    lemma_usize_set_finite(b);
    assert(a.insert(k).subset_of(b));
    vstd::set_lib::lemma_len_subset(a.insert(k), b);
}


/// Reserves, in `out_lits`, a fresh output literal for each weight in
/// `(0, max_rhs]` that the adder over `left_lits` and `right_lits` needs and
/// that has none yet.
fn reserve_adder_outputs(
    out_lits: &mut OutLits,
    left_lits: &OutLits,
    right_lits: &OutLits,
    max_rhs: usize,
    var_manager: &mut BasicVarManager,
)
    requires
        old(out_lits).wf(),
        left_lits.wf(),
        right_lits.wf(),
        old(var_manager).next_idx() + needed(
            key_set(left_lits.entries()),
            key_set(right_lits.entries()),
            max_rhs as int,
        ).difference(old(out_lits)@.dom()).len() <= MAX_VAR_IDX + 1,
    ensures
        final(out_lits).wf(),
        final(out_lits)@.dom() == old(out_lits)@.dom().union(
            needed(key_set(left_lits.entries()), key_set(right_lits.entries()), max_rhs as int),
        ),
        fresh_extension(
            old(out_lits)@,
            final(out_lits)@,
            old(var_manager).next_idx(),
            final(var_manager).next_idx(),
        ),
{
    let ghost m0 = out_lits@;
    let ghost vm0 = var_manager.next_idx();
    let ghost ls = left_lits.entries();
    let ghost rs = right_lits.entries();
    let ghost need = needed(key_set(ls), key_set(rs), max_rhs as int);
    let n_left = left_lits.len();
    let n_right = right_lits.len();
    assert(out_lits@.dom().difference(m0.dom()) =~= Set::<usize>::empty());
    // Reserve the weights of the left child
    let mut i: usize = 0;
    while i < n_left
        invariant
            n_left == ls.len(),
            left_lits.entries() == ls,
            out_lits.wf(),
            i <= n_left,
            need == needed(key_set(ls), key_set(rs), max_rhs as int),
            vm0 + need.difference(m0.dom()).len() <= MAX_VAR_IDX + 1,
            fresh_extension(m0, out_lits@, vm0, var_manager.next_idx()),
            out_lits@.dom().subset_of(m0.dom().union(need)),
            forall|j: int| 0 <= j < i && 0 < ls[j].0 <= max_rhs ==> out_lits@.contains_key(#[trigger] ls[j].0),
        decreases n_left - i,
    {
        let (left_val, _) = left_lits.entry(i);
        if 0 < left_val && left_val <= max_rhs && !out_lits.contains_key(left_val) {
            proof {
                assert(has_key(ls, left_val)) by {
                    assert(ls[i as int].0 == left_val);
                }
                assert(key_set(ls).contains(left_val));
                assert(need.contains(left_val));
                lemma_budget(m0, out_lits@, need, left_val);
            }
            let l = var_manager.next_free().pos_lit();
            proof {
                lemma_fresh_insert(m0, out_lits@, vm0, (var_manager.next_idx() - 1) as nat, left_val, l);
            }
            out_lits.insert(left_val, l);
        }
        i = i + 1;
    }
    // Reserve the weights of the right child
    let mut i: usize = 0;
    while i < n_right
        invariant
            n_left == ls.len(),
            n_right == rs.len(),
            left_lits.entries() == ls,
            right_lits.entries() == rs,
            out_lits.wf(),
            i <= n_right,
            need == needed(key_set(ls), key_set(rs), max_rhs as int),
            vm0 + need.difference(m0.dom()).len() <= MAX_VAR_IDX + 1,
            fresh_extension(m0, out_lits@, vm0, var_manager.next_idx()),
            out_lits@.dom().subset_of(m0.dom().union(need)),
            forall|j: int| 0 <= j < n_left && 0 < ls[j].0 <= max_rhs ==> out_lits@.contains_key(#[trigger] ls[j].0),
            forall|j: int| 0 <= j < i && 0 < rs[j].0 <= max_rhs ==> out_lits@.contains_key(#[trigger] rs[j].0),
        decreases n_right - i,
    {
        let (right_val, _) = right_lits.entry(i);
        if 0 < right_val && right_val <= max_rhs && !out_lits.contains_key(right_val) {
            proof {
                assert(has_key(rs, right_val)) by {
                    assert(rs[i as int].0 == right_val);
                }
                assert(key_set(rs).contains(right_val));
                assert(need.contains(right_val));
                lemma_budget(m0, out_lits@, need, right_val);
            }
            let l = var_manager.next_free().pos_lit();
            proof {
                lemma_fresh_insert(m0, out_lits@, vm0, (var_manager.next_idx() - 1) as nat, right_val, l);
            }
            out_lits.insert(right_val, l);
        }
        i = i + 1;
    }
    // Reserve the sums of positive weights of both children
    let mut i: usize = 0;
    while i < n_left
        invariant
            n_left == ls.len(),
            n_right == rs.len(),
            left_lits.entries() == ls,
            right_lits.entries() == rs,
            out_lits.wf(),
            i <= n_left,
            need == needed(key_set(ls), key_set(rs), max_rhs as int),
            vm0 + need.difference(m0.dom()).len() <= MAX_VAR_IDX + 1,
            fresh_extension(m0, out_lits@, vm0, var_manager.next_idx()),
            out_lits@.dom().subset_of(m0.dom().union(need)),
            forall|j: int| 0 <= j < n_left && 0 < ls[j].0 <= max_rhs ==> out_lits@.contains_key(#[trigger] ls[j].0),
            forall|j: int| 0 <= j < n_right && 0 < rs[j].0 <= max_rhs ==> out_lits@.contains_key(#[trigger] rs[j].0),
            forall|a: int, b: int|
                0 <= a < i && 0 <= b < n_right && 0 < ls[a].0 && 0 < rs[b].0 && ls[a].0 + rs[b].0
                    <= max_rhs ==> out_lits@.contains_key((#[trigger] ls[a].0 + #[trigger] rs[b].0) as usize),
        decreases n_left - i,
    {
        let (left_val, _) = left_lits.entry(i);
        if 0 < left_val && left_val <= max_rhs {
            let mut j: usize = 0;
            while j < n_right
                invariant
                    n_left == ls.len(),
                    n_right == rs.len(),
                    left_lits.entries() == ls,
                    right_lits.entries() == rs,
                    out_lits.wf(),
                    i < n_left,
                    j <= n_right,
                    left_val == ls[i as int].0,
                    0 < left_val <= max_rhs,
                    need == needed(key_set(ls), key_set(rs), max_rhs as int),
                    vm0 + need.difference(m0.dom()).len() <= MAX_VAR_IDX + 1,
                    fresh_extension(m0, out_lits@, vm0, var_manager.next_idx()),
                    out_lits@.dom().subset_of(m0.dom().union(need)),
                    forall|x: int| 0 <= x < n_left && 0 < ls[x].0 <= max_rhs ==> out_lits@.contains_key(#[trigger] ls[x].0),
                    forall|x: int| 0 <= x < n_right && 0 < rs[x].0 <= max_rhs ==> out_lits@.contains_key(#[trigger] rs[x].0),
                    forall|a: int, b: int|
                        0 <= a < i && 0 <= b < n_right && 0 < ls[a].0 && 0 < rs[b].0 && ls[a].0 + rs[b].0
                            <= max_rhs ==> out_lits@.contains_key((#[trigger] ls[a].0 + #[trigger] rs[b].0) as usize),
                    forall|b: int|
                        0 <= b < j && 0 < rs[b].0 && left_val + rs[b].0 <= max_rhs
                            ==> out_lits@.contains_key((left_val + #[trigger] rs[b].0) as usize),
                decreases n_right - j,
            {
                let (right_val, _) = right_lits.entry(j);
                if 0 < right_val && right_val <= max_rhs - left_val {
                    let sum = left_val + right_val;
                    if !out_lits.contains_key(sum) {
                        proof {
                            assert(has_key(ls, left_val)) by {
                                assert(ls[i as int].0 == left_val);
                            }
                            assert(has_key(rs, right_val)) by {
                                assert(rs[j as int].0 == right_val);
                            }
                            assert(key_set(ls).contains(left_val));
                            assert(key_set(rs).contains(right_val));
                            assert(need.contains(sum));
                            lemma_budget(m0, out_lits@, need, sum);
                        }
                        let l = var_manager.next_free().pos_lit();
                        proof {
                            lemma_fresh_insert(m0, out_lits@, vm0, (var_manager.next_idx() - 1) as nat, sum, l);
                        }
                        out_lits.insert(sum, l);
                    }
                }
                j = j + 1;
            }
        }
        i = i + 1;
    }
    proof {
        assert forall|k: usize| need.contains(k) implies out_lits@.contains_key(k) by {
            if has_key(ls, k) {
                let a = choose|a: int| 0 <= a < ls.len() && (#[trigger] ls[a]).0 == k;
                assert(out_lits@.contains_key(ls[a].0));
            } else if has_key(rs, k) {
                let b = choose|b: int| 0 <= b < rs.len() && (#[trigger] rs[b]).0 == k;
                assert(out_lits@.contains_key(rs[b].0));
            } else {
                let (x, y) = choose|x: usize, y: usize|
                    0 < x && 0 < y && key_set(ls).contains(x) && key_set(rs).contains(y) && x + y == k;
                let a = choose|a: int| 0 <= a < ls.len() && (#[trigger] ls[a]).0 == x;
                let b = choose|b: int| 0 <= b < rs.len() && (#[trigger] rs[b]).0 == y;
                assert(out_lits@.contains_key((ls[a].0 + rs[b].0) as usize));
            }
        }
        assert(out_lits@.dom() =~= m0.dom().union(need));
    }
}


/// The position after the last entry of the sorted `v` whose weight is at most
/// `w`.
fn insert_position(v: &Vec<(Lit, usize)>, w: usize) -> (p: usize)
    ensures
        p <= v@.len(),
        forall|t: Seq<(Lit, usize)>, e: (Lit, usize)|
            t == v@ && e.1 == w ==> #[trigger] insert_by_weight(t, e) == t.insert(p as int, e),
{
    let mut j = v.len();
    proof {
        assert(v@.take(j as int) =~= v@);
        assert(v@.skip(j as int) =~= Seq::<(Lit, usize)>::empty());
        assert forall|e: (Lit, usize)| e.1 == w implies #[trigger] insert_by_weight(v@, e) == insert_by_weight(
            v@.take(j as int),
            e,
        ) + v@.skip(j as int) by {
            assert(insert_by_weight(v@, e) + Seq::<(Lit, usize)>::empty() =~= insert_by_weight(v@, e));
        }
    }
    while j > 0 && v[j - 1].1 > w
        invariant
            j <= v@.len(),
            forall|e: (Lit, usize)| e.1 == w ==> #[trigger] insert_by_weight(v@, e) == insert_by_weight(
                v@.take(j as int),
                e,
            ) + v@.skip(j as int),
        decreases j,
    {
        proof {
            assert forall|e: (Lit, usize)| e.1 == w implies #[trigger] insert_by_weight(v@, e) == insert_by_weight(
                v@.take(j - 1),
                e,
            ) + v@.skip(j - 1) by {
                let t = v@.take(j as int);
                assert(t.drop_last() =~= v@.take(j - 1));
                assert(insert_by_weight(t, e) == insert_by_weight(v@.take(j - 1), e).push(t.last()));
                assert(v@.skip(j - 1) =~= seq![t.last()] + v@.skip(j as int));
                assert(insert_by_weight(v@.take(j - 1), e).push(t.last()) + v@.skip(j as int) =~= insert_by_weight(
                    v@.take(j - 1),
                    e,
                ) + v@.skip(j - 1));
            }
        }
        j = j - 1;
    }
    proof {
        assert forall|t: Seq<(Lit, usize)>, e: (Lit, usize)| t == v@ && e.1 == w implies #[trigger] insert_by_weight(t, e) == t.insert(j as int, e) by {
            let pre = v@.take(j as int);
            if j == 0 {
                assert(insert_by_weight(pre, e) =~= seq![e]);
            } else {
                assert(pre.last() == v@[j - 1]);
                assert(insert_by_weight(pre, e) == pre.push(e));
            }
            assert(insert_by_weight(pre, e) + v@.skip(j as int) =~= t.insert(j as int, e));
        }
    }
    j
}

/// Sorts weighted literals by increasing weight; entries of equal weight keep
/// their order.
fn sort_by_weight_exec(lits: &Vec<(Lit, usize)>) -> (sorted: Vec<(Lit, usize)>)
    ensures
        sorted@ == sort_by_weight(lits@),
{
    let mut sorted: Vec<(Lit, usize)> = Vec::new();
    let mut i: usize = 0;
    while i < lits.len()
        invariant
            i <= lits@.len(),
            sorted@ == sort_by_weight(lits@.take(i as int)),
        decreases lits@.len() - i,
    {
        let e = lits[i];
        let p = insert_position(&sorted, e.1);
        proof {
            lemma_take_succ(lits@, i as int);
        }
        sorted.insert(p, e);
        i = i + 1;
    }
    proof {
        assert(lits@.take(lits@.len() as int) =~= lits@);
    }
    sorted
}

impl Node {
    /// The weighted literals this node hands to its parent: its input literal
    /// for a leaf, its output literals for an internal node.
    pub open spec fn entries(self) -> Seq<(usize, Lit)> {
        match self {
            Node::Leaf { lit, weight } => seq![(weight, lit)],
            Node::Internal { out_lits, .. } => out_lits.entries(),
        }
    }

    /// The map form of `entries`.
    pub open spec fn lit_map(self) -> Map<usize, Lit> {
        entries_map(self.entries())
    }

    /// The key tree of the subtree.
    pub open spec fn key_tree(self) -> KeyTree
        decreases self,
    {
        match self {
            Node::Leaf { weight, .. } => KeyTree::Leaf { weight },
            Node::Internal { out_lits, max_val, max_enc, left, right, .. } => KeyTree::Node {
                keys: out_lits@.dom(),
                max_val: max_val as nat,
                max_enc: max_enc as nat,
                left: Box::new(left.key_tree()),
                right: Box::new(right.key_tree()),
            },
        }
    }

    /// Every map of output literals in the subtree is sorted.
    pub open spec fn maps_wf(self) -> bool
        decreases self,
    {
        match self {
            Node::Leaf { .. } => true,
            Node::Internal { out_lits, left, right, .. } => out_lits.wf() && left.maps_wf()
                && right.maps_wf(),
        }
    }

    /// The input literals of the subtree with their weights, left to right.
    pub open spec fn leaves(self) -> Seq<(Lit, usize)>
        decreases self,
    {
        match self {
            Node::Leaf { lit, weight } => seq![(lit, weight)],
            Node::Internal { left, right, .. } => left.leaves() + right.leaves(),
        }
    }

    /// The depth of the subtree.
    pub open spec fn depth_of(self) -> nat {
        match self {
            Node::Leaf { .. } => 1,
            Node::Internal { depth, .. } => depth as nat,
        }
    }

    /// The maximum output of the subtree: the sum of its leaves' weights.
    pub open spec fn max_val_of(self) -> nat {
        match self {
            Node::Leaf { weight, .. } => weight as nat,
            Node::Internal { max_val, .. } => max_val as nat,
        }
    }

    /// The structure of the subtree is consistent: depths and maximum values
    /// are computed from the children, output maps are sorted and hold only
    /// positive weights.
    pub open spec fn wf(self) -> bool
        decreases self,
    {
        match self {
            Node::Leaf { .. } => true,
            Node::Internal { out_lits, depth, max_val, max_enc, left, right, .. } => {
                &&& out_lits.wf()
                &&& !out_lits@.contains_key(0)
                &&& depth == 1 + if left.depth_of() > right.depth_of() {
                    left.depth_of()
                } else {
                    right.depth_of()
                }
                &&& max_val == left.max_val_of() + right.max_val_of()
                &&& depth <= self.leaves().len()
                &&& max_enc <= max_val
                &&& left.wf()
                &&& right.wf()
            },
        }
    }


    /// The clauses of all adders in the subtree encoded up to `m`, children
    /// first: left subtree, right subtree, then the root's adder.
    pub open spec fn tree_clauses(self, m: int) -> Seq<Seq<Lit>>
        decreases self,
    {
        match self {
            Node::Leaf { .. } => Seq::empty(),
            Node::Internal { out_lits, left, right, .. } => left.tree_clauses(m) + right.tree_clauses(
                m,
            ) + adder_clauses(left.entries(), right.entries(), out_lits@, 0, m),
        }
    }

    /// No internal node of the subtree has a child that hands it weight 0.
    pub open spec fn zero_free(self) -> bool
        decreases self,
    {
        match self {
            Node::Leaf { .. } => true,
            Node::Internal { left, right, .. } => !has_key(left.entries(), 0) && !has_key(
                right.entries(),
                0,
            ) && left.zero_free() && right.zero_free(),
        }
    }

    /// `new` is `old` with output literals added: old output literals stay,
    /// and each new one is positive with a variable index in `[lo, hi)`.
    pub open spec fn extended_by(self, new: Node, lo: nat, hi: nat) -> bool
        decreases self,
    {
        match self {
            Node::Leaf { .. } => new == self,
            Node::Internal { out_lits, left, right, .. } => {
                &&& new is Internal
                &&& out_lits@.dom().subset_of(new->out_lits@.dom())
                &&& forall|k: usize| #[trigger] out_lits@.contains_key(k) ==> new->out_lits@[k] == out_lits@[k]
                &&& forall|k: usize|
                    new->out_lits@.contains_key(k) && !out_lits@.contains_key(k) ==> !(
                    #[trigger] new->out_lits@[k]).is_neg() && lo <= new->out_lits@[k].var_index() < hi
                &&& left.extended_by(*new->left, lo, hi)
                &&& right.extended_by(*new->right, lo, hi)
            },
        }
    }


    /// A subtree extended without new output weights is unchanged in its
    /// output literals, so its clauses stay the same.
    pub proof fn lemma_extended_same_keys(self, new: Node, lo: nat, hi: nat)
        requires
            self.extended_by(new, lo, hi),
            new.key_tree() == self.key_tree(),
            self.maps_wf(),
            new.maps_wf(),
        ensures
            new.entries() == self.entries(),
            new.out_map() == self.out_map(),
            new.leaves() == self.leaves(),
            forall|m: int| #[trigger] new.tree_clauses(m) == self.tree_clauses(m),
        decreases self,
    {
        if let Node::Internal { out_lits, left, right, .. } = self {
            left.lemma_extended_same_keys(*new->left, lo, hi);
            right.lemma_extended_same_keys(*new->right, lo, hi);
            let no = new->out_lits;
            assert(no@.dom() == out_lits@.dom());
            assert(no@ =~= out_lits@);
            crate::maps::lemma_sorted_same_map(out_lits.entries(), no.entries());
            assert forall|m: int| #[trigger] new.tree_clauses(m) == self.tree_clauses(m) by {
                assert(new.tree_clauses(m) == new->left.tree_clauses(m) + new->right.tree_clauses(m) + adder_clauses(
                    new->left.entries(),
                    new->right.entries(),
                    no@,
                    0,
                    m,
                ));
            }
        }
    }

    /// The clauses that encoding incrementally up to `m` adds, given the key
    /// tree `old` of the subtree before: for each node, the adder clauses for
    /// the output weights above what `old` had encoded, children first.
    pub open spec fn change_clauses(self, old: KeyTree, m: int) -> Seq<Seq<Lit>>
        decreases self,
    {
        match self {
            Node::Leaf { .. } => Seq::empty(),
            Node::Internal { out_lits, max_val, left, right, .. } => left.change_clauses(
                *old->left,
                m,
            ) + right.change_clauses(*old->right, m) + if old->max_enc >= m || old->max_enc >= max_val {
                Seq::empty()
            } else {
                adder_clauses(left.entries(), right.entries(), out_lits@, old->max_enc + 1int, m)
            },
        }
    }

    /// No internal node that has encoded nothing yet has a child that hands it
    /// weight 0.
    pub open spec fn change_zero_free(self) -> bool
        decreases self,
    {
        match self {
            Node::Leaf { .. } => true,
            Node::Internal { max_enc, left, right, .. } => (max_enc == 0 ==> !has_key(left.entries(), 0)
                && !has_key(right.entries(), 0)) && left.change_zero_free() && right.change_zero_free(),
        }
    }

    /// The output literals of an internal node; empty for a leaf.
    pub open spec fn out_map(self) -> Map<usize, Lit> {
        match self {
            Node::Leaf { .. } => Map::empty(),
            Node::Internal { out_lits, .. } => out_lits@,
        }
    }

    /// `other` differs from `self` at most in the root's output literals.
    pub open spec fn same_but_out(self, other: Node) -> bool {
        match self {
            Node::Leaf { .. } => other == self,
            Node::Internal { depth, n_clauses, max_val, max_enc, left, right, .. } => {
                &&& other is Internal
                &&& other->depth == depth
                &&& other->n_clauses == n_clauses
                &&& other->max_val == max_val
                &&& other->max_enc == max_enc
                &&& other->left == left
                &&& other->right == right
            },
        }
    }

    /// Constructs a new leaf node
    pub fn new_leaf(lit: Lit, weight: usize) -> (n: Node)
        ensures
            n == (Node::Leaf { lit, weight }),
    {
        Node::Leaf { lit, weight }
    }

    /// Constructs a new internal node
    pub fn new_internal(left: Node, right: Node) -> (n: Node)
        requires
            left.depth_of() < usize::MAX,
            right.depth_of() < usize::MAX,
            left.max_val_of() + right.max_val_of() <= usize::MAX,
        ensures
            n matches Node::Internal { out_lits, depth, n_clauses, max_val, max_enc, left: l, right: r }
                && out_lits.wf() && out_lits.entries().len() == 0 && depth == 1 + (if left.depth_of()
                > right.depth_of() {
                left.depth_of()
            } else {
                right.depth_of()
            }) && n_clauses == 0 && max_val == left.max_val_of() + right.max_val_of()
                && max_enc == 0 && *l == left && *r == right,
    {
        let left_depth = match left {
            Node::Leaf { .. } => 1,
            Node::Internal { depth, .. } => depth,
        };
        let right_depth = match right {
            Node::Leaf { .. } => 1,
            Node::Internal { depth, .. } => depth,
        };
        let left_val: usize = match left {
            Node::Leaf { weight, .. } => weight,
            Node::Internal { max_val, .. } => max_val,
        };
        let right_val: usize = match right {
            Node::Leaf { weight, .. } => weight,
            Node::Internal { max_val, .. } => max_val,
        };
        Node::Internal {
            out_lits: OutLits::new(),
            depth: if left_depth > right_depth {
                left_depth + 1
            } else {
                right_depth + 1
            },
            n_clauses: 0,
            max_enc: 0,
            max_val: left_val + right_val,
            left: Box::new(left),
            right: Box::new(right),
        }
    }

    /// Gets the maximum depth of the subtree rooted in this node
    pub fn get_depth(&self) -> (d: usize)
        ensures
            d == self.depth_of(),
    {
        match self {
            Node::Leaf { .. } => 1,
            Node::Internal { depth, .. } => *depth,
        }
    }

    /// Reserves variables this node might need up to `max_rhs`.
    fn reserve_vars_till(&mut self, max_rhs: usize, var_manager: &mut BasicVarManager, bound_type: &BoundType)
        requires
            *bound_type == BoundType::UB,
            old(self).maps_wf(),
            old(var_manager).next_idx() + old(self).key_tree().reserve_count(max_rhs as int)
                <= MAX_VAR_IDX + 1,
        ensures
            final(self).maps_wf(),
            old(self).wf() ==> final(self).wf(),
            old(self).same_but_out(*final(self)),
            final(self).key_tree() == old(self).key_tree().reserve(max_rhs as int),
            final(var_manager).next_idx() == old(var_manager).next_idx() + old(self).key_tree().reserve_count(
                max_rhs as int,
            ),
            fresh_extension(
                old(self).out_map(),
                final(self).out_map(),
                old(var_manager).next_idx(),
                final(var_manager).next_idx(),
            ),
    {
        if let Node::Internal { out_lits, left, right, .. } = self {
            let mut left_tmp_map = OutLits::new();
            let mut right_tmp_map = OutLits::new();
            let (left_lits, right_lits) = Node::get_child_lit_maps(
                left,
                right,
                &mut left_tmp_map,
                &mut right_tmp_map,
            );
            proof {
                lemma_keys_entries(**left);
                lemma_keys_entries(**right);
            }
            let ghost dom0 = out_lits@.dom();
            let ghost need = needed(key_set(left_lits.entries()), key_set(right_lits.entries()), max_rhs as int);
            reserve_adder_outputs(out_lits, left_lits, right_lits, max_rhs, var_manager);
            assert(out_lits@.dom().difference(dom0) =~= need.difference(dom0));
        } else {
            assert(self.out_map().dom().difference(self.out_map().dom()) =~= Set::<usize>::empty());
        }
    }

    /// Encodes the adder for this node from values `min_enc` to `max_enc`.
    /// This method only produces the encoding and does _not_ change any of the
    /// stats of the node.
    pub fn encode_from_till(
        &mut self,
        min_enc: usize,
        max_enc: usize,
        var_manager: &mut BasicVarManager,
        bound_type: &BoundType,
    ) -> (cnf: CNF)
        requires
            *bound_type == BoundType::UB,
            old(self).maps_wf(),
            min_enc <= max_enc ==> old(var_manager).next_idx() + old(self).key_tree().reserve_count(
                max_enc as int,
            ) <= MAX_VAR_IDX + 1,
            (*old(self)) is Internal && min_enc == 0 ==> !has_key((*old(self))->left.entries(), 0)
                && !has_key((*old(self))->right.entries(), 0),
        ensures
            final(self).maps_wf(),
            old(self).same_but_out(*final(self)),
            min_enc > max_enc ==> *final(self) == *old(self) && *final(var_manager) == *old(
                var_manager,
            ),
            min_enc <= max_enc ==> final(self).key_tree() == old(self).key_tree().reserve(
                max_enc as int,
            ) && final(var_manager).next_idx() == old(var_manager).next_idx() + old(
                self,
            ).key_tree().reserve_count(max_enc as int) && fresh_extension(
                old(self).out_map(),
                final(self).out_map(),
                old(var_manager).next_idx(),
                final(var_manager).next_idx(),
            ),
            cnf@ == (if min_enc > max_enc || (*old(self)) is Leaf || min_enc > (*old(self))->max_val {
                Seq::<Seq<Lit>>::empty()
            } else {
                adder_clauses(
                    (*old(self))->left.entries(),
                    (*old(self))->right.entries(),
                    (*final(self))->out_lits@,
                    min_enc as int,
                    max_enc as int,
                )
            }),
    {
        if min_enc > max_enc {
            return CNF::new();
        }
        // Reserve vars if needed
        self.reserve_vars_till(max_enc, var_manager, bound_type);
        match &*self {
            Node::Leaf { .. } => CNF::new(),
            Node::Internal { out_lits, max_val, left, right, .. } => {
                let mut left_tmp_map = OutLits::new();
                let mut right_tmp_map = OutLits::new();
                let (left_lits, right_lits) = Node::get_child_lit_maps(
                    left,
                    right,
                    &mut left_tmp_map,
                    &mut right_tmp_map,
                );
                if min_enc > *max_val {
                    return CNF::new();
                }
                let ghost ls = left_lits.entries();
                let ghost rs = right_lits.entries();
                let ghost out = out_lits@;
                let ghost lo = min_enc as int;
                let ghost hi = max_enc as int;
                proof {
                    lemma_keys_entries(**left);
                    lemma_keys_entries(**right);
                }
                let n_left = left_lits.len();
                let n_right = right_lits.len();
                // Encode adder for current node
                let mut cnf = CNF::new();
                // Propagate left value
                let mut i: usize = 0;
                while i < n_left
                    invariant
                        n_left == ls.len(),
                        left_lits.entries() == ls,
                        out_lits.wf(),
                        out_lits@ == out,
                        i <= n_left,
                        needed(key_set(ls), key_set(rs), hi).subset_of(out.dom()),
                        lo == 0 ==> !has_key(ls, 0),
                        lo == min_enc,
                        hi == max_enc,
                        cnf@ == unit_clauses(ls.take(i as int), out, lo, hi),
                    decreases n_left - i,
                {
                    let (left_val, left_lit) = left_lits.entry(i);
                    proof {
                        lemma_take_succ(ls, i as int);
                    }
                    if min_enc <= left_val && left_val <= max_enc {
                        proof {
                            assert(has_key(ls, left_val)) by {
                                assert(ls[i as int].0 == left_val);
                            }
                            assert(key_set(ls).contains(left_val));
                            assert(needed(key_set(ls), key_set(rs), hi).contains(left_val));
                        }
                        let out_lit = out_lits.get(left_val).unwrap();
                        cnf.add_lit_impl_lit(left_lit, out_lit);
                    }
                    i = i + 1;
                }
                proof {
                    assert(ls.take(n_left as int) =~= ls);
                }
                // Propagate right value
                let mut i: usize = 0;
                while i < n_right
                    invariant
                        n_right == rs.len(),
                        right_lits.entries() == rs,
                        out_lits.wf(),
                        out_lits@ == out,
                        i <= n_right,
                        needed(key_set(ls), key_set(rs), hi).subset_of(out.dom()),
                        lo == 0 ==> !has_key(rs, 0),
                        lo == min_enc,
                        hi == max_enc,
                        cnf@ == unit_clauses(ls, out, lo, hi) + unit_clauses(rs.take(i as int), out, lo, hi),
                    decreases n_right - i,
                {
                    let (right_val, right_lit) = right_lits.entry(i);
                    proof {
                        lemma_take_succ(rs, i as int);
                    }
                    if min_enc <= right_val && right_val <= max_enc {
                        proof {
                            assert(has_key(rs, right_val)) by {
                                assert(rs[i as int].0 == right_val);
                            }
                            assert(key_set(rs).contains(right_val));
                            assert(needed(key_set(ls), key_set(rs), hi).contains(right_val));
                        }
                        let out_lit = out_lits.get(right_val).unwrap();
                        cnf.add_lit_impl_lit(right_lit, out_lit);
                    }
                    i = i + 1;
                }
                proof {
                    assert(rs.take(n_right as int) =~= rs);
                }
                // Propagate sum
                let mut i: usize = 0;
                while i < n_left
                    invariant
                        n_left == ls.len(),
                        n_right == rs.len(),
                        left_lits.entries() == ls,
                        right_lits.entries() == rs,
                        out_lits.wf(),
                        out_lits@ == out,
                        i <= n_left,
                        needed(key_set(ls), key_set(rs), hi).subset_of(out.dom()),
                        lo == min_enc,
                        hi == max_enc,
                        cnf@ == unit_clauses(ls, out, lo, hi) + unit_clauses(rs, out, lo, hi) + sum_clauses(
                            ls.take(i as int),
                            rs,
                            out,
                            lo,
                            hi,
                        ),
                    decreases n_left - i,
                {
                    let (left_val, left_lit) = left_lits.entry(i);
                    proof {
                        lemma_take_succ(ls, i as int);
                    }
                    if 0 < left_val && left_val <= max_enc {
                        let ghost base = cnf@;
                        let mut j: usize = 0;
                        while j < n_right
                            invariant
                                n_left == ls.len(),
                                n_right == rs.len(),
                                left_lits.entries() == ls,
                                right_lits.entries() == rs,
                                out_lits.wf(),
                                out_lits@ == out,
                                i < n_left,
                                j <= n_right,
                                ls[i as int] == (left_val, left_lit),
                                0 < left_val <= max_enc,
                                needed(key_set(ls), key_set(rs), hi).subset_of(out.dom()),
                                lo == min_enc,
                                hi == max_enc,
                                cnf@ == base + sum_clauses_with(left_val, left_lit, rs.take(j as int), out, lo, hi),
                            decreases n_right - j,
                        {
                            let (right_val, right_lit) = right_lits.entry(j);
                            proof {
                                lemma_take_succ(rs, j as int);
                            }
                            if right_val <= max_enc - left_val {
                                let sum_val = left_val + right_val;
                                if sum_val >= min_enc {
                                    proof {
                                        assert(has_key(ls, left_val)) by {
                                            assert(ls[i as int].0 == left_val);
                                        }
                                        assert(has_key(rs, right_val)) by {
                                            assert(rs[j as int].0 == right_val);
                                        }
                                        assert(key_set(ls).contains(left_val));
                                        assert(key_set(rs).contains(right_val));
                                        assert(needed(key_set(ls), key_set(rs), hi).contains(sum_val));
                                    }
                                    let out_lit = out_lits.get(sum_val).unwrap();
                                    cnf.add_cube_impl_lit(left_lit, right_lit, out_lit);
                                    proof {
                                        assert(cnf@ =~= base + sum_clauses_with(left_val, left_lit, rs.take(j + 1), out, lo, hi));
                                    }
                                }
                            }
                            j = j + 1;
                        }
                        proof {
                            assert(rs.take(n_right as int) =~= rs);
                            assert(cnf@ =~= unit_clauses(ls, out, lo, hi) + unit_clauses(rs, out, lo, hi) + sum_clauses(ls.take(i + 1), rs, out, lo, hi));
                        }
                    }
                    i = i + 1;
                }
                proof {
                    assert(ls.take(n_left as int) =~= ls);
                }
                cnf
            },
        }
    }

    /// Encodes the adder from the children to this node up to a given maximum
    /// right hand side. Recurses depth first. Always encodes the full
    /// totalizer.
    pub fn encode_rec(&mut self, max_enc: usize, var_manager: &mut BasicVarManager, bound_type: &BoundType) -> (cnf: CNF)
        requires
            *bound_type == BoundType::UB,
            old(self).maps_wf(),
            old(self).zero_free(),
            old(var_manager).next_idx() + old(self).key_tree().encode_count(max_enc as int) <= MAX_VAR_IDX + 1,
        ensures
            final(self).maps_wf(),
            final(self).zero_free(),
            final(self).key_tree() == old(self).key_tree().encode(max_enc as int),
            final(var_manager).next_idx() == old(var_manager).next_idx() + old(self).key_tree().encode_count(
                max_enc as int,
            ),
            old(self).extended_by(*final(self), old(var_manager).next_idx(), final(var_manager).next_idx()),
            final(self).leaves() == old(self).leaves(),
            final(self).depth_of() == old(self).depth_of(),
            old(self).wf() ==> final(self).wf(),
            cnf@ == final(self).tree_clauses(max_enc as int),
            forall|lo: nat|
                lo <= old(var_manager).next_idx() && #[trigger] fresh_outputs(*old(self), lo, old(var_manager).next_idx())
                    ==> fresh_outputs(*final(self), lo, final(var_manager).next_idx()),
            counted_encode(*old(self), *final(self), max_enc as int),
        decreases *old(self),
    {
        let ghost vm0 = var_manager.next_idx();
        let ghost mut vml = vm0;
        // Ignore all previous encoding and encode from scratch
        let mut cnf = match self {
            Node::Leaf { .. } => CNF::new(),
            Node::Internal { left, right, .. } => {
                // Recurse
                let mut cnf = left.encode_rec(max_enc, var_manager, bound_type);
                proof {
                    vml = var_manager.next_idx();
                }
                cnf.extend(right.encode_rec(max_enc, var_manager, bound_type));
                cnf
            },
        };
        proof {
            if (*self) is Internal {
                lemma_keys_entries(*(*self)->left);
                lemma_keys_entries(*(*self)->right);
                lemma_keys_entries(*(*old(self))->left);
                lemma_keys_entries(*(*old(self))->right);
                lemma_no_zero_key((*(*old(self))->left).key_tree(), max_enc as int);
                lemma_no_zero_key((*(*old(self))->right).key_tree(), max_enc as int);
            }
        }
        let ghost mid = *self;
        let ghost vm1 = var_manager.next_idx();
        let local_cnf = self.encode_from_till(0, max_enc, var_manager, bound_type);
        let ghost post = *self;
        match self {
            Node::Leaf { .. } => local_cnf,
            Node::Internal { max_enc: max_rhs, max_val, n_clauses, .. } => {
                // Update stats
                *max_rhs = if max_enc < *max_val {
                    max_enc
                } else {
                    *max_val
                };
                *n_clauses = n_clauses.wrapping_add(local_cnf.n_clauses());
                cnf.extend(local_cnf);
                proof {
                    let vm2 = var_manager.next_idx();
                    lemma_extended_widen(*(*old(self))->left, *mid->left, vm0, vml, vm0, vm2);
                    lemma_extended_widen(*(*old(self))->right, *mid->right, vml, vm1, vm0, vm2);
                    assert forall|lo: nat| lo <= vm0 && #[trigger] fresh_outputs(*old(self), lo, vm0) implies fresh_outputs(
                        *self,
                        lo,
                        vm2,
                    ) by {
                        assert(fresh_outputs(*(*old(self))->left, lo, vm0));
                        lemma_fresh_widen(*(*old(self))->right, lo, vm0, vml);
                        lemma_fresh_children(*old(self), mid, lo, vm0, vml, vm1);
                        lemma_fresh_own_extension(mid, post, lo, vm1, vm2);
                    }
                }
                cnf
            },
        }
    }

    /// Encodes the adder from the children to this node up to a given maximum
    /// right hand side. Recurses depth first. Incrementally only encodes new
    /// clauses: those for the output values above the ones already encoded.
    pub fn encode_change_rec(&mut self, max_enc: usize, var_manager: &mut BasicVarManager, bound_type: &BoundType) -> (cnf: CNF)
        requires
            *bound_type == BoundType::UB,
            old(self).maps_wf(),
            old(self).change_zero_free(),
            old(var_manager).next_idx() + old(self).key_tree().encode_change_count(max_enc as int)
                <= MAX_VAR_IDX + 1,
        ensures
            final(self).maps_wf(),
            old(self).zero_free() ==> final(self).zero_free(),
            final(self).key_tree() == old(self).key_tree().encode_change(max_enc as int),
            final(var_manager).next_idx() == old(var_manager).next_idx() + old(self).key_tree().encode_change_count(
                max_enc as int,
            ),
            old(self).extended_by(*final(self), old(var_manager).next_idx(), final(var_manager).next_idx()),
            final(self).leaves() == old(self).leaves(),
            final(self).depth_of() == old(self).depth_of(),
            old(self).wf() ==> final(self).wf(),
            cnf@ == final(self).change_clauses(old(self).key_tree(), max_enc as int),
            forall|lo: nat|
                lo <= old(var_manager).next_idx() && #[trigger] fresh_outputs(*old(self), lo, old(var_manager).next_idx())
                    ==> fresh_outputs(*final(self), lo, final(var_manager).next_idx()),
            counted_change(*old(self), *final(self), max_enc as int),
        decreases *old(self),
    {
        let ghost vm0 = var_manager.next_idx();
        let ghost mut vml = vm0;
        let (mut cnf, min_enc) = match self {
            Node::Leaf { .. } => (CNF::new(), 0),
            Node::Internal { left, right, max_enc: max_rhs, .. } => {
                // Recurse
                let mut cnf = left.encode_change_rec(max_enc, var_manager, bound_type);
                proof {
                    vml = var_manager.next_idx();
                }
                cnf.extend(right.encode_change_rec(max_enc, var_manager, bound_type));
                (cnf, *max_rhs)
            },
        };
        proof {
            if (*self) is Internal {
                lemma_keys_entries(*(*self)->left);
                lemma_keys_entries(*(*self)->right);
                lemma_keys_entries(*(*old(self))->left);
                lemma_keys_entries(*(*old(self))->right);
                if (*old(self))->max_enc == 0 || old(self).zero_free() {
                    lemma_no_zero_key((*(*old(self))->left).key_tree(), max_enc as int);
                    lemma_no_zero_key((*(*old(self))->right).key_tree(), max_enc as int);
                }
            }
        }
        let ghost mid = *self;
        let ghost vm1 = var_manager.next_idx();
        // Encode adder for current node, above what it encoded before
        let local_cnf = if min_enc < max_enc {
            self.encode_from_till(min_enc + 1, max_enc, var_manager, bound_type)
        } else {
            CNF::new()
        };
        let ghost post = *self;
        match self {
            Node::Leaf { .. } => local_cnf,
            Node::Internal { max_enc: max_rhs, max_val, n_clauses, .. } => {
                // Update stats
                *n_clauses = n_clauses.wrapping_add(local_cnf.n_clauses());
                *max_rhs = if max_enc < *max_val {
                    max_enc
                } else {
                    *max_val
                };
                cnf.extend(local_cnf);
                proof {
                    let vm2 = var_manager.next_idx();
                    lemma_extended_widen(*(*old(self))->left, *mid->left, vm0, vml, vm0, vm2);
                    lemma_extended_widen(*(*old(self))->right, *mid->right, vml, vm1, vm0, vm2);
                    assert forall|lo: nat| lo <= vm0 && #[trigger] fresh_outputs(*old(self), lo, vm0) implies fresh_outputs(
                        *self,
                        lo,
                        vm2,
                    ) by {
                        assert(fresh_outputs(*(*old(self))->left, lo, vm0));
                        lemma_fresh_widen(*(*old(self))->right, lo, vm0, vml);
                        lemma_fresh_children(*old(self), mid, lo, vm0, vml, vm1);
                        if min_enc < max_enc {
                            lemma_fresh_own_extension(mid, post, lo, vm1, vm2);
                        }
                    }
                }
                cnf
            },
        }
    }

    /// Reserves all variables this node might need. This is used if variables
    /// in the totalizer should have consecutive indices.
    pub fn reserve_all_vars(&mut self, var_manager: &mut BasicVarManager, bound_type: &BoundType)
        requires
            *bound_type == BoundType::UB,
            old(self).maps_wf(),
            old(var_manager).next_idx() + old(self).key_tree().reserve_count(
                old(self).key_tree().max_val() as int,
            ) <= MAX_VAR_IDX + 1,
        ensures
            final(self).maps_wf(),
            old(self).wf() ==> final(self).wf(),
            old(self).same_but_out(*final(self)),
            final(self).key_tree() == old(self).key_tree().reserve(old(self).key_tree().max_val() as int),
            final(var_manager).next_idx() == old(var_manager).next_idx() + old(self).key_tree().reserve_count(
                old(self).key_tree().max_val() as int,
            ),
            fresh_extension(
                old(self).out_map(),
                final(self).out_map(),
                old(var_manager).next_idx(),
                final(var_manager).next_idx(),
            ),
    {
        let max_enc = match self {
            Node::Leaf { .. } => 0,
            Node::Internal { max_val, .. } => *max_val,
        };
        proof {
            if (*self) is Leaf {
                assert(self.key_tree().reserve(self.key_tree().max_val() as int) == self.key_tree().reserve(0));
            }
        }
        self.reserve_vars_till(max_enc, var_manager, bound_type);
    }

    /// Reserves all variables this node and the lower subtree might need. This
    /// is used if variables in the totalizer should have consecutive indices:
    /// the variables go to the nodes in post-order, those of the left subtree
    /// first, then those of the right subtree, then this node's own, each
    /// node's in one consecutive range.
    pub fn reserve_all_vars_rec(&mut self, var_manager: &mut BasicVarManager, bound_type: &BoundType)
        requires
            *bound_type == BoundType::UB,
            old(self).maps_wf(),
            old(var_manager).next_idx() + old(self).key_tree().reserve_all_rec_count() <= MAX_VAR_IDX + 1,
        ensures
            final(self).maps_wf(),
            old(self).zero_free() ==> final(self).zero_free(),
            final(self).key_tree() == old(self).key_tree().reserve_all_rec(),
            final(var_manager).next_idx() == old(var_manager).next_idx() + old(self).key_tree().reserve_all_rec_count(),
            old(self).extended_by(*final(self), old(var_manager).next_idx(), final(var_manager).next_idx()),
            final(self).leaves() == old(self).leaves(),
            final(self).depth_of() == old(self).depth_of(),
            old(self).wf() ==> final(self).wf(),
            forall|lo: nat|
                lo <= old(var_manager).next_idx() && #[trigger] fresh_outputs(*old(self), lo, old(var_manager).next_idx())
                    ==> fresh_outputs(*final(self), lo, final(var_manager).next_idx()),
            (*old(self)) is Internal ==> {
                let lc = (*old(self))->left.key_tree().reserve_all_rec_count();
                let rc = (*old(self))->right.key_tree().reserve_all_rec_count();
                let v0 = old(var_manager).next_idx();
                &&& (*final(self)) is Internal
                &&& (*old(self))->left.extended_by(*(*final(self))->left, v0, v0 + lc)
                &&& (*old(self))->right.extended_by(*(*final(self))->right, v0 + lc, v0 + lc + rc)
                &&& fresh_extension(
                    old(self).out_map(),
                    final(self).out_map(),
                    v0 + lc + rc,
                    final(var_manager).next_idx(),
                )
            },
        decreases *old(self),
    {
        let ghost vm0 = var_manager.next_idx();
        let ghost mut vml = vm0;
        match self {
            Node::Leaf { .. } => (),
            Node::Internal { left, right, .. } => {
                // Recursion
                left.reserve_all_vars_rec(var_manager, bound_type);
                proof {
                    vml = var_manager.next_idx();
                }
                right.reserve_all_vars_rec(var_manager, bound_type);
            },
        };
        proof {
            if (*self) is Internal {
                lemma_keys_entries(*(*self)->left);
                lemma_keys_entries(*(*self)->right);
                lemma_keys_entries(*(*old(self))->left);
                lemma_keys_entries(*(*old(self))->right);
                if old(self).zero_free() {
                    lemma_no_zero_key((*(*old(self))->left).key_tree(), 0);
                    lemma_no_zero_key((*(*old(self))->right).key_tree(), 0);
                }
            }
        }
        let ghost mid = *self;
        let ghost vm1 = var_manager.next_idx();
        self.reserve_all_vars(var_manager, bound_type);
        proof {
            if (*self) is Internal {
                let vm2 = var_manager.next_idx();
                lemma_extended_widen(*(*old(self))->left, *mid->left, vm0, vml, vm0, vm2);
                lemma_extended_widen(*(*old(self))->right, *mid->right, vml, vm1, vm0, vm2);
                assert forall|lo: nat| lo <= vm0 && #[trigger] fresh_outputs(*old(self), lo, vm0) implies fresh_outputs(
                    *self,
                    lo,
                    vm2,
                ) by {
                    assert(fresh_outputs(*(*old(self))->left, lo, vm0));
                    lemma_fresh_widen(*(*old(self))->right, lo, vm0, vml);
                    lemma_fresh_children(*old(self), mid, lo, vm0, vml, vm1);
                    lemma_fresh_own_extension(mid, *self, lo, vm1, vm2);
                }
            } else {
                assert(self.out_map().dom().difference(self.out_map().dom()) =~= Set::<usize>::empty());
            }
        }
    }

    /// The maps of weighted literals of the two children; a leaf's map is
    /// built in the given temporary map.
    fn get_child_lit_maps<'a>(
        left: &'a Box<Node>,
        right: &'a Box<Node>,
        tmp_map_1: &'a mut OutLits,
        tmp_map_2: &'a mut OutLits,
    ) -> (maps: (&'a OutLits, &'a OutLits))
        requires
            old(tmp_map_1).wf(),
            old(tmp_map_1).entries().len() == 0,
            old(tmp_map_2).wf(),
            old(tmp_map_2).entries().len() == 0,
            left.maps_wf(),
            right.maps_wf(),
        ensures
            maps.0.wf(),
            maps.0.entries() == left.entries(),
            maps.1.wf(),
            maps.1.entries() == right.entries(),
            final(tmp_map_1).entries() == if (**left) is Leaf {
                left.entries()
            } else {
                Seq::<(usize, Lit)>::empty()
            },
            final(tmp_map_2).entries() == if (**right) is Leaf {
                right.entries()
            } else {
                Seq::<(usize, Lit)>::empty()
            },
    {
        (
            match &**left {
                Node::Leaf { lit, weight } => {
                    tmp_map_1.insert(*weight, *lit);
                    tmp_map_1
                },
                Node::Internal { out_lits, .. } => out_lits,
            },
            match &**right {
                Node::Leaf { lit, weight } => {
                    tmp_map_2.insert(*weight, *lit);
                    tmp_map_2
                },
                Node::Internal { out_lits, .. } => out_lits,
            },
        )
    }
}

/// Implementation of the binary adder tree generalized totalizer encoding.
/// The implementation is incremental.
/// The implementation is recursive.
pub struct GeneralizedTotalizer {
    /// Input literals and weights already in the tree
    in_lits: LitWeights,
    /// Input literals and weights not yet in the tree
    lit_buffer: LitWeights,
    /// The root of the tree, if constructed
    root: Option<Box<Node>>,
    /// The bound type that the totalizer encodes
    bound_type: BoundType,
    /// Whether or not to reserve all variables when constructing the tree
    reserve_vars: bool,
    /// Maximum weight of a leaf, needed for computing how much more than `max_rhs` to encode
    max_leaf_weight: usize,
}


impl GeneralizedTotalizer {
    /// Input literals and weights already in the tree.
    pub closed spec fn in_lits(self) -> LitWeights {
        self.in_lits
    }

    /// Input literals and weights not yet in the tree.
    pub closed spec fn buffer(self) -> LitWeights {
        self.lit_buffer
    }

    /// The root of the tree, if constructed.
    pub closed spec fn root(self) -> Option<Box<Node>> {
        self.root
    }

    /// The bound type that the totalizer encodes.
    pub closed spec fn bound(self) -> BoundType {
        self.bound_type
    }

    /// Whether all variables are reserved when the tree is extended.
    pub closed spec fn reserving(self) -> bool {
        self.reserve_vars
    }

    /// The maximum weight of a leaf.
    pub closed spec fn leaf_weight_max(self) -> usize {
        self.max_leaf_weight
    }

    /// The literal that stands in the tree for the input literal `l`: `l`
    /// itself for upper bounds, its negation for lower bounds.
    pub open spec fn tree_lit(self, l: Lit) -> Lit {
        if self.bound() == BoundType::UB {
            l
        } else {
            l.spec_negate()
        }
    }

    /// The leaves of the tree, if there is one.
    pub open spec fn tree_leaves(self) -> Seq<(Lit, usize)> {
        match self.root() {
            None => Seq::empty(),
            Some(r) => r.leaves(),
        }
    }

    /// Every output literal of the tree is positive with a variable in
    /// `[lo, hi)`, and no two of them share a variable.
    pub open spec fn outputs_fresh(self, lo: nat, hi: nat) -> bool {
        match self.root() {
            None => true,
            Some(r) => fresh_outputs(*r, lo, hi),
        }
    }

    /// No internal node of the tree has a child that hands it weight 0.
    pub open spec fn tree_zero_free(self) -> bool {
        match self.root() {
            None => true,
            Some(r) => r.zero_free(),
        }
    }

    /// The key tree of the tree, if there is one.
    pub open spec fn key_tree(self) -> Option<KeyTree> {
        match self.root() {
            None => None,
            Some(r) => Some(r.key_tree()),
        }
    }

    /// The internal consistency of the totalizer.
    pub open spec fn wf(self) -> bool {
        &&& self.bound() != BoundType::BOTH
        &&& self.in_lits().wf()
        &&& self.buffer().wf()
        &&& forall|i: int| 0 <= i < self.tree_leaves().len() ==> (#[trigger] self.tree_leaves()[i]).1 <= self.leaf_weight_max()
        &&& match self.root() {
            None => self.in_lits().entries().len() == 0,
            Some(r) => {
                &&& r.wf()
                &&& r.maps_wf()
                &&& (*r) is Leaf ==> self.in_lits()@ == map![self.tree_lit(r->lit) => r->weight]
            },
        }
    }

    /// The sum of the weights of the leaves of the tree, if there is one.
    pub open spec fn tree_total(self) -> nat {
        match self.root() {
            None => 0,
            Some(r) => r.max_val_of(),
        }
    }

    /// The depth of the tree: 0 without one.
    pub open spec fn tree_depth(self) -> nat {
        match self.root() {
            None => 0,
            Some(r) => r.depth_of() as nat,
        }
    }

    /// The depth of the tree after extending it up to weight `b`: a balanced
    /// tree over the new leaves joins the old tree as its right child.
    pub open spec fn extended_depth(self, b: usize) -> nat {
        let k = self.new_leaves(b).len();
        if k == 0 {
            self.tree_depth()
        } else {
            match self.root() {
                None => build_depth(k),
                Some(r) => 1 + if r.depth_of() > build_depth(k) {
                    r.depth_of() as nat
                } else {
                    build_depth(k)
                },
            }
        }
    }

    /// Converts an outside bound to a bound on the tree: unchanged for upper
    /// bounds; for lower bounds, whose tree holds the negated literals, the
    /// total weight of the tree's leaves minus the bound, or `Unsat` if the
    /// bound exceeds it; 0 where there is no tree yet, so that every input
    /// literal is forced directly.
    pub open spec fn converted_bound(self, bound: usize) -> Result<usize, EncodingError> {
        if self.bound() == BoundType::UB {
            Ok(bound)
        } else {
            match self.root() {
                None => Ok(0),
                Some(_) => if self.tree_total() >= bound {
                    Ok((self.tree_total() - bound) as usize)
                } else {
                    Err(EncodingError::Unsat)
                },
            }
        }
    }

    /// The bound on the tree up to which `encode` and `encode_change` extend
    /// the tree: the converted `max_rhs`, or 0 if there is none.
    pub open spec fn encoding_bound(self, max_rhs: usize) -> usize {
        match self.converted_bound(max_rhs) {
            Ok(b) => b,
            Err(_) => 0,
        }
    }

    /// The buffered literals that extending the tree up to weight `b` moves
    /// into the tree, in buffer order.
    pub open spec fn moved(self, b: usize) -> Seq<(Lit, usize)> {
        self.buffer().entries().filter(weight_at_most(b))
    }

    /// The new leaves that extending the tree up to weight `b` adds, sorted
    /// by weight.
    pub open spec fn new_leaves(self, b: usize) -> Seq<(Lit, usize)> {
        sort_by_weight(self.moved(b).map_values(|e: (Lit, usize)| (self.tree_lit(e.0), e.1)))
    }

    /// The key tree after extending the tree up to weight `b`.
    pub open spec fn extended_key_tree(self, b: usize) -> Option<KeyTree> {
        let new = self.new_leaves(b);
        if new.len() == 0 {
            self.key_tree()
        } else {
            let sub0 = build_key_tree(weights_of(new));
            let sub = if self.reserving() {
                sub0.reserve_all_rec()
            } else {
                sub0
            };
            match self.key_tree() {
                None => Some(sub),
                Some(t) => {
                    let j = join_key_trees(t, sub);
                    Some(
                        if self.reserving() {
                            j.reserve(j.max_val() as int)
                        } else {
                            j
                        },
                    )
                },
            }
        }
    }

    /// The number of fresh variables that extending the tree up to weight `b`
    /// takes.
    pub open spec fn extend_count(self, b: usize) -> nat {
        let new = self.new_leaves(b);
        if new.len() == 0 || !self.reserving() {
            0
        } else {
            let sub = build_key_tree(weights_of(new));
            sub.reserve_all_rec_count() + match self.key_tree() {
                None => 0,
                Some(t) => {
                    let j = join_key_trees(t, sub.reserve_all_rec());
                    j.reserve_count(j.max_val() as int)
                },
            }
        }
    }

    /// Whether extending the tree up to weight `b` is defined: merging the
    /// weights, the total weight of the leaves and their number stay within
    /// `usize`.
    pub open spec fn extend_ok(self, b: usize) -> bool {
        let new = self.new_leaves(b);
        new.len() > 0 ==> {
            &&& merge_moved_fits(self.in_lits().entries(), self.buffer().entries(), b)
            &&& self.tree_total() + total_weight(new) <= usize::MAX
            &&& self.tree_leaves().len() + new.len() <= usize::MAX
        }
    }


    /// What enforcing the upper bound `ub` on the tree gives: the negations
    /// of the root's output literals of weight in `(ub, ub + max leaf weight]`,
    /// or `NotEncoded` if the tree was not encoded that far.
    pub open spec fn tree_ub_result(self, ub: usize) -> Result<Seq<Lit>, EncodingError> {
        match self.root() {
            None => Ok(Seq::empty()),
            Some(r) => match *r {
                Node::Leaf { .. } => Ok(Seq::empty()),
                Node::Internal { out_lits, max_enc, max_val, .. } => {
                    let top = ub + self.leaf_weight_max();
                    if ub >= max_val {
                        Ok(Seq::empty())
                    } else if max_enc < (if top < max_val {
                        top
                    } else {
                        max_val as int
                    }) {
                        Err(EncodingError::NotEncoded)
                    } else {
                        Ok(negated_in_range(out_lits.entries(), ub as int, top))
                    }
                },
            },
        }
    }

    /// Whether enforcing the upper bound `ub` on the tree stays within
    /// `usize`.
    pub open spec fn tree_ub_ok(self, ub: usize) -> bool {
        match self.root() {
            Some(r) => (*r) is Internal && ub < r->max_val ==> ub + self.leaf_weight_max() <= usize::MAX,
            None => true,
        }
    }

    /// `other` equals `self` but for the buffer.
    pub open spec fn same_but_buffer(self, other: Self) -> bool {
        &&& other.in_lits() == self.in_lits()
        &&& other.root() == self.root()
        &&& other.bound() == self.bound()
        &&& other.reserving() == self.reserving()
        &&& other.leaf_weight_max() == self.leaf_weight_max()
    }

    /// A fresh totalizer for `bound_type`.
    pub open spec fn is_fresh(self, bound_type: BoundType, reserving: bool) -> bool {
        &&& self.wf()
        &&& self.bound() == bound_type
        &&& self.reserving() == reserving
        &&& self.root() is None
        &&& self.in_lits().entries().len() == 0
        &&& self.buffer().entries().len() == 0
        &&& self.leaf_weight_max() == 0
    }

    /// The weight up to which `encode` and `encode_change` encode the tree:
    /// the encoding bound plus the maximum leaf weight after the extension.
    pub open spec fn encode_target(self, max_rhs: usize) -> int {
        self.encoding_bound(max_rhs) + self.extended_leaf_weight_max(self.encoding_bound(max_rhs))
    }

    /// Whether encoding up to `max_rhs` is defined: extending is, the target
    /// weight fits in `usize`, and no internal node of the extended tree has a
    /// child of weight 0.
    pub open spec fn encode_ok(self, max_rhs: usize) -> bool {
        &&& self.extend_ok(self.encoding_bound(max_rhs))
        &&& self.encode_target(max_rhs) <= usize::MAX
        &&& match self.extended_key_tree(self.encoding_bound(max_rhs)) {
            None => true,
            Some(t) => t.zero_free(),
        }
    }

    /// The number of fresh variables that `encode` takes.
    pub open spec fn encode_vars(self, max_rhs: usize) -> nat {
        self.extend_count(self.encoding_bound(max_rhs)) + match self.extended_key_tree(
            self.encoding_bound(max_rhs),
        ) {
            None => 0,
            Some(t) => t.encode_count(self.encode_target(max_rhs)),
        }
    }

    /// The number of fresh variables that `encode_change` takes.
    pub open spec fn encode_change_vars(self, max_rhs: usize) -> nat {
        self.extend_count(self.encoding_bound(max_rhs)) + match self.extended_key_tree(
            self.encoding_bound(max_rhs),
        ) {
            None => 0,
            Some(t) => t.encode_change_count(self.encode_target(max_rhs)),
        }
    }

    /// `new` is `self` with its tree extended up to weight `b`, apart from the
    /// key tree and the output literals, which the encoding step decides.
    pub open spec fn extended_to(self, new: Self, b: usize) -> bool {
        &&& new.wf()
        &&& new.bound() == self.bound()
        &&& new.reserving() == self.reserving()
        &&& new.tree_leaves() == self.tree_leaves() + self.new_leaves(b)
        &&& new.buffer().entries() == self.buffer().entries().filter(weight_above(b))
        &&& new.in_lits().entries() == merge_moved(self.in_lits().entries(), self.buffer().entries(), b)
        &&& new.leaf_weight_max() == self.extended_leaf_weight_max(b)
    }

    /// Whether some buffered literal weighs at most `ub`.
    pub open spec fn buffer_has_weight_at_most(self, ub: usize) -> bool {
        exists|i: int| 0 <= i < self.buffer().entries().len() && (#[trigger] self.buffer().entries()[i]).1 <= ub
    }

    /// The assumptions that enforce the bound `ub` on the tree: the buffered
    /// literals and the literals in the tree that weigh more than `ub` are
    /// assumed false (true if `pos`), followed by the tree's assumptions;
    /// `NotEncoded` if a buffered literal weighs at most `ub`.
    pub open spec fn assumptions_for(self, ub: usize, pos: bool) -> Result<Seq<Lit>, EncodingError> {
        if self.buffer_has_weight_at_most(ub) {
            Err(EncodingError::NotEncoded)
        } else {
            match self.tree_ub_result(ub) {
                Err(e) => Err(e),
                Ok(t) => Ok(
                    lits_of(self.buffer().entries(), !pos) + lits_of(
                        self.in_lits().entries().filter(weight_above(ub)),
                        !pos,
                    ) + t,
                ),
            }
        }
    }

    /// What `enforce_ub(ub)` returns.
    pub open spec fn enforce_ub_result(self, ub: usize) -> Result<Seq<Lit>, EncodingError> {
        if self.bound() == BoundType::LB {
            Err(EncodingError::NoObjectSupport)
        } else {
            self.assumptions_for(ub, false)
        }
    }

    /// What `enforce_lb(lb)` returns.
    pub open spec fn enforce_lb_result(self, lb: usize) -> Result<Seq<Lit>, EncodingError> {
        if self.bound() == BoundType::UB {
            Err(EncodingError::NoObjectSupport)
        } else {
            match self.converted_bound(lb) {
                Err(e) => Err(e),
                Ok(ub) => self.assumptions_for(ub, true),
            }
        }
    }

    /// The tree, if there is one, was encoded from scratch up to `m`.
    pub open spec fn encoded_to(self, m: int) -> bool {
        &&& m <= usize::MAX
        &&& match self.root() {
            None => true,
            Some(r) => key_tree_encoded(r.key_tree(), m) && ((*r) is Internal ==> r->max_enc <= m),
        }
    }

    /// The clauses of the tree encoded up to `m`.
    pub open spec fn tree_clauses(self, m: int) -> Seq<Seq<Lit>> {
        match self.root() {
            None => Seq::empty(),
            Some(r) => r.tree_clauses(m),
        }
    }

    /// The maximum leaf weight after extending the tree up to weight `b`.
    pub open spec fn extended_leaf_weight_max(self, b: usize) -> usize {
        largest_weight(self.moved(b), self.leaf_weight_max())
    }
}

impl GeneralizedTotalizer {
    /// Converts an outside bound to an internal bound on the actual tree. (Only
    /// changes the value if in lower bounding mode.) Might return an
    /// `EncodingError::Unsat` error.
    fn convert_bound(&self, bound: usize) -> (r: Result<usize, EncodingError>)
        ensures
            r == self.converted_bound(bound),
    {
        if self.bound_type == BoundType::UB {
            Ok(bound)
        } else {
            match &self.root {
                None => Ok(0),
                Some(root_node) => match **root_node {
                    Node::Leaf { weight, .. } => {
                        if weight >= bound {
                            Ok(weight - bound)
                        } else {
                            Err(EncodingError::Unsat)
                        }
                    },
                    Node::Internal { max_val, .. } => {
                        if max_val >= bound {
                            Ok(max_val - bound)
                        } else {
                            Err(EncodingError::Unsat)
                        }
                    },
                },
            }
        }
    }

    /// Enforce an upper bound on the internal tree.
    fn enforce_tree_ub(&self, ub: usize) -> (r: Result<Vec<Lit>, EncodingError>)
        requires
            self.wf(),
            self.tree_ub_ok(ub),
        ensures
            match r {
                Ok(v) => self.tree_ub_result(ub) == Ok::<Seq<Lit>, EncodingError>(v@),
                Err(e) => self.tree_ub_result(ub) == Err::<Seq<Lit>, EncodingError>(e),
            },
    {
        match &self.root {
            None => Ok(Vec::new()),
            Some(root_node) => match &**root_node {
                // Assumes that literal is already enforced from wrapper function if it's weight is more than `ub`
                Node::Leaf { .. } => Ok(Vec::new()),
                Node::Internal { out_lits, max_enc: max_rhs, max_val, .. } => {
                    if ub >= *max_val {
                        Ok(Vec::new())
                    } else {
                        let top = ub + self.max_leaf_weight;
                        let limit = if top < *max_val {
                            top
                        } else {
                            *max_val
                        };
                        if *max_rhs < limit {
                            Err(EncodingError::NotEncoded)
                        } else {
                            let ghost es = out_lits.entries();
                            let mut assumps: Vec<Lit> = Vec::new();
                            let mut i: usize = 0;
                            while i < out_lits.len()
                                invariant
                                    out_lits.wf(),
                                    es == out_lits.entries(),
                                    i <= es.len(),
                                    assumps@ == negated_in_range(es.take(i as int), ub as int, top as int),
                                decreases es.len() - i,
                            {
                                let (val, lit) = out_lits.entry(i);
                                proof {
                                    lemma_take_succ(es, i as int);
                                }
                                if ub < val && val <= top {
                                    assumps.push(lit.negate());
                                }
                                i = i + 1;
                            }
                            proof {
                                assert(es.take(es.len() as int) =~= es);
                            }
                            Ok(assumps)
                        }
                    }
                },
            },
        }
    }

    /// Gets the maximum depth of the tree
    pub fn get_depth(&mut self) -> (d: usize)
        ensures
            *final(self) == *old(self),
            d == match old(self).root() {
                None => 0,
                Some(r) => r.depth_of(),
            },
    {
        match &self.root {
            None => 0,
            Some(root_node) => root_node.get_depth(),
        }
    }

    /// A totalizer for `bound_type`; `NoTypeSupport` for `BOTH`.
    pub fn new(bound_type: BoundType) -> (r: Result<Self, EncodingError>)
        ensures
            match r {
                Ok(g) => bound_type != BoundType::BOTH && g.is_fresh(bound_type, false),
                Err(e) => bound_type == BoundType::BOTH && e == EncodingError::NoTypeSupport,
            },
    {
        match bound_type {
            BoundType::BOTH => Err(EncodingError::NoTypeSupport),
            _ => Ok(
                GeneralizedTotalizer {
                    in_lits: LitWeights::new(),
                    lit_buffer: LitWeights::new(),
                    root: None,
                    bound_type,
                    reserve_vars: false,
                    max_leaf_weight: 0,
                },
            ),
        }
    }

    /// A totalizer for `bound_type` that reserves all variables of the tree
    /// when it extends it; `NoTypeSupport` for `BOTH`.
    pub fn new_reserving(bound_type: BoundType) -> (r: Result<Self, EncodingError>)
        ensures
            match r {
                Ok(g) => bound_type != BoundType::BOTH && g.is_fresh(bound_type, true),
                Err(e) => bound_type == BoundType::BOTH && e == EncodingError::NoTypeSupport,
            },
    {
        match bound_type {
            BoundType::BOTH => Err(EncodingError::NoTypeSupport),
            _ => Ok(
                GeneralizedTotalizer {
                    in_lits: LitWeights::new(),
                    lit_buffer: LitWeights::new(),
                    root: None,
                    bound_type,
                    reserve_vars: true,
                    max_leaf_weight: 0,
                },
            ),
        }
    }

    /// Adds weighted literals to the buffer; the weight of a literal that is
    /// buffered already grows by the new weight.
    pub fn add(&mut self, lits: LitWeights)
        requires
            old(self).wf(),
            lits.wf(),
            merge_fits(old(self).buffer().entries(), lits.entries()),
        ensures
            final(self).wf(),
            old(self).same_but_buffer(*final(self)),
            final(self).buffer().entries() == merge_weights(old(self).buffer().entries(), lits.entries()),
    {
        let ghost b0 = self.lit_buffer.entries();
        let ghost le = lits.entries();
        let mut i: usize = 0;
        while i < lits.len()
            invariant
                i <= le.len(),
                lits.wf(),
                lits.entries() == le,
                self.lit_buffer.wf(),
                self.lit_buffer.entries() == merge_weights(b0, le.take(i as int)),
                merge_fits(b0, le),
                self.in_lits == old(self).in_lits,
                self.root == old(self).root,
                self.bound_type == old(self).bound_type,
                self.reserve_vars == old(self).reserve_vars,
                self.max_leaf_weight == old(self).max_leaf_weight,
            decreases le.len() - i,
        {
            let (l, w) = lits.entry(i);
            proof {
                lemma_take_succ(le, i as int);
                lemma_merge_fits_prefix(b0, le, i + 1);
            }
            match self.lit_buffer.get(l) {
                Some(old_w) => self.lit_buffer.insert(l, old_w + w),
                None => self.lit_buffer.insert(l, w),
            };
            i = i + 1;
        }
        proof {
            assert(le.take(le.len() as int) =~= le);
            assert(self.tree_leaves() == old(self).tree_leaves());
            assert(self.bound() == old(self).bound());
            assert(self.root() == old(self).root());
            assert(self.in_lits() == old(self).in_lits());
        }
    }

    /// Extends the tree at the root node with added literals of maximum weight `max_weight`
    fn extend_tree(&mut self, max_weight: usize, var_manager: &mut BasicVarManager)
        requires
            old(self).wf(),
            old(self).extend_ok(max_weight),
            old(var_manager).next_idx() + old(self).extend_count(max_weight) <= MAX_VAR_IDX + 1,
        ensures
            final(self).wf(),
            final(self).bound() == old(self).bound(),
            final(self).reserving() == old(self).reserving(),
            final(self).key_tree() == old(self).extended_key_tree(max_weight),
            final(self).tree_leaves() == old(self).tree_leaves() + old(self).new_leaves(max_weight),
            final(self).buffer().entries() == old(self).buffer().entries().filter(weight_above(max_weight)),
            final(self).in_lits().entries() == merge_moved(
                old(self).in_lits().entries(),
                old(self).buffer().entries(),
                max_weight,
            ),
            final(self).leaf_weight_max() == old(self).extended_leaf_weight_max(max_weight),
            final(var_manager).next_idx() == old(var_manager).next_idx() + old(self).extend_count(max_weight),
            forall|lo: nat|
                lo <= old(var_manager).next_idx() && #[trigger] old(self).outputs_fresh(lo, old(var_manager).next_idx())
                    ==> final(self).outputs_fresh(lo, final(var_manager).next_idx()),
            old(self).new_leaves(max_weight).len() == 0 ==> *final(self) == *old(self),
            old(self).new_leaves(max_weight).len() == 0 || !old(self).reserving() ==> *final(var_manager) == *old(
                var_manager,
            ),
            old(self).new_leaves(max_weight).len() > 0 ==> match old(self).root() {
                None => final(self).root() is Some && final(self).root().unwrap().leaves() == old(self).new_leaves(
                    max_weight,
                ) && final(self).root().unwrap().depth_of() == build_depth(old(self).new_leaves(max_weight).len()),
                Some(r) => {
                    &&& final(self).root() is Some
                    &&& *final(self).root().unwrap() is Internal
                    &&& *final(self).root().unwrap()->left == *r
                    &&& final(self).root().unwrap()->right.leaves() == old(self).new_leaves(max_weight)
                    &&& final(self).root().unwrap().depth_of() == 1 + if r.depth_of() > build_depth(
                        old(self).new_leaves(max_weight).len(),
                    ) {
                        r.depth_of()
                    } else {
                        build_depth(old(self).new_leaves(max_weight).len())
                    }
                },
            },
    {
        let ghost buf = self.lit_buffer.entries();
        let ghost f = |e: (Lit, usize)| (self.tree_lit(e.0), e.1);
        let ghost p = weight_at_most(max_weight);
        proof {
            lemma_sort_by_weight(self.moved(max_weight).map_values(f));
            lemma_max_weight(self.moved(max_weight), self.max_leaf_weight);
        }
        if self.lit_buffer.is_empty() {
            proof {
                assert(buf.filter(p) =~= Seq::<(Lit, usize)>::empty()) by {
                    reveal(Seq::filter);
                }
                lemma_filter_none_moved(buf, max_weight);
                assert(self.tree_leaves() + self.new_leaves(max_weight) =~= self.tree_leaves());
                lemma_merge_moved_filter(self.in_lits.entries(), buf, max_weight);
            }
            return;
        }
        let mut new_lits: Vec<(Lit, usize)> = Vec::new();
        let mut i: usize = 0;
        while i < self.lit_buffer.len()
            invariant
                self.lit_buffer.wf(),
                self.lit_buffer.entries() == buf,
                self.lit_buffer == old(self).lit_buffer,
                self.bound_type == old(self).bound_type,
                self.root == old(self).root,
                self.in_lits == old(self).in_lits,
                self.reserve_vars == old(self).reserve_vars,
                f == (|e: (Lit, usize)| (old(self).tree_lit(e.0), e.1)),
                p == weight_at_most(max_weight),
                i <= buf.len(),
                new_lits@ == buf.take(i as int).filter(p).map_values(f),
                self.max_leaf_weight == largest_weight(buf.take(i as int).filter(p), old(self).max_leaf_weight),
            decreases buf.len() - i,
        {
            let (l, w) = self.lit_buffer.entry(i);
            proof {
                lemma_take_succ(buf, i as int);
                buf.take(i as int).lemma_filter_push((l, w), p);
                assert(buf.take(i + 1) =~= buf.take(i as int).push((l, w)));
            }
            if w <= max_weight {
                if w > self.max_leaf_weight {
                    // Track maximum leaf weight
                    self.max_leaf_weight = w;
                }
                // Negate literals for lower bounding
                let tl = if self.bound_type == BoundType::UB {
                    l
                } else {
                    l.negate()
                };
                new_lits.push((tl, w));
                proof {
                    let t = buf.take(i as int).filter(p);
                    assert(t.push((l, w)).drop_last() =~= t);
                    assert(t.push((l, w)).map_values(f) =~= t.map_values(f).push(f((l, w))));
                }
            }
            i = i + 1;
        }
        proof {
            assert(buf.take(buf.len() as int) =~= buf);
            assert(new_lits@ == self.moved(max_weight).map_values(f));
        }
        if new_lits.len() == 0 {
            proof {
                assert(self.moved(max_weight).len() == 0);
                assert(self.moved(max_weight) =~= Seq::<(Lit, usize)>::empty());
                assert(self.max_leaf_weight == old(self).max_leaf_weight);
                lemma_filter_none_moved(buf, max_weight);
                assert(self.tree_leaves() + self.new_leaves(max_weight) =~= self.tree_leaves());
                lemma_merge_moved_filter(self.in_lits.entries(), buf, max_weight);
            }
            return;
        }
        // Add nodes in sorted fashion to minimize clauses
        let new_lits = sort_by_weight_exec(&new_lits);
        assert(new_lits@ == old(self).new_leaves(max_weight));
        let mut subtree = GeneralizedTotalizer::build_tree(new_lits.as_slice());
        let ghost sub0 = subtree;
        let ghost vm0 = var_manager.next_idx();
        if self.reserve_vars {
            subtree.reserve_all_vars_rec(var_manager, &BoundType::UB);
        }
        let ghost vm1 = var_manager.next_idx();
        proof {
            assert(self.reserve_vars ==> subtree.key_tree() == sub0.key_tree().reserve_all_rec());
            lemma_fresh_empty(sub0, vm0, vm0);
            assert(fresh_outputs(subtree, vm0, vm1));
        }
        let ghost sub1 = subtree;
        let ghost mut joined = sub1;
        self.root = match self.root.take() {
            None => Some(Box::new(subtree)),
            Some(old_root) => {
                let mut new_root = Node::new_internal(*old_root, subtree);
                proof {
                    assert(new_root->out_lits@.dom() =~= Set::<usize>::empty());
                    assert(new_root.key_tree() =~= join_key_trees(old_root.key_tree(), subtree.key_tree()));
                    joined = new_root;
                }
                if self.reserve_vars {
                    new_root.reserve_all_vars(var_manager, &BoundType::UB);
                };
                Some(Box::new(new_root))
            },
        };
        proof {
            let vm2 = var_manager.next_idx();
            assert forall|lo: nat| lo <= vm0 && #[trigger] old(self).outputs_fresh(lo, vm0) implies self.outputs_fresh(
                lo,
                vm2,
            ) by {
                match old(self).root {
                    None => {
                        lemma_fresh_lower(sub1, lo, vm0, vm1);
                    },
                    Some(r) => {
                        lemma_fresh_join(joined, lo, vm0, vm1);
                        if self.reserve_vars {
                            lemma_fresh_own_extension(joined, *self.root.unwrap(), lo, vm1, vm2);
                        }
                    },
                }
            }
        }
        // Update total weights in tree
        let ghost in0 = self.in_lits.entries();
        let ghost root1 = self.root;
        let ghost mlw1 = self.max_leaf_weight;
        let mut i: usize = 0;
        while i < self.lit_buffer.len()
            invariant
                self.root == root1,
                self.max_leaf_weight == mlw1,
                self.bound_type == old(self).bound_type,
                self.reserve_vars == old(self).reserve_vars,
                self.lit_buffer.wf(),
                self.lit_buffer.entries() == buf,
                self.in_lits.wf(),
                self.in_lits.entries() == merge_moved(in0, buf.take(i as int), max_weight),
                merge_moved_fits(in0, buf, max_weight),
                i <= buf.len(),
            decreases buf.len() - i,
        {
            let (l, w) = self.lit_buffer.entry(i);
            proof {
                lemma_take_succ(buf, i as int);
                lemma_merge_moved_fits_prefix(in0, buf, max_weight, i + 1);
            }
            if w <= max_weight {
                match self.in_lits.get(l) {
                    Some(old_w) => self.in_lits.insert(l, old_w + w),
                    None => self.in_lits.insert(l, w),
                };
            }
            i = i + 1;
        }
        proof {
            assert(buf.take(buf.len() as int) =~= buf);
        }
        self.lit_buffer.retain_above(max_weight);
        proof {
            let new = old(self).new_leaves(max_weight);
            let moved = old(self).moved(max_weight);
            let mapped = moved.map_values(f);
            // every leaf weight is bounded by the new maximum
            assert forall|k: int| 0 <= k < self.tree_leaves().len() implies (#[trigger] self.tree_leaves()[k]).1 <= self.leaf_weight_max() by {
                let ol = old(self).tree_leaves();
                if k < ol.len() {
                    assert(self.tree_leaves()[k] == ol[k]);
                } else {
                    assert(self.tree_leaves()[k] == new[k - ol.len()]);
                    assert(mapped.contains(new[k - ol.len()]));
                    let j = choose|j: int| 0 <= j < mapped.len() && mapped[j] == new[k - ol.len()];
                    assert(mapped[j].1 == moved[j].1);
                }
            }
            // a single leaf as root carries the only literal of the tree
            if (*self.root.unwrap()) is Leaf {
                assert(old(self).root is None);
                assert(new.len() == 1);
                assert(mapped.contains(new[0]));
                assert(moved.len() == 1);
                let l = moved[0].0;
                let w = moved[0].1;
                lemma_merge_moved_filter(in0, buf, max_weight);
                assert(in0 =~= Seq::<(Lit, usize)>::empty());
                assert(moved =~= seq![(l, w)]);
                assert(moved.drop_last() =~= Seq::<(Lit, usize)>::empty());
                assert(entries_map(Seq::<(Lit, usize)>::empty()) =~= Map::<Lit, usize>::empty());
                assert(!has_key(Seq::<(Lit, usize)>::empty(), l));
                assert(merge_weights(in0, moved.drop_last()) == in0);
                assert(weight_or_zero(entries_map(in0), l) == 0);
                assert(upsert(in0, l, w) =~= seq![(l, w)]);
                assert(self.in_lits.entries() =~= seq![(l, w)]);
                assert(has_key(seq![(l, w)], l)) by {
                    assert(seq![(l, w)][0].0 == l);
                }
                assert(entries_map(seq![(l, w)]) =~= map![l => w]);
                Lit::lemma_negate(l);
                assert(self.tree_lit(self.root.unwrap()->lit) == l);
            }
        }
    }

    /// Encodes the tree, from scratch, up to the upper bound `max_rhs` for
    /// an upper bounding totalizer, or down to the lower bound `max_rhs` for
    /// a lower bounding one (converted to a bound on the tree, which is 0
    /// while there is no tree); buffered literals of weight up to that bound
    /// join the tree first. `min_rhs` is not used.
    pub fn encode(&mut self, min_rhs: usize, max_rhs: usize, var_manager: &mut BasicVarManager) -> (cnf: CNF)
        requires
            old(self).wf(),
            old(self).encode_ok(max_rhs),
            old(var_manager).next_idx() + old(self).encode_vars(max_rhs) <= MAX_VAR_IDX + 1,
        ensures
            old(self).extended_to(*final(self), old(self).encoding_bound(max_rhs)),
            final(self).key_tree() == match old(self).extended_key_tree(old(self).encoding_bound(max_rhs)) {
                None => None,
                Some(t) => Some(t.encode(old(self).encode_target(max_rhs))),
            },
            final(var_manager).next_idx() == old(var_manager).next_idx() + old(self).encode_vars(max_rhs),
            final(self).encoded_to(old(self).encode_target(max_rhs)),
            final(self).tree_zero_free(),
            forall|lo: nat|
                lo <= old(var_manager).next_idx() && #[trigger] old(self).outputs_fresh(lo, old(var_manager).next_idx())
                    ==> final(self).outputs_fresh(lo, final(var_manager).next_idx()),
            cnf@ == final(self).tree_clauses(old(self).encode_target(max_rhs)),
            old(self).bound() == BoundType::UB ==> final(self).tree_ub_ok(max_rhs) && final(self).enforce_ub_result(
                max_rhs,
            ) is Ok,
            old(self).bound() == BoundType::UB ==> forall|ub: usize|
                ub <= max_rhs ==> final(self).tree_ub_ok(ub) && #[trigger] final(self).enforce_ub_result(ub) is Ok,
            old(self).bound() == BoundType::LB ==> forall|lb: usize|
                match #[trigger] final(self).converted_bound(lb) {
                    Ok(ub) => ub <= old(self).encoding_bound(max_rhs) ==> final(self).tree_ub_ok(ub)
                        && final(self).enforce_lb_result(lb) is Ok,
                    Err(_) => true,
                },
            final(self).tree_depth() == old(self).extended_depth(old(self).encoding_bound(max_rhs)),
            old(self).new_leaves(old(self).encoding_bound(max_rhs)).len() == 0 ==> match old(self).root() {
                None => final(self).root() is None,
                Some(r) => final(self).root() is Some && r.extended_by(
                    *final(self).root().unwrap(),
                    old(var_manager).next_idx(),
                    final(var_manager).next_idx(),
                ),
            },
    {
        let ghost rhs0 = max_rhs;
        let max_rhs = match self.convert_bound(max_rhs) {
            Ok(b) => b,
            Err(_) => 0,
        };
        self.extend_tree(max_rhs, var_manager);
        proof {
            if self.root is Some {
                lemma_zero_free_key_tree(*self.root.unwrap());
            }
        }
        let ghost mid = *self;
        let ghost pre = self.key_tree();
        let cnf = match &mut self.root {
            None => CNF::new(),
            Some(root) => root.encode_rec(max_rhs + self.max_leaf_weight, var_manager, &BoundType::UB),
        };
        proof {
            if pre is Some {
                lemma_encode_encoded(pre.unwrap(), max_rhs + self.max_leaf_weight);
            }
            let be = self.lit_buffer.entries();
            if self.buffer_has_weight_at_most(max_rhs) {
                let i = choose|i: int| 0 <= i < be.len() && (#[trigger] be[i]).1 <= max_rhs;
                old(self).buffer().entries().lemma_filter_pred(weight_above(max_rhs), i);
            }
            let pos = self.bound_type == BoundType::LB;
            assert forall|ub: usize| ub <= max_rhs implies self.tree_ub_ok(ub) && #[trigger] self.assumptions_for(
                ub,
                pos,
            ) is Ok by {
                if self.buffer_has_weight_at_most(ub) {
                    let i = choose|i: int| 0 <= i < be.len() && (#[trigger] be[i]).1 <= ub;
                    old(self).buffer().entries().lemma_filter_pred(weight_above(max_rhs), i);
                }
            }
            if self.bound_type == BoundType::UB {
                assert forall|ub: usize| ub <= rhs0 implies self.tree_ub_ok(ub) && #[trigger] self.enforce_ub_result(
                    ub,
                ) is Ok by {
                    assert(self.assumptions_for(ub, false) is Ok);
                }
            } else {
                assert forall|lb: usize|
                    match #[trigger] self.converted_bound(lb) {
                        Ok(ub) => ub <= max_rhs ==> self.tree_ub_ok(ub) && self.enforce_lb_result(lb) is Ok,
                        Err(_) => true,
                    } by {
                    if let Ok(ub) = self.converted_bound(lb) {
                        if ub <= max_rhs {
                            assert(self.assumptions_for(ub, true) is Ok);
                        }
                    }
                }
            }
        }
        cnf
    }

    /// Encodes the tree incrementally, like `encode`, adding only the clauses
    /// for output weights that were not encoded before.
    pub fn encode_change(&mut self, min_rhs: usize, max_rhs: usize, var_manager: &mut BasicVarManager) -> (cnf: CNF)
        requires
            old(self).wf(),
            old(self).encode_ok(max_rhs),
            old(var_manager).next_idx() + old(self).encode_change_vars(max_rhs) <= MAX_VAR_IDX + 1,
        ensures
            old(self).extended_to(*final(self), old(self).encoding_bound(max_rhs)),
            final(self).key_tree() == match old(self).extended_key_tree(old(self).encoding_bound(max_rhs)) {
                None => None,
                Some(t) => Some(t.encode_change(old(self).encode_target(max_rhs))),
            },
            final(var_manager).next_idx() == old(var_manager).next_idx() + old(self).encode_change_vars(max_rhs),
            forall|lo: nat|
                lo <= old(var_manager).next_idx() && #[trigger] old(self).outputs_fresh(lo, old(var_manager).next_idx())
                    ==> final(self).outputs_fresh(lo, final(var_manager).next_idx()),
            cnf@ == match final(self).root() {
                None => Seq::<Seq<Lit>>::empty(),
                Some(r) => r.change_clauses(
                    old(self).extended_key_tree(old(self).encoding_bound(max_rhs)).unwrap(),
                    old(self).encode_target(max_rhs),
                ),
            },
            old(self).bound() == BoundType::UB ==> forall|ub: usize|
                ub <= max_rhs ==> final(self).tree_ub_ok(ub) && #[trigger] final(self).enforce_ub_result(ub) is Ok,
            old(self).bound() == BoundType::LB ==> forall|lb: usize|
                match #[trigger] final(self).converted_bound(lb) {
                    Ok(ub) => ub <= old(self).encoding_bound(max_rhs) ==> final(self).tree_ub_ok(ub)
                        && final(self).enforce_lb_result(lb) is Ok,
                    Err(_) => true,
                },
            final(self).tree_depth() == old(self).extended_depth(old(self).encoding_bound(max_rhs)),
            final(self).tree_zero_free(),
            old(self).new_leaves(old(self).encoding_bound(max_rhs)).len() == 0 ==> match old(self).root() {
                None => final(self).root() is None,
                Some(r) => final(self).root() is Some && r.extended_by(
                    *final(self).root().unwrap(),
                    old(var_manager).next_idx(),
                    final(var_manager).next_idx(),
                ),
            },
            old(self).new_leaves(old(self).encoding_bound(max_rhs)).len() > 0 ==> match old(self).root() {
                None => final(self).root() is Some,
                Some(r) => final(self).root() is Some && *final(self).root().unwrap() is Internal && r.extended_by(
                    *final(self).root().unwrap()->left,
                    old(var_manager).next_idx(),
                    final(var_manager).next_idx(),
                ),
            },
    {
        let ghost rhs0 = max_rhs;
        let ghost v0 = var_manager.next_idx();
        let max_rhs = match self.convert_bound(max_rhs) {
            Ok(b) => b,
            Err(_) => 0,
        };
        self.extend_tree(max_rhs, var_manager);
        proof {
            if self.root is Some {
                lemma_zero_free_key_tree(*self.root.unwrap());
                lemma_zero_free_change(*self.root.unwrap());
            }
        }
        let ghost mid = *self;
        let ghost vmid = var_manager.next_idx();
        let cnf = match &mut self.root {
            None => CNF::new(),
            Some(root) => root.encode_change_rec(max_rhs + self.max_leaf_weight, var_manager, &BoundType::UB),
        };
        proof {
            if mid.root is Some {
                let mr = *mid.root.unwrap();
                let fr = *self.root.unwrap();
                assert(mr.extended_by(fr, vmid, var_manager.next_idx()));
                if old(self).new_leaves(max_rhs).len() > 0 {
                    if let Some(r) = old(self).root() {
                        assert(*mr->left == *r);
                        lemma_extended_widen(*r, *fr->left, vmid, var_manager.next_idx(), v0, var_manager.next_idx());
                    }
                }
            }
            let be = self.lit_buffer.entries();
            let pos = self.bound_type == BoundType::LB;
            assert forall|ub: usize| ub <= max_rhs implies self.tree_ub_ok(ub) && #[trigger] self.assumptions_for(
                ub,
                pos,
            ) is Ok by {
                if self.buffer_has_weight_at_most(ub) {
                    let i = choose|i: int| 0 <= i < be.len() && (#[trigger] be[i]).1 <= ub;
                    old(self).buffer().entries().lemma_filter_pred(weight_above(max_rhs), i);
                }
            }
            if self.bound_type == BoundType::UB {
                assert forall|ub: usize| ub <= rhs0 implies self.tree_ub_ok(ub) && #[trigger] self.enforce_ub_result(
                    ub,
                ) is Ok by {
                    assert(self.assumptions_for(ub, false) is Ok);
                }
            } else {
                assert forall|lb: usize|
                    match #[trigger] self.converted_bound(lb) {
                        Ok(ub) => ub <= max_rhs ==> self.tree_ub_ok(ub) && self.enforce_lb_result(lb) is Ok,
                        Err(_) => true,
                    } by {
                    if let Ok(ub) = self.converted_bound(lb) {
                        if ub <= max_rhs {
                            assert(self.assumptions_for(ub, true) is Ok);
                        }
                    }
                }
            }
        }
        cnf
    }

    /// The assumptions of `assumptions_for(ub, pos)`.
    fn collect_assumptions(&self, ub: usize, pos: bool) -> (r: Result<Vec<Lit>, EncodingError>)
        requires
            self.wf(),
            !self.buffer_has_weight_at_most(ub) ==> self.tree_ub_ok(ub),
        ensures
            match r {
                Ok(v) => self.assumptions_for(ub, pos) == Ok::<Seq<Lit>, EncodingError>(v@),
                Err(e) => self.assumptions_for(ub, pos) == Err::<Seq<Lit>, EncodingError>(e),
            },
    {
        let mut assumps: Vec<Lit> = Vec::new();
        // Assume literals that have higher weight than `ub`
        assumps.reserve(self.lit_buffer.len());
        let ghost be = self.lit_buffer.entries();
        let mut i: usize = 0;
        while i < self.lit_buffer.len()
            invariant
                self.lit_buffer.wf(),
                be == self.lit_buffer.entries(),
                i <= be.len(),
                forall|j: int| 0 <= j < i ==> (#[trigger] be[j]).1 > ub,
                assumps@ == lits_of(be.take(i as int), !pos),
            decreases be.len() - i,
        {
            let (l, w) = self.lit_buffer.entry(i);
            if w <= ub {
                return Err(EncodingError::NotEncoded);
            }
            if pos {
                assumps.push(l);
            } else {
                assumps.push(l.negate());
            }
            proof {
                lemma_take_succ(be, i as int);
                assert(lits_of(be.take(i + 1), !pos) =~= lits_of(be.take(i as int), !pos).push(assumps@.last()));
            }
            i = i + 1;
        }
        proof {
            assert(be.take(be.len() as int) =~= be);
        }
        let ghost ie = self.in_lits.entries();
        let ghost p = weight_above(ub);
        let ghost base = assumps@;
        let mut i: usize = 0;
        while i < self.in_lits.len()
            invariant
                self.in_lits.wf(),
                ie == self.in_lits.entries(),
                p == weight_above(ub),
                i <= ie.len(),
                assumps@ == base + lits_of(ie.take(i as int).filter(p), !pos),
            decreases ie.len() - i,
        {
            let (l, w) = self.in_lits.entry(i);
            proof {
                lemma_take_succ(ie, i as int);
                ie.take(i as int).lemma_filter_push((l, w), p);
                assert(ie.take(i + 1) =~= ie.take(i as int).push((l, w)));
            }
            if w > ub {
                if pos {
                    assumps.push(l);
                } else {
                    assumps.push(l.negate());
                }
                proof {
                    let t = ie.take(i as int).filter(p);
                    assert(lits_of(t.push((l, w)), !pos) =~= lits_of(t, !pos).push(assumps@.last()));
                }
            }
            i = i + 1;
        }
        proof {
            assert(ie.take(ie.len() as int) =~= ie);
        }
        match self.enforce_tree_ub(ub) {
            Ok(mut tree_assumps) => {
                assumps.append(&mut tree_assumps);
                Ok(assumps)
            },
            Err(e) => Err(e),
        }
    }

    /// Assumptions that enforce the upper bound `ub` on the sum of weights
    /// of the true input literals, once the tree is encoded that far.
    pub fn enforce_ub(&self, ub: usize) -> (r: Result<Vec<Lit>, EncodingError>)
        requires
            self.wf(),
            self.bound() != BoundType::LB && !self.buffer_has_weight_at_most(ub) ==> self.tree_ub_ok(ub),
        ensures
            match r {
                Ok(v) => self.enforce_ub_result(ub) == Ok::<Seq<Lit>, EncodingError>(v@),
                Err(e) => self.enforce_ub_result(ub) == Err::<Seq<Lit>, EncodingError>(e),
            },
    {
        match self.bound_type {
            BoundType::LB => Err(EncodingError::NoObjectSupport),
            _ => self.collect_assumptions(ub, false),
        }
    }

    /// Assumptions that enforce the lower bound `lb` on the sum of weights
    /// of the true input literals, once the tree is encoded that far.
    pub fn enforce_lb(&self, lb: usize) -> (r: Result<Vec<Lit>, EncodingError>)
        requires
            self.wf(),
            self.bound() != BoundType::UB ==> match self.converted_bound(lb) {
                Ok(ub) => !self.buffer_has_weight_at_most(ub) ==> self.tree_ub_ok(ub),
                Err(_) => true,
            },
        ensures
            match r {
                Ok(v) => self.enforce_lb_result(lb) == Ok::<Seq<Lit>, EncodingError>(v@),
                Err(e) => self.enforce_lb_result(lb) == Err::<Seq<Lit>, EncodingError>(e),
            },
    {
        match self.bound_type {
            BoundType::UB => Err(EncodingError::NoObjectSupport),
            _ => {
                let ub = match self.convert_bound(lb) {
                    Ok(ub) => ub,
                    Err(e) => return Err(e),
                };
                self.collect_assumptions(ub, true)
            },
        }
    }

    /// Recursively builds the tree data structure.
    fn build_tree(lits: &[(Lit, usize)]) -> (n: Node)
        requires
            lits@.len() > 0,
            total_weight(lits@) <= usize::MAX,
        ensures
            n.wf(),
            n.maps_wf(),
            n.leaves() == lits@,
            n.key_tree() == build_key_tree(weights_of(lits@)),
            n.max_val_of() == total_weight(lits@),
            n.depth_of() <= lits@.len(),
            n.depth_of() == build_depth(lits@.len()),
            unencoded(n),
            out_vars(n) == Set::<nat>::empty(),
        decreases lits@.len(),
    {
        if lits.len() == 1 {
            proof {
                assert(lits@ =~= seq![lits@[0]]);
                assert(lits@.drop_last() =~= Seq::<(Lit, usize)>::empty());
                assert(total_weight(Seq::<(Lit, usize)>::empty()) == 0);
                assert(total_weight(lits@) == lits@[0].1);
            }
            return Node::new_leaf(lits[0].0, lits[0].1);
        };
        let split = lits.len() / 2;
        proof {
            assert(lits@.subrange(0, split as int) + lits@.subrange(split as int, lits@.len() as int) =~= lits@);
            lemma_total_weight_concat(lits@.subrange(0, split as int), lits@.subrange(split as int, lits@.len() as int));
            crate::encodings::pb::semantics::lemma_total_weight_nonneg(lits@.subrange(0, split as int));
            crate::encodings::pb::semantics::lemma_total_weight_nonneg(lits@.subrange(split as int, lits@.len() as int));
        }
        let left = GeneralizedTotalizer::build_tree(&lits[0..split]);
        let right = GeneralizedTotalizer::build_tree(&lits[split..lits.len()]);
        let n = Node::new_internal(left, right);
        proof {
            let ws = weights_of(lits@);
            assert(weights_of(lits@.subrange(0, split as int)) =~= ws.take(split as int));
            assert(weights_of(lits@.subrange(split as int, lits@.len() as int)) =~= ws.skip(split as int));
            assert(lits@.subrange(0, split as int) + lits@.subrange(split as int, lits@.len() as int) =~= lits@);
            assert(n->out_lits@.dom() =~= Set::<usize>::empty());
            assert(n.key_tree() =~= build_key_tree(ws));
            assert(own_vars(n) =~= Set::<nat>::empty());
            assert(out_vars(n) =~= Set::<nat>::empty());
        }
        n
    }
}


impl GeneralizedTotalizer {
    /// Lower bounds hold: for a totalizer of lower bounds whose tree, if any,
    /// was encoded from scratch up to `m` (as `encode` leaves it), every
    /// assignment that satisfies the tree's clauses and the assumptions that
    /// `enforce_lb(lb)` returns makes every buffered literal true, and the true
    /// input literals (the negations of the tree's leaves, and the buffered
    /// literals) weigh at least `lb`. Without a tree every buffered literal is
    /// forced, which meets `lb` where the buffered literals weigh at least
    /// `lb` in total.
    pub proof fn lemma_enforce_lb_sound(self, m: int, lb: usize, assumps: Seq<Lit>, sigma: spec_fn(nat) -> bool)
        requires
            self.wf(),
            self.bound() == BoundType::LB,
            self.root() is None ==> lb <= total_weight(self.buffer().entries()),
            self.encoded_to(m),
            self.enforce_lb_result(lb) == Ok::<Seq<Lit>, EncodingError>(assumps),
            cnf_sat(sigma, self.tree_clauses(m)),
            forall|i: int| 0 <= i < assumps.len() ==> lit_true(sigma, #[trigger] assumps[i]),
        ensures
            true_weight(negated_lits(self.tree_leaves()), sigma) + true_weight(self.buffer().entries(), sigma) >= lb,
            forall|i: int|
                0 <= i < self.buffer().entries().len() ==> lit_true(sigma, (#[trigger] self.buffer().entries()[i]).0),
    {
        let ub = self.converted_bound(lb)->Ok_0;
        let be = self.buffer().entries();
        let ie = self.in_lits().entries();
        let fe = ie.filter(weight_above(ub));
        let t = self.tree_ub_result(ub)->Ok_0;
        let part1 = lits_of(be, false);
        let part2 = lits_of(fe, false);
        assert(assumps == part1 + part2 + t);
        assert forall|i: int| 0 <= i < be.len() implies lit_true(sigma, (#[trigger] be[i]).0) by {
            assert(assumps[i] == be[i].0);
        }
        crate::encodings::pb::semantics::lemma_true_weight_all_true(be, sigma);
        lemma_true_weight_bounds(be, sigma);
        let leaves = self.tree_leaves();
        lemma_negated_weight(leaves, sigma);
        lemma_true_weight_bounds(leaves, sigma);
        lemma_true_weight_bounds(negated_lits(leaves), sigma);
        match self.root() {
            None => {
                assert(leaves =~= Seq::<(Lit, usize)>::empty());
                assert(negated_lits(leaves) =~= Seq::<(Lit, usize)>::empty());
            },
            Some(r) => {
                lemma_leaves_weight(*r);
                lemma_true_weight_le_total(leaves, sigma);
                match *r {
                    Node::Leaf { lit, weight } => {
                        assert(leaves =~= seq![(lit, weight)]);
                        assert(leaves.drop_last() =~= Seq::<(Lit, usize)>::empty());
                        if weight > ub {
                            let l = lit.spec_negate();
                            Lit::lemma_negate(lit);
                            assert(self.in_lits()@.contains_key(l));
                            let i = choose|i: int| 0 <= i < ie.len() && (#[trigger] ie[i]).0 == l;
                            crate::maps::lemma_entries_map_index(ie, i);
                            assert(ie[i] == (l, weight));
                            ie.lemma_filter_contains(weight_above(ub), i);
                            assert(fe.contains(ie[i]));
                            let k = choose|k: int| 0 <= k < fe.len() && fe[k] == ie[i];
                            assert(part2[k] == l);
                            assert(assumps[part1.len() + k] == part2[k]);
                            let nl = negated_lits(leaves);
                            assert(nl.drop_last() =~= Seq::<(Lit, usize)>::empty());
                            assert(nl.last() == (l, weight));
                        }
                    },
                    Node::Internal { out_lits, max_val, max_enc, .. } => {
                        let d = self.leaf_weight_max();
                        if ub < max_val {
                            let ng = negated_in_range(out_lits.entries(), ub as int, ub + d);
                            assert(t == ng);
                            assert forall|i: int| 0 <= i < ng.len() implies lit_true(sigma, #[trigger] ng[i]) by {
                                assert(assumps[part1.len() + part2.len() + i] == ng[i]);
                            }
                            assert(leaf_weights_at_most(leaves, d as int));
                            lemma_tree_bounds_weight(*r, m, ub as int, d as int, sigma);
                        }
                    },
                }
            },
        }
    }

    /// Upper bounds hold: for a totalizer of upper bounds whose tree was
    /// encoded from scratch up to `m` (as `encode` leaves it), every
    /// assignment that satisfies the tree's clauses and the assumptions that
    /// `enforce_ub(ub)` returns makes every buffered literal false and the
    /// true literals in the tree weigh at most `ub`.
    pub proof fn lemma_enforce_ub_sound(self, m: int, ub: usize, assumps: Seq<Lit>, sigma: spec_fn(nat) -> bool)
        requires
            self.wf(),
            self.bound() == BoundType::UB,
            self.encoded_to(m),
            self.enforce_ub_result(ub) == Ok::<Seq<Lit>, EncodingError>(assumps),
            cnf_sat(sigma, self.tree_clauses(m)),
            forall|i: int| 0 <= i < assumps.len() ==> lit_true(sigma, #[trigger] assumps[i]),
        ensures
            true_weight(self.tree_leaves(), sigma) <= ub,
            forall|i: int|
                0 <= i < self.buffer().entries().len() ==> !lit_true(sigma, (#[trigger] self.buffer().entries()[i]).0),
    {
        let be = self.buffer().entries();
        let ie = self.in_lits().entries();
        let fe = ie.filter(weight_above(ub));
        let t = self.tree_ub_result(ub)->Ok_0;
        let part1 = lits_of(be, true);
        let part2 = lits_of(fe, true);
        assert(assumps == part1 + part2 + t);
        assert forall|i: int| 0 <= i < be.len() implies !lit_true(sigma, (#[trigger] be[i]).0) by {
            assert(assumps[i] == be[i].0.spec_negate());
            Lit::lemma_negate(be[i].0);
        }
        match self.root() {
            None => {
                assert(self.tree_leaves() =~= Seq::<(Lit, usize)>::empty());
            },
            Some(r) => {
                lemma_true_weight_bounds(r.leaves(), sigma);
                lemma_leaves_weight(*r);
                lemma_true_weight_le_total(r.leaves(), sigma);
                match *r {
                    Node::Leaf { lit, weight } => {
                        assert(r.leaves() =~= seq![(lit, weight)]);
                        assert(r.leaves().drop_last() =~= Seq::<(Lit, usize)>::empty());
                        assert(true_weight(Seq::<(Lit, usize)>::empty(), sigma) == 0);
                        assert(true_weight(r.leaves(), sigma) == if lit_true(sigma, lit) { weight as int } else { 0 });
                        if weight > ub && lit_true(sigma, lit) {
                            assert(self.in_lits()@.contains_key(lit));
                            let i = choose|i: int| 0 <= i < ie.len() && (#[trigger] ie[i]).0 == lit;
                            crate::maps::lemma_entries_map_index(ie, i);
                            assert(ie[i] == (lit, weight));
                            ie.lemma_filter_contains(weight_above(ub), i);
                            assert(fe.contains(ie[i]));
                            let k = choose|k: int| 0 <= k < fe.len() && fe[k] == ie[i];
                            assert(part2[k] == lit.spec_negate());
                            assert(assumps[part1.len() + k] == part2[k]);
                            Lit::lemma_negate(lit);
                        }
                    },
                    Node::Internal { out_lits, max_val, max_enc, .. } => {
                        let d = self.leaf_weight_max();
                        if ub < max_val {
                            let ng = negated_in_range(out_lits.entries(), ub as int, ub + d);
                            assert(t == ng);
                            assert forall|i: int| 0 <= i < ng.len() implies lit_true(sigma, #[trigger] ng[i]) by {
                                assert(assumps[part1.len() + part2.len() + i] == ng[i]);
                            }
                            assert(self.tree_leaves() == r.leaves());
                            assert(leaf_weights_at_most(r.leaves(), d as int));
                            lemma_tree_bounds_weight(*r, m, ub as int, d as int, sigma);
                        }
                    },
                }
            },
        }
    }

    /// Upper bounds can be met: for a totalizer of upper bounds whose tree was
    /// encoded from scratch up to `m` (as `encode` leaves it), whose output
    /// literals are positive literals of distinct variables in `[lo, hi)`, and
    /// whose input literals all have variables below `lo`, every assignment
    /// `sigma` under which the literals in the tree weigh at most `ub`, every
    /// buffered literal is false and every literal that the tree holds with a
    /// weight above `ub` is false, agrees below `lo` with an assignment `w`
    /// such that every assignment that agrees with `w` below `hi` satisfies
    /// the tree's clauses and the assumptions that `enforce_ub(ub)` returns.
    pub proof fn lemma_enforce_ub_complete(
        self,
        m: int,
        ub: usize,
        assumps: Seq<Lit>,
        sigma: spec_fn(nat) -> bool,
        lo: nat,
        hi: nat,
    ) -> (w: spec_fn(nat) -> bool)
        requires
            self.wf(),
            self.bound() == BoundType::UB,
            self.encoded_to(m),
            self.tree_zero_free(),
            lo <= hi,
            self.outputs_fresh(lo, hi),
            self.enforce_ub_result(ub) == Ok::<Seq<Lit>, EncodingError>(assumps),
            forall|i: int| 0 <= i < self.tree_leaves().len() ==> (#[trigger] self.tree_leaves()[i]).0.var_index() < lo,
            forall|i: int|
                0 <= i < self.buffer().entries().len() ==> (#[trigger] self.buffer().entries()[i]).0.var_index() < lo,
            forall|i: int|
                0 <= i < self.in_lits().entries().len() ==> (#[trigger] self.in_lits().entries()[i]).0.var_index() < lo,
            true_weight(self.tree_leaves(), sigma) <= ub,
            forall|i: int|
                0 <= i < self.buffer().entries().len() ==> !lit_true(sigma, (#[trigger] self.buffer().entries()[i]).0),
            forall|i: int|
                0 <= i < self.in_lits().entries().len() && (#[trigger] self.in_lits().entries()[i]).1 > ub ==> !lit_true(
                    sigma,
                    self.in_lits().entries()[i].0,
                ),
        ensures
            forall|v: nat| v < lo ==> #[trigger] w(v) == sigma(v),
            forall|w2: spec_fn(nat) -> bool|
                (forall|v: nat| v < hi ==> #[trigger] w2(v) == w(v)) ==> #[trigger] cnf_sat(w2, self.tree_clauses(m)),
            forall|w2: spec_fn(nat) -> bool, i: int|
                (forall|v: nat| v < hi ==> #[trigger] w2(v) == w(v)) && 0 <= i < assumps.len() ==> #[trigger] lit_true(
                    w2,
                    assumps[i],
                ),
    {
        let be = self.buffer().entries();
        let ie = self.in_lits().entries();
        let fe = ie.filter(weight_above(ub));
        let t = self.tree_ub_result(ub)->Ok_0;
        let part1 = lits_of(be, true);
        let part2 = lits_of(fe, true);
        assert(assumps == part1 + part2 + t);
        let w = match self.root() {
            None => sigma,
            Some(r) => witness(*r, sigma),
        };
        if let Some(r) = self.root() {
            assert forall|v: nat| v < lo implies #[trigger] w(v) == sigma(v) by {
                if crate::encodings::pb::fresh::out_vars(*r).contains(v) {
                    lemma_fresh_range(*r, lo, hi, v);
                }
                lemma_witness_keeps(*r, sigma, v);
            }
            lemma_witness_tracks(*r, sigma, lo, hi);
        }
        assert forall|w2: spec_fn(nat) -> bool|
            (forall|v: nat| v < hi ==> #[trigger] w2(v) == w(v)) implies #[trigger] cnf_sat(w2, self.tree_clauses(m)) by {
            if let Some(r) = self.root() {
                assert forall|v: nat| (crate::encodings::pb::fresh::out_vars(*r).contains(v) || v < lo) implies #[trigger] w(v)
                    == w2(v) by {
                    if crate::encodings::pb::fresh::out_vars(*r).contains(v) {
                        lemma_fresh_range(*r, lo, hi, v);
                    }
                }
                lemma_track_transfer(*r, w, w2, sigma, lo);
                lemma_track_sat(*r, w2, sigma, m);
            }
        }
        assert forall|w2: spec_fn(nat) -> bool, i: int|
            (forall|v: nat| v < hi ==> #[trigger] w2(v) == w(v)) && 0 <= i < assumps.len() implies #[trigger] lit_true(
            w2,
            assumps[i],
        ) by {
            {
                if i < part1.len() {
                    assert(assumps[i] == be[i].0.spec_negate());
                    Lit::lemma_negate(be[i].0);
                    assert(w2(be[i].0.var_index()) == sigma(be[i].0.var_index()));
                } else if i < part1.len() + part2.len() {
                    let k = i - part1.len();
                    assert(assumps[i] == fe[k].0.spec_negate());
                    Lit::lemma_negate(fe[k].0);
                    ie.lemma_filter_pred(weight_above(ub), k);
                    assert(fe.contains(fe[k]));
                    ie.lemma_filter_contains_rev(weight_above(ub), fe[k]);
                    let q = choose|q: int| 0 <= q < ie.len() && ie[q] == fe[k];
                    assert(ie[q].0.var_index() < lo);
                    assert(w2(fe[k].0.var_index()) == sigma(fe[k].0.var_index()));
                } else {
                    let j = i - part1.len() - part2.len();
                    assert(assumps[i] == t[j]);
                    let r = self.root().unwrap();
                    let out = r->out_lits;
                    let es = out.entries();
                    let ng = negated_in_range(es, ub as int, ub + self.leaf_weight_max());
                    assert(t == ng);
                    let q = lemma_negated_in_range_from(es, ub as int, ub + self.leaf_weight_max(), j);
                    crate::maps::OutLits::lemma_sorted_distinct(es);
                    crate::maps::lemma_entries_map_index(es, q);
                    Lit::lemma_negate(es[q].1);
                    assert(out@.contains_key(es[q].0));
                    assert forall|v: nat| (crate::encodings::pb::fresh::out_vars(*r).contains(v) || v < lo) implies #[trigger] w(
                        v,
                    ) == w2(v) by {
                        if crate::encodings::pb::fresh::out_vars(*r).contains(v) {
                            lemma_fresh_range(*r, lo, hi, v);
                        }
                    }
                    lemma_track_transfer(*r, w, w2, sigma, lo);
                    assert(outputs_track(*r, w2, sigma));
                }
            }
        }
        w
    }

    /// Lower bounds can be met: for a totalizer of lower bounds whose tree was
    /// encoded from scratch up to `m` (as `encode` leaves it), whose output
    /// literals are positive literals of distinct variables in `[lo, hi)`, and
    /// whose input literals all have variables below `lo`, where `lb` converts
    /// to the bound `ub` on the tree (whose leaves are the negated input
    /// literals), every assignment `sigma` under which the leaves of the tree
    /// weigh at most `ub`, every buffered literal is true and every literal
    /// that the tree holds with a weight above `ub` is true, agrees below `lo`
    /// with an assignment `w` such that every assignment that agrees with `w`
    /// below `hi` satisfies the tree's clauses and the assumptions that
    /// `enforce_lb(lb)` returns.
    pub proof fn lemma_enforce_lb_complete(
        self,
        m: int,
        lb: usize,
        ub: usize,
        assumps: Seq<Lit>,
        sigma: spec_fn(nat) -> bool,
        lo: nat,
        hi: nat,
    ) -> (w: spec_fn(nat) -> bool)
        requires
            self.wf(),
            self.bound() == BoundType::LB,
            self.converted_bound(lb) == Ok::<usize, EncodingError>(ub),
            self.encoded_to(m),
            self.tree_zero_free(),
            lo <= hi,
            self.outputs_fresh(lo, hi),
            self.enforce_lb_result(lb) == Ok::<Seq<Lit>, EncodingError>(assumps),
            forall|i: int| 0 <= i < self.tree_leaves().len() ==> (#[trigger] self.tree_leaves()[i]).0.var_index() < lo,
            forall|i: int|
                0 <= i < self.buffer().entries().len() ==> (#[trigger] self.buffer().entries()[i]).0.var_index() < lo,
            forall|i: int|
                0 <= i < self.in_lits().entries().len() ==> (#[trigger] self.in_lits().entries()[i]).0.var_index() < lo,
            true_weight(self.tree_leaves(), sigma) <= ub,
            forall|i: int|
                0 <= i < self.buffer().entries().len() ==> lit_true(sigma, (#[trigger] self.buffer().entries()[i]).0),
            forall|i: int|
                0 <= i < self.in_lits().entries().len() && (#[trigger] self.in_lits().entries()[i]).1 > ub ==> lit_true(
                    sigma,
                    self.in_lits().entries()[i].0,
                ),
        ensures
            forall|v: nat| v < lo ==> #[trigger] w(v) == sigma(v),
            forall|w2: spec_fn(nat) -> bool|
                (forall|v: nat| v < hi ==> #[trigger] w2(v) == w(v)) ==> #[trigger] cnf_sat(w2, self.tree_clauses(m)),
            forall|w2: spec_fn(nat) -> bool, i: int|
                (forall|v: nat| v < hi ==> #[trigger] w2(v) == w(v)) && 0 <= i < assumps.len() ==> #[trigger] lit_true(
                    w2,
                    assumps[i],
                ),
    {
        let be = self.buffer().entries();
        let ie = self.in_lits().entries();
        let fe = ie.filter(weight_above(ub));
        let t = self.tree_ub_result(ub)->Ok_0;
        let part1 = lits_of(be, false);
        let part2 = lits_of(fe, false);
        assert(assumps == part1 + part2 + t);
        let w = match self.root() {
            None => sigma,
            Some(r) => witness(*r, sigma),
        };
        if let Some(r) = self.root() {
            assert forall|v: nat| v < lo implies #[trigger] w(v) == sigma(v) by {
                if crate::encodings::pb::fresh::out_vars(*r).contains(v) {
                    lemma_fresh_range(*r, lo, hi, v);
                }
                lemma_witness_keeps(*r, sigma, v);
            }
            lemma_witness_tracks(*r, sigma, lo, hi);
        }
        assert forall|w2: spec_fn(nat) -> bool|
            (forall|v: nat| v < hi ==> #[trigger] w2(v) == w(v)) implies #[trigger] cnf_sat(w2, self.tree_clauses(m)) by {
            if let Some(r) = self.root() {
                assert forall|v: nat| (crate::encodings::pb::fresh::out_vars(*r).contains(v) || v < lo) implies #[trigger] w(v)
                    == w2(v) by {
                    if crate::encodings::pb::fresh::out_vars(*r).contains(v) {
                        lemma_fresh_range(*r, lo, hi, v);
                    }
                }
                lemma_track_transfer(*r, w, w2, sigma, lo);
                lemma_track_sat(*r, w2, sigma, m);
            }
        }
        assert forall|w2: spec_fn(nat) -> bool, i: int|
            (forall|v: nat| v < hi ==> #[trigger] w2(v) == w(v)) && 0 <= i < assumps.len() implies #[trigger] lit_true(
            w2,
            assumps[i],
        ) by {
            {
                if i < part1.len() {
                    assert(assumps[i] == be[i].0);
                    assert(w2(be[i].0.var_index()) == sigma(be[i].0.var_index()));
                } else if i < part1.len() + part2.len() {
                    let k = i - part1.len();
                    assert(assumps[i] == fe[k].0);
                    ie.lemma_filter_pred(weight_above(ub), k);
                    assert(fe.contains(fe[k]));
                    ie.lemma_filter_contains_rev(weight_above(ub), fe[k]);
                    let q = choose|q: int| 0 <= q < ie.len() && ie[q] == fe[k];
                    assert(ie[q].0.var_index() < lo);
                    assert(w2(fe[k].0.var_index()) == sigma(fe[k].0.var_index()));
                } else {
                    let j = i - part1.len() - part2.len();
                    assert(assumps[i] == t[j]);
                    let r = self.root().unwrap();
                    let out = r->out_lits;
                    let es = out.entries();
                    let ng = negated_in_range(es, ub as int, ub + self.leaf_weight_max());
                    assert(t == ng);
                    let q = lemma_negated_in_range_from(es, ub as int, ub + self.leaf_weight_max(), j);
                    crate::maps::OutLits::lemma_sorted_distinct(es);
                    crate::maps::lemma_entries_map_index(es, q);
                    Lit::lemma_negate(es[q].1);
                    assert(out@.contains_key(es[q].0));
                    assert forall|v: nat| (crate::encodings::pb::fresh::out_vars(*r).contains(v) || v < lo) implies #[trigger] w(
                        v,
                    ) == w2(v) by {
                        if crate::encodings::pb::fresh::out_vars(*r).contains(v) {
                            lemma_fresh_range(*r, lo, hi, v);
                        }
                    }
                    lemma_track_transfer(*r, w, w2, sigma, lo);
                    assert(outputs_track(*r, w2, sigma));
                }
            }
        }
        w
    }
}

} // verus!
