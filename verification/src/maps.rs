//! Small maps stored as sequences of entries: the weighted output literals of
//! a totalizer node, kept sorted by weight, and the weights of input literals,
//! kept in the order they were first inserted.

use vstd::prelude::*;
use crate::types::Lit;

verus! {

/// Whether some entry of `s` has key `k`.
pub open spec fn has_key<K, V>(s: Seq<(K, V)>, k: K) -> bool {
    exists|i: int| 0 <= i < s.len() && (#[trigger] s[i]).0 == k
}

/// The map that a sequence of entries with pairwise distinct keys stands for.
pub open spec fn entries_map<K, V>(s: Seq<(K, V)>) -> Map<K, V> {
    Map::new(
        |k: K| has_key(s, k),
        |k: K| s[choose|i: int| 0 <= i < s.len() && (#[trigger] s[i]).0 == k].1,
    )
}

/// Whether the keys of `s` are pairwise distinct.
pub open spec fn distinct_keys<K, V>(s: Seq<(K, V)>) -> bool {
    forall|i: int, j: int| 0 <= i < s.len() && 0 <= j < s.len() && i != j ==> (#[trigger] s[i]).0 != (#[trigger] s[j]).0
}

/// Whether the keys of `s` increase strictly.
pub open spec fn sorted_keys<V>(s: Seq<(usize, V)>) -> bool {
    forall|i: int, j: int| 0 <= i < j < s.len() ==> (#[trigger] s[i]).0 < (#[trigger] s[j]).0
}

/// With distinct keys, the map holds each entry.
pub proof fn lemma_entries_map_index<K, V>(s: Seq<(K, V)>, i: int)
    requires
        distinct_keys(s),
        0 <= i < s.len(),
    ensures
        entries_map(s).contains_key(s[i].0),
        entries_map(s)[s[i].0] == s[i].1,
{
    let k = s[i].0;
    assert(has_key(s, k));
    let j = choose|j: int| 0 <= j < s.len() && (#[trigger] s[j]).0 == k;
    assert(j == i);
}

/// With distinct keys, the map has as many keys as the sequence has entries.
pub proof fn lemma_entries_map_len<K, V>(s: Seq<(K, V)>)
    requires
        distinct_keys(s),
    ensures
        entries_map(s).dom().finite(),
        entries_map(s).dom().len() == s.len(),
    decreases s.len(),
{
    if s.len() == 0 {
        assert(entries_map(s).dom() =~= Set::<K>::empty());
    } else {
        let t = s.drop_last();
        assert(distinct_keys(t));
        lemma_entries_map_len(t);
        let k = s.last().0;
        assert(entries_map(s).dom() =~= entries_map(t).dom().insert(k)) by {
            assert forall|x: K| entries_map(s).dom().contains(x) implies entries_map(t).dom().insert(k).contains(x) by {
                let i = choose|i: int| 0 <= i < s.len() && (#[trigger] s[i]).0 == x;
                if i < t.len() {
                    assert(t[i].0 == x);
                }
            }
            assert forall|x: K| entries_map(t).dom().insert(k).contains(x) implies entries_map(s).dom().contains(x) by {
                if x != k {
                    let i = choose|i: int| 0 <= i < t.len() && (#[trigger] t[i]).0 == x;
                    assert(s[i].0 == x);
                } else {
                    assert(s[s.len() - 1].0 == x);
                }
            }
        }
        assert(!entries_map(t).dom().contains(k)) by {
            if entries_map(t).dom().contains(k) {
                let i = choose|i: int| 0 <= i < t.len() && (#[trigger] t[i]).0 == k;
                assert(s[i].0 == s[s.len() - 1].0);
            }
        }
    }
}

/// The output literals of a totalizer node, by the weight they stand for.
#[derive(Debug)]
pub struct OutLits {
    entries: Vec<(usize, Lit)>,
}

impl View for OutLits {
    type V = Map<usize, Lit>;

    open spec fn view(&self) -> Map<usize, Lit> {
        entries_map(self.entries())
    }
}

impl OutLits {
    /// The entries, sorted by weight.
    pub closed spec fn entries(&self) -> Seq<(usize, Lit)> {
        self.entries@
    }

    /// The entries are sorted by strictly increasing weight.
    pub open spec fn wf(&self) -> bool {
        sorted_keys(self.entries())
    }

    /// Sorted keys are distinct.
    pub proof fn lemma_sorted_distinct<V>(s: Seq<(usize, V)>)
        requires
            sorted_keys(s),
        ensures
            distinct_keys(s),
    {
        assert forall|i: int, j: int| 0 <= i < s.len() && 0 <= j < s.len() && i != j implies (#[trigger] s[i]).0 != (#[trigger] s[j]).0 by {
            if i < j {
                assert(s[i].0 < s[j].0);
            } else {
                assert(s[j].0 < s[i].0);
            }
        }
    }

    /// An empty map.
    pub fn new() -> (m: OutLits)
        ensures
            m.wf(),
            m.entries() == Seq::<(usize, Lit)>::empty(),
            m@ == Map::<usize, Lit>::empty(),
    {
        let m = OutLits { entries: Vec::new() };
        assert(m@ =~= Map::<usize, Lit>::empty());
        m
    }

    /// The number of entries.
    pub fn len(&self) -> (n: usize)
        requires
            self.wf(),
        ensures
            n == self.entries().len(),
            n == self@.dom().len(),
    {
        proof {
            OutLits::lemma_sorted_distinct(self.entries());
            lemma_entries_map_len(self.entries());
        }
        self.entries.len()
    }

    /// Whether there is no entry.
    pub fn is_empty(&self) -> (b: bool)
        ensures
            b == (self.entries().len() == 0),
    {
        self.entries.len() == 0
    }

    /// The entry at position `i`.
    pub fn entry(&self, i: usize) -> (e: (usize, Lit))
        requires
            i < self.entries().len(),
        ensures
            e == self.entries()[i as int],
    {
        self.entries[i]
    }

    /// The position of the first entry whose weight is at least `k`.
    fn position(&self, k: usize) -> (p: usize)
        requires
            self.wf(),
        ensures
            p <= self.entries().len(),
            forall|i: int| 0 <= i < p ==> (#[trigger] self.entries()[i]).0 < k,
            forall|i: int| p <= i < self.entries().len() ==> (#[trigger] self.entries()[i]).0 >= k,
    {
        let mut lo: usize = 0;
        let mut hi: usize = self.entries.len();
        while lo < hi
            invariant
                self.wf(),
                lo <= hi <= self.entries().len(),
                forall|i: int| 0 <= i < lo ==> (#[trigger] self.entries()[i]).0 < k,
                forall|i: int| hi <= i < self.entries().len() ==> (#[trigger] self.entries()[i]).0 >= k,
            decreases hi - lo,
        {
            let mid = lo + (hi - lo) / 2;
            if self.entries[mid].0 < k {
                assert forall|i: int| 0 <= i <= mid implies (#[trigger] self.entries()[i]).0 < k by {
                    if i < mid {
                        assert(self.entries()[i].0 < self.entries()[mid as int].0);
                    }
                }
                lo = mid + 1;
            } else {
                assert forall|i: int| mid <= i < self.entries().len() implies (#[trigger] self.entries()[i]).0 >= k by {
                    if i > mid {
                        assert(self.entries()[mid as int].0 < self.entries()[i].0);
                    }
                }
                hi = mid;
            }
        }
        lo
    }

    /// The literal of weight `k`, if there is one.
    pub fn get(&self, k: usize) -> (r: Option<Lit>)
        requires
            self.wf(),
        ensures
            r is Some <==> self@.contains_key(k),
            r is Some ==> r->0 == self@[k],
    {
        let p = self.position(k);
        proof {
            OutLits::lemma_sorted_distinct(self.entries());
        }
        if p < self.entries.len() && self.entries[p].0 == k {
            proof {
                lemma_entries_map_index(self.entries(), p as int);
            }
            Some(self.entries[p].1)
        } else {
            proof {
                if self@.contains_key(k) {
                    let i = choose|i: int| 0 <= i < self.entries().len() && (#[trigger] self.entries()[i]).0 == k;
                    if i > p {
                        assert(self.entries()[p as int].0 < self.entries()[i].0);
                    }
                }
            }
            None
        }
    }

    /// Whether there is a literal of weight `k`.
    pub fn contains_key(&self, k: usize) -> (b: bool)
        requires
            self.wf(),
        ensures
            b == self@.contains_key(k),
    {
        self.get(k).is_some()
    }

    /// Sets the literal of weight `k` to `l`.
    pub fn insert(&mut self, k: usize, l: Lit)
        requires
            old(self).wf(),
        ensures
            final(self).wf(),
            final(self)@ == old(self)@.insert(k, l),
            old(self).entries().len() == 0 ==> final(self).entries() == seq![(k, l)],
    {
        let p = self.position(k);
        let ghost s = self.entries();
        if p < self.entries.len() && self.entries[p].0 == k {
            self.entries.set(p, (k, l));
            proof {
                let t = self.entries();
                assert(t =~= s.update(p as int, (k, l)));
                assert(sorted_keys(t)) by {
                    assert forall|i: int, j: int| 0 <= i < j < t.len() implies (#[trigger] t[i]).0 < (#[trigger] t[j]).0 by {
                        assert(s[i].0 < s[j].0);
                    }
                }
                OutLits::lemma_sorted_distinct(s);
                OutLits::lemma_sorted_distinct(t);
                lemma_entries_map_update(s, p as int, (k, l));
            }
        } else {
            self.entries.insert(p, (k, l));
            proof {
                let t = self.entries();
                assert(t =~= s.insert(p as int, (k, l)));
                if s.len() == 0 {
                    assert(t =~= seq![(k, l)]);
                }
                assert(sorted_keys(t)) by {
                    assert forall|i: int, j: int| 0 <= i < j < t.len() implies (#[trigger] t[i]).0 < (#[trigger] t[j]).0 by {
                        if j < p {
                            assert(s[i].0 < s[j].0);
                        } else if j == p {
                            assert(s[i].0 < k);
                        } else if i == p {
                            assert(s[j - 1].0 >= k);
                            assert(s[j - 1].0 != k) by {
                                if j - 1 > p {
                                    assert(s[p as int].0 < s[j - 1].0);
                                }
                            }
                        } else if i < p {
                            assert(s[i].0 < s[j - 1].0);
                        } else {
                            assert(s[i - 1].0 < s[j - 1].0);
                        }
                    }
                }
                OutLits::lemma_sorted_distinct(s);
                OutLits::lemma_sorted_distinct(t);
                assert(!has_key(s, k)) by {
                    if has_key(s, k) {
                        let i = choose|i: int| 0 <= i < s.len() && (#[trigger] s[i]).0 == k;
                        if i > p {
                            assert(s[p as int].0 < s[i].0);
                        }
                    }
                }
                lemma_entries_map_insert(s, p as int, (k, l));
            }
        }
    }
}

/// Replacing the entry at `p` by one with the same key updates the map.
pub proof fn lemma_entries_map_update<K, V>(s: Seq<(K, V)>, p: int, e: (K, V))
    requires
        distinct_keys(s),
        distinct_keys(s.update(p, e)),
        0 <= p < s.len(),
        s[p].0 == e.0,
    ensures
        entries_map(s.update(p, e)) == entries_map(s).insert(e.0, e.1),
{
    let t = s.update(p, e);
    assert forall|x: K| entries_map(t).dom().contains(x) <==> entries_map(s).insert(e.0, e.1).dom().contains(x) by {
        if has_key(t, x) {
            let i = choose|i: int| 0 <= i < t.len() && (#[trigger] t[i]).0 == x;
            if i != p {
                assert(s[i].0 == x);
            }
        }
        if has_key(s, x) {
            let i = choose|i: int| 0 <= i < s.len() && (#[trigger] s[i]).0 == x;
            assert(t[i].0 == x);
        }
        if x == e.0 {
            assert(t[p].0 == x);
        }
    }
    assert forall|x: K| entries_map(t).dom().contains(x) implies entries_map(t)[x] == entries_map(s).insert(e.0, e.1)[x] by {
        let i = choose|i: int| 0 <= i < t.len() && (#[trigger] t[i]).0 == x;
        lemma_entries_map_index(t, i);
        if i != p {
            assert(s[i] == t[i]);
            lemma_entries_map_index(s, i);
        }
    }
    assert(entries_map(t) =~= entries_map(s).insert(e.0, e.1));
}

/// Inserting an entry with a new key at `p` inserts it into the map.
pub proof fn lemma_entries_map_insert<K, V>(s: Seq<(K, V)>, p: int, e: (K, V))
    requires
        distinct_keys(s),
        distinct_keys(s.insert(p, e)),
        0 <= p <= s.len(),
        !has_key(s, e.0),
    ensures
        entries_map(s.insert(p, e)) == entries_map(s).insert(e.0, e.1),
{
    let t = s.insert(p, e);
    assert forall|x: K| entries_map(t).dom().contains(x) <==> entries_map(s).insert(e.0, e.1).dom().contains(x) by {
        if has_key(t, x) {
            let i = choose|i: int| 0 <= i < t.len() && (#[trigger] t[i]).0 == x;
            if i < p {
                assert(s[i].0 == x);
            } else if i > p {
                assert(s[i - 1].0 == x);
            }
        }
        if has_key(s, x) {
            let i = choose|i: int| 0 <= i < s.len() && (#[trigger] s[i]).0 == x;
            if i < p {
                assert(t[i].0 == x);
            } else {
                assert(t[i + 1].0 == x);
            }
        }
        if x == e.0 {
            assert(t[p].0 == x);
        }
    }
    assert forall|x: K| entries_map(t).dom().contains(x) implies entries_map(t)[x] == entries_map(s).insert(e.0, e.1)[x] by {
        let i = choose|i: int| 0 <= i < t.len() && (#[trigger] t[i]).0 == x;
        lemma_entries_map_index(t, i);
        if i < p {
            assert(s[i] == t[i]);
            lemma_entries_map_index(s, i);
        } else if i > p {
            assert(s[i - 1] == t[i]);
            lemma_entries_map_index(s, i - 1);
        }
    }
    assert(entries_map(t) =~= entries_map(s).insert(e.0, e.1));
}

} // verus!

verus! {

/// `s` with the entry of `k` set to `(k, v)`: in place if `k` has an entry,
/// appended otherwise.
pub open spec fn upsert<K, V>(s: Seq<(K, V)>, k: K, v: V) -> Seq<(K, V)> {
    if has_key(s, k) {
        s.update(choose|i: int| 0 <= i < s.len() && (#[trigger] s[i]).0 == k, (k, v))
    } else {
        s.push((k, v))
    }
}

/// Entries sorted by strictly increasing key are determined by their map.
pub proof fn lemma_sorted_same_map<V>(s: Seq<(usize, V)>, t: Seq<(usize, V)>)
    requires
        sorted_keys(s),
        sorted_keys(t),
        entries_map(s) == entries_map(t),
    ensures
        s == t,
    decreases s.len(),
{
    OutLits::lemma_sorted_distinct(s);
    OutLits::lemma_sorted_distinct(t);
    lemma_entries_map_len(s);
    lemma_entries_map_len(t);
    if s.len() == 0 {
        assert(s =~= t);
    } else {
        let n = s.len() as int;
        let ks = s[n - 1].0;
        let kt = t[n - 1].0;
        lemma_entries_map_index(s, n - 1);
        lemma_entries_map_index(t, n - 1);
        assert(has_key(t, ks));
        let j = choose|j: int| 0 <= j < t.len() && (#[trigger] t[j]).0 == ks;
        assert(has_key(s, kt));
        let i = choose|i: int| 0 <= i < s.len() && (#[trigger] s[i]).0 == kt;
        if j < n - 1 {
            assert(t[j].0 < t[n - 1].0);
        }
        if i < n - 1 {
            assert(s[i].0 < s[n - 1].0);
        }
        assert(ks == kt);
        assert(s[n - 1] == t[n - 1]);
        let sd = s.drop_last();
        let td = t.drop_last();
        assert forall|k: usize| entries_map(sd).contains_key(k) <==> entries_map(td).contains_key(k) by {
            if has_key(sd, k) {
                let a = choose|a: int| 0 <= a < sd.len() && (#[trigger] sd[a]).0 == k;
                assert(s[a].0 == k);
                assert(has_key(s, k));
                assert(entries_map(s).contains_key(k));
                assert(has_key(t, k));
                let b = choose|b: int| 0 <= b < t.len() && (#[trigger] t[b]).0 == k;
                assert(s[a].0 < s[n - 1].0);
                if b == n - 1 {
                    assert(false);
                }
                assert(td[b].0 == k);
            }
            if has_key(td, k) {
                let a = choose|a: int| 0 <= a < td.len() && (#[trigger] td[a]).0 == k;
                assert(t[a].0 == k);
                assert(has_key(t, k));
                assert(entries_map(t).contains_key(k));
                assert(has_key(s, k));
                let b = choose|b: int| 0 <= b < s.len() && (#[trigger] s[b]).0 == k;
                assert(t[a].0 < t[n - 1].0);
                if b == n - 1 {
                    assert(false);
                }
                assert(sd[b].0 == k);
            }
        }
        assert(sorted_keys(sd));
        assert(sorted_keys(td));
        OutLits::lemma_sorted_distinct(sd);
        OutLits::lemma_sorted_distinct(td);
        assert forall|k: usize| #[trigger] entries_map(sd).contains_key(k) implies entries_map(sd)[k] == entries_map(
            td,
        )[k] by {
            let a = choose|a: int| 0 <= a < sd.len() && (#[trigger] sd[a]).0 == k;
            let b = choose|b: int| 0 <= b < td.len() && (#[trigger] td[b]).0 == k;
            lemma_entries_map_index(sd, a);
            lemma_entries_map_index(td, b);
            lemma_entries_map_index(s, a);
            lemma_entries_map_index(t, b);
        }
        assert(entries_map(sd) =~= entries_map(td));
        lemma_sorted_same_map(sd, td);
        assert(s =~= sd.push(s[n - 1]));
        assert(t =~= td.push(t[n - 1]));
    }
}

/// Setting the entry of a key keeps the keys distinct.
pub proof fn lemma_upsert_distinct<K, V>(s: Seq<(K, V)>, k: K, v: V)
    requires
        distinct_keys(s),
    ensures
        distinct_keys(upsert(s, k, v)),
{
    let t = upsert(s, k, v);
    if has_key(s, k) {
        let p = choose|i: int| 0 <= i < s.len() && (#[trigger] s[i]).0 == k;
        assert forall|i: int, j: int| 0 <= i < t.len() && 0 <= j < t.len() && i != j implies (#[trigger] t[i]).0
            != (#[trigger] t[j]).0 by {
            assert(s[i].0 != s[j].0);
        }
    } else {
        assert forall|i: int, j: int| 0 <= i < t.len() && 0 <= j < t.len() && i != j implies (#[trigger] t[i]).0
            != (#[trigger] t[j]).0 by {
            if i < s.len() && j < s.len() {
                assert(s[i].0 != s[j].0);
            } else if i < s.len() {
                assert(s[i].0 != k);
            } else if j < s.len() {
                assert(s[j].0 != k);
            }
        }
    }
}

/// The value of `k` in `m`, or 0.
pub open spec fn weight_or_zero<K>(m: Map<K, usize>, k: K) -> nat {
    if m.contains_key(k) {
        m[k] as nat
    } else {
        0
    }
}

/// Whether an entry's weight is at most `bound`.
pub open spec fn weight_at_most(bound: usize) -> spec_fn((Lit, usize)) -> bool {
    |e: (Lit, usize)| e.1 <= bound
}

/// Whether an entry's weight is above `bound`.
pub open spec fn weight_above(bound: usize) -> spec_fn((Lit, usize)) -> bool {
    |e: (Lit, usize)| e.1 > bound
}

/// Weights of literals, kept in the order in which the literals were first
/// inserted.
#[derive(Debug)]
pub struct LitWeights {
    entries: Vec<(Lit, usize)>,
}

impl View for LitWeights {
    type V = Map<Lit, usize>;

    open spec fn view(&self) -> Map<Lit, usize> {
        entries_map(self.entries())
    }
}

impl LitWeights {
    /// The entries, in insertion order.
    pub closed spec fn entries(&self) -> Seq<(Lit, usize)> {
        self.entries@
    }

    /// No literal occurs twice.
    pub open spec fn wf(&self) -> bool {
        distinct_keys(self.entries())
    }

    /// An empty map.
    pub fn new() -> (m: LitWeights)
        ensures
            m.wf(),
            m.entries() == Seq::<(Lit, usize)>::empty(),
            m@ == Map::<Lit, usize>::empty(),
    {
        let m = LitWeights { entries: Vec::new() };
        assert(m@ =~= Map::<Lit, usize>::empty());
        m
    }

    /// The number of entries.
    pub fn len(&self) -> (n: usize)
        requires
            self.wf(),
        ensures
            n == self.entries().len(),
            n == self@.dom().len(),
    {
        proof {
            lemma_entries_map_len(self.entries());
        }
        self.entries.len()
    }

    /// Whether there is no entry.
    pub fn is_empty(&self) -> (b: bool)
        ensures
            b == (self.entries().len() == 0),
    {
        self.entries.len() == 0
    }

    /// The entry at position `i`.
    pub fn entry(&self, i: usize) -> (e: (Lit, usize))
        requires
            i < self.entries().len(),
        ensures
            e == self.entries()[i as int],
    {
        self.entries[i]
    }

    /// The position of the entry of `l`, if there is one.
    fn position(&self, l: Lit) -> (r: Option<usize>)
        ensures
            match r {
                Some(p) => p < self.entries().len() && self.entries()[p as int].0 == l,
                None => !has_key(self.entries(), l),
            },
    {
        let mut i: usize = 0;
        while i < self.entries.len()
            invariant
                i <= self.entries().len(),
                forall|j: int| 0 <= j < i ==> (#[trigger] self.entries()[j]).0 != l,
            decreases self.entries().len() - i,
        {
            if self.entries[i].0 == l {
                return Some(i);
            }
            i = i + 1;
        }
        None
    }

    /// The weight of `l`, if it has one.
    pub fn get(&self, l: Lit) -> (r: Option<usize>)
        requires
            self.wf(),
        ensures
            r is Some <==> self@.contains_key(l),
            r is Some ==> r->0 == self@[l],
    {
        match self.position(l) {
            Some(p) => {
                proof {
                    lemma_entries_map_index(self.entries(), p as int);
                }
                Some(self.entries[p].1)
            },
            None => None,
        }
    }

    /// Sets the weight of `l` to `w`; a new literal goes last.
    pub fn insert(&mut self, l: Lit, w: usize)
        requires
            old(self).wf(),
        ensures
            final(self).wf(),
            final(self)@ == old(self)@.insert(l, w),
            final(self).entries() == upsert(old(self).entries(), l, w),
    {
        let ghost s = self.entries();
        match self.position(l) {
            Some(p) => {
                self.entries.set(p, (l, w));
                proof {
                    let q = choose|i: int| 0 <= i < s.len() && (#[trigger] s[i]).0 == l;
                    assert(q == p);
                    let t = self.entries();
                    assert(t =~= s.update(p as int, (l, w)));
                    assert(distinct_keys(t)) by {
                        assert forall|i: int, j: int| 0 <= i < t.len() && 0 <= j < t.len() && i != j implies (#[trigger] t[i]).0 != (#[trigger] t[j]).0 by {
                            assert(s[i].0 != s[j].0);
                        }
                    }
                    lemma_entries_map_update(s, p as int, (l, w));
                }
            },
            None => {
                self.entries.push((l, w));
                proof {
                    let t = self.entries();
                    assert(t =~= s.insert(s.len() as int, (l, w)));
                    assert(distinct_keys(t)) by {
                        assert forall|i: int, j: int| 0 <= i < t.len() && 0 <= j < t.len() && i != j implies (#[trigger] t[i]).0 != (#[trigger] t[j]).0 by {
                            if i < s.len() && j < s.len() {
                                assert(s[i].0 != s[j].0);
                            } else if i < s.len() {
                                assert(s[i].0 != l);
                            } else {
                                assert(s[j].0 != l);
                            }
                        }
                    }
                    lemma_entries_map_insert(s, s.len() as int, (l, w));
                }
            },
        }
    }

    /// Keeps the entries whose weight is above `bound`, in their order.
    pub fn retain_above(&mut self, bound: usize)
        requires
            old(self).wf(),
        ensures
            final(self).wf(),
            final(self).entries() == old(self).entries().filter(weight_above(bound)),
            final(self)@ == old(self)@.restrict(old(self)@.dom().filter(|k: Lit| old(self)@[k] > bound)),
    {
        let ghost s = self.entries();
        let ghost f = weight_above(bound);
        let mut kept: Vec<(Lit, usize)> = Vec::new();
        let mut i: usize = 0;
        while i < self.entries.len()
            invariant
                i <= s.len(),
                self.entries() == s,
                f == weight_above(bound),
                distinct_keys(s),
                kept@ == s.take(i as int).filter(f),
                distinct_keys(kept@),
                forall|a: int| 0 <= a < kept@.len() ==> exists|b: int| 0 <= b < i && s[b] == #[trigger] kept@[a],
            decreases s.len() - i,
        {
            let e = self.entries[i];
            proof {
                assert(s.take(i + 1) =~= s.take(i as int).push(e));
                s.take(i as int).lemma_filter_push(e, f);
                assert(f(e) == (e.1 > bound));
            }
            if e.1 > bound {
                let ghost k0 = kept@;
                kept.push(e);
                proof {
                    assert forall|a: int, b: int| 0 <= a < kept@.len() && 0 <= b < kept@.len() && a != b implies (#[trigger] kept@[a]).0 != (#[trigger] kept@[b]).0 by {
                        if a < k0.len() && b < k0.len() {
                        } else if a < k0.len() {
                            let x = choose|x: int| 0 <= x < i && s[x] == #[trigger] k0[a];
                            assert(s[x].0 != s[i as int].0);
                        } else {
                            let x = choose|x: int| 0 <= x < i && s[x] == #[trigger] k0[b];
                            assert(s[x].0 != s[i as int].0);
                        }
                    }
                    assert(kept@ == s.take(i + 1).filter(f));
                    assert forall|a: int| 0 <= a < kept@.len() implies exists|b: int| 0 <= b < i + 1 && s[b] == #[trigger] kept@[a] by {
                        if a < k0.len() {
                            let x = choose|x: int| 0 <= x < i && s[x] == #[trigger] k0[a];
                            assert(s[x] == kept@[a]);
                        } else {
                            assert(s[i as int] == kept@[a]);
                        }
                    }
                }
            }
            i = i + 1;
        }
        proof {
            assert(s.take(s.len() as int) =~= s);
        }
        self.entries = kept;
        proof {
            let t = self.entries();
            let m = entries_map(s);
            let r = m.restrict(m.dom().filter(|k: Lit| m[k] > bound));
            assert forall|x: Lit| entries_map(t).dom().contains(x) <==> r.dom().contains(x) by {
                if has_key(t, x) {
                    let a = choose|a: int| 0 <= a < t.len() && (#[trigger] t[a]).0 == x;
                    let b = choose|b: int| 0 <= b < s.len() && s[b] == #[trigger] t[a];
                    lemma_entries_map_index(s, b);
                    s.lemma_filter_pred(f, a);
                    assert(f(t[a]));
                }
                if r.dom().contains(x) {
                    let b = choose|b: int| 0 <= b < s.len() && (#[trigger] s[b]).0 == x;
                    lemma_entries_map_index(s, b);
                    assert(f(s[b]));
                    s.lemma_filter_contains(f, b);
                    assert(t.contains(s[b]));
                    let a = choose|a: int| 0 <= a < t.len() && t[a] == s[b];
                    assert(t[a].0 == x);
                }
            }
            assert forall|x: Lit| entries_map(t).dom().contains(x) implies entries_map(t)[x] == r[x] by {
                let a = choose|a: int| 0 <= a < t.len() && (#[trigger] t[a]).0 == x;
                lemma_entries_map_index(t, a);
                let b = choose|b: int| 0 <= b < s.len() && s[b] == #[trigger] t[a];
                lemma_entries_map_index(s, b);
            }
            assert(entries_map(t) =~= r);
        }
    }
}

} // verus!
