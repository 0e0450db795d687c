//! Group sums kept up to date as changes arrive.
//!
//! For each key the state holds the running sum of value times multiplicity; a key whose sum
//! returns to zero is dropped. The output is the set of pairs of a key and its sum.

use vstd::prelude::*;

use crate::change::{Change, Diff};
use crate::collection::{
    Collection, add_to, applies_in_range, apply_all, changes_view, count_of, keys_distinct,
    lemma_applies_prefix, lemma_apply_all_push, lemma_changes_view_push, lemma_keys_distinct_push, lemma_nonzero_add, lemma_seq_to_map_facts,
    lemma_seq_to_map_push, lemma_seq_to_map_update, nonzero, seq_to_map,
};
use crate::operators::{fn_total, implements, is_function};
use crate::tuple::{Tuple, TupleOrd};

verus! {

/// State for tracking a group sum incrementally: for each key, its running sum.
pub struct GroupSumState<K: Tuple> {
    sums: Vec<(K, i64)>,
}

/// Each key with its sum, as a pair, once.
pub open spec fn sum_pairs<K>(m: Map<K, int>) -> Map<(K, i64), int> {
    Map::new(|p: (K, i64)| m.contains_key(p.0) && m[p.0] == p.1, |p: (K, i64)| 1int)
}

/// The weighted changes of the entries: the key `gk` gives to each entry's tuple, with the
/// value `gv` gives times the multiplicity.
pub open spec fn weighted<X, K>(e: Seq<(X, int)>, gk: spec_fn(X) -> K, gv: spec_fn(X) -> i64) -> Seq<(K, int)> {
    Seq::new(e.len(), |i: int| (gk(e[i].0), gv(e[i].0) * e[i].1))
}

/// The changes to the `(key, sum)` pairs when `d` is added to the sum of `k` in `m`: the old
/// pair retracted and the new one asserted, each only where its sum is not zero; nothing for a
/// zero change.
pub open spec fn sum_step_changes<K>(m: Map<K, int>, k: K, d: int) -> Seq<((K, i64), int)> {
    if d == 0 {
        Seq::empty()
    } else {
        let o = count_of(m, k);
        let n = o + d;
        (if o != 0 { seq![((k, o as i64), -1int)] } else { Seq::empty() }) + (if n != 0 {
            seq![((k, n as i64), 1int)]
        } else {
            Seq::empty()
        })
    }
}

/// The changes to the `(key, sum)` pairs as the weighted changes `ws` are added, in order, to
/// the sums `m`.
pub open spec fn sum_output<K>(m: Map<K, int>, ws: Seq<(K, int)>) -> Seq<((K, i64), int)>
    decreases ws.len(),
{
    if ws.len() == 0 {
        Seq::empty()
    } else {
        sum_output(m, ws.drop_last()) + sum_step_changes(nonzero(apply_all(m, ws.drop_last())), ws.last().0, ws.last().1)
    }
}

/// Every product of a value and a multiplicity fits in `i64`.
pub open spec fn products_fit<X>(e: Seq<(X, int)>, gv: spec_fn(X) -> i64) -> bool {
    forall|i: int| 0 <= i < e.len() ==> i64::MIN <= #[trigger] (gv(e[i].0) * e[i].1) <= i64::MAX
}

/// A map without zero entries is its own non-zero part.
pub proof fn lemma_nonzero_idem<K>(m: Map<K, int>)
    ensures
        nonzero(nonzero(m)) == nonzero(m),
{
    assert(nonzero(nonzero(m)) =~= nonzero(m));
}

impl<K: Tuple> GroupSumState<K> {
    /// The stored keys and sums, in storage order.
    pub closed spec fn entries(&self) -> Seq<(K::V, int)> {
        self.sums@.map_values(|e: (K, i64)| (e.0@, e.1 as int))
    }

    #[verifier::type_invariant]
    spec fn inv(&self) -> bool {
        &&& keys_distinct(self.entries())
        &&& forall|i: int| 0 <= i < self.entries().len() ==> #[trigger] self.entries()[i].1 != 0
    }

    pub fn new() -> (r: Self)
        ensures
            r@ == Map::<K::V, int>::empty(),
    {
        let r = GroupSumState { sums: Vec::new() };
        assert(r.entries() =~= Seq::<(K::V, int)>::empty());
        r
    }

    fn find(&self, key: &K) -> (r: Option<usize>)
        ensures
            match r {
                Some(i) => i < self.entries().len() && self.entries()[i as int].0 == key@,
                None => forall|i: int| 0 <= i < self.entries().len() ==> self.entries()[i].0 != key@,
            },
    {
        let mut i: usize = 0;
        while i < self.sums.len()
            invariant
                i <= self.sums@.len(),
                self.entries().len() == self.sums@.len(),
                forall|j: int| 0 <= j < self.sums@.len() ==> self.entries()[j] == (self.sums@[j].0@, self.sums@[j].1 as int),
                forall|j: int| 0 <= j < i ==> self.entries()[j].0 != key@,
            decreases self.sums@.len() - i,
        {
            if self.sums[i].0.tuple_eq(key) {
                return Some(i);
            }
            i = i + 1;
        }
        None
    }

    /// The stored sums are non-zero and fit in `i64`.
    fn view_facts(&self)
        ensures
            nonzero(self@) == self@,
            forall|x: K::V| i64::MIN <= #[trigger] count_of(self@, x) <= i64::MAX,
    {
        proof {
            use_type_invariant(self);
            let e = self.entries();
            lemma_seq_to_map_facts(e);
            assert forall|x: K::V| i64::MIN <= #[trigger] count_of(self@, x) <= i64::MAX by {
                if self@.contains_key(x) {
                    let j = choose|j: int| 0 <= j < e.len() && e[j].0 == x;
                    assert(e[j] == (self.sums@[j].0@, self.sums@[j].1 as int));
                }
            }
            assert forall|x: K::V| #[trigger] self@.contains_key(x) implies self@[x] != 0 by {
                let j = choose|j: int| 0 <= j < e.len() && e[j].0 == x;
                assert(e[j].1 != 0);
            }
            assert(nonzero(self@) =~= self@);
        }
    }

    /// The sum of `key`, zero where it has none.
    pub(crate) fn sum_of(&self, key: &K) -> (r: i64)
        ensures
            r == count_of(self@, key@),
    {
        proof {
            use_type_invariant(self);
            lemma_seq_to_map_facts(self.entries());
        }
        match self.find(key) {
            Some(i) => {
                assert(self.entries()[i as int] == (self.sums@[i as int].0@, self.sums@[i as int].1 as int));
                self.sums[i].1
            },
            None => {
                proof {
                    if self@.contains_key(key@) {
                        let j = choose|j: int| 0 <= j < self.entries().len() && self.entries()[j].0 == key@;
                    }
                }
                0
            },
        }
    }

    /// Add `value` times `diff` to the sum of `key`, dropping the key if its sum becomes
    /// zero. Returns the old and the new sum if they differ.
    pub fn apply_change(&mut self, key: K, value: i64, diff: Diff) -> (r: Option<(i64, i64)>)
        requires
            i64::MIN <= value * diff.0 <= i64::MAX,
            i64::MIN <= count_of(old(self)@, key@) + value * diff.0 <= i64::MAX,
        ensures
            final(self)@ == nonzero(add_to(old(self)@, key@, value * diff.0)),
            match r {
                Some((o, n)) => value * diff.0 != 0 && o == count_of(old(self)@, key@) && n == o + value * diff.0,
                None => value * diff.0 == 0,
            },
    {
        proof {
            use_type_invariant(&*self);
            lemma_seq_to_map_facts(self.entries());
        }
        let ghost before = self.entries();
        let delta = value * diff.0;
        let found = self.find(&key);
        let old_sum = match found {
            Some(i) => self.sums[i].1,
            None => 0,
        };
        proof {
            match found {
                Some(i) => {
                    assert(self.entries()[i as int] == (self.sums@[i as int].0@, self.sums@[i as int].1 as int));
                },
                None => {
                    assert(!self@.contains_key(key@)) by {
                        if self@.contains_key(key@) {
                            let j = choose|j: int| 0 <= j < before.len() && before[j].0 == key@;
                        }
                    }
                },
            }
        }
        assert(old_sum == count_of(self@, key@));
        let new_sum = old_sum + delta;
        let mut sums: Vec<(K, i64)> = Vec::new();
        std::mem::swap(&mut sums, &mut self.sums);
        assert(before =~= sums@.map_values(|e: (K, i64)| (e.0@, e.1 as int)));
        match found {
            Some(i) => {
                if new_sum == 0 {
                    let ghost removed = sums@.remove(i as int);
                    sums.remove(i);
                    proof {
                        let re = removed.map_values(|e: (K, i64)| (e.0@, e.1 as int));
                        assert(re =~= before.remove(i as int));
                        assert(keys_distinct(re));
                        lemma_seq_to_map_facts(re);
                        assert(seq_to_map(re) =~= nonzero(add_to(seq_to_map(before), key@, delta as int))) by {
                            assert forall|k: K::V| #[trigger] seq_to_map(re).contains_key(k) <==> nonzero(add_to(seq_to_map(before), key@, delta as int)).contains_key(k) by {
                                let after = add_to(seq_to_map(before), key@, delta as int);
                                assert(nonzero(after).contains_key(k) == (after.contains_key(k) && after[k] != 0));
                                if seq_to_map(re).contains_key(k) {
                                    let j = choose|j: int| 0 <= j < re.len() && re[j].0 == k;
                                    let jj = if j < i { j } else { j + 1 };
                                    assert(re[j] == before[jj]);
                                    assert(jj != i);
                                    assert(before[jj].0 != before[i as int].0);
                                    assert(before[jj].1 != 0);
                                    assert(seq_to_map(before).contains_key(before[jj].0));
                                    assert(after[k] == before[jj].1);
                                }
                                if nonzero(after).contains_key(k) {
                                    assert(k != key@);
                                    assert(seq_to_map(before).contains_key(k));
                                    let j = choose|j: int| 0 <= j < before.len() && before[j].0 == k;
                                    assert(j != i);
                                    if j < i {
                                        assert(re[j] == before[j]);
                                        assert(seq_to_map(re).contains_key(re[j].0));
                                    } else {
                                        assert(re[j - 1] == before[j]);
                                        assert(seq_to_map(re).contains_key(re[j - 1].0));
                                    }
                                }
                            }
                            assert forall|k: K::V| #[trigger] seq_to_map(re).contains_key(k) implies seq_to_map(re)[k] == nonzero(add_to(seq_to_map(before), key@, delta as int))[k] by {
                                let j = choose|j: int| 0 <= j < re.len() && re[j].0 == k;
                                if j < i {
                                    assert(re[j] == before[j]);
                                } else {
                                    assert(re[j] == before[j + 1]);
                                }
                            }
                        }
                    }
                } else {
                    sums.set(i, (key, new_sum));
                    proof {
                        let se = sums@.map_values(|e: (K, i64)| (e.0@, e.1 as int));
                        assert(se =~= before.update(i as int, (key@, new_sum as int)));
                        lemma_seq_to_map_update(before, i as int, new_sum as int);
                        assert(seq_to_map(se) =~= nonzero(add_to(seq_to_map(before), key@, delta as int))) by {
                            lemma_seq_to_map_facts(se);
                            assert forall|k: K::V| #[trigger] seq_to_map(se).contains_key(k) <==> nonzero(add_to(seq_to_map(before), key@, delta as int)).contains_key(k) by {
                                if seq_to_map(se).contains_key(k) && k != key@ {
                                    let j = choose|j: int| 0 <= j < se.len() && se[j].0 == k;
                                    assert(se[j] == before[j]);
                                }
                            }
                        }
                    }
                }
            },
            None => {
                if new_sum != 0 {
                    sums.push((key, new_sum));
                    proof {
                        let se = sums@.map_values(|e: (K, i64)| (e.0@, e.1 as int));
                        assert(se =~= before.push((key@, new_sum as int)));
                        lemma_keys_distinct_push(before, (key@, new_sum as int));
                        lemma_seq_to_map_push(before, (key@, new_sum as int));
                        assert(seq_to_map(se) =~= nonzero(add_to(seq_to_map(before), key@, delta as int)));
                    }
                } else {
                    proof {
                        assert(seq_to_map(before) =~= nonzero(add_to(seq_to_map(before), key@, delta as int)));
                    }
                }
            },
        }
        self.sums = sums;
        if old_sum != new_sum {
            Some((old_sum, new_sum))
        } else {
            None
        }
    }

    /// The pairs of each key and its sum.
    pub fn to_multiset(&self) -> (r: Collection<(K, i64)>)
        ensures
            r@ == sum_pairs(self@),
    {
        proof {
            use_type_invariant(self);
            lemma_seq_to_map_facts(self.entries());
        }
        let ghost e = self.entries();
        let mut r: Collection<(K, i64)> = Collection::new();
        let mut i: usize = 0;
        while i < self.sums.len()
            invariant
                i <= self.sums@.len(),
                e == self.entries(),
                e.len() == self.sums@.len(),
                keys_distinct(e),
                forall|j: int| 0 <= j < self.sums@.len() ==> e[j] == (self.sums@[j].0@, self.sums@[j].1 as int),
                forall|p: (K::V, i64)| #[trigger] r@.contains_key(p) <==> exists|j: int| 0 <= j < i && e[j].0 == p.0 && e[j].1 == p.1,
                forall|p: (K::V, i64)| #[trigger] r@.contains_key(p) ==> r@[p] == 1,
            decreases self.sums@.len() - i,
        {
            let p = (self.sums[i].0.tuple_clone(), self.sums[i].1);
            proof {
                if r@.contains_key(p@) {
                    let j = choose|j: int| 0 <= j < i && e[j].0 == p@.0 && e[j].1 == p@.1;
                    assert(e[j].0 == e[i as int].0);
                }
            }
            let ghost before_r = r@;
            assert(p@.0 == e[i as int].0 && p@.1 == e[i as int].1);
            r.insert(p);
            proof {
                assert forall|q: (K::V, i64)| #[trigger] r@.contains_key(q) <==> exists|j: int| 0 <= j < i + 1 && e[j].0 == q.0 && e[j].1 == q.1 by {
                    if q == p@ {
                        assert(e[i as int].0 == q.0 && e[i as int].1 == q.1);
                    } else {
                        assert(r@.contains_key(q) == before_r.contains_key(q));
                    }
                    if exists|j: int| 0 <= j < i + 1 && e[j].0 == q.0 && e[j].1 == q.1 {
                        let j = choose|j: int| 0 <= j < i + 1 && e[j].0 == q.0 && e[j].1 == q.1;
                        if j < i {
                            assert(exists|jj: int| 0 <= jj < i && e[jj].0 == q.0 && e[jj].1 == q.1);
                        }
                    }
                }
            }
            i = i + 1;
        }
        proof {
            assert forall|p: (K::V, i64)| #[trigger] r@.contains_key(p) <==> sum_pairs(self@).contains_key(p) by {
                if r@.contains_key(p) {
                    let j = choose|j: int| 0 <= j < e.len() && e[j].0 == p.0 && e[j].1 == p.1;
                }
                if sum_pairs(self@).contains_key(p) {
                    let j = choose|j: int| 0 <= j < e.len() && e[j].0 == p.0;
                    assert(seq_to_map(e).contains_key(e[j].0));
                    assert(exists|jj: int| 0 <= jj < e.len() && e[jj].0 == p.0 && e[jj].1 == p.1);
                }
            }
            assert(r@ =~= sum_pairs(self@));
        }
        r
    }
}

/// `w` beats `v`: it is greater, or with `reverse`, less.
pub open spec fn beats<V: TupleOrd>(w: V::V, v: V::V, reverse: bool) -> bool {
    if reverse {
        V::spec_lt(w, v)
    } else {
        V::spec_lt(v, w)
    }
}

/// `v` is a key of `m` that no key of `m` beats.
pub open spec fn is_best<V: TupleOrd>(m: Map<V::V, int>, v: V::V, reverse: bool) -> bool {
    m.contains_key(v) && forall|w: V::V| #[trigger] m.contains_key(w) ==> !beats::<V>(w, v, reverse)
}

/// The greatest key of `m` (with `reverse`, the least), if it has one.
pub open spec fn best_key<V: TupleOrd>(m: Map<V::V, int>, reverse: bool) -> Option<V::V> {
    if exists|v: V::V| is_best::<V>(m, v, reverse) {
        Some(choose|v: V::V| is_best::<V>(m, v, reverse))
    } else {
        None
    }
}

/// A map has at most one best key.
pub proof fn lemma_best_unique<V: TupleOrd>(m: Map<V::V, int>, v: V::V, reverse: bool)
    requires
        is_best::<V>(m, v, reverse),
    ensures
        best_key::<V>(m, reverse) == Some(v),
{
    let c = choose|x: V::V| is_best::<V>(m, x, reverse);
    V::lemma_order(v, c, v);
    V::lemma_order(c, v, c);
}

impl<V: TupleOrd> GroupSumState<V> {
    /// Whether no key has a non-zero sum.
    pub(crate) fn is_empty(&self) -> (r: bool)
        ensures
            r == (self@ == Map::<V::V, int>::empty()),
    {
        proof {
            use_type_invariant(self);
            lemma_seq_to_map_facts(self.entries());
            if self.sums@.len() > 0 {
                assert(self@.contains_key(self.entries()[0].0));
            } else {
                assert(self.entries() =~= Seq::<(V::V, int)>::empty());
            }
        }
        self.sums.len() == 0
    }

    /// The greatest key (with `reverse`, the least), if there is one.
    pub(crate) fn best(&self, reverse: bool) -> (r: Option<V>)
        ensures
            match r {
                Some(v) => best_key::<V>(self@, reverse) == Some(v@),
                None => self@ == Map::<V::V, int>::empty(),
            },
    {
        proof {
            use_type_invariant(self);
            lemma_seq_to_map_facts(self.entries());
        }
        let ghost e = self.entries();
        if self.sums.len() == 0 {
            proof {
                assert(e =~= Seq::<(V::V, int)>::empty());
                assert(self@ =~= Map::<V::V, int>::empty());
            }
            return None;
        }
        let mut b: usize = 0;
        let mut i: usize = 1;
        proof {
            V::lemma_order(e[0].0, e[0].0, e[0].0);
        }
        while i < self.sums.len()
            invariant
                e == self.entries(),
                e.len() == self.sums@.len(),
                forall|j: int| 0 <= j < self.sums@.len() ==> e[j] == (self.sums@[j].0@, self.sums@[j].1 as int),
                b < i <= self.sums@.len(),
                forall|j: int| 0 <= j < i ==> !beats::<V>(#[trigger] e[j].0, e[b as int].0, reverse),
            decreases self.sums@.len() - i,
        {
            let better = if reverse {
                self.sums[i].0.tuple_lt(&self.sums[b].0)
            } else {
                self.sums[b].0.tuple_lt(&self.sums[i].0)
            };
            if better {
                proof {
                    assert forall|j: int| 0 <= j < i + 1 implies !beats::<V>(#[trigger] e[j].0, e[i as int].0, reverse) by {
                        V::lemma_order(e[b as int].0, e[i as int].0, e[j].0);
                        V::lemma_order(e[j].0, e[i as int].0, e[b as int].0);
                        V::lemma_order(e[i as int].0, e[i as int].0, e[i as int].0);
                    }
                }
                b = i;
            }
            i = i + 1;
        }
        proof {
            let v = e[b as int].0;
            assert(self@.contains_key(v));
            assert forall|w: V::V| #[trigger] self@.contains_key(w) implies !beats::<V>(w, v, reverse) by {
                let j = choose|j: int| 0 <= j < e.len() && e[j].0 == w;
            }
            lemma_best_unique::<V>(self@, v, reverse);
        }
        Some(self.sums[b].0.tuple_clone())
    }
}

impl<K: Tuple> View for GroupSumState<K> {
    type V = Map<K::V, int>;

    closed spec fn view(&self) -> Map<K::V, int> {
        seq_to_map(self.entries())
    }
}


/// The change to the pair `(k, o)` that retracts it where `o` is a stored, non-zero sum.
pub open spec fn retract_delta(o: int) -> int {
    if o != 0 {
        -1
    } else {
        0
    }
}

/// The change to the pair `(k, n)` that asserts it where `n` is a non-zero sum.
pub open spec fn assert_delta(n: int) -> int {
    if n != 0 {
        1
    } else {
        0
    }
}

/// Retracting the pair of a key's old sum and asserting the pair of its new sum turns the
/// pairs of the old sums into the pairs of the new sums.
pub proof fn lemma_sum_pairs_step<K>(s: Map<K, int>, k: K, d: int)
    requires
        nonzero(s) == s,
        forall|x: K| i64::MIN <= #[trigger] count_of(s, x) <= i64::MAX,
        i64::MIN <= count_of(s, k) + d <= i64::MAX,
        d != 0,
    ensures
        ({
            let o = count_of(s, k);
            let n = o + d;
            let after = add_to(add_to(sum_pairs(s), (k, o as i64), retract_delta(o)), (k, n as i64), assert_delta(n));
            nonzero(after) == sum_pairs(nonzero(add_to(s, k, d)))
        }),
{
    let o = count_of(s, k);
    let n = o + d;
    let s2 = nonzero(add_to(s, k, d));
    let a1 = add_to(sum_pairs(s), (k, o as i64), retract_delta(o));
    let after = add_to(a1, (k, n as i64), assert_delta(n));
    assert(o != 0 ==> s.contains_key(k) && s[k] == o) by {
        if o != 0 {
            assert(s.contains_key(k));
        }
    }
    assert(s.contains_key(k) ==> s[k] != 0) by {
        if s.contains_key(k) {
            assert(nonzero(s).contains_key(k));
        }
    }
    assert forall|p: (K, i64)| #[trigger] nonzero(after).contains_key(p) <==> sum_pairs(s2).contains_key(p) by {
        assert(nonzero(after).contains_key(p) == (after.contains_key(p) && after[p] != 0));
        if p.0 != k {
            assert(count_of(after, p) == count_of(sum_pairs(s), p));
            assert(count_of(s2, p.0) == count_of(s, p.0)) by {
                assert(s2.contains_key(p.0) == (add_to(s, k, d).contains_key(p.0) && add_to(s, k, d)[p.0] != 0));
            }
        } else {
            assert(s2.contains_key(k) == (n != 0)) by {
                assert(s2.contains_key(k) == (add_to(s, k, d).contains_key(k) && add_to(s, k, d)[k] != 0));
            }
            if s2.contains_key(k) {
                assert(s2[k] == n);
            }
        }
    }
    assert forall|p: (K, i64)| #[trigger] nonzero(after).contains_key(p) implies nonzero(after)[p] == sum_pairs(s2)[p] by {
        assert(nonzero(after).contains_key(p) == (after.contains_key(p) && after[p] != 0));
        if p.0 != k {
            assert(count_of(after, p) == count_of(sum_pairs(s), p));
        }
    }
    assert(nonzero(after) =~= sum_pairs(s2));
}

/// Build the state and the output pairs from a whole collection: each key's sum is the sum of
/// value times multiplicity over its tuples.
pub fn group_sum_init<T: Tuple, K: Tuple, FK: Fn(&T) -> K, FV: Fn(&T) -> i64>(
    input: &Collection<T>,
    key_fn: FK,
    value_fn: FV,
) -> (r: (GroupSumState<K>, Collection<(K, i64)>))
    requires
        fn_total(key_fn),
        fn_total(value_fn),
        is_function(key_fn),
        is_function(value_fn),
        forall|gk: spec_fn(T::V) -> K::V, gv: spec_fn(T::V) -> i64|
            implements(key_fn, gk) && implements(value_fn, gv) ==> products_fit(input.entries(), gv)
                && applies_in_range(Map::empty(), weighted(input.entries(), gk, gv)),
    ensures
        forall|gk: spec_fn(T::V) -> K::V, gv: spec_fn(T::V) -> i64|
            implements(key_fn, gk) && implements(value_fn, gv) ==> r.0@ == nonzero(apply_all(Map::empty(), weighted(input.entries(), gk, gv))),
        r.1@ == sum_pairs(r.0@),
{
    let items = input.iter_with_multiplicity();
    let ghost iv = input.entries();
    let ghost gk0 = choose|g: spec_fn(T::V) -> K::V| implements(key_fn, g);
    let ghost gv0 = choose|g: spec_fn(T::V) -> i64| implements(value_fn, g);
    let ghost w = weighted(iv, gk0, gv0);
    let mut state: GroupSumState<K> = GroupSumState::new();
    proof {
        assert(apply_all(Map::<K::V, int>::empty(), w.subrange(0, 0)) =~= Map::empty());
        lemma_nonzero_idem(Map::<K::V, int>::empty());
        assert(nonzero(Map::<K::V, int>::empty()) =~= Map::empty());
    }
    let mut i: usize = 0;
    while i < items.len()
        invariant
            fn_total(key_fn),
            fn_total(value_fn),
            implements(key_fn, gk0),
            implements(value_fn, gv0),
            w == weighted(iv, gk0, gv0),
            products_fit(iv, gv0),
            applies_in_range(Map::empty(), w),
            i <= items@.len(),
            iv.len() == items@.len(),
            forall|a: int| 0 <= a < iv.len() ==> (#[trigger] items@[a]).0@ == iv[a].0 && items@[a].1.0 == iv[a].1,
            state@ == nonzero(apply_all(Map::empty(), w.subrange(0, i as int))),
            forall|gk: spec_fn(T::V) -> K::V, a: int| implements(key_fn, gk) && 0 <= a < i ==> #[trigger] gk(iv[a].0) == gk0(iv[a].0),
            forall|gv: spec_fn(T::V) -> i64, a: int| implements(value_fn, gv) && 0 <= a < i ==> #[trigger] gv(iv[a].0) == gv0(iv[a].0),
        decreases items@.len() - i,
    {
        let key = key_fn(items[i].0);
        let value = value_fn(items[i].0);
        let ghost before = state@;
        let ghost prev = apply_all(Map::<K::V, int>::empty(), w.subrange(0, i as int));
        proof {
            assert(items@[i as int].0@ == iv[i as int].0);
            assert(key@ == gk0(iv[i as int].0));
            assert(value == gv0(iv[i as int].0));
            assert(i64::MIN <= gv0(iv[i as int].0) * iv[i as int].1 <= i64::MAX);
            lemma_applies_prefix(Map::empty(), w, i + 1);
            assert(w.subrange(0, i as int) =~= w.subrange(0, i + 1).drop_last());
            lemma_nonzero_idem(prev);
            lemma_nonzero_add(nonzero(prev), prev, key@, value * items@[i as int].1.0);
        }
        state.apply_change(key, value, items[i].1);
        proof {
            assert(apply_all(Map::<K::V, int>::empty(), w.subrange(0, i + 1)) == add_to(prev, key@, value * items@[i as int].1.0));
            assert forall|gk: spec_fn(T::V) -> K::V, a: int| implements(key_fn, gk) && 0 <= a < i + 1 implies #[trigger] gk(iv[a].0) == gk0(iv[a].0) by {
                if a == i {
                    assert(items@[a].0@ == iv[a].0);
                }
            }
            assert forall|gv: spec_fn(T::V) -> i64, a: int| implements(value_fn, gv) && 0 <= a < i + 1 implies #[trigger] gv(iv[a].0) == gv0(iv[a].0) by {
                if a == i {
                    assert(items@[a].0@ == iv[a].0);
                }
            }
        }
        i = i + 1;
    }
    proof {
        assert(w.subrange(0, i as int) =~= w);
        assert forall|gk: spec_fn(T::V) -> K::V, gv: spec_fn(T::V) -> i64|
            implements(key_fn, gk) && implements(value_fn, gv) implies state@ == nonzero(apply_all(Map::empty(), weighted(iv, gk, gv))) by {
            assert forall|a: int| 0 <= a < iv.len() implies #[trigger] weighted(iv, gk, gv)[a] == w[a] by {
                assert(gk(iv[a].0) == gk0(iv[a].0));
                assert(gv(iv[a].0) == gv0(iv[a].0));
            }
            assert(weighted(iv, gk, gv) =~= w);
        }
    }
    let output = state.to_multiset();
    (state, output)
}


/// The pairs of a key and its sum hold each pair once, so they are their own non-zero part.
pub proof fn lemma_sum_pairs_nonzero<K>(m: Map<K, int>)
    ensures
        nonzero(sum_pairs(m)) == sum_pairs(m),
{
    assert(nonzero(sum_pairs(m)) =~= sum_pairs(m));
}

/// Update the state with a batch of changes and return the changes to the output pairs: for
/// each key whose sum moved, the retraction of its old pair and the assertion of its new one.
pub fn group_sum_changes<T: Tuple, K: Tuple, FK: Fn(&T) -> K, FV: Fn(&T) -> i64>(
    state: &mut GroupSumState<K>,
    changes: &[Change<T>],
    key_fn: FK,
    value_fn: FV,
) -> (r: Vec<Change<(K, i64)>>)
    requires
        fn_total(key_fn),
        fn_total(value_fn),
        is_function(key_fn),
        is_function(value_fn),
        forall|gk: spec_fn(T::V) -> K::V, gv: spec_fn(T::V) -> i64|
            implements(key_fn, gk) && implements(value_fn, gv) ==> products_fit(changes_view(changes@), gv)
                && applies_in_range(old(state)@, weighted(changes_view(changes@), gk, gv)),
    ensures
        forall|gk: spec_fn(T::V) -> K::V, gv: spec_fn(T::V) -> i64|
            implements(key_fn, gk) && implements(value_fn, gv) ==> final(state)@ == nonzero(apply_all(old(state)@, weighted(changes_view(changes@), gk, gv))),
        forall|gk: spec_fn(T::V) -> K::V, gv: spec_fn(T::V) -> i64|
            implements(key_fn, gk) && implements(value_fn, gv) ==> changes_view(r@) == sum_output(old(state)@, weighted(changes_view(changes@), gk, gv)),
        nonzero(apply_all(sum_pairs(old(state)@), changes_view(r@))) == sum_pairs(final(state)@),
{
    let ghost iv = changes_view(changes@);
    let ghost s0 = state@;
    let ghost gk0 = choose|g: spec_fn(T::V) -> K::V| implements(key_fn, g);
    let ghost gv0 = choose|g: spec_fn(T::V) -> i64| implements(value_fn, g);
    let ghost w = weighted(iv, gk0, gv0);
    state.view_facts();
    let mut out: Vec<Change<(K, i64)>> = Vec::new();
    proof {
        assert(w.subrange(0, 0) =~= Seq::<(K::V, int)>::empty());
        assert(changes_view(out@) =~= Seq::<((K::V, i64), int)>::empty());
        lemma_sum_pairs_nonzero(s0);
    }
    let mut i: usize = 0;
    while i < changes.len()
        invariant
            fn_total(key_fn),
            fn_total(value_fn),
            implements(key_fn, gk0),
            implements(value_fn, gv0),
            iv == changes_view(changes@),
            w == weighted(iv, gk0, gv0),
            products_fit(iv, gv0),
            applies_in_range(s0, w),
            nonzero(s0) == s0,
            forall|x: K::V| i64::MIN <= #[trigger] count_of(s0, x) <= i64::MAX,
            i <= changes@.len(),
            state@ == nonzero(apply_all(s0, w.subrange(0, i as int))),
            nonzero(apply_all(sum_pairs(s0), changes_view(out@))) == sum_pairs(state@),
            changes_view(out@) == sum_output(s0, w.subrange(0, i as int)),
            forall|gk: spec_fn(T::V) -> K::V, a: int| implements(key_fn, gk) && 0 <= a < i ==> #[trigger] gk(iv[a].0) == gk0(iv[a].0),
            forall|gv: spec_fn(T::V) -> i64, a: int| implements(value_fn, gv) && 0 <= a < i ==> #[trigger] gv(iv[a].0) == gv0(iv[a].0),
        decreases changes@.len() - i,
    {
        let key = key_fn(&changes[i].tuple);
        let value = value_fn(&changes[i].tuple);
        let diff = changes[i].diff;
        let ghost st = state@;
        let ghost prev = apply_all(s0, w.subrange(0, i as int));
        let ghost q = apply_all(sum_pairs(s0), changes_view(out@));
        let ghost d = value * diff.0;
        proof {
            assert(iv[i as int] == (changes@[i as int].tuple@, changes@[i as int].diff.0 as int));
            assert(key@ == gk0(iv[i as int].0));
            assert(value == gv0(iv[i as int].0));
            assert(i64::MIN <= gv0(iv[i as int].0) * iv[i as int].1 <= i64::MAX);
            lemma_applies_prefix(s0, w, i + 1);
            assert(w.subrange(0, i as int) =~= w.subrange(0, i + 1).drop_last());
            lemma_nonzero_idem(prev);
            lemma_nonzero_add(nonzero(prev), prev, key@, d);
        }
        state.view_facts();
        let stepped = state.apply_change(key.tuple_clone(), value, diff);
        proof {
            assert(apply_all(s0, w.subrange(0, i + 1)) == add_to(prev, key@, d));
        }
        let ghost sub = w.subrange(0, i + 1);
        proof {
            assert(sub.drop_last() =~= w.subrange(0, i as int));
            assert(sub.last() == w[i as int]);
            assert(w[i as int] == (key@, d));
            assert(sum_output(s0, sub) == sum_output(s0, w.subrange(0, i as int)) + sum_step_changes(st, key@, d));
        }
        match stepped {
            Some((old_sum, new_sum)) => {
                proof {
                    lemma_sum_pairs_nonzero(st);
                    lemma_nonzero_add(q, sum_pairs(st), (key@, old_sum), retract_delta(old_sum as int));
                    let q1 = add_to(q, (key@, old_sum), retract_delta(old_sum as int));
                    let p1 = add_to(sum_pairs(st), (key@, old_sum), retract_delta(old_sum as int));
                    lemma_nonzero_add(q1, p1, (key@, new_sum), assert_delta(new_sum as int));
                    lemma_sum_pairs_step(st, key@, d);
                }
                let ghost out0 = out@;
                if old_sum != 0 {
                    let c = Change::delete((key.tuple_clone(), old_sum));
                    out.push(c);
                    proof {
                        lemma_changes_view_push(out0, c);
                        lemma_apply_all_push(sum_pairs(s0), changes_view(out0), (c.tuple@, c.diff.0 as int));
                    }
                }
                let ghost out1 = out@;
                if new_sum != 0 {
                    let c = Change::insert((key, new_sum));
                    out.push(c);
                    proof {
                        lemma_changes_view_push(out1, c);
                        lemma_apply_all_push(sum_pairs(s0), changes_view(out1), (c.tuple@, c.diff.0 as int));
                    }
                }
                proof {
                    assert(changes_view(out@) =~= changes_view(out0) + sum_step_changes(st, key@, d));
                }
            },
            None => {
                proof {
                    assert(state@ == nonzero(st));
                    assert(changes_view(out@) =~= changes_view(out@) + sum_step_changes(st, key@, d));
                }
            },
        }
        proof {
            assert forall|gk: spec_fn(T::V) -> K::V, a: int| implements(key_fn, gk) && 0 <= a < i + 1 implies #[trigger] gk(iv[a].0) == gk0(iv[a].0) by {
                if a == i {
                    assert(iv[a].0 == changes@[a].tuple@);
                }
            }
            assert forall|gv: spec_fn(T::V) -> i64, a: int| implements(value_fn, gv) && 0 <= a < i + 1 implies #[trigger] gv(iv[a].0) == gv0(iv[a].0) by {
                if a == i {
                    assert(iv[a].0 == changes@[a].tuple@);
                }
            }
        }
        i = i + 1;
    }
    proof {
        assert(w.subrange(0, i as int) =~= w);
        assert forall|gk: spec_fn(T::V) -> K::V, gv: spec_fn(T::V) -> i64|
            implements(key_fn, gk) && implements(value_fn, gv) implies state@ == nonzero(apply_all(s0, weighted(iv, gk, gv)))
                && changes_view(out@) == sum_output(s0, weighted(iv, gk, gv)) by {
            assert forall|a: int| 0 <= a < iv.len() implies #[trigger] weighted(iv, gk, gv)[a] == w[a] by {
                assert(gk(iv[a].0) == gk0(iv[a].0));
                assert(gv(iv[a].0) == gv0(iv[a].0));
            }
            assert(weighted(iv, gk, gv) =~= w);
        }
    }
    out
}

} // verus!
