//! A table from tuples to counts, each tuple stored once.

use vstd::prelude::*;

use crate::collection::{count_of, keys_distinct, lemma_keys_distinct_push, lemma_seq_to_map_facts, lemma_seq_to_map_push, lemma_seq_to_map_update, seq_to_map};
use crate::tuple::Tuple;

verus! {

/// A table from tuples to counts. A tuple that was never given a count reads as zero.
pub struct Counts<T: Tuple> {
    entries: Vec<(T, i64)>,
}

impl<T: Tuple> Counts<T> {
    /// The stored tuples and counts, in storage order.
    pub closed spec fn stored(&self) -> Seq<(T::V, int)> {
        self.entries@.map_values(|e: (T, i64)| (e.0@, e.1 as int))
    }

    #[verifier::type_invariant]
    spec fn inv(&self) -> bool {
        keys_distinct(self.stored())
    }

    pub fn new() -> (r: Self)
        ensures
            r@ == Map::<T::V, int>::empty(),
    {
        let r = Counts { entries: Vec::new() };
        assert(r.stored() =~= Seq::<(T::V, int)>::empty());
        r
    }

    fn find(&self, t: &T) -> (r: Option<usize>)
        ensures
            match r {
                Some(i) => i < self.stored().len() && self.stored()[i as int].0 == t@,
                None => forall|i: int| 0 <= i < self.stored().len() ==> self.stored()[i].0 != t@,
            },
    {
        let mut i: usize = 0;
        while i < self.entries.len()
            invariant
                i <= self.entries@.len(),
                self.stored().len() == self.entries@.len(),
                forall|j: int| 0 <= j < self.entries@.len() ==> self.stored()[j] == (self.entries@[j].0@, self.entries@[j].1 as int),
                forall|j: int| 0 <= j < i ==> self.stored()[j].0 != t@,
            decreases self.entries@.len() - i,
        {
            if self.entries[i].0.tuple_eq(t) {
                return Some(i);
            }
            i = i + 1;
        }
        None
    }

    /// Whether `t` has an entry.
    pub fn has(&self, t: &T) -> (r: bool)
        ensures
            r == self@.contains_key(t@),
    {
        proof {
            use_type_invariant(self);
            lemma_seq_to_map_facts(self.stored());
        }
        match self.find(t) {
            Some(i) => true,
            None => {
                proof {
                    if self@.contains_key(t@) {
                        let j = choose|j: int| 0 <= j < self.stored().len() && self.stored()[j].0 == t@;
                    }
                }
                false
            },
        }
    }

    /// Every stored count fits in `i64`.
    pub fn fits(&self)
        ensures
            forall|k: T::V| i64::MIN <= #[trigger] count_of(self@, k) <= i64::MAX,
    {
        proof {
            use_type_invariant(self);
            let e = self.stored();
            lemma_seq_to_map_facts(e);
            assert forall|k: T::V| i64::MIN <= #[trigger] count_of(self@, k) <= i64::MAX by {
                if self@.contains_key(k) {
                    let j = choose|j: int| 0 <= j < e.len() && e[j].0 == k;
                    assert(e[j] == (self.entries@[j].0@, self.entries@[j].1 as int));
                }
            }
        }
    }

    /// The count of `t`, zero where it has none.
    pub fn get(&self, t: &T) -> (r: i64)
        ensures
            r == count_of(self@, t@),
    {
        proof {
            use_type_invariant(self);
            lemma_seq_to_map_facts(self.stored());
        }
        match self.find(t) {
            Some(i) => {
                assert(self.stored()[i as int] == (self.entries@[i as int].0@, self.entries@[i as int].1 as int));
                self.entries[i].1
            },
            None => {
                proof {
                    if self@.contains_key(t@) {
                        let j = choose|j: int| 0 <= j < self.stored().len() && self.stored()[j].0 == t@;
                    }
                }
                0
            },
        }
    }

    /// Give `t` the count `v`.
    pub fn set(&mut self, t: T, v: i64)
        ensures
            final(self)@ == old(self)@.insert(t@, v as int),
    {
        proof {
            use_type_invariant(&*self);
        }
        let ghost before = self.stored();
        match self.find(&t) {
            Some(i) => {
                let mut entries: Vec<(T, i64)> = Vec::new();
                std::mem::swap(&mut entries, &mut self.entries);
                assert(before =~= entries@.map_values(|e: (T, i64)| (e.0@, e.1 as int)));
                entries.set(i, (t, v));
                proof {
                    let se = entries@.map_values(|e: (T, i64)| (e.0@, e.1 as int));
                    assert(se =~= before.update(i as int, (before[i as int].0, v as int)));
                    lemma_seq_to_map_update(before, i as int, v as int);
                    assert forall|a: int, b: int| 0 <= a < se.len() && 0 <= b < se.len() && a != b implies se[a].0 != se[b].0 by {
                        assert(se[a].0 == before[a].0);
                        assert(se[b].0 == before[b].0);
                    }
                }
                self.entries = entries;
            },
            None => {
                let mut entries: Vec<(T, i64)> = Vec::new();
                std::mem::swap(&mut entries, &mut self.entries);
                assert(before =~= entries@.map_values(|e: (T, i64)| (e.0@, e.1 as int)));
                let ghost tv = t@;
                entries.push((t, v));
                proof {
                    let se = entries@.map_values(|e: (T, i64)| (e.0@, e.1 as int));
                    assert(se =~= before.push((tv, v as int)));
                    lemma_keys_distinct_push(before, (tv, v as int));
                    lemma_seq_to_map_push(before, (tv, v as int));
                }
                self.entries = entries;
            },
        }
    }

    /// Add `d` to the count of `t`, giving it an entry if it has none.
    pub fn add(&mut self, t: T, d: i64)
        requires
            i64::MIN <= count_of(old(self)@, t@) + d <= i64::MAX,
        ensures
            final(self)@ == old(self)@.insert(t@, count_of(old(self)@, t@) + d),
    {
        let c = self.get(&t);
        self.set(t, c + d);
    }

    /// The tuples whose count is positive, each once.
    pub fn positive(&self) -> (r: Vec<&T>)
        ensures
            forall|a: int, b: int| 0 <= a < b < r@.len() ==> r@[a]@ != r@[b]@,
            forall|k: T::V| (exists|a: int| 0 <= a < r@.len() && r@[a]@ == k) <==> count_of(self@, k) > 0,
    {
        proof {
            use_type_invariant(self);
        }
        let ghost e = self.stored();
        let mut r: Vec<&T> = Vec::new();
        let mut i: usize = 0;
        proof {
            assert(r@.map_values(|t: &T| t@) =~= positive_keys(e, 0));
        }
        while i < self.entries.len()
            invariant
                i <= self.entries@.len(),
                e == self.stored(),
                e.len() == self.entries@.len(),
                forall|j: int| 0 <= j < self.entries@.len() ==> e[j] == (self.entries@[j].0@, self.entries@[j].1 as int),
                r@.map_values(|t: &T| t@) == positive_keys(e, i as int),
            decreases self.entries@.len() - i,
        {
            let ghost before = r@;
            proof {
                assert(e[i as int] == (self.entries@[i as int].0@, self.entries@[i as int].1 as int));
            }
            if self.entries[i].1 > 0 {
                r.push(&self.entries[i].0);
                proof {
                    assert(r@.map_values(|t: &T| t@) =~= before.map_values(|t: &T| t@).push(e[i as int].0));
                }
            }
            i = i + 1;
        }
        proof {
            lemma_positive_keys(e, i as int);
            lemma_seq_to_map_facts(e);
            let rv = r@.map_values(|t: &T| t@);
            assert forall|a: int, b: int| 0 <= a < b < r@.len() implies r@[a]@ != r@[b]@ by {
                assert(rv[a] == r@[a]@ && rv[b] == r@[b]@);
            }
            assert forall|k: T::V| (exists|a: int| 0 <= a < r@.len() && r@[a]@ == k) <==> count_of(self@, k) > 0 by {
                if exists|a: int| 0 <= a < r@.len() && r@[a]@ == k {
                    let a = choose|a: int| 0 <= a < r@.len() && r@[a]@ == k;
                    assert(rv[a] == k);
                    assert(rv.contains(k));
                    let j = choose|j: int| 0 <= j < e.len() && e[j].0 == k && e[j].1 > 0;
                    assert(self@.contains_key(e[j].0));
                }
                if count_of(self@, k) > 0 {
                    let j = choose|j: int| 0 <= j < e.len() && e[j].0 == k;
                    assert(self@.contains_key(e[j].0));
                    assert(has_positive(e, i as int, k));
                    assert(rv.contains(k));
                    let a = choose|a: int| 0 <= a < rv.len() && rv[a] == k;
                    assert(r@[a]@ == k);
                }
            }
        }
        r
    }
}

/// One of the first `n` entries of `e` has key `k` and a positive count.
pub open spec fn has_positive<K>(e: Seq<(K, int)>, n: int, k: K) -> bool {
    exists|j: int| 0 <= j < n && e[j].0 == k && e[j].1 > 0
}

/// The keys among the first `n` entries of `e` whose count is positive, in order.
pub open spec fn positive_keys<K>(e: Seq<(K, int)>, n: int) -> Seq<K>
    decreases n,
{
    if n <= 0 {
        Seq::empty()
    } else if e[n - 1].1 > 0 {
        positive_keys(e, n - 1).push(e[n - 1].0)
    } else {
        positive_keys(e, n - 1)
    }
}

/// The positive keys are distinct where the entries' keys are, and are exactly the keys of
/// entries with a positive count.
pub proof fn lemma_positive_keys<K>(e: Seq<(K, int)>, n: int)
    requires
        0 <= n <= e.len(),
        keys_distinct(e),
    ensures
        forall|a: int, b: int| 0 <= a < b < positive_keys(e, n).len() ==> positive_keys(e, n)[a] != positive_keys(e, n)[b],
        forall|k: K| #[trigger] positive_keys(e, n).contains(k) <==> has_positive(e, n, k),
    decreases n,
{
    if n > 0 {
        lemma_positive_keys(e, n - 1);
        let p = positive_keys(e, n - 1);
        let q = positive_keys(e, n);
        if e[n - 1].1 > 0 {
            assert forall|a: int, b: int| 0 <= a < b < q.len() implies q[a] != q[b] by {
                if b == q.len() - 1 {
                    assert(q[a] == p[a]);
                    if q[a] == q[b] {
                        assert(p.contains(p[a]));
                        assert(has_positive(e, n - 1, p[a]));
                        let j = choose|j: int| 0 <= j < n - 1 && e[j].0 == p[a] && e[j].1 > 0;
                        assert(e[j].0 == e[n - 1].0);
                    }
                } else {
                    assert(q[a] == p[a] && q[b] == p[b]);
                }
            }
            assert forall|k: K| #[trigger] q.contains(k) <==> has_positive(e, n, k) by {
                if exists|a: int| 0 <= a < q.len() && q[a] == k {
                    let a = choose|a: int| 0 <= a < q.len() && q[a] == k;
                    if a < p.len() {
                        assert(p[a] == k);
                        assert(p.contains(k));
                        let j = choose|j: int| 0 <= j < n - 1 && e[j].0 == k && e[j].1 > 0;
                    } else {
                        assert(e[n - 1].0 == k);
                    }
                }
                if exists|j: int| 0 <= j < n && e[j].0 == k && e[j].1 > 0 {
                    let j = choose|j: int| 0 <= j < n && e[j].0 == k && e[j].1 > 0;
                    if j < n - 1 {
                        assert(has_positive(e, n - 1, k));
                        assert(p.contains(k));
                        let a = choose|a: int| 0 <= a < p.len() && p[a] == k;
                        assert(q[a] == k);
                    } else {
                        assert(q[q.len() - 1] == k);
                    }
                }
            }
        } else {
            assert forall|k: K| #[trigger] q.contains(k) <==> has_positive(e, n, k) by {
                if exists|j: int| 0 <= j < n && e[j].0 == k && e[j].1 > 0 {
                    let j = choose|j: int| 0 <= j < n && e[j].0 == k && e[j].1 > 0;
                    assert(j < n - 1);
                }
            }
        }
    }
}

impl<T: Tuple> View for Counts<T> {
    type V = Map<T::V, int>;

    closed spec fn view(&self) -> Map<T::V, int> {
        seq_to_map(self.stored())
    }
}

} // verus!
