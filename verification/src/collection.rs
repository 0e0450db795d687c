//! Differential collections - multisets that track changes.

use vstd::prelude::*;

use crate::change::{Change, Diff};
use crate::tuple::Tuple;

verus! {

/// The multiplicity of `k` in `m`: its stored value, or zero where `m` holds no entry.
pub open spec fn count_of<K>(m: Map<K, int>, k: K) -> int {
    if m.contains_key(k) {
        m[k]
    } else {
        0
    }
}

/// The map holding the entries of `s`, a later entry for a key replacing an earlier one.
pub open spec fn seq_to_map<K>(s: Seq<(K, int)>) -> Map<K, int>
    decreases s.len(),
{
    if s.len() == 0 {
        Map::empty()
    } else {
        seq_to_map(s.drop_last()).insert(s.last().0, s.last().1)
    }
}

/// No key occurs twice in `s`.
pub open spec fn keys_distinct<K>(s: Seq<(K, int)>) -> bool {
    forall|i: int, j: int| 0 <= i < s.len() && 0 <= j < s.len() && i != j ==> s[i].0 != s[j].0
}

/// The result of adding `d` to the multiplicity of `k`; a zero change leaves `m` as it is.
pub open spec fn add_to<K>(m: Map<K, int>, k: K, d: int) -> Map<K, int> {
    if d == 0 {
        m
    } else {
        m.insert(k, count_of(m, k) + d)
    }
}

/// `m` with `d` added to the multiplicity of `k`, the entry of `k` dropped where its
/// multiplicity comes to zero; a zero change leaves `m` as it is.
pub open spec fn change_at<K>(m: Map<K, int>, k: K, d: int) -> Map<K, int> {
    if d == 0 {
        m
    } else if count_of(m, k) + d == 0 {
        m.remove(k)
    } else {
        m.insert(k, count_of(m, k) + d)
    }
}

/// Dropping a zero entry changes no multiplicity: `change_at` and `add_to` agree on every
/// count and on the non-zero entries.
pub proof fn lemma_change_at_counts<K>(m: Map<K, int>, k: K, d: int)
    ensures
        forall|x: K| #[trigger] count_of(change_at(m, k, d), x) == count_of(add_to(m, k, d), x),
        nonzero(change_at(m, k, d)) == nonzero(add_to(m, k, d)),
{
    assert(nonzero(change_at(m, k, d)) =~= nonzero(add_to(m, k, d)));
}

/// `change_at` and `add_to` agree where `k` has no entry and the change is not zero.
pub proof fn lemma_change_at_new<K>(m: Map<K, int>, k: K, d: int)
    requires
        !m.contains_key(k),
    ensures
        change_at(m, k, d) == add_to(m, k, d),
{
}

/// The result of applying the changes of `cs`, in order, to `m`.
pub open spec fn apply_all<K>(m: Map<K, int>, cs: Seq<(K, int)>) -> Map<K, int>
    decreases cs.len(),
{
    if cs.len() == 0 {
        m
    } else {
        let prev = apply_all(m, cs.drop_last());
        add_to(prev, cs.last().0, cs.last().1)
    }
}

/// Applying the changes of `cs` in order to `m` keeps every multiplicity within `i64`.
pub open spec fn applies_in_range<K>(m: Map<K, int>, cs: Seq<(K, int)>) -> bool
    decreases cs.len(),
{
    if cs.len() == 0 {
        true
    } else {
        let prev = apply_all(m, cs.drop_last());
        &&& applies_in_range(m, cs.drop_last())
        &&& i64::MIN <= count_of(prev, cs.last().0) + cs.last().1 <= i64::MAX
    }
}

/// The entries of `m` with a non-zero multiplicity.
pub open spec fn nonzero<K>(m: Map<K, int>) -> Map<K, int> {
    m.restrict(Set::new(|k: K| m.contains_key(k) && m[k] != 0))
}

/// Maps with the same non-zero entries give every key the same multiplicity, and keep the
/// same non-zero entries when the same change is added to both.
pub proof fn lemma_nonzero_add<K>(a: Map<K, int>, b: Map<K, int>, k: K, d: int)
    requires
        nonzero(a) == nonzero(b),
    ensures
        count_of(a, k) == count_of(b, k),
        nonzero(add_to(a, k, d)) == nonzero(add_to(b, k, d)),
{
    assert forall|x: K| count_of(a, x) == count_of(b, x) by {
        assert(nonzero(a).contains_key(x) == (a.contains_key(x) && a[x] != 0));
        assert(nonzero(b).contains_key(x) == (b.contains_key(x) && b[x] != 0));
        if nonzero(a).contains_key(x) {
            assert(nonzero(a)[x] == a[x]);
            assert(nonzero(b)[x] == b[x]);
        }
    }
    let a2 = add_to(a, k, d);
    let b2 = add_to(b, k, d);
    assert forall|x: K| count_of(a2, x) == count_of(b2, x) by {
        assert(count_of(a, x) == count_of(b, x));
    }
    assert forall|x: K| nonzero(a2).contains_key(x) <==> nonzero(b2).contains_key(x) by {
        assert(count_of(a2, x) == count_of(b2, x));
        assert(nonzero(a2).contains_key(x) == (a2.contains_key(x) && a2[x] != 0));
        assert(nonzero(b2).contains_key(x) == (b2.contains_key(x) && b2[x] != 0));
    }
    assert(nonzero(a2) =~= nonzero(b2)) by {
        assert forall|x: K| nonzero(a2).contains_key(x) implies nonzero(a2)[x] == nonzero(b2)[x] by {
            assert(count_of(a2, x) == count_of(b2, x));
            assert(nonzero(a2).contains_key(x) == (a2.contains_key(x) && a2[x] != 0));
            assert(nonzero(b2).contains_key(x) == (b2.contains_key(x) && b2[x] != 0));
            assert(nonzero(a2)[x] == a2[x]);
            assert(nonzero(b2)[x] == b2[x]);
        }
    }
}

/// Taking the non-zero entries twice is taking them once.
pub proof fn lemma_nonzero_idem_collection<K>(m: Map<K, int>)
    ensures
        nonzero(nonzero(m)) == nonzero(m),
{
    assert(nonzero(nonzero(m)) =~= nonzero(m));
}

/// Adding a change and then its opposite leaves the same non-zero entries.
pub proof fn lemma_add_cancel<K>(m: Map<K, int>, k: K, d: int)
    ensures
        nonzero(add_to(add_to(m, k, d), k, -d)) == nonzero(m),
{
    let r = add_to(add_to(m, k, d), k, -d);
    assert forall|x: K| count_of(r, x) == count_of(m, x) by {}
    assert forall|x: K| nonzero(r).contains_key(x) <==> nonzero(m).contains_key(x) by {
        assert(count_of(r, x) == count_of(m, x));
        assert(nonzero(r).contains_key(x) == (r.contains_key(x) && r[x] != 0));
        assert(nonzero(m).contains_key(x) == (m.contains_key(x) && m[x] != 0));
    }
    assert(nonzero(r) =~= nonzero(m)) by {
        assert forall|x: K| nonzero(r).contains_key(x) implies nonzero(r)[x] == nonzero(m)[x] by {
            assert(count_of(r, x) == count_of(m, x));
            assert(nonzero(r).contains_key(x) == (r.contains_key(x) && r[x] != 0));
            assert(nonzero(m).contains_key(x) == (m.contains_key(x) && m[x] != 0));
            assert(nonzero(r)[x] == r[x]);
            assert(nonzero(m)[x] == m[x]);
        }
    }
}

/// Applying changes that stay within `i64` to a map within `i64` gives a map within `i64`.
pub proof fn lemma_apply_all_fits<K>(m: Map<K, int>, cs: Seq<(K, int)>)
    requires
        applies_in_range(m, cs),
        forall|k: K| i64::MIN <= #[trigger] count_of(m, k) <= i64::MAX,
    ensures
        forall|k: K| i64::MIN <= #[trigger] count_of(apply_all(m, cs), k) <= i64::MAX,
    decreases cs.len(),
{
    if cs.len() > 0 {
        lemma_apply_all_fits(m, cs.drop_last());
        let prev = apply_all(m, cs.drop_last());
        assert forall|k: K| i64::MIN <= #[trigger] count_of(apply_all(m, cs), k) <= i64::MAX by {
            assert(i64::MIN <= count_of(prev, k) <= i64::MAX);
        }
    }
}

/// The number of occurrences of `k` in `s`.
pub open spec fn occurrences<K>(s: Seq<K>, k: K) -> nat
    decreases s.len(),
{
    if s.len() == 0 {
        0
    } else {
        occurrences(s.drop_last(), k) + if s.last() == k {
            1nat
        } else {
            0nat
        }
    }
}

/// The views of a sequence of references.
pub open spec fn ref_views<T: View>(s: Seq<&T>) -> Seq<T::V> {
    s.map_values(|t: &T| t@)
}

/// The view of a sequence of changes: each as its tuple's view and its diff.
pub open spec fn changes_view<T: View>(cs: Seq<Change<T>>) -> Seq<(T::V, int)> {
    cs.map_values(|c: Change<T>| (c.tuple@, c.diff.0 as int))
}

pub proof fn lemma_changes_view_push<T: View>(cs: Seq<Change<T>>, c: Change<T>)
    ensures
        changes_view(cs.push(c)) == changes_view(cs).push((c.tuple@, c.diff.0 as int)),
{
    assert(changes_view(cs.push(c)) =~= changes_view(cs).push((c.tuple@, c.diff.0 as int)));
}

pub proof fn lemma_seq_to_map_push<K>(s: Seq<(K, int)>, e: (K, int))
    ensures
        seq_to_map(s.push(e)) == seq_to_map(s).insert(e.0, e.1),
{
    assert(s.push(e).drop_last() =~= s);
}

pub proof fn lemma_seq_to_map_facts<K>(s: Seq<(K, int)>)
    requires
        keys_distinct(s),
    ensures
        forall|i: int|
            0 <= i < s.len() ==> #[trigger] seq_to_map(s).contains_key(s[i].0) && seq_to_map(s)[s[i].0]
                == s[i].1,
        forall|k: K| #[trigger]
            seq_to_map(s).contains_key(k) ==> exists|i: int| 0 <= i < s.len() && s[i].0 == k,
        seq_to_map(s).dom().finite(),
        seq_to_map(s).dom().len() == s.len(),
    decreases s.len(),
{
    if s.len() > 0 {
        let p = s.drop_last();
        assert(keys_distinct(p));
        lemma_seq_to_map_facts(p);
        let m = seq_to_map(p);
        assert(!m.contains_key(s.last().0)) by {
            if m.contains_key(s.last().0) {
                let i = choose|i: int| 0 <= i < p.len() && p[i].0 == s.last().0;
                assert(s[i].0 == s[s.len() - 1].0);
            }
        }
        assert forall|i: int| 0 <= i < s.len() implies #[trigger] seq_to_map(s).contains_key(s[i].0)
            && seq_to_map(s)[s[i].0] == s[i].1 by {
            if i < s.len() - 1 {
                assert(p[i] == s[i]);
            }
        }
        assert forall|k: K| #[trigger] seq_to_map(s).contains_key(k) implies exists|i: int|
            0 <= i < s.len() && s[i].0 == k by {
            if k != s.last().0 {
                assert(m.contains_key(k));
                let i = choose|i: int| 0 <= i < p.len() && p[i].0 == k;
                assert(s[i].0 == k);
            } else {
                assert(s[s.len() - 1].0 == k);
            }
        }
    }
}

pub proof fn lemma_seq_to_map_update<K>(s: Seq<(K, int)>, i: int, v: int)
    requires
        keys_distinct(s),
        0 <= i < s.len(),
    ensures
        seq_to_map(s.update(i, (s[i].0, v))) == seq_to_map(s).insert(s[i].0, v),
        keys_distinct(s.update(i, (s[i].0, v))),
    decreases s.len(),
{
    let u = s.update(i, (s[i].0, v));
    assert(keys_distinct(u)) by {
        assert forall|a: int, b: int| 0 <= a < u.len() && 0 <= b < u.len() && a != b implies u[a].0
            != u[b].0 by {
            assert(u[a].0 == s[a].0);
            assert(u[b].0 == s[b].0);
        }
    }
    if i == s.len() - 1 {
        assert(u.drop_last() =~= s.drop_last());
        assert(seq_to_map(u) =~= seq_to_map(s).insert(s[i].0, v));
    } else {
        let p = s.drop_last();
        assert(keys_distinct(p));
        assert(u.drop_last() =~= p.update(i, (p[i].0, v)));
        lemma_seq_to_map_update(p, i, v);
        assert(s.last().0 != s[i].0);
        assert(seq_to_map(u) =~= seq_to_map(s).insert(s[i].0, v));
    }
}

pub proof fn lemma_seq_to_map_remove<K>(s: Seq<(K, int)>, i: int)
    requires
        keys_distinct(s),
        0 <= i < s.len(),
    ensures
        keys_distinct(s.remove(i)),
        seq_to_map(s.remove(i)) == seq_to_map(s).remove(s[i].0),
{
    let r = s.remove(i);
    assert(keys_distinct(r)) by {
        assert forall|a: int, b: int| 0 <= a < r.len() && 0 <= b < r.len() && a != b implies r[a].0 != r[b].0 by {
            let a2 = if a < i { a } else { a + 1 };
            let b2 = if b < i { b } else { b + 1 };
            assert(r[a] == s[a2] && r[b] == s[b2]);
        }
    }
    lemma_seq_to_map_facts(s);
    lemma_seq_to_map_facts(r);
    let m = seq_to_map(s);
    let mr = seq_to_map(r);
    assert forall|x: K| #[trigger] mr.contains_key(x) == m.remove(s[i].0).contains_key(x) by {
        if mr.contains_key(x) {
            let j = choose|j: int| 0 <= j < r.len() && r[j].0 == x;
            let j2 = if j < i { j } else { j + 1 };
            assert(r[j] == s[j2]);
            assert(m.contains_key(s[j2].0));
        }
        if m.remove(s[i].0).contains_key(x) {
            let j = choose|j: int| 0 <= j < s.len() && s[j].0 == x;
            let j2 = if j < i { j } else { j - 1 };
            assert(r[j2] == s[j]);
            assert(mr.contains_key(r[j2].0));
        }
    }
    assert forall|x: K| #[trigger] mr.contains_key(x) implies mr[x] == m[x] by {
        let j = choose|j: int| 0 <= j < r.len() && r[j].0 == x;
        let j2 = if j < i { j } else { j + 1 };
        assert(r[j] == s[j2]);
        assert(m[s[j2].0] == s[j2].1);
        assert(mr[r[j].0] == r[j].1);
    }
    assert(mr =~= m.remove(s[i].0));
}

pub proof fn lemma_keys_distinct_push<K>(s: Seq<(K, int)>, e: (K, int))
    requires
        keys_distinct(s),
        forall|i: int| 0 <= i < s.len() ==> s[i].0 != e.0,
    ensures
        keys_distinct(s.push(e)),
{
    let t = s.push(e);
    assert forall|a: int, b: int| 0 <= a < t.len() && 0 <= b < t.len() && a != b implies t[a].0
        != t[b].0 by {
        if a < s.len() && b < s.len() {
            assert(t[a] == s[a] && t[b] == s[b]);
        } else if a < s.len() {
            assert(t[a] == s[a]);
        } else if b < s.len() {
            assert(t[b] == s[b]);
        }
    }
}

pub proof fn lemma_apply_all_push<K>(m: Map<K, int>, cs: Seq<(K, int)>, c: (K, int))
    ensures
        apply_all(m, cs.push(c)) == add_to(apply_all(m, cs), c.0, c.1),
        applies_in_range(m, cs.push(c)) == (applies_in_range(m, cs) && i64::MIN <= count_of(
            apply_all(m, cs),
            c.0,
        ) + c.1 <= i64::MAX),
{
    assert(cs.push(c).drop_last() =~= cs);
}

pub proof fn lemma_occurrences_push<K>(s: Seq<K>, x: K, k: K)
    ensures
        occurrences(s.push(x), k) == occurrences(s, k) + if x == k {
            1nat
        } else {
            0nat
        },
{
    assert(s.push(x).drop_last() =~= s);
}

/// The entries of `c` have distinct tuples, multiplicities within `i64`, and form its view.
pub open spec fn entries_agree<T: Tuple>(c: Collection<T>) -> bool {
    &&& keys_distinct(c.entries())
    &&& c@ == seq_to_map(c.entries())
    &&& forall|i: int| 0 <= i < c.entries().len() ==> i64::MIN <= #[trigger] c.entries()[i].1 <= i64::MAX
}

/// A differential collection (a multiset) storing tuples with their multiplicities.
///
/// This is essentially a multiset that tracks how many times each tuple appears.
/// Multiplicities can be negative during intermediate computation but typically
/// should be non-negative in final results. A tuple whose multiplicity comes to zero
/// through `apply_change` (so `insert` and `delete` too) is removed.
pub struct Collection<T: Tuple> {
    data: Vec<(T, Diff)>,
}

impl<T: Tuple> Collection<T> {
    /// The stored entries, each as its tuple's view and its multiplicity, in storage order.
    pub closed spec fn entries(&self) -> Seq<(T::V, int)> {
        self.data@.map_values(|e: (T, Diff)| (e.0@, e.1.0 as int))
    }

    #[verifier::type_invariant]
    spec fn inv(&self) -> bool {
        keys_distinct(self.entries())
    }

    /// The entries have distinct tuples, and the view is the map they form.
    proof fn lemma_entries(&self)
        requires
            keys_distinct(self.entries()),
        ensures
            keys_distinct(self.entries()),
            self@ == seq_to_map(self.entries()),
            self@.dom().finite(),
            self@.dom().len() == self.entries().len(),
            forall|i: int|
                0 <= i < self.entries().len() ==> #[trigger] self@.contains_key(self.entries()[i].0)
                    && self@[self.entries()[i].0] == self.entries()[i].1,
            forall|k: T::V| #[trigger]
                self@.contains_key(k) ==> exists|i: int|
                    0 <= i < self.entries().len() && self.entries()[i].0 == k,
            forall|k: T::V| i64::MIN <= #[trigger] count_of(self@, k) <= i64::MAX,
    {
        lemma_seq_to_map_facts(self.entries());
        assert forall|k: T::V| i64::MIN <= #[trigger] count_of(self@, k) <= i64::MAX by {
            if self@.contains_key(k) {
                let i = choose|i: int| 0 <= i < self.entries().len() && self.entries()[i].0 == k;
                assert(self.entries()[i].1 == self.data@[i].1.0);
            }
        }
    }

    /// The entries have distinct tuples and multiplicities within `i64`, and form the view
    /// (this establishes the facts; it computes nothing).
    pub fn entries_match_view(&self)
        ensures
            keys_distinct(self.entries()),
            self@ == seq_to_map(self.entries()),
            forall|i: int| 0 <= i < self.entries().len() ==> i64::MIN <= #[trigger] self.entries()[i].1 <= i64::MAX,
    {
        proof {
            use_type_invariant(self);
            self.lemma_entries();
            assert forall|i: int| 0 <= i < self.entries().len() implies i64::MIN <= #[trigger] self.entries()[i].1 <= i64::MAX by {
                assert(self.entries()[i].1 == self.data@[i].1.0);
            }
        }
    }

    /// Every multiplicity fits in `i64` (this establishes the fact; it computes nothing).
    pub(crate) fn counts_fit(&self)
        ensures
            forall|k: T::V| i64::MIN <= #[trigger] count_of(self@, k) <= i64::MAX,
    {
        proof {
            use_type_invariant(self);
            self.lemma_entries();
        }
    }

    /// Create an empty collection.
    pub fn new() -> (r: Self)
        ensures
            r@ == Map::<T::V, int>::empty(),
            r.entries().len() == 0,
    {
        let r = Collection { data: Vec::new() };
        assert(r.entries() =~= Seq::<(T::V, int)>::empty());
        r
    }

    /// Check if the collection is empty.
    pub fn is_empty(&self) -> (r: bool)
        ensures
            r == (self@.dom().len() == 0),
            r == (self@ == Map::<T::V, int>::empty()),
    {
        proof {
            use_type_invariant(self);
            self.lemma_entries();
            if self.data.len() > 0 {
                assert(self@.contains_key(self.entries()[0].0));
            } else {
                assert(self.entries() =~= Seq::<(T::V, int)>::empty());
            }
        }
        self.data.len() == 0
    }

    /// Get the number of distinct tuples (ignoring multiplicity).
    pub fn len(&self) -> (r: usize)
        ensures
            r == self@.dom().len(),
    {
        proof {
            use_type_invariant(&*self);
            self.lemma_entries();
        }
        self.data.len()
    }

    /// The position of the entry for `tuple`, if there is one.
    fn find(&self, tuple: &T) -> (r: Option<usize>)
        ensures
            match r {
                Some(i) => i < self.entries().len() && self.entries()[i as int].0 == tuple@,
                None => forall|i: int|
                    0 <= i < self.entries().len() ==> self.entries()[i].0 != tuple@,
            },
    {
        let mut i: usize = 0;
        while i < self.data.len()
            invariant
                i <= self.data.len(),
                self.entries().len() == self.data.len(),
                forall|j: int| 0 <= j < i ==> self.entries()[j].0 != tuple@,
            decreases self.data.len() - i,
        {
            if self.data[i].0.tuple_eq(tuple) {
                return Some(i);
            }
            i = i + 1;
        }
        None
    }

    /// Get the multiplicity of a tuple.
    pub fn get(&self, tuple: &T) -> (r: Diff)
        ensures
            r.0 == count_of(self@, tuple@),
    {
        proof {
            use_type_invariant(&*self);
            self.lemma_entries();
        }
        match self.find(tuple) {
            Some(i) => self.data[i].1,
            None => Diff(0),
        }
    }

    /// Check if a tuple exists with positive multiplicity.
    pub fn contains(&self, tuple: &T) -> (r: bool)
        ensures
            r == (count_of(self@, tuple@) > 0),
    {
        self.get(tuple).is_positive()
    }

    /// Insert a tuple (increment multiplicity by 1).
    pub fn insert(&mut self, tuple: T)
        requires
            count_of(old(self)@, tuple@) < i64::MAX,
        ensures
            final(self)@ == change_at(old(self)@, tuple@, 1),
    {
        proof {
            use_type_invariant(&*self);
            self.lemma_entries();
        }
        let c = Change::insert(tuple);
        assert(c.tuple@ == tuple@ && c.diff.0 == 1);
        self.apply_change(c);
    }

    /// Delete a tuple (decrement multiplicity by 1).
    pub fn delete(&mut self, tuple: T)
        requires
            count_of(old(self)@, tuple@) > i64::MIN,
        ensures
            final(self)@ == change_at(old(self)@, tuple@, -1),
    {
        proof {
            use_type_invariant(&*self);
            self.lemma_entries();
        }
        let c = Change::delete(tuple);
        assert(c.tuple@ == tuple@ && c.diff.0 == -1);
        self.apply_change(c);
    }

    /// Apply a single change to the collection; a tuple whose multiplicity comes to zero is
    /// removed.
    pub fn apply_change(&mut self, change: Change<T>)
        requires
            i64::MIN <= count_of(old(self)@, change.tuple@) + change.diff.0 <= i64::MAX,
        ensures
            final(self)@ == change_at(old(self)@, change.tuple@, change.diff.0 as int),
    {
        proof {
            use_type_invariant(&*self);
            self.lemma_entries();
        }
        if change.diff.is_zero() {
            return;
        }
        let ghost k = change.tuple@;
        let ghost before = self.entries();
        let found = self.find(&change.tuple);
        let mut data = Vec::new();
        std::mem::swap(&mut data, &mut self.data);
        assert(before =~= data@.map_values(|e: (T, Diff)| (e.0@, e.1.0 as int)));
        match found {
            Some(i) => {
                let old_d = data[i].1;
                proof {
                    lemma_seq_to_map_update(before, i as int, old_d.0 + change.diff.0);
                }
                let new_d = Diff(old_d.0 + change.diff.0);
                if new_d.0 == 0 {
                    proof {
                        lemma_seq_to_map_remove(before, i as int);
                    }
                    data.remove(i);
                    assert(data@.map_values(|e: (T, Diff)| (e.0@, e.1.0 as int)) =~= before.remove(i as int));
                } else {
                    data.set(i, (change.tuple, new_d));
                    assert(data@.map_values(|e: (T, Diff)| (e.0@, e.1.0 as int)) =~= before.update(
                        i as int,
                        (k, new_d.0 as int),
                    ));
                }
            },
            None => {
                proof {
                    lemma_keys_distinct_push(before, (k, change.diff.0 as int));
                    lemma_seq_to_map_push(before, (k, change.diff.0 as int));
                    assert(!seq_to_map(before).contains_key(k)) by {
                        if seq_to_map(before).contains_key(k) {
                            let j = choose|j: int| 0 <= j < before.len() && before[j].0 == k;
                        }
                    }
                }
                data.push((change.tuple, change.diff));
                assert(data@.map_values(|e: (T, Diff)| (e.0@, e.1.0 as int)) =~= before.push(
                    (k, change.diff.0 as int),
                ));
            },
        }
        self.data = data;
    }

    /// Apply a batch of changes to the collection, then remove zero entries.
    pub fn apply_changes(&mut self, changes: Vec<Change<T>>)
        requires
            applies_in_range(old(self)@, changes_view(changes@)),
        ensures
            final(self)@ == nonzero(apply_all(old(self)@, changes_view(changes@))),
    {
        let ghost start = self@;
        let ghost cs = changes_view(changes@);
        let mut changes = changes;
        let ghost all = changes@;
        let mut rest: Vec<Change<T>> = Vec::new();
        // apply in order: reverse first so that pop yields the original order
        let n = changes.len();
        let mut i: usize = 0;
        while i < n
            invariant
                n == all.len(),
                i <= n,
                changes@ =~= all.subrange(0, n - i),
                rest@.len() == i,
                forall|j: int| 0 <= j < i ==> rest@[j] == all[n - 1 - j],
            decreases n - i,
        {
            let c = changes.pop().unwrap();
            rest.push(c);
            i = i + 1;
        }
        let mut done: usize = 0;
        while done < n
            invariant
                n == all.len(),
                cs == changes_view(all),
                done <= n,
                rest@.len() == n - done,
                forall|j: int| 0 <= j < n - done ==> rest@[j] == all[n - 1 - j],
                nonzero(self@) == nonzero(apply_all(start, cs.subrange(0, done as int))),
                applies_in_range(start, cs),
            decreases n - done,
        {
            let c = rest.pop().unwrap();
            assert(c == all[done as int]);
            proof {
                lemma_applies_prefix(start, cs, done as int + 1);
                assert(cs.subrange(0, done as int + 1) =~= cs.subrange(0, done as int).push(
                    cs[done as int],
                ));
                lemma_apply_all_push(start, cs.subrange(0, done as int), cs[done as int]);
                lemma_nonzero_add(self@, apply_all(start, cs.subrange(0, done as int)), c.tuple@, c.diff.0 as int);
                lemma_change_at_counts(self@, c.tuple@, c.diff.0 as int);
            }
            self.apply_change(c);
            done = done + 1;
        }
        assert(cs.subrange(0, n as int) =~= cs);
        self.compact();
        proof {
            lemma_nonzero_idem_collection(apply_all(start, cs));
        }
    }

    /// Remove all zero-multiplicity entries.
    pub fn compact(&mut self)
        ensures
            final(self)@ == nonzero(old(self)@),
    {
        proof {
            use_type_invariant(&*self);
            self.lemma_entries();
        }
        let ghost old_map = self@;
        let ghost old_entries = self.entries();
        let mut kept: Vec<(T, Diff)> = Vec::new();
        let mut data = Vec::new();
        std::mem::swap(&mut data, &mut self.data);
        let ghost old_data = data@;
        assert(old_entries =~= old_data.map_values(|e: (T, Diff)| (e.0@, e.1.0 as int)));
        let n = data.len();
        let mut rev: Vec<(T, Diff)> = Vec::new();
        while data.len() > 0
            invariant
                n == old_data.len(),
                data@ =~= old_data.subrange(0, data@.len() as int),
                rev@.len() + data@.len() == n,
                forall|j: int| 0 <= j < rev@.len() ==> rev@[j] == old_data[n - 1 - j],
            decreases data.len(),
        {
            let e = data.pop().unwrap();
            rev.push(e);
        }
        let mut idx: usize = 0;
        while rev.len() > 0
            invariant
                n == old_data.len(),
                old_entries == old_data.map_values(|e: (T, Diff)| (e.0@, e.1.0 as int)),
                keys_distinct(old_entries),
                idx + rev@.len() == n,
                forall|j: int| 0 <= j < rev@.len() ==> rev@[j] == old_data[n - 1 - j],
                keys_distinct(kept@.map_values(|e: (T, Diff)| (e.0@, e.1.0 as int))),
                seq_to_map(kept@.map_values(|e: (T, Diff)| (e.0@, e.1.0 as int)))
                    == nonzero(seq_to_map(old_entries.subrange(0, idx as int))),
                forall|j: int|
                    0 <= j < kept@.len() ==> exists|a: int|
                        0 <= a < idx && old_entries[a].0 == #[trigger] kept@[j].0@,
            decreases rev.len(),
        {
            let e = rev.pop().unwrap();
            let ghost ke = kept@.map_values(|e: (T, Diff)| (e.0@, e.1.0 as int));
            let ghost pre = old_entries.subrange(0, idx as int);
            let ghost entry = old_entries[idx as int];
            assert(e == old_data[idx as int]);
            assert(entry == (e.0@, e.1.0 as int));
            proof {
                assert(old_entries.subrange(0, idx as int + 1) =~= pre.push(entry));
                lemma_seq_to_map_push(pre, entry);
                assert(forall|a: int| 0 <= a < idx ==> old_entries[a].0 != entry.0);
                assert(forall|a: int| 0 <= a < pre.len() ==> pre[a].0 != entry.0);
                assert(keys_distinct(pre));
                lemma_seq_to_map_facts(pre);
                assert(!seq_to_map(pre).contains_key(entry.0)) by {
                    if seq_to_map(pre).contains_key(entry.0) {
                        let a = choose|a: int| 0 <= a < pre.len() && pre[a].0 == entry.0;
                    }
                }
            }
            if !e.1.is_zero() {
                proof {
                    assert forall|j: int| 0 <= j < ke.len() implies ke[j].0 != entry.0 by {
                        assert(ke[j].0 == kept@[j].0@);
                        let a = choose|a: int| 0 <= a < idx && old_entries[a].0 == kept@[j].0@;
                    }
                    lemma_keys_distinct_push(ke, entry);
                    lemma_seq_to_map_push(ke, entry);
                }
                kept.push(e);
                proof {
                    assert(kept@.map_values(|e: (T, Diff)| (e.0@, e.1.0 as int)) =~= ke.push(entry));
                    assert(seq_to_map(kept@.map_values(|e: (T, Diff)| (e.0@, e.1.0 as int)))
                        =~= nonzero(seq_to_map(old_entries.subrange(0, idx as int + 1))));
                    assert forall|j: int| 0 <= j < kept@.len() implies exists|a: int|
                        0 <= a < idx + 1 && old_entries[a].0 == #[trigger] kept@[j].0@ by {
                        if j < kept@.len() - 1 {
                            let a = choose|a: int| 0 <= a < idx && old_entries[a].0 == kept@[j].0@;
                        } else {
                            assert(old_entries[idx as int].0 == kept@[j].0@);
                        }
                    }
                }
            } else {
                proof {
                    assert(seq_to_map(ke) =~= nonzero(
                        seq_to_map(old_entries.subrange(0, idx as int + 1)),
                    ));
                }
            }
            idx = idx + 1;
        }
        assert(old_entries.subrange(0, n as int) =~= old_entries);
        self.data = kept;
    }

    /// The tuples with positive multiplicity, each once.
    pub fn iter(&self) -> (r: Vec<&T>)
        ensures
            forall|i: int| 0 <= i < r@.len() ==> count_of(self@, (#[trigger] r@[i])@) > 0,
            forall|k: T::V| #[trigger] count_of(self@, k) > 0 ==> exists|i: int| 0 <= i < r@.len() && r@[i]@ == k,
            forall|i: int, j: int| 0 <= i < r@.len() && 0 <= j < r@.len() && i != j ==> r@[i]@ != r@[j]@,
    {
        proof {
            use_type_invariant(self);
            self.lemma_entries();
        }
        let ghost se = self.entries();
        let mut r: Vec<&T> = Vec::new();
        let mut i: usize = 0;
        while i < self.data.len()
            invariant
                i <= self.data.len(),
                se == self.entries(),
                se.len() == self.data.len(),
                keys_distinct(se),
                forall|j: int| 0 <= j < self.data.len() ==> se[j] == (self.data@[j].0@, self.data@[j].1.0 as int),
                forall|j: int| 0 <= j < se.len() ==> #[trigger] self@.contains_key(se[j].0) && self@[se[j].0] == se[j].1,
                forall|a: int| 0 <= a < r@.len() ==> count_of(self@, (#[trigger] r@[a])@) > 0,
                forall|a: int, j: int| 0 <= a < r@.len() && i <= j < se.len() ==> (#[trigger] r@[a])@ != #[trigger] se[j].0,
                forall|j: int| 0 <= j < i && se[j].1 > 0 ==> exists|a: int| 0 <= a < r@.len() && r@[a]@ == se[j].0,
                forall|a: int, b: int| 0 <= a < r@.len() && 0 <= b < r@.len() && a != b ==> r@[a]@ != r@[b]@,
            decreases self.data.len() - i,
        {
            let e = &self.data[i];
            let ghost pre = r@;
            assert(se[i as int] == (e.0@, e.1.0 as int));
            if e.1.is_positive() {
                r.push(&e.0);
                proof {
                    assert(r@[r@.len() - 1]@ == se[i as int].0);
                }
            }
            proof {
                assert forall|a: int, j: int| 0 <= a < r@.len() && i + 1 <= j < se.len() implies (#[trigger] r@[a])@ != #[trigger] se[j].0 by {
                    if a < pre.len() {
                        assert(r@[a] == pre[a]);
                    } else {
                        assert(se[i as int].0 != se[j].0);
                    }
                }
                assert forall|j: int| 0 <= j < i + 1 && se[j].1 > 0 implies exists|a: int| 0 <= a < r@.len() && r@[a]@ == se[j].0 by {
                    if j < i {
                        let a = choose|a: int| 0 <= a < pre.len() && pre[a]@ == se[j].0;
                        assert(r@[a] == pre[a]);
                    } else {
                        assert(r@[r@.len() - 1]@ == se[j].0);
                    }
                }
                assert forall|a: int, b: int| 0 <= a < r@.len() && 0 <= b < r@.len() && a != b implies r@[a]@ != r@[b]@ by {
                    if a < pre.len() && b < pre.len() {
                        assert(r@[a] == pre[a] && r@[b] == pre[b]);
                    } else if a < pre.len() {
                        assert(r@[a] == pre[a]);
                        assert(pre[a]@ != se[i as int].0);
                    } else if b < pre.len() {
                        assert(r@[b] == pre[b]);
                        assert(pre[b]@ != se[i as int].0);
                    }
                }
            }
            i = i + 1;
        }
        proof {
            assert forall|k: T::V| #[trigger] count_of(self@, k) > 0 implies exists|a: int| 0 <= a < r@.len() && r@[a]@ == k by {
                assert(self@.contains_key(k));
                let j = choose|j: int| 0 <= j < se.len() && se[j].0 == k;
            }
        }
        r
    }

    /// The stored tuples with their multiplicities, in storage order.
    pub fn iter_with_multiplicity(&self) -> (r: Vec<(&T, Diff)>)
        ensures
            keys_distinct(self.entries()),
            self@ == seq_to_map(self.entries()),
            forall|i: int| 0 <= i < self.entries().len() ==> i64::MIN <= #[trigger] self.entries()[i].1 <= i64::MAX,
            r@.len() == self.entries().len(),
            forall|i: int| 0 <= i < r@.len() ==> (#[trigger] r@[i]).0@ == self.entries()[i].0 && r@[i].1.0 == self.entries()[i].1,
    {
        proof {
            use_type_invariant(self);
            assert forall|i: int| 0 <= i < self.entries().len() implies i64::MIN <= #[trigger] self.entries()[i].1 <= i64::MAX by {
                assert(self.entries()[i].1 == self.data@[i].1.0);
            }
        }
        let mut r: Vec<(&T, Diff)> = Vec::new();
        let mut i: usize = 0;
        while i < self.data.len()
            invariant
                i <= self.data.len(),
                r@.len() == i,
                self.entries().len() == self.data.len(),
                forall|j: int| 0 <= j < self.data.len() ==> self.entries()[j] == (self.data@[j].0@, self.data@[j].1.0 as int),
                forall|j: int| 0 <= j < i ==> (#[trigger] r@[j]).0@ == self.entries()[j].0 && r@[j].1.0 == self.entries()[j].1,
            decreases self.data.len() - i,
        {
            let e = &self.data[i];
            r.push((&e.0, e.1));
            i = i + 1;
        }
        r
    }

    /// The tuples, each repeated by its positive multiplicity.
    pub fn iter_flat(&self) -> (r: Vec<&T>)
        requires
            self.entries().len() < usize::MAX,
        ensures
            forall|k: T::V| #[trigger] occurrences(ref_views(r@), k) == if count_of(self@, k) > 0 {
                count_of(self@, k)
            } else {
                0
            },
    {
        proof {
            use_type_invariant(&*self);
            self.lemma_entries();
        }
        let mut r: Vec<&T> = Vec::new();
        let mut i: usize = 0;
        while i < self.data.len()
            invariant
                i <= self.data.len(),
                self.entries().len() == self.data.len(),
                keys_distinct(self.entries()),
                forall|j: int| 0 <= j < self.data.len() ==> self.entries()[j] == (self.data@[j].0@, self.data@[j].1.0 as int),
                forall|k: T::V| #[trigger] occurrences(ref_views(r@), k) == pos_count(self.entries().subrange(0, i as int), k),
            decreases self.data.len() - i,
        {
            let e = &self.data[i];
            let ghost before = ref_views(r@);
            let ghost pre = self.entries().subrange(0, i as int);
            if e.1.is_positive() {
                let count = e.1.0 as u64;
                let mut c: u64 = 0;
                while c < count
                    invariant
                        c <= count,
                        count == e.1.0,
                        forall|k: T::V| #[trigger] occurrences(ref_views(r@), k) == occurrences(before, k) + if k == e.0@ { c as nat } else { 0nat },
                    decreases count - c,
                {
                    let ghost b2 = ref_views(r@);
                    r.push(&e.0);
                    proof {
                        assert(ref_views(r@) =~= b2.push(e.0@));
                        assert forall|k: T::V| #[trigger] occurrences(ref_views(r@), k) == occurrences(before, k) + if k == e.0@ { (c + 1) as nat } else { 0nat } by {
                            lemma_occurrences_push(b2, e.0@, k);
                        }
                    }
                    c = c + 1;
                }
            }
            proof {
                assert(self.entries().subrange(0, i as int + 1) =~= pre.push(self.entries()[i as int]));
                assert forall|k: T::V| #[trigger] occurrences(ref_views(r@), k) == pos_count(self.entries().subrange(0, i as int + 1), k) by {
                    lemma_pos_count_push(pre, self.entries()[i as int], k);
                }
            }
            i = i + 1;
        }
        proof {
            assert(self.entries().subrange(0, self.data.len() as int) =~= self.entries());
            assert forall|k: T::V| #[trigger] pos_count(self.entries(), k) == if count_of(self@, k) > 0 { count_of(self@, k) } else { 0 } by {
                lemma_pos_count(self.entries(), k);
            }
        }
        r
    }

    /// Convert the collection to a Vec of its tuples (with positive multiplicity).
    pub fn to_vec(&self) -> (r: Vec<T>)
        ensures
            forall|i: int| 0 <= i < r@.len() ==> count_of(self@, (#[trigger] r@[i])@) > 0,
            forall|k: T::V| #[trigger] count_of(self@, k) > 0 ==> exists|i: int| 0 <= i < r@.len() && r@[i]@ == k,
            forall|i: int, j: int| 0 <= i < r@.len() && 0 <= j < r@.len() && i != j ==> r@[i]@ != r@[j]@,
    {
        let refs = self.iter();
        let mut r: Vec<T> = Vec::new();
        let mut i: usize = 0;
        while i < refs.len()
            invariant
                i <= refs@.len(),
                r@.len() == i,
                forall|j: int| 0 <= j < i ==> r@[j]@ == refs@[j]@,
            decreases refs.len() - i,
        {
            r.push(refs[i].tuple_clone());
            i = i + 1;
        }
        proof {
            assert forall|k: T::V| #[trigger] count_of(self@, k) > 0 implies exists|i: int| 0 <= i < r@.len() && r@[i]@ == k by {
                let a = choose|a: int| 0 <= a < refs@.len() && refs@[a]@ == k;
                assert(r@[a]@ == k);
            }
            assert forall|a: int| 0 <= a < r@.len() implies count_of(self@, (#[trigger] r@[a])@) > 0 by {
                assert(r@[a]@ == refs@[a]@);
            }
        }
        r
    }

    /// The stored entries.
    pub fn data(&self) -> (r: &Vec<(T, Diff)>)
        ensures
            r@.map_values(|e: (T, Diff)| (e.0@, e.1.0 as int)) == self.entries(),
    {
        &self.data
    }

    /// Clear the collection.
    pub fn clear(&mut self)
        ensures
            final(self)@ == Map::<T::V, int>::empty(),
    {
        self.data = Vec::new();
        assert(self.entries() =~= Seq::<(T::V, int)>::empty());
    }

    /// Create a snapshot of the current state.
    pub fn snapshot(&self) -> (r: Collection<T>)
        ensures
            r@ == self@,
            r.entries() == self.entries(),
    {
        proof {
            use_type_invariant(self);
        }
        let mut data: Vec<(T, Diff)> = Vec::new();
        let mut i: usize = 0;
        while i < self.data.len()
            invariant
                i <= self.data.len(),
                data@.len() == i,
                forall|j: int| 0 <= j < i ==> data@[j].0@ == self.data@[j].0@ && data@[j].1 == self.data@[j].1,
            decreases self.data.len() - i,
        {
            data.push((self.data[i].0.tuple_clone(), self.data[i].1));
            i = i + 1;
        }
        assert(data@.map_values(|e: (T, Diff)| (e.0@, e.1.0 as int)) =~= self.entries());
        let r = Collection { data };
        r
    }
}

impl<T: Tuple> View for Collection<T> {
    type V = Map<T::V, int>;

    closed spec fn view(&self) -> Map<T::V, int> {
        seq_to_map(self.entries())
    }
}

/// Changes with distinct tuples, each within `i64`, apply to an empty map without leaving `i64`;
/// a tuple that no change names gets no entry.
pub proof fn lemma_distinct_applies<K>(s: Seq<(K, int)>)
    requires
        keys_distinct(s),
        forall|i: int| 0 <= i < s.len() ==> i64::MIN <= #[trigger] s[i].1 <= i64::MAX,
    ensures
        applies_in_range(Map::empty(), s),
        forall|k: K| #[trigger] apply_all(Map::empty(), s).contains_key(k) ==> exists|i: int| 0 <= i < s.len() && s[i].0 == k,
    decreases s.len(),
{
    if s.len() > 0 {
        let p = s.drop_last();
        assert(keys_distinct(p));
        lemma_distinct_applies(p);
        assert(!apply_all(Map::empty(), p).contains_key(s.last().0)) by {
            if apply_all(Map::empty(), p).contains_key(s.last().0) {
                let i = choose|i: int| 0 <= i < p.len() && p[i].0 == s.last().0;
                assert(s[i].0 == s[s.len() - 1].0);
            }
        }
        assert(s[s.len() - 1] == s.last());
        assert forall|k: K| #[trigger] apply_all(Map::empty(), s).contains_key(k) implies exists|i: int| 0 <= i < s.len() && s[i].0 == k by {
            if k != s.last().0 {
                let i = choose|i: int| 0 <= i < p.len() && p[i].0 == k;
                assert(s[i].0 == k);
            } else {
                assert(s[s.len() - 1].0 == k);
            }
        }
    }
}

/// Applying changes with distinct keys adds to each multiplicity the change for its key.
pub proof fn lemma_apply_all_distinct<K>(m: Map<K, int>, e: Seq<(K, int)>)
    requires
        keys_distinct(e),
    ensures
        forall|v: K| #[trigger] count_of(apply_all(m, e), v) == count_of(m, v) + count_of(seq_to_map(e), v),
    decreases e.len(),
{
    if e.len() > 0 {
        let p = e.drop_last();
        assert(keys_distinct(p));
        lemma_apply_all_distinct(m, p);
        lemma_seq_to_map_facts(p);
        let x = e.last();
        assert(!seq_to_map(p).contains_key(x.0)) by {
            if seq_to_map(p).contains_key(x.0) {
                let i = choose|i: int| 0 <= i < p.len() && p[i].0 == x.0;
                assert(e[i].0 == e[e.len() - 1].0);
            }
        }
        assert forall|v: K| #[trigger] count_of(apply_all(m, e), v) == count_of(m, v) + count_of(seq_to_map(e), v) by {
            assert(count_of(apply_all(m, p), v) == count_of(m, v) + count_of(seq_to_map(p), v));
        }
    }
}

/// Every sum of the multiplicities of a key in `a` and in `b` fits in `i64`.
pub open spec fn add_fits<K>(a: Map<K, int>, b: Map<K, int>) -> bool {
    forall|v: K| i64::MIN <= #[trigger] count_of(a, v) + count_of(b, v) <= i64::MAX
}

/// Every sum of a multiplicity of `m` and the change for its key in `e` fits in `i64`.
pub open spec fn sums_fit<K>(m: Map<K, int>, e: Seq<(K, int)>) -> bool {
    forall|v: K| i64::MIN <= #[trigger] count_of(m, v) + count_of(seq_to_map(e), v) <= i64::MAX
}

/// Changes with distinct keys, applied to a map whose multiplicities fit in `i64`, keep within
/// `i64` exactly where every resulting multiplicity does.
pub proof fn lemma_applies_distinct<K>(m: Map<K, int>, e: Seq<(K, int)>)
    requires
        keys_distinct(e),
        forall|v: K| i64::MIN <= #[trigger] count_of(m, v) <= i64::MAX,
    ensures
        applies_in_range(m, e) == sums_fit(m, e),
    decreases e.len(),
{
    if e.len() > 0 {
        let p = e.drop_last();
        let x = e.last();
        assert(keys_distinct(p));
        lemma_applies_distinct(m, p);
        lemma_apply_all_distinct(m, p);
        lemma_seq_to_map_facts(p);
        assert(!seq_to_map(p).contains_key(x.0)) by {
            if seq_to_map(p).contains_key(x.0) {
                let i = choose|i: int| 0 <= i < p.len() && p[i].0 == x.0;
                assert(e[i].0 == e[e.len() - 1].0);
            }
        }
        assert(count_of(apply_all(m, p), x.0) == count_of(m, x.0));
        if applies_in_range(m, e) {
            assert forall|v: K| i64::MIN <= #[trigger] count_of(m, v) + count_of(seq_to_map(e), v) <= i64::MAX by {
                if v != x.0 {
                    assert(i64::MIN <= count_of(m, v) + count_of(seq_to_map(p), v) <= i64::MAX);
                }
            }
        }
        if sums_fit(m, e) {
            assert forall|v: K| i64::MIN <= #[trigger] count_of(m, v) + count_of(seq_to_map(p), v) <= i64::MAX by {
                if v != x.0 {
                    assert(i64::MIN <= count_of(m, v) + count_of(seq_to_map(e), v) <= i64::MAX);
                }
            }
            assert(i64::MIN <= count_of(m, x.0) + count_of(seq_to_map(e), x.0) <= i64::MAX);
        }
    }
}

/// Applying `a + b` is applying `a`, then `b`; it keeps within `i64` where both steps do.
pub proof fn lemma_apply_all_append<K>(m: Map<K, int>, a: Seq<(K, int)>, b: Seq<(K, int)>)
    ensures
        apply_all(m, a + b) == apply_all(apply_all(m, a), b),
        applies_in_range(m, a + b) == (applies_in_range(m, a) && applies_in_range(apply_all(m, a), b)),
    decreases b.len(),
{
    if b.len() == 0 {
        assert(a + b =~= a);
    } else {
        lemma_apply_all_append(m, a, b.drop_last());
        assert((a + b).drop_last() =~= a + b.drop_last());
        assert((a + b).last() == b.last());
    }
}

/// The non-zero entries of a map give every key the map's multiplicity.
pub proof fn lemma_nonzero_counts<K>(m: Map<K, int>)
    ensures
        forall|v: K| #[trigger] count_of(nonzero(m), v) == count_of(m, v),
{
}

/// Every key of the map made from the empty map by the changes of `s` is the key of a change.
pub proof fn lemma_apply_all_keys<K>(s: Seq<(K, int)>)
    ensures
        forall|k: K| #[trigger] apply_all(Map::empty(), s).contains_key(k) ==> exists|i: int| 0 <= i < s.len() && s[i].0 == k,
    decreases s.len(),
{
    if s.len() > 0 {
        let p = s.drop_last();
        lemma_apply_all_keys(p);
        assert forall|k: K| #[trigger] apply_all(Map::empty(), s).contains_key(k) implies exists|i: int| 0 <= i < s.len() && s[i].0 == k by {
            if apply_all(Map::empty(), p).contains_key(k) {
                let i = choose|i: int| 0 <= i < p.len() && p[i].0 == k;
                assert(s[i].0 == k);
            } else {
                assert(s[s.len() - 1].0 == k);
            }
        }
    }
}

/// Applying changes with distinct keys to the empty map, each change meets a key with no entry.
pub proof fn lemma_apply_all_fresh<K>(s: Seq<(K, int)>, j: int)
    requires
        keys_distinct(s),
        0 <= j < s.len(),
    ensures
        !apply_all(Map::empty(), s.subrange(0, j)).contains_key(s[j].0),
{
    let p = s.subrange(0, j);
    lemma_apply_all_keys(p);
    if apply_all(Map::empty(), p).contains_key(s[j].0) {
        let i = choose|i: int| 0 <= i < p.len() && p[i].0 == s[j].0;
        assert(s[i].0 == s[j].0);
    }
}

/// The positive part of the multiplicity that `s` gives `k`, counted over its entries.
pub open spec fn pos_count<K>(s: Seq<(K, int)>, k: K) -> int
    decreases s.len(),
{
    if s.len() == 0 {
        0
    } else {
        pos_count(s.drop_last(), k) + if s.last().0 == k && s.last().1 > 0 {
            s.last().1
        } else {
            0
        }
    }
}

pub proof fn lemma_pos_count_push<K>(s: Seq<(K, int)>, e: (K, int), k: K)
    ensures
        pos_count(s.push(e), k) == pos_count(s, k) + if e.0 == k && e.1 > 0 {
            e.1
        } else {
            0
        },
{
    assert(s.push(e).drop_last() =~= s);
}

pub proof fn lemma_pos_count<K>(s: Seq<(K, int)>, k: K)
    requires
        keys_distinct(s),
    ensures
        pos_count(s, k) == if count_of(seq_to_map(s), k) > 0 {
            count_of(seq_to_map(s), k)
        } else {
            0
        },
    decreases s.len(),
{
    if s.len() > 0 {
        let p = s.drop_last();
        assert(keys_distinct(p));
        lemma_pos_count(p, k);
        lemma_seq_to_map_facts(p);
        if s.last().0 == k {
            assert(!seq_to_map(p).contains_key(k)) by {
                if seq_to_map(p).contains_key(k) {
                    let i = choose|i: int| 0 <= i < p.len() && p[i].0 == k;
                    assert(s[i].0 == s[s.len() - 1].0);
                }
            }
        }
    }
}

pub proof fn lemma_applies_prefix<K>(m: Map<K, int>, cs: Seq<(K, int)>, n: int)
    requires
        0 <= n <= cs.len(),
        applies_in_range(m, cs),
    ensures
        applies_in_range(m, cs.subrange(0, n)),
        n > 0 ==> i64::MIN <= count_of(apply_all(m, cs.subrange(0, n - 1)), cs[n - 1].0) + cs[n - 1].1 <= i64::MAX,
    decreases cs.len(),
{
    if n < cs.len() {
        assert(cs.drop_last().subrange(0, n) =~= cs.subrange(0, n));
        lemma_applies_prefix(m, cs.drop_last(), n);
        if n > 0 {
            assert(cs.drop_last().subrange(0, n - 1) =~= cs.subrange(0, n - 1));
        }
    } else {
        assert(cs.subrange(0, n) =~= cs);
        if n > 0 {
            assert(cs.drop_last() =~= cs.subrange(0, n - 1));
        }
    }
}

impl<T: Tuple> Collection<T> {
    /// The collection holding each tuple of `tuples` once per occurrence.
    pub fn from_tuples(tuples: Vec<T>) -> (r: Collection<T>)
        requires
            tuples@.len() < i64::MAX,
        ensures
            forall|k: T::V| #[trigger] count_of(r@, k) == occurrences(tuples@.map_values(|t: T| t@), k),
    {
        let ghost tv = tuples@.map_values(|t: T| t@);
        let mut r = Collection::new();
        let mut tuples = tuples;
        let mut rest: Vec<T> = Vec::new();
        while tuples.len() > 0
            invariant
                tuples@.len() + rest@.len() == tv.len(),
                tv.len() < i64::MAX,
                forall|j: int| 0 <= j < tuples@.len() ==> (#[trigger] tuples@[j])@ == tv[j],
                forall|j: int| 0 <= j < rest@.len() ==> (#[trigger] rest@[j])@ == tv[tv.len() - 1 - j],
                r@ == Map::<T::V, int>::empty(),
            decreases tuples@.len(),
        {
            let ghost before = tuples@;
            let ghost rest0 = rest@;
            let t = tuples.pop().unwrap();
            assert(t == before[before.len() - 1]);
            assert(tuples@ =~= before.drop_last());
            rest.push(t);
            proof {
                assert forall|j: int| 0 <= j < rest@.len() implies (#[trigger] rest@[j])@ == tv[tv.len() - 1 - j] by {
                    if j < rest0.len() {
                        assert(rest@[j] == rest0[j]);
                    }
                }
                assert forall|j: int| 0 <= j < tuples@.len() implies (#[trigger] tuples@[j])@ == tv[j] by {
                    assert(tuples@[j] == before[j]);
                }
            }
        }
        let n = rest.len();
        let mut i: usize = 0;
        while i < n
            invariant
                n == tv.len(),
                n < i64::MAX,
                i <= n,
                rest@.len() == n - i,
                forall|j: int| 0 <= j < rest@.len() ==> (#[trigger] rest@[j])@ == tv[n - 1 - j],
                forall|k: T::V| #[trigger] count_of(r@, k) == occurrences(tv.subrange(0, i as int), k),
                forall|k: T::V| 0 <= #[trigger] count_of(r@, k) <= i,
            decreases n - i,
        {
            let ghost rest0 = rest@;
            let t = rest.pop().unwrap();
            assert(t == rest0[rest0.len() - 1]);
            assert(t@ == tv[i as int]);
            assert forall|j: int| 0 <= j < rest@.len() implies (#[trigger] rest@[j])@ == tv[n - 1 - j] by {
                assert(rest@[j] == rest0[j]);
            }
            let ghost r0 = r@;
            assert(count_of(r0, t@) <= i);
            r.insert(t);
            proof {
                assert(tv.subrange(0, i as int + 1) =~= tv.subrange(0, i as int).push(tv[i as int]));
                assert forall|k: T::V| #[trigger] count_of(r@, k) == occurrences(tv.subrange(0, i as int + 1), k) by {
                    lemma_occurrences_push(tv.subrange(0, i as int), tv[i as int], k);
                    assert(count_of(r0, k) == occurrences(tv.subrange(0, i as int), k));
                    assert(tv.subrange(0, i as int + 1) == tv.subrange(0, i as int).push(tv[i as int]));
                }
                assert forall|k: T::V| 0 <= #[trigger] count_of(r@, k) <= i + 1 by {
                    assert(0 <= count_of(r0, k) <= i);
                }
            }
            i = i + 1;
        }
        assert(tv.subrange(0, n as int) =~= tv);
        r
    }

    /// The collection that the changes add up to, from empty, with zero entries removed.
    pub fn from_changes(changes: Vec<Change<T>>) -> (r: Collection<T>)
        requires
            applies_in_range(Map::empty(), changes_view(changes@)),
        ensures
            r@ == nonzero(apply_all(Map::empty(), changes_view(changes@))),
    {
        let mut r = Collection::new();
        r.apply_changes(changes);
        r
    }

    /// Compute the changes needed to transform from this collection to another.
    pub fn diff(&self, other: &Collection<T>) -> (r: Vec<Change<T>>)
        requires
            forall|k: T::V| i64::MIN <= #[trigger] count_of(other@, k) - count_of(self@, k) <= i64::MAX,
        ensures
            applies_in_range(self@, changes_view(r@)),
            forall|k: T::V| #[trigger] count_of(apply_all(self@, changes_view(r@)), k) == count_of(other@, k),
            keys_distinct(changes_view(r@)),
    {
        proof {
            use_type_invariant(self);
            use_type_invariant(other);
            self.lemma_entries();
            other.lemma_entries();
        }
        let mut changes: Vec<Change<T>> = Vec::new();
        let ghost start = self@;
        let ghost se = self.entries();
        let ghost oe = other.entries();
        let mut i: usize = 0;
        assert(se.subrange(0, 0) =~= Seq::<(T::V, int)>::empty());
        while i < self.data.len()
            invariant
                i <= self.data.len(),
                se == self.entries(),
                se.len() == self.data.len(),
                keys_distinct(se),
                start == self@,
                forall|j: int| 0 <= j < self.data.len() ==> se[j] == (self.data@[j].0@, self.data@[j].1.0 as int),
                forall|k: T::V| i64::MIN <= #[trigger] count_of(other@, k) - count_of(self@, k) <= i64::MAX,
                forall|j: int| 0 <= j < se.len() ==> #[trigger] self@.contains_key(se[j].0) && self@[se[j].0] == se[j].1,
                applies_in_range(start, changes_view(changes@)),
                keys_distinct(changes_view(changes@)),
                forall|a: int| 0 <= a < changes@.len() ==> seq_to_map(se.subrange(0, i as int)).contains_key(#[trigger] changes_view(changes@)[a].0),
                forall|k: T::V| #[trigger] count_of(apply_all(start, changes_view(changes@)), k) == if seq_to_map(se.subrange(0, i as int)).contains_key(k) {
                    count_of(other@, k)
                } else {
                    count_of(start, k)
                },
            decreases self.data.len() - i,
        {
            let e = &self.data[i];
            let other_diff = other.get(&e.0);
            let ghost k0 = e.0@;
            let ghost cv = changes_view(changes@);
            let ghost pre = se.subrange(0, i as int);
            assert(se[i as int] == (k0, e.1.0 as int));
            assert(count_of(self@, k0) == e.1.0);
            proof {
                assert(se.subrange(0, i as int + 1) =~= pre.push(se[i as int]));
                lemma_seq_to_map_push(pre, se[i as int]);
                assert(keys_distinct(pre));
                lemma_seq_to_map_facts(pre);
                assert(!seq_to_map(pre).contains_key(k0)) by {
                    if seq_to_map(pre).contains_key(k0) {
                        let j = choose|j: int| 0 <= j < pre.len() && pre[j].0 == k0;
                        assert(se[j].0 == se[i as int].0);
                    }
                }
            }
            let delta = Diff(other_diff.0 - e.1.0);
            if !delta.is_zero() {
                let c = Change::new(e.0.tuple_clone(), delta);
                changes.push(c);
                proof {
                    assert(changes_view(changes@) =~= cv.push((k0, delta.0 as int)));
                    lemma_apply_all_push(start, cv, (k0, delta.0 as int));
                    assert(forall|a: int| 0 <= a < cv.len() ==> seq_to_map(pre).contains_key(#[trigger] cv[a].0));
                    lemma_keys_distinct_push(cv, (k0, delta.0 as int));
                }
            }
            proof {
                assert forall|a: int| 0 <= a < changes@.len() implies seq_to_map(se.subrange(0, i as int + 1)).contains_key(#[trigger] changes_view(changes@)[a].0) by {
                    if a < cv.len() {
                        assert(changes_view(changes@)[a] == cv[a]);
                        assert(seq_to_map(pre).contains_key(cv[a].0));
                    }
                }
            }
            proof {
                assert forall|k: T::V| #[trigger] count_of(apply_all(start, changes_view(changes@)), k) == if seq_to_map(se.subrange(0, i as int + 1)).contains_key(k) {
                    count_of(other@, k)
                } else {
                    count_of(start, k)
                } by {
                    assert(count_of(apply_all(start, cv), k) == if seq_to_map(pre).contains_key(k) {
                        count_of(other@, k)
                    } else {
                        count_of(start, k)
                    });
                    if delta.0 != 0 {
                        assert(apply_all(start, changes_view(changes@)) == add_to(apply_all(start, cv), k0, delta.0 as int));
                    } else {
                        assert(changes_view(changes@) == cv);
                    }
                    if k == k0 {
                        assert(count_of(start, k0) == e.1.0);
                        assert(other_diff.0 == count_of(other@, k0));
                    } else {
                        assert(seq_to_map(se.subrange(0, i as int + 1)).contains_key(k) == seq_to_map(pre).contains_key(k));
                    }
                }
            }
            i = i + 1;
        }
        assert(se.subrange(0, se.len() as int) =~= se);
        let mut i2: usize = 0;
        assert(oe.subrange(0, 0) =~= Seq::<(T::V, int)>::empty());
        while i2 < other.data.len()
            invariant
                i2 <= other.data.len(),
                oe == other.entries(),
                se == self.entries(),
                oe.len() == other.data.len(),
                keys_distinct(oe),
                forall|j: int| 0 <= j < other.data.len() ==> oe[j] == (other.data@[j].0@, other.data@[j].1.0 as int),
                forall|j: int| 0 <= j < oe.len() ==> #[trigger] other@.contains_key(oe[j].0) && other@[oe[j].0] == oe[j].1,
                forall|k: T::V| #[trigger] self@.contains_key(k) ==> exists|j: int| 0 <= j < se.len() && se[j].0 == k,
                forall|j: int| 0 <= j < se.len() ==> #[trigger] self@.contains_key(se[j].0),
                applies_in_range(start, changes_view(changes@)),
                keys_distinct(changes_view(changes@)),
                forall|a: int| 0 <= a < changes@.len() ==> self@.contains_key(#[trigger] changes_view(changes@)[a].0)
                    || seq_to_map(oe.subrange(0, i2 as int)).contains_key(changes_view(changes@)[a].0),
                start == self@,
                seq_to_map(se) == self@,
                forall|k: T::V| #[trigger] count_of(apply_all(start, changes_view(changes@)), k) == if self@.contains_key(k) || seq_to_map(oe.subrange(0, i2 as int)).contains_key(k) {
                    count_of(other@, k)
                } else {
                    count_of(start, k)
                },
            decreases other.data.len() - i2,
        {
            let e = &other.data[i2];
            let ghost k0 = e.0@;
            let ghost cv = changes_view(changes@);
            let ghost pre = oe.subrange(0, i2 as int);
            assert(oe[i2 as int] == (k0, e.1.0 as int));
            proof {
                assert(oe.subrange(0, i2 as int + 1) =~= pre.push(oe[i2 as int]));
                lemma_seq_to_map_push(pre, oe[i2 as int]);
                assert(keys_distinct(pre));
                lemma_seq_to_map_facts(pre);
                assert(!seq_to_map(pre).contains_key(k0)) by {
                    if seq_to_map(pre).contains_key(k0) {
                        let j = choose|j: int| 0 <= j < pre.len() && pre[j].0 == k0;
                        assert(oe[j].0 == oe[i2 as int].0);
                    }
                }
            }
            let found = self.find(&e.0);
            if found.is_none() {
                proof {
                    assert(!self@.contains_key(k0)) by {
                        if self@.contains_key(k0) {
                            let j = choose|j: int| 0 <= j < se.len() && se[j].0 == k0;
                        }
                    }
                    assert(count_of(apply_all(start, cv), k0) == 0);
                    assert(count_of(other@, k0) == e.1.0);
                }
                let c = Change::new(e.0.tuple_clone(), e.1);
                changes.push(c);
                proof {
                    assert(changes_view(changes@) =~= cv.push((k0, e.1.0 as int)));
                    lemma_apply_all_push(start, cv, (k0, e.1.0 as int));
                    assert(forall|a: int| 0 <= a < cv.len() ==> self@.contains_key(#[trigger] cv[a].0) || seq_to_map(pre).contains_key(cv[a].0));
                    lemma_keys_distinct_push(cv, (k0, e.1.0 as int));
                }
            } else {
                proof {
                    let j = found.unwrap() as int;
                    assert(se[j].0 == k0);
                    assert(self@.contains_key(k0));
                }
            }
            proof {
                assert forall|k: T::V| #[trigger] count_of(apply_all(start, changes_view(changes@)), k) == if self@.contains_key(k) || seq_to_map(oe.subrange(0, i2 as int + 1)).contains_key(k) {
                    count_of(other@, k)
                } else {
                    count_of(start, k)
                } by {
                    assert(count_of(apply_all(start, cv), k) == if self@.contains_key(k) || seq_to_map(pre).contains_key(k) {
                        count_of(other@, k)
                    } else {
                        count_of(start, k)
                    });
                    if found.is_none() {
                        assert(apply_all(start, changes_view(changes@)) == add_to(apply_all(start, cv), k0, e.1.0 as int));
                    } else {
                        assert(changes_view(changes@) == cv);
                    }
                    if k == k0 {
                        assert(count_of(other@, k0) == e.1.0);
                    } else {
                        assert(seq_to_map(oe.subrange(0, i2 as int + 1)).contains_key(k) == seq_to_map(pre).contains_key(k));
                    }
                }
                assert forall|a: int| 0 <= a < changes@.len() implies self@.contains_key(#[trigger] changes_view(changes@)[a].0)
                    || seq_to_map(oe.subrange(0, i2 as int + 1)).contains_key(changes_view(changes@)[a].0) by {
                    if a < cv.len() {
                        assert(changes_view(changes@)[a] == cv[a]);
                        assert(self@.contains_key(cv[a].0) || seq_to_map(pre).contains_key(cv[a].0));
                    }
                }
            }
            i2 = i2 + 1;
        }
        proof {
            assert(oe.subrange(0, oe.len() as int) =~= oe);
            assert(seq_to_map(oe) == other@);
            assert forall|k: T::V| #[trigger] count_of(apply_all(start, changes_view(changes@)), k) == count_of(other@, k) by {
                if !self@.contains_key(k) && !other@.contains_key(k) {
                }
            }
        }
        changes
    }
}

} // verus!
