//! Basic operators: map, filter, union, distinct.

use vstd::prelude::*;

use crate::change::{Change, Diff};
use crate::collection::{
    Collection, apply_all, applies_in_range, changes_view, count_of, keys_distinct,
    lemma_applies_prefix, lemma_apply_all_push, lemma_changes_view_push, lemma_distinct_applies,
    lemma_keys_distinct_push, nonzero,
};
use crate::operators::{apply_keys, fn_total, implements, is_function};
use crate::tuple::Tuple;

verus! {

/// Each entry of `s` with its tuple replaced by `ys[i]`, keeping its multiplicity.
pub open spec fn map_entries<X, Y>(s: Seq<(X, int)>, ys: Seq<Y>) -> Seq<(Y, int)> {
    Seq::new(s.len(), |i: int| (ys[i], s[i].1))
}

/// The first `n` entries of `s` whose bit in `bits` is set, in order.
pub open spec fn filter_entries<X>(s: Seq<(X, int)>, bits: Seq<bool>, n: int) -> Seq<(X, int)>
    decreases n,
{
    if n <= 0 {
        Seq::empty()
    } else {
        filter_entries(s, bits, n - 1) + if bits[n - 1] {
            seq![s[n - 1]]
        } else {
            Seq::empty()
        }
    }
}

/// The set of tuples with positive multiplicity, each with multiplicity one.
pub open spec fn distinct_view<K>(m: Map<K, int>) -> Map<K, int> {
    Map::new(|k: K| count_of(m, k) > 0, |k: K| 1int)
}

/// `e` is one of the first `n` entries of `s`.
pub open spec fn among_first<X>(e: X, s: Seq<X>, n: int) -> bool {
    exists|j: int| 0 <= j < n && s[j] == e
}

/// Entries with distinct keys, filtered, keep distinct keys, values in `i64`, and come from `s`.
pub proof fn lemma_filter_entries<X>(s: Seq<(X, int)>, bits: Seq<bool>, n: int)
    requires
        0 <= n <= s.len(),
        bits.len() == s.len(),
        keys_distinct(s),
        forall|i: int| 0 <= i < s.len() ==> i64::MIN <= #[trigger] s[i].1 <= i64::MAX,
    ensures
        keys_distinct(filter_entries(s, bits, n)),
        forall|i: int| 0 <= i < filter_entries(s, bits, n).len() ==> among_first(#[trigger] filter_entries(s, bits, n)[i], s, n),
        forall|i: int| 0 <= i < filter_entries(s, bits, n).len() ==> i64::MIN <= #[trigger] filter_entries(s, bits, n)[i].1 <= i64::MAX,
    decreases n,
{
    if n > 0 {
        lemma_filter_entries(s, bits, n - 1);
        let fq = filter_entries(s, bits, n - 1);
        let f = filter_entries(s, bits, n);
        if bits[n - 1] {
            assert(f =~= fq.push(s[n - 1]));
            assert forall|i: int| 0 <= i < fq.len() implies fq[i].0 != s[n - 1].0 by {
                assert(among_first(fq[i], s, n - 1));
                let j = choose|j: int| 0 <= j < n - 1 && s[j] == fq[i];
                assert(s[j].0 != s[n - 1].0);
            }
            lemma_keys_distinct_push(fq, s[n - 1]);
            assert forall|i: int| 0 <= i < f.len() implies among_first(#[trigger] f[i], s, n) by {
                if i < fq.len() {
                    assert(among_first(fq[i], s, n - 1));
                    let j = choose|j: int| 0 <= j < n - 1 && s[j] == fq[i];
                    assert(s[j] == f[i]);
                } else {
                    assert(s[n - 1] == f[i]);
                }
            }
        } else {
            assert(f =~= fq);
            assert forall|i: int| 0 <= i < f.len() implies among_first(#[trigger] f[i], s, n) by {
                assert(among_first(fq[i], s, n - 1));
                let j = choose|j: int| 0 <= j < n - 1 && s[j] == fq[i];
                assert(s[j] == f[i]);
            }
        }
        assert forall|i: int| 0 <= i < f.len() implies i64::MIN <= #[trigger] f[i].1 <= i64::MAX by {
            assert(among_first(f[i], s, n));
            let j = choose|j: int| 0 <= j < n && s[j] == f[i];
        }
    }
}

/// Apply each change of `changes`, in order, then remove zero entries.
fn collect_changes<T: Tuple>(changes: Vec<Change<T>>) -> (r: Collection<T>)
    requires
        applies_in_range(Map::empty(), changes_view(changes@)),
    ensures
        r@ == nonzero(apply_all(Map::empty(), changes_view(changes@))),
{
    let mut out = Collection::new();
    out.apply_changes(changes);
    out
}

/// Map: transform each tuple, keeping its multiplicity; tuples that meet add up.
pub fn map<T: Tuple, U: Tuple, F: Fn(&T) -> U>(input: &Collection<T>, f: F) -> (r: Collection<U>)
    requires
        fn_total(f),
        is_function(f),
        forall|g: spec_fn(T::V) -> U::V| implements(f, g) ==> applies_in_range(Map::empty(), map_entries(input.entries(), apply_keys(input.entries(), g))),
    ensures
        forall|g: spec_fn(T::V) -> U::V| implements(f, g) ==> r@ == nonzero(apply_all(Map::empty(), map_entries(input.entries(), apply_keys(input.entries(), g)))),
{
    let items = input.iter_with_multiplicity();
    let ghost iv = input.entries();
    let mut changes: Vec<Change<U>> = Vec::new();
    let mut i: usize = 0;
    while i < items.len()
        invariant
            fn_total(f),
            i <= items@.len(),
            iv.len() == items@.len(),
            forall|a: int| 0 <= a < iv.len() ==> (#[trigger] items@[a]).0@ == iv[a].0 && items@[a].1.0 == iv[a].1,
            changes@.len() == i,
            forall|a: int| 0 <= a < i ==> call_ensures(f, (items@[a].0,), (#[trigger] changes@[a]).tuple) && changes@[a].diff.0 == iv[a].1,
        decreases items@.len() - i,
    {
        let u = f(items[i].0);
        changes.push(Change::new(u, items[i].1));
        i = i + 1;
    }
    proof {
        assert forall|g: spec_fn(T::V) -> U::V| implements(f, g) implies changes_view(changes@) == map_entries(iv, apply_keys(iv, g)) by {
            assert forall|a: int| 0 <= a < iv.len() implies #[trigger] changes_view(changes@)[a] == map_entries(iv, apply_keys(iv, g))[a] by {
                assert(call_ensures(f, (items@[a].0,), changes@[a].tuple));
            }
            assert(changes_view(changes@) =~= map_entries(iv, apply_keys(iv, g)));
        }
        let g = choose|g: spec_fn(T::V) -> U::V| implements(f, g);
    }
    collect_changes(changes)
}

/// Filter: keep the entries whose tuple matches the predicate.
pub fn filter<T: Tuple, F: Fn(&T) -> bool>(input: &Collection<T>, pred: F) -> (r: Collection<T>)
    requires
        fn_total(pred),
    ensures
        forall|g: spec_fn(T::V) -> bool| implements(pred, g) ==> r@ == apply_all(Map::empty(), filter_entries(input.entries(), apply_keys(input.entries(), g), input.entries().len() as int)),
{
    let items = input.iter_with_multiplicity();
    let ghost iv = input.entries();
    let mut bits: Vec<bool> = Vec::new();
    let mut changes: Vec<Change<T>> = Vec::new();
    let mut i: usize = 0;
    while i < items.len()
        invariant
            fn_total(pred),
            i <= items@.len(),
            iv.len() == items@.len(),
            forall|a: int| 0 <= a < iv.len() ==> (#[trigger] items@[a]).0@ == iv[a].0 && items@[a].1.0 == iv[a].1,
            bits@.len() == i,
            forall|a: int| 0 <= a < i ==> call_ensures(pred, (items@[a].0,), #[trigger] bits@[a]),
            changes_view(changes@) == filter_entries(iv, bits@, i as int),
        decreases items@.len() - i,
    {
        let keep = pred(items[i].0);
        let ghost pre = changes@;
        let ghost pre_bits = bits@;
        bits.push(keep);
        if keep {
            let c = Change::new(items[i].0.tuple_clone(), items[i].1);
            changes.push(c);
            proof {
                lemma_changes_view_push(pre, c);
            }
        }
        proof {
            lemma_filter_entries_prefix(iv, pre_bits, bits@, i as int);
        }
        assert(changes_view(changes@) =~= filter_entries(iv, bits@, i as int + 1));
        i = i + 1;
    }
    proof {
        lemma_filter_entries(iv, bits@, iv.len() as int);
        lemma_distinct_applies(filter_entries(iv, bits@, iv.len() as int));
    }
    let mut out = Collection::new();
    let mut j: usize = 0;
    let ghost cs = changes_view(changes@);
    assert(cs.subrange(0, 0) =~= Seq::<(T::V, int)>::empty());
    while j < changes.len()
        invariant
            j <= changes@.len(),
            cs == changes_view(changes@),
            applies_in_range(Map::empty(), cs),
            keys_distinct(cs),
            out@ == apply_all(Map::empty(), cs.subrange(0, j as int)),
        decreases changes@.len() - j,
    {
        let c = Change::new(changes[j].tuple.tuple_clone(), changes[j].diff);
        proof {
            lemma_applies_prefix(Map::empty(), cs, j as int + 1);
            assert(cs.subrange(0, j as int + 1) =~= cs.subrange(0, j as int).push(cs[j as int]));
            lemma_apply_all_push(Map::empty(), cs.subrange(0, j as int), cs[j as int]);
            crate::collection::lemma_apply_all_fresh(cs, j as int);
            crate::collection::lemma_change_at_new(out@, cs[j as int].0, cs[j as int].1);
        }
        out.apply_change(c);
        j = j + 1;
    }
    assert(cs.subrange(0, changes@.len() as int) =~= cs);
    proof {
        assert forall|g: spec_fn(T::V) -> bool| implements(pred, g) implies bits@ == apply_keys(iv, g) by {
            assert forall|a: int| 0 <= a < iv.len() implies #[trigger] bits@[a] == apply_keys(iv, g)[a] by {
                assert(call_ensures(pred, (items@[a].0,), bits@[a]));
            }
            assert(bits@ =~= apply_keys(iv, g));
        }
    }
    out
}

/// Extending `bits` beyond `n` does not change the first `n` filtered entries.
pub proof fn lemma_filter_entries_prefix<X>(s: Seq<(X, int)>, b1: Seq<bool>, b2: Seq<bool>, n: int)
    requires
        0 <= n <= b1.len(),
        n <= b2.len(),
        forall|j: int| 0 <= j < n ==> b1[j] == b2[j],
    ensures
        filter_entries(s, b1, n) == filter_entries(s, b2, n),
    decreases n,
{
    if n > 0 {
        lemma_filter_entries_prefix(s, b1, b2, n - 1);
        assert(b1[n - 1] == b2[n - 1]);
    }
}

/// Union: the multiplicities of both collections added up.
pub fn union<T: Tuple>(left: &Collection<T>, right: &Collection<T>) -> (r: Collection<T>)
    requires
        applies_in_range(Map::empty(), left.entries() + right.entries()),
    ensures
        r@ == nonzero(apply_all(Map::empty(), left.entries() + right.entries())),
{
    let li = left.iter_with_multiplicity();
    let ri = right.iter_with_multiplicity();
    let ghost lv = left.entries();
    let ghost rv = right.entries();
    let mut changes: Vec<Change<T>> = Vec::new();
    let mut i: usize = 0;
    while i < li.len()
        invariant
            i <= li@.len(),
            lv.len() == li@.len(),
            forall|a: int| 0 <= a < lv.len() ==> (#[trigger] li@[a]).0@ == lv[a].0 && li@[a].1.0 == lv[a].1,
            changes_view(changes@) == lv.subrange(0, i as int),
        decreases li@.len() - i,
    {
        let c = Change::new(li[i].0.tuple_clone(), li[i].1);
        let ghost pre = changes@;
        changes.push(c);
        proof {
            lemma_changes_view_push(pre, c);
            assert(lv.subrange(0, i as int + 1) =~= lv.subrange(0, i as int).push(lv[i as int]));
        }
        i = i + 1;
    }
    let mut j: usize = 0;
    while j < ri.len()
        invariant
            j <= ri@.len(),
            rv.len() == ri@.len(),
            forall|a: int| 0 <= a < rv.len() ==> (#[trigger] ri@[a]).0@ == rv[a].0 && ri@[a].1.0 == rv[a].1,
            changes_view(changes@) == lv + rv.subrange(0, j as int),
        decreases ri@.len() - j,
    {
        let c = Change::new(ri[j].0.tuple_clone(), ri[j].1);
        let ghost pre = changes@;
        changes.push(c);
        proof {
            lemma_changes_view_push(pre, c);
            assert(lv + rv.subrange(0, j as int + 1) =~= (lv + rv.subrange(0, j as int)).push(rv[j as int]));
        }
        j = j + 1;
    }
    assert(lv.subrange(0, lv.len() as int) =~= lv);
    assert(rv.subrange(0, rv.len() as int) =~= rv);
    collect_changes(changes)
}

/// Distinct: every tuple with positive multiplicity, once.
pub fn distinct<T: Tuple>(input: &Collection<T>) -> (r: Collection<T>)
    ensures
        r@ == distinct_view(input@),
{
    let tuples = input.iter();
    let mut out: Collection<T> = Collection::new();
    let mut i: usize = 0;
    while i < tuples.len()
        invariant
            i <= tuples@.len(),
            forall|a: int| 0 <= a < tuples@.len() ==> count_of(input@, (#[trigger] tuples@[a])@) > 0,
            forall|a: int, b: int| 0 <= a < tuples@.len() && 0 <= b < tuples@.len() && a != b ==> tuples@[a]@ != tuples@[b]@,
            out@ == Map::new(|k: T::V| exists|a: int| 0 <= a < i && tuples@[a]@ == k, |k: T::V| 1int),
        decreases tuples@.len() - i,
    {
        let ghost pre = out@;
        let ghost k0 = tuples@[i as int]@;
        assert(!pre.contains_key(k0)) by {
            if pre.contains_key(k0) {
                let a = choose|a: int| 0 <= a < i && tuples@[a]@ == k0;
            }
        }
        out.insert(tuples[i].tuple_clone());
        assert(out@ =~= Map::new(|k: T::V| exists|a: int| 0 <= a < i + 1 && tuples@[a]@ == k, |k: T::V| 1int)) by {
            assert forall|k: T::V| (exists|a: int| 0 <= a < i + 1 && tuples@[a]@ == k) <==> (pre.contains_key(k) || k == k0) by {
                if exists|a: int| 0 <= a < i + 1 && tuples@[a]@ == k {
                    let a = choose|a: int| 0 <= a < i + 1 && tuples@[a]@ == k;
                    if a < i {
                        assert(pre.contains_key(k));
                    }
                }
            }
        }
        i = i + 1;
    }
    assert(out@ =~= distinct_view(input@)) by {
        assert forall|k: T::V| (exists|a: int| 0 <= a < tuples@.len() && tuples@[a]@ == k) <==> count_of(input@, k) > 0 by {
            if exists|a: int| 0 <= a < tuples@.len() && tuples@[a]@ == k {
                let a = choose|a: int| 0 <= a < tuples@.len() && tuples@[a]@ == k;
            }
        }
    }
    out
}

} // verus!
