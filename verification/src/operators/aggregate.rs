//! Aggregation operators: aggregate, count, sum, min, max.

use vstd::prelude::*;

use crate::change::Diff;
use crate::collection::{Collection, apply_all, count_of};
use crate::operators::{apply_keys, fn_total, implements, is_function};
use crate::tuple::{Tuple, TupleOrd};

verus! {

/// The views of pairs of a value and a multiplicity.
pub open spec fn value_views<V: View>(s: Seq<(V, Diff)>) -> Seq<(V::V, int)> {
    s.map_values(|e: (V, Diff)| (e.0@, e.1.0 as int))
}

/// `f` can be called on every key and group of values.
pub open spec fn agg_total<K, V, A, F: Fn(K, &[(V, Diff)]) -> A>(f: F) -> bool {
    forall|k: K, vs: &[(V, Diff)]| call_requires(f, (k, vs))
}

/// Every call of `f` returns what `g` gives on the views of the key and the values.
pub open spec fn agg_implements<K: View, V: View, A: View, F: Fn(K, &[(V, Diff)]) -> A>(
    f: F,
    g: spec_fn(K::V, Seq<(V::V, int)>) -> A::V,
) -> bool {
    forall|k: K, vs: &[(V, Diff)], r: A| call_ensures(f, (k, vs), r) ==> r@ == g(k@, value_views(vs@))
}

/// `f` implements some spec function of the key and the values.
pub open spec fn agg_is_function<K: View, V: View, A: View, F: Fn(K, &[(V, Diff)]) -> A>(f: F) -> bool {
    exists|g: spec_fn(K::V, Seq<(V::V, int)>) -> A::V| agg_implements(f, g)
}

/// The values, with multiplicities, of the entries of `e` whose key is `k`, in order.
pub open spec fn group_values<X, K, V>(e: Seq<(X, int)>, gk: spec_fn(X) -> K, gv: spec_fn(X) -> V, k: K) -> Seq<(V, int)>
    decreases e.len(),
{
    if e.len() == 0 {
        Seq::empty()
    } else {
        let p = group_values(e.drop_last(), gk, gv, k);
        if gk(e.last().0) == k {
            p.push((gv(e.last().0), e.last().1))
        } else {
            p
        }
    }
}

/// The distinct elements of `s`, each where it first occurs.
pub open spec fn first_occurrences<K>(s: Seq<K>) -> Seq<K>
    decreases s.len(),
{
    if s.len() == 0 {
        Seq::empty()
    } else {
        let p = first_occurrences(s.drop_last());
        if p.contains(s.last()) {
            p
        } else {
            p.push(s.last())
        }
    }
}

/// The aggregate of each group of `e`, once per distinct key, in order of first occurrence.
pub open spec fn aggregates<X, K, V, A>(
    e: Seq<(X, int)>,
    gk: spec_fn(X) -> K,
    gv: spec_fn(X) -> V,
    ga: spec_fn(K, Seq<(V, int)>) -> A,
) -> Seq<(A, int)> {
    let ks = first_occurrences(apply_keys(e, gk));
    Seq::new(ks.len(), |j: int| (ga(ks[j], group_values(e, gk, gv, ks[j])), 1int))
}

/// The sum of the multiplicities of `s`.
pub open spec fn total<X>(s: Seq<(X, int)>) -> int
    decreases s.len(),
{
    if s.len() == 0 {
        0
    } else {
        total(s.drop_last()) + s.last().1
    }
}

/// Every running total of `s` fits in `i64`.
pub open spec fn totals_fit<X>(s: Seq<(X, int)>) -> bool {
    forall|n: int| 0 <= n <= s.len() ==> i64::MIN <= #[trigger] total(s.subrange(0, n)) <= i64::MAX
}

/// Each value with its value times its multiplicity.
pub open spec fn scaled(s: Seq<(i64, int)>) -> Seq<(i64, int)> {
    s.map_values(|e: (i64, int)| (e.0, e.0 * e.1))
}

/// `v` occurs in `s` with a positive multiplicity.
pub open spec fn present<V>(s: Seq<(V, int)>, v: V) -> bool {
    exists|i: int| 0 <= i < s.len() && s[i].1 > 0 && s[i].0 == v
}

/// The group values are a function of the keys and values the entries are given.
pub proof fn lemma_group_values_agree<X, K, V>(
    e: Seq<(X, int)>,
    gk: spec_fn(X) -> K,
    gv: spec_fn(X) -> V,
    hk: spec_fn(X) -> K,
    hv: spec_fn(X) -> V,
    k: K,
)
    requires
        forall|a: int| 0 <= a < e.len() ==> gk(#[trigger] e[a].0) == hk(e[a].0) && gv(e[a].0) == hv(e[a].0),
    ensures
        group_values(e, gk, gv, k) == group_values(e, hk, hv, k),
    decreases e.len(),
{
    if e.len() > 0 {
        let p = e.drop_last();
        assert forall|a: int| 0 <= a < p.len() implies gk(#[trigger] p[a].0) == hk(p[a].0) && gv(p[a].0) == hv(p[a].0) by {
            assert(p[a] == e[a]);
        }
        lemma_group_values_agree(p, gk, gv, hk, hv, k);
        assert(e.last() == e[e.len() - 1]);
    }
}

/// The first occurrences of a sequence are no longer than the sequence.
pub proof fn lemma_first_occurrences_len<K>(s: Seq<K>)
    ensures
        first_occurrences(s).len() <= s.len(),
    decreases s.len(),
{
    if s.len() > 0 {
        lemma_first_occurrences_len(s.drop_last());
    }
}

/// Group tuples by key and aggregate each group: the output holds, once per distinct key, the
/// result of `agg_fn` on the key and the values (with multiplicities) of the key's tuples.
pub fn aggregate<
    T: Tuple,
    K: Tuple,
    V: Tuple,
    A: Tuple,
    FK: Fn(&T) -> K,
    FV: Fn(&T) -> V,
    FA: Fn(K, &[(V, Diff)]) -> A,
>(input: &Collection<T>, key_fn: FK, value_fn: FV, agg_fn: FA) -> (r: Collection<A>)
    requires
        fn_total(key_fn),
        fn_total(value_fn),
        agg_total(agg_fn),
        is_function(key_fn),
        is_function(value_fn),
        agg_is_function(agg_fn),
        input.entries().len() < i64::MAX,
    ensures
        forall|gk: spec_fn(T::V) -> K::V, gv: spec_fn(T::V) -> V::V, ga: spec_fn(K::V, Seq<(V::V, int)>) -> A::V|
            implements(key_fn, gk) && implements(value_fn, gv) && agg_implements(agg_fn, ga)
                ==> r@ == apply_all(Map::empty(), aggregates(input.entries(), gk, gv, ga)),
{
    let items = input.iter_with_multiplicity();
    let ghost e = input.entries();
    let ghost gk0 = choose|g: spec_fn(T::V) -> K::V| implements(key_fn, g);
    let ghost gv0 = choose|g: spec_fn(T::V) -> V::V| implements(value_fn, g);
    let ghost ga0 = choose|g: spec_fn(K::V, Seq<(V::V, int)>) -> A::V| agg_implements(agg_fn, g);
    // Keys and values of the tuples.
    let mut keys: Vec<K> = Vec::new();
    let mut vals: Vec<V> = Vec::new();
    let mut i: usize = 0;
    while i < items.len()
        invariant
            fn_total(key_fn),
            fn_total(value_fn),
            implements(key_fn, gk0),
            implements(value_fn, gv0),
            i <= items@.len(),
            e.len() == items@.len(),
            forall|a: int| 0 <= a < e.len() ==> (#[trigger] items@[a]).0@ == e[a].0 && items@[a].1.0 == e[a].1,
            keys@.len() == i,
            vals@.len() == i,
            forall|a: int| 0 <= a < i ==> (#[trigger] keys@[a])@ == gk0(e[a].0),
            forall|a: int| 0 <= a < i ==> (#[trigger] vals@[a])@ == gv0(e[a].0),
            forall|gk: spec_fn(T::V) -> K::V, a: int| implements(key_fn, gk) && 0 <= a < i ==> #[trigger] gk(e[a].0) == gk0(e[a].0),
            forall|gv: spec_fn(T::V) -> V::V, a: int| implements(value_fn, gv) && 0 <= a < i ==> #[trigger] gv(e[a].0) == gv0(e[a].0),
        decreases items@.len() - i,
    {
        let k = key_fn(items[i].0);
        let v = value_fn(items[i].0);
        proof {
            assert(items@[i as int].0@ == e[i as int].0);
        }
        keys.push(k);
        vals.push(v);
        i = i + 1;
    }
    let ghost kv = apply_keys(e, gk0);
    // The distinct keys, in order of first occurrence.
    let mut distinct: Vec<K> = Vec::new();
    proof {
        assert(kv.subrange(0, 0) =~= Seq::<K::V>::empty());
        assert(distinct@.map_values(|k: K| k@) =~= Seq::<K::V>::empty());
    }
    let mut a: usize = 0;
    while a < keys.len()
        invariant
            a <= keys@.len(),
            keys@.len() == e.len(),
            kv == apply_keys(e, gk0),
            forall|b: int| 0 <= b < e.len() ==> (#[trigger] keys@[b])@ == gk0(e[b].0),
            distinct@.map_values(|k: K| k@) == first_occurrences(kv.subrange(0, a as int)),
            distinct@.len() <= a,
        decreases keys@.len() - a,
    {
        let ghost dv = distinct@.map_values(|k: K| k@);
        let mut found = false;
        let mut j: usize = 0;
        while j < distinct.len()
            invariant
                j <= distinct@.len(),
                dv == distinct@.map_values(|k: K| k@),
                a < keys@.len(),
                found == exists|b: int| 0 <= b < j && dv[b] == keys@[a as int]@,
            decreases distinct@.len() - j,
        {
            proof {
                assert(dv[j as int] == distinct@[j as int]@);
            }
            if distinct[j].tuple_eq(&keys[a]) {
                found = true;
            }
            proof {
                if found {
                    if dv[j as int] == keys@[a as int]@ {
                        assert(0 <= j < j + 1 && dv[j as int] == keys@[a as int]@);
                    } else {
                        let w = choose|w: int| 0 <= w < j && dv[w] == keys@[a as int]@;
                        assert(0 <= w < j + 1 && dv[w] == keys@[a as int]@);
                    }
                }
            }
            j = j + 1;
        }
        proof {
            assert(kv.subrange(0, a as int) =~= kv.subrange(0, a + 1).drop_last());
            assert(kv.subrange(0, a + 1).last() == keys@[a as int]@);
            assert(found == dv.contains(keys@[a as int]@)) by {
                if dv.contains(keys@[a as int]@) {
                    let b = choose|b: int| 0 <= b < dv.len() && dv[b] == keys@[a as int]@;
                }
            }
        }
        if !found {
            let k = keys[a].tuple_clone();
            distinct.push(k);
            proof {
                assert(distinct@.map_values(|k: K| k@) =~= dv.push(keys@[a as int]@));
            }
        }
        a = a + 1;
    }
    let ghost ks = first_occurrences(kv);
    let ghost agg0 = aggregates(e, gk0, gv0, ga0);
    proof {
        assert(kv.subrange(0, a as int) =~= kv);
        lemma_first_occurrences_len(kv);
    }
    let mut out: Collection<A> = Collection::new();
    proof {
        assert(agg0.subrange(0, 0) =~= Seq::<(A::V, int)>::empty());
    }
    let mut j: usize = 0;
    while j < distinct.len()
        invariant
            agg_total(agg_fn),
            agg_implements(agg_fn, ga0),
            j <= distinct@.len(),
            distinct@.len() <= e.len(),
            e.len() < i64::MAX,
            distinct@.map_values(|k: K| k@) == ks,
            ks == first_occurrences(kv),
            agg0 == aggregates(e, gk0, gv0, ga0),
            kv == apply_keys(e, gk0),
            items@.len() == e.len(),
            forall|b: int| 0 <= b < e.len() ==> (#[trigger] items@[b]).0@ == e[b].0 && items@[b].1.0 == e[b].1,
            keys@.len() == e.len(),
            vals@.len() == e.len(),
            forall|b: int| 0 <= b < e.len() ==> (#[trigger] keys@[b])@ == gk0(e[b].0),
            forall|b: int| 0 <= b < e.len() ==> (#[trigger] vals@[b])@ == gv0(e[b].0),
            out@ == apply_all(Map::empty(), agg0.subrange(0, j as int)),
            forall|x: A::V| #[trigger] count_of(out@, x) <= j,
            forall|x: A::V| #[trigger] count_of(out@, x) >= 0,
            forall|ga: spec_fn(K::V, Seq<(V::V, int)>) -> A::V, b: int| agg_implements(agg_fn, ga) && 0 <= b < j
                ==> #[trigger] ga(ks[b], group_values(e, gk0, gv0, ks[b])) == ga0(ks[b], group_values(e, gk0, gv0, ks[b])),
        decreases distinct@.len() - j,
    {
        let ghost kj = distinct@[j as int]@;
        let mut group: Vec<(V, Diff)> = Vec::new();
        proof {
            assert(kj == ks[j as int]);
            assert(e.subrange(0, 0) =~= Seq::<(T::V, int)>::empty());
            assert(value_views(group@) =~= Seq::<(V::V, int)>::empty());
        }
        let mut b: usize = 0;
        while b < keys.len()
            invariant
                b <= keys@.len(),
                keys@.len() == e.len(),
                vals@.len() == e.len(),
                items@.len() == e.len(),
                j < distinct@.len(),
                kj == distinct@[j as int]@,
                forall|c: int| 0 <= c < e.len() ==> (#[trigger] items@[c]).0@ == e[c].0 && items@[c].1.0 == e[c].1,
                forall|c: int| 0 <= c < e.len() ==> (#[trigger] keys@[c])@ == gk0(e[c].0),
                forall|c: int| 0 <= c < e.len() ==> (#[trigger] vals@[c])@ == gv0(e[c].0),
                value_views(group@) == group_values(e.subrange(0, b as int), gk0, gv0, kj),
            decreases keys@.len() - b,
        {
            let ghost before = group@;
            proof {
                assert(e.subrange(0, b as int) =~= e.subrange(0, b + 1).drop_last());
                assert(e.subrange(0, b + 1).last() == e[b as int]);
            }
            if keys[b].tuple_eq(&distinct[j]) {
                let v = vals[b].tuple_clone();
                group.push((v, items[b].1));
                proof {
                    assert(value_views(group@) =~= value_views(before).push((gv0(e[b as int].0), e[b as int].1)));
                }
            }
            b = b + 1;
        }
        proof {
            assert(e.subrange(0, b as int) =~= e);
        }
        let k = distinct[j].tuple_clone();
        let res = agg_fn(k, group.as_slice());
        let ghost before_out = out@;
        proof {
            assert(res@ == ga0(kj, group_values(e, gk0, gv0, kj)));
            assert(agg0[j as int] == (res@, 1int));
            assert(agg0.subrange(0, j as int) =~= agg0.subrange(0, j + 1).drop_last());
            assert(count_of(out@, res@) <= j);
            assert(count_of(out@, res@) >= 0);
        }
        out.insert(res);
        proof {
            assert forall|x: A::V| #[trigger] count_of(out@, x) <= j + 1 && count_of(out@, x) >= 0 by {
                assert(count_of(before_out, x) <= j);
                assert(count_of(before_out, x) >= 0);
            }
            assert forall|ga: spec_fn(K::V, Seq<(V::V, int)>) -> A::V, c: int| agg_implements(agg_fn, ga) && 0 <= c < j + 1
                implies #[trigger] ga(ks[c], group_values(e, gk0, gv0, ks[c])) == ga0(ks[c], group_values(e, gk0, gv0, ks[c])) by {
                if c == j {
                    assert(res@ == ga(kj, group_values(e, gk0, gv0, kj)));
                }
            }
        }
        j = j + 1;
    }
    proof {
        assert(agg0.subrange(0, j as int) =~= agg0);
        assert forall|gk: spec_fn(T::V) -> K::V, gv: spec_fn(T::V) -> V::V, ga: spec_fn(K::V, Seq<(V::V, int)>) -> A::V|
            implements(key_fn, gk) && implements(value_fn, gv) && agg_implements(agg_fn, ga)
            implies out@ == apply_all(Map::empty(), aggregates(e, gk, gv, ga)) by {
            assert forall|c: int| 0 <= c < e.len() implies gk(#[trigger] e[c].0) == gk0(e[c].0) && gv(e[c].0) == gv0(e[c].0) by {}
            assert(apply_keys(e, gk) =~= kv);
            assert forall|c: int| 0 <= c < ks.len() implies #[trigger] aggregates(e, gk, gv, ga)[c] == agg0[c] by {
                lemma_group_values_agree(e, gk, gv, gk0, gv0, ks[c]);
            }
            assert(aggregates(e, gk, gv, ga) =~= agg0);
        }
    }
    out
}

/// The key with the sum of the multiplicities of its values.
pub fn count<K: Tuple>(key: K, values: &[((), Diff)]) -> (r: (K, i64))
    requires
        totals_fit(value_views(values@)),
    ensures
        r.0 == key,
        r.1 == total(value_views(values@)),
{
    let ghost s = value_views(values@);
    let mut t: i64 = 0;
    let mut i: usize = 0;
    proof {
        assert(s.subrange(0, 0) =~= Seq::<((), int)>::empty());
    }
    while i < values.len()
        invariant
            s == value_views(values@),
            totals_fit(s),
            i <= values@.len(),
            t == total(s.subrange(0, i as int)),
        decreases values@.len() - i,
    {
        proof {
            assert(s.subrange(0, i as int) =~= s.subrange(0, i + 1).drop_last());
            assert(i64::MIN <= total(s.subrange(0, i + 1)) <= i64::MAX);
        }
        t = t + values[i].1.0;
        i = i + 1;
    }
    proof {
        assert(s.subrange(0, i as int) =~= s);
    }
    (key, t)
}

/// The key with the sum of each value times its multiplicity.
pub fn sum<K: Tuple>(key: K, values: &[(i64, Diff)]) -> (r: (K, i64))
    requires
        forall|i: int| 0 <= i < values@.len() ==> i64::MIN <= #[trigger] values@[i].0 * values@[i].1.0 <= i64::MAX,
        totals_fit(scaled(value_views(values@))),
    ensures
        r.0 == key,
        r.1 == total(scaled(value_views(values@))),
{
    let ghost s = scaled(value_views(values@));
    let mut t: i64 = 0;
    let mut i: usize = 0;
    proof {
        assert(s.subrange(0, 0) =~= Seq::<(i64, int)>::empty());
    }
    while i < values.len()
        invariant
            s == scaled(value_views(values@)),
            totals_fit(s),
            forall|j: int| 0 <= j < values@.len() ==> i64::MIN <= #[trigger] values@[j].0 * values@[j].1.0 <= i64::MAX,
            i <= values@.len(),
            t == total(s.subrange(0, i as int)),
        decreases values@.len() - i,
    {
        proof {
            assert(s.subrange(0, i as int) =~= s.subrange(0, i + 1).drop_last());
            assert(i64::MIN <= total(s.subrange(0, i + 1)) <= i64::MAX);
            assert(s[i as int].1 == values@[i as int].0 * values@[i as int].1.0);
        }
        let p = values[i].0 * values[i].1.0;
        t = t + p;
        i = i + 1;
    }
    proof {
        assert(s.subrange(0, i as int) =~= s);
    }
    (key, t)
}

/// The key with the least value of positive multiplicity, if there is one.
pub fn min<K: Tuple, V: TupleOrd>(key: K, values: &[(V, Diff)]) -> (r: Option<(K, V)>)
    ensures
        match r {
            None => forall|i: int| 0 <= i < values@.len() ==> (#[trigger] values@[i]).1.0 <= 0,
            Some((k, v)) => k == key && present(value_views(values@), v@) && forall|i: int|
                0 <= i < values@.len() && (#[trigger] values@[i]).1.0 > 0 ==> !V::spec_lt(values@[i].0@, v@),
        },
{
    best(key, values, false)
}

/// The key with the greatest value of positive multiplicity, if there is one.
pub fn max<K: Tuple, V: TupleOrd>(key: K, values: &[(V, Diff)]) -> (r: Option<(K, V)>)
    ensures
        match r {
            None => forall|i: int| 0 <= i < values@.len() ==> (#[trigger] values@[i]).1.0 <= 0,
            Some((k, v)) => k == key && present(value_views(values@), v@) && forall|i: int|
                0 <= i < values@.len() && (#[trigger] values@[i]).1.0 > 0 ==> !V::spec_lt(v@, values@[i].0@),
        },
{
    best(key, values, true)
}

/// `a` is better than `b`: greater when looking for the greatest, else less.
pub open spec fn better_than<V: TupleOrd>(a: V::V, b: V::V, greatest: bool) -> bool {
    if greatest {
        V::spec_lt(b, a)
    } else {
        V::spec_lt(a, b)
    }
}

fn best<K: Tuple, V: TupleOrd>(key: K, values: &[(V, Diff)], greatest: bool) -> (r: Option<(K, V)>)
    ensures
        match r {
            None => forall|i: int| 0 <= i < values@.len() ==> (#[trigger] values@[i]).1.0 <= 0,
            Some((k, v)) => k == key && present(value_views(values@), v@) && forall|i: int|
                0 <= i < values@.len() && (#[trigger] values@[i]).1.0 > 0 ==> !better_than::<V>(values@[i].0@, v@, greatest),
        },
{
    let mut found: Option<usize> = None;
    let mut i: usize = 0;
    while i < values.len()
        invariant
            i <= values@.len(),
            match found {
                None => forall|j: int| 0 <= j < i ==> (#[trigger] values@[j]).1.0 <= 0,
                Some(b) => b < i && values@[b as int].1.0 > 0 && forall|j: int|
                    0 <= j < i && (#[trigger] values@[j]).1.0 > 0 ==> !better_than::<V>(values@[j].0@, values@[b as int].0@, greatest),
            },
        decreases values@.len() - i,
    {
        let positive = values[i].1.is_positive();
        proof {
            assert(positive == (values@[i as int].1.0 > 0));
        }
        if positive {
            match found {
                None => {
                    proof {
                        V::lemma_order(values@[i as int].0@, values@[i as int].0@, values@[i as int].0@);
                    }
                    found = Some(i);
                },
                Some(b) => {
                    let better = if greatest {
                        values[b].0.tuple_lt(&values[i].0)
                    } else {
                        values[i].0.tuple_lt(&values[b].0)
                    };
                    if better {
                        proof {
                            assert forall|j: int| 0 <= j < i + 1 && (#[trigger] values@[j]).1.0 > 0
                                implies !better_than::<V>(values@[j].0@, values@[i as int].0@, greatest) by {
                                V::lemma_order(values@[j].0@, values@[b as int].0@, values@[i as int].0@);
                                V::lemma_order(values@[i as int].0@, values@[b as int].0@, values@[j].0@);
                                V::lemma_order(values@[j].0@, values@[i as int].0@, values@[b as int].0@);
                                V::lemma_order(values@[b as int].0@, values@[i as int].0@, values@[j].0@);
                            }
                        }
                        found = Some(i);
                    }
                },
            }
        }
        i = i + 1;
    }
    match found {
        None => None,
        Some(b) => {
            proof {
                assert(value_views(values@)[b as int] == (values@[b as int].0@, values@[b as int].1.0 as int));
            }
            Some((key, values[b].0.tuple_clone()))
        },
    }
}

} // verus!
