//! Max operator: the greatest value by key.

use core::marker::PhantomData;

use vstd::prelude::*;

use crate::change::Diff;
use crate::collection::{add_to, apply_all, count_of, lemma_apply_all_push, lemma_nonzero_add, nonzero};
use crate::database2::feedback::variable::pair_views;
use crate::database2::relational::relation::Relation;
use crate::operators::group_sum_state::{GroupSumState, best_key};
use crate::operators::{fn_total, implements, is_function};
use crate::tuple::{Tuple, TupleOrd};

verus! {

/// No key occurs twice among the entries.
pub open spec fn entries_distinct<K, X>(e: Seq<(K, X)>) -> bool {
    forall|i: int, j: int| 0 <= i < e.len() && 0 <= j < e.len() && i != j ==> e[i].0 != e[j].0
}

/// The counts of key `k` among the entries: those of its entry, or none.
pub open spec fn counts_at<K, W>(e: Seq<(K, Map<W, int>)>, k: K) -> Map<W, int> {
    if exists|i: int| 0 <= i < e.len() && e[i].0 == k {
        e[choose|i: int| 0 <= i < e.len() && e[i].0 == k].1
    } else {
        Map::empty()
    }
}

/// The counts of every key among the entries.
pub open spec fn counts_view<K, W>(e: Seq<(K, Map<W, int>)>) -> Map<K, Map<W, int>> {
    Map::new(|k: K| true, |k: K| counts_at(e, k))
}

/// Adding `d` to the count of `v` under key `k` keeps it within `i64`.
pub open spec fn change_fits<K, W>(c: Map<K, Map<W, int>>, k: K, v: W, d: int) -> bool {
    i64::MIN <= count_of(c[k], v) + d <= i64::MAX
}

/// The counts after adding `d` to the count of `v` under key `k`, zero counts dropped; a change
/// that would leave `i64` is skipped.
pub open spec fn step_counts<K, W>(c: Map<K, Map<W, int>>, k: K, v: W, d: int) -> Map<K, Map<W, int>> {
    if change_fits(c, k, v, d) {
        c.insert(k, nonzero(add_to(c[k], v, d)))
    } else {
        c
    }
}

/// The counts after each change of `cs`, in order: the key and value of a change are what `gk`
/// and `gv` give of its tuple.
pub open spec fn steps<X, K, W>(c: Map<K, Map<W, int>>, cs: Seq<(X, int)>, gk: spec_fn(X) -> K, gv: spec_fn(X) -> W) -> Map<K, Map<W, int>>
    decreases cs.len(),
{
    if cs.len() == 0 {
        c
    } else {
        let p = steps(c, cs.drop_last(), gk, gv);
        step_counts(p, gk(cs.last().0), gv(cs.last().0), cs.last().1)
    }
}

/// Each key with its best value (the greatest, or with `reverse` the least), once each.
pub open spec fn best_pairs<K, V: TupleOrd>(c: Map<K, Map<V::V, int>>, reverse: bool) -> Map<(K, V::V), int> {
    Map::new(|p: (K, V::V)| best_key::<V>(c[p.0], reverse) == Some(p.1), |p: (K, V::V)| 1int)
}

/// The changes to the best pairs when the counts of key `k` go from `c1[k]` to `c2[k]`: the old
/// best value retracted and the new one asserted, where they differ.
pub open spec fn best_changes<K, V: TupleOrd>(c1: Map<K, Map<V::V, int>>, c2: Map<K, Map<V::V, int>>, k: K, reverse: bool) -> Seq<((K, V::V), int)> {
    let o = best_key::<V>(c1[k], reverse);
    let n = best_key::<V>(c2[k], reverse);
    if o == n {
        Seq::empty()
    } else {
        (match o {
            Some(x) => seq![((k, x), -1int)],
            None => Seq::empty(),
        }) + (match n {
            Some(y) => seq![((k, y), 1int)],
            None => Seq::empty(),
        })
    }
}

/// The changes to the best pairs as the changes of `cs` are applied in order to the counts
/// `c`: for each change, those of the key it touches.
pub open spec fn max_output<X, K, V: TupleOrd>(
    c: Map<K, Map<V::V, int>>,
    cs: Seq<(X, int)>,
    gk: spec_fn(X) -> K,
    gv: spec_fn(X) -> V::V,
    reverse: bool,
) -> Seq<((K, V::V), int)>
    decreases cs.len(),
{
    if cs.len() == 0 {
        Seq::empty()
    } else {
        let p = steps(c, cs.drop_last(), gk, gv);
        let k = gk(cs.last().0);
        max_output::<X, K, V>(c, cs.drop_last(), gk, gv, reverse)
            + best_changes::<K, V>(p, step_counts(p, k, gv(cs.last().0), cs.last().1), k, reverse)
    }
}

/// An entry's counts are those of its key.
pub proof fn lemma_counts_at_entry<K, W>(e: Seq<(K, Map<W, int>)>, i: int)
    requires
        entries_distinct(e),
        0 <= i < e.len(),
    ensures
        counts_at(e, e[i].0) == e[i].1,
{
    let j = choose|j: int| 0 <= j < e.len() && e[j].0 == e[i].0;
}

/// Removing an entry keeps the others' counts and the keys distinct, and leaves its key
/// without counts.
pub proof fn lemma_counts_at_remove<K, W>(e: Seq<(K, Map<W, int>)>, i: int)
    requires
        entries_distinct(e),
        0 <= i < e.len(),
    ensures
        entries_distinct(e.remove(i)),
        forall|x: K| x != e[i].0 ==> #[trigger] counts_at(e.remove(i), x) == counts_at(e, x),
        forall|j: int| 0 <= j < e.remove(i).len() ==> (#[trigger] e.remove(i)[j]).0 != e[i].0,
{
    let r = e.remove(i);
    assert forall|a: int, b: int| 0 <= a < r.len() && 0 <= b < r.len() && a != b implies r[a].0 != r[b].0 by {
        let a2 = if a < i { a } else { a + 1 };
        let b2 = if b < i { b } else { b + 1 };
        assert(r[a] == e[a2] && r[b] == e[b2]);
    }
    assert forall|j: int| 0 <= j < r.len() implies (#[trigger] r[j]).0 != e[i].0 by {
        let j2 = if j < i { j } else { j + 1 };
        assert(r[j] == e[j2]);
    }
    assert forall|x: K| x != e[i].0 implies #[trigger] counts_at(r, x) == counts_at(e, x) by {
        if exists|j: int| 0 <= j < e.len() && e[j].0 == x {
            let j = choose|j: int| 0 <= j < e.len() && e[j].0 == x;
            let j2 = if j < i { j } else { j - 1 };
            assert(r[j2] == e[j]);
            lemma_counts_at_entry(e, j);
            lemma_counts_at_entry(r, j2);
        } else {
            if exists|j: int| 0 <= j < r.len() && r[j].0 == x {
                let j = choose|j: int| 0 <= j < r.len() && r[j].0 == x;
                let j2 = if j < i { j } else { j + 1 };
                assert(r[j] == e[j2]);
            }
        }
    }
}

/// Adding an entry for a new key gives that key the entry's counts and keeps the others'.
pub proof fn lemma_counts_at_push<K, W>(e: Seq<(K, Map<W, int>)>, k: K, m: Map<W, int>)
    requires
        entries_distinct(e),
        forall|j: int| 0 <= j < e.len() ==> (#[trigger] e[j]).0 != k,
    ensures
        entries_distinct(e.push((k, m))),
        counts_at(e.push((k, m)), k) == m,
        forall|x: K| x != k ==> #[trigger] counts_at(e.push((k, m)), x) == counts_at(e, x),
{
    let p = e.push((k, m));
    assert forall|a: int, b: int| 0 <= a < p.len() && 0 <= b < p.len() && a != b implies p[a].0 != p[b].0 by {
        if a < e.len() && b < e.len() {
            assert(p[a] == e[a] && p[b] == e[b]);
        } else if a < e.len() {
            assert(p[a] == e[a]);
        } else {
            assert(p[b] == e[b]);
        }
    }
    lemma_counts_at_entry(p, e.len() as int);
    assert forall|x: K| x != k implies #[trigger] counts_at(p, x) == counts_at(e, x) by {
        if exists|j: int| 0 <= j < e.len() && e[j].0 == x {
            let j = choose|j: int| 0 <= j < e.len() && e[j].0 == x;
            assert(p[j] == e[j]);
            lemma_counts_at_entry(e, j);
            lemma_counts_at_entry(p, j);
        } else {
            if exists|j: int| 0 <= j < p.len() && p[j].0 == x {
                let j = choose|j: int| 0 <= j < p.len() && p[j].0 == x;
                assert(p[j] == e[j]);
            }
        }
    }
}

/// The best pairs hold each pair once.
pub proof fn lemma_best_pairs_nonzero<K, V: TupleOrd>(c: Map<K, Map<V::V, int>>, reverse: bool)
    ensures
        nonzero(best_pairs::<K, V>(c, reverse)) == best_pairs::<K, V>(c, reverse),
{
    assert(nonzero(best_pairs::<K, V>(c, reverse)) =~= best_pairs::<K, V>(c, reverse));
}

/// Retracting the old best pair of key `k` and asserting the new one turns the best pairs of
/// `c1` into those of `c2`, where the counts differ at most at `k`.
pub proof fn lemma_best_pairs_step<K, V: TupleOrd>(c1: Map<K, Map<V::V, int>>, c2: Map<K, Map<V::V, int>>, k: K, reverse: bool)
    requires
        forall|x: K| x != k ==> #[trigger] c2[x] == c1[x],
    ensures
        nonzero(apply_all(best_pairs::<K, V>(c1, reverse), best_changes::<K, V>(c1, c2, k, reverse))) == best_pairs::<K, V>(c2, reverse),
{
    let b1 = best_pairs::<K, V>(c1, reverse);
    let b2 = best_pairs::<K, V>(c2, reverse);
    let ch = best_changes::<K, V>(c1, c2, k, reverse);
    let o = best_key::<V>(c1[k], reverse);
    let n = best_key::<V>(c2[k], reverse);
    let r = apply_all(b1, ch);
    if o == n {
        assert(ch =~= Seq::<((K, V::V), int)>::empty());
        assert(b1 =~= b2) by {
            assert forall|p: (K, V::V)| b1.contains_key(p) == b2.contains_key(p) by {
                if p.0 != k {
                    assert(c2[p.0] == c1[p.0]);
                }
            }
        }
        lemma_best_pairs_nonzero::<K, V>(c2, reverse);
    } else {
        // The effect of the changes on each pair.
        let step1 = match o {
            Some(x) => add_to(b1, (k, x), -1),
            None => b1,
        };
        let step2 = match n {
            Some(y) => add_to(step1, (k, y), 1),
            None => step1,
        };
        assert(r == step2) by {
            match o {
                Some(x) => {
                    match n {
                        Some(y) => {
                            assert(ch =~= seq![((k, x), -1int)].push(((k, y), 1int)));
                            lemma_apply_all_push(b1, seq![((k, x), -1int)], ((k, y), 1int));
                            lemma_apply_all_push(b1, Seq::empty(), ((k, x), -1int));
                            assert(Seq::<((K, V::V), int)>::empty().push(((k, x), -1int)) =~= seq![((k, x), -1int)]);
                        },
                        None => {
                            assert(ch =~= Seq::<((K, V::V), int)>::empty().push(((k, x), -1int)));
                            lemma_apply_all_push(b1, Seq::empty(), ((k, x), -1int));
                        },
                    }
                },
                None => {
                    match n {
                        Some(y) => {
                            assert(ch =~= Seq::<((K, V::V), int)>::empty().push(((k, y), 1int)));
                            lemma_apply_all_push(b1, Seq::empty(), ((k, y), 1int));
                        },
                        None => {},
                    }
                },
            }
        }
        assert forall|p: (K, V::V)| #[trigger] nonzero(r).contains_key(p) <==> b2.contains_key(p) by {
            assert(nonzero(r).contains_key(p) == (r.contains_key(p) && r[p] != 0));
            if p.0 != k {
                assert(c2[p.0] == c1[p.0]);
                assert(count_of(r, p) == count_of(b1, p));
            }
        }
        assert forall|p: (K, V::V)| #[trigger] nonzero(r).contains_key(p) implies nonzero(r)[p] == b2[p] by {
            assert(nonzero(r).contains_key(p) == (r.contains_key(p) && r[p] != 0));
            if p.0 != k {
                assert(c2[p.0] == c1[p.0]);
                assert(count_of(r, p) == count_of(b1, p));
            }
        }
        assert(nonzero(r) =~= b2);
    }
}

/// Applying the same changes to maps with the same non-zero entries gives maps with the same
/// non-zero entries.
pub proof fn lemma_nonzero_apply_all<K>(a: Map<K, int>, b: Map<K, int>, cs: Seq<(K, int)>)
    requires
        nonzero(a) == nonzero(b),
    ensures
        nonzero(apply_all(a, cs)) == nonzero(apply_all(b, cs)),
    decreases cs.len(),
{
    if cs.len() > 0 {
        lemma_nonzero_apply_all(a, b, cs.drop_last());
        lemma_nonzero_add(apply_all(a, cs.drop_last()), apply_all(b, cs.drop_last()), cs.last().0, cs.last().1);
    }
}

/// Applying two sequences of changes is applying their concatenation.
pub proof fn lemma_apply_all_concat<K>(m: Map<K, int>, a: Seq<(K, int)>, b: Seq<(K, int)>)
    ensures
        apply_all(m, a + b) == apply_all(apply_all(m, a), b),
    decreases b.len(),
{
    if b.len() == 0 {
        assert(a + b =~= a);
    } else {
        lemma_apply_all_concat(m, a, b.drop_last());
        assert((a + b).drop_last() =~= a + b.drop_last());
        assert((a + b).last() == b.last());
    }
}

/// Every change of `cs`, applied in order to the counts `c`, keeps its count within `i64`.
pub open spec fn all_fit<X, K, W>(c: Map<K, Map<W, int>>, cs: Seq<(X, int)>, gk: spec_fn(X) -> K, gv: spec_fn(X) -> W) -> bool
    decreases cs.len(),
{
    if cs.len() == 0 {
        true
    } else {
        let p = steps(c, cs.drop_last(), gk, gv);
        all_fit(c, cs.drop_last(), gk, gv) && change_fits(p, gk(cs.last().0), gv(cs.last().0), cs.last().1)
    }
}

/// The changes a max relation hands out, applied to the `(key, best value)` pairs of the
/// counts before, give the pairs of the counts after: its output follows the best values.
pub proof fn lemma_max_output<X, K, V: TupleOrd>(
    c: Map<K, Map<V::V, int>>,
    cs: Seq<(X, int)>,
    gk: spec_fn(X) -> K,
    gv: spec_fn(X) -> V::V,
    reverse: bool,
)
    ensures
        nonzero(apply_all(best_pairs::<K, V>(c, reverse), max_output::<X, K, V>(c, cs, gk, gv, reverse)))
            == best_pairs::<K, V>(steps(c, cs, gk, gv), reverse),
    decreases cs.len(),
{
    let b0 = best_pairs::<K, V>(c, reverse);
    if cs.len() == 0 {
        lemma_best_pairs_nonzero::<K, V>(c, reverse);
    } else {
        let prev = cs.drop_last();
        lemma_max_output::<X, K, V>(c, prev, gk, gv, reverse);
        let p = steps(c, prev, gk, gv);
        let k = gk(cs.last().0);
        let c2 = step_counts(p, k, gv(cs.last().0), cs.last().1);
        let ch = best_changes::<K, V>(p, c2, k, reverse);
        let before = max_output::<X, K, V>(c, prev, gk, gv, reverse);
        lemma_apply_all_concat(b0, before, ch);
        lemma_best_pairs_nonzero::<K, V>(p, reverse);
        lemma_nonzero_apply_all(apply_all(b0, before), best_pairs::<K, V>(p, reverse), ch);
        assert forall|x: K| x != k implies #[trigger] c2[x] == p[x] by {}
        lemma_best_pairs_step::<K, V>(p, c2, k, reverse);
    }
}

/// The views of the entries of a table from keys to value counts.
pub open spec fn table_entries<K: Tuple, V: TupleOrd>(vals: Seq<(K, GroupSumState<V>)>) -> Seq<(K::V, Map<V::V, int>)> {
    vals.map_values(|e: (K, GroupSumState<V>)| (e.0@, e.1@))
}

/// The table's keys are distinct and each has some non-zero count.
pub open spec fn table_wf<K: Tuple, V: TupleOrd>(vals: Seq<(K, GroupSumState<V>)>) -> bool {
    &&& entries_distinct(table_entries(vals))
    &&& forall|i: int| 0 <= i < vals.len() ==> (#[trigger] vals[i]).1@ != Map::<V::V, int>::empty()
}

/// The index of the entry for `k`, if there is one.
fn find_key<K: Tuple, V: TupleOrd>(vals: &Vec<(K, GroupSumState<V>)>, k: &K) -> (r: Option<usize>)
    ensures
        match r {
            Some(i) => i < vals@.len() && vals@[i as int].0@ == k@,
            None => forall|i: int| 0 <= i < vals@.len() ==> vals@[i].0@ != k@,
        },
{
    let mut i: usize = 0;
    while i < vals.len()
        invariant
            i <= vals@.len(),
            forall|j: int| 0 <= j < i ==> vals@[j].0@ != k@,
        decreases vals@.len() - i,
    {
        if vals[i].0.tuple_eq(k) {
            return Some(i);
        }
        i = i + 1;
    }
    None
}

/// Apply one change to the table: add `d` to the count of `v` under `k` (dropping zero counts
/// and empty keys) and append to `out` the changes to the best pairs. A change whose count
/// would leave `i64` is skipped; the result says whether it was applied.
fn apply_to_table<K: Tuple, V: TupleOrd>(
    vals: &mut Vec<(K, GroupSumState<V>)>,
    k: K,
    v: V,
    d: Diff,
    reverse: bool,
    out: &mut Vec<((K, V), Diff)>,
) -> (fits: bool)
    requires
        table_wf(old(vals)@),
    ensures
        table_wf(final(vals)@),
        fits == change_fits(counts_view(table_entries(old(vals)@)), k@, v@, d.0 as int),
        counts_view(table_entries(final(vals)@)) == step_counts(counts_view(table_entries(old(vals)@)), k@, v@, d.0 as int),
        pair_views(final(out)@) == pair_views(old(out)@) + if fits {
            best_changes::<K::V, V>(
                counts_view(table_entries(old(vals)@)),
                counts_view(table_entries(final(vals)@)),
                k@,
                reverse,
            )
        } else {
            Seq::empty()
        },
{
    let ghost e0 = table_entries(vals@);
    let ghost c0 = counts_view(e0);
    let found = find_key(vals, &k);
    let ghost ev = table_entries(vals@);
    let (kk, mut st) = match found {
        Some(i) => {
            proof {
                assert(ev[i as int] == (vals@[i as int].0@, vals@[i as int].1@));
                lemma_counts_at_entry(e0, i as int);
                lemma_counts_at_remove(e0, i as int);
            }
            vals.remove(i)
        },
        None => {
            proof {
                if exists|j: int| 0 <= j < e0.len() && e0[j].0 == k@ {
                    let j = choose|j: int| 0 <= j < e0.len() && e0[j].0 == k@;
                    assert(e0[j].0 == vals@[j].0@);
                }
            }
            (k.tuple_clone(), GroupSumState::new())
        },
    };
    // The table without the entry for `k`, and that entry's counts.
    let ghost e1 = table_entries(vals@);
    proof {
        assert(kk@ == k@);
        assert(st@ == c0[k@]);
        match found {
            Some(i) => {
                assert(e1 =~= e0.remove(i as int));
            },
            None => {
                assert(e1 == e0);
            },
        }
        assert(entries_distinct(e1));
        assert forall|j: int| 0 <= j < e1.len() implies (#[trigger] e1[j]).0 != k@ by {
            match found {
                Some(i) => {},
                None => {
                    assert(e1[j].0 == vals@[j].0@);
                },
            }
        }
        assert forall|x: K::V| x != k@ implies #[trigger] counts_at(e1, x) == c0[x] by {}
        assert forall|i: int| 0 <= i < vals@.len() implies (#[trigger] vals@[i]).1@ != Map::<V::V, int>::empty() by {
            match found {
                Some(j) => {
                    let i2 = if i < j { i } else { i + 1 };
                    assert(vals@[i] == old(vals)@[i2]);
                },
                None => {},
            }
        }
    }
    let kc = kk.tuple_clone();
    let c = st.sum_of(&v);
    if (d.0 > 0 && c > i64::MAX - d.0) || (d.0 < 0 && c < i64::MIN - d.0) {
        // The count would leave `i64`: put the entry back unchanged.
        if found.is_some() {
            let ghost before = vals@;
            vals.push((kk, st));
            proof {
                assert(table_entries(vals@) =~= table_entries(before).push((k@, c0[k@])));
                lemma_counts_at_push(e1, k@, c0[k@]);
                assert(counts_view(table_entries(vals@)) =~= c0);
            }
        } else {
            proof {
                assert(counts_view(table_entries(vals@)) =~= c0) by {
                    assert forall|x: K::V| #[trigger] counts_view(table_entries(vals@))[x] == c0[x] by {
                        if x == k@ {
                            assert(!(exists|j: int| 0 <= j < e1.len() && e1[j].0 == x));
                        }
                    }
                }
            }
        }
        return false;
    }
    let old_best = st.best(reverse);
    st.apply_change(v, 1, d);
    let new_best = st.best(reverse);
    let ghost m2 = st@;
    if !st.is_empty() {
        let ghost before = vals@;
        vals.push((kk, st));
        proof {
            assert(table_entries(vals@) =~= table_entries(before).push((k@, m2)));
            lemma_counts_at_push(e1, k@, m2);
            assert forall|i: int| 0 <= i < vals@.len() implies (#[trigger] vals@[i]).1@ != Map::<V::V, int>::empty() by {
                if i < before.len() {
                    assert(vals@[i] == before[i]);
                }
            }
        }
    } else {
        proof {
            assert(counts_at(e1, k@) =~= m2) by {
                if exists|j: int| 0 <= j < e1.len() && e1[j].0 == k@ {
                    let j = choose|j: int| 0 <= j < e1.len() && e1[j].0 == k@;
                }
            }
        }
    }
    let ghost c2 = counts_view(table_entries(vals@));
    proof {
        assert(c2 =~= step_counts(c0, k@, v@, d.0 as int)) by {
            assert forall|x: K::V| #[trigger] c2[x] == step_counts(c0, k@, v@, d.0 as int)[x] by {
                if x == k@ {
                    assert(c2[x] == m2);
                } else {
                    assert(c2[x] == counts_at(e1, x));
                }
            }
        }
        assert(c2[k@] == m2);
    }
    let same = match (&old_best, &new_best) {
        (None, None) => true,
        (Some(a), Some(b)) => a.tuple_eq(b),
        _ => false,
    };
    let ghost out0 = out@;
    if !same {
        match old_best {
            Some(o) => {
                out.push(((kc.tuple_clone(), o), Diff(-1)));
            },
            None => {},
        }
        let ghost out1 = out@;
        match new_best {
            Some(n) => {
                out.push(((kc, n), Diff(1)));
            },
            None => {},
        }
        proof {
            let ch = best_changes::<K::V, V>(c0, c2, k@, reverse);
            assert(pair_views(out@) =~= pair_views(out0) + ch);
        }
    } else {
        proof {
            assert(pair_views(out@) =~= pair_views(out0) + Seq::<((K::V, V::V), int)>::empty());
        }
    }
    true
}

/// A max relation: for each key, the greatest value (with `reverse`, the least) among the
/// values of nonzero count, as `(key, value)` pairs.
#[verifier::reject_recursive_types(T)]
#[verifier::reject_recursive_types(K)]
#[verifier::reject_recursive_types(V)]
pub struct MaxRelation<T: Tuple, K: Tuple, V: TupleOrd, FK: Fn(&T) -> K, FV: Fn(&T) -> V, R: Relation<T>> {
    inner: R,
    key_fn: FK,
    val_fn: FV,
    /// For each key, the values with their counts.
    values: Vec<(K, GroupSumState<V>)>,
    reverse: bool,
    overflowed: bool,
    gk: Ghost<spec_fn(T::V) -> K::V>,
    gv: Ghost<spec_fn(T::V) -> V::V>,
    marker: PhantomData<T>,
}

impl<T: Tuple, K: Tuple, V: TupleOrd, FK: Fn(&T) -> K, FV: Fn(&T) -> V, R: Relation<T>> MaxRelation<T, K, V, FK, FV, R> {
    /// The table is well formed, the key and value functions can be called on every tuple with
    /// `gk` and `gv` saying what they return, and the input is well formed.
    pub closed spec fn inv(&self) -> bool {
        &&& self.inner.wf()
        &&& table_wf(self.values@)
        &&& fn_total(self.key_fn)
        &&& fn_total(self.val_fn)
        &&& implements(self.key_fn, self.gk@)
        &&& implements(self.val_fn, self.gv@)
    }

    /// For each key, the values with their counts.
    pub closed spec fn counts(&self) -> Map<K::V, Map<V::V, int>> {
        counts_view(table_entries(self.values@))
    }

    /// The input relation.
    pub closed spec fn input(&self) -> R {
        self.inner
    }

    /// The changes the input relation has pending.
    pub closed spec fn input_pending(&self) -> Seq<(T::V, int)> {
        self.inner.pending()
    }

    /// Whether the relation keeps the least value rather than the greatest.
    pub closed spec fn spec_reverse(&self) -> bool {
        self.reverse
    }

    /// A change was skipped because its count would have left `i64`.
    pub closed spec fn spec_overflowed(&self) -> bool {
        self.overflowed
    }

    /// The key of a tuple.
    pub closed spec fn key_of(&self) -> spec_fn(T::V) -> K::V {
        self.gk@
    }

    /// The value of a tuple.
    pub closed spec fn value_of(&self) -> spec_fn(T::V) -> V::V {
        self.gv@
    }

    /// Whether a change was skipped because its count would have left `i64`.
    pub fn was_overflowed(&self) -> (r: bool)
        ensures
            r == self.spec_overflowed(),
    {
        self.overflowed
    }

    /// The input relation, to feed it more changes. The counts and functions stay; the
    /// relation is well formed again once the input is.
    pub fn input_mut(&mut self) -> (r: &mut R)
        ensures
            *r == old(self).input(),
            final(self).counts() == old(self).counts(),
            final(self).input_pending() == final(r).pending(),
            final(self).spec_reverse() == old(self).spec_reverse(),
            final(self).spec_overflowed() == old(self).spec_overflowed(),
            final(self).key_of() == old(self).key_of(),
            final(self).value_of() == old(self).value_of(),
            old(self).wf() && final(r).wf() ==> final(self).wf(),
    {
        &mut self.inner
    }

    pub(crate) fn with_order(input: R, key_fn: FK, val_fn: FV, reverse: bool) -> (r: Self)
        requires
            fn_total(key_fn),
            fn_total(val_fn),
            is_function(key_fn),
            is_function(val_fn),
            input.wf(),
        ensures
            r.wf(),
            r.input_pending() == input.pending(),
            r.counts() == counts_view(Seq::<(K::V, Map<V::V, int>)>::empty()),
            r.spec_reverse() == reverse,
            !r.spec_overflowed(),
            r.key_of() == choose|g: spec_fn(T::V) -> K::V| implements(key_fn, g),
            r.value_of() == choose|g: spec_fn(T::V) -> V::V| implements(val_fn, g),
    {
        let ghost gk = choose|g: spec_fn(T::V) -> K::V| implements(key_fn, g);
        let ghost gv = choose|g: spec_fn(T::V) -> V::V| implements(val_fn, g);
        let values: Vec<(K, GroupSumState<V>)> = Vec::new();
        proof {
            assert(table_entries(values@) =~= Seq::<(K::V, Map<V::V, int>)>::empty());
        }
        MaxRelation {
            inner: input,
            key_fn,
            val_fn,
            values,
            reverse,
            overflowed: false,
            gk: Ghost(gk),
            gv: Ghost(gv),
            marker: PhantomData,
        }
    }
}

impl<T: Tuple, K: Tuple, V: TupleOrd, FK: Fn(&T) -> K, FV: Fn(&T) -> V, R: Relation<T>> Relation<(K, V)> for MaxRelation<T, K, V, FK, FV, R> {
    closed spec fn wf(&self) -> bool {
        self.inv()
    }

    /// The changes to the `(key, best value)` pairs as the input's pending changes are counted.
    closed spec fn pending(&self) -> Seq<((K::V, V::V), int)> {
        max_output::<T::V, K::V, V>(self.counts(), self.inner.pending(), self.gk@, self.gv@, self.reverse)
    }

    /// Take the changes of `inner` and update the counts of each key's values; the result is
    /// the changes to the `(key, best value)` pairs. A change whose count would leave `i64` is
    /// skipped and marks the relation as overflowed.
    fn foreach(&mut self) -> (r: Vec<((K, V), Diff)>)
        ensures
            pair_views(r@) == max_output::<T::V, K::V, V>(
                old(self).counts(),
                old(self).input_pending(),
                old(self).key_of(),
                old(self).value_of(),
                old(self).spec_reverse(),
            ),
            final(self).counts() == steps(old(self).counts(), old(self).input_pending(), old(self).key_of(), old(self).value_of()),
            final(self).spec_overflowed() == (old(self).spec_overflowed()
                || !all_fit(old(self).counts(), old(self).input_pending(), old(self).key_of(), old(self).value_of())),
            final(self).spec_reverse() == old(self).spec_reverse(),
            final(self).key_of() == old(self).key_of(),
            final(self).value_of() == old(self).value_of(),
    {
        let ghost c0 = self.counts();
        let ghost rev = self.reverse;
        let mut changes = self.inner.foreach();
        let ghost cs = changes@;
        let ghost csv = pair_views(cs);
        let total = changes.len();
        let mut vals: Vec<(K, GroupSumState<V>)> = Vec::new();
        proof {
            assert(table_entries(vals@) =~= Seq::<(K::V, Map<V::V, int>)>::empty());
        }
        std::mem::swap(&mut vals, &mut self.values);
        let mut out: Vec<((K, V), Diff)> = Vec::new();
        let mut done: usize = 0;
        proof {
            assert(csv.subrange(0, 0) =~= Seq::<(T::V, int)>::empty());
            assert(pair_views(out@) =~= Seq::<((K::V, V::V), int)>::empty());
        }
        while changes.len() > 0
            invariant
                self.inner.wf(),
                fn_total(self.key_fn),
                fn_total(self.val_fn),
                implements(self.key_fn, self.gk@),
                implements(self.val_fn, self.gv@),
                self.reverse == rev,
                csv == pair_views(cs),
                cs.len() == total,
                done + changes@.len() == cs.len(),
                changes@ == cs.subrange(done as int, cs.len() as int),
                table_wf(vals@),
                counts_view(table_entries(vals@)) == steps(c0, csv.subrange(0, done as int), self.gk@, self.gv@),
                pair_views(out@) == max_output::<T::V, K::V, V>(c0, csv.subrange(0, done as int), self.gk@, self.gv@, rev),
                self.overflowed == (old(self).overflowed || !all_fit(c0, csv.subrange(0, done as int), self.gk@, self.gv@)),
                self.gk == old(self).gk,
                self.gv == old(self).gv,
            decreases changes@.len(),
        {
            let ghost before_changes = changes@;
            let (t, d) = changes.remove(0);
            proof {
                assert(before_changes[0] == cs[done as int]);
                assert(changes@ =~= cs.subrange(done + 1, cs.len() as int));
            }
            let k = (self.key_fn)(&t);
            let v = (self.val_fn)(&t);
            let ghost cprev = counts_view(table_entries(vals@));
            let ghost out0 = out@;
            let fits = apply_to_table(&mut vals, k, v, d, self.reverse, &mut out);
            if !fits {
                self.overflowed = true;
            }
            proof {
                let c2 = counts_view(table_entries(vals@));
                let sub = csv.subrange(0, done + 1);
                assert(csv[done as int] == (t@, d.0 as int));
                assert(csv.subrange(0, done as int) =~= sub.drop_last());
                assert(sub.last() == (t@, d.0 as int));
                assert(c2 == steps(c0, sub, self.gk@, self.gv@));
                if !fits {
                    assert(pair_views(out@) =~= pair_views(out0) + best_changes::<K::V, V>(cprev, c2, k@, rev));
                }
            }
            done = done + 1;
        }
        proof {
            assert(csv.subrange(0, done as int) =~= csv);
        }
        self.values = vals;
        out
    }
}

/// Create a max relation: for each key, the greatest value among the tuples of nonzero count.
pub fn max<T: Tuple, K: Tuple, V: TupleOrd, FK: Fn(&T) -> K, FV: Fn(&T) -> V, R: Relation<T>>(
    input: R,
    key_fn: FK,
    val_fn: FV,
) -> (r: MaxRelation<T, K, V, FK, FV, R>)
    requires
        fn_total(key_fn),
        fn_total(val_fn),
        is_function(key_fn),
        is_function(val_fn),
        input.wf(),
    ensures
        r.wf(),
        r.input_pending() == input.pending(),
        r.counts() == counts_view(Seq::<(K::V, Map<V::V, int>)>::empty()),
        !r.spec_reverse(),
        !r.spec_overflowed(),
        r.key_of() == choose|g: spec_fn(T::V) -> K::V| implements(key_fn, g),
        r.value_of() == choose|g: spec_fn(T::V) -> V::V| implements(val_fn, g),
{
    MaxRelation::with_order(input, key_fn, val_fn, false)
}

} // verus!
