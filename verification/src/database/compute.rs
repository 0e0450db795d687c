//! How the state of a derived node is computed from the states of the nodes it reads.
//!
//! Each operation first lists the changes it makes (a sequence of values with
//! multiplicities) and then adds them up. The sum is only computed where every partial
//! sum, and every product of multiplicities, fits in `i64`; elsewhere the result is `None`.

use vstd::prelude::*;

use crate::change::{Change, Diff};
use crate::collection::{
    Collection, apply_all, applies_in_range, changes_view, count_of, lemma_applies_prefix,
    lemma_apply_all_push, lemma_changes_view_push, nonzero, keys_distinct, seq_to_map, lemma_apply_all_append,
};
use crate::dataflow::graph::{DataflowGraph, Node, NodeId, NodeOp, node_wf, op_inputs, op_wf};
use crate::dataflow::traits::{ValFlat, ValFn, ValInt, ValLess, ValPred};
use crate::operators::basic::{distinct_view, filter_entries, lemma_filter_entries};
use crate::operators::join::{join_seq, matches_of};
use crate::tuple::{Val, ValView, val_clone, val_eq, val_pair};

verus! {

/// The collection that the changes `cs` add up to, where every partial sum fits in `i64`.
pub open spec fn sum_changes(cs: Seq<(ValView, int)>) -> Option<Map<ValView, int>> {
    if applies_in_range(Map::empty(), cs) {
        Some(nonzero(apply_all(Map::empty(), cs)))
    } else {
        None
    }
}

/// Add up a list of changes, from the empty collection, removing zero entries at the end.
pub fn collect_checked(changes: &Vec<Change<Val>>) -> (r: Option<Collection<Val>>)
    ensures
        r matches Some(c) ==> sum_changes(changes_view(changes@)) == Some(c@),
        r is None ==> sum_changes(changes_view(changes@)) is None,
{
    let ghost cs = changes_view(changes@);
    let mut out: Collection<Val> = Collection::new();
    let mut i: usize = 0;
    while i < changes.len()
        invariant
            i <= changes@.len(),
            cs == changes_view(changes@),
            cs.len() == changes@.len(),
            crate::collection::nonzero(out@) == crate::collection::nonzero(apply_all(Map::<ValView, int>::empty(), cs.subrange(0, i as int))),
            applies_in_range(Map::<ValView, int>::empty(), cs.subrange(0, i as int)),
        decreases changes@.len() - i,
    {
        let c = &changes[i];
        let cur = out.get(&c.tuple);
        proof {
            assert(cs[i as int] == (c.tuple@, c.diff.0 as int));
            assert(cs.subrange(0, i as int + 1) =~= cs.subrange(0, i as int).push(cs[i as int]));
            lemma_apply_all_push(Map::<ValView, int>::empty(), cs.subrange(0, i as int), cs[i as int]);
            crate::collection::lemma_nonzero_add(out@, apply_all(Map::<ValView, int>::empty(), cs.subrange(0, i as int)), c.tuple@, c.diff.0 as int);
            crate::collection::lemma_change_at_counts(out@, c.tuple@, c.diff.0 as int);
        }
        match cur.0.checked_add(c.diff.0) {
            None => {
                proof {
                    if applies_in_range(Map::<ValView, int>::empty(), cs) {
                        lemma_applies_prefix(Map::<ValView, int>::empty(), cs, i as int + 1);
                    }
                }
                return None;
            },
            Some(_) => {
                out.apply_change(Change::new(val_clone(&c.tuple), c.diff));
            },
        }
        i = i + 1;
    }
    assert(cs.subrange(0, changes@.len() as int) =~= cs);
    out.compact();
    proof {
        crate::collection::lemma_nonzero_idem_collection(apply_all(Map::<ValView, int>::empty(), cs));
    }
    Some(out)
}


/// `r` is the collection `m` describes: both absent, or `r` holding `m`'s map.
pub open spec fn result_is(r: Option<Collection<Val>>, m: Option<Map<ValView, int>>) -> bool {
    match r {
        Some(c) => m == Some(c@),
        None => m is None,
    }
}

/// Each entry with its value replaced by `f` of it.
pub open spec fn transform_changes(e: Seq<(ValView, int)>, f: spec_fn(ValView) -> ValView) -> Seq<(ValView, int)> {
    Seq::new(e.len(), |i: int| (f(e[i].0), e[i].1))
}

/// Whether `p` holds of the value of each entry.
pub open spec fn test_bits(e: Seq<(ValView, int)>, p: spec_fn(ValView) -> bool) -> Seq<bool> {
    Seq::new(e.len(), |i: int| p(e[i].0))
}

/// The entries whose value satisfies `p`.
pub open spec fn filter_changes(e: Seq<(ValView, int)>, p: spec_fn(ValView) -> bool) -> Seq<(ValView, int)> {
    filter_entries(e, test_bits(e, p), e.len() as int)
}

/// The multiplicity the entries of `e`, mapped through `f`, give `y`: the sum of the
/// multiplicities of the entries whose value `f` takes to `y`.
pub open spec fn image_total(e: Seq<(ValView, int)>, f: spec_fn(ValView) -> ValView, y: ValView) -> int
    decreases e.len(),
{
    if e.len() == 0 {
        0
    } else {
        image_total(e.drop_last(), f, y) + if f(e.last().0) == y { e.last().1 } else { 0 }
    }
}

/// Adding the transformed entries of `e` gives each value its image total.
pub proof fn lemma_transform_count(e: Seq<(ValView, int)>, f: spec_fn(ValView) -> ValView, y: ValView)
    ensures
        count_of(apply_all(Map::empty(), transform_changes(e, f)), y) == image_total(e, f, y),
    decreases e.len(),
{
    if e.len() > 0 {
        let p = e.drop_last();
        lemma_transform_count(p, f, y);
        let c = (f(e.last().0), e.last().1);
        assert(transform_changes(e, f) =~= transform_changes(p, f).push(c));
        lemma_apply_all_push(Map::empty(), transform_changes(p, f), c);
    } else {
        assert(transform_changes(e, f) =~= Seq::<(ValView, int)>::empty());
    }
}

/// Adding the first `n` entries of `e` that satisfy `p` gives a value that satisfies `p` what
/// those entries give it, and any other value nothing.
pub proof fn lemma_filter_count(e: Seq<(ValView, int)>, p: spec_fn(ValView) -> bool, n: int, v: ValView)
    requires
        0 <= n <= e.len(),
    ensures
        count_of(apply_all(Map::empty(), filter_entries(e, test_bits(e, p), n)), v) == if p(v) {
            count_of(apply_all(Map::empty(), e.subrange(0, n)), v)
        } else {
            0
        },
    decreases n,
{
    let bits = test_bits(e, p);
    if n > 0 {
        lemma_filter_count(e, p, n - 1, v);
        let prev = filter_entries(e, bits, n - 1);
        let x = e[n - 1];
        assert(e.subrange(0, n) =~= e.subrange(0, n - 1).push(x));
        lemma_apply_all_push(Map::empty(), e.subrange(0, n - 1), x);
        if bits[n - 1] {
            assert(filter_entries(e, bits, n) =~= prev.push(x));
            lemma_apply_all_push(Map::empty(), prev, x);
        } else {
            assert(filter_entries(e, bits, n) =~= prev);
        }
    } else {
        assert(filter_entries(e, bits, 0) =~= Seq::<(ValView, int)>::empty());
        assert(e.subrange(0, 0) =~= Seq::<(ValView, int)>::empty());
    }
}

/// The values of each entry mapped through `f`.
pub open spec fn keys_of_entries(e: Seq<(ValView, int)>, f: spec_fn(ValView) -> ValView) -> Seq<ValView> {
    Seq::new(e.len(), |i: int| f(e[i].0))
}

/// The transformed entries `f` makes of the entries of `e`.
pub fn compute_transform(input: &Collection<Val>, f: &Box<dyn ValFn>) -> (r: Option<Collection<Val>>)
    requires
        f.wf(),
    ensures
        result_is(r, sum_changes(transform_changes(input.entries(), |v: ValView| f.spec_apply(v)))),
{
    let items = input.iter_with_multiplicity();
    let ghost e = input.entries();
    let ghost target = transform_changes(e, |v: ValView| f.spec_apply(v));
    let mut changes: Vec<Change<Val>> = Vec::new();
    let mut i: usize = 0;
    while i < items.len()
        invariant
            i <= items@.len(),
            items@.len() == e.len(),
            forall|j: int| 0 <= j < items@.len() ==> (#[trigger] items@[j]).0@ == e[j].0 && items@[j].1.0 == e[j].1,
            f.wf(),
            target == transform_changes(e, |v: ValView| f.spec_apply(v)),
            changes_view(changes@) =~= target.subrange(0, i as int),
        decreases items@.len() - i,
    {
        let v = f.apply(items[i].0);
        let c = Change::new(v, items[i].1);
        proof {
            lemma_changes_view_push(changes@, c);
        }
        changes.push(c);
        i = i + 1;
    }
    assert(target.subrange(0, e.len() as int) =~= target);
    collect_checked(&changes)
}

/// The entries whose value satisfies `p`.
pub fn compute_filter(input: &Collection<Val>, p: &Box<dyn ValPred>) -> (r: Option<Collection<Val>>)
    requires
        p.wf(),
    ensures
        result_is(r, sum_changes(filter_changes(input.entries(), |v: ValView| p.spec_test(v)))),
{
    let items = input.iter_with_multiplicity();
    let ghost e = input.entries();
    let ghost bits = test_bits(e, |v: ValView| p.spec_test(v));
    let mut changes: Vec<Change<Val>> = Vec::new();
    let mut i: usize = 0;
    while i < items.len()
        invariant
            i <= items@.len(),
            items@.len() == e.len(),
            forall|j: int| 0 <= j < items@.len() ==> (#[trigger] items@[j]).0@ == e[j].0 && items@[j].1.0 == e[j].1,
            p.wf(),
            bits == test_bits(e, |v: ValView| p.spec_test(v)),
            changes_view(changes@) =~= filter_entries(e, bits, i as int),
        decreases items@.len() - i,
    {
        let keep = p.test(items[i].0);
        if keep {
            let c = Change::new(val_clone(items[i].0), items[i].1);
            proof {
                lemma_changes_view_push(changes@, c);
                assert(filter_entries(e, bits, i as int + 1) =~= filter_entries(e, bits, i as int).push(e[i as int]));
            }
            changes.push(c);
        } else {
            assert(filter_entries(e, bits, i as int + 1) =~= filter_entries(e, bits, i as int));
        }
        i = i + 1;
    }
    collect_checked(&changes)
}

/// Push a copy of each entry of `items`.
fn push_entries(changes: &mut Vec<Change<Val>>, items: &Vec<(&Val, Diff)>, Ghost(e): Ghost<Seq<(ValView, int)>>)
    requires
        items@.len() == e.len(),
        forall|j: int| 0 <= j < items@.len() ==> (#[trigger] items@[j]).0@ == e[j].0 && items@[j].1.0 == e[j].1,
        forall|j: int| 0 <= j < e.len() ==> i64::MIN <= #[trigger] e[j].1 <= i64::MAX,
    ensures
        changes_view(final(changes)@) == changes_view(old(changes)@) + e,
{
    let ghost start = changes_view(changes@);
    let ghost add = e;
    let mut i: usize = 0;
    while i < items.len()
        invariant
            i <= items@.len(),
            items@.len() == e.len(),
            forall|j: int| 0 <= j < items@.len() ==> (#[trigger] items@[j]).0@ == e[j].0 && items@[j].1.0 == e[j].1,
            forall|j: int| 0 <= j < e.len() ==> i64::MIN <= #[trigger] e[j].1 <= i64::MAX,
            add == e,
            changes_view(changes@) =~= start + add.subrange(0, i as int),
        decreases items@.len() - i,
    {
        let d = items[i].1;
        assert(e[i as int].1 == d.0);
        let c = Change::new(val_clone(items[i].0), d);
        proof {
            lemma_changes_view_push(changes@, c);
            assert(add[i as int] == (c.tuple@, c.diff.0 as int));
        }
        changes.push(c);
        i = i + 1;
    }
    assert(add.subrange(0, e.len() as int) =~= add);
}


/// The sum of the two collections.
pub fn compute_union(left: &Collection<Val>, right: &Collection<Val>) -> (r: Option<Collection<Val>>)
    ensures
        result_is(r, sum_changes(left.entries() + right.entries())),
{
    let li = left.iter_with_multiplicity();
    let ri = right.iter_with_multiplicity();
    let mut changes: Vec<Change<Val>> = Vec::new();
    assert(changes_view(changes@) =~= Seq::<(ValView, int)>::empty());
    push_entries(&mut changes, &li, Ghost(left.entries()));
    push_entries(&mut changes, &ri, Ghost(right.entries()));
    assert(Seq::<(ValView, int)>::empty() + left.entries() + right.entries() =~= left.entries() + right.entries());
    collect_checked(&changes)
}

/// The tuples in `l` but not in `r` (of positive multiplicity in `l` and not in `r`), once each.
pub open spec fn set_difference(l: Map<ValView, int>, r: Map<ValView, int>) -> Map<ValView, int> {
    Map::new(|k: ValView| count_of(l, k) > 0 && count_of(r, k) <= 0, |k: ValView| 1int)
}

/// The tuples in the left collection but not in the right one, once each.
pub fn compute_difference(left: &Collection<Val>, right: &Collection<Val>) -> (r: Collection<Val>)
    ensures
        r@ == set_difference(left@, right@),
{
    let items = left.iter();
    let mut out: Collection<Val> = Collection::new();
    let mut i: usize = 0;
    while i < items.len()
        invariant
            i <= items@.len(),
            forall|a: int| 0 <= a < items@.len() ==> count_of(left@, (#[trigger] items@[a])@) > 0,
            forall|a: int, b: int| 0 <= a < items@.len() && 0 <= b < items@.len() && a != b ==> items@[a]@ != items@[b]@,
            forall|k: ValView| #[trigger] out@.contains_key(k) <==> exists|a: int| 0 <= a < i && items@[a]@ == k && count_of(right@, k) <= 0,
            forall|k: ValView| #[trigger] out@.contains_key(k) ==> out@[k] == 1,
        decreases items@.len() - i,
    {
        let v = items[i];
        if right.get(v).0 <= 0 {
            proof {
                assert(!out@.contains_key(v@)) by {
                    if out@.contains_key(v@) {
                        let a = choose|a: int| 0 <= a < i && items@[a]@ == v@ && count_of(right@, v@) <= 0;
                        assert(items@[a]@ != items@[i as int]@);
                    }
                }
            }
            out.insert(val_clone(v));
        }
        proof {
            assert forall|k: ValView| #[trigger] out@.contains_key(k) <==> exists|a: int| 0 <= a < i + 1 && items@[a]@ == k && count_of(right@, k) <= 0 by {
                if exists|a: int| 0 <= a < i + 1 && items@[a]@ == k && count_of(right@, k) <= 0 {
                    let a = choose|a: int| 0 <= a < i + 1 && items@[a]@ == k && count_of(right@, k) <= 0;
                    if a < i {
                        assert(exists|b: int| 0 <= b < i && items@[b]@ == k && count_of(right@, k) <= 0);
                    }
                }
            }
        }
        i = i + 1;
    }
    proof {
        assert forall|k: ValView| #[trigger] out@.contains_key(k) <==> set_difference(left@, right@).contains_key(k) by {
            if count_of(left@, k) > 0 && count_of(right@, k) <= 0 {
                let a = choose|a: int| 0 <= a < items@.len() && items@[a]@ == k;
                assert(exists|b: int| 0 <= b < items@.len() && items@[b]@ == k && count_of(right@, k) <= 0);
            }
            if out@.contains_key(k) {
                let a = choose|a: int| 0 <= a < items@.len() && items@[a]@ == k && count_of(right@, k) <= 0;
                assert(count_of(left@, items@[a]@) > 0);
            }
        }
        assert(out@ =~= set_difference(left@, right@));
    }
    out
}

/// Each value of positive multiplicity, once.
pub fn compute_distinct(input: &Collection<Val>) -> (r: Collection<Val>)
    ensures
        r@ == distinct_view(input@),
{
    let items = input.iter();
    let mut out: Collection<Val> = Collection::new();
    let mut i: usize = 0;
    while i < items.len()
        invariant
            i <= items@.len(),
            forall|a: int| 0 <= a < items@.len() ==> count_of(input@, (#[trigger] items@[a])@) > 0,
            forall|a: int, b: int| 0 <= a < items@.len() && 0 <= b < items@.len() && a != b ==> items@[a]@ != items@[b]@,
            forall|k: ValView| #[trigger] out@.contains_key(k) <==> exists|a: int| 0 <= a < i && items@[a]@ == k,
            forall|k: ValView| #[trigger] out@.contains_key(k) ==> out@[k] == 1,
        decreases items@.len() - i,
    {
        let v = items[i];
        proof {
            assert(!out@.contains_key(v@)) by {
                if out@.contains_key(v@) {
                    let a = choose|a: int| 0 <= a < i && items@[a]@ == v@;
                    assert(items@[a]@ != items@[i as int]@);
                }
            }
        }
        out.insert(val_clone(v));
        proof {
            assert forall|k: ValView| (exists|a: int| 0 <= a < i + 1 && items@[a]@ == k) implies #[trigger] out@.contains_key(k) by {
                {
                    let a = choose|a: int| 0 <= a < i + 1 && items@[a]@ == k;
                    if a < i {
                        assert(exists|b: int| 0 <= b < i && items@[b]@ == k);
                    }
                }
            }
        }
        i = i + 1;
    }
    proof {
        assert forall|k: ValView| #[trigger] out@.contains_key(k) <==> distinct_view(input@).contains_key(k) by {
            if count_of(input@, k) > 0 {
                let a = choose|a: int| 0 <= a < items@.len() && items@[a]@ == k;
                assert(exists|b: int| 0 <= b < items@.len() && items@[b]@ == k);
            }
            if out@.contains_key(k) {
                let a = choose|a: int| 0 <= a < items@.len() && items@[a]@ == k;
                assert(count_of(input@, items@[a]@) > 0);
            }
        }
        assert(out@ =~= distinct_view(input@));
    }
    out
}


/// Each value of `s`, with multiplicity one.
pub open spec fn ones(s: Seq<ValView>) -> Seq<(ValView, int)> {
    Seq::new(s.len(), |i: int| (s[i], 1int))
}

/// For each of the first `n` entries of positive multiplicity, the values `f` gives for it,
/// each once.
pub open spec fn flat_changes(e: Seq<(ValView, int)>, f: spec_fn(ValView) -> Seq<ValView>, n: int) -> Seq<(ValView, int)>
    decreases n,
{
    if n <= 0 {
        Seq::empty()
    } else {
        flat_changes(e, f, n - 1) + if e[n - 1].1 > 0 {
            ones(f(e[n - 1].0))
        } else {
            Seq::empty()
        }
    }
}

/// The values `f` gives for each value of positive multiplicity, each counted once per time
/// it is given.
pub fn compute_flat_map(input: &Collection<Val>, f: &Box<dyn ValFlat>) -> (r: Option<Collection<Val>>)
    requires
        f.wf(),
    ensures
        result_is(r, sum_changes(flat_changes(input.entries(), |v: ValView| f.spec_apply(v), input.entries().len() as int))),
{
    let items = input.iter_with_multiplicity();
    let ghost e = input.entries();
    let ghost sf = |v: ValView| f.spec_apply(v);
    let mut changes: Vec<Change<Val>> = Vec::new();
    let mut i: usize = 0;
    while i < items.len()
        invariant
            i <= items@.len(),
            items@.len() == e.len(),
            forall|j: int| 0 <= j < items@.len() ==> (#[trigger] items@[j]).0@ == e[j].0 && items@[j].1.0 == e[j].1,
            f.wf(),
            sf == (|v: ValView| f.spec_apply(v)),
            changes_view(changes@) =~= flat_changes(e, sf, i as int),
        decreases items@.len() - i,
    {
        if items[i].1.is_positive() {
            let us = f.apply(items[i].0);
            let ghost start = changes_view(changes@);
            let ghost want = ones(sf(e[i as int].0));
            assert(us@.map_values(|x: Val| x@) == sf(e[i as int].0));
            let mut j: usize = 0;
            while j < us.len()
                invariant
                    j <= us@.len(),
                    want.len() == us@.len(),
                    forall|k: int| 0 <= k < us@.len() ==> want[k] == ((#[trigger] us@[k])@, 1int),
                    changes_view(changes@) =~= start + want.subrange(0, j as int),
                decreases us@.len() - j,
            {
                let c = Change::new(val_clone(&us[j]), Diff(1));
                proof {
                    lemma_changes_view_push(changes@, c);
                }
                changes.push(c);
                j = j + 1;
            }
            assert(want.subrange(0, us@.len() as int) =~= want);
        } else {
            assert(flat_changes(e, sf, i as int + 1) =~= flat_changes(e, sf, i as int));
        }
        i = i + 1;
    }
    collect_checked(&changes)
}

/// The joined pairs as pair values.
pub open spec fn pair_changes(s: Seq<((ValView, ValView), int)>) -> Seq<(ValView, int)> {
    Seq::new(s.len(), |i: int| (ValView::Pair(Box::new(s[i].0.0), Box::new(s[i].0.1)), s[i].1))
}

/// Every product of the multiplicities of two entries with equal keys fits in `i64`.
pub open spec fn join_fits(el: Seq<(ValView, int)>, kl: Seq<ValView>, er: Seq<(ValView, int)>, kr: Seq<ValView>) -> bool {
    forall|i: int, j: int|
        0 <= i < el.len() && 0 <= j < er.len() && kl[i] == kr[j] ==> i64::MIN <= #[trigger] (el[i].1 * er[j].1) <= i64::MAX
}

/// The join of the entries of `el` and `er` on equal keys, as pair values.
pub open spec fn join_changes(el: Seq<(ValView, int)>, kl: Seq<ValView>, er: Seq<(ValView, int)>, kr: Seq<ValView>) -> Seq<(ValView, int)> {
    pair_changes(join_seq(el, kl, er, kr, el.len() as int))
}

/// The key, in `keys`, of the entry for `v` among the first `n` entries of `s` (the last such
/// entry), if there is one.
pub open spec fn key_in(s: Seq<(ValView, int)>, keys: Seq<ValView>, n: int, v: ValView) -> Option<ValView>
    decreases n,
{
    if n <= 0 {
        None
    } else if s[n - 1].0 == v {
        Some(keys[n - 1])
    } else {
        key_in(s, keys, n - 1, v)
    }
}

/// The multiplicity the pairs of `x` (whose key is `kx`) with the first `n` entries of `ys`
/// of key `kx` give the pair value `q`.
pub open spec fn pair_count(x: (ValView, int), kx: ValView, ys: Seq<(ValView, int)>, yk: Seq<ValView>, n: int, q: ValView) -> int
    decreases n,
{
    if n <= 0 {
        0
    } else {
        pair_count(x, kx, ys, yk, n - 1, q) + if yk[n - 1] == kx && q == pair_view(x.0, ys[n - 1].0) {
            x.1 * ys[n - 1].1
        } else {
            0
        }
    }
}

/// The multiplicity the join of the first `n` entries of `xs` with `ys` gives the pair value `q`.
pub open spec fn join_count(xs: Seq<(ValView, int)>, xk: Seq<ValView>, ys: Seq<(ValView, int)>, yk: Seq<ValView>, n: int, q: ValView) -> int
    decreases n,
{
    if n <= 0 {
        0
    } else {
        join_count(xs, xk, ys, yk, n - 1, q) + pair_count(xs[n - 1], xk[n - 1], ys, yk, ys.len() as int, q)
    }
}

/// Applying one change adds its multiplicity to its value's.
proof fn lemma_apply_one(m: Map<ValView, int>, c: (ValView, int), q: ValView)
    ensures
        count_of(apply_all(m, seq![c]), q) == count_of(m, q) + if c.0 == q { c.1 } else { 0 },
{
    assert(seq![c].drop_last() =~= Seq::<(ValView, int)>::empty());
    assert(seq![c].last() == c);
    assert(apply_all(m, seq![c].drop_last()) == m);
    assert(apply_all(m, seq![c]) == crate::collection::add_to(m, c.0, c.1));
}

/// Applying the pairs of `x` with `ys` adds `pair_count` to each multiplicity.
proof fn lemma_pair_count(m: Map<ValView, int>, x: (ValView, int), kx: ValView, ys: Seq<(ValView, int)>, yk: Seq<ValView>, n: int, q: ValView)
    requires
        0 <= n <= ys.len(),
        yk.len() == ys.len(),
    ensures
        count_of(apply_all(m, pair_changes(matches_of(x, kx, ys, yk, n))), q) == count_of(m, q) + pair_count(x, kx, ys, yk, n, q),
    decreases n,
{
    if n > 0 {
        lemma_pair_count(m, x, kx, ys, yk, n - 1, q);
        let a = matches_of(x, kx, ys, yk, n - 1);
        let b: Seq<((ValView, ValView), int)> = if yk[n - 1] == kx {
            seq![((x.0, ys[n - 1].0), x.1 * ys[n - 1].1)]
        } else {
            Seq::empty()
        };
        assert(pair_changes(a + b) =~= pair_changes(a) + pair_changes(b));
        lemma_apply_all_append(m, pair_changes(a), pair_changes(b));
        if yk[n - 1] == kx {
            assert(pair_changes(b) =~= seq![(pair_view(x.0, ys[n - 1].0), x.1 * ys[n - 1].1)]);
            lemma_apply_one(apply_all(m, pair_changes(a)), (pair_view(x.0, ys[n - 1].0), x.1 * ys[n - 1].1), q);
        } else {
            assert(pair_changes(b) =~= Seq::<(ValView, int)>::empty());
        }
    } else {
        assert(pair_changes(matches_of(x, kx, ys, yk, n)) =~= Seq::<(ValView, int)>::empty());
    }
}

/// Applying the join of the first `n` entries of `xs` adds `join_count` to each multiplicity.
proof fn lemma_join_count(m: Map<ValView, int>, xs: Seq<(ValView, int)>, xk: Seq<ValView>, ys: Seq<(ValView, int)>, yk: Seq<ValView>, n: int, q: ValView)
    requires
        0 <= n <= xs.len(),
        xk.len() == xs.len(),
        yk.len() == ys.len(),
    ensures
        count_of(apply_all(m, pair_changes(join_seq(xs, xk, ys, yk, n))), q) == count_of(m, q) + join_count(xs, xk, ys, yk, n, q),
    decreases n,
{
    if n > 0 {
        lemma_join_count(m, xs, xk, ys, yk, n - 1, q);
        let a = join_seq(xs, xk, ys, yk, n - 1);
        let b = matches_of(xs[n - 1], xk[n - 1], ys, yk, ys.len() as int);
        assert(pair_changes(a + b) =~= pair_changes(a) + pair_changes(b));
        lemma_apply_all_append(m, pair_changes(a), pair_changes(b));
        lemma_pair_count(apply_all(m, pair_changes(a)), xs[n - 1], xk[n - 1], ys, yk, ys.len() as int, q);
    } else {
        assert(pair_changes(join_seq(xs, xk, ys, yk, n)) =~= Seq::<(ValView, int)>::empty());
    }
}

/// An entry found for `v` among the first `n` entries is one of them.
proof fn lemma_key_in_found(s: Seq<(ValView, int)>, keys: Seq<ValView>, n: int, v: ValView)
    requires
        0 <= n <= s.len(),
    ensures
        key_in(s, keys, n, v) is Some ==> exists|j: int| 0 <= j < n && s[j].0 == v,
        key_in(s, keys, n, v) is None ==> forall|j: int| 0 <= j < n ==> s[j].0 != v,
    decreases n,
{
    if n > 0 {
        lemma_key_in_found(s, keys, n - 1, v);
    }
}

/// With distinct entries in `ys`, the pairs of `x` give `q` the product of the multiplicities
/// of `x` and of the entry of `ys` it pairs with, where their keys agree.
proof fn lemma_pair_count_value(x: (ValView, int), kx: ValView, ys: Seq<(ValView, int)>, yk: Seq<ValView>, n: int, b: ValView)
    requires
        0 <= n <= ys.len(),
        yk.len() == ys.len(),
        keys_distinct(ys),
    ensures
        pair_count(x, kx, ys, yk, n, pair_view(x.0, b)) == if key_in(ys, yk, n, b) == Some(kx) {
            x.1 * count_of(seq_to_map(ys.subrange(0, n)), b)
        } else {
            0
        },
    decreases n,
{
    let q = pair_view(x.0, b);
    if n > 0 {
        lemma_pair_count_value(x, kx, ys, yk, n - 1, b);
        let p0 = ys.subrange(0, n - 1);
        assert(ys.subrange(0, n).drop_last() =~= p0);
        assert(ys.subrange(0, n).last() == ys[n - 1]);
        if ys[n - 1].0 == b {
            lemma_key_in_found(ys, yk, n - 1, b);
            assert(key_in(ys, yk, n - 1, b) is None) by {
                if key_in(ys, yk, n - 1, b) is Some {
                    let j = choose|j: int| 0 <= j < n - 1 && ys[j].0 == b;
                    assert(ys[j].0 == ys[n - 1].0);
                }
            }
        }
    } else {
        assert(ys.subrange(0, 0) =~= Seq::<(ValView, int)>::empty());
    }
}

/// With distinct entries in `xs` and `ys`, the join gives the pair of `a` and `b` the product
/// of their multiplicities where their keys agree, and nothing elsewhere.
proof fn lemma_join_count_value(xs: Seq<(ValView, int)>, xk: Seq<ValView>, ys: Seq<(ValView, int)>, yk: Seq<ValView>, n: int, a: ValView, b: ValView)
    requires
        0 <= n <= xs.len(),
        xk.len() == xs.len(),
        yk.len() == ys.len(),
        keys_distinct(xs),
        keys_distinct(ys),
    ensures
        join_count(xs, xk, ys, yk, n, pair_view(a, b)) == match key_in(xs, xk, n, a) {
            Some(k) => if key_in(ys, yk, ys.len() as int, b) == Some(k) {
                count_of(seq_to_map(xs.subrange(0, n)), a) * count_of(seq_to_map(ys), b)
            } else {
                0
            },
            None => 0,
        },
    decreases n,
{
    let q = pair_view(a, b);
    assert(ys.subrange(0, ys.len() as int) =~= ys);
    if n > 0 {
        lemma_join_count_value(xs, xk, ys, yk, n - 1, a, b);
        let x = xs[n - 1];
        let p0 = xs.subrange(0, n - 1);
        assert(xs.subrange(0, n).drop_last() =~= p0);
        assert(xs.subrange(0, n).last() == xs[n - 1]);
        if x.0 == a {
            lemma_pair_count_value(x, xk[n - 1], ys, yk, ys.len() as int, b);
            lemma_key_in_found(xs, xk, n - 1, a);
            assert(key_in(xs, xk, n - 1, a) is None) by {
                if key_in(xs, xk, n - 1, a) is Some {
                    let j = choose|j: int| 0 <= j < n - 1 && xs[j].0 == a;
                    assert(xs[j].0 == xs[n - 1].0);
                }
            }
        } else {
            assert(pair_count(x, xk[n - 1], ys, yk, ys.len() as int, q) == 0) by {
                lemma_pair_count_zero(x, xk[n - 1], ys, yk, ys.len() as int, q);
            }
        }
    }
}

/// The pairs of `x` give nothing to a pair value whose first part is not `x`'s.
proof fn lemma_pair_count_zero(x: (ValView, int), kx: ValView, ys: Seq<(ValView, int)>, yk: Seq<ValView>, n: int, q: ValView)
    requires
        forall|b: ValView| q != pair_view(x.0, b),
    ensures
        pair_count(x, kx, ys, yk, n, q) == 0,
    decreases n,
{
    if n > 0 {
        lemma_pair_count_zero(x, kx, ys, yk, n - 1, q);
    }
}

/// Where the keys are `f` of the entries, the key found for `v` is `f(v)`, and where none is
/// found `v` has no multiplicity among those entries.
proof fn lemma_key_in_keys(s: Seq<(ValView, int)>, f: spec_fn(ValView) -> ValView, n: int, v: ValView)
    requires
        0 <= n <= s.len(),
    ensures
        key_in(s, keys_of_entries(s, f), n, v) is Some ==> key_in(s, keys_of_entries(s, f), n, v) == Some(f(v)),
        key_in(s, keys_of_entries(s, f), n, v) is None ==> count_of(seq_to_map(s.subrange(0, n)), v) == 0,
    decreases n,
{
    if n > 0 {
        lemma_key_in_keys(s, f, n - 1, v);
        assert(s.subrange(0, n).drop_last() =~= s.subrange(0, n - 1));
        assert(s.subrange(0, n).last() == s[n - 1]);
    } else {
        assert(s.subrange(0, 0) =~= Seq::<(ValView, int)>::empty());
    }
}

/// With distinct entries, the join on keys `fl` and `fr` gives the pair of `a` and `b` the
/// product of their multiplicities where `fl(a) == fr(b)`, and nothing elsewhere.
pub proof fn lemma_join_pointwise(m: Map<ValView, int>, el: Seq<(ValView, int)>, er: Seq<(ValView, int)>, fl: spec_fn(ValView) -> ValView, fr: spec_fn(ValView) -> ValView, a: ValView, b: ValView)
    requires
        keys_distinct(el),
        keys_distinct(er),
    ensures
        count_of(apply_all(m, join_changes(el, keys_of_entries(el, fl), er, keys_of_entries(er, fr))), pair_view(a, b)) == count_of(m, pair_view(a, b))
            + if fl(a) == fr(b) { count_of(seq_to_map(el), a) * count_of(seq_to_map(er), b) } else { 0 },
{
    let kl = keys_of_entries(el, fl);
    let kr = keys_of_entries(er, fr);
    lemma_join_count(m, el, kl, er, kr, el.len() as int, pair_view(a, b));
    lemma_join_count_value(el, kl, er, kr, el.len() as int, a, b);
    lemma_key_in_keys(el, fl, el.len() as int, a);
    lemma_key_in_keys(er, fr, er.len() as int, b);
    assert(el.subrange(0, el.len() as int) =~= el);
    assert(er.subrange(0, er.len() as int) =~= er);
}

/// Pairs of entries of the two collections whose keys agree, with the product of their
/// multiplicities; absent where such a product does not fit in `i64`.
pub fn compute_join(left: &Collection<Val>, right: &Collection<Val>, key_left: &Box<dyn ValFn>, key_right: &Box<dyn ValFn>) -> (r: Option<Collection<Val>>)
    requires
        key_left.wf(),
        key_right.wf(),
    ensures
        ({
            let el = left.entries();
            let er = right.entries();
            let kl = keys_of_entries(el, |v: ValView| key_left.spec_apply(v));
            let kr = keys_of_entries(er, |v: ValView| key_right.spec_apply(v));
            result_is(r, if join_fits(el, kl, er, kr) { sum_changes(join_changes(el, kl, er, kr)) } else { None })
        }),
{
    let li = left.iter_with_multiplicity();
    let ri = right.iter_with_multiplicity();
    let ghost el = left.entries();
    let ghost er = right.entries();
    let ghost kl = keys_of_entries(el, |v: ValView| key_left.spec_apply(v));
    let ghost kr = keys_of_entries(er, |v: ValView| key_right.spec_apply(v));
    let mut lk: Vec<Val> = Vec::new();
    let mut i: usize = 0;
    while i < li.len()
        invariant
            i <= li@.len(),
            li@.len() == el.len(),
            forall|j: int| 0 <= j < li@.len() ==> (#[trigger] li@[j]).0@ == el[j].0 && li@[j].1.0 == el[j].1,
            key_left.wf(),
            kl == keys_of_entries(el, |v: ValView| key_left.spec_apply(v)),
            lk@.len() == i,
            forall|j: int| 0 <= j < i ==> (#[trigger] lk@[j])@ == kl[j],
        decreases li@.len() - i,
    {
        lk.push(key_left.apply(li[i].0));
        i = i + 1;
    }
    let mut rk: Vec<Val> = Vec::new();
    i = 0;
    while i < ri.len()
        invariant
            i <= ri@.len(),
            ri@.len() == er.len(),
            forall|j: int| 0 <= j < ri@.len() ==> (#[trigger] ri@[j]).0@ == er[j].0 && ri@[j].1.0 == er[j].1,
            key_right.wf(),
            kr == keys_of_entries(er, |v: ValView| key_right.spec_apply(v)),
            rk@.len() == i,
            forall|j: int| 0 <= j < i ==> (#[trigger] rk@[j])@ == kr[j],
        decreases ri@.len() - i,
    {
        rk.push(key_right.apply(ri[i].0));
        i = i + 1;
    }
    let mut changes: Vec<Change<Val>> = Vec::new();
    i = 0;
    while i < li.len()
        invariant
            i <= li@.len(),
            li@.len() == el.len(),
            ri@.len() == er.len(),
            forall|j: int| 0 <= j < li@.len() ==> (#[trigger] li@[j]).0@ == el[j].0 && li@[j].1.0 == el[j].1,
            forall|j: int| 0 <= j < ri@.len() ==> (#[trigger] ri@[j]).0@ == er[j].0 && ri@[j].1.0 == er[j].1,
            lk@.len() == el.len(),
            rk@.len() == er.len(),
            kl.len() == el.len(),
            kr.len() == er.len(),
            forall|j: int| 0 <= j < el.len() ==> (#[trigger] lk@[j])@ == kl[j],
            forall|j: int| 0 <= j < er.len() ==> (#[trigger] rk@[j])@ == kr[j],
            forall|a: int, b: int| 0 <= a < i && 0 <= b < er.len() && kl[a] == kr[b] ==> i64::MIN <= #[trigger] (el[a].1 * er[b].1) <= i64::MAX,
            changes_view(changes@) =~= pair_changes(join_seq(el, kl, er, kr, i as int)),
            el == left.entries(),
            er == right.entries(),
            kl == keys_of_entries(el, |v: ValView| key_left.spec_apply(v)),
            kr == keys_of_entries(er, |v: ValView| key_right.spec_apply(v)),
        decreases li@.len() - i,
    {
        let mut j: usize = 0;
        let ghost start = join_seq(el, kl, er, kr, i as int);
        while j < ri.len()
            invariant
                i < li@.len(),
                j <= ri@.len(),
                li@.len() == el.len(),
                ri@.len() == er.len(),
                forall|a: int| 0 <= a < li@.len() ==> (#[trigger] li@[a]).0@ == el[a].0 && li@[a].1.0 == el[a].1,
                forall|a: int| 0 <= a < ri@.len() ==> (#[trigger] ri@[a]).0@ == er[a].0 && ri@[a].1.0 == er[a].1,
                lk@.len() == el.len(),
                rk@.len() == er.len(),
                kl.len() == el.len(),
                kr.len() == er.len(),
                forall|a: int| 0 <= a < el.len() ==> (#[trigger] lk@[a])@ == kl[a],
                forall|a: int| 0 <= a < er.len() ==> (#[trigger] rk@[a])@ == kr[a],
                forall|a: int, b: int| 0 <= a < i && 0 <= b < er.len() && kl[a] == kr[b] ==> i64::MIN <= #[trigger] (el[a].1 * er[b].1) <= i64::MAX,
                forall|b: int| 0 <= b < j && kl[i as int] == kr[b] ==> i64::MIN <= #[trigger] (el[i as int].1 * er[b].1) <= i64::MAX,
                start == join_seq(el, kl, er, kr, i as int),
                el == left.entries(),
                er == right.entries(),
                kl == keys_of_entries(el, |v: ValView| key_left.spec_apply(v)),
                kr == keys_of_entries(er, |v: ValView| key_right.spec_apply(v)),
                changes_view(changes@) =~= pair_changes(start + matches_of(el[i as int], kl[i as int], er, kr, j as int)),
            decreases ri@.len() - j,
        {
            let ghost m0 = matches_of(el[i as int], kl[i as int], er, kr, j as int);
            if val_eq(&lk[i], &rk[j]) {
                let p = li[i].1.0.checked_mul(ri[j].1.0);
                match p {
                    None => {
                        proof {
                            assert(kl[i as int] == kr[j as int]);
                            assert(!(i64::MIN <= el[i as int].1 * er[j as int].1 <= i64::MAX));
                            assert(!join_fits(el, kl, er, kr));
                        }
                        return None;
                    },
                    Some(prod) => {
                        let c = Change::new(val_pair(val_clone(li[i].0), val_clone(ri[j].0)), Diff(prod));
                        proof {
                            lemma_changes_view_push(changes@, c);
                            let x = ((el[i as int].0, er[j as int].0), el[i as int].1 * er[j as int].1);
                            assert(matches_of(el[i as int], kl[i as int], er, kr, j as int + 1) =~= m0.push(x));
                            assert(start + m0.push(x) =~= (start + m0).push(x));
                            assert(pair_changes((start + m0).push(x)) =~= pair_changes(start + m0).push((c.tuple@, c.diff.0 as int)));
                        }
                        changes.push(c);
                    },
                }
            } else {
                assert(matches_of(el[i as int], kl[i as int], er, kr, j as int + 1) =~= m0);
            }
            j = j + 1;
        }
        assert(join_seq(el, kl, er, kr, i as int + 1) =~= start + matches_of(el[i as int], kl[i as int], er, kr, er.len() as int));
        i = i + 1;
    }
    collect_checked(&changes)
}


/// The pair of two abstract values.
pub open spec fn pair_view(a: ValView, b: ValView) -> ValView {
    ValView::Pair(Box::new(a), Box::new(b))
}

/// The index of the entry of `acc` whose first component is `k`, if there is one.
fn find_key<X>(acc: &Vec<(Val, X)>, k: &Val) -> (r: Option<usize>)
    ensures
        r matches Some(i) ==> i < acc@.len() && acc@[i as int].0@ == k@,
        r is None ==> forall|a: int| 0 <= a < acc@.len() ==> (#[trigger] acc@[a]).0@ != k@,
{
    let mut i: usize = 0;
    while i < acc.len()
        invariant
            i <= acc@.len(),
            forall|a: int| 0 <= a < i ==> (#[trigger] acc@[a]).0@ != k@,
        decreases acc@.len() - i,
    {
        if val_eq(&acc[i].0, k) {
            return Some(i);
        }
        i = i + 1;
    }
    None
}

/// The totals per key of the first `n` entries: entry `i` has key `keys[i]` and adds
/// `vals[i]` times its multiplicity to the total of its key.
pub open spec fn group_totals(e: Seq<(ValView, int)>, keys: Seq<ValView>, vals: Seq<int>, n: int) -> Map<ValView, int>
    decreases n,
{
    if n <= 0 {
        Map::empty()
    } else {
        let prev = group_totals(e, keys, vals, n - 1);
        prev.insert(keys[n - 1], count_of(prev, keys[n - 1]) + vals[n - 1] * e[n - 1].1)
    }
}

/// The sum, over the first `n` entries of `e` whose key in `keys` is `k`, of the entry's value
/// in `vals` times its multiplicity.
pub open spec fn key_total(e: Seq<(ValView, int)>, keys: Seq<ValView>, vals: Seq<int>, n: int, k: ValView) -> int
    decreases n,
{
    if n <= 0 {
        0
    } else {
        key_total(e, keys, vals, n - 1, k) + if keys[n - 1] == k { vals[n - 1] * e[n - 1].1 } else { 0 }
    }
}

/// `group_totals` keeps a key exactly where one of the first `n` entries has it, with the sum
/// of value times multiplicity over those entries.
pub proof fn lemma_group_totals(e: Seq<(ValView, int)>, keys: Seq<ValView>, vals: Seq<int>, n: int)
    requires
        0 <= n <= e.len(),
        keys.len() == e.len(),
        vals.len() == e.len(),
    ensures
        forall|k: ValView| #[trigger] group_totals(e, keys, vals, n).contains_key(k) <==> exists|i: int| 0 <= i < n && keys[i] == k,
        forall|k: ValView| #[trigger] count_of(group_totals(e, keys, vals, n), k) == key_total(e, keys, vals, n, k),
    decreases n,
{
    if n > 0 {
        lemma_group_totals(e, keys, vals, n - 1);
        assert forall|k: ValView| #[trigger] group_totals(e, keys, vals, n).contains_key(k) <== exists|i: int| 0 <= i < n && keys[i] == k by {
            if exists|i: int| 0 <= i < n && keys[i] == k {
                let i = choose|i: int| 0 <= i < n && keys[i] == k;
                if i < n - 1 {
                    assert(group_totals(e, keys, vals, n - 1).contains_key(k));
                }
            }
        }
        assert forall|k: ValView| #[trigger] group_totals(e, keys, vals, n).contains_key(k) implies exists|i: int| 0 <= i < n && keys[i] == k by {
            if k != keys[n - 1] {
                assert(group_totals(e, keys, vals, n - 1).contains_key(k));
                let i = choose|i: int| 0 <= i < n - 1 && keys[i] == k;
                assert(0 <= i < n && keys[i] == k);
            } else {
                assert(0 <= n - 1 < n && keys[n - 1] == k);
            }
        }
        assert forall|k: ValView| #[trigger] count_of(group_totals(e, keys, vals, n), k) == key_total(e, keys, vals, n, k) by {
            assert(count_of(group_totals(e, keys, vals, n - 1), k) == key_total(e, keys, vals, n - 1, k));
        }
    }
}

/// Every product and every running total of `group_totals` fits in `i64`.
pub open spec fn group_fits(e: Seq<(ValView, int)>, keys: Seq<ValView>, vals: Seq<int>, n: int) -> bool
    decreases n,
{
    if n <= 0 {
        true
    } else {
        let prev = group_totals(e, keys, vals, n - 1);
        &&& group_fits(e, keys, vals, n - 1)
        &&& i64::MIN <= vals[n - 1] * e[n - 1].1 <= i64::MAX
        &&& i64::MIN <= count_of(prev, keys[n - 1]) + vals[n - 1] * e[n - 1].1 <= i64::MAX
    }
}

proof fn lemma_group_fits_prefix(e: Seq<(ValView, int)>, keys: Seq<ValView>, vals: Seq<int>, m: int, n: int)
    requires
        m <= n,
        group_fits(e, keys, vals, n),
    ensures
        group_fits(e, keys, vals, m),
    decreases n - m,
{
    if m < n {
        lemma_group_fits_prefix(e, keys, vals, m, n - 1);
    }
}

/// Each key with its total, as a pair, once.
pub open spec fn total_pairs(t: Map<ValView, int>) -> Map<ValView, int> {
    Map::new(
        |p: ValView| exists|k: ValView| t.contains_key(k) && p == pair_view(k, ValView::I64(t[k] as i64)),
        |p: ValView| 1int,
    )
}

/// The values `f` gives for the values of the entries, as integers.
pub open spec fn ints_of_entries(e: Seq<(ValView, int)>, f: spec_fn(ValView) -> i64) -> Seq<int> {
    Seq::new(e.len(), |i: int| f(e[i].0) as int)
}

/// Group the entries by key and give each key with the sum of value times multiplicity
/// over its entries; absent where a product or a running total does not fit in `i64`.
pub fn compute_group_sum(input: &Collection<Val>, key: &Box<dyn ValFn>, value: &Box<dyn ValInt>) -> (r: Option<Collection<Val>>)
    requires
        key.wf(),
        value.wf(),
    ensures
        ({
            let e = input.entries();
            let ks = keys_of_entries(e, |v: ValView| key.spec_apply(v));
            let vs = ints_of_entries(e, |v: ValView| value.spec_value(v));
            result_is(r, if group_fits(e, ks, vs, e.len() as int) {
                Some(total_pairs(group_totals(e, ks, vs, e.len() as int)))
            } else {
                None
            })
        }),
{
    let items = input.iter_with_multiplicity();
    let ghost e = input.entries();
    let ghost ks = keys_of_entries(e, |v: ValView| key.spec_apply(v));
    let ghost vs = ints_of_entries(e, |v: ValView| value.spec_value(v));
    let mut acc: Vec<(Val, i64)> = Vec::new();
    let mut i: usize = 0;
    while i < items.len()
        invariant
            i <= items@.len(),
            items@.len() == e.len(),
            forall|j: int| 0 <= j < items@.len() ==> (#[trigger] items@[j]).0@ == e[j].0 && items@[j].1.0 == e[j].1,
            key.wf(),
            value.wf(),
            e == input.entries(),
            ks == keys_of_entries(e, |v: ValView| key.spec_apply(v)),
            vs == ints_of_entries(e, |v: ValView| value.spec_value(v)),
            group_fits(e, ks, vs, i as int),
            forall|a: int, b: int| 0 <= a < acc@.len() && 0 <= b < acc@.len() && a != b ==> acc@[a].0@ != acc@[b].0@,
            forall|k: ValView| #[trigger] group_totals(e, ks, vs, i as int).contains_key(k) <==> exists|a: int| 0 <= a < acc@.len() && acc@[a].0@ == k,
            forall|a: int| 0 <= a < acc@.len() ==> group_totals(e, ks, vs, i as int)[(#[trigger] acc@[a]).0@] == acc@[a].1,
        decreases items@.len() - i,
    {
        let k = key.apply(items[i].0);
        let x = value.value(items[i].0);
        let d = items[i].1.0;
        let ghost prev = group_totals(e, ks, vs, i as int);
        let ghost after = group_totals(e, ks, vs, i as int + 1);
        assert(ks[i as int] == k@ && vs[i as int] == x && e[i as int].1 == d);
        let prod = match x.checked_mul(d) {
            None => {
                proof {
                    if group_fits(e, ks, vs, e.len() as int) {
                        lemma_group_fits_prefix(e, ks, vs, i as int + 1, e.len() as int);
                    }
                }
                return None;
            },
            Some(p) => p,
        };
        match find_key(&acc, &k) {
            Some(a) => {
                let old_total = acc[a].1;
                assert(count_of(prev, k@) == old_total);
                let total = match old_total.checked_add(prod) {
                    None => {
                        proof {
                            if group_fits(e, ks, vs, e.len() as int) {
                                lemma_group_fits_prefix(e, ks, vs, i as int + 1, e.len() as int);
                            }
                        }
                        return None;
                    },
                    Some(t) => t,
                };
                let ghost before = acc@;
                acc.set(a, (k, total));
                proof {
                    assert forall|kk: ValView| #[trigger] after.contains_key(kk) <==> exists|b: int| 0 <= b < acc@.len() && acc@[b].0@ == kk by {
                        if kk == k@ {
                            assert(acc@[a as int].0@ == kk);
                        }
                        if after.contains_key(kk) && kk != k@ {
                            let b = choose|b: int| 0 <= b < before.len() && before[b].0@ == kk;
                            assert(acc@[b].0@ == kk);
                        }
                        if exists|b: int| 0 <= b < acc@.len() && acc@[b].0@ == kk {
                            let b = choose|b: int| 0 <= b < acc@.len() && acc@[b].0@ == kk;
                            if b != a {
                                assert(before[b].0@ == kk);
                            }
                        }
                    }
                    assert forall|b: int| 0 <= b < acc@.len() implies after[(#[trigger] acc@[b]).0@] == acc@[b].1 by {
                        if b != a {
                            assert(before[b] == acc@[b]);
                            assert(before[b].0@ != before[a as int].0@);
                        }
                    }
                }
            },
            None => {
                assert(!prev.contains_key(k@));
                let ghost before = acc@;
                acc.push((k, prod));
                proof {
                    assert forall|kk: ValView| #[trigger] after.contains_key(kk) <==> exists|b: int| 0 <= b < acc@.len() && acc@[b].0@ == kk by {
                        if after.contains_key(kk) && kk != k@ {
                            let b = choose|b: int| 0 <= b < before.len() && before[b].0@ == kk;
                            assert(acc@[b].0@ == kk);
                        }
                        if kk == k@ {
                            assert(acc@[acc@.len() - 1].0@ == kk);
                        }
                        if exists|b: int| 0 <= b < acc@.len() && acc@[b].0@ == kk {
                            let b = choose|b: int| 0 <= b < acc@.len() && acc@[b].0@ == kk;
                            if b < before.len() {
                                assert(before[b].0@ == kk);
                            }
                        }
                    }
                    assert forall|b: int| 0 <= b < acc@.len() implies after[(#[trigger] acc@[b]).0@] == acc@[b].1 by {
                        if b < before.len() {
                            assert(before[b] == acc@[b]);
                        }
                    }
                }
            },
        }
        i = i + 1;
    }
    let ghost totals = group_totals(e, ks, vs, e.len() as int);
    let mut out: Collection<Val> = Collection::new();
    let mut a: usize = 0;
    while a < acc.len()
        invariant
            a <= acc@.len(),
            forall|x: int, y: int| 0 <= x < acc@.len() && 0 <= y < acc@.len() && x != y ==> acc@[x].0@ != acc@[y].0@,
            forall|p: ValView| #[trigger] out@.contains_key(p) <==> exists|b: int| 0 <= b < a && p == pair_view(acc@[b].0@, ValView::I64(acc@[b].1)),
            forall|p: ValView| #[trigger] out@.contains_key(p) ==> out@[p] == 1,
        decreases acc@.len() - a,
    {
        let p = val_pair(val_clone(&acc[a].0), Val::I64(acc[a].1));
        proof {
            if out@.contains_key(p@) {
                let b = choose|b: int| 0 <= b < a && p@ == pair_view(acc@[b].0@, ValView::I64(acc@[b].1));
                assert(acc@[b].0@ == acc@[a as int].0@);
            }
        }
        out.insert(p);
        proof {
            assert forall|q: ValView| #[trigger] out@.contains_key(q) <==> exists|b: int| 0 <= b < a + 1 && q == pair_view(acc@[b].0@, ValView::I64(acc@[b].1)) by {
                if exists|b: int| 0 <= b < a + 1 && q == pair_view(acc@[b].0@, ValView::I64(acc@[b].1)) {
                    let b = choose|b: int| 0 <= b < a + 1 && q == pair_view(acc@[b].0@, ValView::I64(acc@[b].1));
                    if b < a {
                        assert(exists|c: int| 0 <= c < a && q == pair_view(acc@[c].0@, ValView::I64(acc@[c].1)));
                    }
                }
            }
        }
        a = a + 1;
    }
    proof {
        assert forall|p: ValView| #[trigger] out@.contains_key(p) <==> total_pairs(totals).contains_key(p) by {
            if out@.contains_key(p) {
                let b = choose|b: int| 0 <= b < acc@.len() && p == pair_view(acc@[b].0@, ValView::I64(acc@[b].1));
                assert(totals.contains_key(acc@[b].0@));
                assert(totals[acc@[b].0@] == acc@[b].1);
            }
            if total_pairs(totals).contains_key(p) {
                let k = choose|k: ValView| totals.contains_key(k) && p == pair_view(k, ValView::I64(totals[k] as i64));
                let b = choose|b: int| 0 <= b < acc@.len() && acc@[b].0@ == k;
                assert(totals[acc@[b].0@] == acc@[b].1);
                assert(p == pair_view(acc@[b].0@, ValView::I64(acc@[b].1)));
            }
        }
        assert(out@ =~= total_pairs(totals));
    }
    Some(out)
}


/// The best value per key among the first `n` entries of positive multiplicity: entry `i`
/// has key `keys[i]` and value `vals[i]`, and a value replaces the best so far for its key
/// where `better(best_so_far, value)` holds.
pub open spec fn group_best(
    e: Seq<(ValView, int)>,
    keys: Seq<ValView>,
    vals: Seq<ValView>,
    better: spec_fn(ValView, ValView) -> bool,
    n: int,
) -> Map<ValView, ValView>
    decreases n,
{
    if n <= 0 {
        Map::empty()
    } else {
        let prev = group_best(e, keys, vals, better, n - 1);
        if e[n - 1].1 > 0 && (!prev.contains_key(keys[n - 1]) || better(prev[keys[n - 1]], vals[n - 1])) {
            prev.insert(keys[n - 1], vals[n - 1])
        } else {
            prev
        }
    }
}

/// Where `better` is transitive and irreflexive, `group_best` keeps a key exactly where an
/// entry of positive multiplicity has it, and keeps for it the value of such an entry that the
/// value of no such entry betters.
pub proof fn lemma_group_best(
    e: Seq<(ValView, int)>,
    keys: Seq<ValView>,
    vals: Seq<ValView>,
    better: spec_fn(ValView, ValView) -> bool,
    n: int,
)
    requires
        0 <= n <= e.len(),
        keys.len() == e.len(),
        vals.len() == e.len(),
        forall|a: ValView, b: ValView, c: ValView| #[trigger] better(a, b) && #[trigger] better(b, c) ==> better(a, c),
        forall|a: ValView| !#[trigger] better(a, a),
    ensures
        forall|k: ValView| #[trigger] group_best(e, keys, vals, better, n).contains_key(k)
            <==> exists|i: int| 0 <= i < n && e[i].1 > 0 && keys[i] == k,
        forall|k: ValView| #[trigger] group_best(e, keys, vals, better, n).contains_key(k)
            ==> exists|i: int| 0 <= i < n && e[i].1 > 0 && keys[i] == k && vals[i] == group_best(e, keys, vals, better, n)[k],
        forall|i: int| 0 <= i < n && e[i].1 > 0 ==> !better(#[trigger] group_best(e, keys, vals, better, n)[keys[i]], vals[i]),
    decreases n,
{
    if n > 0 {
        lemma_group_best(e, keys, vals, better, n - 1);
        let prev = group_best(e, keys, vals, better, n - 1);
        let cur = group_best(e, keys, vals, better, n);
        let k0 = keys[n - 1];
        let v0 = vals[n - 1];
        if e[n - 1].1 > 0 && (!prev.contains_key(k0) || better(prev[k0], v0)) {
            assert(cur == prev.insert(k0, v0));
            assert forall|k: ValView| #[trigger] cur.contains_key(k)
                implies exists|i: int| 0 <= i < n && e[i].1 > 0 && keys[i] == k && vals[i] == cur[k] by {
                if k == k0 {
                    assert(e[n - 1].1 > 0 && keys[n - 1] == k && vals[n - 1] == cur[k]);
                } else {
                    let i = choose|i: int| 0 <= i < n - 1 && e[i].1 > 0 && keys[i] == k && vals[i] == prev[k];
                    assert(0 <= i < n && e[i].1 > 0 && keys[i] == k && vals[i] == cur[k]);
                }
            }
            assert forall|k: ValView| #[trigger] cur.contains_key(k) <== exists|i: int| 0 <= i < n && e[i].1 > 0 && keys[i] == k by {
                if exists|i: int| 0 <= i < n && e[i].1 > 0 && keys[i] == k {
                    let i = choose|i: int| 0 <= i < n && e[i].1 > 0 && keys[i] == k;
                    if i < n - 1 {
                        assert(prev.contains_key(k));
                    }
                }
            }
            assert forall|i: int| 0 <= i < n && e[i].1 > 0 implies !better(#[trigger] cur[keys[i]], vals[i]) by {
                if i < n - 1 {
                    if keys[i] == k0 {
                        assert(prev.contains_key(k0));
                        assert(!better(prev[keys[i]], vals[i]));
                        if better(v0, vals[i]) {
                            assert(better(prev[k0], v0));
                        }
                    } else {
                        assert(!better(prev[keys[i]], vals[i]));
                    }
                } else {
                    assert(!better(v0, v0));
                }
            }
        } else {
            assert(cur == prev);
            assert forall|k: ValView| #[trigger] cur.contains_key(k) <== exists|i: int| 0 <= i < n && e[i].1 > 0 && keys[i] == k by {
                if exists|i: int| 0 <= i < n && e[i].1 > 0 && keys[i] == k {
                    let i = choose|i: int| 0 <= i < n && e[i].1 > 0 && keys[i] == k;
                    if i < n - 1 {
                        assert(prev.contains_key(k));
                    }
                }
            }
            assert forall|k: ValView| #[trigger] cur.contains_key(k)
                implies exists|i: int| 0 <= i < n && e[i].1 > 0 && keys[i] == k && vals[i] == cur[k] by {
                let i = choose|i: int| 0 <= i < n - 1 && e[i].1 > 0 && keys[i] == k && vals[i] == prev[k];
                assert(0 <= i < n && e[i].1 > 0 && keys[i] == k && vals[i] == cur[k]);
            }
            assert forall|i: int| 0 <= i < n && e[i].1 > 0 implies !better(#[trigger] cur[keys[i]], vals[i]) by {
                if i == n - 1 {
                    assert(prev.contains_key(k0));
                }
            }
        }
    }
}

/// Each key with its best value, as a pair, once.
pub open spec fn best_pairs(b: Map<ValView, ValView>) -> Map<ValView, int> {
    Map::new(|p: ValView| exists|k: ValView| b.contains_key(k) && p == pair_view(k, b[k]), |p: ValView| 1int)
}

/// Group the entries of positive multiplicity by key and give each key with its best value.
pub fn compute_group_best(input: &Collection<Val>, key: &Box<dyn ValFn>, value: &Box<dyn ValFn>, better: &Box<dyn ValLess>) -> (r: Collection<Val>)
    requires
        key.wf(),
        value.wf(),
        better.wf(),
    ensures
        ({
            let e = input.entries();
            let ks = keys_of_entries(e, |v: ValView| key.spec_apply(v));
            let vs = keys_of_entries(e, |v: ValView| value.spec_apply(v));
            r@ == best_pairs(group_best(e, ks, vs, |a: ValView, b: ValView| better.spec_less(a, b), e.len() as int))
        }),
{
    let items = input.iter_with_multiplicity();
    let ghost e = input.entries();
    let ghost ks = keys_of_entries(e, |v: ValView| key.spec_apply(v));
    let ghost vs = keys_of_entries(e, |v: ValView| value.spec_apply(v));
    let ghost bt = |a: ValView, b: ValView| better.spec_less(a, b);
    let mut acc: Vec<(Val, Val)> = Vec::new();
    let mut i: usize = 0;
    while i < items.len()
        invariant
            i <= items@.len(),
            items@.len() == e.len(),
            forall|j: int| 0 <= j < items@.len() ==> (#[trigger] items@[j]).0@ == e[j].0 && items@[j].1.0 == e[j].1,
            key.wf(),
            value.wf(),
            better.wf(),
            ks == keys_of_entries(e, |v: ValView| key.spec_apply(v)),
            vs == keys_of_entries(e, |v: ValView| value.spec_apply(v)),
            bt == (|a: ValView, b: ValView| better.spec_less(a, b)),
            forall|a: int, b: int| 0 <= a < acc@.len() && 0 <= b < acc@.len() && a != b ==> acc@[a].0@ != acc@[b].0@,
            forall|k: ValView| #[trigger] group_best(e, ks, vs, bt, i as int).contains_key(k) <==> exists|a: int| 0 <= a < acc@.len() && acc@[a].0@ == k,
            forall|a: int| 0 <= a < acc@.len() ==> group_best(e, ks, vs, bt, i as int)[(#[trigger] acc@[a]).0@] == acc@[a].1@,
        decreases items@.len() - i,
    {
        let ghost prev = group_best(e, ks, vs, bt, i as int);
        let ghost after = group_best(e, ks, vs, bt, i as int + 1);
        if items[i].1.is_positive() {
            let k = key.apply(items[i].0);
            let x = value.apply(items[i].0);
            assert(ks[i as int] == k@ && vs[i as int] == x@);
            match find_key(&acc, &k) {
                Some(a) => {
                    let replace = better.less(&acc[a].1, &x);
                    if replace {
                        let ghost before = acc@;
                        acc.set(a, (k, x));
                        proof {
                            assert(after == prev.insert(k@, x@));
                            assert forall|kk: ValView| #[trigger] after.contains_key(kk) <==> exists|b: int| 0 <= b < acc@.len() && acc@[b].0@ == kk by {
                                if kk == k@ {
                                    assert(acc@[a as int].0@ == kk);
                                }
                                if after.contains_key(kk) && kk != k@ {
                                    let b = choose|b: int| 0 <= b < before.len() && before[b].0@ == kk;
                                    assert(acc@[b].0@ == kk);
                                }
                                if exists|b: int| 0 <= b < acc@.len() && acc@[b].0@ == kk {
                                    let b = choose|b: int| 0 <= b < acc@.len() && acc@[b].0@ == kk;
                                    if b != a {
                                        assert(before[b].0@ == kk);
                                    }
                                }
                            }
                            assert forall|b: int| 0 <= b < acc@.len() implies after[(#[trigger] acc@[b]).0@] == acc@[b].1@ by {
                                if b != a {
                                    assert(before[b] == acc@[b]);
                                    assert(before[b].0@ != before[a as int].0@);
                                }
                            }
                        }
                    } else {
                        assert(after == prev);
                    }
                },
                None => {
                    assert(!prev.contains_key(k@));
                    assert(after == prev.insert(k@, x@));
                    let ghost before = acc@;
                    acc.push((k, x));
                    proof {
                        assert forall|kk: ValView| #[trigger] after.contains_key(kk) <==> exists|b: int| 0 <= b < acc@.len() && acc@[b].0@ == kk by {
                            if after.contains_key(kk) && kk != k@ {
                                let b = choose|b: int| 0 <= b < before.len() && before[b].0@ == kk;
                                assert(acc@[b].0@ == kk);
                            }
                            if kk == k@ {
                                assert(acc@[acc@.len() - 1].0@ == kk);
                            }
                            if exists|b: int| 0 <= b < acc@.len() && acc@[b].0@ == kk {
                                let b = choose|b: int| 0 <= b < acc@.len() && acc@[b].0@ == kk;
                                if b < before.len() {
                                    assert(before[b].0@ == kk);
                                }
                            }
                        }
                        assert forall|b: int| 0 <= b < acc@.len() implies after[(#[trigger] acc@[b]).0@] == acc@[b].1@ by {
                            if b < before.len() {
                                assert(before[b] == acc@[b]);
                            }
                        }
                    }
                },
            }
        } else {
            assert(after == prev);
        }
        i = i + 1;
    }
    let ghost best = group_best(e, ks, vs, bt, e.len() as int);
    let mut out: Collection<Val> = Collection::new();
    let mut a: usize = 0;
    while a < acc.len()
        invariant
            a <= acc@.len(),
            forall|x: int, y: int| 0 <= x < acc@.len() && 0 <= y < acc@.len() && x != y ==> acc@[x].0@ != acc@[y].0@,
            forall|p: ValView| #[trigger] out@.contains_key(p) <==> exists|b: int| 0 <= b < a && p == pair_view(acc@[b].0@, acc@[b].1@),
            forall|p: ValView| #[trigger] out@.contains_key(p) ==> out@[p] == 1,
        decreases acc@.len() - a,
    {
        let p = val_pair(val_clone(&acc[a].0), val_clone(&acc[a].1));
        proof {
            if out@.contains_key(p@) {
                let b = choose|b: int| 0 <= b < a && p@ == pair_view(acc@[b].0@, acc@[b].1@);
                assert(acc@[b].0@ == acc@[a as int].0@);
            }
        }
        out.insert(p);
        proof {
            assert forall|q: ValView| #[trigger] out@.contains_key(q) <==> exists|b: int| 0 <= b < a + 1 && q == pair_view(acc@[b].0@, acc@[b].1@) by {
                if exists|b: int| 0 <= b < a + 1 && q == pair_view(acc@[b].0@, acc@[b].1@) {
                    let b = choose|b: int| 0 <= b < a + 1 && q == pair_view(acc@[b].0@, acc@[b].1@);
                    if b < a {
                        assert(exists|c: int| 0 <= c < a && q == pair_view(acc@[c].0@, acc@[c].1@));
                    }
                }
            }
        }
        a = a + 1;
    }
    proof {
        assert forall|p: ValView| #[trigger] out@.contains_key(p) <==> best_pairs(best).contains_key(p) by {
            if out@.contains_key(p) {
                let b = choose|b: int| 0 <= b < acc@.len() && p == pair_view(acc@[b].0@, acc@[b].1@);
                assert(best.contains_key(acc@[b].0@));
            }
            if best_pairs(best).contains_key(p) {
                let k = choose|k: ValView| best.contains_key(k) && p == pair_view(k, best[k]);
                let b = choose|b: int| 0 <= b < acc@.len() && acc@[b].0@ == k;
                assert(p == pair_view(acc@[b].0@, acc@[b].1@));
            }
        }
        assert(out@ =~= best_pairs(best));
    }
    out
}


/// The entries of the state of node `i`.
pub open spec fn entries_at(nodes: Seq<Node>, i: usize) -> Seq<(ValView, int)> {
    nodes[i as int].state.entries()
}

/// The state that `op` gives from the states of `nodes`; `None` where the arithmetic does
/// not fit in `i64` (and for a source, whose state is not computed).
pub open spec fn op_output(op: NodeOp, nodes: Seq<Node>) -> Option<Map<ValView, int>> {
    match op {
        NodeOp::Source => None,
        NodeOp::Transform { input, func } => sum_changes(
            transform_changes(entries_at(nodes, input), |v: ValView| func.spec_apply(v)),
        ),
        NodeOp::Filter { input, pred } => sum_changes(
            filter_changes(entries_at(nodes, input), |v: ValView| pred.spec_test(v)),
        ),
        NodeOp::FlatMap { input, flat } => sum_changes(
            flat_changes(entries_at(nodes, input), |v: ValView| flat.spec_apply(v), entries_at(nodes, input).len() as int),
        ),
        NodeOp::Join { left, right, key_left, key_right } => {
            let el = entries_at(nodes, left);
            let er = entries_at(nodes, right);
            let kl = keys_of_entries(el, |v: ValView| key_left.spec_apply(v));
            let kr = keys_of_entries(er, |v: ValView| key_right.spec_apply(v));
            if join_fits(el, kl, er, kr) {
                sum_changes(join_changes(el, kl, er, kr))
            } else {
                None
            }
        },
        NodeOp::Union { left, right } => sum_changes(entries_at(nodes, left) + entries_at(nodes, right)),
        NodeOp::Distinct { input } => Some(distinct_view(nodes[input as int].state@)),
        NodeOp::Difference { left, right } => Some(set_difference(nodes[left as int].state@, nodes[right as int].state@)),
        NodeOp::GroupSum { input, key, weight } => {
            let e = entries_at(nodes, input);
            let ks = keys_of_entries(e, |v: ValView| key.spec_apply(v));
            let vs = ints_of_entries(e, |v: ValView| weight.spec_value(v));
            if group_fits(e, ks, vs, e.len() as int) {
                Some(total_pairs(group_totals(e, ks, vs, e.len() as int)))
            } else {
                None
            }
        },
        NodeOp::GroupBest { input, key, value, better } => {
            let e = entries_at(nodes, input);
            let ks = keys_of_entries(e, |v: ValView| key.spec_apply(v));
            let vs = keys_of_entries(e, |v: ValView| value.spec_apply(v));
            Some(best_pairs(group_best(e, ks, vs, |a: ValView, b: ValView| better.spec_less(a, b), e.len() as int)))
        },
    }
}

/// The output of an operation depends only on the nodes it reads.
pub proof fn lemma_op_output_frame(op: NodeOp, n1: Seq<Node>, n2: Seq<Node>, bound: int)
    requires
        forall|j: int| 0 <= j < op_inputs(&op).len() ==> op_inputs(&op)[j] < bound,
        bound <= n1.len(),
        bound <= n2.len(),
        forall|k: int| 0 <= k < bound ==> n1[k] == n2[k],
    ensures
        op_output(op, n1) == op_output(op, n2),
{
    match op {
        NodeOp::Source => {},
        NodeOp::Transform { input, .. } => {
            assert(op_inputs(&op)[0] == input);
            assert(n1[input as int] == n2[input as int]);
        },
        NodeOp::Filter { input, .. } => {
            assert(op_inputs(&op)[0] == input);
            assert(n1[input as int] == n2[input as int]);
        },
        NodeOp::FlatMap { input, .. } => {
            assert(op_inputs(&op)[0] == input);
            assert(n1[input as int] == n2[input as int]);
        },
        NodeOp::Join { left, right, .. } => {
            assert(op_inputs(&op)[0] == left && op_inputs(&op)[1] == right);
            assert(n1[left as int] == n2[left as int]);
            assert(n1[right as int] == n2[right as int]);
        },
        NodeOp::Union { left, right } => {
            assert(op_inputs(&op)[0] == left && op_inputs(&op)[1] == right);
            assert(n1[left as int] == n2[left as int]);
            assert(n1[right as int] == n2[right as int]);
        },
        NodeOp::Distinct { input } => {
            assert(op_inputs(&op)[0] == input);
            assert(n1[input as int] == n2[input as int]);
        },
        NodeOp::Difference { left, right } => {
            assert(op_inputs(&op)[0] == left && op_inputs(&op)[1] == right);
            assert(n1[left as int] == n2[left as int]);
            assert(n1[right as int] == n2[right as int]);
        },
        NodeOp::GroupSum { input, .. } => {
            assert(op_inputs(&op)[0] == input);
            assert(n1[input as int] == n2[input as int]);
        },
        NodeOp::GroupBest { input, .. } => {
            assert(op_inputs(&op)[0] == input);
            assert(n1[input as int] == n2[input as int]);
        },
    }
}

/// Compute the state that the operation of derived node `id` gives from the states of the
/// nodes it reads.
pub fn compute_op(graph: &DataflowGraph, id: usize) -> (r: Option<Collection<Val>>)
    requires
        graph.wf(),
        id < graph.nodes().len(),
        !(graph.nodes()[id as int].op is Source),
    ensures
        result_is(r, op_output(graph.nodes()[id as int].op, graph.nodes())),
{
    let node = graph.get(NodeId(id));
    proof {
        assert(node_wf(graph.nodes(), id as int));
        assert(forall|j: int| 0 <= j < node.inputs@.len() ==> (#[trigger] node.inputs@[j]).0 == op_inputs(&node.op)[j]);
    }
    match &node.op {
        NodeOp::Source => None,
        NodeOp::Transform { input, func } => {
            assert(node.inputs@[0].0 == *input);
            compute_transform(&graph.get(NodeId(*input)).state, func)
        },
        NodeOp::Filter { input, pred } => {
            assert(node.inputs@[0].0 == *input);
            compute_filter(&graph.get(NodeId(*input)).state, pred)
        },
        NodeOp::FlatMap { input, flat } => {
            assert(node.inputs@[0].0 == *input);
            compute_flat_map(&graph.get(NodeId(*input)).state, flat)
        },
        NodeOp::Join { left, right, key_left, key_right } => {
            assert(node.inputs@[0].0 == *left && node.inputs@[1].0 == *right);
            compute_join(&graph.get(NodeId(*left)).state, &graph.get(NodeId(*right)).state, key_left, key_right)
        },
        NodeOp::Union { left, right } => {
            assert(node.inputs@[0].0 == *left && node.inputs@[1].0 == *right);
            compute_union(&graph.get(NodeId(*left)).state, &graph.get(NodeId(*right)).state)
        },
        NodeOp::Distinct { input } => {
            assert(node.inputs@[0].0 == *input);
            Some(compute_distinct(&graph.get(NodeId(*input)).state))
        },
        NodeOp::Difference { left, right } => {
            assert(node.inputs@[0].0 == *left && node.inputs@[1].0 == *right);
            Some(compute_difference(&graph.get(NodeId(*left)).state, &graph.get(NodeId(*right)).state))
        },
        NodeOp::GroupSum { input, key, weight } => {
            assert(node.inputs@[0].0 == *input);
            compute_group_sum(&graph.get(NodeId(*input)).state, key, weight)
        },
        NodeOp::GroupBest { input, key, value, better } => {
            assert(node.inputs@[0].0 == *input);
            Some(compute_group_best(&graph.get(NodeId(*input)).state, key, value, better))
        },
    }
}

} // verus!
