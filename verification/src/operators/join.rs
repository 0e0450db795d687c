//! Join operators: join, semijoin, antijoin.
//!
//! The specifications speak of the keys of the entries as sequences: `xk[i]` is the key of
//! `xs[i]`. The public operators state their result for every spec function that the key
//! closures implement.

use vstd::prelude::*;

use crate::change::{Change, Diff};
use crate::collection::{
    Collection, add_to, apply_all, applies_in_range, changes_view, count_of, keys_distinct, lemma_applies_prefix,
    lemma_apply_all_append,
    lemma_apply_all_push, lemma_changes_view_push, lemma_distinct_applies,
    lemma_keys_distinct_push, nonzero,
};
use crate::operators::{apply_keys, fn_total, implements, is_function, views_of};
use crate::tuple::Tuple;

verus! {

/// The changes that pair `x` (whose key is `kx`) with each of the first `n` entries of `ys`
/// whose key in `yk` is `kx`, in order, each with the product of the multiplicities.
pub open spec fn matches_of<X, Y, K>(x: (X, int), kx: K, ys: Seq<(Y, int)>, yk: Seq<K>, n: int) -> Seq<((X, Y), int)>
    decreases n,
{
    if n <= 0 {
        Seq::empty()
    } else {
        matches_of(x, kx, ys, yk, n - 1) + if yk[n - 1] == kx {
            seq![((x.0, ys[n - 1].0), x.1 * ys[n - 1].1)]
        } else {
            Seq::empty()
        }
    }
}

/// The join of the first `n` entries of `xs` with `ys` on equal keys.
pub open spec fn join_seq<X, Y, K>(xs: Seq<(X, int)>, xk: Seq<K>, ys: Seq<(Y, int)>, yk: Seq<K>, n: int) -> Seq<((X, Y), int)>
    decreases n,
{
    if n <= 0 {
        Seq::empty()
    } else {
        join_seq(xs, xk, ys, yk, n - 1) + matches_of(xs[n - 1], xk[n - 1], ys, yk, ys.len() as int)
    }
}

/// The changes that pair each of the first `n` entries of `xs` whose key is `ky` with `y`,
/// the entry of `xs` first, each with the product of `y`'s multiplicity and the entry's.
pub open spec fn matches_rev<X, Y, K>(y: (Y, int), ky: K, xs: Seq<(X, int)>, xk: Seq<K>, n: int) -> Seq<((X, Y), int)>
    decreases n,
{
    if n <= 0 {
        Seq::empty()
    } else {
        matches_rev(y, ky, xs, xk, n - 1) + if xk[n - 1] == ky {
            seq![((xs[n - 1].0, y.0), y.1 * xs[n - 1].1)]
        } else {
            Seq::empty()
        }
    }
}

/// For each of the first `n` entries of `ys` in order, its matches in `xs`.
pub open spec fn join_seq_rev<X, Y, K>(xs: Seq<(X, int)>, xk: Seq<K>, ys: Seq<(Y, int)>, yk: Seq<K>, n: int) -> Seq<((X, Y), int)>
    decreases n,
{
    if n <= 0 {
        Seq::empty()
    } else {
        join_seq_rev(xs, xk, ys, yk, n - 1) + matches_rev(ys[n - 1], yk[n - 1], xs, xk, xs.len() as int)
    }
}

/// Every product of a multiplicity of `xs` with one of `ys` fits in `i64`.
pub open spec fn products_fit<X, Y>(xs: Seq<(X, int)>, ys: Seq<(Y, int)>) -> bool {
    forall|i: int, j: int|
        0 <= i < xs.len() && 0 <= j < ys.len() ==> i64::MIN <= #[trigger] (xs[i].1 * ys[j].1) <= i64::MAX
}

/// The first `n` entries of `xs` whose key is (or, with `keep` false, is not) in `ks`.
pub open spec fn filter_by_keys<X, K>(xs: Seq<(X, int)>, xk: Seq<K>, ks: Set<K>, keep: bool, n: int) -> Seq<(X, int)>
    decreases n,
{
    if n <= 0 {
        Seq::empty()
    } else {
        filter_by_keys(xs, xk, ks, keep, n - 1) + if ks.contains(xk[n - 1]) == keep {
            seq![xs[n - 1]]
        } else {
            Seq::empty()
        }
    }
}

/// The keys of the entries of `ys` with positive multiplicity.
pub open spec fn positive_keys<Y, K>(ys: Seq<(Y, int)>, yk: Seq<K>) -> Set<K> {
    Set::new(|k: K| positive_key_in(ys, yk, ys.len() as int, k))
}

/// Among the first `n` entries of `ys`, one with positive multiplicity has key `k`.
pub open spec fn positive_key_in<Y, K>(ys: Seq<(Y, int)>, yk: Seq<K>, n: int, k: K) -> bool {
    exists|j: int| 0 <= j < n && ys[j].1 > 0 && yk[j] == k
}

/// Some element of `r` has view `k`.
pub open spec fn view_among<K: View>(r: Seq<K>, k: K::V) -> bool {
    exists|j: int| 0 <= j < r.len() && r[j]@ == k
}

/// The keys of the entries, computed once per entry.
fn keys_of<T: Tuple, K: Tuple, F: Fn(&T) -> K>(items: &Vec<(&T, Diff)>, key_fn: &F) -> (r: Vec<K>)
    requires
        fn_total(*key_fn),
    ensures
        r@.len() == items@.len(),
        forall|i: int| 0 <= i < r@.len() ==> call_ensures(*key_fn, (items@[i].0,), #[trigger] r@[i]),
{
    let mut r: Vec<K> = Vec::new();
    let mut i: usize = 0;
    while i < items.len()
        invariant
            fn_total(*key_fn),
            i <= items@.len(),
            r@.len() == i,
            forall|j: int| 0 <= j < i ==> call_ensures(*key_fn, (items@[j].0,), #[trigger] r@[j]),
        decreases items@.len() - i,
    {
        let k = key_fn(items[i].0);
        r.push(k);
        i = i + 1;
    }
    r
}

/// The views of computed keys are the views that `g` gives, where the key function implements `g`.
proof fn lemma_keys_view<T: Tuple, K: Tuple, F: Fn(&T) -> K>(
    items: Seq<(&T, Diff)>,
    keys: Seq<K>,
    key_fn: F,
    iv: Seq<(T::V, int)>,
    g: spec_fn(T::V) -> K::V,
)
    requires
        keys.len() == items.len(),
        iv.len() == items.len(),
        forall|i: int| 0 <= i < iv.len() ==> (#[trigger] items[i]).0@ == iv[i].0,
        forall|i: int| 0 <= i < keys.len() ==> call_ensures(key_fn, (items[i].0,), #[trigger] keys[i]),
        implements(key_fn, g),
    ensures
        keys.map_values(|k: K| k@) == apply_keys(iv, g),
{
    assert forall|i: int| 0 <= i < keys.len() implies #[trigger] keys[i]@ == g(iv[i].0) by {
        assert(call_ensures(key_fn, (items[i].0,), keys[i]));
        assert(items[i].0@ == iv[i].0);
    }
    assert(keys.map_values(|k: K| k@) =~= apply_keys(iv, g));
}

/// The pairs of `x` with the entries of `ys` whose key equals `kx`, appended to `out`.
fn push_matches<A: Tuple, B: Tuple, K: Tuple>(
    out: &mut Vec<Change<(A, B)>>,
    x: &A,
    dx: Diff,
    kx: &K,
    ys: &Vec<(&B, Diff)>,
    ykeys: &Vec<K>,
    Ghost(ysv): Ghost<Seq<(B::V, int)>>,
)
    requires
        ykeys@.len() == ys@.len(),
        ysv.len() == ys@.len(),
        forall|j: int| 0 <= j < ys@.len() ==> (#[trigger] ys@[j]).0@ == ysv[j].0 && ys@[j].1.0 == ysv[j].1,
        forall|j: int| 0 <= j < ys@.len() ==> i64::MIN <= dx.0 * #[trigger] ysv[j].1 <= i64::MAX,
    ensures
        changes_view(final(out)@) == changes_view(old(out)@) + matches_of(
            (x@, dx.0 as int),
            kx@,
            ysv,
            views_of(ykeys@),
            ysv.len() as int,
        ),
{
    let ghost start = changes_view(out@);
    let ghost yk = views_of(ykeys@);
    let mut j: usize = 0;
    while j < ys.len()
        invariant
            j <= ys@.len(),
            ykeys@.len() == ys@.len(),
            ysv.len() == ys@.len(),
            yk == views_of(ykeys@),
            forall|a: int| 0 <= a < ys@.len() ==> (#[trigger] ys@[a]).0@ == ysv[a].0 && ys@[a].1.0 == ysv[a].1,
            forall|a: int| 0 <= a < ys@.len() ==> i64::MIN <= dx.0 * #[trigger] ysv[a].1 <= i64::MAX,
            changes_view(out@) == start + matches_of((x@, dx.0 as int), kx@, ysv, yk, j as int),
        decreases ys@.len() - j,
    {
        let ghost pre = out@;
        assert(yk[j as int] == ykeys@[j as int]@);
        if kx.tuple_eq(&ykeys[j]) {
            let y = ys[j].0;
            let d = Diff(dx.0 * ys[j].1.0);
            let c = Change::new((x.tuple_clone(), y.tuple_clone()), d);
            out.push(c);
            proof {
                lemma_changes_view_push(pre, c);
            }
            assert(changes_view(out@) =~= start + matches_of((x@, dx.0 as int), kx@, ysv, yk, j as int + 1));
        } else {
            assert(changes_view(out@) =~= start + matches_of((x@, dx.0 as int), kx@, ysv, yk, j as int + 1));
        }
        j = j + 1;
    }
}

/// The pairs of the entries of `xs` whose key equals `ky` with `y`, appended to `out`.
fn push_matches_rev<A: Tuple, B: Tuple, K: Tuple>(
    out: &mut Vec<Change<(A, B)>>,
    y: &B,
    dy: Diff,
    ky: &K,
    xs: &Vec<(&A, Diff)>,
    xkeys: &Vec<K>,
    Ghost(xsv): Ghost<Seq<(A::V, int)>>,
)
    requires
        xkeys@.len() == xs@.len(),
        xsv.len() == xs@.len(),
        forall|j: int| 0 <= j < xs@.len() ==> (#[trigger] xs@[j]).0@ == xsv[j].0 && xs@[j].1.0 == xsv[j].1,
        forall|j: int| 0 <= j < xs@.len() ==> i64::MIN <= dy.0 * #[trigger] xsv[j].1 <= i64::MAX,
    ensures
        changes_view(final(out)@) == changes_view(old(out)@) + matches_rev(
            (y@, dy.0 as int),
            ky@,
            xsv,
            views_of(xkeys@),
            xsv.len() as int,
        ),
{
    let ghost start = changes_view(out@);
    let ghost xk = views_of(xkeys@);
    let mut j: usize = 0;
    while j < xs.len()
        invariant
            j <= xs@.len(),
            xkeys@.len() == xs@.len(),
            xsv.len() == xs@.len(),
            xk == views_of(xkeys@),
            forall|a: int| 0 <= a < xs@.len() ==> (#[trigger] xs@[a]).0@ == xsv[a].0 && xs@[a].1.0 == xsv[a].1,
            forall|a: int| 0 <= a < xs@.len() ==> i64::MIN <= dy.0 * #[trigger] xsv[a].1 <= i64::MAX,
            changes_view(out@) == start + matches_rev((y@, dy.0 as int), ky@, xsv, xk, j as int),
        decreases xs@.len() - j,
    {
        let ghost pre = out@;
        assert(xk[j as int] == xkeys@[j as int]@);
        if ky.tuple_eq(&xkeys[j]) {
            let x = xs[j].0;
            let d = Diff(dy.0 * xs[j].1.0);
            let c = Change::new((x.tuple_clone(), y.tuple_clone()), d);
            out.push(c);
            proof {
                lemma_changes_view_push(pre, c);
            }
            assert(changes_view(out@) =~= start + matches_rev((y@, dy.0 as int), ky@, xsv, xk, j as int + 1));
        } else {
            assert(changes_view(out@) =~= start + matches_rev((y@, dy.0 as int), ky@, xsv, xk, j as int + 1));
        }
        j = j + 1;
    }
}

/// The changes of the left items joined with the right items, for the computed keys.
fn join_items<A: Tuple, B: Tuple, K: Tuple>(
    left_items: &Vec<(&A, Diff)>,
    lkeys: &Vec<K>,
    right_items: &Vec<(&B, Diff)>,
    rkeys: &Vec<K>,
    Ghost(lv): Ghost<Seq<(A::V, int)>>,
    Ghost(rv): Ghost<Seq<(B::V, int)>>,
) -> (r: Vec<Change<(A, B)>>)
    requires
        lv.len() == left_items@.len(),
        rv.len() == right_items@.len(),
        lkeys@.len() == lv.len(),
        rkeys@.len() == rv.len(),
        forall|i: int| 0 <= i < lv.len() ==> (#[trigger] left_items@[i]).0@ == lv[i].0 && left_items@[i].1.0 == lv[i].1,
        forall|i: int| 0 <= i < rv.len() ==> (#[trigger] right_items@[i]).0@ == rv[i].0 && right_items@[i].1.0 == rv[i].1,
        products_fit(lv, rv),
    ensures
        changes_view(r@) == join_seq(lv, views_of(lkeys@), rv, views_of(rkeys@), lv.len() as int),
{
    let ghost lk = views_of(lkeys@);
    let ghost rk = views_of(rkeys@);
    let mut out: Vec<Change<(A, B)>> = Vec::new();
    let mut i: usize = 0;
    while i < left_items.len()
        invariant
            i <= lv.len(),
            lv.len() == left_items@.len(),
            rv.len() == right_items@.len(),
            lkeys@.len() == lv.len(),
            rkeys@.len() == rv.len(),
            lk == views_of(lkeys@),
            rk == views_of(rkeys@),
            forall|a: int| 0 <= a < lv.len() ==> (#[trigger] left_items@[a]).0@ == lv[a].0 && left_items@[a].1.0 == lv[a].1,
            forall|a: int| 0 <= a < rv.len() ==> (#[trigger] right_items@[a]).0@ == rv[a].0 && right_items@[a].1.0 == rv[a].1,
            products_fit(lv, rv),
            changes_view(out@) == join_seq(lv, lk, rv, rk, i as int),
        decreases lv.len() - i,
    {
        let x = left_items[i].0;
        let dx = left_items[i].1;
        proof {
            assert forall|j: int| 0 <= j < rv.len() implies i64::MIN <= dx.0 * #[trigger] rv[j].1 <= i64::MAX by {
                assert(lv[i as int].1 * rv[j].1 == dx.0 * rv[j].1);
            }
            assert(lk[i as int] == lkeys@[i as int]@);
        }
        push_matches(&mut out, x, dx, &lkeys[i], right_items, rkeys, Ghost(rv));
        i = i + 1;
    }
    out
}

/// The multiplicity the changes of `s` give `x`, starting from nothing.
pub open spec fn total_of<X>(s: Seq<(X, int)>, x: X) -> int {
    count_of(apply_all(Map::empty(), s), x)
}

/// Adding one change to a map adds its multiplicity to its own key only.
proof fn lemma_add_to_count<X>(m: Map<X, int>, k: X, d: int, x: X)
    ensures
        count_of(add_to(m, k, d), x) == count_of(m, x) + if k == x { d } else { 0 },
{
}

/// The pairs of `x` with the first `m` entries of `ys` add to the pair `(a, b)` the product of
/// `x`'s multiplicity and what those entries give `b`, where `x` holds `a` and the keys agree.
proof fn lemma_matches_count<X, Y, K>(
    mm: Map<(X, Y), int>,
    x: (X, int),
    kx: K,
    ys: Seq<(Y, int)>,
    gr: spec_fn(Y) -> K,
    m: int,
    a: X,
    b: Y,
)
    requires
        0 <= m <= ys.len(),
    ensures
        count_of(apply_all(mm, matches_of(x, kx, ys, apply_keys(ys, gr), m)), (a, b)) == count_of(mm, (a, b))
            + if x.0 == a && gr(b) == kx { x.1 * total_of(ys.subrange(0, m), b) } else { 0 },
    decreases m,
{
    let yk = apply_keys(ys, gr);
    if m > 0 {
        lemma_matches_count(mm, x, kx, ys, gr, m - 1, a, b);
        let prev = matches_of(x, kx, ys, yk, m - 1);
        let y = ys[m - 1];
        assert(ys.subrange(0, m) =~= ys.subrange(0, m - 1).push(y));
        lemma_apply_all_push(Map::empty(), ys.subrange(0, m - 1), y);
        lemma_add_to_count(apply_all(Map::empty(), ys.subrange(0, m - 1)), y.0, y.1, b);
        let c0 = total_of(ys.subrange(0, m - 1), b);
        if yk[m - 1] == kx {
            let e = ((x.0, y.0), x.1 * y.1);
            assert(matches_of(x, kx, ys, yk, m) =~= prev.push(e));
            lemma_apply_all_push(mm, prev, e);
            lemma_add_to_count(apply_all(mm, prev), e.0, e.1, (a, b));
            assert(x.1 * (c0 + if y.0 == b { y.1 } else { 0 }) == x.1 * c0 + if y.0 == b { x.1 * y.1 } else { 0 }) by (nonlinear_arith);
        } else {
            assert(matches_of(x, kx, ys, yk, m) =~= prev);
            if y.0 == b {
                assert(gr(b) != kx);
            }
        }
    } else {
        assert(ys.subrange(0, 0) =~= Seq::<(Y, int)>::empty());
    }
}

/// The join of the first `n` entries of `xs` with `ys` adds to the pair `(a, b)` the product of
/// what those entries give `a` and what `ys` gives `b`, where the keys of `a` and `b` agree.
proof fn lemma_join_seq_count<X, Y, K>(
    mm: Map<(X, Y), int>,
    xs: Seq<(X, int)>,
    gl: spec_fn(X) -> K,
    ys: Seq<(Y, int)>,
    gr: spec_fn(Y) -> K,
    n: int,
    a: X,
    b: Y,
)
    requires
        0 <= n <= xs.len(),
    ensures
        count_of(apply_all(mm, join_seq(xs, apply_keys(xs, gl), ys, apply_keys(ys, gr), n)), (a, b)) == count_of(mm, (a, b))
            + if gl(a) == gr(b) { total_of(xs.subrange(0, n), a) * total_of(ys, b) } else { 0 },
    decreases n,
{
    let xk = apply_keys(xs, gl);
    let yk = apply_keys(ys, gr);
    if n > 0 {
        lemma_join_seq_count(mm, xs, gl, ys, gr, n - 1, a, b);
        let prev = join_seq(xs, xk, ys, yk, n - 1);
        let x = xs[n - 1];
        let ms = matches_of(x, xk[n - 1], ys, yk, ys.len() as int);
        lemma_apply_all_append(mm, prev, ms);
        lemma_matches_count(apply_all(mm, prev), x, xk[n - 1], ys, gr, ys.len() as int, a, b);
        assert(ys.subrange(0, ys.len() as int) =~= ys);
        assert(xs.subrange(0, n) =~= xs.subrange(0, n - 1).push(x));
        lemma_apply_all_push(Map::empty(), xs.subrange(0, n - 1), x);
        lemma_add_to_count(apply_all(Map::empty(), xs.subrange(0, n - 1)), x.0, x.1, a);
        let c0 = total_of(xs.subrange(0, n - 1), a);
        let cy = total_of(ys, b);
        assert((c0 + if x.0 == a { x.1 } else { 0 }) * cy == c0 * cy + if x.0 == a { x.1 * cy } else { 0 }) by (nonlinear_arith);
    } else {
        assert(xs.subrange(0, 0) =~= Seq::<(X, int)>::empty());
    }
}

/// The join gives each pair the product of its parts' multiplicities where their keys agree,
/// and nothing where they do not.
pub proof fn lemma_join_pointwise<X, Y, K>(xs: Seq<(X, int)>, gl: spec_fn(X) -> K, ys: Seq<(Y, int)>, gr: spec_fn(Y) -> K)
    ensures
        forall|a: X, b: Y| #[trigger] total_of(join_seq(xs, apply_keys(xs, gl), ys, apply_keys(ys, gr), xs.len() as int), (a, b))
            == if gl(a) == gr(b) { total_of(xs, a) * total_of(ys, b) } else { 0 },
{
    assert forall|a: X, b: Y| #[trigger] total_of(join_seq(xs, apply_keys(xs, gl), ys, apply_keys(ys, gr), xs.len() as int), (a, b))
        == if gl(a) == gr(b) { total_of(xs, a) * total_of(ys, b) } else { 0 } by {
        lemma_join_seq_count(Map::empty(), xs, gl, ys, gr, xs.len() as int, a, b);
        assert(xs.subrange(0, xs.len() as int) =~= xs);
    }
}

/// The incremental join carries the join from the old left side to the new one: where the
/// entries `xs2` give each tuple what the entries `xs` give it plus what the changes `cs` give
/// it, joining `xs2` with `ys` gives each pair what joining `xs` gives it plus what joining the
/// changes gives it.
pub proof fn lemma_join_changes_left_law<X, Y, K>(
    xs: Seq<(X, int)>,
    cs: Seq<(X, int)>,
    xs2: Seq<(X, int)>,
    ys: Seq<(Y, int)>,
    gl: spec_fn(X) -> K,
    gr: spec_fn(Y) -> K,
)
    requires
        forall|a: X| #[trigger] total_of(xs2, a) == total_of(xs, a) + total_of(cs, a),
    ensures
        forall|a: X, b: Y| #[trigger] total_of(join_seq(xs2, apply_keys(xs2, gl), ys, apply_keys(ys, gr), xs2.len() as int), (a, b))
            == total_of(join_seq(xs, apply_keys(xs, gl), ys, apply_keys(ys, gr), xs.len() as int), (a, b))
            + total_of(join_seq(cs, apply_keys(cs, gl), ys, apply_keys(ys, gr), cs.len() as int), (a, b)),
{
    lemma_join_pointwise(xs, gl, ys, gr);
    lemma_join_pointwise(cs, gl, ys, gr);
    lemma_join_pointwise(xs2, gl, ys, gr);
    assert forall|a: X, b: Y| #[trigger] total_of(join_seq(xs2, apply_keys(xs2, gl), ys, apply_keys(ys, gr), xs2.len() as int), (a, b))
        == total_of(join_seq(xs, apply_keys(xs, gl), ys, apply_keys(ys, gr), xs.len() as int), (a, b))
        + total_of(join_seq(cs, apply_keys(cs, gl), ys, apply_keys(ys, gr), cs.len() as int), (a, b)) by {
        let p = total_of(xs, a);
        let q = total_of(cs, a);
        let r = total_of(ys, b);
        assert((p + q) * r == p * r + q * r) by (nonlinear_arith);
    }
}

/// Counting the first `n` entries of `xs` by whether their key is in `ks`: the two parts give
/// each tuple together what those entries give it, and a part gives nothing to a tuple that no
/// entry of that part holds.
proof fn lemma_split_count<X, K>(xs: Seq<(X, int)>, xk: Seq<K>, ks: Set<K>, n: int, x: X)
    requires
        0 <= n <= xs.len(),
        xk.len() == xs.len(),
    ensures
        total_of(xs.subrange(0, n), x) == total_of(filter_by_keys(xs, xk, ks, true, n), x)
            + total_of(filter_by_keys(xs, xk, ks, false, n), x),
        forall|keep: bool| (forall|j: int| 0 <= j < n && xs[j].0 == x ==> ks.contains(#[trigger] xk[j]) != keep)
            ==> #[trigger] total_of(filter_by_keys(xs, xk, ks, keep, n), x) == 0,
    decreases n,
{
    if n > 0 {
        lemma_split_count(xs, xk, ks, n - 1, x);
        let e = xs[n - 1];
        assert(xs.subrange(0, n) =~= xs.subrange(0, n - 1).push(e));
        lemma_apply_all_push(Map::empty(), xs.subrange(0, n - 1), e);
        lemma_add_to_count(apply_all(Map::empty(), xs.subrange(0, n - 1)), e.0, e.1, x);
        let ft = filter_by_keys(xs, xk, ks, true, n - 1);
        let ff = filter_by_keys(xs, xk, ks, false, n - 1);
        lemma_apply_all_push(Map::empty(), ft, e);
        lemma_add_to_count(apply_all(Map::empty(), ft), e.0, e.1, x);
        lemma_apply_all_push(Map::empty(), ff, e);
        lemma_add_to_count(apply_all(Map::empty(), ff), e.0, e.1, x);
        if ks.contains(xk[n - 1]) {
            assert(filter_by_keys(xs, xk, ks, true, n) =~= ft.push(e));
            assert(filter_by_keys(xs, xk, ks, false, n) =~= ff);
        } else {
            assert(filter_by_keys(xs, xk, ks, true, n) =~= ft);
            assert(filter_by_keys(xs, xk, ks, false, n) =~= ff.push(e));
        }
        assert forall|keep: bool| (forall|j: int| 0 <= j < n && xs[j].0 == x ==> ks.contains(#[trigger] xk[j]) != keep)
            implies #[trigger] total_of(filter_by_keys(xs, xk, ks, keep, n), x) == 0 by {
            assert(forall|j: int| 0 <= j < n - 1 && xs[j].0 == x ==> ks.contains(#[trigger] xk[j]) != keep);
            if e.0 == x {
                assert(ks.contains(xk[n - 1]) != keep);
            }
        }
    } else {
        assert(xs.subrange(0, 0) =~= Seq::<(X, int)>::empty());
    }
}

/// Semijoin and antijoin part the left side by key: for any set of keys, the entries whose key
/// is in it and those whose key is not together give each tuple what all the entries give it;
/// and where no tuple occurs twice, each tuple is given nothing by the part its key does not
/// pick.
pub proof fn lemma_semijoin_antijoin_split<X, K>(xs: Seq<(X, int)>, xk: Seq<K>, ks: Set<K>)
    requires
        xk.len() == xs.len(),
    ensures
        forall|x: X| #[trigger] total_of(xs, x) == total_of(filter_by_keys(xs, xk, ks, true, xs.len() as int), x)
            + total_of(filter_by_keys(xs, xk, ks, false, xs.len() as int), x),
        keys_distinct(xs) ==> forall|i: int| #![trigger xs[i]] 0 <= i < xs.len() ==> total_of(
            filter_by_keys(xs, xk, ks, !ks.contains(xk[i]), xs.len() as int), xs[i].0) == 0,
{
    assert(xs.subrange(0, xs.len() as int) =~= xs);
    assert forall|x: X| #[trigger] total_of(xs, x) == total_of(filter_by_keys(xs, xk, ks, true, xs.len() as int), x)
        + total_of(filter_by_keys(xs, xk, ks, false, xs.len() as int), x) by {
        lemma_split_count(xs, xk, ks, xs.len() as int, x);
    }
    if keys_distinct(xs) {
        assert forall|i: int| #![trigger xs[i]] 0 <= i < xs.len() implies total_of(
            filter_by_keys(xs, xk, ks, !ks.contains(xk[i]), xs.len() as int), xs[i].0) == 0 by {
            lemma_split_count(xs, xk, ks, xs.len() as int, xs[i].0);
            let keep = !ks.contains(xk[i]);
            assert forall|j: int| 0 <= j < xs.len() && xs[j].0 == xs[i].0 implies ks.contains(#[trigger] xk[j]) != keep by {
                assert(j == i);
            }
        }
    }
}

/// Join operator for two collections with key extraction.
/// join(A, B, key_a, key_b) produces (a, b) for all (a in A, b in B) where key_a(a) == key_b(b),
/// with the product of their multiplicities; pairs whose total is zero are left out.
pub fn join<A: Tuple, B: Tuple, K: Tuple, FA: Fn(&A) -> K, FB: Fn(&B) -> K>(
    left: &Collection<A>,
    right: &Collection<B>,
    key_left: FA,
    key_right: FB,
) -> (r: Collection<(A, B)>)
    requires
        fn_total(key_left),
        fn_total(key_right),
        is_function(key_left),
        is_function(key_right),
        products_fit(left.entries(), right.entries()),
        forall|gl: spec_fn(A::V) -> K::V, gr: spec_fn(B::V) -> K::V|
            implements(key_left, gl) && implements(key_right, gr) ==> applies_in_range(
                Map::empty(),
                join_seq(left.entries(), apply_keys(left.entries(), gl), right.entries(), apply_keys(right.entries(), gr), left.entries().len() as int),
            ),
    ensures
        forall|gl: spec_fn(A::V) -> K::V, gr: spec_fn(B::V) -> K::V|
            implements(key_left, gl) && implements(key_right, gr) ==> r@ == nonzero(apply_all(
                Map::empty(),
                join_seq(left.entries(), apply_keys(left.entries(), gl), right.entries(), apply_keys(right.entries(), gr), left.entries().len() as int),
            )),
{
    let li = left.iter_with_multiplicity();
    let ri = right.iter_with_multiplicity();
    let lk = keys_of(&li, &key_left);
    let rk = keys_of(&ri, &key_right);
    let changes = join_items(&li, &lk, &ri, &rk, Ghost(left.entries()), Ghost(right.entries()));
    let ghost js = join_seq(left.entries(), views_of(lk@), right.entries(), views_of(rk@), left.entries().len() as int);
    proof {
        let gl = choose|gl: spec_fn(A::V) -> K::V| implements(key_left, gl);
        let gr = choose|gr: spec_fn(B::V) -> K::V| implements(key_right, gr);
        lemma_keys_view(li@, lk@, key_left, left.entries(), gl);
        lemma_keys_view(ri@, rk@, key_right, right.entries(), gr);
    }
    let mut output = Collection::new();
    output.apply_changes(changes);
    proof {
        assert forall|gl: spec_fn(A::V) -> K::V, gr: spec_fn(B::V) -> K::V|
            implements(key_left, gl) && implements(key_right, gr) implies output@ == nonzero(apply_all(
                Map::empty(),
                join_seq(left.entries(), apply_keys(left.entries(), gl), right.entries(), apply_keys(right.entries(), gr), left.entries().len() as int),
            )) by {
            lemma_keys_view(li@, lk@, key_left, left.entries(), gl);
            lemma_keys_view(ri@, rk@, key_right, right.entries(), gr);
        }
    }
    output
}

/// Incremental join: the changes to a join caused by `left_changes`, given the right side's state.
pub fn join_changes_left<A: Tuple, B: Tuple, K: Tuple, FA: Fn(&A) -> K, FB: Fn(&B) -> K>(
    left_changes: &[Change<A>],
    right_state: &Collection<B>,
    key_left: FA,
    key_right: FB,
) -> (r: Vec<Change<(A, B)>>)
    requires
        fn_total(key_left),
        fn_total(key_right),
        products_fit(changes_view(left_changes@), right_state.entries()),
    ensures
        forall|gl: spec_fn(A::V) -> K::V, gr: spec_fn(B::V) -> K::V|
            implements(key_left, gl) && implements(key_right, gr) ==> changes_view(r@) == join_seq(
                changes_view(left_changes@),
                apply_keys(changes_view(left_changes@), gl),
                right_state.entries(),
                apply_keys(right_state.entries(), gr),
                left_changes@.len() as int,
            ),
{
    let mut li: Vec<(&A, Diff)> = Vec::new();
    let mut i: usize = 0;
    while i < left_changes.len()
        invariant
            i <= left_changes@.len(),
            li@.len() == i,
            forall|a: int| 0 <= a < i ==> (#[trigger] li@[a]).0@ == left_changes@[a].tuple@ && li@[a].1 == left_changes@[a].diff,
        decreases left_changes@.len() - i,
    {
        li.push((&left_changes[i].tuple, left_changes[i].diff));
        i = i + 1;
    }
    let ri = right_state.iter_with_multiplicity();
    let lk = keys_of(&li, &key_left);
    let rk = keys_of(&ri, &key_right);
    let ghost lv = changes_view(left_changes@);
    let r = join_items(&li, &lk, &ri, &rk, Ghost(lv), Ghost(right_state.entries()));
    proof {
        assert forall|gl: spec_fn(A::V) -> K::V, gr: spec_fn(B::V) -> K::V|
            implements(key_left, gl) && implements(key_right, gr) implies changes_view(r@) == join_seq(
                lv,
                apply_keys(lv, gl),
                right_state.entries(),
                apply_keys(right_state.entries(), gr),
                left_changes@.len() as int,
            ) by {
            lemma_keys_view(li@, lk@, key_left, lv, gl);
            lemma_keys_view(ri@, rk@, key_right, right_state.entries(), gr);
        }
    }
    r
}

/// Incremental join: the changes to a join caused by `right_changes`, given the left side's state.
pub fn join_changes_right<A: Tuple, B: Tuple, K: Tuple, FA: Fn(&A) -> K, FB: Fn(&B) -> K>(
    left_state: &Collection<A>,
    right_changes: &[Change<B>],
    key_left: FA,
    key_right: FB,
) -> (r: Vec<Change<(A, B)>>)
    requires
        fn_total(key_left),
        fn_total(key_right),
        products_fit(changes_view(right_changes@), left_state.entries()),
    ensures
        forall|gl: spec_fn(A::V) -> K::V, gr: spec_fn(B::V) -> K::V|
            implements(key_left, gl) && implements(key_right, gr) ==> changes_view(r@) == join_seq_rev(
                left_state.entries(),
                apply_keys(left_state.entries(), gl),
                changes_view(right_changes@),
                apply_keys(changes_view(right_changes@), gr),
                right_changes@.len() as int,
            ),
{
    let li = left_state.iter_with_multiplicity();
    let lk = keys_of(&li, &key_left);
    let ghost lv = left_state.entries();
    let ghost rv = changes_view(right_changes@);
    let ghost lkv = views_of(lk@);
    let mut rk: Vec<K> = Vec::new();
    let mut out: Vec<Change<(A, B)>> = Vec::new();
    let mut i: usize = 0;
    while i < right_changes.len()
        invariant
            fn_total(key_right),
            i <= rv.len(),
            rv.len() == right_changes@.len(),
            rv == changes_view(right_changes@),
            lv.len() == li@.len(),
            lk@.len() == lv.len(),
            lkv == views_of(lk@),
            rk@.len() == i,
            forall|a: int| 0 <= a < i ==> call_ensures(key_right, (&right_changes@[a].tuple,), #[trigger] rk@[a]),
            forall|a: int| 0 <= a < lv.len() ==> (#[trigger] li@[a]).0@ == lv[a].0 && li@[a].1.0 == lv[a].1,
            products_fit(rv, lv),
            changes_view(out@) == join_seq_rev(lv, lkv, rv, views_of(rk@), i as int),
        decreases rv.len() - i,
    {
        let c = &right_changes[i];
        let k = key_right(&c.tuple);
        proof {
            assert(rv[i as int] == (c.tuple@, c.diff.0 as int));
            assert forall|j: int| 0 <= j < lv.len() implies i64::MIN <= c.diff.0 * #[trigger] lv[j].1 <= i64::MAX by {
                assert(rv[i as int].1 * lv[j].1 == c.diff.0 * lv[j].1);
            }
        }
        push_matches_rev(&mut out, &c.tuple, c.diff, &k, &li, &lk, Ghost(lv));
        let ghost old_rk = rk@;
        rk.push(k);
        proof {
            assert forall|j: int| 0 <= j < i implies views_of(old_rk)[j] == views_of(rk@)[j] by {
                assert(old_rk[j] == rk@[j]);
            }
            lemma_join_seq_rev_prefix(lv, lkv, rv, views_of(old_rk), views_of(rk@), i as int);
        }
        i = i + 1;
    }
    proof {
        assert forall|gl: spec_fn(A::V) -> K::V, gr: spec_fn(B::V) -> K::V|
            implements(key_left, gl) && implements(key_right, gr) implies changes_view(out@) == join_seq_rev(
                lv,
                apply_keys(lv, gl),
                rv,
                apply_keys(rv, gr),
                right_changes@.len() as int,
            ) by {
            lemma_keys_view(li@, lk@, key_left, lv, gl);
            assert forall|a: int| 0 <= a < rk@.len() implies #[trigger] rk@[a]@ == gr(rv[a].0) by {
                assert(call_ensures(key_right, (&right_changes@[a].tuple,), rk@[a]));
            }
            assert(views_of(rk@) =~= apply_keys(rv, gr));
        }
    }
    out
}

/// Extending the key sequence of `ys` beyond the first `n` entries does not change their join.
proof fn lemma_join_seq_rev_prefix<X, Y, K>(xs: Seq<(X, int)>, xk: Seq<K>, ys: Seq<(Y, int)>, yk1: Seq<K>, yk2: Seq<K>, n: int)
    requires
        0 <= n <= yk1.len(),
        n <= yk2.len(),
        forall|j: int| 0 <= j < n ==> yk1[j] == yk2[j],
    ensures
        join_seq_rev(xs, xk, ys, yk1, n) == join_seq_rev(xs, xk, ys, yk2, n),
    decreases n,
{
    if n > 0 {
        lemma_join_seq_rev_prefix(xs, xk, ys, yk1, yk2, n - 1);
        assert(yk1[n - 1] == yk2[n - 1]);
    }
}

/// The entries of `items` whose key is (with `keep`) or is not (without) among `keys`.
fn filter_items_by_keys<A: Tuple, K: Tuple>(
    items: &Vec<(&A, Diff)>,
    ikeys: &Vec<K>,
    keys: &Vec<K>,
    keep: bool,
    Ghost(iv): Ghost<Seq<(A::V, int)>>,
    Ghost(ks): Ghost<Set<K::V>>,
) -> (r: Vec<Change<A>>)
    requires
        iv.len() == items@.len(),
        ikeys@.len() == items@.len(),
        forall|i: int| 0 <= i < iv.len() ==> (#[trigger] items@[i]).0@ == iv[i].0 && items@[i].1.0 == iv[i].1,
        forall|k: K::V| #![trigger ks.contains(k)] #![trigger view_among(keys@, k)] ks.contains(k) <==> view_among(keys@, k),
    ensures
        changes_view(r@) == filter_by_keys(iv, views_of(ikeys@), ks, keep, iv.len() as int),
{
    let ghost ik = views_of(ikeys@);
    let mut out: Vec<Change<A>> = Vec::new();
    let mut i: usize = 0;
    while i < items.len()
        invariant
            i <= iv.len(),
            iv.len() == items@.len(),
            ikeys@.len() == items@.len(),
            ik == views_of(ikeys@),
            forall|a: int| 0 <= a < iv.len() ==> (#[trigger] items@[a]).0@ == iv[a].0 && items@[a].1.0 == iv[a].1,
            forall|k: K::V| #![trigger ks.contains(k)] #![trigger view_among(keys@, k)] ks.contains(k) <==> view_among(keys@, k),
            changes_view(out@) == filter_by_keys(iv, ik, ks, keep, i as int),
        decreases iv.len() - i,
    {
        let k = &ikeys[i];
        let mut found = false;
        let mut j: usize = 0;
        while j < keys.len()
            invariant
                j <= keys@.len(),
                found == exists|b: int| 0 <= b < j && (#[trigger] keys@[b])@ == k@,
            decreases keys@.len() - j,
        {
            if keys[j].tuple_eq(k) {
                found = true;
            }
            j = j + 1;
        }
        assert(found == view_among(keys@, k@));
        assert(ik[i as int] == k@);
        let ghost pre = out@;
        if found == keep {
            let c = Change::new(items[i].0.tuple_clone(), items[i].1);
            out.push(c);
            proof {
                lemma_changes_view_push(pre, c);
            }
        }
        assert(changes_view(out@) =~= filter_by_keys(iv, ik, ks, keep, i as int + 1));
        i = i + 1;
    }
    out
}

/// The keys of the positive entries among the items.
fn positive_keys_of<B: Tuple, K: Tuple>(
    items: &Vec<(&B, Diff)>,
    ikeys: &Vec<K>,
    Ghost(bv): Ghost<Seq<(B::V, int)>>,
) -> (r: Vec<K>)
    requires
        bv.len() == items@.len(),
        ikeys@.len() == items@.len(),
        forall|i: int| 0 <= i < bv.len() ==> (#[trigger] items@[i]).0@ == bv[i].0 && items@[i].1.0 == bv[i].1,
    ensures
        forall|k: K::V| #![trigger positive_keys(bv, views_of(ikeys@)).contains(k)] #![trigger view_among(r@, k)] positive_keys(bv, views_of(ikeys@)).contains(k) <==> view_among(r@, k),
{
    let ghost ik = views_of(ikeys@);
    let mut r: Vec<K> = Vec::new();
    let mut i: usize = 0;
    while i < items.len()
        invariant
            i <= bv.len(),
            bv.len() == items@.len(),
            ikeys@.len() == items@.len(),
            ik == views_of(ikeys@),
            forall|a: int| 0 <= a < bv.len() ==> (#[trigger] items@[a]).0@ == bv[a].0 && items@[a].1.0 == bv[a].1,
            forall|k: K::V| #![trigger positive_key_in(bv, ik, i as int, k)] #![trigger view_among(r@, k)] positive_key_in(bv, ik, i as int, k) <==> view_among(r@, k),
        decreases bv.len() - i,
    {
        let ghost pre = r@;
        assert(ik[i as int] == ikeys@[i as int]@);
        if items[i].1.is_positive() {
            r.push(ikeys[i].tuple_clone());
        }
        proof {
            assert forall|k2: K::V| #![trigger positive_key_in(bv, ik, i + 1, k2)] #![trigger view_among(r@, k2)] positive_key_in(bv, ik, i + 1, k2) <==> view_among(r@, k2) by {
                if positive_key_in(bv, ik, i + 1, k2) {
                    let a = choose|a: int| 0 <= a < i + 1 && bv[a].1 > 0 && ik[a] == k2;
                    if a < i {
                        assert(positive_key_in(bv, ik, i as int, k2));
                        let j = choose|j: int| 0 <= j < pre.len() && pre[j]@ == k2;
                        assert(r@[j] == pre[j]);
                    } else {
                        assert(r@[r@.len() - 1]@ == k2);
                    }
                }
                if view_among(r@, k2) {
                    let j = choose|j: int| 0 <= j < r@.len() && r@[j]@ == k2;
                    if j < pre.len() {
                        assert(r@[j] == pre[j]);
                        assert(view_among(pre, k2));
                    } else {
                        assert(bv[i as int].1 > 0 && ik[i as int] == k2);
                    }
                }
            }
        }
        i = i + 1;
    }
    assert(positive_keys(bv, ik) =~= Set::new(|k: K::V| positive_key_in(bv, ik, bv.len() as int, k)));
    r
}

/// Entries with distinct keys, filtered, keep distinct keys and values in `i64`.
proof fn lemma_filtered_unique<X, K>(xs: Seq<(X, int)>, xk: Seq<K>, ks: Set<K>, keep: bool, n: int)
    requires
        0 <= n <= xs.len(),
        xk.len() == xs.len(),
        keys_distinct(xs),
        forall|i: int| 0 <= i < xs.len() ==> i64::MIN <= #[trigger] xs[i].1 <= i64::MAX,
    ensures
        keys_distinct(filter_by_keys(xs, xk, ks, keep, n)),
        forall|i: int| 0 <= i < filter_by_keys(xs, xk, ks, keep, n).len() ==> exists|j: int| 0 <= j < n && #[trigger] filter_by_keys(xs, xk, ks, keep, n)[i] == xs[j],
        forall|i: int| 0 <= i < filter_by_keys(xs, xk, ks, keep, n).len() ==> i64::MIN <= #[trigger] filter_by_keys(xs, xk, ks, keep, n)[i].1 <= i64::MAX,
    decreases n,
{
    let f = filter_by_keys(xs, xk, ks, keep, n);
    if n > 0 {
        lemma_filtered_unique(xs, xk, ks, keep, n - 1);
        let fp = filter_by_keys(xs, xk, ks, keep, n - 1);
        if ks.contains(xk[n - 1]) == keep {
            assert(f =~= fp.push(xs[n - 1]));
            assert forall|i: int| 0 <= i < fp.len() implies fp[i].0 != xs[n - 1].0 by {
                let j = choose|j: int| 0 <= j < n - 1 && #[trigger] fp[i] == xs[j];
                assert(xs[j].0 != xs[n - 1].0);
            }
            lemma_keys_distinct_push(fp, xs[n - 1]);
        } else {
            assert(f =~= fp);
        }
        assert forall|i: int| 0 <= i < f.len() implies exists|j: int| 0 <= j < n && #[trigger] f[i] == xs[j] by {
            if i < fp.len() {
                let j = choose|j: int| 0 <= j < n - 1 && #[trigger] fp[i] == xs[j];
                assert(f[i] == fp[i]);
                assert(0 <= j < n && f[i] == xs[j]);
            } else {
                assert(f[i] == xs[n - 1]);
            }
        }
    } else {
        assert(f.len() == 0);
    }
}

/// Apply each change, in order, to an empty collection; no two changes share a tuple.
pub(crate) fn apply_each<T: Tuple>(out: &mut Collection<T>, changes: Vec<Change<T>>)
    requires
        applies_in_range(old(out)@, changes_view(changes@)),
        old(out)@ == Map::<T::V, int>::empty(),
        keys_distinct(changes_view(changes@)),
    ensures
        final(out)@ == apply_all(old(out)@, changes_view(changes@)),
{
    let ghost start = out@;
    let ghost cs = changes_view(changes@);
    let mut i: usize = 0;
    assert(cs.subrange(0, 0) =~= Seq::<(T::V, int)>::empty());
    while i < changes.len()
        invariant
            i <= changes@.len(),
            cs == changes_view(changes@),
            applies_in_range(start, cs),
            start == Map::<T::V, int>::empty(),
            keys_distinct(cs),
            out@ == apply_all(start, cs.subrange(0, i as int)),
        decreases changes@.len() - i,
    {
        let c = Change::new(changes[i].tuple.tuple_clone(), changes[i].diff);
        proof {
            lemma_applies_prefix(start, cs, i as int + 1);
            assert(cs.subrange(0, i as int + 1) =~= cs.subrange(0, i as int).push(cs[i as int]));
            lemma_apply_all_push(start, cs.subrange(0, i as int), cs[i as int]);
            crate::collection::lemma_apply_all_fresh(cs, i as int);
            crate::collection::lemma_change_at_new(out@, cs[i as int].0, cs[i as int].1);
        }
        out.apply_change(c);
        i = i + 1;
    }
    assert(cs.subrange(0, changes@.len() as int) =~= cs);
}

/// Semijoin: keeps the entries of left whose key matches a tuple of right with positive multiplicity.
pub fn semijoin<A: Tuple, B: Tuple, K: Tuple, FA: Fn(&A) -> K, FB: Fn(&B) -> K>(
    left: &Collection<A>,
    right: &Collection<B>,
    key_left: FA,
    key_right: FB,
) -> (r: Collection<A>)
    requires
        fn_total(key_left),
        fn_total(key_right),
    ensures
        forall|gl: spec_fn(A::V) -> K::V, gr: spec_fn(B::V) -> K::V|
            implements(key_left, gl) && implements(key_right, gr) ==> r@ == apply_all(
                Map::empty(),
                filter_by_keys(left.entries(), apply_keys(left.entries(), gl), positive_keys(right.entries(), apply_keys(right.entries(), gr)), true, left.entries().len() as int),
            ),
{
    semi_or_anti(left, right, key_left, key_right, true)
}

/// Antijoin: keeps the entries of left whose key matches no tuple of right with positive multiplicity.
pub fn antijoin<A: Tuple, B: Tuple, K: Tuple, FA: Fn(&A) -> K, FB: Fn(&B) -> K>(
    left: &Collection<A>,
    right: &Collection<B>,
    key_left: FA,
    key_right: FB,
) -> (r: Collection<A>)
    requires
        fn_total(key_left),
        fn_total(key_right),
    ensures
        forall|gl: spec_fn(A::V) -> K::V, gr: spec_fn(B::V) -> K::V|
            implements(key_left, gl) && implements(key_right, gr) ==> r@ == apply_all(
                Map::empty(),
                filter_by_keys(left.entries(), apply_keys(left.entries(), gl), positive_keys(right.entries(), apply_keys(right.entries(), gr)), false, left.entries().len() as int),
            ),
{
    semi_or_anti(left, right, key_left, key_right, false)
}

fn semi_or_anti<A: Tuple, B: Tuple, K: Tuple, FA: Fn(&A) -> K, FB: Fn(&B) -> K>(
    left: &Collection<A>,
    right: &Collection<B>,
    key_left: FA,
    key_right: FB,
    keep: bool,
) -> (r: Collection<A>)
    requires
        fn_total(key_left),
        fn_total(key_right),
    ensures
        forall|gl: spec_fn(A::V) -> K::V, gr: spec_fn(B::V) -> K::V|
            implements(key_left, gl) && implements(key_right, gr) ==> r@ == apply_all(
                Map::empty(),
                filter_by_keys(left.entries(), apply_keys(left.entries(), gl), positive_keys(right.entries(), apply_keys(right.entries(), gr)), keep, left.entries().len() as int),
            ),
{
    let ri = right.iter_with_multiplicity();
    let rk = keys_of(&ri, &key_right);
    let pk = positive_keys_of(&ri, &rk, Ghost(right.entries()));
    let li = left.iter_with_multiplicity();
    let lk = keys_of(&li, &key_left);
    let ghost ks = positive_keys(right.entries(), views_of(rk@));
    let changes = filter_items_by_keys(&li, &lk, &pk, keep, Ghost(left.entries()), Ghost(ks));
    let ghost fs = filter_by_keys(left.entries(), views_of(lk@), ks, keep, left.entries().len() as int);
    proof {
        lemma_filtered_unique(left.entries(), views_of(lk@), ks, keep, left.entries().len() as int);
        lemma_distinct_applies(fs);
    }
    let mut output = Collection::new();
    apply_each(&mut output, changes);
    proof {
        assert forall|gl: spec_fn(A::V) -> K::V, gr: spec_fn(B::V) -> K::V|
            implements(key_left, gl) && implements(key_right, gr) implies output@ == apply_all(
                Map::empty(),
                filter_by_keys(left.entries(), apply_keys(left.entries(), gl), positive_keys(right.entries(), apply_keys(right.entries(), gr)), keep, left.entries().len() as int),
            ) by {
            lemma_keys_view(li@, lk@, key_left, left.entries(), gl);
            lemma_keys_view(ri@, rk@, key_right, right.entries(), gr);
        }
    }
    output
}

} // verus!
