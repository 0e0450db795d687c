//! Rewriting a pseudo-boolean proof log so that it concludes from the external literals: the
//! highest constraint id the log defines, the lines that conclude it, and the log with its
//! conclusion replaced by loads of the externals' constraints, a reverse-unit-propagation step
//! and a new conclusion. The log is ASCII text.

use vstd::prelude::*;

verus! {

/// `b` is ASCII whitespace: tab, line feed, vertical tab, form feed, carriage return or space.
pub open spec fn is_space(b: u8) -> bool {
    b == 32 || (9 <= b && b <= 13)
}

/// Every byte of `s` is ASCII.
pub open spec fn is_ascii_text(s: Seq<u8>) -> bool {
    forall|i: int| 0 <= i < s.len() ==> #[trigger] s[i] < 128
}

/// `t` without its leading whitespace.
pub open spec fn trim_start(t: Seq<u8>) -> Seq<u8>
    decreases t.len(),
{
    if t.len() > 0 && is_space(t[0]) {
        trim_start(t.drop_first())
    } else {
        t
    }
}

/// `t` without its trailing whitespace.
pub open spec fn trim_end(t: Seq<u8>) -> Seq<u8>
    decreases t.len(),
{
    if t.len() > 0 && is_space(t.last()) {
        trim_end(t.drop_last())
    } else {
        t
    }
}

/// `t` without its leading and trailing whitespace.
pub open spec fn trim(t: Seq<u8>) -> Seq<u8> {
    trim_start(trim_end(t))
}

/// The bytes of `w` up to its first whitespace.
pub open spec fn take_token(w: Seq<u8>) -> Seq<u8>
    decreases w.len(),
{
    if w.len() > 0 && !is_space(w[0]) {
        seq![w[0]] + take_token(w.drop_first())
    } else {
        Seq::empty()
    }
}

/// The first whitespace-separated word of `u` (empty where there is none).
pub open spec fn first_token(u: Seq<u8>) -> Seq<u8> {
    take_token(trim_start(u))
}

/// The bytes of `d` are decimal digits.
pub open spec fn all_digits(d: Seq<u8>) -> bool {
    forall|i: int| 0 <= i < d.len() ==> 48 <= #[trigger] d[i] <= 57
}

/// The number the decimal digits `d` write.
pub open spec fn dec_value(d: Seq<u8>) -> nat
    decreases d.len(),
{
    if d.len() == 0 {
        0
    } else {
        dec_value(d.drop_last()) * 10 + (d.last() - 48) as nat
    }
}

/// The unsigned 64-bit number a word writes: an optional `+`, then one or more decimal digits,
/// of value at most `u64::MAX`.
pub open spec fn parse_u64(tok: Seq<u8>) -> Option<u64> {
    let d = if tok.len() > 0 && tok[0] == 43 { tok.drop_first() } else { tok };
    if d.len() > 0 && all_digits(d) && dec_value(d) <= u64::MAX {
        Some(dec_value(d) as u64)
    } else {
        None
    }
}

/// The constraint id a line defines: after trimming, the line starts with `e`, and the first
/// word after it is a number.
pub open spec fn defined_id(line: Seq<u8>) -> Option<u64> {
    let t = trim(line);
    if t.len() > 0 && t[0] == 101 {
        parse_u64(first_token(t.drop_first()))
    } else {
        None
    }
}

/// After trimming, the line starts with `c` and ends with ` 0`: it concludes the proof.
pub open spec fn is_conclusion(line: Seq<u8>) -> bool {
    let t = trim(line);
    t.len() >= 2 && t[0] == 99 && t[t.len() - 2] == 32 && t[t.len() - 1] == 48
}

/// The first line feed of `s` at or after `i`, or the length of `s`.
pub open spec fn line_end(s: Seq<u8>, i: int) -> int
    decreases s.len() - i,
{
    if i >= s.len() || s[i] == 10 {
        i
    } else {
        line_end(s, i + 1)
    }
}

/// The line of `s` from `start` to `e`: without the line feed at `e`, and without a carriage
/// return just before that line feed.
pub open spec fn line_text(s: Seq<u8>, start: int, e: int) -> Seq<u8> {
    if e < s.len() && e > start && s[e - 1] == 13 {
        s.subrange(start, e - 1)
    } else {
        s.subrange(start, e)
    }
}

/// The lines of `s` from `start` on: split after each line feed, with no line after a final
/// line feed.
pub open spec fn lines_from(s: Seq<u8>, start: int) -> Seq<Seq<u8>>
    decreases s.len() - start,
{
    if start < 0 || start >= s.len() {
        Seq::empty()
    } else {
        let e = line_end(s, start);
        proof {
            lemma_line_end_bounds(s, start);
        }
        if e < s.len() {
            seq![line_text(s, start, e)] + lines_from(s, e + 1)
        } else {
            seq![line_text(s, start, e)]
        }
    }
}

/// The line from `i` ends at or after `i`, and at most at the length of `s`.
pub proof fn lemma_line_end_bounds(s: Seq<u8>, i: int)
    ensures
        i <= line_end(s, i),
        i <= s.len() ==> line_end(s, i) <= s.len(),
        line_end(s, i) < s.len() ==> s[line_end(s, i)] == 10,
    decreases s.len() - i,
{
    if !(i >= s.len() || s[i] == 10) {
        lemma_line_end_bounds(s, i + 1);
    }
}

/// The lines from `start` are the line ending at the next line feed, then those after it.
proof fn lemma_lines_step(s: Seq<u8>, start: int)
    requires
        0 <= start < s.len(),
    ensures
        lines_from(s, start).len() > 0,
        lines_from(s, start)[0] == line_text(s, start, line_end(s, start)),
        lines_from(s, start).drop_first() == lines_from(s, if line_end(s, start) < s.len() {
            line_end(s, start) + 1
        } else {
            s.len() as int
        }),
{
    lemma_line_end_bounds(s, start);
    let e = line_end(s, start);
    if e < s.len() {
        assert(lines_from(s, start).drop_first() =~= lines_from(s, e + 1));
    } else {
        assert(lines_from(s, start).drop_first() =~= Seq::<Seq<u8>>::empty());
        assert(lines_from(s, s.len() as int) =~= Seq::<Seq<u8>>::empty());
    }
}

/// The lines of `s`.
pub open spec fn lines(s: Seq<u8>) -> Seq<Seq<u8>> {
    lines_from(s, 0)
}

/// The highest id the first `k` lines define, or 0.
pub open spec fn max_id(ls: Seq<Seq<u8>>, k: int) -> nat
    decreases k,
{
    if k <= 0 {
        0
    } else {
        let m = max_id(ls, k - 1);
        match defined_id(ls[k - 1]) {
            Some(v) => if v > m { v as nat } else { m },
            None => m,
        }
    }
}

/// The highest constraint id the log defines, or 0.
pub open spec fn highest_id(s: Seq<u8>) -> nat {
    max_id(lines(s), lines(s).len() as int)
}

/// The highest id of the first `k` lines is at least every id those lines define, and is one
/// of those ids, or 0 where none defines one.
pub proof fn lemma_max_id_is_greatest(ls: Seq<Seq<u8>>, k: int)
    requires
        0 <= k <= ls.len(),
    ensures
        forall|i: int| 0 <= i < k && (#[trigger] defined_id(ls[i])) is Some ==> defined_id(ls[i])->0 <= max_id(ls, k),
        max_id(ls, k) == 0 || exists|i: int| 0 <= i < k && #[trigger] defined_id(ls[i]) == Some(max_id(ls, k) as u64),
    decreases k,
{
    if k > 0 {
        lemma_max_id_is_greatest(ls, k - 1);
        let m = max_id(ls, k - 1);
        assert forall|i: int| 0 <= i < k && (#[trigger] defined_id(ls[i])) is Some implies defined_id(ls[i])->0 <= max_id(ls, k) by {
            if i < k - 1 {
                assert(defined_id(ls[i])->0 <= m);
            }
        }
        if max_id(ls, k) != 0 && max_id(ls, k) != m {
            assert(defined_id(ls[k - 1]) == Some(max_id(ls, k) as u64));
        } else if max_id(ls, k) != 0 {
            let i = choose|i: int| 0 <= i < k - 1 && #[trigger] defined_id(ls[i]) == Some(m as u64);
            assert(0 <= i < k && defined_id(ls[i]) == Some(max_id(ls, k) as u64));
        }
    }
}

/// The highest id of a log is at least every id a line of it defines, and is one of those ids,
/// or 0 where no line defines one.
pub proof fn lemma_highest_id_is_greatest(s: Seq<u8>)
    ensures
        forall|i: int| 0 <= i < lines(s).len() && (#[trigger] defined_id(lines(s)[i])) is Some
            ==> defined_id(lines(s)[i])->0 <= highest_id(s),
        highest_id(s) == 0 || exists|i: int| 0 <= i < lines(s).len() && #[trigger] defined_id(lines(s)[i]) == Some(highest_id(s) as u64),
{
    lemma_max_id_is_greatest(lines(s), lines(s).len() as int);
}

/// Some line of the log concludes the proof.
pub open spec fn concludes(s: Seq<u8>) -> bool {
    exists|i: int| 0 <= i < lines(s).len() && #[trigger] is_conclusion(lines(s)[i])
}

/// The decimal digits of `n`.
pub open spec fn dec(n: nat) -> Seq<u8>
    decreases n,
{
    if n < 10 {
        seq![(48 + n) as u8]
    } else {
        dec(n / 10).push((48 + n % 10) as u8)
    }
}

/// The loads of the constraints `base`, ..., `base + k - 1`: a line `l <id>` each.
pub open spec fn loads(base: nat, k: nat) -> Seq<u8>
    decreases k,
{
    if k == 0 {
        Seq::empty()
    } else {
        loads(base, (k - 1) as nat) + seq![108u8, 32u8] + dec((base + k - 1) as nat) + seq![10u8]
    }
}

/// What replaces the conclusion: the loads of the `n` externals' constraints from `base`, the
/// step `u >= 1 ;` and the conclusion `c <id> 0`, `<id>` being `top + n + 1`.
pub open spec fn new_ending(base: nat, n: nat, top: nat) -> Seq<u8> {
    loads(base, n) + seq![117u8, 32u8, 62u8, 61u8, 32u8, 49u8, 32u8, 59u8, 10u8, 99u8, 32u8] + dec(top + n + 1)
        + seq![32u8, 48u8, 10u8]
}

/// The first `k` lines, each concluding line replaced by `ending` and every other one followed
/// by a line feed.
pub open spec fn rewritten(ls: Seq<Seq<u8>>, ending: Seq<u8>, k: int) -> Seq<u8>
    decreases k,
{
    if k <= 0 {
        Seq::empty()
    } else {
        rewritten(ls, ending, k - 1) + if is_conclusion(ls[k - 1]) {
            ending
        } else {
            ls[k - 1].push(10u8)
        }
    }
}

/// The log rewritten to conclude from the externals: where it has a conclusion, each
/// concluding line is replaced by the new ending; otherwise the new ending is appended.
pub open spec fn concluded_from_externals(s: Seq<u8>, base: nat, n: nat) -> Seq<u8> {
    let ending = new_ending(base, n, highest_id(s));
    if concludes(s) {
        rewritten(lines(s), ending, lines(s).len() as int)
    } else {
        s + ending
    }
}

/// Byte `b` is ASCII whitespace.
fn space(b: u8) -> (r: bool)
    ensures
        r == is_space(b),
{
    b == 32 || (9 <= b && b <= 13)
}

/// The end of `s[lo..hi]` without its trailing whitespace.
fn strip_end(s: &[u8], lo: usize, hi: usize) -> (r: usize)
    requires
        lo <= hi <= s@.len(),
    ensures
        lo <= r <= hi,
        s@.subrange(lo as int, r as int) == trim_end(s@.subrange(lo as int, hi as int)),
{
    let mut h = hi;
    while h > lo && space(s[h - 1])
        invariant
            lo <= h <= hi <= s@.len(),
            trim_end(s@.subrange(lo as int, hi as int)) == trim_end(s@.subrange(lo as int, h as int)),
        decreases h,
    {
        assert(s@.subrange(lo as int, h as int).drop_last() =~= s@.subrange(lo as int, h - 1));
        h = h - 1;
    }
    h
}

/// The start of `s[lo..hi]` without its leading whitespace.
fn skip_space(s: &[u8], lo: usize, hi: usize) -> (r: usize)
    requires
        lo <= hi <= s@.len(),
    ensures
        lo <= r <= hi,
        s@.subrange(r as int, hi as int) == trim_start(s@.subrange(lo as int, hi as int)),
{
    let mut l = lo;
    while l < hi && space(s[l])
        invariant
            lo <= l <= hi <= s@.len(),
            trim_start(s@.subrange(lo as int, hi as int)) == trim_start(s@.subrange(l as int, hi as int)),
        decreases hi - l,
    {
        assert(s@.subrange(l as int, hi as int).drop_first() =~= s@.subrange(l + 1, hi as int));
        l = l + 1;
    }
    l
}

/// The end of the word that starts `s[lo..hi]`.
fn token_end(s: &[u8], lo: usize, hi: usize) -> (r: usize)
    requires
        lo <= hi <= s@.len(),
    ensures
        lo <= r <= hi,
        s@.subrange(lo as int, r as int) == take_token(s@.subrange(lo as int, hi as int)),
{
    let mut j = lo;
    while j < hi && !space(s[j])
        invariant
            lo <= j <= hi <= s@.len(),
            take_token(s@.subrange(lo as int, hi as int)) == s@.subrange(lo as int, j as int) + take_token(s@.subrange(j as int, hi as int)),
        decreases hi - j,
    {
        let ghost w = s@.subrange(j as int, hi as int);
        assert(w.drop_first() =~= s@.subrange(j + 1, hi as int));
        assert(s@.subrange(lo as int, j + 1) =~= s@.subrange(lo as int, j as int) + seq![w[0]]);
        assert(take_token(w) == seq![w[0]] + take_token(w.drop_first()));
        assert(s@.subrange(lo as int, j as int) + take_token(w) =~= s@.subrange(lo as int, j + 1) + take_token(w.drop_first()));
        j = j + 1;
    }
    assert(take_token(s@.subrange(j as int, hi as int)) =~= Seq::<u8>::empty());
    assert(s@.subrange(lo as int, j as int) + Seq::<u8>::empty() =~= s@.subrange(lo as int, j as int));
    j
}

/// A prefix of decimal digits writes no more than the whole.
proof fn lemma_dec_value_prefix(d: Seq<u8>, k: int)
    requires
        0 <= k <= d.len(),
    ensures
        dec_value(d.subrange(0, k)) <= dec_value(d),
    decreases d.len() - k,
{
    if k < d.len() {
        lemma_dec_value_prefix(d, k + 1);
        let p = d.subrange(0, k + 1);
        assert(p.drop_last() =~= d.subrange(0, k));
    } else {
        assert(d.subrange(0, k) =~= d);
    }
}

/// The number `s[lo..hi]` writes, as `parse_u64` reads it.
fn parse_range(s: &[u8], lo: usize, hi: usize) -> (r: Option<u64>)
    requires
        lo <= hi <= s@.len(),
    ensures
        r == parse_u64(s@.subrange(lo as int, hi as int)),
{
    let ghost tok = s@.subrange(lo as int, hi as int);
    let dlo = if lo < hi && s[lo] == 43 { lo + 1 } else { lo };
    let ghost d = s@.subrange(dlo as int, hi as int);
    proof {
        if lo < hi && s[lo as int] == 43 {
            assert(tok.drop_first() =~= d);
        } else {
            assert(tok =~= d);
        }
        assert(parse_u64(tok) == if d.len() > 0 && all_digits(d) && dec_value(d) <= u64::MAX {
            Some(dec_value(d) as u64)
        } else {
            None::<u64>
        });
    }
    if dlo == hi {
        return None;
    }
    let mut value: u64 = 0;
    let mut j = dlo;
    while j < hi
        invariant
            dlo <= j <= hi <= s@.len(),
            d == s@.subrange(dlo as int, hi as int),
            tok == s@.subrange(lo as int, hi as int),
            d.len() > 0,
            parse_u64(tok) == if all_digits(d) && dec_value(d) <= u64::MAX {
                Some(dec_value(d) as u64)
            } else {
                None::<u64>
            },
            all_digits(s@.subrange(dlo as int, j as int)),
            value == dec_value(s@.subrange(dlo as int, j as int)),
        decreases hi - j,
    {
        let b = s[j];
        if b < 48 || b > 57 {
            proof {
                assert(d[j - dlo] == b);
                assert(!all_digits(d));
            }
            return None;
        }
        let ghost p = s@.subrange(dlo as int, j + 1);
        proof {
            assert(p.drop_last() =~= s@.subrange(dlo as int, j as int));
            assert(dec_value(p) == dec_value(s@.subrange(dlo as int, j as int)) * 10 + (b - 48) as nat);
            assert(d.subrange(0, j + 1 - dlo) =~= p);
        }
        let next = match value.checked_mul(10) {
            Some(t) => t.checked_add((b - 48) as u64),
            None => None,
        };
        match next {
            Some(v) => {
                value = v;
            },
            None => {
                proof {
                    if all_digits(d) {
                        lemma_dec_value_prefix(d, j + 1 - dlo);
                    }
                }
                return None;
            },
        }
        j = j + 1;
    }
    proof {
        assert(s@.subrange(dlo as int, j as int) =~= d);
    }
    Some(value)
}

/// The constraint id that line `s[lo..hi]` defines.
fn line_id(s: &[u8], lo: usize, hi: usize) -> (r: Option<u64>)
    requires
        lo <= hi <= s@.len(),
    ensures
        r == defined_id(s@.subrange(lo as int, hi as int)),
{
    let b = strip_end(s, lo, hi);
    let a = skip_space(s, lo, b);
    let ghost t = s@.subrange(a as int, b as int);
    assert(t == trim(s@.subrange(lo as int, hi as int)));
    if a < b && s[a] == 101 {
        assert(t.drop_first() =~= s@.subrange(a + 1, b as int));
        let c = skip_space(s, a + 1, b);
        let e = token_end(s, c, b);
        parse_range(s, c, e)
    } else {
        None
    }
}

/// Line `s[lo..hi]` concludes the proof.
fn line_concludes(s: &[u8], lo: usize, hi: usize) -> (r: bool)
    requires
        lo <= hi <= s@.len(),
    ensures
        r == is_conclusion(s@.subrange(lo as int, hi as int)),
{
    let b = strip_end(s, lo, hi);
    let a = skip_space(s, lo, b);
    let ghost t = s@.subrange(a as int, b as int);
    assert(t == trim(s@.subrange(lo as int, hi as int)));
    b - a >= 2 && s[a] == 99 && s[b - 2] == 32 && s[b - 1] == 48
}

/// The line feed that ends the line starting at `start`, or the length of `s`.
fn find_line_end(s: &[u8], start: usize) -> (e: usize)
    requires
        start <= s@.len(),
    ensures
        e == line_end(s@, start as int),
        start <= e <= s@.len(),
{
    let mut i = start;
    while i < s.len() && s[i] != 10
        invariant
            start <= i <= s@.len(),
            line_end(s@, start as int) == line_end(s@, i as int),
        decreases s@.len() - i,
    {
        i = i + 1;
    }
    i
}

/// The end of the text of the line from `start` to `e`: without a carriage return before the
/// line feed at `e`.
fn text_end(s: &[u8], start: usize, e: usize) -> (r: usize)
    requires
        start <= e <= s@.len(),
    ensures
        start <= r <= e,
        s@.subrange(start as int, r as int) == line_text(s@, start as int, e as int),
{
    if e < s.len() && e > start && s[e - 1] == 13 {
        e - 1
    } else {
        e
    }
}

/// The highest constraint id that the log defines, or 0.
pub fn highest_defined_id(log: &[u8]) -> (r: u64)
    requires
        is_ascii_text(log@),
    ensures
        r == highest_id(log@),
        forall|i: int| 0 <= i < lines(log@).len() && (#[trigger] defined_id(lines(log@)[i])) is Some
            ==> defined_id(lines(log@)[i])->0 <= r,
        r == 0 || exists|i: int| 0 <= i < lines(log@).len() && #[trigger] defined_id(lines(log@)[i]) == Some(r),
{
    proof {
        lemma_highest_id_is_greatest(log@);
    }
    let ghost ls = lines(log@);
    let mut best: u64 = 0;
    let mut start: usize = 0;
    let ghost mut k: int = 0;
    proof {
        assert(ls.skip(0) =~= ls);
    }
    while start < log.len()
        invariant
            start <= log@.len(),
            ls == lines(log@),
            0 <= k <= ls.len(),
            ls.skip(k) == lines_from(log@, start as int),
            best == max_id(ls, k),
        decreases log@.len() - start,
    {
        let e = find_line_end(log, start);
        let te = text_end(log, start, e);
        let id = line_id(log, start, te);
        proof {
            lemma_lines_step(log@, start as int);
            assert(k < ls.len());
            assert(ls.skip(k)[0] == ls[k]);
            assert(ls.skip(k + 1) =~= ls.skip(k).drop_first());
        }
        match id {
            Some(v) => {
                if v > best {
                    best = v;
                }
            },
            None => {},
        }
        proof {
            k = k + 1;
        }
        start = if e < log.len() { e + 1 } else { e };
    }
    proof {
        assert(lines_from(log@, start as int) =~= Seq::<Seq<u8>>::empty());
        assert(ls.skip(k).len() == 0);
    }
    best
}

/// Some line of the log concludes the proof: after trimming, it starts with `c` and ends
/// with ` 0`.
pub fn has_conclusion(log: &[u8]) -> (r: bool)
    requires
        is_ascii_text(log@),
    ensures
        r == concludes(log@),
{
    let ghost ls = lines(log@);
    let mut start: usize = 0;
    let ghost mut k: int = 0;
    proof {
        assert(ls.skip(0) =~= ls);
    }
    while start < log.len()
        invariant
            start <= log@.len(),
            ls == lines(log@),
            0 <= k <= ls.len(),
            ls.skip(k) == lines_from(log@, start as int),
            forall|i: int| 0 <= i < k ==> !#[trigger] is_conclusion(ls[i]),
        decreases log@.len() - start,
    {
        let e = find_line_end(log, start);
        let te = text_end(log, start, e);
        proof {
            lemma_lines_step(log@, start as int);
            assert(k < ls.len());
            assert(ls.skip(k)[0] == ls[k]);
            assert(ls.skip(k + 1) =~= ls.skip(k).drop_first());
        }
        if line_concludes(log, start, te) {
            return true;
        }
        proof {
            k = k + 1;
        }
        start = if e < log.len() { e + 1 } else { e };
    }
    proof {
        assert(lines_from(log@, start as int) =~= Seq::<Seq<u8>>::empty());
        assert(ls.skip(k).len() == 0);
    }
    false
}

/// Append the decimal digits of `n`.
fn push_dec(out: &mut Vec<u8>, n: u64)
    ensures
        final(out)@ == old(out)@ + dec(n as nat),
    decreases n,
{
    if n >= 10 {
        push_dec(out, n / 10);
    }
    out.push(48 + (n % 10) as u8);
    proof {
        if n < 10 {
            assert(dec(n as nat) == seq![(48 + n) as u8]);
        } else {
            assert(dec(n as nat) == dec((n / 10) as nat).push((48 + n % 10) as u8));
        }
        assert(final(out)@ =~= old(out)@ + dec(n as nat));
    }
}

/// Append `s[lo..hi]`.
fn push_range(out: &mut Vec<u8>, s: &[u8], lo: usize, hi: usize)
    requires
        lo <= hi <= s@.len(),
    ensures
        final(out)@ == old(out)@ + s@.subrange(lo as int, hi as int),
{
    let mut i = lo;
    while i < hi
        invariant
            lo <= i <= hi <= s@.len(),
            out@ == old(out)@ + s@.subrange(lo as int, i as int),
        decreases hi - i,
    {
        out.push(s[i]);
        proof {
            assert(s@.subrange(lo as int, i + 1) =~= s@.subrange(lo as int, i as int).push(s@[i as int]));
        }
        i = i + 1;
    }
}

/// The text that replaces the conclusion: the loads of the `n` externals' constraints from
/// `base`, the step `u >= 1 ;`, and the conclusion `c <top + n + 1> 0`.
fn build_ending(base: u64, n: u64, top: u64) -> (r: Vec<u8>)
    requires
        base + n <= u64::MAX,
        top + n + 1 <= u64::MAX,
    ensures
        r@ == new_ending(base as nat, n as nat, top as nat),
{
    let mut out: Vec<u8> = Vec::new();
    let mut i: u64 = 0;
    proof {
        assert(out@ =~= loads(base as nat, 0));
    }
    while i < n
        invariant
            i <= n,
            base + n <= u64::MAX,
            out@ == loads(base as nat, i as nat),
        decreases n - i,
    {
        let ghost before = out@;
        out.push(108);
        out.push(32);
        push_dec(&mut out, base + i);
        out.push(10);
        proof {
            assert(loads(base as nat, (i + 1) as nat) == loads(base as nat, i as nat) + seq![108u8, 32u8]
                + dec((base + i) as nat) + seq![10u8]);
            assert(out@ =~= before + seq![108u8, 32u8] + dec((base + i) as nat) + seq![10u8]);
        }
        i = i + 1;
    }
    let ghost l = out@;
    out.push(117);
    out.push(32);
    out.push(62);
    out.push(61);
    out.push(32);
    out.push(49);
    out.push(32);
    out.push(59);
    out.push(10);
    out.push(99);
    out.push(32);
    let ghost mid = out@;
    push_dec(&mut out, top + n + 1);
    let ghost mid2 = out@;
    out.push(32);
    out.push(48);
    out.push(10);
    proof {
        assert(mid =~= l + seq![117u8, 32u8, 62u8, 61u8, 32u8, 49u8, 32u8, 59u8, 10u8, 99u8, 32u8]);
        assert(out@ =~= mid2 + seq![32u8, 48u8, 10u8]);
    }
    out
}

/// The log rewritten to conclude from `externals` external literals whose constraints follow,
/// in the constraint file, from id `ext_opb_base` on: where the log has a conclusion, each
/// concluding line is replaced by loads of those constraints, the step `u >= 1 ;` and a
/// conclusion of the id after the highest one defined plus the externals; otherwise that text
/// is appended.
pub fn conclude_from_externals(log: &[u8], ext_opb_base: u64, externals: u64) -> (r: Vec<u8>)
    requires
        is_ascii_text(log@),
        ext_opb_base + externals <= u64::MAX,
        highest_id(log@) + externals + 1 <= u64::MAX,
    ensures
        r@ == concluded_from_externals(log@, ext_opb_base as nat, externals as nat),
{
    let top = highest_defined_id(log);
    let ending = build_ending(ext_opb_base, externals, top);
    let mut out: Vec<u8> = Vec::new();
    if !has_conclusion(log) {
        push_range(&mut out, log, 0, log.len());
        push_range(&mut out, &ending, 0, ending.len());
        proof {
            assert(log@.subrange(0, log@.len() as int) =~= log@);
            assert(ending@.subrange(0, ending@.len() as int) =~= ending@);
        }
        return out;
    }
    let ghost ls = lines(log@);
    let mut start: usize = 0;
    let ghost mut k: int = 0;
    proof {
        assert(ls.skip(0) =~= ls);
        assert(ending@.subrange(0, ending@.len() as int) =~= ending@);
    }
    while start < log.len()
        invariant
            start <= log@.len(),
            ls == lines(log@),
            0 <= k <= ls.len(),
            ls.skip(k) == lines_from(log@, start as int),
            ending@.subrange(0, ending@.len() as int) == ending@,
            out@ == rewritten(ls, ending@, k),
        decreases log@.len() - start,
    {
        let e = find_line_end(log, start);
        let te = text_end(log, start, e);
        proof {
            lemma_lines_step(log@, start as int);
            assert(k < ls.len());
            assert(ls.skip(k)[0] == ls[k]);
            assert(ls.skip(k + 1) =~= ls.skip(k).drop_first());
        }
        if line_concludes(log, start, te) {
            push_range(&mut out, &ending, 0, ending.len());
        } else {
            push_range(&mut out, log, start, te);
            out.push(10);
            proof {
                assert(out@ =~= rewritten(ls, ending@, k) + ls[k].push(10u8));
            }
        }
        proof {
            k = k + 1;
        }
        start = if e < log.len() { e + 1 } else { e };
    }
    proof {
        assert(lines_from(log@, start as int) =~= Seq::<Seq<u8>>::empty());
        assert(ls.skip(k).len() == 0);
    }
    out
}

} // verus!
