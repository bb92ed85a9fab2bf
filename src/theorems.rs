//! Laws of expansion, stated over the specification functions that the
//! executable functions are proved against.

use vstd::prelude::*;

use crate::expand::{concat_expansions, expansion, texts};
use crate::numeric::{
    decimal, is_digit, lemma_decimal_digits, lemma_decimal_round_trip, unsigned_value, NumError,
};
use crate::pipeline::{hosts_of, run};
use crate::token::{
    decompose,
    find_char,
    lemma_find_char,
    list_value,
    range_value,
    trailing_digits,
    with_prefix,
    HostSpecView,
};

verus! {

/// `prefix[body]`.
pub open spec fn bracketed(prefix: Seq<char>, body: Seq<char>) -> Seq<char> {
    prefix + seq!['['] + body + seq![']']
}

/// The fragment `lo-hi`.
pub open spec fn range_text(lo: Seq<char>, hi: Seq<char>) -> Seq<char> {
    lo + seq!['-'] + hi
}

/// Every character of `s` is an ASCII digit.
pub open spec fn all_digits(s: Seq<char>) -> bool {
    forall|i: int| 0 <= i < s.len() ==> is_digit(#[trigger] s[i])
}

pub open spec fn lacks(s: Seq<char>, c: char) -> bool {
    forall|i: int| 0 <= i < s.len() ==> s[i] != c
}

proof fn lemma_find_char_at(s: Seq<char>, c: char, i: int)
    requires
        0 <= i < s.len(),
        s[i] == c,
        lacks(s.take(i), c),
    ensures
        find_char(s, c) == Some(i),
{
    lemma_find_char(s, c);
    assert forall|j: int| 0 <= j < i implies s[j] != c by {
        assert(s.take(i)[j] == s[j]);
    }
}

proof fn lemma_find_char_none(s: Seq<char>, c: char)
    requires
        lacks(s, c),
    ensures
        find_char(s, c) is None,
{
    lemma_find_char(s, c);
}

proof fn lemma_decimal_lacks(n: nat, c: char)
    requires
        !is_digit(c),
    ensures
        lacks(decimal(n), c),
{
    lemma_decimal_digits(n);
}

proof fn lemma_concat_single(h: HostSpecView)
    ensures
        concat_expansions(seq![h]) == expansion(h),
{
    assert(seq![h].drop_last() =~= Seq::<HostSpecView>::empty());
    assert(concat_expansions(Seq::<HostSpecView>::empty()) =~= Seq::<Seq<char>>::empty());
    assert(seq![h].last() == h);
    assert(Seq::<Seq<char>>::empty() + expansion(h) =~= expansion(h));
}

proof fn lemma_concat_front(h: HostSpecView, hs: Seq<HostSpecView>)
    ensures
        concat_expansions(seq![h] + hs) == expansion(h) + concat_expansions(hs),
    decreases hs.len(),
{
    if hs.len() == 0 {
        assert(seq![h] + hs =~= seq![h]);
        lemma_concat_single(h);
        assert(expansion(h) + Seq::<Seq<char>>::empty() =~= expansion(h));
    } else {
        assert((seq![h] + hs).drop_last() =~= seq![h] + hs.drop_last());
        lemma_concat_front(h, hs.drop_last());
        assert(expansion(h) + concat_expansions(hs.drop_last()) + expansion(hs.last())
            =~= expansion(h) + (concat_expansions(hs.drop_last()) + expansion(hs.last())));
    }
}

/// For a prefix without `[` and a bracketed body without `]`, the
/// decomposition is that of the body read as a list of fragments.
proof fn lemma_decompose_bracketed(p: Seq<char>, body: Seq<char>)
    requires
        lacks(p, '['),
        lacks(body, ']'),
    ensures
        decompose(bracketed(p, body)) == match list_value(body) {
            Err(e) => Err(crate::token::ParseError::BadNumbers(e)),
            Ok(rs) => Ok::<Seq<HostSpecView>, crate::token::ParseError>(with_prefix(p, rs)),
        },
{
    let s = bracketed(p, body);
    assert(s.take(p.len() as int) =~= p);
    lemma_find_char_at(s, '[', p.len() as int);
    let rest = s.skip(p.len() as int + 1);
    assert(rest =~= body + seq![']']);
    assert(rest.take(body.len() as int) =~= body);
    lemma_find_char_at(rest, ']', body.len() as int);
    assert(rest.take(body.len() as int) =~= body);
}

/// A fragment `lo-hi` of digit strings reads as the interval of their values.
proof fn lemma_range_text(lo: Seq<char>, hi: Seq<char>, a: u64, b: u64)
    requires
        all_digits(lo),
        all_digits(hi),
        unsigned_value(lo) == Ok::<u64, NumError>(a),
        unsigned_value(hi) == Ok::<u64, NumError>(b),
    ensures
        range_value(range_text(lo, hi)) == Ok::<(u64, u64), NumError>((a, b)),
        lacks(range_text(lo, hi), ','),
        lacks(range_text(lo, hi), ']'),
{
    let t = range_text(lo, hi);
    assert(t.take(lo.len() as int) =~= lo);
    lemma_find_char_at(t, '-', lo.len() as int);
    assert(t.skip(lo.len() as int + 1) =~= hi);
    assert forall|i: int| 0 <= i < t.len() implies t[i] != ',' && t[i] != ']' by {
        if i < lo.len() {
            assert(t[i] == lo[i]);
        } else if i > lo.len() {
            assert(t[i] == hi[i - lo.len() - 1]);
        }
    }
}

/// An expression `p[lo-hi]` (with `p` free of `[`, and `lo`, `hi` digit
/// strings, leading zeros allowed, of values `a` and `b`) expands to exactly
/// `max(0, b - a + 1)` host names, none at all when `a > b`.
pub proof fn lemma_range_length(p: Seq<char>, lo: Seq<char>, hi: Seq<char>, a: u64, b: u64)
    requires
        lacks(p, '['),
        all_digits(lo),
        all_digits(hi),
        unsigned_value(lo) == Ok::<u64, NumError>(a),
        unsigned_value(hi) == Ok::<u64, NumError>(b),
    ensures
        hosts_of(bracketed(p, range_text(lo, hi))) == Ok::<
            Seq<Seq<char>>,
            crate::token::ParseError,
        >(expansion(HostSpecView { prefix: p, start: a, end: b })),
        expansion(HostSpecView { prefix: p, start: a, end: b }).len() == if a <= b {
            b - a + 1
        } else {
            0
        },
{
    let t = range_text(lo, hi);
    lemma_range_text(lo, hi, a, b);
    lemma_decompose_bracketed(p, t);
    lemma_find_char_none(t, ',');
    let h = HostSpecView { prefix: p, start: a, end: b };
    assert(with_prefix(p, seq![(a, b)]) =~= seq![h]);
    lemma_concat_single(h);
}

/// In `p[r,rest]` the fragment `r` comes first: the host names are those of
/// `r`, in ascending order, followed by those of `p[rest]`; a failing `r`
/// fails the whole expression before `rest` is looked at.
pub proof fn lemma_comma_list(p: Seq<char>, r: Seq<char>, rest: Seq<char>)
    requires
        lacks(p, '['),
        lacks(r, ','),
        lacks(r, ']'),
        lacks(rest, ']'),
    ensures
        hosts_of(bracketed(p, r + seq![','] + rest)) == match range_value(r) {
            Err(e) => Err(crate::token::ParseError::BadNumbers(e)),
            Ok(x) => match hosts_of(bracketed(p, rest)) {
                Err(e) => Err(e),
                Ok(h) => Ok(expansion(HostSpecView { prefix: p, start: x.0, end: x.1 }) + h),
            },
        },
{
    let body = r + seq![','] + rest;
    assert forall|i: int| 0 <= i < body.len() implies body[i] != ']' by {
        if i < r.len() {
            assert(body[i] == r[i]);
        } else if i > r.len() {
            assert(body[i] == rest[i - r.len() - 1]);
        }
    }
    lemma_decompose_bracketed(p, body);
    lemma_decompose_bracketed(p, rest);
    assert(body.take(r.len() as int) =~= r);
    lemma_find_char_at(body, ',', r.len() as int);
    assert(body.skip(r.len() as int + 1) =~= rest);
    match range_value(r) {
        Err(e) => {},
        Ok(x) => {
            match list_value(rest) {
                Err(e) => {},
                Ok(rs) => {
                    let h = HostSpecView { prefix: p, start: x.0, end: x.1 };
                    assert(with_prefix(p, seq![x] + rs) =~= seq![h] + with_prefix(p, rs));
                    lemma_concat_front(h, with_prefix(p, rs));
                },
            }
        },
    }
}

proof fn lemma_trailing_digits(p: Seq<char>, d: Seq<char>)
    requires
        p.len() == 0 || !is_digit(p.last()),
        forall|i: int| 0 <= i < d.len() ==> is_digit(#[trigger] d[i]),
    ensures
        trailing_digits(p + d) == d.len(),
    decreases d.len(),
{
    if d.len() == 0 {
        assert(p + d =~= p);
    } else {
        assert((p + d).drop_last() =~= p + d.drop_last());
        lemma_trailing_digits(p, d.drop_last());
    }
}

/// A bracket-free expression `pN`, where `N` is the shortest decimal text of
/// a number and `p` does not end in a digit, expands to `pN` alone.
pub proof fn lemma_bare_number(p: Seq<char>, n: u64)
    requires
        lacks(p, '['),
        p.len() == 0 || !is_digit(p.last()),
    ensures
        hosts_of(p + decimal(n as nat)) == Ok::<Seq<Seq<char>>, crate::token::ParseError>(
            seq![p + decimal(n as nat)],
        ),
{
    let d = decimal(n as nat);
    let s = p + d;
    lemma_decimal_digits(n as nat);
    lemma_decimal_lacks(n as nat, '[');
    assert forall|i: int| 0 <= i < s.len() implies s[i] != '[' by {
        if i >= p.len() {
            assert(s[i] == d[i - p.len()]);
        }
    }
    lemma_find_char_none(s, '[');
    lemma_trailing_digits(p, d);
    assert(s.skip(p.len() as int) =~= d);
    assert(s.take(p.len() as int) =~= p);
    lemma_decimal_round_trip(n);
    let h = HostSpecView { prefix: p, start: n, end: n };
    lemma_concat_single(h);
    assert(expansion(h) =~= seq![p + d]);
}

/// Expanding the same expressions twice gives the same host names and the
/// same failure: the outcome depends on the texts alone.
pub proof fn lemma_rerun_identical(first: Seq<String>, second: Seq<String>)
    requires
        texts(first) == texts(second),
    ensures
        run(texts(first)) == run(texts(second)),
{
}

} // verus!
