//! Decomposition of one expression into its prefix and numeric intervals.

use vstd::prelude::*;
use vstd::string::*;

use crate::numeric::{is_digit, parse_u64, unsigned_value, NumError};

verus! {

/// Why an expression could not be decomposed.
#[derive(Debug, Clone, Copy, PartialEq, Eq, Structural)]
pub enum ParseError {
    /// Characters follow the closing `]`.
    ExtraStuff,
    /// A numeric fragment could not be read as an unsigned 64-bit integer.
    BadNumbers(NumError),
    /// An opening `[` has no `]` after it.
    NoRange,
}

/// A literal prefix and an inclusive interval `[start, end]`; the interval
/// is empty when `start > end`.
#[derive(Debug, PartialEq, Eq)]
pub struct HostSpec {
    pub prefix: String,
    pub start: u64,
    pub end: u64,
}

pub struct HostSpecView {
    pub prefix: Seq<char>,
    pub start: u64,
    pub end: u64,
}

impl View for HostSpec {
    type V = HostSpecView;

    open spec fn view(&self) -> HostSpecView {
        HostSpecView { prefix: self.prefix@, start: self.start, end: self.end }
    }
}

/// The index of the first `c` in `s`.
pub open spec fn find_char(s: Seq<char>, c: char) -> Option<int>
    decreases s.len(),
{
    if s.len() == 0 {
        None
    } else if s[0] == c {
        Some(0)
    } else {
        match find_char(s.drop_first(), c) {
            Some(i) => Some(i + 1),
            None => None,
        }
    }
}

pub proof fn lemma_find_char(s: Seq<char>, c: char)
    ensures
        match find_char(s, c) {
            Some(i) => 0 <= i < s.len() && s[i] == c && forall|j: int| 0 <= j < i ==> s[j] != c,
            None => forall|j: int| 0 <= j < s.len() ==> s[j] != c,
        },
    decreases s.len(),
{
    if s.len() > 0 {
        lemma_find_char(s.drop_first(), c);
        assert forall|j: int| 1 <= j < s.len() implies s[j] == s.drop_first()[j - 1] by {}
    }
}

/// An interval fragment: `N`, or `N-M` split at the first `-`.
pub open spec fn range_value(s: Seq<char>) -> Result<(u64, u64), NumError> {
    match find_char(s, '-') {
        Some(i) => match unsigned_value(s.take(i)) {
            Err(e) => Err(e),
            Ok(a) => match unsigned_value(s.skip(i + 1)) {
                Err(e) => Err(e),
                Ok(b) => Ok((a, b)),
            },
        },
        None => match unsigned_value(s) {
            Err(e) => Err(e),
            Ok(n) => Ok((n, n)),
        },
    }
}

/// The intervals of a comma-separated list of fragments, in order; the
/// first fragment that fails decides the error.
pub open spec fn list_value(s: Seq<char>) -> Result<Seq<(u64, u64)>, NumError>
    decreases s.len(),
    via list_value_decreases
{
    match find_char(s, ',') {
        None => match range_value(s) {
            Err(e) => Err(e),
            Ok(r) => Ok(seq![r]),
        },
        Some(i) => match range_value(s.take(i)) {
            Err(e) => Err(e),
            Ok(r) => match list_value(s.skip(i + 1)) {
                Err(e) => Err(e),
                Ok(rest) => Ok(seq![r] + rest),
            },
        },
    }
}

#[via_fn]
proof fn list_value_decreases(s: Seq<char>) {
    lemma_find_char(s, ',');
}

/// The number of ASCII digits that end `s`.
pub open spec fn trailing_digits(s: Seq<char>) -> nat
    decreases s.len(),
{
    if s.len() == 0 || !is_digit(s.last()) {
        0
    } else {
        1 + trailing_digits(s.drop_last())
    }
}

/// A bracket-free expression: its trailing digits are the number, the rest
/// is the prefix.
pub open spec fn single_value(s: Seq<char>) -> Result<HostSpecView, ParseError> {
    let k = s.len() - trailing_digits(s);
    match unsigned_value(s.skip(k)) {
        Err(e) => Err(ParseError::BadNumbers(e)),
        Ok(n) => Ok(HostSpecView { prefix: s.take(k), start: n, end: n }),
    }
}

pub open spec fn with_prefix(p: Seq<char>, rs: Seq<(u64, u64)>) -> Seq<HostSpecView> {
    rs.map_values(|r: (u64, u64)| HostSpecView { prefix: p, start: r.0, end: r.1 })
}

/// The range specifications that an expression denotes, in order.
pub open spec fn decompose(s: Seq<char>) -> Result<Seq<HostSpecView>, ParseError> {
    match find_char(s, '[') {
        None => match single_value(s) {
            Err(e) => Err(e),
            Ok(h) => Ok(seq![h]),
        },
        Some(i) => {
            let rest = s.skip(i + 1);
            match find_char(rest, ']') {
                None => Err(ParseError::NoRange),
                Some(j) => if j + 1 < rest.len() {
                    Err(ParseError::ExtraStuff)
                } else {
                    match list_value(rest.take(j)) {
                        Err(e) => Err(ParseError::BadNumbers(e)),
                        Ok(rs) => Ok(with_prefix(s.take(i), rs)),
                    }
                },
            }
        },
    }
}

pub open spec fn views(v: Seq<HostSpec>) -> Seq<HostSpecView> {
    v.map_values(|h: HostSpec| h@)
}

fn is_ascii_digit(c: char) -> (r: bool)
    ensures
        r == is_digit(c),
{
    '0' <= c && c <= '9'
}

/// Splits `s` at the first `c`: the text before it and the text after it.
fn split_once_char<'a>(s: &'a str, c: char) -> (r: Option<(&'a str, &'a str)>)
    ensures
        match find_char(s@, c) {
            None => r is None,
            Some(i) => r matches Some((a, b)) && a@ == s@.take(i) && b@ == s@.skip(i + 1),
        },
{
    proof {
        lemma_find_char(s@, c);
    }
    let n = s.unicode_len();
    let mut i: usize = 0;
    while i < n
        invariant
            i <= n,
            n == s@.len(),
            forall|j: int| 0 <= j < i ==> s@[j] != c,
        decreases n - i,
    {
        if s.get_char(i) == c {
            proof {
                lemma_find_char(s@, c);
            }
            let before = s.substring_char(0, i);
            let after = s.substring_char(i + 1, n);
            assert(before@ =~= s@.take(i as int));
            assert(after@ =~= s@.skip(i + 1));
            return Some((before, after));
        }
        i = i + 1;
    }
    proof {
        lemma_find_char(s@, c);
    }
    None
}

/// Reads one fragment: `N` gives `[N, N]`, `N-M` gives `[N, M]`.
pub fn transform_numeric_range(range_str: &str) -> (r: Result<(u64, u64), NumError>)
    ensures
        r == range_value(range_str@),
{
    match split_once_char(range_str, '-') {
        Some((start, end)) => {
            let start_n = parse_u64(start)?;
            let end_n = parse_u64(end)?;
            Ok((start_n, end_n))
        },
        None => {
            let single_int = parse_u64(range_str)?;
            Ok((single_int, single_int))
        },
    }
}

impl HostSpec {
    /// Decomposes a bracket-free expression: the trailing run of ASCII
    /// digits is the number, everything before it the prefix.
    pub fn from_single(host: &str) -> (r: Result<HostSpec, ParseError>)
        ensures
            match r {
                Ok(h) => single_value(host@) == Ok::<HostSpecView, ParseError>(h@),
                Err(e) => single_value(host@) == Err::<HostSpecView, ParseError>(e),
            },
    {
        let n = host.unicode_len();
        let mut k: usize = n;
        assert(host@.take(n as int) =~= host@);
        while k > 0 && is_ascii_digit(host.get_char(k - 1))
            invariant
                k <= n,
                n == host@.len(),
                trailing_digits(host@) == (n - k) + trailing_digits(host@.take(k as int)),
            decreases k,
        {
            assert(host@.take(k as int).drop_last() =~= host@.take(k - 1));
            k = k - 1;
        }
        let prefix = host.substring_char(0, k);
        let numeric_part = host.substring_char(k, n);
        assert(prefix@ =~= host@.take(k as int));
        assert(numeric_part@ =~= host@.skip(k as int));
        match parse_u64(numeric_part) {
            Err(e) => Err(ParseError::BadNumbers(e)),
            Ok(host_number) => Ok(
                HostSpec { prefix: String::from_str(prefix), start: host_number, end: host_number },
            ),
        }
    }
}

/// `Err(e)` stays as it is; `Ok(rest)` gets `done` in front of it.
pub open spec fn prepend(
    done: Seq<(u64, u64)>,
    r: Result<Seq<(u64, u64)>, NumError>,
) -> Result<Seq<(u64, u64)>, NumError> {
    match r {
        Err(e) => Err(e),
        Ok(rest) => Ok(done + rest),
    }
}

/// One range specification per fragment of `list`, each with `prefix`.
fn transform_range_list(prefix: &str, list: &str) -> (r: Result<Vec<HostSpec>, ParseError>)
    ensures
        match r {
            Ok(v) => list_value(list@) == Ok::<Seq<(u64, u64)>, NumError>(
                v@.map_values(|h: HostSpec| (h.start, h.end)),
            ) && forall|i: int| 0 <= i < v.len() ==> (#[trigger] v@[i]).prefix@ == prefix@,
            Err(e) => match list_value(list@) {
                Err(n) => e == ParseError::BadNumbers(n),
                Ok(_) => false,
            },
        },
{
    let mut out: Vec<HostSpec> = Vec::new();
    let mut rest: &str = list;
    let ghost done: Seq<(u64, u64)> = Seq::empty();
    assert(prepend(done, list_value(rest@)) == list_value(list@)) by {
        assert(done + Seq::<(u64, u64)>::empty() =~= done);
        match list_value(list@) {
            Ok(x) => assert(done + x =~= x),
            Err(_) => {},
        }
    }
    loop
        invariant
            prepend(done, list_value(rest@)) == list_value(list@),
            done == out@.map_values(|h: HostSpec| (h.start, h.end)),
            forall|i: int| 0 <= i < out.len() ==> (#[trigger] out@[i]).prefix@ == prefix@,
        decreases rest@.len(),
    {
        proof {
            lemma_find_char(rest@, ',');
        }
        let ghost old_out = out@;
        match split_once_char(rest, ',') {
            None => {
                match transform_numeric_range(rest) {
                    Err(e) => {
                        return Err(ParseError::BadNumbers(e));
                    },
                    Ok((a, b)) => {
                        out.push(HostSpec { prefix: String::from_str(prefix), start: a, end: b });
                        assert(out@.map_values(|h: HostSpec| (h.start, h.end)) =~= done + seq![
                            (a, b),
                        ]);
                        return Ok(out);
                    },
                }
            },
            Some((fragment, tail)) => {
                match transform_numeric_range(fragment) {
                    Err(e) => {
                        return Err(ParseError::BadNumbers(e));
                    },
                    Ok((a, b)) => {
                        out.push(HostSpec { prefix: String::from_str(prefix), start: a, end: b });
                        proof {
                            match list_value(tail@) {
                                Ok(x) => assert(done + (seq![(a, b)] + x) =~= done.push((a, b))
                                    + x),
                                Err(_) => {},
                            }
                            done = done.push((a, b));
                        }
                        assert(out@.map_values(|h: HostSpec| (h.start, h.end)) =~= done);
                        rest = tail;
                    },
                }
            },
        }
    }
}

/// Decomposes one expression into its range specifications, in order:
/// `prefix[r1,r2,...]` gives one per fragment, a bracket-free expression
/// gives one from its trailing digits.
pub fn transform_single_hostspec(item: &str) -> (r: Result<Vec<HostSpec>, ParseError>)
    ensures
        match r {
            Ok(v) => decompose(item@) == Ok::<Seq<HostSpecView>, ParseError>(views(v@)),
            Err(e) => decompose(item@) == Err::<Seq<HostSpecView>, ParseError>(e),
        },
{
    let raw: &str = item;
    match split_once_char(raw, '[') {
        Some((prefix, rangesuffix)) => {
            match split_once_char(rangesuffix, ']') {
                Some((range, suffix)) => {
                    proof {
                        lemma_find_char(rangesuffix@, ']');
                    }
                    if suffix.unicode_len() != 0 {
                        Err(ParseError::ExtraStuff)
                    } else {
                        let r = transform_range_list(prefix, range);
                        match r {
                            Ok(v) => {
                                assert(views(v@) =~= with_prefix(
                                    prefix@,
                                    v@.map_values(|h: HostSpec| (h.start, h.end)),
                                ));
                                Ok(v)
                            },
                            Err(e) => Err(e),
                        }
                    }
                },
                None => Err(ParseError::NoRange),
            }
        },
        None => match HostSpec::from_single(raw) {
            Ok(h) => {
                let v = vec![h];
                assert(views(v@) =~= seq![h@]);
                Ok(v)
            },
            Err(e) => Err(e),
        },
    }
}

} // verus!
