//! Expansion of a whole sequence of expressions, stopping at the first
//! one that cannot be decomposed.

use vstd::prelude::*;

use crate::expand::{concat_expansions, texts};
use crate::token::{decompose, transform_single_hostspec, views, HostSpec, ParseError};

verus! {

/// The host names of one expression, or why it has none.
pub open spec fn hosts_of(s: Seq<char>) -> Result<Seq<Seq<char>>, ParseError> {
    match decompose(s) {
        Err(e) => Err(e),
        Ok(hs) => Ok(concat_expansions(hs)),
    }
}

/// The outcome of expanding `items` in order: the host names produced, and
/// the first failure with the position of its expression among all of
/// `items`. Empty expressions are passed over; nothing after a failure is
/// looked at.
pub open spec fn run(items: Seq<Seq<char>>) -> (Seq<Seq<char>>, Option<(int, ParseError)>)
    decreases items.len(),
{
    if items.len() == 0 {
        (Seq::empty(), None)
    } else {
        let prev = run(items.drop_last());
        if prev.1 is Some || items.last().len() == 0 {
            prev
        } else {
            match hosts_of(items.last()) {
                Err(e) => (prev.0, Some(((items.len() - 1) as int, e))),
                Ok(h) => (prev.0 + h, None),
            }
        }
    }
}

/// What expanding a sequence of expressions gave: every host name up to the
/// first failing expression, and that failure with its position.
pub struct Expansion {
    pub hosts: Vec<String>,
    pub failure: Option<(usize, ParseError)>,
}

/// Once a failure has been met, the later expressions change nothing.
proof fn lemma_run_failure_persists(items: Seq<Seq<char>>, k: int)
    requires
        0 <= k <= items.len(),
        run(items.take(k)).1 is Some,
    ensures
        run(items) == run(items.take(k)),
    decreases items.len(),
{
    if k == items.len() {
        assert(items.take(k) =~= items);
    } else {
        assert(items.drop_last().take(k) =~= items.take(k));
        lemma_run_failure_persists(items.drop_last(), k);
    }
}

/// All host names of one expression, in order.
pub fn expand_expression(item: &str) -> (r: Result<Vec<String>, ParseError>)
    ensures
        match r {
            Ok(v) => hosts_of(item@) == Ok::<Seq<Seq<char>>, ParseError>(texts(v@)),
            Err(e) => hosts_of(item@) == Err::<Seq<Seq<char>>, ParseError>(e),
        },
{
    let specs = transform_single_hostspec(item)?;
    let mut out: Vec<String> = Vec::new();
    let mut j: usize = 0;
    assert(views(specs@).take(0) =~= Seq::<crate::token::HostSpecView>::empty());
    assert(texts(out@) =~= Seq::<Seq<char>>::empty());
    while j < specs.len()
        invariant
            j <= specs.len(),
            texts(out@) == concat_expansions(views(specs@).take(j as int)),
        decreases specs.len() - j,
    {
        specs[j].expand_into(&mut out);
        assert(views(specs@).take(j + 1).drop_last() =~= views(specs@).take(j as int));
        j = j + 1;
    }
    assert(views(specs@).take(j as int) =~= views(specs@));
    Ok(out)
}

/// Expands every non-empty expression of `items` in order and gathers the
/// host names, stopping at the first expression that fails.
pub fn expand_expressions(items: &Vec<String>) -> (r: Expansion)
    ensures
        texts(r.hosts@) == run(texts(items@)).0,
        match r.failure {
            None => run(texts(items@)).1 is None,
            Some((n, e)) => run(texts(items@)).1 == Some((n as int, e)),
        },
{
    let ghost all = texts(items@);
    let mut hosts: Vec<String> = Vec::new();
    let mut i: usize = 0;
    assert(all.take(0) =~= Seq::<Seq<char>>::empty());
    while i < items.len()
        invariant
            i <= items.len(),
            all == texts(items@),
            run(all.take(i as int)) == (texts(hosts@), None::<(int, ParseError)>),
        decreases items.len() - i,
    {
        let item = &items[i];
        let ghost before = texts(hosts@);
        assert(all.take(i + 1).drop_last() =~= all.take(i as int));
        assert(all.take(i + 1).last() == item@);
        if item.as_str().unicode_len() != 0 {
            match expand_expression(item.as_str()) {
                Err(e) => {
                    proof {
                        lemma_run_failure_persists(all, i + 1);
                    }
                    return Expansion { hosts, failure: Some((i, e)) };
                },
                Ok(more) => {
                    let mut more = more;
                    let ghost added = more@;
                    hosts.append(&mut more);
                    assert(texts(hosts@) =~= before + texts(added));
                },
            }
        }
        i = i + 1;
    }
    assert(all.take(i as int) =~= all);
    Expansion { hosts, failure: None }
}

} // verus!
