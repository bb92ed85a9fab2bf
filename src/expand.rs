//! Expansion of a range specification into host names, lazily or at once.

use vstd::prelude::*;

use crate::numeric::{decimal, push_decimal};
use crate::token::{HostSpec, HostSpecView};

verus! {

/// How many numbers the inclusive interval `[start, end]` holds.
pub open spec fn span(start: u64, end: u64) -> nat {
    if start <= end {
        (end - start + 1) as nat
    } else {
        0
    }
}

/// The host names of a range specification: the prefix followed by each
/// number of the interval, in ascending order.
pub open spec fn expansion(h: HostSpecView) -> Seq<Seq<char>> {
    Seq::new(span(h.start, h.end), |i: int| h.prefix + decimal((h.start + i) as nat))
}

/// The host names of several range specifications, one after the other.
pub open spec fn concat_expansions(hs: Seq<HostSpecView>) -> Seq<Seq<char>>
    decreases hs.len(),
{
    if hs.len() == 0 {
        Seq::empty()
    } else {
        concat_expansions(hs.drop_last()) + expansion(hs.last())
    }
}

pub open spec fn texts(v: Seq<String>) -> Seq<Seq<char>> {
    v.map_values(|s: String| s@)
}

/// A cursor over the host names of one range specification, which makes
/// each name only when it is asked for.
pub struct HostIter {
    prefix: String,
    next: u64,
    end: u64,
    done: bool,
}

impl HostIter {
    /// The names that are still to come.
    pub closed spec fn remaining(&self) -> Seq<Seq<char>> {
        if self.done {
            Seq::empty()
        } else {
            expansion(HostSpecView { prefix: self.prefix@, start: self.next, end: self.end })
        }
    }

    /// Hands out the next name, or `None` once all have been handed out.
    pub fn next(&mut self) -> (r: Option<String>)
        ensures
            old(self).remaining().len() == 0 ==> r is None && final(self).remaining().len() == 0,
            old(self).remaining().len() > 0 ==> (r matches Some(s) && s@ == old(
                self,
            ).remaining()[0] && final(self).remaining() == old(self).remaining().drop_first()),
    {
        if self.done || self.next > self.end {
            self.done = true;
            return None;
        }
        let mut s = self.prefix.clone();
        push_decimal(&mut s, self.next);
        let ghost before = old(self).remaining();
        if self.next < self.end {
            self.next = self.next + 1;
            assert(self.remaining() =~= before.drop_first());
        } else {
            self.done = true;
            assert(self.remaining() =~= before.drop_first());
        }
        Some(s)
    }
}

impl HostSpec {
    /// A fresh cursor over this specification's host names.
    pub fn iter(&self) -> (r: HostIter)
        ensures
            r.remaining() == expansion(self@),
    {
        HostIter { prefix: self.prefix.clone(), next: self.start, end: self.end, done: false }
    }

    /// Appends this specification's host names to `out`, in ascending
    /// numeric order, making each one only as it is appended.
    pub fn expand_into(&self, out: &mut Vec<String>)
        ensures
            texts(final(out)@) == texts(old(out)@) + expansion(self@),
    {
        let mut it = self.iter();
        let ghost start = texts(out@);
        assert(texts(out@) + it.remaining() =~= start + expansion(self@));
        loop
            invariant
                texts(out@) + it.remaining() == start + expansion(self@),
                start == texts(old(out)@),
            decreases it.remaining().len(),
        {
            let ghost rem = it.remaining();
            match it.next() {
                None => {
                    assert(texts(out@) =~= start + expansion(self@));
                    return;
                },
                Some(s) => {
                    let ghost before = texts(out@);
                    out.push(s);
                    assert(texts(out@) =~= before.push(s@));
                    assert(texts(out@) + it.remaining() =~= before + rem);
                },
            }
        }
    }

    /// All host names of this specification, in ascending numeric order.
    pub fn expand(&self) -> (r: Vec<String>)
        ensures
            texts(r@) == expansion(self@),
    {
        let mut out: Vec<String> = Vec::new();
        self.expand_into(&mut out);
        assert(texts(out@) =~= Seq::<Seq<char>>::empty() + expansion(self@));
        out
    }
}

} // verus!
