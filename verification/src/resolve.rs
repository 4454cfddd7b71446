//! Discovery of the current external IPv4 address over an ordered list of
//! sources.
//!
//! The fetches themselves are driven from outside; the resolver decides
//! which source to try next, judges each answered body, and stops at the
//! first one that parses. Its ghost history records every attempt, so the
//! first-success rule is a proved invariant, not a convention.

use vstd::prelude::*;
use crate::ipv4::{ipv4_parse, trim_ws, Ipv4, parse_ipv4_body};

verus! {

/// The address one attempted source yielded: its body trimmed and parsed,
/// or nothing when the fetch itself failed.
pub open spec fn body_yields(b: Option<Seq<u8>>) -> Option<Ipv4> {
    match b {
        Some(s) => ipv4_parse(trim_ws(s)),
        None => None,
    }
}

/// The observed outcome of one fetch, as its attempt on record.
pub open spec fn body_view(b: Option<Vec<u8>>) -> Option<Seq<u8>> {
    match b {
        Some(v) => Some(v@),
        None => None,
    }
}

/// Walks the sources in order and keeps the first address that parses.
pub struct Resolver {
    sources: Vec<String>,
    next_idx: usize,
    found: Option<Ipv4>,
    history: Ghost<Seq<Option<Seq<u8>>>>,
}

impl Resolver {
    /// The source URLs, in their configured order.
    pub closed spec fn sources_view(self) -> Seq<Seq<char>> {
        self.sources@.map_values(|s: String| s@)
    }

    /// Every attempt made so far, in order: the body an attempted source
    /// answered with, or nothing on a failed fetch.
    pub closed spec fn attempts(self) -> Seq<Option<Seq<u8>>> {
        self.history@
    }

    /// The resolved address, once an attempt has yielded one.
    pub closed spec fn resolved_ip(self) -> Option<Ipv4> {
        self.found
    }

    /// Each source is attempted at most once, in order; all attempts but
    /// possibly the last failed to yield an address, and the resolver holds
    /// an address exactly when its last attempt yielded it.
    pub closed spec fn wf(self) -> bool {
        &&& self.next_idx == self.history@.len()
        &&& self.history@.len() <= self.sources@.len()
        &&& match self.found {
            None => forall|i: int|
                0 <= i < self.history@.len() ==> body_yields(#[trigger] self.history@[i]) is None,
            Some(a) => self.history@.len() >= 1 && body_yields(self.history@.last()) == Some(a)
                && (forall|i: int|
                0 <= i < self.history@.len() - 1 ==> body_yields(
                    #[trigger] self.history@[i],
                ) is None),
        }
    }

    /// A resolver that has not attempted anything yet.
    pub fn new(sources: Vec<String>) -> (r: Resolver)
        ensures
            r.wf(),
            r.sources_view() == sources@.map_values(|s: String| s@),
            r.attempts() == Seq::<Option<Seq<u8>>>::empty(),
            r.resolved_ip() is None,
    {
        Resolver { sources, next_idx: 0, found: None, history: Ghost(Seq::empty()) }
    }

    /// The URL to fetch next: the first source not yet attempted, as long
    /// as no attempt has yielded an address and sources remain.
    pub fn next_source(&self) -> (r: Option<&String>)
        requires
            self.wf(),
        ensures
            match r {
                Some(u) => self.resolved_ip() is None && self.attempts().len()
                    < self.sources_view().len() && u@ == self.sources_view()[self.attempts().len() as int],
                None => self.resolved_ip() is Some || self.attempts().len()
                    == self.sources_view().len(),
            },
    {
        match self.found {
            Some(_) => None,
            None => {
                if self.next_idx < self.sources.len() {
                    Some(&self.sources[self.next_idx])
                } else {
                    None
                }
            },
        }
    }

    /// Record what fetching the current source yielded: the response body,
    /// or nothing when the fetch failed. The first body that trims and
    /// parses to an IPv4 address resolves the run; any other outcome moves
    /// on to the next source.
    pub fn offer(&mut self, body: Option<Vec<u8>>) -> (r: Option<Ipv4>)
        requires
            old(self).wf(),
            old(self).resolved_ip() is None,
            old(self).attempts().len() < old(self).sources_view().len(),
        ensures
            final(self).wf(),
            final(self).sources_view() == old(self).sources_view(),
            final(self).attempts() == old(self).attempts().push(body_view(body)),
            final(self).resolved_ip() == body_yields(body_view(body)),
            r == final(self).resolved_ip(),
    {
        proof {
            assert(old(self).sources_view().len() == old(self).sources@.len());
        }
        let outcome = match &body {
            Some(b) => parse_ipv4_body(b),
            None => None,
        };
        self.found = outcome;
        let n = self.sources.len();
        proof {
            assert(self.next_idx < n);
        }
        self.next_idx = self.next_idx + 1;
        proof {
            self.history@ = self.history@.push(body_view(body));
        }
        outcome
    }

    /// The resolved address, if any attempt has yielded one.
    pub fn resolved(&self) -> (r: Option<Ipv4>)
        ensures
            r == self.resolved_ip(),
    {
        self.found
    }

    /// Whether every source has been attempted without an address: the
    /// fatal no-address outcome.
    pub fn exhausted(&self) -> (r: bool)
        requires
            self.wf(),
        ensures
            r == (self.resolved_ip() is None && self.attempts().len()
                == self.sources_view().len()),
    {
        match self.found {
            Some(_) => false,
            None => self.next_idx == self.sources.len(),
        }
    }
}

/// The first source whose body parses as an IPv4 address wins: once the
/// resolver holds an address, that address came from its latest attempt,
/// every earlier attempt had failed, and no further source is ever
/// attempted (`offer` demands an unresolved resolver).
pub proof fn lemma_first_source_wins(r: Resolver)
    requires
        r.wf(),
        r.resolved_ip() is Some,
    ensures
        r.attempts().len() >= 1,
        body_yields(r.attempts().last()) == r.resolved_ip(),
        forall|i: int|
            0 <= i < r.attempts().len() - 1 ==> body_yields(#[trigger] r.attempts()[i]) is None,
{
}

/// A resolver that ran out of sources saw every attempt fail: the fatal
/// no-address outcome is reported only when no source yielded an address.
pub proof fn lemma_exhausted_means_all_failed(r: Resolver)
    requires
        r.wf(),
        r.resolved_ip() is None,
    ensures
        forall|i: int| 0 <= i < r.attempts().len() ==> body_yields(#[trigger] r.attempts()[i]) is None,
{
}

} // verus!
