//! Screening of the provider's record-listing answer.
//!
//! The listing request itself is plain I/O and is driven from outside; its
//! decoded envelope comes back here as plain values, and this module decides
//! whether the run goes on and with which records.

use vstd::prelude::*;
use crate::record::{DnsRecord, RecordKind};

verus! {

/// The provider's standard response wrapper for a record listing.
pub struct Envelope {
    pub success: bool,
    pub entries: Vec<DnsRecord>,
    pub errors: Vec<String>,
}

/// What a listing envelope means for the run.
pub enum FetchScreen {
    /// The zone's address records, in the provider's order.
    Records(Vec<DnsRecord>),
    /// The provider reported failure; fatal, with its messages.
    ApiError(Vec<String>),
    /// No address record exists in the zone; benign, nothing to do.
    NoRecords,
}

/// The address records among the listed entries, in their given order.
pub open spec fn a_records_of(entries: Seq<DnsRecord>) -> Seq<DnsRecord> {
    entries.filter(|r: DnsRecord| r.kind is A)
}

/// Decide a fetched listing: a reported failure is fatal with the
/// provider's messages; otherwise only the entries tagged as address
/// records are kept (the listing is already scoped to them, this is
/// defensive), and an empty result ends the run benignly.
pub fn screen_envelope(env: Envelope) -> (r: FetchScreen)
    ensures
        !env.success ==> r == FetchScreen::ApiError(env.errors),
        env.success && a_records_of(env.entries@).len() == 0 ==> r == FetchScreen::NoRecords,
        env.success && a_records_of(env.entries@).len() > 0 ==> (r matches FetchScreen::Records(v)
            && v@ == a_records_of(env.entries@)),
{
    if !env.success {
        return FetchScreen::ApiError(env.errors);
    }
    let ghost orig = env.entries@;
    let mut rest = env.entries;
    let mut kept: Vec<DnsRecord> = Vec::new();
    proof {
        assert(orig.take(0) =~= Seq::<DnsRecord>::empty());
        assert(a_records_of(orig.take(0)) =~= Seq::<DnsRecord>::empty());
        assert(orig.skip(0) =~= orig);
    }
    while rest.len() > 0
        invariant
            rest@.len() <= orig.len(),
            rest@ == orig.skip(orig.len() - rest@.len()),
            kept@ == a_records_of(orig.take(orig.len() - rest@.len())),
        decreases rest@.len(),
    {
        let ghost k = orig.len() - rest@.len();
        let rec = rest.remove(0);
        proof {
            assert(rec == orig[k]);
            assert(rest@ =~= orig.skip(k + 1));
            assert(orig.take(k + 1) =~= orig.take(k).push(orig[k]));
            orig.take(k).lemma_filter_push(orig[k], |r: DnsRecord| r.kind is A);
        }
        let is_a = match rec.kind {
            RecordKind::A => true,
            RecordKind::Other => false,
        };
        if is_a {
            kept.push(rec);
        }
    }
    proof {
        assert(orig.take(orig.len() as int) =~= orig);
    }
    if kept.len() == 0 {
        FetchScreen::NoRecords
    } else {
        FetchScreen::Records(kept)
    }
}

} // verus!
