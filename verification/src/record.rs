//! The provider's DNS records as the reconciliation logic sees them.

use vstd::prelude::*;
use crate::ipv4::Ipv4;

verus! {

/// The record-type tag of a provider record; only address records are in
/// scope for a run.
#[derive(Clone, Copy, PartialEq, Eq, Structural, Debug)]
pub enum RecordKind {
    A,
    Other,
}

/// One DNS record as the provider lists it.
pub struct DnsRecord {
    /// Provider-assigned identifier; the record's identity. Opaque here,
    /// used verbatim in the record's update endpoint.
    pub id: String,
    pub kind: RecordKind,
    /// The DNS label; used for pattern matching and reporting only, not
    /// guaranteed unique within a zone.
    pub name: String,
    /// The address the record currently maps its name to.
    pub value: Ipv4,
}

} // verus!
