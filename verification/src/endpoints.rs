//! The provider's request shapes: endpoint URLs, the authorization header
//! value, and the update request body, framed exactly.

use vstd::prelude::*;
use vstd::string::StringExecFns;
use crate::ipv4::{ipv4_repr, ipv4_text, Ipv4};

verus! {

/// The record-listing endpoint for a zone, scoped to address records.
pub open spec fn list_records_url_of(zone_id: Seq<char>) -> Seq<char> {
    "https://api.cloudflare.com/client/v4/zones/"@ + zone_id + "/dns_records?type=A"@
}

/// The per-record update endpoint.
pub open spec fn patch_record_url_of(zone_id: Seq<char>, record_id: Seq<char>) -> Seq<char> {
    "https://api.cloudflare.com/client/v4/zones/"@ + zone_id + "/dns_records/"@ + record_id
}

/// The bearer form of the authentication key.
pub open spec fn bearer_of(auth_key: Seq<char>) -> Seq<char> {
    "Bearer "@ + auth_key
}

/// The update request body: a one-field object setting `content` to the
/// canonical dotted-decimal address, as bytes.
pub open spec fn patch_body_of(ip: Ipv4) -> Seq<u8> {
    seq![123u8, 34u8, 99u8, 111u8, 110u8, 116u8, 101u8, 110u8, 116u8, 34u8, 58u8, 34u8]
        + ipv4_repr(ip) + seq![34u8, 125u8]
}

/// The URL the zone's address records are listed from.
pub fn list_records_url(zone_id: &str) -> (r: String)
    ensures
        r@ == list_records_url_of(zone_id@),
{
    let mut u = "https://api.cloudflare.com/client/v4/zones/".to_owned();
    u.append(zone_id);
    u.append("/dns_records?type=A");
    u
}

/// The URL one record is updated at.
pub fn patch_record_url(zone_id: &str, record_id: &str) -> (r: String)
    ensures
        r@ == patch_record_url_of(zone_id@, record_id@),
{
    let mut u = "https://api.cloudflare.com/client/v4/zones/".to_owned();
    u.append(zone_id);
    u.append("/dns_records/");
    u.append(record_id);
    u
}

/// The value of the authorization header.
pub fn bearer_value(auth_key: &str) -> (r: String)
    ensures
        r@ == bearer_of(auth_key@),
{
    let mut u = "Bearer ".to_owned();
    u.append(auth_key);
    u
}

/// The body of one update request, byte for byte: `content` set to the
/// resolved address in its canonical text.
pub fn patch_body(ip: &Ipv4) -> (r: Vec<u8>)
    ensures
        r@ == patch_body_of(*ip),
{
    let mut out: Vec<u8> = Vec::new();
    out.push(123);
    out.push(34);
    out.push(99);
    out.push(111);
    out.push(110);
    out.push(116);
    out.push(101);
    out.push(110);
    out.push(116);
    out.push(34);
    out.push(58);
    out.push(34);
    let mut addr = ipv4_text(ip);
    out.append(&mut addr);
    out.push(34);
    out.push(125);
    proof {
        assert(out@ =~= patch_body_of(*ip));
    }
    out
}

} // verus!
