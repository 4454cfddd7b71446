//! Keeps a set of DNS "A" records at a remote provider in sync with the
//! caller's current public IPv4 address.
//!
//! The crate holds the decision logic of one reconciliation pass: discovery
//! of the external address over an ordered list of sources, screening of the
//! provider's record listing, glob-based selection of the records to manage,
//! and the per-record diff-and-patch plan with its run verdict. All network
//! traffic is driven from outside: the state machines here hand out the next
//! action and take the observed outcome back as a plain value.

pub mod endpoints;
pub mod fetch;
pub mod filter;
pub mod ipv4;
pub mod reconcile;
pub mod record;
pub mod resolve;
pub mod settings;
