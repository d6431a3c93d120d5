//! A verified model of a real-time relay hub: named clients identify
//! themselves over a socket, form named groups, and exchange targeted or
//! broadcast messages which the hub forwards verbatim after stamping origin
//! metadata.
//!
//! The library is the hub's logic: the registry of clients, names and
//! groups with its cross-table invariants, the payload router, the
//! identification handshake, and the file-endpoint authorization rules.
//! Transport, JSON framing and filesystem access live outside the library
//! and hand it plain values.

use vstd::prelude::*;

pub mod clients;
pub mod concierge;
pub mod ext;
pub mod fs;
pub mod laws;
pub mod payload;
pub mod router;
pub mod session;
pub mod seqs;

verus! {

/// Version the hub reports in `Hello` payloads.
pub const VERSION: &'static str = "0.2.0";

/// Semver requirement a connecting client's version must satisfy.
pub const MIN_VERSION: &'static str = "^0.2.0";

} // verus!
