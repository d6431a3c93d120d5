//! Trusted declarations for the two outside calls the hub's logic makes:
//! drawing a fresh client id, and semver range matching during the
//! identification handshake.

use vstd::prelude::*;

verus! {

/// Whether version string `ver` satisfies requirement string `req`, as
/// semver defines range matching; `None` when either string fails to
/// parse. The outcome is a function of the two strings alone.
pub uninterp spec fn semver_match(req: Seq<char>, ver: Seq<char>) -> Option<bool>;

/// Relies on semver's `VersionReq::parse`, `Version::parse` and
/// `VersionReq::matches`: parsing is deterministic, and matching depends
/// only on the parsed requirement and version, so the outcome is a
/// function of the two strings.
#[verifier::external_body]
pub fn check_version(req: &str, ver: &str) -> (r: Option<bool>)
    ensures
        r == semver_match(req@, ver@),
{
    match (semver::VersionReq::parse(req), semver::Version::parse(ver)) {
        (Ok(vr), Ok(v)) => Some(vr.matches(&v)),
        _ => None,
    }
}

/// Relies on uuid's `Uuid::new_v4`: a freshly generated random 128-bit id.
/// Nothing is promised of the value; the registry checks it against the
/// ids already issued before using it.
#[verifier::external_body]
pub fn fresh_uuid() -> u128 {
    uuid::Uuid::new_v4().as_u128()
}

} // verus!
