//! What the library takes from outside: the clock, SHA-256 and the parsing of
//! RFC 3339 instants.

use sha2::Digest;
use std::time::{SystemTime, UNIX_EPOCH};
use vstd::prelude::*;

verus! {

/// The time by the system clock, in milliseconds since the Unix epoch. Calls
/// `SystemTime::now`; a clock that stands before the epoch reads as 0. Nothing
/// is claimed of the value.
#[verifier::external_body]
pub(crate) fn now_millis() -> u128 {
    SystemTime::now().duration_since(UNIX_EPOCH).unwrap_or_default().as_millis()
}

/// The time by the system clock, in seconds since the Unix epoch. Calls
/// `SystemTime::now`; a clock that stands before the epoch reads as 0. Nothing
/// is claimed of the value.
#[verifier::external_body]
pub(crate) fn now_secs() -> u64 {
    SystemTime::now().duration_since(UNIX_EPOCH).unwrap_or_default().as_secs()
}

/// The SHA-256 digest of `data` in lower-case hexadecimal digits, as the
/// `sha2` crate computes it.
pub uninterp spec fn sha256_hex(data: Seq<u8>) -> Seq<char>;

/// Hashes `data` with `sha2::Sha256::digest` and formats the digest in
/// lower-case hexadecimal.
#[verifier::external_body]
pub(crate) fn sha256_hex_digest(data: &[u8]) -> (r: String)
    ensures
        r@ == sha256_hex(data@),
{
    format!("{:x}", sha2::Sha256::digest(data))
}

/// The instant that `s` denotes in RFC 3339, as the `chrono` crate parses it:
/// seconds since the Unix epoch, the nanoseconds behind the second, and the
/// seconds by which local time is ahead of UTC. Nothing where `s` does not
/// parse.
pub uninterp spec fn rfc3339_instant(s: Seq<char>) -> Option<(int, int, int)>;

/// Parses `s` with `chrono::DateTime::parse_from_rfc3339` and reads
/// `timestamp`, `timestamp_subsec_nanos` and the offset's `local_minus_utc`
/// from the result.
#[verifier::external_body]
pub(crate) fn parse_rfc3339(s: &str) -> (r: Option<(i64, u32, i32)>)
    ensures
        r matches Some(t) ==> rfc3339_instant(s@) == Some((t.0 as int, t.1 as int, t.2 as int)),
        r is None ==> rfc3339_instant(s@) is None,
{
    match chrono::DateTime::parse_from_rfc3339(s) {
        Ok(dt) => Some((dt.timestamp(), dt.timestamp_subsec_nanos(), dt.offset().local_minus_utc())),
        Err(_) => None,
    }
}

/// The whole seconds from one instant to another, each given in seconds
/// since the Unix epoch and nanoseconds behind the second, as the `chrono`
/// crate computes them; nothing where `chrono` has no such instant.
pub uninterp spec fn elapsed_seconds(
    from_seconds: int,
    from_nanos: int,
    to_seconds: int,
    to_nanos: int,
) -> Option<int>;

/// Makes both instants with `chrono::DateTime::from_timestamp` and takes
/// `signed_duration_since` of the two, in whole seconds.
#[verifier::external_body]
pub(crate) fn seconds_between(from: (i64, u32), to: (i64, u32)) -> (r: Option<i64>)
    ensures
        r matches Some(s) ==> elapsed_seconds(
            from.0 as int,
            from.1 as int,
            to.0 as int,
            to.1 as int,
        ) == Some(s as int),
        r is None ==> elapsed_seconds(from.0 as int, from.1 as int, to.0 as int, to.1 as int)
            is None,
{
    match (chrono::DateTime::from_timestamp(from.0, from.1), chrono::DateTime::from_timestamp(to.0, to.1)) {
        (Some(a), Some(b)) => Some(b.signed_duration_since(a).num_seconds()),
        _ => None,
    }
}

} // verus!
