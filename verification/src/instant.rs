//! Absolute instants, modelled as whole seconds since the Unix epoch.

use vstd::prelude::*;

verus! {

/// The instant that an RFC 3339 timestamp string denotes, in seconds since
/// the Unix epoch, or `None` when the string is not a valid RFC 3339
/// timestamp. The result depends on the characters of the string alone.
pub uninterp spec fn rfc3339_instant_of(s: Seq<char>) -> Option<i64>;

/// Relies on chrono's `DateTime::parse_from_rfc3339` to read an RFC 3339
/// timestamp, and on `DateTime::timestamp` to turn the parsed instant into
/// seconds since the Unix epoch; both depend only on the input string.
#[verifier::external_body]
pub fn parse_rfc3339_epoch(s: &str) -> (r: Option<i64>)
    ensures
        r == rfc3339_instant_of(s@),
{
    match chrono::DateTime::parse_from_rfc3339(s) {
        Ok(d) => Some(d.timestamp()),
        Err(_) => None,
    }
}

/// The absolute distance in seconds between two instants.
pub open spec fn spec_abs_distance(a: i64, b: i64) -> int {
    if a >= b {
        a - b
    } else {
        b - a
    }
}

/// The absolute distance between two instants; any difference of two `i64`
/// values fits in a `u64`.
pub fn abs_distance(a: i64, b: i64) -> (d: u64)
    ensures
        d == spec_abs_distance(a, b),
{
    if a >= b {
        ((a as i128) - (b as i128)) as u64
    } else {
        ((b as i128) - (a as i128)) as u64
    }
}

} // verus!
