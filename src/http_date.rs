//! The HTTP date of a point in time given as nanoseconds since the Unix epoch.

use vstd::prelude::*;

verus! {

/// The instants from 1900-01-01T00:00:00Z up to the end of the year 9999,
/// which are the ones that have an RFC 2822 date with a four-digit year.
pub open spec fn http_date_representable(unix_nanos: i128) -> bool {
    -2_208_988_800_000_000_000 <= unix_nanos < 253_402_300_800_000_000_000
}

/// Whether `unix_nanos` is an instant that has an HTTP date.
pub fn has_http_date(unix_nanos: i128) -> (r: bool)
    ensures
        r == http_date_representable(unix_nanos),
{
    -2_208_988_800_000_000_000 <= unix_nanos && unix_nanos < 253_402_300_800_000_000_000
}

/// The RFC 2822 date, in UTC, of the instant `unix_nanos`.
pub uninterp spec fn http_date_of(unix_nanos: i128) -> Seq<char>;

/// Relies on `time::OffsetDateTime::from_unix_timestamp_nanos`, which accepts
/// every instant of the years -9999 through 9999 and places it in UTC, and on
/// formatting that value with `time`'s `Rfc2822`, which refuses only years
/// before 1900 (or after 9999) and offsets with seconds.
#[verifier::external_body]
pub(crate) fn format_http_date(unix_nanos: i128) -> (r: String)
    requires
        http_date_representable(unix_nanos),
    ensures
        r@ == http_date_of(unix_nanos),
{
    let at = time::OffsetDateTime::from_unix_timestamp_nanos(unix_nanos).unwrap();
    at.format(&time::format_description::well_known::Rfc2822).unwrap()
}

} // verus!
