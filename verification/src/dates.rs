//! Dates as they stand in HTTP headers.
use std::time::{Duration, UNIX_EPOCH};
use vstd::prelude::*;

verus! {

/// The first second behind the dates that can be written.
pub const DATE_LIMIT: u64 = 253402300800;

/// The text of the date at a second since 1970.
pub uninterp spec fn date_text(secs: u64) -> Seq<char>;

/// The second since 1970 that the text of a date stands for.
pub uninterp spec fn date_in(s: Seq<char>) -> Option<u64>;

/// `httpdate::fmt_http_date` writes a date. It panics where the year would
/// have five digits. A date that it has written is read as the same second by
/// `httpdate::parse_http_date`.
#[verifier::external_body]
pub(crate) fn format_date(secs: u64) -> (r: String)
    requires
        secs < DATE_LIMIT,
    ensures
        r@ == date_text(secs),
        date_in(r@) == Some(secs),
{
    httpdate::fmt_http_date(UNIX_EPOCH + Duration::from_secs(secs))
}

/// `httpdate::parse_http_date` reads a date; it refuses what is none. Every
/// date that it reads is at or behind the beginning of 1970.
#[verifier::external_body]
pub(crate) fn parse_date(s: &str) -> (r: Option<u64>)
    ensures
        r == date_in(s@),
{
    let parsed = httpdate::parse_http_date(s).ok()?;
    parsed.duration_since(UNIX_EPOCH).ok().map(|d| d.as_secs())
}

} // verus!
