//! HTTP dates.

use vstd::prelude::*;

verus! {

/// The first second that an HTTP date can write: the start of the year 1.
pub const FIRST_SECOND: i64 = -62_135_596_800;

/// The last second that an HTTP date can write: the end of the year 9999.
pub const LAST_SECOND: i64 = 253_402_300_799;

/// The HTTP date of a number of seconds since the Unix epoch, as `aws_sdk_s3` writes it.
pub uninterp spec fn http_date_text(seconds: i64) -> Option<Seq<char>>;

/// Formats [`aws_sdk_s3::primitives::DateTime::from_secs`] of the seconds as an HTTP date with
/// `DateTime::fmt`. The text is a function of the seconds, and there is one for exactly the
/// seconds of the years 1 to 9999.
#[verifier::external_body]
pub(crate) fn http_date(seconds: i64) -> (text: Option<String>)
    ensures
        text.deep_view() == http_date_text(seconds),
        text is Some == (FIRST_SECOND <= seconds <= LAST_SECOND),
{
    aws_sdk_s3::primitives::DateTime::from_secs(seconds)
        .fmt(aws_sdk_s3::primitives::DateTimeFormat::HttpDate)
        .ok()
}

} // verus!
