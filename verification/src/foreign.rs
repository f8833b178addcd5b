use vstd::prelude::*;
use chrono::Datelike;
use chrono::Timelike;

verus! {

/// What `base64::encode` returns for the given bytes: the standard
/// alphabet with padding. The text is a function of the bytes alone.
pub uninterp spec fn b64_of(b: Seq<u8>) -> Seq<char>;

/// What `sanitize_filename::sanitize_with_options` returns for the given
/// name with replacement `-`, truncation on, and Windows rules on. The
/// result is a function of the name alone.
pub uninterp spec fn sanitized_of(s: Seq<char>) -> Seq<char>;

/// Relies on str::chars: it yields exactly the characters of the string,
/// in order.
#[verifier::external_body]
pub(crate) fn str_to_chars(s: &str) -> (r: Vec<char>)
    ensures
        r@ == s@,
{
    s.chars().collect()
}

/// Relies on String's FromIterator impl: collecting characters builds the
/// string holding exactly those characters.
#[verifier::external_body]
pub(crate) fn chars_to_string(v: &Vec<char>) -> (r: String)
    ensures
        r@ == v@,
{
    v.iter().collect()
}

/// Relies on base64::encode with the standard character set and padding.
#[verifier::external_body]
pub(crate) fn b64_encode(b: &Vec<u8>) -> (r: String)
    ensures
        r@ == b64_of(b@),
{
    base64::encode(b)
}

/// Relies on base64::decode: it inverts base64::encode, so on any text
/// that base64::encode produced for some bytes it succeeds and returns
/// exactly those bytes.
#[verifier::external_body]
pub(crate) fn b64_decode(s: &String) -> (r: Option<Vec<u8>>)
    ensures
        forall|b: Seq<u8>| s@ == b64_of(b) ==> r is Some && r->0@ == b,
{
    base64::decode(s.as_str()).ok()
}

/// Relies on sanitize_filename::sanitize_with_options: replaces characters
/// unsafe for file names with `-`, truncates to a safe length, and
/// neutralizes reserved Windows device names.
#[verifier::external_body]
pub(crate) fn sanitize_app(name: &String) -> (r: String)
    ensures
        r@ == sanitized_of(name@),
{
    sanitize_filename::sanitize_with_options(
        name.as_str(),
        sanitize_filename::Options { replacement: "-", truncate: true, windows: true },
    )
}

/// A reading of the wall clock: the instant as a (seconds, nanoseconds)
/// pair since the epoch, together with the calendar date of that instant
/// in UTC.
pub struct ClockInstant {
    pub seconds: i64,
    pub nanos: i32,
    pub year: i32,
    pub month: u8,
    pub day: u8,
}

/// Relies on chrono::Utc::now and its Datelike/Timelike accessors. The
/// instant read is arbitrary; only the documented ranges of the calendar
/// fields are assumed (the nanosecond count exceeds 999,999,999 only
/// during a leap second). Utc::now itself stops the process when the
/// system clock is set before the Unix epoch, so this call is made only
/// under a sane clock.
#[verifier::external_body]
pub(crate) fn utc_now() -> (r: ClockInstant)
    ensures
        1 <= r.month <= 12,
        1 <= r.day <= 31,
        0 <= r.nanos < 2_000_000_000,
{
    let t = chrono::Utc::now();
    ClockInstant {
        seconds: t.timestamp(),
        nanos: t.timestamp_subsec_nanos() as i32,
        year: t.year(),
        month: t.month() as u8,
        day: t.day() as u8,
    }
}

} // verus!
