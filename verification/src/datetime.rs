//! Timestamps in milliseconds since the Unix epoch, alone or together with
//! the RFC 3339 text that they were read from.

use vstd::prelude::*;

verus! {

/// The parse error of the `chrono` crate, carried through unopened.
#[verifier::external_type_specification]
#[verifier::external_body]
pub struct ExParseError(chrono::ParseError);

/// The instant that `chrono` reads from an RFC 3339 date-and-time string,
/// in milliseconds since the Unix epoch; `None` where it refuses the string.
pub uninterp spec fn rfc3339_millis(text: Seq<char>) -> Option<int>;

/// Calls `chrono::DateTime::parse_from_rfc3339`, and on the value that it
/// returns `chrono::DateTime::timestamp_millis`. The one claim is that both
/// depend on the text alone: the same text is always refused, or always
/// gives the same number of milliseconds.
#[verifier::external_body]
fn parse_rfc3339_millis(text: &str) -> (r: Result<i64, chrono::ParseError>)
    ensures
        r is Ok <==> rfc3339_millis(text@) is Some,
        r matches Ok(ms) ==> rfc3339_millis(text@) == Some(ms as int),
{
    match chrono::DateTime::parse_from_rfc3339(text) {
        Ok(t) => Ok(t.timestamp_millis()),
        Err(e) => Err(e),
    }
}

/// The most bytes of text that a `DateTimeString` holds.
pub const DATE_TIME_TEXT_CAPACITY: usize = 24;

/// Why a `DateTimeString` could not be made.
#[derive(Debug)]
pub enum DateTimeError {
    /// The text is no RFC 3339 date and time; what the parser said of it
    /// is kept.
    Parse(chrono::ParseError),
}

/// The text fits in a `DateTimeString`.
pub open spec fn fits_capacity(text: Seq<char>) -> bool {
    vstd::utf8::encode_utf8(text).len() <= DATE_TIME_TEXT_CAPACITY
}

/// An instant, kept with the text that it was read from.
#[derive(Debug)]
pub struct DateTimeString {
    text: String,
    ts: i64,
}

impl DateTimeString {
    /// The text that the instant was read from.
    pub closed spec fn text(&self) -> Seq<char> {
        self.text@
    }

    /// Milliseconds since the Unix epoch.
    pub closed spec fn millis(&self) -> int {
        self.ts as int
    }

    #[verifier::type_invariant]
    spec fn within_capacity(&self) -> bool {
        fits_capacity(self.text@)
    }

    /// Whether `text` fits in a `DateTimeString`.
    pub fn fits(text: &str) -> (r: bool)
        ensures
            r == fits_capacity(text@),
    {
        text.as_bytes().len() <= DATE_TIME_TEXT_CAPACITY
    }

    /// Keeps `text` with the instant `millis` that was read from it.
    pub fn from_parts(text: &str, millis: i64) -> (d: DateTimeString)
        requires
            fits_capacity(text@),
        ensures
            d.text() == text@,
            d.millis() == millis,
    {
        DateTimeString { text: text.to_owned(), ts: millis }
    }

    /// Reads an RFC 3339 date and time from text that fits. Text that is
    /// no such date is refused, with the error of the parser.
    pub fn new(text: &str) -> (r: Result<DateTimeString, DateTimeError>)
        requires
            fits_capacity(text@),
        ensures
            rfc3339_millis(text@) is None ==> r is Err,
            rfc3339_millis(text@) is Some ==> (r matches Ok(d) && d.text() == text@ && Some(
                d.millis(),
            ) == rfc3339_millis(text@)),
    {
        match parse_rfc3339_millis(text) {
            Ok(millis) => Ok(DateTimeString::from_parts(text, millis)),
            Err(e) => Err(DateTimeError::Parse(e)),
        }
    }

    /// The text that the instant was read from.
    pub fn as_str(&self) -> (s: &str)
        ensures
            s@ == self.text(),
            fits_capacity(s@),
    {
        proof {
            use_type_invariant(self);
        }
        self.text.as_str()
    }

    /// Milliseconds since the Unix epoch.
    pub fn timestamp_millis(&self) -> (ms: i64)
        ensures
            ms == self.millis(),
    {
        self.ts
    }

    /// Whether the text is `other`.
    pub fn eq_str(&self, other: &str) -> (r: bool)
        ensures
            r == (self.text() == other@),
    {
        crate::text::same_text(self.text.as_str(), other)
    }
}

impl Clone for DateTimeString {
    /// The same text and instant.
    fn clone(&self) -> (r: DateTimeString)
        ensures
            r.text() == self.text(),
            r.millis() == self.millis(),
    {
        proof {
            use_type_invariant(self);
        }
        DateTimeString { text: self.text.clone(), ts: self.ts }
    }
}

/// An instant in milliseconds since the Unix epoch.
#[derive(Clone, Copy, Debug)]
pub struct DateTime(pub u64);

impl DateTime {
    /// The instant `ts` milliseconds after the Unix epoch.
    pub fn new(ts: u64) -> (d: DateTime)
        ensures
            d.0 == ts,
    {
        DateTime(ts)
    }

    /// Milliseconds since the Unix epoch.
    pub fn timestamp_millis(&self) -> (ms: u64)
        ensures
            ms == self.0,
    {
        self.0
    }

    /// Whether the instant is `ts` milliseconds after the epoch.
    pub fn eq_millis(&self, ts: &u64) -> (r: bool)
        ensures
            r == (self.0 == *ts),
    {
        self.0 == *ts
    }
}

impl Default for DateTime {
    /// The Unix epoch itself.
    fn default() -> (d: DateTime)
        ensures
            d.0 == 0,
    {
        DateTime(0)
    }
}

} // verus!
