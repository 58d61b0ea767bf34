//! Points in time, as seconds and nanoseconds since the Unix epoch.

use vstd::prelude::*;

verus! {

/// An instant: whole seconds since the Unix epoch and the nanoseconds past them
/// (`DateTime::timestamp` and `DateTime::timestamp_subsec_nanos`).
#[derive(Clone, Copy, Debug, PartialEq, Eq, Structural)]
pub struct Timestamp {
    pub secs: i64,
    pub nanos: u32,
}

/// `a` is earlier than `b`.
pub open spec fn spec_earlier(a: Timestamp, b: Timestamp) -> bool {
    a.secs < b.secs || (a.secs == b.secs && a.nanos < b.nanos)
}

impl Timestamp {
    /// Whether `self` is earlier than `other`, as `DateTime` values compare.
    pub fn is_earlier_than(&self, other: &Timestamp) -> (r: bool)
        ensures
            r == spec_earlier(*self, *other),
    {
        self.secs < other.secs || (self.secs == other.secs && self.nanos < other.nanos)
    }
}

#[verifier::external_type_specification]
#[verifier::external_body]
pub struct ExParseError(chrono::ParseError);

/// The instant that `chrono::DateTime::parse_from_rfc3339` reads from a text,
/// where it accepts it.
pub uninterp spec fn rfc3339_instant(s: Seq<char>) -> Option<Timestamp>;

/// Calls `chrono::DateTime::parse_from_rfc3339` and keeps the instant it read.
/// Whether it succeeds and what it reads are named by `rfc3339_instant`.
#[verifier::external_body]
pub(crate) fn parse_rfc3339(s: &str) -> (r: Result<Timestamp, chrono::ParseError>)
    ensures
        match r {
            Ok(t) => rfc3339_instant(s@) == Some(t),
            Err(_) => rfc3339_instant(s@) is None,
        },
{
    match chrono::DateTime::parse_from_rfc3339(s) {
        Ok(t) => Ok(Timestamp { secs: t.timestamp(), nanos: t.timestamp_subsec_nanos() }),
        Err(e) => Err(e),
    }
}

/// Calls `chrono::Local::now()`. Nothing is claimed of the instant: it depends
/// on the clock.
#[verifier::external_body]
pub(crate) fn now() -> (r: Timestamp) {
    let t = chrono::Local::now();
    Timestamp { secs: t.timestamp(), nanos: t.timestamp_subsec_nanos() }
}

/// Reads an RFC 3339 date and time (such as `1996-12-19T16:39:57-08:00`).
pub fn read_rfc3339(s: &str) -> (r: Option<Timestamp>)
    ensures
        r == rfc3339_instant(s@),
{
    match parse_rfc3339(s) {
        Ok(t) => Some(t),
        Err(_) => None,
    }
}

/// Characters of the alphabet that generated ids are made of:
/// `_`, `-`, digits and ASCII letters.
pub open spec fn is_id_char(c: char) -> bool {
    c == '_' || c == '-' || ('0' <= c && c <= '9') || ('a' <= c && c <= 'z') || ('A' <= c && c
        <= 'Z')
}

/// Calls `nanoid::format` with the default random source and the URL-safe
/// alphabet (what `nanoid!(size)` expands to). Claimed, as its source shows:
/// `size` characters, each from that alphabet. Which ones is left to chance.
#[verifier::external_body]
pub(crate) fn new_id(size: usize) -> (r: String)
    requires
        0 < size <= 1024,
    ensures
        r@.len() == size,
        forall|i: int| 0 <= i < r@.len() ==> is_id_char(#[trigger] r@[i]),
{
    nanoid::format(nanoid::rngs::default, &nanoid::alphabet::SAFE, size)
}

} // verus!
