//! Naive calendar timestamps, modelled as seconds and subsecond nanoseconds
//! since an epoch, and the trusted bridge to chrono's datetime parser.

use vstd::prelude::*;

verus! {

/// A naive (timezone-free) datetime: seconds since the epoch plus
/// subsecond nanoseconds.  Ordering is lexicographic on
/// `(secs, nanos)`, which matches the chronological order as long as
/// `nanos` is normalized (the parser below always returns it below
/// two billion, and with a fixed `secs` chrono orders by `nanos`).
#[derive(Debug, Clone, Copy, PartialEq, Eq, PartialOrd, Ord, Hash)]
pub struct Timestamp {
    pub secs: i64,
    pub nanos: u32,
}

impl Timestamp {
    /// Chronological order as a spec-level relation.
    pub open spec fn spec_le(self, other: Timestamp) -> bool {
        self.secs < other.secs || (self.secs == other.secs && self.nanos <= other.nanos)
    }

    pub open spec fn spec_lt(self, other: Timestamp) -> bool {
        self.spec_le(other) && self != other
    }

    /// `self` is chronologically no later than `other`.
    pub fn le(&self, other: &Timestamp) -> (r: bool)
        ensures
            r == self.spec_le(*other),
    {
        self.secs < other.secs || (self.secs == other.secs && self.nanos <= other.nanos)
    }

    /// `self` is chronologically strictly earlier than `other`.
    pub fn lt(&self, other: &Timestamp) -> (r: bool)
        ensures
            r == self.spec_lt(*other),
    {
        self.secs < other.secs || (self.secs == other.secs && self.nanos < other.nanos)
    }
}

/// What `chrono::NaiveDateTime::parse_from_str` returns on a given
/// candidate string and format string, converted to epoch seconds and
/// subsecond nanoseconds.  The result is a function of the two strings
/// alone.
pub uninterp spec fn chrono_parse(s: Seq<char>, fmt: Seq<char>) -> Option<Timestamp>;

/// How chrono renders a datetime with the format `%Y-%m-%d %H:%M:%S`,
/// as a function of the epoch seconds alone (that format has no
/// subsecond field).
pub uninterp spec fn chrono_display(secs: i64) -> Seq<char>;

/// Relies on `chrono::NaiveDateTime::parse_from_str`: parses the whole
/// candidate string under the given strftime-style format; the result
/// depends on the two strings alone.
#[verifier::external_body]
pub fn parse_datetime(s: &str, fmt: &str) -> (r: Option<Timestamp>)
    ensures
        r == chrono_parse(s@, fmt@),
{
    match chrono::NaiveDateTime::parse_from_str(s, fmt) {
        Ok(dt) => {
            let utc = dt.and_utc();
            Some(Timestamp { secs: utc.timestamp(), nanos: utc.timestamp_subsec_nanos() })
        },
        Err(_) => None,
    }
}

/// Relies on `chrono::DateTime::from_timestamp` and chrono's `format`
/// with `%Y-%m-%d %H:%M:%S`: renders the timestamp's calendar form.
/// A timestamp outside chrono's representable range renders as the
/// empty string; either way the result depends on `secs` alone.
#[verifier::external_body]
pub fn format_datetime(t: &Timestamp) -> (r: String)
    ensures
        r@ == chrono_display(t.secs),
{
    match chrono::DateTime::from_timestamp(t.secs, 0) {
        Some(dt) => dt.naive_utc().format("%Y-%m-%d %H:%M:%S").to_string(),
        None => String::new(),
    }
}

} // verus!
