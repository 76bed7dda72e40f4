//! Timestamps: a plain (seconds, nanoseconds) pair since the Unix epoch,
//! the range the flat-file codec can carry, and the trusted conversions to
//! and from chrono's RFC 3339 text.

use vstd::prelude::*;

verus! {

/// A point in time: non-leap seconds since the Unix epoch and nanoseconds
/// within the second.
#[derive(Clone, Copy, Debug, PartialEq, Eq, Structural)]
pub struct Timestamp {
    pub secs: i64,
    pub nanos: u32,
}

/// First second of year 0: RFC 3339 years have exactly four digits.
pub const MIN_TS_SECS: i64 = -62_167_219_200;

/// Last second of year 9999.
pub const MAX_TS_SECS: i64 = 253_402_300_799;

/// Whether the codec's date-time text can carry `t`: a four-digit year and
/// no leap-second nanosecond overflow.
pub open spec fn ts_ok(t: Timestamp) -> bool {
    MIN_TS_SECS <= t.secs <= MAX_TS_SECS && t.nanos < 1_000_000_000
}

/// `t` itself when the codec can carry it, the epoch otherwise; every
/// timestamp the store keeps has passed through this normalization.
pub open spec fn ts_norm(t: Timestamp) -> Timestamp {
    if ts_ok(t) {
        t
    } else {
        Timestamp { secs: 0, nanos: 0 }
    }
}

/// Strict order on timestamps: seconds first, then nanoseconds.
pub open spec fn ts_lt(a: Timestamp, b: Timestamp) -> bool {
    a.secs < b.secs || (a.secs == b.secs && a.nanos < b.nanos)
}

/// Whether `t` lies in the codec's representable range.
pub fn ts_in_range(t: Timestamp) -> (r: bool)
    ensures
        r == ts_ok(t),
{
    MIN_TS_SECS <= t.secs && t.secs <= MAX_TS_SECS && t.nanos < 1_000_000_000
}

/// `t` normalized into the representable range.
pub fn ts_clamp(t: Timestamp) -> (r: Timestamp)
    ensures
        r == ts_norm(t),
        ts_ok(r),
{
    if ts_in_range(t) {
        t
    } else {
        Timestamp { secs: 0, nanos: 0 }
    }
}

/// The RFC 3339 text chrono prints for `t`; a function of `t` alone.
pub uninterp spec fn rfc3339_of(t: Timestamp) -> Seq<char>;

/// The timestamp chrono reads from RFC 3339 text, or nothing when the text
/// does not parse; a function of the text alone.
pub uninterp spec fn rfc3339_parse(s: Seq<char>) -> Option<Timestamp>;

/// Characters RFC 3339 date-time text is drawn from; none of them is a
/// record separator of the flat-file format.
pub open spec fn is_time_char(c: char) -> bool {
    (48 <= c as u32 && c as u32 <= 57)  // '0' ..= '9'
    || c == '-' || c == ':' || c == 'T' || c == '+' || c == '.'
}

/// Relies on `std::time::SystemTime::now` and `duration_since`, a panic-free
/// wall-clock reading: a clock set before the Unix epoch reads as the epoch.
/// The clock promises nothing, so nothing is stated.
#[verifier::external_body]
fn clock_now() -> (r: Timestamp) {
    match std::time::SystemTime::now().duration_since(std::time::UNIX_EPOCH) {
        Ok(d) => Timestamp { secs: d.as_secs() as i64, nanos: d.subsec_nanos() },
        Err(_) => Timestamp { secs: 0, nanos: 0 },
    }
}

/// Relies on `chrono::DateTime::<Utc>::from_timestamp` and `to_rfc3339`:
/// within the supported range the pair is documented to round-trip with
/// `timestamp`/`timestamp_subsec_nanos`, so the text is a function of `t`
/// alone; `parse_from_rfc3339` reads the printed text back to the same
/// instant; and the text is drawn from the RFC 3339 character set.
#[verifier::external_body]
fn ts_to_rfc3339(t: Timestamp) -> (r: String)
    requires
        ts_ok(t),
    ensures
        r@ == rfc3339_of(t),
        rfc3339_parse(r@) == Some(t),
        forall|i: int| 0 <= i < r@.len() ==> is_time_char(#[trigger] r@[i]),
{
    let dt = chrono::DateTime::<chrono::Utc>::from_timestamp(t.secs, t.nanos).unwrap();
    dt.to_rfc3339()
}

/// Relies on `chrono::DateTime::parse_from_rfc3339` (composed with
/// `timestamp`/`timestamp_subsec_nanos`): the result is a function of the
/// text alone.
#[verifier::external_body]
pub(crate) fn ts_parse_rfc3339(s: &str) -> (r: Option<Timestamp>)
    ensures
        r == rfc3339_parse(s@),
{
    match chrono::DateTime::parse_from_rfc3339(s) {
        Ok(d) => Some(Timestamp { secs: d.timestamp(), nanos: d.timestamp_subsec_nanos() }),
        Err(_) => None,
    }
}

/// The current clock reading, normalized into the representable range.
pub fn now_ts() -> (r: Timestamp)
    ensures
        ts_ok(r),
{
    ts_clamp(clock_now())
}

/// RFC 3339 text for `t`, normalizing a timestamp the codec cannot carry to
/// the epoch first.
pub fn ts_text(t: Timestamp) -> (r: String)
    ensures
        r@ == rfc3339_of(ts_norm(t)),
        rfc3339_parse(r@) == Some(ts_norm(t)),
        forall|i: int| 0 <= i < r@.len() ==> is_time_char(#[trigger] r@[i]),
{
    let c = ts_clamp(t);
    ts_to_rfc3339(c)
}

} // verus!
