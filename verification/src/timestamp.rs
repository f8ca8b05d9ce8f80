//! Instants with a UTC offset, read and written through the `time` crate.
use vstd::prelude::*;

verus! {

pub const NANOS_PER_SECOND: i128 = 1_000_000_000;

/// Local date-time of `-9999-01-01T00:00:00`, in nanoseconds since the Unix epoch.
pub const MIN_LOCAL_NANOS: i128 = -377_705_203_200_000_000_000;

/// Local date-time of `9999-12-31T23:59:59.999999999`, in nanoseconds since the Unix epoch.
pub const MAX_LOCAL_NANOS: i128 = 253_402_300_799_999_999_999;

/// Largest magnitude of a UTC offset, `25:59:59`, in seconds.
pub const MAX_OFFSET_SECONDS: i32 = 93_599;

/// An instant, as nanoseconds since the Unix epoch, with the UTC offset it
/// is written in.
#[derive(Clone, Copy, Debug, PartialEq, Eq, Structural)]
pub struct Timestamp {
    pub unix_nanos: i128,
    pub offset_seconds: i32,
}

impl Timestamp {
    /// Nanoseconds of the local date-time in this timestamp's offset.
    pub open spec fn local_nanos(self) -> int {
        self.unix_nanos + self.offset_seconds * NANOS_PER_SECOND
    }

    /// Representable by the date-time type: offset within `±25:59:59` and
    /// local date within the years -9999 to 9999.
    pub open spec fn well_formed(self) -> bool {
        &&& -MAX_OFFSET_SECONDS <= self.offset_seconds <= MAX_OFFSET_SECONDS
        &&& MIN_LOCAL_NANOS <= self.local_nanos() <= MAX_LOCAL_NANOS
    }

    pub open spec fn is_utc(self) -> bool {
        self.offset_seconds == 0
    }

    /// The same instant in UTC, when the UTC date-time is representable.
    pub open spec fn spec_to_utc(self) -> Option<Timestamp> {
        if MIN_LOCAL_NANOS <= self.unix_nanos <= MAX_LOCAL_NANOS {
            Some(Timestamp { unix_nanos: self.unix_nanos, offset_seconds: 0 })
        } else {
            None
        }
    }

    /// `self` moved forward by `seconds`, keeping its offset, when a signed
    /// duration holds `seconds` and the local result is representable.
    pub open spec fn spec_add_seconds(self, seconds: nat) -> Option<Timestamp> {
        let moved = self.unix_nanos + seconds * NANOS_PER_SECOND;
        if seconds > i64::MAX || moved + self.offset_seconds * NANOS_PER_SECOND > MAX_LOCAL_NANOS {
            None
        } else {
            Some(Timestamp { unix_nanos: moved as i128, offset_seconds: self.offset_seconds })
        }
    }

    /// Whether `self` is a strictly later instant than `other`.
    pub fn is_after(&self, other: &Timestamp) -> (after: bool)
        ensures
            after == (self.unix_nanos > other.unix_nanos),
    {
        self.unix_nanos > other.unix_nanos
    }

    /// The same instant in UTC, when the UTC date-time is representable.
    pub fn to_utc(&self) -> (utc: Option<Timestamp>)
        ensures
            utc == self.spec_to_utc(),
    {
        if MIN_LOCAL_NANOS <= self.unix_nanos && self.unix_nanos <= MAX_LOCAL_NANOS {
            Some(Timestamp { unix_nanos: self.unix_nanos, offset_seconds: 0 })
        } else {
            None
        }
    }

    /// `self` moved forward by `seconds`; `None` where the date-time type
    /// cannot hold the duration or the result.
    pub fn checked_add_seconds(&self, seconds: u64) -> (moved: Option<Timestamp>)
        requires
            self.well_formed(),
        ensures
            moved == self.spec_add_seconds(seconds as nat),
            moved matches Some(t) ==> t.well_formed(),
    {
        if seconds > i64::MAX as u64 {
            return None;
        }
        let delta: i128 = seconds as i128 * NANOS_PER_SECOND;
        let moved: i128 = self.unix_nanos + delta;
        let local: i128 = moved + self.offset_seconds as i128 * NANOS_PER_SECOND;
        if local > MAX_LOCAL_NANOS {
            None
        } else {
            Some(Timestamp { unix_nanos: moved, offset_seconds: self.offset_seconds })
        }
    }
}

/// What `OffsetDateTime::parse` with the RFC 3339 description reads from a
/// text: the instant in nanoseconds since the epoch and the offset in seconds.
pub uninterp spec fn rfc3339_parse(text: Seq<char>) -> Option<(i128, i32)>;

/// What `OffsetDateTime::format` with the RFC 3339 description gives for the
/// date-time whose local value, in nanoseconds since the epoch, and whose
/// offset in seconds are given: the text, or the display text of its error.
pub uninterp spec fn rfc3339_text(local_nanos: i128, offset_seconds: i32) -> Result<
    Seq<char>,
    Seq<char>,
>;

pub open spec fn parsed_timestamp(text: Seq<char>) -> Option<Timestamp> {
    match rfc3339_parse(text) {
        Some((nanos, offset)) => Some(Timestamp { unix_nanos: nanos, offset_seconds: offset }),
        None => None,
    }
}

/// The current time in UTC, read through `time::OffsetDateTime::now_utc`.
/// The clock decides the value; the contract claims only that it is a
/// representable UTC instant.
#[verifier::external_body]
pub fn now_utc() -> (now: Timestamp)
    ensures
        now.is_utc(),
        now.well_formed(),
{
    let now = time::OffsetDateTime::now_utc();
    Timestamp { unix_nanos: now.unix_timestamp_nanos(), offset_seconds: 0 }
}

/// Parses an RFC 3339 timestamp with `time::OffsetDateTime::parse`. The
/// contract names the outcome `rfc3339_parse` and claims, as the type's
/// invariant, that a parsed value is representable.
#[verifier::external_body]
pub fn parse_rfc3339(text: &str) -> (parsed: Option<Timestamp>)
    ensures
        match parsed {
            Some(t) => rfc3339_parse(text@) == Some((t.unix_nanos, t.offset_seconds))
                && t.well_formed(),
            None => rfc3339_parse(text@) is None,
        },
{
    match time::OffsetDateTime::parse(text, &time::format_description::well_known::Rfc3339) {
        Ok(value) => Some(
            Timestamp {
                unix_nanos: value.unix_timestamp_nanos(),
                offset_seconds: value.offset().whole_seconds(),
            },
        ),
        Err(_) => None,
    }
}

/// Formats the date-time with the given local value and offset as RFC 3339
/// with `time::OffsetDateTime::format`, or gives the display text of the
/// error. The contract names the outcome `rfc3339_text`; the local value and
/// offset must be representable.
#[verifier::external_body]
fn format_rfc3339_local(local_nanos: i128, offset_seconds: i32) -> (text: Result<String, String>)
    requires
        MIN_LOCAL_NANOS <= local_nanos <= MAX_LOCAL_NANOS,
        -MAX_OFFSET_SECONDS <= offset_seconds <= MAX_OFFSET_SECONDS,
    ensures
        match text {
            Ok(s) => rfc3339_text(local_nanos, offset_seconds) == Ok::<Seq<char>, Seq<char>>(s@),
            Err(e) => rfc3339_text(local_nanos, offset_seconds) == Err::<Seq<char>, Seq<char>>(e@),
        },
{
    let local = match time::OffsetDateTime::from_unix_timestamp_nanos(local_nanos) {
        Ok(value) => value,
        Err(error) => return Err(error.to_string()),
    };
    let offset = match time::UtcOffset::from_whole_seconds(offset_seconds) {
        Ok(value) => value,
        Err(error) => return Err(error.to_string()),
    };
    match local.replace_offset(offset).format(&time::format_description::well_known::Rfc3339) {
        Ok(text) => Ok(text),
        Err(error) => Err(error.to_string()),
    }
}

/// The RFC 3339 text of `t` as `time` writes it, or the display text of the
/// error with which it refuses to.
pub open spec fn timestamp_text(t: Timestamp) -> Result<Seq<char>, Seq<char>> {
    rfc3339_text(t.local_nanos() as i128, t.offset_seconds)
}

/// RFC 3339 text of a timestamp, in its own offset, or the display text of
/// the formatting error.
pub fn rfc3339_of(t: &Timestamp) -> (text: Result<String, String>)
    requires
        t.well_formed(),
    ensures
        match text {
            Ok(s) => timestamp_text(*t) == Ok::<Seq<char>, Seq<char>>(s@),
            Err(e) => timestamp_text(*t) == Err::<Seq<char>, Seq<char>>(e@),
        },
{
    let local: i128 = t.unix_nanos + t.offset_seconds as i128 * NANOS_PER_SECOND;
    format_rfc3339_local(local, t.offset_seconds)
}

} // verus!
