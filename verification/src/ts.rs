//! Timestamps with a fixed UTC offset, and their RFC 3339 text form.
//!
//! A `Timestamp` keeps the instant as plain integers (seconds and nanoseconds
//! since the Unix epoch, plus the offset), so that ordering and equality are
//! ordinary integer facts.  Only the conversion to and from the RFC 3339 text
//! form is delegated to chrono, behind trusted wrappers.

use vstd::prelude::*;

verus! {

/// Earliest local-clock second the text form can carry: 0000-01-01T00:00:00.
pub const MIN_LOCAL_SECS: i64 = -62_167_219_200;

/// Latest local-clock second the text form can carry: 9999-12-31T23:59:59.
pub const MAX_LOCAL_SECS: i64 = 253_402_300_799;

/// A point in time together with the fixed UTC offset it was written in.
#[derive(Clone, Copy, Debug, PartialEq, Eq, Structural)]
pub struct Timestamp {
    /// Seconds since the Unix epoch, counted in UTC.
    pub secs: i64,
    /// Nanoseconds within the second.
    pub nanos: u32,
    /// The fixed offset from UTC, in seconds.
    pub offset_secs: i32,
}

impl Timestamp {
    /// The absolute value of the offset, as a mathematical integer.
    pub open spec fn abs_offset(self) -> int {
        if self.offset_secs >= 0 {
            self.offset_secs as int
        } else {
            -(self.offset_secs as int)
        }
    }

    /// The timestamps whose RFC 3339 text form reads back to the same value:
    /// no leap-second representation, a whole-minute offset below one day,
    /// and a local date between years 0000 and 9999 (four-digit years).
    pub open spec fn wf(self) -> bool {
        &&& self.nanos < 1_000_000_000
        &&& self.abs_offset() <= 86_340
        &&& self.abs_offset() % 60 == 0
        &&& MIN_LOCAL_SECS as int <= self.secs as int + self.offset_secs as int
        &&& self.secs as int + self.offset_secs as int <= MAX_LOCAL_SECS as int
    }

    /// Runtime check of `wf`.
    pub fn is_wf(&self) -> (r: bool)
        ensures
            r == self.wf(),
    {
        if self.nanos >= 1_000_000_000 {
            return false;
        }
        let magnitude: i32 = if self.offset_secs >= 0 {
            self.offset_secs
        } else {
            if self.offset_secs == i32::MIN {
                return false;
            }
            -self.offset_secs
        };
        if magnitude > 86_340 {
            return false;
        }
        if magnitude % 60 != 0 {
            return false;
        }
        if self.secs < MIN_LOCAL_SECS - 86_340 || self.secs > MAX_LOCAL_SECS + 86_340 {
            return false;
        }
        let local: i64 = self.secs + self.offset_secs as i64;
        MIN_LOCAL_SECS <= local && local <= MAX_LOCAL_SECS
    }

    /// `self` is at or before `other` on the UTC time line; the offset is
    /// presentation only and does not take part.
    pub open spec fn le(self, other: Timestamp) -> bool {
        self.secs < other.secs || (self.secs == other.secs && self.nanos <= other.nanos)
    }

    /// Runtime comparison matching `le`.
    pub fn le_exec(&self, other: &Timestamp) -> (r: bool)
        ensures
            r == self.le(*other),
    {
        self.secs < other.secs || (self.secs == other.secs && self.nanos <= other.nanos)
    }
}

/// The RFC 3339 text chrono prints for these field values.  Named rather than
/// spelled out: the calendar arithmetic behind it takes pages to state.
pub uninterp spec fn rfc3339_of(secs: i64, nanos: u32, offset_secs: i32) -> Seq<char>;

/// What chrono's RFC 3339 parser makes of a text: the fields read back, or
/// nothing where the text is not a date-time it accepts.
pub uninterp spec fn rfc3339_parse(text: Seq<char>) -> Option<Timestamp>;

/// Relies on chrono's `DateTime::to_rfc3339`: the text depends on the fields
/// alone; it is one non-blank line of digits and punctuation, so trimming
/// leaves it unchanged; and `DateTime::parse_from_rfc3339` reads it back to
/// the same value (the `wf` bound keeps the year at four digits, the offset
/// at whole minutes and the second below the leap range, which is all that
/// printing forgets).
#[verifier::external_body]
pub(crate) fn format_rfc3339(t: &Timestamp) -> (r: String)
    requires
        t.wf(),
    ensures
        r@ == rfc3339_of(t.secs, t.nanos, t.offset_secs),
        crate::text::value_ok(r@),
        rfc3339_parse(r@) == Some(*t),
{
    let offset = chrono::FixedOffset::east_opt(t.offset_secs).unwrap();
    let utc = chrono::DateTime::from_timestamp(t.secs, t.nanos).unwrap();
    utc.with_timezone(&offset).to_rfc3339()
}

/// Relies on chrono's `DateTime::parse_from_rfc3339`: the result depends on
/// the text alone.
#[verifier::external_body]
pub(crate) fn parse_rfc3339(s: &str) -> (r: Option<Timestamp>)
    ensures
        r == rfc3339_parse(s@),
{
    match chrono::DateTime::parse_from_rfc3339(s) {
        Ok(dt) => Some(Timestamp {
            secs: dt.timestamp(),
            nanos: dt.timestamp_subsec_nanos(),
            offset_secs: dt.offset().local_minus_utc(),
        }),
        Err(_) => None,
    }
}

/// The human-readable date line chrono prints for these field values (the
/// `%c %z` form under the zh_CN locale); cosmetic, used by the renderer only.
pub uninterp spec fn local_display_of(secs: i64, nanos: u32, offset_secs: i32) -> Seq<char>;

/// Relies on chrono's `DateTime::format_localized`: with a fixed format and
/// locale the text depends on the fields alone.
#[verifier::external_body]
pub(crate) fn format_display(t: &Timestamp) -> (r: String)
    requires
        t.wf(),
    ensures
        r@ == local_display_of(t.secs, t.nanos, t.offset_secs),
{
    let offset = chrono::FixedOffset::east_opt(t.offset_secs).unwrap();
    let utc = chrono::DateTime::from_timestamp(t.secs, t.nanos).unwrap();
    let dt = utc.with_timezone(&offset);
    dt.format_localized("%c %z", chrono::Locale::zh_CN).to_string()
}

} // verus!
