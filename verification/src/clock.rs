//! Points in time on the UTC scale.
//!
//! Times are stored and compared as RFC 3339 text, which sorts as time does in
//! the years 0 to 9999. Arithmetic happens on whole seconds.
use vstd::prelude::*;

use crate::text;

verus! {

/// The first second of the calendar, -262143-01-01T00:00:00Z.
pub const FIRST_SECOND: i64 = -8334601228800;

/// The last second of the calendar, +262142-12-31T23:59:59Z.
pub const LAST_SECOND: i64 = 8210266876799;

/// A point in time: seconds since 1970-01-01T00:00:00Z and nanoseconds within
/// the second.
#[derive(Debug, Clone, Copy, PartialEq, Eq, Structural)]
pub struct UtcTime {
    pub secs: i64,
    pub nanos: u32,
}

impl UtcTime {
    /// Whether the calendar holds this time.
    pub open spec fn valid(self) -> bool {
        FIRST_SECOND <= self.secs <= LAST_SECOND && self.nanos < 1_000_000_000
    }

    /// Whether the time lies in the years 0 to 9999, which RFC 3339 can write.
    pub open spec fn writable(self) -> bool {
        FIRST_WRITTEN <= self.secs <= LAST_WRITTEN && self.nanos < 1_000_000_000
    }

    /// Whether the time comes before another one.
    pub open spec fn is_before(self, other: UtcTime) -> bool {
        self.secs < other.secs || (self.secs == other.secs && self.nanos < other.nanos)
    }

    /// The minute that the time lies in, counted from 1970.
    pub open spec fn minute_number(self) -> int {
        self.secs as int / 60
    }
}

/// The RFC 3339 text of a time, as `chrono` writes it.
pub uninterp spec fn rfc3339_of(secs: i64, nanos: u32) -> Seq<char>;

/// The time that RFC 3339 text names, as `chrono` reads it: seconds since 1970
/// and nanoseconds within the second. Nothing where the text is not RFC 3339.
pub uninterp spec fn instant_of(raw: Seq<char>) -> Option<(i64, u32)>;

/// The first second of the year 0.
pub const FIRST_WRITTEN: i64 = -62167219200;

/// The last second of the year 9999.
pub const LAST_WRITTEN: i64 = 253402300799;

/// The minute of a time, as `chrono` writes it under `%Y-%m-%dT%H:%M:00Z`.
pub uninterp spec fn minute_of(secs: i64, nanos: u32) -> Seq<char>;

/// Whether a text stands among the texts of times as a time does among the times.
pub open spec fn sorts_as(s: Seq<char>, time: UtcTime) -> bool {
    forall|o: UtcTime|
        o.writable() ==> {
            &&& text::text_less(s, #[trigger] time_text(o)) <==> time.is_before(o)
            &&& text::text_less(time_text(o), s) <==> o.is_before(time)
        }
}

/// Whether a text stands among the texts of minutes as the minute of a time does
/// among the minutes.
pub open spec fn sorts_as_minute(s: Seq<char>, time: UtcTime) -> bool {
    forall|o: UtcTime|
        o.writable() ==> {
            &&& text::text_less(s, #[trigger] minute_text(o)) <==> time.minute_number()
                < o.minute_number()
            &&& text::text_less(minute_text(o), s) <==> o.minute_number() < time.minute_number()
        }
}

/// `chrono::Utc::now`: the system clock. Nothing is said of which time it is,
/// only that it is a time of the calendar, not before 1970.
#[verifier::external_body]
pub(crate) fn utc_now() -> (r: UtcTime)
    ensures
        r.valid(),
        r.secs >= 0,
{
    let now = chrono::Utc::now();
    UtcTime { secs: now.timestamp(), nanos: now.timestamp_subsec_nanos() }
}

/// `chrono::DateTime::<Utc>::to_rfc3339` of a time of the calendar. The text is
/// a function of the time. Within the years 0 to 9999, which RFC 3339 can write,
/// it names that time, and it sorts among the texts of these years as the time
/// does: the fields have fixed widths from the year down, a fraction follows the
/// seconds only where there is one, and the `+` of the offset sorts before a point
/// and before a digit.
#[verifier::external_body]
pub(crate) fn to_rfc3339(time: UtcTime) -> (r: String)
    requires
        time.valid(),
    ensures
        r@ == rfc3339_of(time.secs, time.nanos),
        time.writable() ==> instant_of(r@) == Some((time.secs, time.nanos)),
        time.writable() ==> sorts_as(r@, time),
{
    chrono::DateTime::from_timestamp(time.secs, time.nanos).expect("valid time").to_rfc3339()
}

/// `chrono::DateTime::parse_from_rfc3339`: the time that the text names, on the
/// UTC scale. It is a function of the text, and lies within the calendar.
#[verifier::external_body]
pub(crate) fn parse_rfc3339(raw: &str) -> (r: Option<UtcTime>)
    ensures
        r matches Some(time) ==> FIRST_SECOND <= time.secs <= LAST_SECOND,
        (match r {
            Some(time) => Some((time.secs, time.nanos)),
            None => None,
        }) == instant_of(raw@),
{
    let time = chrono::DateTime::parse_from_rfc3339(raw).ok()?;
    Some(UtcTime { secs: time.timestamp(), nanos: time.timestamp_subsec_nanos() })
}

/// `chrono::DateTime::<Utc>::format` of a time of the calendar with the pattern
/// for its minute. The text is a function of the time. Within the years 0 to 9999
/// its fields have fixed widths from the year down, so that it sorts among the
/// minutes of these years as its minute does.
#[verifier::external_body]
pub(crate) fn to_minute(time: UtcTime) -> (r: String)
    requires
        time.valid(),
    ensures
        r@ == minute_of(time.secs, time.nanos),
        time.writable() ==> sorts_as_minute(r@, time),
{
    let time = chrono::DateTime::from_timestamp(time.secs, time.nanos).expect("valid time");
    time.format("%Y-%m-%dT%H:%M:00Z").to_string()
}

/// The time `seconds` after (before, if negative) `time`, if the calendar holds it.
pub open spec fn shifted(time: UtcTime, seconds: int) -> Option<UtcTime> {
    if FIRST_SECOND <= time.secs + seconds <= LAST_SECOND {
        Some(UtcTime { secs: (time.secs + seconds) as i64, nanos: time.nanos })
    } else {
        None
    }
}

/// `chrono::DateTime::<Utc>::checked_add_signed` of a number of whole seconds:
/// the time so many seconds later, or nothing where the calendar ends before.
#[verifier::external_body]
pub(crate) fn shift_seconds(time: UtcTime, seconds: i64) -> (r: Option<UtcTime>)
    requires
        time.valid(),
    ensures
        r == shifted(time, seconds as int),
{
    let start = chrono::DateTime::from_timestamp(time.secs, time.nanos).expect("valid time");
    let later = start.checked_add_signed(chrono::TimeDelta::try_seconds(seconds)?)?;
    Some(UtcTime { secs: later.timestamp(), nanos: later.timestamp_subsec_nanos() })
}

/// The time `seconds` after `time`; the end of the calendar where it ends before.
pub open spec fn time_after(time: UtcTime, seconds: int) -> UtcTime {
    match shifted(time, seconds) {
        Some(later) => later,
        None => UtcTime {
            secs: if seconds > 0 {
                LAST_SECOND
            } else {
                FIRST_SECOND
            },
            nanos: time.nanos,
        },
    }
}

/// The time `seconds` after `time`; the end of the calendar where it ends before.
pub fn after(time: UtcTime, seconds: i64) -> (r: UtcTime)
    requires
        time.valid(),
    ensures
        r == time_after(time, seconds as int),
        r.valid(),
{
    match shift_seconds(time, seconds) {
        Some(later) => later,
        None => UtcTime {
            secs: if seconds > 0 {
                LAST_SECOND
            } else {
                FIRST_SECOND
            },
            nanos: time.nanos,
        },
    }
}

/// The RFC 3339 text of a time.
pub open spec fn time_text(time: UtcTime) -> Seq<char> {
    rfc3339_of(time.secs, time.nanos)
}

/// Whether a text is that of a time, and stands for it.
pub open spec fn is_time_text(s: Seq<char>) -> bool {
    exists|time: UtcTime| time.valid() && faithful(time) && s == #[trigger] time_text(time)
}

/// Whether the text of a time names the time and sorts as the time does. So does
/// every text that [`text_of`] writes, up to the year 9999.
pub open spec fn faithful(time: UtcTime) -> bool {
    time.writable() ==> {
        &&& instant_of(time_text(time)) == Some((time.secs, time.nanos))
        &&& sorts_as(time_text(time), time)
    }
}

/// Whether the text of the minute of a time sorts as the minute does. So does
/// every text that [`minute`] writes, up to the year 9999.
pub open spec fn minute_faithful(time: UtcTime) -> bool {
    time.writable() ==> sorts_as_minute(minute_text(time), time)
}

/// The minute of a time as text.
pub open spec fn minute_text(time: UtcTime) -> Seq<char> {
    minute_of(time.secs, time.nanos)
}

/// The current time. Nothing is said of which time it is.
pub fn now() -> (r: UtcTime)
    ensures
        r.valid(),
        r.secs >= 0,
{
    utc_now()
}

/// The RFC 3339 text of a time.
pub fn text_of(time: UtcTime) -> (r: String)
    requires
        time.valid(),
    ensures
        r@ == time_text(time),
        faithful(time),
{
    to_rfc3339(time)
}

/// The minute of a time as text.
pub fn minute(time: UtcTime) -> (r: String)
    requires
        time.valid(),
    ensures
        r@ == minute_text(time),
        minute_faithful(time),
{
    to_minute(time)
}

// -------------------------------------------------------------------- laws

/// Texts of times sort as the times do, and are equal only where the times are.
pub proof fn law_texts_sort_as_times(a: UtcTime, b: UtcTime)
    requires
        faithful(a),
        a.writable(),
        b.writable(),
    ensures
        text::text_less(time_text(a), time_text(b)) == a.is_before(b),
        text::text_less(time_text(b), time_text(a)) == b.is_before(a),
        time_text(a) == time_text(b) <==> a == b,
{
    text::lemma_text_less_order(time_text(a), time_text(b), time_text(a));
}

/// Texts of minutes sort as the minutes do, and are equal only where the minutes
/// are.
pub proof fn law_minutes_sort_as_times(a: UtcTime, b: UtcTime)
    requires
        minute_faithful(a),
        a.writable(),
        b.writable(),
    ensures
        text::text_less(minute_text(a), minute_text(b)) == (a.minute_number()
            < b.minute_number()),
        text::text_less(minute_text(b), minute_text(a)) == (b.minute_number()
            < a.minute_number()),
        minute_text(a) == minute_text(b) <==> a.minute_number() == b.minute_number(),
{
    text::lemma_text_less_order(minute_text(a), minute_text(b), minute_text(a));
}

/// A time some seconds later has as many seconds more, and the same fraction, up
/// to the ends of the calendar.
pub proof fn law_seconds_later_are_seconds_later(time: UtcTime, seconds: int)
    requires
        time.valid(),
    ensures
        FIRST_SECOND <= time.secs + seconds <= LAST_SECOND ==> time_after(time, seconds).secs
            == time.secs + seconds,
        time.secs + seconds > LAST_SECOND ==> time_after(time, seconds).secs == LAST_SECOND,
        time.secs + seconds < FIRST_SECOND ==> time_after(time, seconds).secs == FIRST_SECOND,
        time_after(time, seconds).nanos == time.nanos,
        time_after(time, seconds).valid(),
        seconds > 0 && time.secs + seconds <= LAST_SECOND ==> time.is_before(
            time_after(time, seconds),
        ),
{
}

} // verus!
