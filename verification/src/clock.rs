//! Calendar days and wall-clock moments, and the calls into `chrono` that
//! read, shift and parse them.

use chrono::{Datelike, Timelike};
use vstd::prelude::*;

use crate::text;

verus! {

/// The first representable year.
pub const MIN_YEAR: i32 = -262143;

/// The last representable year.
pub const MAX_YEAR: i32 = 262142;

/// Unix time of the first representable second.
pub const MIN_UNIX: i64 = -8334601228800;

/// Unix time of the last representable second.
pub const MAX_UNIX: i64 = 8210266876799;

/// Seconds in a day.
pub const DAY_SECONDS: i64 = 86400;

/// A day of the proleptic Gregorian calendar.
#[derive(Debug, Clone, Copy, PartialEq, Eq, Structural)]
pub struct Day {
    pub year: i32,
    pub month: u32,
    pub day: u32,
}

/// A wall-clock moment without a time zone. `nano` reaches past one second
/// only inside a leap second.
#[derive(Debug, Clone, Copy, PartialEq, Eq, Structural)]
pub struct Moment {
    pub year: i32,
    pub month: u32,
    pub day: u32,
    pub hour: u32,
    pub minute: u32,
    pub second: u32,
    pub nano: u32,
}

/// Leap years of the Gregorian calendar.
pub open spec fn is_leap(y: int) -> bool {
    (y % 4 == 0 && y % 100 != 0) || y % 400 == 0
}

/// The number of days of a month.
pub open spec fn month_days(y: int, m: int) -> int {
    if m == 2 {
        if is_leap(y) {
            29
        } else {
            28
        }
    } else if m == 4 || m == 6 || m == 9 || m == 11 {
        30
    } else {
        31
    }
}

/// The number of days of the year before the month begins.
pub open spec fn days_before_month(y: int, m: int) -> int
    decreases m,
{
    if m <= 1 {
        0
    } else {
        days_before_month(y, m - 1) + month_days(y, m - 1)
    }
}

/// Days since the last day of the year 0.
pub open spec fn day_number(y: int, m: int, d: int) -> int {
    365 * (y - 1) + (y - 1) / 4 - (y - 1) / 100 + (y - 1) / 400 + days_before_month(y, m) + d
}

impl Day {
    /// A day that exists and is representable.
    pub open spec fn valid(self) -> bool {
        &&& MIN_YEAR <= self.year <= MAX_YEAR
        &&& 1 <= self.month <= 12
        &&& 1 <= self.day <= month_days(self.year as int, self.month as int)
    }

    /// The three numbers.
    pub open spec fn fields(self) -> (int, int, int) {
        (self.year as int, self.month as int, self.day as int)
    }

    /// Calendar order.
    pub open spec fn before(self, other: Day) -> bool {
        ||| self.year < other.year
        ||| self.year == other.year && self.month < other.month
        ||| self.year == other.year && self.month == other.month && self.day < other.day
    }

    /// Tests calendar order.
    pub fn is_before(self, other: Day) -> (r: bool)
        ensures
            r == self.before(other),
    {
        self.year < other.year || (self.year == other.year && self.month < other.month) || (
        self.year == other.year && self.month == other.month && self.day < other.day)
    }
}

impl Moment {
    /// The day part.
    pub open spec fn date(self) -> Day {
        Day { year: self.year, month: self.month, day: self.day }
    }

    /// A moment that exists and is representable.
    pub open spec fn valid(self) -> bool {
        &&& self.date().valid()
        &&& self.hour < 24
        &&& self.minute < 60
        &&& self.second < 60
        &&& self.nano < 2000000000
    }

    /// The seven numbers.
    pub open spec fn fields(self) -> (int, int, int, int, int, int, int) {
        (
            self.year as int,
            self.month as int,
            self.day as int,
            self.hour as int,
            self.minute as int,
            self.second as int,
            self.nano as int,
        )
    }

    /// Seconds since the Unix epoch, read as UTC.
    pub open spec fn unix(self) -> int {
        (day_number(self.year as int, self.month as int, self.day as int) - 719163) * 86400
            + self.hour * 3600 + self.minute * 60 + self.second
    }

    /// Chronological order.
    pub open spec fn before(self, other: Moment) -> bool {
        if self.date() != other.date() {
            self.date().before(other.date())
        } else if self.hour != other.hour {
            self.hour < other.hour
        } else if self.minute != other.minute {
            self.minute < other.minute
        } else if self.second != other.second {
            self.second < other.second
        } else {
            self.nano < other.nano
        }
    }

    /// The day part.
    pub fn day_of(self) -> (r: Day)
        ensures
            r == self.date(),
    {
        Day { year: self.year, month: self.month, day: self.day }
    }

    /// Tests chronological order.
    pub fn is_before(self, other: Moment) -> (r: bool)
        ensures
            r == self.before(other),
    {
        if self.day_of() != other.day_of() {
            self.day_of().is_before(other.day_of())
        } else if self.hour != other.hour {
            self.hour < other.hour
        } else if self.minute != other.minute {
            self.minute < other.minute
        } else if self.second != other.second {
            self.second < other.second
        } else {
            self.nano < other.nano
        }
    }
}

/// The start of the Unix epoch.
pub open spec fn epoch() -> Moment {
    Moment { year: 1970, month: 1, day: 1, hour: 0, minute: 0, second: 0, nano: 0 }
}

/// The start of the Unix epoch.
pub fn epoch_moment() -> (r: Moment)
    ensures
        r == epoch(),
{
    Moment { year: 1970, month: 1, day: 1, hour: 0, minute: 0, second: 0, nano: 0 }
}

/// Chronological order is a strict total order on moments.
pub proof fn law_moment_order(a: Moment, b: Moment, c: Moment)
    ensures
        !a.before(a),
        a.before(b) || b.before(a) || a == b,
        a.before(b) && b.before(c) ==> a.before(c),
{
}

/// The following calendar day; none follows the last representable one.
pub open spec fn next_day(d: Day) -> Option<Day> {
    if d.day < month_days(d.year as int, d.month as int) {
        Some(Day { year: d.year, month: d.month, day: (d.day + 1) as u32 })
    } else if d.month < 12 {
        Some(Day { year: d.year, month: (d.month + 1) as u32, day: 1 })
    } else if d.year < MAX_YEAR {
        Some(Day { year: (d.year + 1) as i32, month: 1, day: 1 })
    } else {
        None
    }
}

/// The preceding calendar day; none precedes the first representable one.
pub open spec fn previous_day(d: Day) -> Option<Day> {
    if d.day > 1 {
        Some(Day { year: d.year, month: d.month, day: (d.day - 1) as u32 })
    } else if d.month > 1 {
        Some(
            Day {
                year: d.year,
                month: (d.month - 1) as u32,
                day: month_days(d.year as int, d.month - 1) as u32,
            },
        )
    } else if d.year > MIN_YEAR {
        Some(Day { year: (d.year - 1) as i32, month: 12, day: 31 })
    } else {
        None
    }
}

/// Stepping one day forward and one day back are inverse to each other.
pub proof fn law_day_steps(d: Day)
    requires
        d.valid(),
    ensures
        next_day(d) matches Some(n) ==> n.valid() && previous_day(n) == Some(d),
        previous_day(d) matches Some(p) ==> p.valid() && next_day(p) == Some(d),
{
}

/// `chrono::NaiveDate::succ_opt`: the day after `d` in the proleptic Gregorian
/// calendar, or `None` after the last day that `chrono` represents.
#[verifier::external_body]
pub(crate) fn succ_day(d: Day) -> (r: Option<Day>)
    requires
        d.valid(),
    ensures
        r == next_day(d),
{
    let n = chrono::NaiveDate::from_ymd_opt(d.year, d.month, d.day)?.succ_opt()?;
    Some(Day { year: n.year(), month: n.month(), day: n.day() })
}

/// `chrono::NaiveDate::pred_opt`: the day before `d` in the proleptic
/// Gregorian calendar, or `None` before the first day that `chrono` represents.
#[verifier::external_body]
pub(crate) fn pred_day(d: Day) -> (r: Option<Day>)
    requires
        d.valid(),
    ensures
        r == previous_day(d),
{
    let n = chrono::NaiveDate::from_ymd_opt(d.year, d.month, d.day)?.pred_opt()?;
    Some(Day { year: n.year(), month: n.month(), day: n.day() })
}

/// `chrono::DateTime::from_timestamp`: the UTC moment of a Unix time. `None`
/// exactly outside the years that `chrono` represents.
#[verifier::external_body]
pub(crate) fn utc_moment(secs: i64) -> (r: Option<Moment>)
    ensures
        r is Some <==> MIN_UNIX <= secs <= MAX_UNIX,
        r matches Some(m) ==> m.valid() && m.unix() == secs && m.nano == 0,
{
    let t = chrono::DateTime::from_timestamp(secs, 0)?.naive_utc();
    Some(
        Moment {
            year: t.year(),
            month: t.month(),
            day: t.day(),
            hour: t.hour(),
            minute: t.minute(),
            second: t.second(),
            nano: t.nanosecond(),
        },
    )
}

/// Whether a Unix time is representable.
pub open spec fn representable(secs: int) -> bool {
    MIN_UNIX <= secs <= MAX_UNIX
}

/// Whether the wall clock at a Unix time is representable in every zone: no
/// zone is as much as a day away from UTC.
pub open spec fn representable_anywhere(secs: int) -> bool {
    MIN_UNIX + DAY_SECONDS <= secs <= MAX_UNIX - DAY_SECONDS
}

/// `chrono::DateTime::with_timezone` to `chrono::Local`, with its offset added
/// by `chrono::NaiveDateTime::checked_add_offset`: the wall clock of this
/// machine at a Unix time, or `None` where `chrono` cannot represent it. Which
/// zone applies depends on the machine, so the contract says only that the
/// clock is a real one, less than a day away from UTC, that the fraction of the
/// second is kept, and that there is one wherever every zone has one.
#[verifier::external_body]
pub(crate) fn zone_moment(secs: i64, nanos: u32) -> (r: Option<Moment>)
    requires
        representable(secs as int),
        nanos < 1000000000,
    ensures
        representable_anywhere(secs as int) ==> r is Some,
        r matches Some(m) ==> m.valid() && m.nano == nanos && -DAY_SECONDS < m.unix() - secs
            < DAY_SECONDS,
{
    let utc = chrono::DateTime::from_timestamp(secs, nanos)?;
    let offset = *utc.with_timezone(&chrono::Local).offset();
    let t = utc.naive_utc().checked_add_offset(offset)?;
    Some(
        Moment {
            year: t.year(),
            month: t.month(),
            day: t.day(),
            hour: t.hour(),
            minute: t.minute(),
            second: t.second(),
            nano: t.nanosecond(),
        },
    )
}

/// What `chrono::NaiveDateTime::parse_from_str` reads from a text in a format:
/// year, month, day, hour, minute, second and nanosecond.
pub uninterp spec fn parsed_datetime(text: Seq<char>, format: Seq<char>) -> Option<
    (int, int, int, int, int, int, int),
>;

/// `chrono::NaiveDateTime::parse_from_str`. Its result, where there is one, is
/// a moment that exists.
#[verifier::external_body]
pub(crate) fn parse_datetime(text: &str, format: &str) -> (r: Option<Moment>)
    ensures
        r is Some <==> parsed_datetime(text@, format@) is Some,
        r matches Some(m) ==> m.valid() && parsed_datetime(text@, format@) == Some(m.fields()),
{
    let t = chrono::NaiveDateTime::parse_from_str(text, format).ok()?;
    Some(
        Moment {
            year: t.year(),
            month: t.month(),
            day: t.day(),
            hour: t.hour(),
            minute: t.minute(),
            second: t.second(),
            nano: t.nanosecond(),
        },
    )
}

/// What `chrono::NaiveDate::parse_from_str` reads from a text in a format:
/// year, month and day.
pub uninterp spec fn parsed_date(text: Seq<char>, format: Seq<char>) -> Option<(int, int, int)>;

/// `chrono::NaiveDate::parse_from_str`. Its result, where there is one, is a
/// day that exists.
#[verifier::external_body]
pub(crate) fn parse_date(text: &str, format: &str) -> (r: Option<Day>)
    ensures
        r is Some <==> parsed_date(text@, format@) is Some,
        r matches Some(d) ==> d.valid() && parsed_date(text@, format@) == Some(d.fields()),
{
    let d = chrono::NaiveDate::parse_from_str(text, format).ok()?;
    Some(Day { year: d.year(), month: d.month(), day: d.day() })
}

/// The moment at a fixed offset (seconds east of UTC) from a Unix time. `None`
/// where the UTC or the shifted moment is not representable.
pub fn moment_at_offset(secs: i64, offset: i32) -> (r: Option<Moment>)
    requires
        -DAY_SECONDS < offset < DAY_SECONDS,
    ensures
        r is Some <==> MIN_UNIX <= secs <= MAX_UNIX && MIN_UNIX <= secs + offset <= MAX_UNIX,
        r matches Some(m) ==> m.valid() && m.unix() == secs + offset && m.nano == 0,
{
    if utc_moment(secs).is_none() {
        return None;
    }
    utc_moment(secs + (offset as i64))
}

/// This machine's wall clock at a Unix time with a fraction in nanoseconds.
/// `None` where the time, or the wall clock at it, is not representable. What
/// the zone of this machine is, no clause says, and so none says which of the
/// times within a day of either end have a wall clock.
pub fn local_moment(secs: i64, nanos: u32) -> (r: Option<Moment>)
    ensures
        representable_anywhere(secs as int) && nanos < 1000000000 ==> r is Some,
        r is Some ==> representable(secs as int) && nanos < 1000000000,
        r matches Some(m) ==> m.valid() && m.nano == nanos && -DAY_SECONDS < m.unix() - secs
            < DAY_SECONDS,
{
    if secs < MIN_UNIX || secs > MAX_UNIX || nanos >= 1000000000 {
        return None;
    }
    zone_moment(secs, nanos)
}

// ---------------------------------------------------------------------------
// Text forms
// ---------------------------------------------------------------------------

/// A year in four digits; outside 0 to 9999 with its sign, in at least five
/// characters.
pub open spec fn year_text(y: int) -> Seq<char> {
    if y < 0 {
        seq!['-'] + text::pad_left(text::decimal((-y) as nat), 4, '0')
    } else if y > 9999 {
        seq!['+'] + text::pad_left(text::decimal(y as nat), 4, '0')
    } else {
        text::pad_left(text::decimal(y as nat), 4, '0')
    }
}

/// Two digits.
pub open spec fn two(n: int) -> Seq<char> {
    text::pad_left(text::decimal(n as nat), 2, '0')
}

/// `2026-06-20`.
pub open spec fn day_text(d: Day) -> Seq<char> {
    year_text(d.year as int) + seq!['-'] + two(d.month as int) + seq!['-'] + two(d.day as int)
}

/// `2026-06-20 09:05:03`; a leap second reads 60.
pub open spec fn moment_text(m: Moment) -> Seq<char> {
    day_text(m.date()) + seq![' '] + two(m.hour as int) + seq![':'] + two(m.minute as int) + seq![
        ':',
    ] + two(
        if m.nano >= 1000000000 {
            m.second + 1
        } else {
            m.second as int
        },
    )
}

/// Two digits of a number.
pub fn two_digits(n: u32) -> (r: String)
    ensures
        r@ == two(n as int),
{
    text::unsigned_text(n as u64, 2)
}

/// Writes a year.
pub fn format_year(y: i32) -> (r: String)
    ensures
        r@ == year_text(y as int),
{
    if y > 9999 {
        let mut r = String::new();
        r.push('+');
        r.append(text::unsigned_text(y as u64, 4).as_str());
        proof {
            assert(Seq::<char>::empty().push('+') =~= seq!['+']);
        }
        r
    } else if y < 0 {
        text::signed_text(y, 5)
    } else {
        text::signed_text(y, 4)
    }
}

/// Writes a day.
pub fn format_day(d: Day) -> (r: String)
    ensures
        r@ == day_text(d),
{
    let mut r: String = format_year(d.year);
    r.push('-');
    r.append(two_digits(d.month).as_str());
    r.push('-');
    r.append(two_digits(d.day).as_str());
    proof {
        assert(r@ =~= day_text(d));
    }
    r
}

/// Writes a moment.
pub fn format_moment(m: Moment) -> (r: String)
    ensures
        r@ == moment_text(m),
{
    let mut r: String = format_day(m.day_of());
    r.push(' ');
    r.append(two_digits(m.hour).as_str());
    r.push(':');
    r.append(two_digits(m.minute).as_str());
    r.push(':');
    let s: u64 = if m.nano >= 1000000000 {
        m.second as u64 + 1
    } else {
        m.second as u64
    };
    r.append(text::unsigned_text(s, 2).as_str());
    proof {
        assert(r@ =~= moment_text(m));
    }
    r
}

} // verus!
