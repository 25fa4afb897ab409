//! Calendar days, instants and local times.

use crate::duration::{Duration, NANOS_PER_SEC};
use crate::text::{law_zero_padded, number_of, zero_padded};
use chrono::{DateTime, Datelike, Local, NaiveDate, NaiveTime, TimeDelta, TimeZone, Utc};
use vstd::prelude::*;

verus! {

/// The first and the last year of the calendar.
pub const MIN_YEAR: i32 = -262143;

pub const MAX_YEAR: i32 = 262142;

/// The first and the last second of the calendar, counted from the start of 1970.
pub const MIN_SECS: i64 = -8_334_601_228_800;

pub const MAX_SECS: i64 = 8_210_266_876_799;

/// The seconds of a day.
pub const SECS_PER_DAY: i64 = 86_400;

/// The longest span of whole seconds that can be added to an instant, and the nanoseconds that
/// may come on top of it.
pub const MAX_DELTA_SECS: i64 = 9_223_372_036_854_775;

pub const MAX_DELTA_NANOS: u32 = 807_000_000;

/// A day of the Gregorian calendar, extended to all years.
#[derive(Clone, Copy, Debug, PartialEq, Eq, Structural)]
pub struct Date {
    pub year: i32,
    pub month: u32,
    pub day: u32,
}

/// Whether a year has a 29th of February.
pub open spec fn is_leap_year(year: int) -> bool {
    year % 4 == 0 && (year % 100 != 0 || year % 400 == 0)
}

/// The days of a month.
pub open spec fn days_in_month(year: int, month: int) -> int {
    if month == 2 {
        if is_leap_year(year) {
            29
        } else {
            28
        }
    } else if month == 4 || month == 6 || month == 9 || month == 11 {
        30
    } else {
        31
    }
}

/// The days of a year that come before a month.
pub open spec fn days_before_month(year: int, month: int) -> int
    decreases month,
{
    if month <= 1 {
        0
    } else {
        days_before_month(year, month - 1) + days_in_month(year, month - 1)
    }
}

/// The days from the start of year 1 to the start of a year.
pub open spec fn days_before_year(year: int) -> int {
    365 * (year - 1) + (year - 1) / 4 - (year - 1) / 100 + (year - 1) / 400
}

/// The year as text: four digits, and a sign in front where four digits do not do.
pub open spec fn year_text(year: int) -> Seq<char> {
    if 0 <= year <= 9999 {
        zero_padded(year as nat, 4)
    } else if year < 0 {
        seq!['-'] + zero_padded((-year) as nat, 4)
    } else {
        seq!['+'] + zero_padded(year as nat, 4)
    }
}

impl Date {
    /// The month has the day.
    pub open spec fn in_month(&self) -> bool {
        &&& 1 <= self.month <= 12
        &&& 1 <= self.day <= days_in_month(self.year as int, self.month as int)
    }

    /// The day exists and lies in the range of the calendar.
    pub open spec fn valid(&self) -> bool {
        MIN_YEAR <= self.year <= MAX_YEAR && self.in_month()
    }

    /// The days from the start of 1970 to this day.
    pub open spec fn unix_day(&self) -> int {
        days_before_year(self.year as int) + days_before_month(self.year as int, self.month as int)
            + self.day - 719163
    }

    /// Whether this day comes before `other`.
    pub open spec fn before(&self, other: Date) -> bool {
        ||| self.year < other.year
        ||| self.year == other.year && self.month < other.month
        ||| self.year == other.year && self.month == other.month && self.day < other.day
    }

    /// Whether this day comes before `other`.
    pub fn is_before(&self, other: &Date) -> (r: bool)
        ensures
            r == self.before(*other),
    {
        self.year < other.year || (self.year == other.year && self.month < other.month) || (
        self.year == other.year && self.month == other.month && self.day < other.day)
    }

    /// The day as day, month and year.
    pub fn day_month_year(&self) -> (r: String)
        requires
            self.valid(),
        ensures
            r@ == zero_padded(self.day as nat, 2) + seq!['.'] + zero_padded(self.month as nat, 2)
                + seq!['.'] + year_text(self.year as int),
    {
        format_utc(self.year, self.month, self.day, 0, 0, 0, "%d.%m.%Y")
    }
}

/// A point in time: seconds from the start of 1970, UTC, and nanoseconds. A leap second has
/// more than a second of nanoseconds.
#[derive(Clone, Copy, Debug, PartialEq, Eq, Structural)]
pub struct Instant {
    pub secs: i64,
    pub nanos: u32,
}

impl Instant {
    /// The instant lies in the range of the calendar, and only the last second of a minute is
    /// a leap second.
    pub open spec fn wf(&self) -> bool {
        &&& MIN_SECS <= self.secs <= MAX_SECS
        &&& self.nanos < NANOS_PER_SEC || self.nanos < 2 * NANOS_PER_SEC && self.secs % 60 == 59
    }

    /// Whether this instant comes before `other`.
    pub open spec fn before(&self, other: Instant) -> bool {
        self.secs < other.secs || self.secs == other.secs && self.nanos < other.nanos
    }

    /// The instant `duration` later. A leap second is left behind as soon as the span leads out
    /// of it: it does not count.
    pub open spec fn plus(&self, duration: Duration) -> Instant {
        if self.nanos >= NANOS_PER_SEC && duration.secs == 0 && self.nanos + duration.nanos < 2
            * NANOS_PER_SEC {
            Instant { secs: self.secs, nanos: (self.nanos + duration.nanos) as u32 }
        } else {
            let nanos = self.nanos % NANOS_PER_SEC + duration.nanos;
            Instant {
                secs: (self.secs + duration.secs + nanos / (NANOS_PER_SEC as int)) as i64,
                nanos: (nanos % (NANOS_PER_SEC as int)) as u32,
            }
        }
    }

    /// Whether the instant `duration` later exists.
    pub open spec fn reaches(&self, duration: Duration) -> bool {
        &&& duration.secs < MAX_DELTA_SECS || duration.secs == MAX_DELTA_SECS && duration.nanos
            <= MAX_DELTA_NANOS
        &&& self.secs + duration.secs + (if self.nanos % NANOS_PER_SEC + duration.nanos
            >= NANOS_PER_SEC {
            1int
        } else {
            0int
        }) <= MAX_SECS
    }

    /// The instant `duration` later, if there is one.
    pub fn checked_plus(&self, duration: &Duration) -> (r: Option<Instant>)
        requires
            self.wf(),
            duration.wf(),
        ensures
            r is Some <==> self.reaches(*duration),
            r matches Some(t) ==> t == self.plus(*duration),
    {
        instant_after(self, duration)
    }

    /// Whether this instant comes before `other`.
    pub fn is_before(&self, other: &Instant) -> (r: bool)
        ensures
            r == self.before(*other),
    {
        self.secs < other.secs || (self.secs == other.secs && self.nanos < other.nanos)
    }
}

/// The civil time that a clock on the wall shows, to the minute. At the ends of the calendar it
/// may be of the day before, or of the day after.
#[derive(Clone, Copy, Debug, PartialEq, Eq, Structural)]
pub struct LocalTime {
    pub date: Date,
    pub hour: u32,
    pub minute: u32,
}

impl LocalTime {
    /// The first second of the minute, counted as if the clock showed UTC.
    pub open spec fn minute_secs(&self) -> int {
        self.date.unix_day() * SECS_PER_DAY + self.hour * 3600 + self.minute * 60
    }

    /// Whether some time zone can show this time at the instant `secs`: the minute has a second
    /// that is less than a day away from the instant.
    pub open spec fn shows(&self, secs: int) -> bool {
        &&& self.date.in_month() && self.hour < 24 && self.minute < 60
        &&& self.minute_secs() - SECS_PER_DAY < secs < self.minute_secs() + 59 + SECS_PER_DAY
    }

    /// The day and the month, and the hour and the minute.
    pub open spec fn texts(&self) -> ClockModel {
        ClockModel {
            day_month: zero_padded(self.date.day as nat, 2) + seq!['.'] + zero_padded(
                self.date.month as nat,
                2,
            ),
            hour_minute: zero_padded(self.hour as nat, 2) + seq![':'] + zero_padded(
                self.minute as nat,
                2,
            ),
        }
    }
}

/// What a clock on the wall shows: the day and the month, and the hour and the minute.
#[derive(Debug)]
pub struct LocalText {
    pub day_month: String,
    pub hour_minute: String,
}

/// The contents of what a clock shows.
#[verifier::ext_equal]
pub struct ClockModel {
    pub day_month: Seq<char>,
    pub hour_minute: Seq<char>,
}

impl View for LocalText {
    type V = ClockModel;

    open spec fn view(&self) -> ClockModel {
        ClockModel { day_month: self.day_month@, hour_minute: self.hour_minute@ }
    }
}

impl ClockModel {
    /// Whether some time zone can show this at the instant `secs`.
    pub open spec fn possible(&self, secs: int) -> bool {
        exists|time: LocalTime| #[trigger] time.shows(secs) && *self == time.texts()
    }
}

/// Whether some time zone has this day at the instant `secs`.
pub open spec fn day_possible(date: Date, secs: int) -> bool {
    &&& date.valid()
    &&& date.unix_day() * SECS_PER_DAY - SECS_PER_DAY < secs < date.unix_day() * SECS_PER_DAY + 2
        * SECS_PER_DAY - 1
}

/// What is written of a civil second of some day.
pub open spec fn civil_text(
    year: int,
    month: nat,
    day: nat,
    hour: nat,
    minute: nat,
    second: nat,
    pattern: Seq<char>,
) -> Seq<char> {
    if pattern == "%d.%m.%Y"@ {
        zero_padded(day, 2) + seq!['.'] + zero_padded(month, 2) + seq!['.'] + year_text(year)
    } else {
        year_text(year) + seq!['-'] + zero_padded(month, 2) + seq!['-'] + zero_padded(day, 2)
            + seq!['T'] + zero_padded(hour, 2) + seq![':'] + zero_padded(minute, 2) + seq![':']
            + zero_padded(second, 2) + ".000+0000"@
    }
}

/// Calls `chrono::DateTime::format` on a UTC time and collects the text.
///
/// For the patterns that are admitted, chrono writes day, month, hour, minute and second with
/// two digits, the year with four digits (with a sign where it lies outside 0 to 9999), `%.3f` as
/// a point and the three digits of the milliseconds, and `%z` as the offset without a colon.
#[verifier::external_body]
pub(crate) fn format_utc(
    year: i32,
    month: u32,
    day: u32,
    hour: u32,
    minute: u32,
    second: u32,
    pattern: &str,
) -> (r: String)
    requires
        (Date { year, month, day }).valid(),
        hour < 24,
        minute < 60,
        second < 60,
        pattern@ == "%d.%m.%Y"@ || pattern@ == "%FT%T%.3f%z"@,
    ensures
        r@ == civil_text(
            year as int,
            month as nat,
            day as nat,
            hour as nat,
            minute as nat,
            second as nat,
            pattern@,
        ),
{
    NaiveDate::from_ymd_opt(year, month, day)
        .unwrap()
        .and_hms_opt(hour, minute, second)
        .unwrap()
        .and_utc()
        .format(pattern)
        .to_string()
}

/// Calls `chrono::TimeZone::from_utc_datetime` on `chrono::Utc`, for a day and a time of that
/// day, and reads the instant off.
///
/// chrono counts the days of the proleptic Gregorian calendar and the seconds of the day.
#[verifier::external_body]
pub(crate) fn utc_instant(date: Date, hour: u32, minute: u32, second: u32, milli: u32) -> (r: Instant)
    requires
        date.valid(),
        hour < 24,
        minute < 60,
        second < 60,
        milli < 1000,
    ensures
        r.secs == date.unix_day() * SECS_PER_DAY + hour * 3600 + minute * 60 + second,
        r.nanos == milli * 1_000_000,
{
    let day = NaiveDate::from_ymd_opt(date.year, date.month, date.day).unwrap();
    let time = NaiveTime::from_hms_milli_opt(hour, minute, second, milli).unwrap();
    let instant = Utc.from_utc_datetime(&day.and_time(time));
    Instant { secs: instant.timestamp(), nanos: instant.timestamp_subsec_nanos() }
}

/// Calls `chrono::DateTime::checked_add_signed` on a UTC time, for what `chrono::TimeDelta::from_std`
/// makes of a span, and reads the instant off.
///
/// chrono has no spans of more than `i64::MAX` milliseconds, and no instants beyond the calendar.
/// Within a leap second it adds to the second; a span that leads out of one does not count it.
#[verifier::external_body]
fn instant_after(start: &Instant, span: &Duration) -> (r: Option<Instant>)
    requires
        start.wf(),
        span.wf(),
    ensures
        r is Some <==> start.reaches(*span),
        r matches Some(t) ==> t == start.plus(*span),
{
    let time = DateTime::<Utc>::from_timestamp(start.secs, start.nanos).unwrap();
    let delta = TimeDelta::from_std(std::time::Duration::new(span.secs, span.nanos)).ok()?;
    let end = time.checked_add_signed(delta)?;
    Some(Instant { secs: end.timestamp(), nanos: end.timestamp_subsec_nanos() })
}

/// Calls `chrono::DateTime::with_timezone` for the time zone of the machine, and
/// `chrono::DateTime::date_naive` for the day there.
///
/// Which offset the zone has at `secs` is up to the machine and its zone files, and nothing is
/// said of it but what chrono requires of every offset: it is less than a day. `date_naive` needs
/// the day to lie in the range of the calendar.
#[verifier::external_body]
pub(crate) fn local_date(secs: i64) -> (r: Date)
    requires
        MIN_SECS + SECS_PER_DAY <= secs <= MAX_SECS - SECS_PER_DAY,
    ensures
        day_possible(r, secs as int),
{
    let local = DateTime::<Utc>::from_timestamp(secs, 0)
        .unwrap()
        .with_timezone(&Local::now().timezone());
    let date = local.date_naive();
    Date { year: date.year(), month: date.month(), day: date.day() }
}

/// Calls `chrono::DateTime::with_timezone` for the time zone of the machine, and
/// `chrono::DateTime::format` for what a clock shows there.
///
/// The offset is up to the machine, and less than a day. The texts are written at the ends of the
/// calendar too, where the day there can be the one before the first or the one after the last.
#[verifier::external_body]
pub(crate) fn local_text(secs: i64) -> (r: LocalText)
    requires
        MIN_SECS <= secs <= MAX_SECS,
    ensures
        r@.possible(secs as int),
{
    let local = DateTime::<Utc>::from_timestamp(secs, 0)
        .unwrap()
        .with_timezone(&Local::now().timezone());
    LocalText {
        day_month: local.format("%d.%m").to_string(),
        hour_minute: local.format("%H:%M").to_string(),
    }
}

/// The months of a year have 365 days together, and 366 in a leap year.
proof fn lemma_months_total(year: int)
    ensures
        days_before_month(year, 12) + 31 == 365 + (if is_leap_year(year) {
            1int
        } else {
            0int
        }),
{
    let feb = days_in_month(year, 2);
    assert(days_before_month(year, 1) == 0);
    assert(days_before_month(year, 2) == 31);
    assert(days_before_month(year, 3) == 31 + feb);
    assert(days_before_month(year, 4) == 62 + feb);
    assert(days_before_month(year, 5) == 92 + feb);
    assert(days_before_month(year, 6) == 123 + feb);
    assert(days_before_month(year, 7) == 153 + feb);
    assert(days_before_month(year, 8) == 184 + feb);
    assert(days_before_month(year, 9) == 215 + feb);
    assert(days_before_month(year, 10) == 245 + feb);
    assert(days_before_month(year, 11) == 276 + feb);
    assert(days_before_month(year, 12) == 306 + feb);
}

/// A quotient grows by one at each multiple of the divisor.
proof fn lemma_quotient_step(n: int, d: int)
    requires
        d > 1,
    ensures
        n / d - (n - 1) / d == (if n % d == 0 {
            1int
        } else {
            0int
        }),
{
    let q = n / d;
    let r = n % d;
    vstd::arithmetic::div_mod::lemma_fundamental_div_mod(n, d);
    vstd::arithmetic::div_mod::lemma_mod_bound(n, d);
    if r == 0 {
        assert(n - 1 == (q - 1) * d + (d - 1)) by (nonlinear_arith)
            requires
                n == d * q,
        ;
        vstd::arithmetic::div_mod::lemma_fundamental_div_mod_converse(n - 1, d, q - 1, d - 1);
    } else {
        assert(n - 1 == q * d + (r - 1)) by (nonlinear_arith)
            requires
                n == d * q + r,
        ;
        vstd::arithmetic::div_mod::lemma_fundamental_div_mod_converse(n - 1, d, q, r - 1);
    }
}

/// Every fourth century is a century, and every century ends a group of four years.
proof fn lemma_leap_multiples(year: int)
    ensures
        year % 100 == 0 ==> year % 4 == 0,
        year % 400 == 0 ==> year % 100 == 0,
{
}

/// The days of a year lead to the next year.
proof fn lemma_year_length(year: int)
    ensures
        days_before_year(year + 1) == days_before_year(year) + days_before_month(year, 12) + 31,
{
    lemma_months_total(year);
    lemma_quotient_step(year, 4);
    lemma_quotient_step(year, 100);
    lemma_quotient_step(year, 400);
    lemma_leap_multiples(year);
}

/// Later years start later.
proof fn lemma_years_ascend(first: int, second: int)
    requires
        first < second,
    ensures
        days_before_year(first) + days_before_month(first, 12) + 31 <= days_before_year(second),
    decreases second - first,
{
    if first + 1 == second {
        lemma_year_length(first);
    } else {
        lemma_years_ascend(first, second - 1);
        lemma_year_length(second - 1);
    }
}

/// Later months start later.
proof fn lemma_months_ascend(year: int, first: int, second: int)
    requires
        1 <= first < second,
    ensures
        days_before_month(year, first) + days_in_month(year, first) <= days_before_month(
            year,
            second,
        ),
    decreases second - first,
{
    if first + 1 < second {
        lemma_months_ascend(year, first, second - 1);
    }
}

/// Days are ordered as they follow each other in time.
pub proof fn lemma_date_order(first: Date, second: Date)
    requires
        first.valid(),
        second.valid(),
    ensures
        first.before(second) <==> first.unix_day() < second.unix_day(),
        first == second <==> first.unix_day() == second.unix_day(),
{
    if first.before(second) {
        lemma_before_ascends(first, second);
    } else if second.before(first) {
        lemma_before_ascends(second, first);
    }
}

proof fn lemma_before_ascends(first: Date, second: Date)
    requires
        first.valid(),
        second.valid(),
        first.before(second),
    ensures
        first.unix_day() < second.unix_day(),
{
    let year = first.year as int;
    if first.year < second.year {
        lemma_years_ascend(year, second.year as int);
        if first.month < 12 {
            lemma_months_ascend(year, first.month as int, 12);
        }
        if second.month > 1 {
            lemma_months_ascend(second.year as int, 1, second.month as int);
        }
    } else if first.month < second.month {
        lemma_months_ascend(year, first.month as int, second.month as int);
    }
}

/// The seconds of the calendar are those of its days.
pub proof fn lemma_calendar_range(date: Date)
    requires
        date.valid(),
    ensures
        MIN_SECS <= date.unix_day() * SECS_PER_DAY,
        date.unix_day() * SECS_PER_DAY + SECS_PER_DAY - 1 <= MAX_SECS,
{
    let first = Date { year: MIN_YEAR, month: 1, day: 1 };
    let last = Date { year: MAX_YEAR, month: 12, day: 31 };
    lemma_months_total(MAX_YEAR as int);
    lemma_date_order(first, date);
    lemma_date_order(date, last);
}

/// The days are counted from the start of 1970, one by one: the day after the last of a month is
/// the first of the next, and the day after the last of a year the first of the next.
pub proof fn law_days_are_counted(year: i32, month: u32, day: u32)
    requires
        year < i32::MAX,
        1 <= month <= 12,
        day < u32::MAX,
    ensures
        (Date { year: 1970, month: 1, day: 1 }).unix_day() == 0,
        ({
            let date = Date { year, month, day };
            let next = Date { year, month, day: (day + 1) as u32 };
            next.unix_day() == date.unix_day() + 1
        }),
        month < 12 ==> {
            let last = Date { year, month, day: days_in_month(year as int, month as int) as u32 };
            let next = Date { year, month: (month + 1) as u32, day: 1 };
            next.unix_day() == last.unix_day() + 1
        },
        ({
            let last = Date { year, month: 12, day: 31 };
            let next = Date { year: (year + 1) as i32, month: 1, day: 1 };
            next.unix_day() == last.unix_day() + 1
        }),
{
    lemma_year_length(year as int);
    assert(days_before_month(1970, 1) == 0);
    assert(days_before_month(year + 1, 1) == 0);
    assert(days_before_month(year as int, (month + 1) as int) == days_before_month(
        year as int,
        month as int,
    ) + days_in_month(year as int, month as int));
}

/// A year has 365 days, or 366 every fourth year but for three of four centuries, and four
/// centuries have 146097 days.
pub proof fn law_years(year: int)
    ensures
        days_before_year(year + 1) - days_before_year(year) == if year % 400 == 0 || (year % 4 == 0
            && year % 100 != 0) {
            366int
        } else {
            365int
        },
        days_before_year(year + 400) - days_before_year(year) == 146_097,
        days_in_month(year, 1) == 31,
        days_in_month(year, 2) == days_before_year(year + 1) - days_before_year(year) - 337,
        days_in_month(year, 3) == 31,
        days_in_month(year, 4) == 30,
        days_in_month(year, 5) == 31,
        days_in_month(year, 6) == 30,
        days_in_month(year, 7) == 31,
        days_in_month(year, 8) == 31,
        days_in_month(year, 9) == 30,
        days_in_month(year, 10) == 31,
        days_in_month(year, 11) == 30,
        days_in_month(year, 12) == 31,
{
    lemma_year_length(year);
    lemma_months_total(year);
    lemma_leap_multiples(year);
}

/// The year is written with four digits, or with more and a sign.
pub proof fn law_year_text(year: int)
    ensures
        0 <= year <= 9999 ==> number_of(year_text(year)) == year,
        year > 9999 ==> year_text(year)[0] == '+' && number_of(year_text(year).skip(1)) == year,
        year < 0 ==> year_text(year)[0] == '-' && number_of(year_text(year).skip(1)) == -year,
        year_text(year).len() >= if 0 <= year <= 9999 {
            4int
        } else {
            5int
        },
{
    if year < 0 {
        law_zero_padded((-year) as nat, 4);
        assert(year_text(year).skip(1) =~= zero_padded((-year) as nat, 4));
    } else {
        law_zero_padded(year as nat, 4);
        if year > 9999 {
            assert(year_text(year).skip(1) =~= zero_padded(year as nat, 4));
        }
    }
}

/// Instants are in order as their nanoseconds are, and what is later by a span comes as many
/// nanoseconds later, but for leap seconds.
pub proof fn law_instants(first: Instant, second: Instant, span: Duration)
    requires
        first.nanos < 1_000_000_000,
        second.nanos < 1_000_000_000,
        first.wf(),
        span.wf(),
        first.reaches(span),
    ensures
        first.before(second) <==> first.secs * 1_000_000_000 + first.nanos < second.secs
            * 1_000_000_000 + second.nanos,
        ({
            let later = first.plus(span);
            later.nanos < 1_000_000_000 && later.secs * 1_000_000_000 + later.nanos == first.secs
                * 1_000_000_000 + first.nanos + span@
        }),
{
}

} // verus!
