//! Kernel-maintained wall clock.
//!
//! The CMOS RTC is read exactly once, at boot, to establish a reference
//! point; from then on the wall-clock time is derived from the PIT tick
//! counter. Querying the time therefore costs some calendar arithmetic: no
//! port I/O, no spinning on RTC update flags.
//!
//! Calendar conversions use Howard Hinnant's `days_from_civil` /
//! `civil_from_days` algorithms (public domain, proven in `<chrono>`).

use vstd::prelude::*;

use crate::rtc::{DateTime, Reading};
use crate::time::TIMER_HZ;

verus! {

const SECONDS_PER_DAY: i64 = 86_400;

/// A leap year of the Gregorian calendar.
pub open spec fn is_leap(year: int) -> bool {
    year % 4 == 0 && (year % 100 != 0 || year % 400 == 0)
}

/// Days in a month.
pub open spec fn month_len(year: int, month: int) -> int {
    if month == 2 {
        if is_leap(year) {
            29
        } else {
            28
        }
    } else if month == 4 || month == 6 || month == 9 || month == 11 {
        30
    } else {
        31
    }
}

/// The date exists.
pub open spec fn is_date(year: int, month: int, day: int) -> bool {
    1 <= month <= 12 && 1 <= day <= month_len(year, month)
}

/// A civil date.
pub ghost struct Date {
    pub year: int,
    pub month: int,
    pub day: int,
}

/// The day after.
pub open spec fn next_day(date: Date) -> Date {
    if date.day < month_len(date.year, date.month) {
        Date { day: date.day + 1, ..date }
    } else if date.month < 12 {
        Date { month: date.month + 1, day: 1, ..date }
    } else {
        Date { year: date.year + 1, month: 1, day: 1 }
    }
}

/// Days before the March that begins in `year`, counted from 0000-03-01.
pub open spec fn days_before_march(year: int) -> int {
    365 * year + year / 4 - year / 100 + year / 400
}

/// Months of a year that starts in March; a leap day is the last day of such a
/// year.
pub open spec fn months_from_march(month: int) -> int {
    if month <= 2 {
        month + 9
    } else {
        month - 3
    }
}

/// The year that started in the March before.
pub open spec fn year_from_march(year: int, month: int) -> int {
    if month <= 2 {
        year - 1
    } else {
        year
    }
}

/// Days before a month of a year that starts in March: 153 days in every five
/// months. The quotient is rounded toward zero.
pub open spec fn days_before_month(months: int) -> int {
    if 153 * months + 2 >= 0 {
        (153 * months + 2) / 5
    } else {
        -(-(153 * months + 2) / 5)
    }
}

/// Days from 1970-01-01 to a date.
pub open spec fn day_number(year: int, month: int, day: int) -> int {
    days_before_march(year_from_march(year, month)) + days_before_month(months_from_march(month))
        + day - 1 - 719_468
}

/// 1970-01-01 is day 0, and each day's number is one more than that of the day
/// before: the numbers count the days of the calendar.
pub proof fn law_day_numbers_count_days(date: Date)
    requires
        is_date(date.year, date.month, date.day),
    ensures
        day_number(1970, 1, 1) == 0,
        ({
            let next = next_day(date);
            &&& is_date(next.year, next.month, next.day)
            &&& day_number(next.year, next.month, next.day) == day_number(
                date.year,
                date.month,
                date.day,
            ) + 1
        }),
{
    lemma_year_length(date.year);
}

proof fn lemma_year_length(year: int)
    ensures
        days_before_march(year) - days_before_march(year - 1) == (if is_leap(year) {
            366int
        } else {
            365int
        }),
{
    lemma_multiples_step(year, 4);
    lemma_multiples_step(year, 100);
    lemma_multiples_step(year, 400);
    assert(year % 400 == 0 ==> year % 100 == 0);
    assert(year % 100 == 0 ==> year % 4 == 0);
}

/// The quotient grows by one at each multiple.
proof fn lemma_multiples_step(n: int, d: int)
    requires
        d == 4 || d == 100 || d == 400,
    ensures
        n / d - (n - 1) / d == (if n % d == 0 {
            1int
        } else {
            0int
        }),
{
    if d == 4 {
        assert(n / 4 - (n - 1) / 4 == (if n % 4 == 0 {
            1int
        } else {
            0int
        }));
    } else if d == 100 {
        assert(n / 100 - (n - 1) / 100 == (if n % 100 == 0 {
            1int
        } else {
            0int
        }));
    } else {
        assert(n / 400 - (n - 1) / 400 == (if n % 400 == 0 {
            1int
        } else {
            0int
        }));
    }
}

/// Later dates have larger numbers.
pub proof fn law_day_numbers_are_ordered(a: Date, b: Date)
    requires
        is_date(a.year, a.month, a.day),
        is_date(b.year, b.month, b.day),
        a.year < b.year || (a.year == b.year && (a.month < b.month || (a.month == b.month && a.day
            < b.day))),
    ensures
        day_number(a.year, a.month, a.day) < day_number(b.year, b.month, b.day),
{
    lemma_year_length(a.year);
    if a.year < b.year {
        let first = Date { year: a.year + 1, month: 1, day: 1 };
        lemma_years_are_ordered(a.year + 1, b.year);
        lemma_year_length(b.year);
        assert(day_number(a.year, a.month, a.day) < day_number(a.year + 1, 1, 1));
        assert(day_number(b.year, 1, 1) <= day_number(b.year, b.month, b.day));
    }
}

proof fn lemma_years_are_ordered(a: int, b: int)
    requires
        a <= b,
    ensures
        day_number(a, 1, 1) <= day_number(b, 1, 1),
    decreases b - a,
{
    if a < b {
        lemma_years_are_ordered(a, b - 1);
        lemma_year_length(b - 1);
    }
}

/// The date with a given number. Every 400 years have 146097 days.
pub open spec fn civil(days: int) -> Date {
    let z = days + 719_468;
    let era = z / 146_097;
    let doe = z % 146_097;
    let yoe = (doe - doe / 1_460 + doe / 36_524 - doe / 146_096) / 365;
    let doy = doe - (365 * yoe + yoe / 4 - yoe / 100);
    let mp = (5 * doy + 2) / 153;
    let month = if mp < 10 {
        mp + 3
    } else {
        mp - 9
    };
    Date {
        year: if month <= 2 {
            yoe + era * 400 + 1
        } else {
            yoe + era * 400
        },
        month,
        day: doy - (153 * mp + 2) / 5 + 1,
    }
}

/// A day of a 400-year era, taken apart: century, four-year group, year, day.
proof fn lemma_year_of_era(doe: int)
    requires
        0 <= doe < 146_097,
    ensures
        ({
            let yoe = (doe - doe / 1_460 + doe / 36_524 - doe / 146_096) / 365;
            &&& 0 <= yoe <= 399
            &&& days_before_march(yoe) <= doe < days_before_march(yoe + 1)
        }),
{
    let century = if doe == 146_096 {
        3
    } else {
        doe / 36_524
    };
    let in_century = doe - 36_524 * century;
    let group = in_century / 1_461;
    let in_group = in_century % 1_461;
    let year = if in_group == 1_460 {
        3
    } else {
        in_group / 365
    };
    let day = in_group - 365 * year;
    assert(0 <= century <= 3 && 0 <= group <= 24 && 0 <= year <= 3 && 0 <= day <= 365);
    assert(doe == 36_524 * century + 1_461 * group + 365 * year + day);
    let slack = 24 * century + group + 365 * year + day;
    let carry: int = if slack >= 1_460 {
        1
    } else {
        0
    };
    assert(doe == 1_460 * (25 * century + group) + slack);
    assert(doe / 1_460 == 25 * century + group + carry);
    let yoe = 100 * century + 4 * group + year;
    assert(doe - doe / 1_460 + doe / 36_524 - doe / 146_096 == 365 * yoe + day - carry);
    assert((365 * yoe + day - carry) / 365 == yoe);
    assert(yoe / 4 == 25 * century + group);
    assert(yoe / 100 == century);
    assert(yoe / 400 == 0);
    assert(days_before_march(yoe) == doe - day);
}

proof fn lemma_day_of_year(doy: int)
    requires
        0 <= doy <= 365,
    ensures
        ({
            let mp = (5 * doy + 2) / 153;
            &&& 0 <= mp <= 11
            &&& (153 * mp + 2) / 5 <= doy < (153 * (mp + 1) + 2) / 5
        }),
{
}

/// Every day number belongs to a date that exists.
pub proof fn law_every_day_has_a_date(days: int)
    ensures
        ({
            let date = civil(days);
            &&& is_date(date.year, date.month, date.day)
            &&& day_number(date.year, date.month, date.day) == days
        }),
{
    let z = days + 719_468;
    let era = z / 146_097;
    let doe = z % 146_097;
    lemma_year_of_era(doe);
    let yoe = (doe - doe / 1_460 + doe / 36_524 - doe / 146_096) / 365;
    let year = yoe + era * 400;
    lemma_era(era, yoe);
    lemma_era(era, yoe + 1);
    let doy = doe - (365 * yoe + yoe / 4 - yoe / 100);
    assert(yoe / 400 == 0);
    assert(doy == doe - days_before_march(yoe));
    lemma_year_length(yoe + 1);
    lemma_day_of_year(doy);
    assert(days == days_before_march(year) + doy - 719_468);
    assert(is_leap(year + 1) == is_leap(yoe + 1));
}

proof fn lemma_era(era: int, year: int)
    ensures
        days_before_march(year + era * 400) == days_before_march(year) + era * 146_097,
        is_leap(year + era * 400) == is_leap(year),
{
    assert((year + era * 400) / 4 == year / 4 + era * 100);
    assert((year + era * 400) / 100 == year / 100 + era * 4);
    assert((year + era * 400) / 400 == year / 400 + era);
}

/// The time exists.
pub open spec fn is_time(dt: DateTime) -> bool {
    &&& is_date(dt.year as int, dt.month as int, dt.day as int)
    &&& dt.hour < 24
    &&& dt.minute < 60
    &&& dt.second < 60
}

/// Seconds from the start of 1970 to a time.
pub open spec fn unix_time(dt: DateTime) -> int {
    day_number(dt.year as int, dt.month as int, dt.day as int) * 86_400 + dt.hour * 3600 + dt.minute
        * 60 + dt.second
}

/// The time that lies `seconds` after the start of 1970. A year takes 16 bits;
/// one that does not fit loses what lies above them.
pub open spec fn date_time(seconds: int) -> DateTime {
    let date = civil(seconds / 86_400);
    let of_day = seconds % 86_400;
    DateTime {
        year: (date.year % 0x1_0000) as u16,
        month: date.month as u8,
        day: date.day as u8,
        hour: (of_day / 3600) as u8,
        minute: (of_day % 3600 / 60) as u8,
        second: (of_day % 60) as u8,
    }
}

/// A date is the one with its own number.
pub proof fn law_dates_round_trip(date: Date)
    requires
        is_date(date.year, date.month, date.day),
    ensures
        civil(day_number(date.year, date.month, date.day)) == date,
{
    let days = day_number(date.year, date.month, date.day);
    let found = civil(days);
    law_every_day_has_a_date(days);
    if found != date {
        if found.year < date.year || (found.year == date.year && (found.month < date.month || (
        found.month == date.month && found.day < date.day))) {
            law_day_numbers_are_ordered(found, date);
        } else {
            law_day_numbers_are_ordered(date, found);
        }
    }
}

/// A time turned into seconds and back is the same time.
pub proof fn law_times_round_trip(dt: DateTime)
    requires
        is_time(dt),
    ensures
        date_time(unix_time(dt)) == dt,
{
    let date = Date { year: dt.year as int, month: dt.month as int, day: dt.day as int };
    law_dates_round_trip(date);
    let days = day_number(date.year, date.month, date.day);
    lemma_seconds_split(days, dt.hour as int, dt.minute as int, dt.second as int);
}

proof fn lemma_seconds_split(days: int, hour: int, minute: int, second: int)
    requires
        0 <= hour < 24,
        0 <= minute < 60,
        0 <= second < 60,
    ensures
        ({
            let seconds = days * 86_400 + hour * 3600 + minute * 60 + second;
            &&& seconds / 86_400 == days
            &&& seconds % 86_400 / 3600 == hour
            &&& seconds % 86_400 % 3600 / 60 == minute
            &&& seconds % 86_400 % 60 == second
        }),
{
    let of_day = hour * 3600 + minute * 60 + second;
    let seconds = days * 86_400 + of_day;
    assert(seconds / 86_400 == days && seconds % 86_400 == of_day);
    assert(of_day / 3600 == hour && of_day % 3600 == minute * 60 + second);
    assert(of_day % 60 == second);
}

/// Seconds turned into a time and back are the same seconds, for every time
/// whose year fits its field; and the time is one that exists.
pub proof fn law_seconds_round_trip(seconds: int)
    requires
        0 <= civil(seconds / 86_400).year < 0x1_0000,
    ensures
        is_time(date_time(seconds)),
        unix_time(date_time(seconds)) == seconds,
{
    let date = civil(seconds / 86_400);
    law_every_day_has_a_date(seconds / 86_400);
    lemma_seconds_on(seconds, date);
    assert(date_time(seconds) == time_on(date, seconds % 86_400));
}

/// The time that lies `of_day` seconds after the start of a day.
spec fn time_on(date: Date, of_day: int) -> DateTime {
    DateTime {
        year: (date.year % 0x1_0000) as u16,
        month: date.month as u8,
        day: date.day as u8,
        hour: (of_day / 3600) as u8,
        minute: (of_day % 3600 / 60) as u8,
        second: (of_day % 60) as u8,
    }
}

proof fn lemma_seconds_on(seconds: int, date: Date)
    requires
        0 <= date.year < 0x1_0000,
        is_date(date.year, date.month, date.day),
        day_number(date.year, date.month, date.day) == seconds / 86_400,
    ensures
        is_time(time_on(date, seconds % 86_400)),
        unix_time(time_on(date, seconds % 86_400)) == seconds,
{
    let dt = time_on(date, seconds % 86_400);
    lemma_time_of_day(seconds % 86_400);
    assert(dt.year == date.year && dt.month == date.month && dt.day == date.day);
    lemma_seconds_of(seconds, dt);
}

proof fn lemma_time_of_day(of_day: int)
    requires
        0 <= of_day < 86_400,
    ensures
        of_day / 3600 < 24,
        of_day % 3600 / 60 < 60,
        of_day == of_day / 3600 * 3600 + of_day % 3600 / 60 * 60 + of_day % 60,
{
}

/// A time whose day is known stands for its seconds.
proof fn lemma_seconds_of(seconds: int, dt: DateTime)
    requires
        is_date(dt.year as int, dt.month as int, dt.day as int),
        day_number(dt.year as int, dt.month as int, dt.day as int) == seconds / 86_400,
        dt.hour == seconds % 86_400 / 3600,
        dt.minute == seconds % 86_400 % 3600 / 60,
        dt.second == seconds % 86_400 % 60,
    ensures
        is_time(dt),
        unix_time(dt) == seconds,
{
    lemma_time_of_day(seconds % 86_400);
    let days = day_number(dt.year as int, dt.month as int, dt.day as int);
    assert(days * 86_400 + seconds % 86_400 == seconds);
}

proof fn lemma_floor(a: int, b: int)
    requires
        a < 0,
        1 < b,
    ensures
        a / b == -(-(a + 1) / b) - 1,
        a % b == b - 1 - -(a + 1) % b,
        0 <= -(a + 1) / b <= -(a + 1),
{
    let flipped = -(a + 1);
    let up = flipped / b;
    let over = flipped % b;
    vstd::arithmetic::div_mod::lemma_fundamental_div_mod(flipped, b);
    assert(a == (-up - 1) * b + (b - 1 - over)) by (nonlinear_arith)
        requires
            flipped == -(a + 1),
            flipped == b * up + over,
    ;
    vstd::arithmetic::div_mod::lemma_fundamental_div_mod_converse(a, b, -up - 1, b - 1 - over);
    vstd::arithmetic::div_mod::lemma_div_pos_is_pos(flipped, b);
    vstd::arithmetic::div_mod::lemma_div_is_ordered_by_denominator(flipped, 1, b);
}

/// The whole part of `a / b`, rounded down.
fn div_floor(a: i64, b: i64) -> (quotient: i64)
    requires
        1 < b,
    ensures
        quotient == a as int / b as int,
{
    if a >= 0 {
        a / b
    } else {
        proof {
            lemma_floor(a as int, b as int);
        }
        let flipped: i64 = -(a + 1);
        -(flipped / b) - 1
    }
}

/// What `div_floor` leaves over.
fn rem_floor(a: i64, b: i64) -> (remainder: i64)
    requires
        1 < b,
    ensures
        remainder == a as int % b as int,
{
    if a >= 0 {
        a % b
    } else {
        proof {
            lemma_floor(a as int, b as int);
        }
        let flipped: i64 = -(a + 1);
        b - 1 - flipped % b
    }
}

/// The number fits 64 bits with a sign.
pub open spec fn fits(n: int) -> bool {
    i64::MIN <= n <= i64::MAX
}

/// Every number that comes up on the way to a day number fits its type.
pub open spec fn day_number_fits(year: int, month: int, day: int) -> bool {
    let y = year_from_march(year, month);
    let mp = months_from_march(month);
    let era = y / 400;
    let yoe = y % 400;
    let doy = days_before_month(mp) + day - 1;
    let doe = 365 * yoe + yoe / 4 - yoe / 100 + doy;
    &&& fits(y)
    &&& fits(mp)
    &&& fits(153 * mp)
    &&& fits(153 * mp + 2)
    &&& fits(doy + 1)
    &&& fits(doy)
    &&& fits(era * 400)
    &&& fits(doe)
    &&& fits(era * 146_097)
    &&& fits(era * 146_097 + doe)
    &&& fits(era * 146_097 + doe - 719_468)
}

/// `n / 5`, rounded toward zero.
fn fifth(n: i64) -> (quotient: i64)
    ensures
        quotient == (if n >= 0 {
            n as int / 5
        } else {
            -(-n / 5)
        }),
{
    let down: i64 = div_floor(n, 5);
    if n < 0 && rem_floor(n, 5) != 0 {
        down + 1
    } else {
        down
    }
}

/// Days from 1970-01-01 to the given civil date.
pub fn days_from_civil(year: i64, month: i64, day: i64) -> (days: i64)
    requires
        day_number_fits(year as int, month as int, day as int),
    ensures
        days == day_number(year as int, month as int, day as int),
{
    let y: i64 = if month <= 2 {
        year - 1
    } else {
        year
    };
    let era: i64 = div_floor(y, 400);
    let yoe: i64 = y - era * 400;  // [0, 399]
    let mp: i64 = if month > 2 {
        month - 3
    } else {
        month + 9
    };
    let doy: i64 = fifth(153 * mp + 2) + day - 1;
    let doe: i64 = yoe * 365 + yoe / 4 - yoe / 100 + doy;
    proof {
        lemma_era(era as int, yoe as int);
        assert(yoe / 400 == 0);
    }
    era * 146_097 + doe - 719_468
}

/// Civil `(year, month, day)` from days since 1970-01-01.
pub fn civil_from_days(days: i64) -> (date: (i64, i64, i64))
    requires
        days + 719_468 <= i64::MAX,
        i64::MIN <= (days + 719_468) / 146_097 * 146_097,
    ensures
        (Date { year: date.0 as int, month: date.1 as int, day: date.2 as int }) == civil(
            days as int,
        ),
        is_date(date.0 as int, date.1 as int, date.2 as int),
        day_number(date.0 as int, date.1 as int, date.2 as int) == days,
{
    let z: i64 = days + 719_468;
    let era: i64 = div_floor(z, 146_097);
    let doe: i64 = z - era * 146_097;  // [0, 146096]
    proof {
        lemma_year_of_era(doe as int);
        law_every_day_has_a_date(days as int);
    }
    let yoe: i64 = (doe - doe / 1_460 + doe / 36_524 - doe / 146_096) / 365;  // [0, 399]
    let y: i64 = yoe + era * 400;
    assert(yoe / 400 == 0);
    proof {
        lemma_year_length(yoe + 1);
    }
    let doy: i64 = doe - (365 * yoe + yoe / 4 - yoe / 100);  // [0, 365]
    let mp: i64 = (5 * doy + 2) / 153;  // [0, 11]
    let day: i64 = doy - (153 * mp + 2) / 5 + 1;
    let month: i64 = if mp < 10 {
        mp + 3
    } else {
        mp - 9
    };
    (if month <= 2 {
        y + 1
    } else {
        y
    }, month, day)
}

/// Seconds from the start of 1970 to a time.
pub fn to_unix_seconds(dt: DateTime) -> (seconds: i64)
    ensures
        seconds == unix_time(dt),
{
    days_from_civil(dt.year as i64, dt.month as i64, dt.day as i64) * SECONDS_PER_DAY
        + dt.hour as i64 * 3600 + dt.minute as i64 * 60 + dt.second as i64
}

/// The time that lies `seconds` after the start of 1970.
pub fn from_unix_seconds(seconds: i64) -> (dt: DateTime)
    ensures
        dt == date_time(seconds as int),
{
    let days: i64 = div_floor(seconds, SECONDS_PER_DAY);
    let seconds_of_day: i64 = rem_floor(seconds, SECONDS_PER_DAY);
    let (year, month, day): (i64, i64, i64) = civil_from_days(days);
    let kept: i64 = rem_floor(year, 0x1_0000);
    DateTime {
        year: kept as u16,
        month: month as u8,
        day: day as u8,
        hour: (seconds_of_day / 3600) as u8,
        minute: (seconds_of_day % 3600 / 60) as u8,
        second: (seconds_of_day % 60) as u8,
    }
}

/// The wall-clock time and tick count captured together at boot.
#[derive(Debug, Clone, Copy, PartialEq, Eq, Structural)]
pub struct BootReference {
    pub unix_seconds: i64,
    pub ticks: u64,
}

/// The kernel's clock: a reference point, once it is seeded.
#[derive(Debug, Clone, Copy, PartialEq, Eq, Structural)]
pub struct Clock {
    pub reference: Option<BootReference>,
}

impl Clock {
    /// The reference is a time that a [`DateTime`] can hold.
    pub open spec fn wf(&self) -> bool {
        self.reference matches Some(reference) ==> -0x1000_0000_0000 <= reference.unix_seconds
            <= 0x1000_0000_0000
    }

    /// A clock that was never seeded.
    pub fn new() -> (clock: Clock)
        ensures
            clock.wf(),
            clock.reference is None,
    {
        Clock { reference: None }
    }
}

impl Clock {
    /// The clock can be seeded: it was not yet.
    pub open spec fn can_seed(&self) -> bool {
        self.reference is None
    }

    /// The clock once it is seeded.
    pub open spec fn seeded(reading: DateTime, ticks: u64) -> Clock {
        Clock {
            reference: Some(BootReference { unix_seconds: unix_time(reading) as i64, ticks }),
        }
    }

    /// The time that the clock tells at `ticks`, in seconds from the start of
    /// 1970.
    pub open spec fn seconds_at(&self, ticks: u64) -> Option<int> {
        match self.reference {
            None => None,
            Some(reference) => Some(
                reference.unix_seconds + (ticks - reference.ticks) / (TIMER_HZ as int),
            ),
        }
    }

    /// Begins to read the RTC in order to seed the clock. There is nothing to
    /// read for a clock that was seeded before.
    pub fn begin(&self) -> (reading: Option<Reading>)
        ensures
            reading is Some <==> self.can_seed(),
            reading matches Some(begun) ==> begun.wf(),
            reading matches Some(begun) ==> forall|values: crate::rtc::Values|
                #![trigger begun.rest(values, 0)]
                begun.rest(values, 0) == crate::rtc::reading(values),
    {
        if self.reference.is_some() {
            None
        } else {
            Some(crate::rtc::read())
        }
    }
}

/// Seeds the clock from a reading of the RTC, taken at `ticks`. Called once
/// during kernel init, after the PIT has started ticking.
pub fn init(clock: &mut Clock, reading: DateTime, ticks: u64)
    requires
        old(clock).can_seed(),
    ensures
        final(clock).wf(),
        *final(clock) == Clock::seeded(reading, ticks),
        final(clock).seconds_at(ticks) == Some(unix_time(reading)),
{
    clock.reference = Some(BootReference { unix_seconds: to_unix_seconds(reading), ticks });
}

/// The wall-clock time (UTC) at `ticks`, advanced from the boot reference by
/// the ticks elapsed since. Nothing if the clock was never seeded: the RTC
/// itself has to be asked then.
pub fn now(clock: &Clock, ticks: u64) -> (time: Option<DateTime>)
    requires
        clock.wf(),
        clock.reference matches Some(reference) ==> reference.ticks <= ticks,
    ensures
        time == (match clock.seconds_at(ticks) {
            None => None,
            Some(seconds) => Some(date_time(seconds)),
        }),
{
    match clock.reference {
        None => None,
        Some(reference) => {
            let elapsed_seconds: u64 = (ticks - reference.ticks) / TIMER_HZ;
            Some(from_unix_seconds(reference.unix_seconds + elapsed_seconds as i64))
        },
    }
}

/// The states of a clock, one after another: each is like the one before, or
/// comes of it by seeding.
pub open spec fn is_clock_run(run: Seq<Clock>) -> bool {
    forall|i: int|
        0 <= i < run.len() - 1 ==> clock_step(#[trigger] run[i], run[i + 1])
}

/// One step of a clock.
pub open spec fn clock_step(before: Clock, after: Clock) -> bool {
    ||| after == before
    ||| before.can_seed() && exists|reading: DateTime, ticks: u64|
        after == Clock::seeded(reading, ticks)
}

/// A clock is seeded once. From then on it cannot be seeded again, so that the
/// RTC is not read again for it; its reference stays, and so does the time that
/// it tells at given ticks.
pub proof fn law_clock_is_seeded_once(run: Seq<Clock>, i: int, j: int, ticks: u64)
    requires
        is_clock_run(run),
        0 <= i <= j < run.len(),
        !run[i].can_seed(),
    ensures
        !run[j].can_seed(),
        run[j].reference == run[i].reference,
        run[j].seconds_at(ticks) == run[i].seconds_at(ticks),
    decreases j - i,
{
    if i < j {
        law_clock_is_seeded_once(run, i, j - 1, ticks);
        assert(clock_step(run[j - 1], run[j - 1 + 1]));
    }
}

/// The first time is later than the second.
pub open spec fn is_after(a: DateTime, b: DateTime) -> bool {
    ||| a.year > b.year
    ||| a.year == b.year && a.month > b.month
    ||| a.year == b.year && a.month == b.month && a.day > b.day
    ||| a.year == b.year && a.month == b.month && a.day == b.day && (a.hour > b.hour || (a.hour
        == b.hour && (a.minute > b.minute || (a.minute == b.minute && a.second > b.second))))
}

/// Time does not run back: what the clock tells is never earlier than what it
/// told before, for times whose years fit their field.
pub proof fn law_time_does_not_run_back(clock: Clock, earlier: u64, later: u64)
    requires
        clock.reference matches Some(reference) && reference.ticks <= earlier <= later,
        0 <= civil(clock.seconds_at(earlier)->0 / 86_400).year,
        civil(clock.seconds_at(later)->0 / 86_400).year < 0x1_0000,
    ensures
        clock.seconds_at(earlier)->0 <= clock.seconds_at(later)->0,
        !is_after(date_time(clock.seconds_at(earlier)->0), date_time(clock.seconds_at(later)->0)),
{
    let reference = clock.reference->0;
    let first = clock.seconds_at(earlier)->0;
    let second = clock.seconds_at(later)->0;
    assert((earlier - reference.ticks) / 100 <= (later - reference.ticks) / 100);
    assert(first / 86_400 <= second / 86_400);
    lemma_years_grow(first / 86_400, second / 86_400);
    law_seconds_round_trip(first);
    law_seconds_round_trip(second);
    let a = date_time(first);
    let b = date_time(second);
    if is_after(a, b) {
        lemma_later_is_more(b, a);
    }
}

proof fn lemma_years_grow(a: int, b: int)
    requires
        a <= b,
    ensures
        civil(a).year <= civil(b).year,
{
    law_every_day_has_a_date(a);
    law_every_day_has_a_date(b);
    lemma_dates_grow(civil(a), civil(b));
}

proof fn lemma_dates_grow(a: Date, b: Date)
    requires
        is_date(a.year, a.month, a.day),
        is_date(b.year, b.month, b.day),
        day_number(a.year, a.month, a.day) <= day_number(b.year, b.month, b.day),
    ensures
        a.year <= b.year,
{
    if b.year < a.year {
        law_day_numbers_are_ordered(b, a);
    }
}

proof fn lemma_later_is_more(a: DateTime, b: DateTime)
    requires
        is_time(a),
        is_time(b),
        is_after(b, a),
    ensures
        unix_time(a) < unix_time(b),
{
    let first = Date { year: a.year as int, month: a.month as int, day: a.day as int };
    let second = Date { year: b.year as int, month: b.month as int, day: b.day as int };
    if first != second {
        law_day_numbers_are_ordered(first, second);
        let m = day_number(first.year, first.month, first.day);
        let n = day_number(second.year, second.month, second.day);
        assert(m + 1 <= n);
    }
}

/// The calendar is the Gregorian one: thirty days hath September, April, June and
/// November, all the rest have thirty-one, but for February, which has
/// twenty-eight, and one more in a year that four divides, unless a hundred
/// divides it and four hundred does not.
pub proof fn law_months_have_their_lengths(year: int)
    ensures
        ({
            let leap = year % 400 == 0 || (year % 4 == 0 && year % 100 != 0);
            let start = |month: int| day_number(year, month, 1);
            &&& start(2) - start(1) == 31
            &&& start(3) - start(2) == (if leap {
                29int
            } else {
                28int
            })
            &&& start(4) - start(3) == 31
            &&& start(5) - start(4) == 30
            &&& start(6) - start(5) == 31
            &&& start(7) - start(6) == 30
            &&& start(8) - start(7) == 31
            &&& start(9) - start(8) == 31
            &&& start(10) - start(9) == 30
            &&& start(11) - start(10) == 31
            &&& start(12) - start(11) == 30
            &&& day_number(year + 1, 1, 1) - start(12) == 31
            &&& day_number(year + 1, 1, 1) - start(1) == (if leap {
                366int
            } else {
                365int
            })
            &&& forall|month: int, day: int| #[trigger]
                day_number(year, month, day) == day_number(year, month, 1) + day - 1
        }),
{
    lemma_year_length(year);
    assert(year % 400 == 0 ==> year % 100 == 0);
    assert(year % 100 == 0 ==> year % 4 == 0);
    assert(is_leap(year) <==> year % 400 == 0 || (year % 4 == 0 && year % 100 != 0));
}

/// The time one second later.
pub open spec fn next_second(dt: DateTime) -> DateTime {
    if dt.second < 59 {
        DateTime { second: (dt.second + 1) as u8, ..dt }
    } else if dt.minute < 59 {
        DateTime { minute: (dt.minute + 1) as u8, second: 0, ..dt }
    } else if dt.hour < 23 {
        DateTime { hour: (dt.hour + 1) as u8, minute: 0, second: 0, ..dt }
    } else {
        let date = next_day(
            Date { year: dt.year as int, month: dt.month as int, day: dt.day as int },
        );
        DateTime {
            year: date.year as u16,
            month: date.month as u8,
            day: date.day as u8,
            hour: 0,
            minute: 0,
            second: 0,
        }
    }
}

/// Seconds are counted one by one, from the first of 1970 on: the count of the
/// next second is one more, through the end of every minute, hour, day, month and
/// year.
pub proof fn law_seconds_are_counted(dt: DateTime)
    requires
        is_time(dt),
        dt.year < 65_535,
    ensures
        is_time(next_second(dt)),
        unix_time(next_second(dt)) == unix_time(dt) + 1,
        date_time(unix_time(dt) + 1) == next_second(dt),
        unix_time(
            DateTime { year: 1970, month: 1, day: 1, hour: 0, minute: 0, second: 0 },
        ) == 0,
{
    let date = Date { year: dt.year as int, month: dt.month as int, day: dt.day as int };
    law_day_numbers_count_days(date);
    let next = next_day(date);
    let after = next_second(dt);
    assert(0 <= next.year < 0x1_0000);
    let today = day_number(date.year, date.month, date.day);
    if dt.second == 59 && dt.minute == 59 && dt.hour == 23 {
        assert(after.year == next.year && after.month == next.month && after.day == next.day);
        assert(day_number(after.year as int, after.month as int, after.day as int) == today + 1);
    } else {
        assert(day_number(after.year as int, after.month as int, after.day as int) == today);
    }
    law_times_round_trip(after);
}

/// The clock goes with the ticks, a hundred of which make a second. At the ticks
/// that it was seeded at it tells the time that it was seeded with; a hundred
/// ticks later it tells one second more; and it tells no other time before them.
pub proof fn law_the_clock_goes_with_the_ticks(
    reading: DateTime,
    ticks: u64,
    seconds: nat,
    part: nat,
)
    requires
        part < 100,
        ticks + 100 * seconds + part <= u64::MAX,
    ensures
        ({
            let clock = Clock::seeded(reading, ticks);
            let later = (ticks + 100 * seconds + part) as u64;
            clock.seconds_at(later) == Some(unix_time(reading) + seconds)
        }),
{
    let later = (ticks + 100 * seconds + part) as u64;
    assert(later - ticks == 100 * seconds + part);
    assert((100 * seconds + part) / 100 == seconds);
    assert(-0x1000_0000_0000 <= unix_time(reading) <= 0x1000_0000_0000) by {
        lemma_readings_fit(reading);
    }
}

proof fn lemma_readings_fit(reading: DateTime)
    ensures
        -0x1000_0000_0000 <= unix_time(reading) <= 0x1000_0000_0000,
{
}

} // verus!
