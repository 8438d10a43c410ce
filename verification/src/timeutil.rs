//! Timestamps of the form `YYYY-MM-DDThh:mm:ssZ`.

use vstd::prelude::*;

verus! {

/// The fields of a timestamp.
pub struct Stamp {
    pub year: int,
    pub month: int,
    pub day: int,
    pub hour: int,
    pub minute: int,
    pub second: int,
}

/// The value of the digit at `i`: how far the byte lies above `'0'`, modulo 256.
pub open spec fn digit(b: Seq<u8>, i: int) -> int {
    (b[i] - 0x30) % 0x100
}

/// The two digits at `i` as a number.
pub open spec fn two_digits(b: Seq<u8>, i: int) -> int {
    10 * digit(b, i) + digit(b, i + 1)
}

/// The fields of a timestamp, taken from their fixed positions.
pub open spec fn stamp(b: Seq<u8>) -> Stamp {
    Stamp {
        year: 100 * two_digits(b, 0) + two_digits(b, 2),
        month: two_digits(b, 5),
        day: two_digits(b, 8),
        hour: two_digits(b, 11),
        minute: two_digits(b, 14),
        second: two_digits(b, 17),
    }
}

/// Days from 1970-01-01 to a date. The year is counted from March, so that the leap day
/// comes last; the months from there on are of 31, 30, 31, 30, 31 days and again.
pub open spec fn civil_days(y: int, m: int, d: int) -> int {
    let yy = if m <= 2 {
        y - 1
    } else {
        y
    };
    let mm = if m <= 2 {
        m + 9
    } else {
        m - 3
    };
    365 * yy + yy / 4 - yy / 100 + yy / 400 + (153 * mm + 2) / 5 + d - 1 - 719468
}

/// Seconds from the start of 1970 to a timestamp.
pub open spec fn epoch_seconds(t: Stamp) -> int {
    86400 * civil_days(t.year, t.month, t.day) + 3600 * t.hour + 60 * t.minute + t.second
}

/// Day of the week of a timestamp, Monday being 0. The first day of 1970 was a Thursday.
pub open spec fn weekday(t: Stamp) -> int {
    (civil_days(t.year, t.month, t.day) + 3) % 7
}

/// Days from 1970-01-01 to a date.
fn days_from_civil(y: i64, m: i64, d: i64) -> (days: i64)
    requires
        -10_000_000_000_000_000 <= y <= 10_000_000_000_000_000,
        0 <= m <= 10_000_000_000_000_000,
        -10_000_000_000_000_000 <= d <= 10_000_000_000_000_000,
    ensures
        days == civil_days(y as int, m as int, d as int),
{
    let y: i64 = if m <= 2 {
        y - 1
    } else {
        y
    };
    let era: i64 = if y >= 0 {
        y / 400
    } else {
        (y - 399) / 400
    };
    assert(era == y as int / 400);
    let yoe: i64 = y - era * 400;
    let mp: i64 = if m > 2 {
        m - 3
    } else {
        m + 9
    };
    let doy: i64 = (153 * mp + 2) / 5 + d - 1;
    let doe: i64 = yoe * 365 + yoe / 4 - yoe / 100 + doy;
    era * 146097 + doe - 719468
}

/// Day of the week, Monday being 0, of a day counted from 1970-01-01.
fn weekday_of(days: i64) -> (dow: u32)
    ensures
        dow == (days + 3) % 7,
{
    let wd_sun0: i64 = ((days % 7) + 4) % 7;
    ((wd_sun0 + 6) % 7) as u32
}

fn digit_at(b: &[u8], i: usize) -> (d: i64)
    requires
        i < b.len(),
    ensures
        d == digit(b@, i as int),
        0 <= d < 0x100,
{
    b[i].wrapping_sub(0x30) as i64
}

/// Reads a timestamp from its fixed positions, whatever stands between them. Returns the
/// seconds from the start of 1970, the hour, and the day of the week, Monday being 0;
/// `None` if the text is shorter than a timestamp without its zone.
pub fn parse_iso(s: &str) -> (r: Option<(i64, u32, u32)>)
    ensures
        r is Some <==> vstd::utf8::encode_utf8(s@).len() >= 19,
        r matches Some(t) ==> {
            let at = stamp(vstd::utf8::encode_utf8(s@));
            t.0 == epoch_seconds(at) && t.1 == at.hour && t.2 == weekday(at)
        },
        r matches Some(t) ==> -1_000_000_000_000 <= t.0 <= 100_000_000_000_000,
{
    let b = s.as_bytes();
    if b.len() < 19 {
        return None;
    }
    let year: i64 = digit_at(b, 0) * 1000 + digit_at(b, 1) * 100 + digit_at(b, 2) * 10 + digit_at(
        b,
        3,
    );
    let month: i64 = digit_at(b, 5) * 10 + digit_at(b, 6);
    let day: i64 = digit_at(b, 8) * 10 + digit_at(b, 9);
    let hour: i64 = digit_at(b, 11) * 10 + digit_at(b, 12);
    let min: i64 = digit_at(b, 14) * 10 + digit_at(b, 15);
    let sec: i64 = digit_at(b, 17) * 10 + digit_at(b, 18);

    let days = days_from_civil(year, month, day);
    assert(-1_000_000 <= days <= 200_000_000);
    let epoch: i64 = days * 86400 + hour * 3600 + min * 60 + sec;
    Some((epoch, hour as u32, weekday_of(days)))
}

/// The Gregorian leap years.
pub open spec fn is_leap(y: int) -> bool {
    y % 4 == 0 && (y % 100 != 0 || y % 400 == 0)
}

/// Days of a year.
pub open spec fn year_len(y: int) -> int {
    if is_leap(y) {
        366
    } else {
        365
    }
}

/// Days of a month.
pub open spec fn month_len(y: int, m: int) -> int {
    if m == 2 {
        if is_leap(y) {
            29
        } else {
            28
        }
    } else if m == 4 || m == 6 || m == 9 || m == 11 {
        30
    } else {
        31
    }
}

/// Days of the years from 0 up to but without `y`.
pub open spec fn days_before_year(y: int) -> int
    decreases y,
{
    if y <= 0 {
        0
    } else {
        days_before_year(y - 1) + year_len(y - 1)
    }
}

/// Days of the months of `y` up to but without `m`.
pub open spec fn days_before_month(y: int, m: int) -> int
    decreases m,
{
    if m <= 1 {
        0
    } else {
        days_before_month(y, m - 1) + month_len(y, m - 1)
    }
}

/// A date of the Gregorian calendar, carried on into all years.
pub open spec fn is_date(y: int, m: int, d: int) -> bool {
    1 <= m <= 12 && 1 <= d <= month_len(y, m)
}

/// The date of the next day.
pub open spec fn next_day(y: int, m: int, d: int) -> (int, int, int) {
    if d < month_len(y, m) {
        (y, m, d + 1)
    } else if m < 12 {
        (y, m + 1, 1)
    } else {
        (y + 1, 1, 1)
    }
}

/// Days from the start of the year 0 to a date, counted year by year and month by month.
pub open spec fn days_counted(y: int, m: int, d: int) -> int {
    days_before_year(y) + days_before_month(y, m) + d - 1
}

proof fn years_in_closed_form(y: int)
    requires
        0 <= y,
    ensures
        days_before_year(y) == 365 * y + (y - 1) / 4 - (y - 1) / 100 + (y - 1) / 400 + 1,
    decreases y,
{
    if y > 0 {
        years_in_closed_form(y - 1);
    }
}

proof fn months_in_closed_form(y: int, m: int)
    requires
        1 <= m <= 12,
    ensures
        days_before_month(y, m) == if m <= 2 {
            (153 * (m + 9) + 2) / 5 - 306
        } else {
            (153 * (m - 3) + 2) / 5 + 31 + month_len(y, 2)
        },
{
    reveal_with_fuel(days_before_month, 13);
}

/// The next day has one day more, across every end of a month or a year, in all years.
pub proof fn next_day_is_one_more(y: int, m: int, d: int)
    requires
        is_date(y, m, d),
    ensures
        ({
            let (z, n, e) = next_day(y, m, d);
            is_date(z, n, e) && civil_days(z, n, e) == civil_days(y, m, d) + 1
        }),
{
    if d == month_len(y, m) && m == 2 {
        leap_days_are_counted(y);
    }
}

proof fn leap_days_are_counted(y: int)
    ensures
        y / 4 - y / 100 + y / 400 == (y - 1) / 4 - (y - 1) / 100 + (y - 1) / 400 + if is_leap(y) {
            1int
        } else {
            0
        },
{
}

/// After 400 years the calendar repeats: they have 146097 days, whatever the year.
pub proof fn calendar_repeats(y: int, m: int, d: int)
    ensures
        civil_days(y + 400, m, d) == civil_days(y, m, d) + 146097,
        is_date(y + 400, m, d) == is_date(y, m, d),
{
    leap_years_repeat(y);
    leap_years_repeat(y - 1);
}

proof fn leap_years_repeat(y: int)
    ensures
        (y + 400) / 4 == y / 4 + 100,
        (y + 400) / 100 == y / 100 + 4,
        (y + 400) / 400 == y / 400 + 1,
        is_leap(y + 400) == is_leap(y),
{
    assert((y + 400) / 4 == y / 4 + 100 && (y + 400) % 4 == y % 4);
    assert((y + 400) / 100 == y / 100 + 4 && (y + 400) % 100 == y % 100);
    assert((y + 400) / 400 == y / 400 + 1 && (y + 400) % 400 == y % 400);
}

/// For every date from the year 0 on the number of days is the one that counting gives.
pub proof fn civil_days_count(y: int, m: int, d: int)
    requires
        0 <= y,
        is_date(y, m, d),
    ensures
        civil_days(y, m, d) == days_counted(y, m, d) - days_counted(1970, 1, 1),
{
    years_in_closed_form(y);
    years_in_closed_form(1970);
    months_in_closed_form(y, m);
    months_in_closed_form(1970, 1);
}

proof fn later_year(y: int, z: int)
    requires
        0 <= y < z,
    ensures
        days_before_year(y) + year_len(y) <= days_before_year(z),
    decreases z,
{
    if y < z - 1 {
        later_year(y, z - 1);
    }
}

proof fn later_month(y: int, m: int, n: int)
    requires
        1 <= m < n,
    ensures
        days_before_month(y, m) + month_len(y, m) <= days_before_month(y, n),
    decreases n,
{
    if m < n - 1 {
        later_month(y, m, n - 1);
    }
}

/// A later date has more days, in all years.
pub proof fn later_date_has_more_days(y: int, m: int, d: int, z: int, n: int, e: int)
    requires
        is_date(y, m, d),
        is_date(z, n, e),
        y < z || (y == z && m < n) || (y == z && m == n && d < e),
    ensures
        civil_days(y, m, d) < civil_days(z, n, e),
    decreases
            if y < 0 {
                -y
            } else {
                0
            },
{
    if y < 0 {
        calendar_repeats(y, m, d);
        calendar_repeats(z, n, e);
        later_date_has_more_days(y + 400, m, d, z + 400, n, e);
    } else {
        later_date_from_year_zero(y, m, d, z, n, e);
    }
}

proof fn later_date_from_year_zero(y: int, m: int, d: int, z: int, n: int, e: int)
    requires
        0 <= y,
        is_date(y, m, d),
        is_date(z, n, e),
        y < z || (y == z && m < n) || (y == z && m == n && d < e),
    ensures
        civil_days(y, m, d) < civil_days(z, n, e),
{
    civil_days_count(y, m, d);
    civil_days_count(z, n, e);
    if y < z {
        later_year(y, z);
        later_month(y, m, 13);
        reveal_with_fuel(days_before_month, 14);
        assert(days_before_month(y, 13) == year_len(y));
        months_in_closed_form(z, n);
    } else if m < n {
        later_month(y, m, n);
    }
}

/// A timestamp whose fields are a date and a time of day.
pub open spec fn is_stamp(t: Stamp) -> bool {
    is_date(t.year, t.month, t.day) && 0 <= t.hour < 24 && 0 <= t.minute < 60 && 0 <= t.second < 60
}

/// The seconds of a timestamp tell its day, its hour and its day of the week.
pub proof fn seconds_tell_hour_and_weekday(t: Stamp)
    requires
        is_stamp(t),
    ensures
        epoch_seconds(t) / 86400 == civil_days(t.year, t.month, t.day),
        epoch_seconds(t) % 86400 / 3600 == t.hour,
        weekday(t) == (epoch_seconds(t) / 86400 + 3) % 7,
{
}

/// The tens of `x` as an ASCII digit.
pub open spec fn tens(x: int) -> u8 {
    (0x30 + x / 10) as u8
}

/// The ones of `x` as an ASCII digit.
pub open spec fn ones(x: int) -> u8 {
    (0x30 + x % 10) as u8
}

/// A timestamp as text, in the form `YYYY-MM-DDThh:mm:ssZ`.
pub open spec fn written(t: Stamp) -> Seq<u8> {
    seq![
        tens(t.year / 100),
        ones(t.year / 100),
        tens(t.year % 100),
        ones(t.year % 100),
        0x2d,
        tens(t.month),
        ones(t.month),
        0x2d,
        tens(t.day),
        ones(t.day),
        0x54,
        tens(t.hour),
        ones(t.hour),
        0x3a,
        tens(t.minute),
        ones(t.minute),
        0x3a,
        tens(t.second),
        ones(t.second),
        0x5a,
    ]
}

proof fn digits_are_read_back(b: Seq<u8>, i: int, x: int)
    requires
        0 <= x < 100,
        b[i] == tens(x),
        b[i + 1] == ones(x),
    ensures
        two_digits(b, i) == x,
{
}

/// A timestamp that was written is read back as it was.
pub proof fn stamp_is_read_back(t: Stamp)
    requires
        is_stamp(t),
        0 <= t.year <= 9999,
    ensures
        written(t).len() >= 19,
        stamp(written(t)) == t,
{
    let b = written(t);
    assert(two_digits(b, 0) == t.year / 100) by {
        digits_are_read_back(b, 0, t.year / 100);
    }
    assert(two_digits(b, 2) == t.year % 100) by {
        digits_are_read_back(b, 2, t.year % 100);
    }
    assert(two_digits(b, 5) == t.month) by {
        digits_are_read_back(b, 5, t.month);
    }
    assert(two_digits(b, 8) == t.day) by {
        digits_are_read_back(b, 8, t.day);
    }
    assert(two_digits(b, 11) == t.hour) by {
        digits_are_read_back(b, 11, t.hour);
    }
    assert(two_digits(b, 14) == t.minute) by {
        digits_are_read_back(b, 14, t.minute);
    }
    assert(two_digits(b, 17) == t.second) by {
        digits_are_read_back(b, 17, t.second);
    }
}

/// Where each field of a timestamp stands, and what its digits are worth. A byte below the
/// digits counts as 256 more than it is.
pub proof fn fields_stand_in_their_places(b: Seq<u8>)
    requires
        b.len() >= 19,
    ensures
        ({
            let v = |i: int|
                if b[i] >= 0x30 {
                    b[i] - 0x30
                } else {
                    b[i] + 208
                };
            let t = stamp(b);
            &&& t.year == 1000 * v(0) + 100 * v(1) + 10 * v(2) + v(3)
            &&& t.month == 10 * v(5) + v(6)
            &&& t.day == 10 * v(8) + v(9)
            &&& t.hour == 10 * v(11) + v(12)
            &&& t.minute == 10 * v(14) + v(15)
            &&& t.second == 10 * v(17) + v(18)
        }),
{
    assert forall|i: int| digit(b, i) == if b[i] >= 0x30 {
        b[i] - 0x30
    } else {
        b[i] + 208
    } by {}
}

/// The seconds of a timestamp tell its hour, its minute and its second.
pub proof fn seconds_tell_the_time_of_day(t: Stamp)
    requires
        is_stamp(t),
    ensures
        epoch_seconds(t) % 86400 / 3600 == t.hour,
        epoch_seconds(t) % 3600 / 60 == t.minute,
        epoch_seconds(t) % 60 == t.second,
{
    parts_of_seconds(civil_days(t.year, t.month, t.day), t.hour, t.minute, t.second);
}

proof fn parts_of_seconds(days: int, hour: int, minute: int, second: int)
    requires
        0 <= hour < 24,
        0 <= minute < 60,
        0 <= second < 60,
    ensures
        (86400 * days + 3600 * hour + 60 * minute + second) % 86400 / 3600 == hour,
        (86400 * days + 3600 * hour + 60 * minute + second) % 3600 / 60 == minute,
        (86400 * days + 3600 * hour + 60 * minute + second) % 60 == second,
{
    let e = 86400 * days + 3600 * hour + 60 * minute + second;
    assert(e % 86400 == 3600 * hour + 60 * minute + second);
    assert(e % 3600 == 60 * minute + second);
    assert(e % 60 == second);
}

/// How far apart two timestamps are: a second, a minute, an hour and a day more make 1, 60,
/// 3600 and 86400 seconds more, and the first moment of 1970 is second 0. This is so for
/// fields out of their range too.
pub proof fn seconds_count_the_fields(t: Stamp, u: Stamp)
    ensures
        t.year == u.year && t.month == u.month ==> epoch_seconds(u) - epoch_seconds(t) == 86400 * (
        u.day - t.day) + 3600 * (u.hour - t.hour) + 60 * (u.minute - t.minute) + (u.second
            - t.second),
        t.hour == u.hour && t.minute == u.minute && t.second == u.second ==> epoch_seconds(u)
            - epoch_seconds(t) == 86400 * (civil_days(u.year, u.month, u.day) - civil_days(
            t.year,
            t.month,
            t.day,
        )),
        t.year == 1970 && t.month == 1 && t.day == 1 && t.hour == 0 && t.minute == 0 && t.second
            == 0 ==> epoch_seconds(t) == 0,
{
}

/// How many days lie between dates of one year: those of the months between them. March
/// starts 29 days after February in a leap year and 28 after it in another; behind
/// December months go on in the same way, five of them having 153 days, and month 0 is the
/// December of the year before.
pub proof fn days_count_the_months(y: int, m: int, d: int, e: int)
    ensures
        civil_days(y, m, e) - civil_days(y, m, d) == e - d,
        civil_days(y, 0, d) == civil_days(y - 1, 12, d),
        civil_days(y, 2, d) == civil_days(y, 1, d) + 31,
        civil_days(y, 3, d) == civil_days(y, 2, d) + if y % 4 == 0 && (y % 100 != 0 || y % 400
            == 0) {
            29int
        } else {
            28
        },
        civil_days(y, 4, d) == civil_days(y, 3, d) + 31,
        civil_days(y, 5, d) == civil_days(y, 4, d) + 30,
        civil_days(y, 6, d) == civil_days(y, 5, d) + 31,
        civil_days(y, 7, d) == civil_days(y, 6, d) + 30,
        civil_days(y, 8, d) == civil_days(y, 7, d) + 31,
        m >= 3 ==> civil_days(y, m + 5, d) == civil_days(y, m, d) + 153,
        civil_days(y + 1, 1, d) == civil_days(y, 12, d) + 31,
        civil_days(1970, 1, 1) == 0,
{
    leap_days_are_counted(y);
}

/// The days of the week follow each other, and 1970 started with a Thursday.
pub proof fn weekdays_take_turns(t: Stamp, u: Stamp)
    ensures
        0 <= weekday(t) < 7,
        (weekday(u) - weekday(t) - (civil_days(u.year, u.month, u.day) - civil_days(
            t.year,
            t.month,
            t.day,
        ))) % 7 == 0,
        t.year == 1970 && t.month == 1 && t.day == 1 ==> weekday(t) == 3,
{
}

} // verus!
