//! Calendar dates and timestamps as plain values.
//!
//! The registry dump carries its publication instant as
//! `YYYY-MM-DD HH:MM:SS +HHMM` and each order date as `YYYY-MM-DD`.
//! Both are modeled directly as year/month/day (and time-of-day)
//! fields with a calendar validity invariant, so that parsing and the
//! conversion of the offset-aware instant to UTC are verified. The
//! offset is at most a day, so the conversion shifts the calendar date
//! by at most one day in either direction.

use vstd::prelude::*;
use vstd::string::StrSliceExecFns;

use crate::text::{digit_val, is_digit};

verus! {

/// A calendar date: year, month, day.
#[derive(Clone, Copy, PartialEq, Eq, Structural, Debug)]
pub struct Date {
    pub year: i32,
    pub month: u8,
    pub day: u8,
}

/// A date with a time of day, no offset attached.
#[derive(Clone, Copy, PartialEq, Eq, Structural, Debug)]
pub struct DateTime {
    pub date: Date,
    pub hour: u8,
    pub minute: u8,
    pub second: u8,
}

/// Whether `year` is a leap year in the proleptic Gregorian calendar.
pub open spec fn spec_is_leap_year(year: int) -> bool {
    year % 4 == 0 && (year % 100 != 0 || year % 400 == 0)
}

/// Number of days in `month` of `year`.
pub open spec fn spec_days_in_month(year: int, month: int) -> int {
    if month == 2 {
        if spec_is_leap_year(year) {
            29
        } else {
            28
        }
    } else if month == 4 || month == 6 || month == 9 || month == 11 {
        30
    } else {
        31
    }
}

/// A valid calendar date: month in 1..=12, day within the month.
pub open spec fn date_valid(d: Date) -> bool {
    1 <= d.month <= 12 && 1 <= d.day <= spec_days_in_month(d.year as int, d.month as int)
}

/// A valid timestamp: valid date, time-of-day fields in range.
pub open spec fn datetime_valid(dt: DateTime) -> bool {
    date_valid(dt.date) && dt.hour <= 23 && dt.minute <= 59 && dt.second <= 59
}

/// The day after `d`.
pub open spec fn spec_next_day(d: Date) -> Date {
    if d.day < spec_days_in_month(d.year as int, d.month as int) {
        Date { year: d.year, month: d.month, day: (d.day + 1) as u8 }
    } else if d.month < 12 {
        Date { year: d.year, month: (d.month + 1) as u8, day: 1 }
    } else {
        Date { year: (d.year + 1) as i32, month: 1, day: 1 }
    }
}

/// The day before `d`.
pub open spec fn spec_prev_day(d: Date) -> Date {
    if d.day > 1 {
        Date { year: d.year, month: d.month, day: (d.day - 1) as u8 }
    } else if d.month > 1 {
        Date {
            year: d.year,
            month: (d.month - 1) as u8,
            day: spec_days_in_month(d.year as int, d.month - 1) as u8,
        }
    } else {
        Date { year: (d.year - 1) as i32, month: 12, day: 31 }
    }
}

/// Stepping a valid date forward yields a valid date.
pub proof fn lemma_next_day_valid(d: Date)
    requires
        date_valid(d),
        d.year < 0x7fff_ffff,
    ensures
        date_valid(spec_next_day(d)),
{
}

/// Stepping a valid date back yields a valid date.
pub proof fn lemma_prev_day_valid(d: Date)
    requires
        date_valid(d),
        d.year > -0x8000_0000,
    ensures
        date_valid(spec_prev_day(d)),
{
}

/// The timestamp `dt`, read in the UTC offset given as sign and
/// hour/minute magnitudes, converted to UTC: minutes are shifted by
/// the offset and the date moves by at most one day.
pub open spec fn spec_to_utc(dt: DateTime, neg: bool, oh: int, om: int) -> DateTime {
    let local = dt.hour * 60 + dt.minute;
    let off = oh * 60 + om;
    let total = if neg {
        local + off
    } else {
        local - off
    };
    if total < 0 {
        let t = total + 1440;
        DateTime {
            date: spec_prev_day(dt.date),
            hour: (t / 60) as u8,
            minute: (t % 60) as u8,
            second: dt.second,
        }
    } else if total >= 1440 {
        let t = total - 1440;
        DateTime {
            date: spec_next_day(dt.date),
            hour: (t / 60) as u8,
            minute: (t % 60) as u8,
            second: dt.second,
        }
    } else {
        DateTime {
            date: dt.date,
            hour: (total / 60) as u8,
            minute: (total % 60) as u8,
            second: dt.second,
        }
    }
}

/// The digits of `s` at positions `i` and `i + 1` read as a number.
pub open spec fn two_digits(s: Seq<char>, i: int) -> int {
    digit_val(s[i]) * 10 + digit_val(s[i + 1])
}

/// The digits of `s` at positions `i` to `i + 3` read as a number.
pub open spec fn four_digits(s: Seq<char>, i: int) -> int {
    digit_val(s[i]) * 1000 + digit_val(s[i + 1]) * 100 + digit_val(s[i + 2]) * 10 + digit_val(
        s[i + 3],
    )
}

/// `s` has the exact shape `YYYY-MM-DD`.
pub open spec fn date_shape_ok(s: Seq<char>) -> bool {
    s.len() == 10 && is_digit(s[0]) && is_digit(s[1]) && is_digit(s[2]) && is_digit(s[3]) && s[4]
        == '-' && is_digit(s[5]) && is_digit(s[6]) && s[7] == '-' && is_digit(s[8]) && is_digit(
        s[9],
    )
}

/// The date written as `YYYY-MM-DD` in `s`, if `s` has that shape and
/// names a valid calendar date.
pub open spec fn spec_parse_date(s: Seq<char>) -> Option<Date> {
    if date_shape_ok(s) {
        let d = Date {
            year: four_digits(s, 0) as i32,
            month: two_digits(s, 5) as u8,
            day: two_digits(s, 8) as u8,
        };
        if date_valid(d) {
            Some(d)
        } else {
            None
        }
    } else {
        None
    }
}

/// `s` has the exact shape `YYYY-MM-DD HH:MM:SS +HHMM` (sign `+` or `-`).
pub open spec fn timestamp_shape_ok(s: Seq<char>) -> bool {
    s.len() == 25 && date_shape_ok(s.take(10)) && s[10] == ' ' && is_digit(s[11]) && is_digit(
        s[12],
    ) && s[13] == ':' && is_digit(s[14]) && is_digit(s[15]) && s[16] == ':' && is_digit(s[17])
        && is_digit(s[18]) && s[19] == ' ' && (s[20] == '+' || s[20] == '-') && is_digit(s[21])
        && is_digit(s[22]) && is_digit(s[23]) && is_digit(s[24])
}

/// The instant written as `YYYY-MM-DD HH:MM:SS +HHMM` in `s`,
/// normalized to UTC, if `s` has that shape, the date is a valid
/// calendar date, and the time and offset fields are in range.
pub open spec fn spec_parse_timestamp(s: Seq<char>) -> Option<DateTime> {
    if timestamp_shape_ok(s) {
        let d = Date {
            year: four_digits(s, 0) as i32,
            month: two_digits(s, 5) as u8,
            day: two_digits(s, 8) as u8,
        };
        let h = two_digits(s, 11);
        let mi = two_digits(s, 14);
        let se = two_digits(s, 17);
        let oh = two_digits(s, 21);
        let om = two_digits(s, 23);
        if date_valid(d) && h <= 23 && mi <= 59 && se <= 59 && oh <= 23 && om <= 59 {
            let local = DateTime { date: d, hour: h as u8, minute: mi as u8, second: se as u8 };
            Some(spec_to_utc(local, s[20] == '-', oh, om))
        } else {
            None
        }
    } else {
        None
    }
}

/// Every timestamp the header parser yields is a valid instant: a
/// valid calendar date with time-of-day fields in range.
pub proof fn lemma_parsed_timestamp_valid(s: Seq<char>)
    ensures
        spec_parse_timestamp(s) matches Some(dt) ==> datetime_valid(dt),
{
    if spec_parse_timestamp(s) is Some {
        let d = Date {
            year: four_digits(s, 0) as i32,
            month: two_digits(s, 5) as u8,
            day: two_digits(s, 8) as u8,
        };
        lemma_prev_day_valid(d);
        lemma_next_day_valid(d);
    }
}

/// Every order date the date parser yields is a valid calendar date.
pub proof fn lemma_parsed_date_valid(s: Seq<char>)
    ensures
        spec_parse_date(s) matches Some(d) ==> date_valid(d),
{
}

impl Date {
    /// Whether the date is a valid calendar date.
    pub fn is_valid(&self) -> (r: bool)
        ensures
            r == date_valid(*self),
    {
        if self.month < 1 || self.month > 12 || self.day < 1 {
            return false;
        }
        let dim = days_in_month(self.year, self.month);
        self.day <= dim
    }
}

/// Whether `y` is a leap year.
fn is_leap_year(y: i32) -> (r: bool)
    ensures
        r == spec_is_leap_year(y as int),
{
    y % 4 == 0 && (y % 100 != 0 || y % 400 == 0)
}

/// Number of days in `month` of `year`.
fn days_in_month(year: i32, month: u8) -> (r: u8)
    ensures
        r as int == spec_days_in_month(year as int, month as int),
{
    if month == 2 {
        if is_leap_year(year) {
            29
        } else {
            28
        }
    } else if month == 4 || month == 6 || month == 9 || month == 11 {
        30
    } else {
        31
    }
}

/// The day after `d`.
fn next_day(d: Date) -> (r: Date)
    requires
        date_valid(d),
        d.year < 0x7fff_ffff,
    ensures
        r == spec_next_day(d),
{
    let dim = days_in_month(d.year, d.month);
    if d.day < dim {
        Date { year: d.year, month: d.month, day: d.day + 1 }
    } else if d.month < 12 {
        Date { year: d.year, month: d.month + 1, day: 1 }
    } else {
        Date { year: d.year + 1, month: 1, day: 1 }
    }
}

/// The day before `d`.
fn prev_day(d: Date) -> (r: Date)
    requires
        date_valid(d),
        d.year > -0x8000_0000,
    ensures
        r == spec_prev_day(d),
{
    if d.day > 1 {
        Date { year: d.year, month: d.month, day: d.day - 1 }
    } else if d.month > 1 {
        Date { year: d.year, month: d.month - 1, day: days_in_month(d.year, d.month - 1) }
    } else {
        Date { year: d.year - 1, month: 12, day: 31 }
    }
}

/// Read the two digits of `s` at `i` as a number.
fn read_two(s: &str, i: usize) -> (r: u8)
    requires
        i + 1 < s@.len(),
        i + 1 <= usize::MAX,
        is_digit(s@[i as int]),
        is_digit(s@[i + 1]),
    ensures
        r as int == two_digits(s@, i as int),
        r <= 99,
{
    let c0 = s.get_char(i);
    let c1 = s.get_char(i + 1);
    let d0: u8 = (c0 as u32 - '0' as u32) as u8;
    let d1: u8 = (c1 as u32 - '0' as u32) as u8;
    d0 * 10 + d1
}

/// Whether the character of `s` at `i` is a decimal digit.
fn digit_at(s: &str, i: usize) -> (r: bool)
    requires
        i < s@.len(),
    ensures
        r == is_digit(s@[i as int]),
{
    let c = s.get_char(i);
    '0' <= c && c <= '9'
}

/// Parse an order date written as `YYYY-MM-DD`.
pub fn parse_date(s: &str) -> (r: Option<Date>)
    ensures
        r == spec_parse_date(s@),
{
    let n: usize = s.unicode_len();
    if n != 10 {
        return None;
    }
    if !(digit_at(s, 0) && digit_at(s, 1) && digit_at(s, 2) && digit_at(s, 3) && s.get_char(4)
        == '-' && digit_at(s, 5) && digit_at(s, 6) && s.get_char(7) == '-' && digit_at(s, 8)
        && digit_at(s, 9)) {
        return None;
    }
    let y = read_year(s, 0);
    let mo = read_two(s, 5);
    let da = read_two(s, 8);
    let d = Date { year: y, month: mo, day: da };
    if d.is_valid() {
        Some(d)
    } else {
        None
    }
}

/// Read the four digits of `s` at `i` as a year.
fn read_year(s: &str, i: usize) -> (r: i32)
    requires
        i + 3 < s@.len(),
        i + 3 <= usize::MAX,
        is_digit(s@[i as int]),
        is_digit(s@[i + 1]),
        is_digit(s@[i + 2]),
        is_digit(s@[i + 3]),
    ensures
        r as int == four_digits(s@, i as int),
        0 <= r <= 9999,
{
    let c0 = s.get_char(i);
    let c1 = s.get_char(i + 1);
    let c2 = s.get_char(i + 2);
    let c3 = s.get_char(i + 3);
    let d0: i32 = (c0 as u32 - '0' as u32) as i32;
    let d1: i32 = (c1 as u32 - '0' as u32) as i32;
    let d2: i32 = (c2 as u32 - '0' as u32) as i32;
    let d3: i32 = (c3 as u32 - '0' as u32) as i32;
    d0 * 1000 + d1 * 100 + d2 * 10 + d3
}

/// Parse the header instant written as `YYYY-MM-DD HH:MM:SS +HHMM`
/// and normalize it to UTC.
pub fn parse_timestamp(s: &str) -> (r: Option<DateTime>)
    ensures
        r == spec_parse_timestamp(s@),
{
    let n: usize = s.unicode_len();
    if n != 25 {
        return None;
    }
    if !(digit_at(s, 0) && digit_at(s, 1) && digit_at(s, 2) && digit_at(s, 3) && s.get_char(4)
        == '-' && digit_at(s, 5) && digit_at(s, 6) && s.get_char(7) == '-' && digit_at(s, 8)
        && digit_at(s, 9)) {
        proof {
            assert(!date_shape_ok(s@.take(10))) by {
                assert(forall|k: int| 0 <= k < 10 ==> s@.take(10)[k] == s@[k]);
            }
        }
        return None;
    }
    if !(s.get_char(10) == ' ' && digit_at(s, 11) && digit_at(s, 12) && s.get_char(13) == ':'
        && digit_at(s, 14) && digit_at(s, 15) && s.get_char(16) == ':' && digit_at(s, 17)
        && digit_at(s, 18) && s.get_char(19) == ' ') {
        return None;
    }
    let sign = s.get_char(20);
    if sign != '+' && sign != '-' {
        return None;
    }
    if !(digit_at(s, 21) && digit_at(s, 22) && digit_at(s, 23) && digit_at(s, 24)) {
        return None;
    }
    proof {
        assert(date_shape_ok(s@.take(10))) by {
            assert(forall|k: int| 0 <= k < 10 ==> s@.take(10)[k] == s@[k]);
        }
        assert(timestamp_shape_ok(s@));
    }
    let y = read_year(s, 0);
    let mo = read_two(s, 5);
    let da = read_two(s, 8);
    let d = Date { year: y, month: mo, day: da };
    let h = read_two(s, 11);
    let mi = read_two(s, 14);
    let se = read_two(s, 17);
    let oh = read_two(s, 21);
    let om = read_two(s, 23);
    if !(d.is_valid() && h <= 23 && mi <= 59 && se <= 59 && oh <= 23 && om <= 59) {
        return None;
    }
    let local = DateTime { date: d, hour: h, minute: mi, second: se };
    Some(to_utc(local, sign == '-', oh, om))
}

/// Shift `dt` by the offset to UTC.
fn to_utc(dt: DateTime, neg: bool, oh: u8, om: u8) -> (r: DateTime)
    requires
        datetime_valid(dt),
        -0x8000_0000 < dt.date.year < 0x7fff_ffff,
        oh <= 23,
        om <= 59,
    ensures
        r == spec_to_utc(dt, neg, oh as int, om as int),
{
    let local: i32 = dt.hour as i32 * 60 + dt.minute as i32;
    let off: i32 = oh as i32 * 60 + om as i32;
    let total: i32 = if neg {
        local + off
    } else {
        local - off
    };
    if total < 0 {
        let t = total + 1440;
        DateTime {
            date: prev_day(dt.date),
            hour: (t / 60) as u8,
            minute: (t % 60) as u8,
            second: dt.second,
        }
    } else if total >= 1440 {
        let t = total - 1440;
        DateTime {
            date: next_day(dt.date),
            hour: (t / 60) as u8,
            minute: (t % 60) as u8,
            second: dt.second,
        }
    } else {
        DateTime {
            date: dt.date,
            hour: (total / 60) as u8,
            minute: (total % 60) as u8,
            second: dt.second,
        }
    }
}

} // verus!
