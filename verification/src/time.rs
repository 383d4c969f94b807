//! Civil dates and times, instants, and the textual timestamp format.
//!
//! A `Timestamp` holds a Gregorian calendar date, a time of day, and a UTC
//! offset, all as plain integers. Instants are measured in seconds from
//! 0001-01-01 00:00 UTC, so sessions recorded under different offsets
//! compare correctly.

use vstd::prelude::*;

verus! {

/// A Gregorian calendar date.
#[derive(Clone, Copy, PartialEq, Eq, Structural, Debug)]
pub struct Date {
    pub year: i64,
    pub month: u8,
    pub day: u8,
}

/// A point in time: a civil date and time of day together with the UTC
/// offset (in seconds) under which it was recorded.
#[derive(Clone, Copy, PartialEq, Eq, Structural, Debug)]
pub struct Timestamp {
    pub date: Date,
    pub hour: u8,
    pub minute: u8,
    pub second: u8,
    pub offset_seconds: i32,
}

pub open spec fn is_leap_year(y: int) -> bool {
    (y % 4 == 0 && y % 100 != 0) || y % 400 == 0
}

pub open spec fn days_in_year(y: int) -> int {
    if is_leap_year(y) {
        366
    } else {
        365
    }
}

pub open spec fn days_in_month(y: int, m: int) -> int {
    if m == 2 {
        if is_leap_year(y) {
            29
        } else {
            28
        }
    } else if m == 4 || m == 6 || m == 9 || m == 11 {
        30
    } else {
        31
    }
}

/// Days from 0001-01-01 to the first day of year `y`.
pub open spec fn days_before_year(y: int) -> int
    decreases y,
{
    if y <= 1 {
        0
    } else {
        days_before_year(y - 1) + days_in_year(y - 1)
    }
}

/// Days from the first of January of year `y` to the first day of month `m`.
pub open spec fn days_before_month(y: int, m: int) -> int
    decreases m,
{
    if m <= 1 {
        0
    } else {
        days_before_month(y, m - 1) + days_in_month(y, m - 1)
    }
}

impl Date {
    pub open spec fn valid(self) -> bool {
        &&& 1 <= self.year <= 9999
        &&& 1 <= self.month <= 12
        &&& 1 <= self.day <= days_in_month(self.year as int, self.month as int)
    }

    /// Days from 0001-01-01 to this date; 0001-01-01 is day 0.
    pub open spec fn day_number(self) -> int {
        days_before_year(self.year as int) + days_before_month(self.year as int, self.month as int)
            + self.day - 1
    }
}

pub proof fn lemma_days_before_year_bounds(y: int)
    requires
        1 <= y,
    ensures
        365 * (y - 1) <= days_before_year(y) <= 366 * (y - 1),
    decreases y,
{
    if y > 1 {
        lemma_days_before_year_bounds(y - 1);
    }
}

pub proof fn lemma_days_before_month_bounds(y: int, m: int)
    requires
        1 <= m <= 13,
    ensures
        28 * (m - 1) <= days_before_month(y, m) <= 31 * (m - 1),
    decreases m,
{
    if m > 1 {
        lemma_days_before_month_bounds(y, m - 1);
    }
}

/// Largest day number of a valid date: 9999-12-31.
pub proof fn lemma_day_number_bounds(d: Date)
    requires
        d.valid(),
    ensures
        0 <= d.day_number() < 3_660_000,
{
    lemma_days_before_year_bounds(d.year as int);
    lemma_days_before_month_bounds(d.year as int, d.month as int);
}

impl Timestamp {
    pub open spec fn valid(self) -> bool {
        &&& self.date.valid()
        &&& self.hour <= 23
        &&& self.minute <= 59
        &&& self.second <= 59
        &&& -86400 < self.offset_seconds < 86400
    }

    /// Seconds since 0001-01-01 00:00 UTC.
    pub open spec fn instant(self) -> int {
        self.date.day_number() * 86400 + self.hour * 3600 + self.minute * 60 + self.second
            - self.offset_seconds
    }
}

/// Instants of valid timestamps stay far inside `i64`.
pub proof fn lemma_instant_bounds(t: Timestamp)
    requires
        t.valid(),
    ensures
        -86400 < t.instant() < 3_660_000 * 86400 + 86400 + 86400,
{
    lemma_day_number_bounds(t.date);
}

fn days_in_month_exec(y: i64, m: u8) -> (r: u8)
    requires
        1 <= y <= 9999,
        1 <= m <= 12,
    ensures
        r == days_in_month(y as int, m as int),
{
    if m == 2 {
        if (y % 4 == 0 && y % 100 != 0) || y % 400 == 0 {
            29
        } else {
            28
        }
    } else if m == 4 || m == 6 || m == 9 || m == 11 {
        30
    } else {
        31
    }
}

pub fn day_number_exec(d: Date) -> (r: i64)
    requires
        d.valid(),
    ensures
        r == d.day_number(),
        0 <= r < 3_660_000,
{
    proof {
        lemma_day_number_bounds(d);
    }
    let mut acc: i64 = 0;
    let mut y: i64 = 1;
    while y < d.year
        invariant
            1 <= y <= d.year,
            d.valid(),
            acc == days_before_year(y as int),
            0 <= acc <= 366 * (y - 1),
        decreases d.year - y,
    {
        proof {
            lemma_days_before_year_bounds(y as int);
        }
        if (y % 4 == 0 && y % 100 != 0) || y % 400 == 0 {
            acc = acc + 366;
        } else {
            acc = acc + 365;
        }
        y = y + 1;
    }
    let mut m: u8 = 1;
    while m < d.month
        invariant
            1 <= m <= d.month,
            d.valid(),
            acc == days_before_year(d.year as int) + days_before_month(d.year as int, m as int),
            0 <= acc <= 366 * (d.year - 1) + 31 * (m - 1),
        decreases d.month - m,
    {
        proof {
            lemma_days_before_year_bounds(d.year as int);
            lemma_days_before_month_bounds(d.year as int, m as int);
        }
        acc = acc + days_in_month_exec(d.year, m) as i64;
        m = m + 1;
    }
    acc + d.day as i64 - 1
}

impl Date {
    pub fn valid_exec(&self) -> (r: bool)
        ensures
            r == self.valid(),
    {
        1 <= self.year && self.year <= 9999 && 1 <= self.month && self.month <= 12 && 1
            <= self.day && self.day <= days_in_month_exec(self.year, self.month)
    }
}

impl Timestamp {
    pub fn valid_exec(&self) -> (r: bool)
        ensures
            r == self.valid(),
    {
        self.date.valid_exec() && self.hour <= 23 && self.minute <= 59 && self.second <= 59
            && -86400 < self.offset_seconds && self.offset_seconds < 86400
    }
}

/// The twelve months of a year sum to its length.
proof fn lemma_months_sum(y: int)
    ensures
        days_before_month(y, 12) + days_in_month(y, 12) == days_in_year(y),
{
    assert(days_before_month(y, 12) + days_in_month(y, 12) == days_in_year(y)) by {
        reveal_with_fuel(days_before_month, 13);
    }
}

/// The first day of the following month, as a day number.
pub proof fn lemma_first_of_next_month(y: int, m: int)
    requires
        1 <= y <= 9999,
        1 <= m <= 12,
        m == 12 ==> y <= 9998,
    ensures
        (if m == 12 {
            (Date { year: (y + 1) as i64, month: 1u8, day: 1u8 })
        } else {
            (Date { year: y as i64, month: (m + 1) as u8, day: 1u8 })
        }).day_number() == (Date { year: y as i64, month: m as u8, day: 1u8 }).day_number()
            + days_in_month(y, m),
{
    if m == 12 {
        lemma_months_sum(y);
    }
}

/// The calendar date one day earlier.
pub fn prev_day(d: Date) -> (r: Date)
    requires
        d.valid(),
        d.day_number() >= 1,
    ensures
        r.valid(),
        r.day_number() == d.day_number() - 1,
{
    if d.day > 1 {
        Date { year: d.year, month: d.month, day: d.day - 1 }
    } else if d.month > 1 {
        let pm = d.month - 1;
        Date { year: d.year, month: pm, day: days_in_month_exec(d.year, pm) }
    } else {
        proof {
            lemma_months_sum(d.year - 1);
        }
        Date { year: d.year - 1, month: 12, day: 31 }
    }
}

/// Day of the week, with Monday as 0; 0001-01-01 was a Monday.
pub open spec fn weekday_from_monday(d: Date) -> int {
    d.day_number() % 7
}

pub fn weekday_exec(d: Date) -> (r: u8)
    requires
        d.valid(),
    ensures
        r == weekday_from_monday(d),
        r <= 6,
{
    (day_number_exec(d) % 7) as u8
}

/// Months elapsed from 0001-01 to year `y`, month `m`, both counted from 1.
pub open spec fn month_index(y: int, m: int) -> int {
    (y - 1) * 12 + (m - 1)
}

/// The year and month `back` months before year `y`, month `m`.
pub open spec fn month_shift(y: int, m: int, back: int) -> (int, int) {
    (1 + (month_index(y, m) - back) / 12, 1 + (month_index(y, m) - back) % 12)
}

pub fn month_shift_exec(y: i64, m: u8, back: u64) -> (r: (i64, u8))
    requires
        1 <= y <= 9999,
        1 <= m <= 12,
        back <= month_index(y as int, m as int),
    ensures
        r.0 == month_shift(y as int, m as int, back as int).0,
        r.1 == month_shift(y as int, m as int, back as int).1,
        1 <= r.0 <= 9999,
        1 <= r.1 <= 12,
{
    let t: i64 = (y - 1) * 12 + (m as i64 - 1) - back as i64;
    (1 + t / 12, (1 + t % 12) as u8)
}

/// Seconds rounded to hundredths of an hour, half away from zero.
pub open spec fn centihours_of(secs: int) -> int {
    if secs >= 0 {
        (secs * 100 + 1800) / 3600
    } else {
        -(((-secs) * 100 + 1800) / 3600)
    }
}

pub fn centihours_exec(secs: i64) -> (r: i64)
    requires
        -4_000_000_000_000 <= secs <= 4_000_000_000_000,
    ensures
        r == centihours_of(secs as int),
{
    if secs >= 0 {
        (secs * 100 + 1800) / 3600
    } else {
        -(((-secs) * 100 + 1800) / 3600)
    }
}

pub fn centihours_wide(secs: i128) -> (r: i128)
    requires
        -0x1000000000000000000000000 <= secs <= 0x1000000000000000000000000,
    ensures
        r == centihours_of(secs as int),
{
    if secs >= 0 {
        (secs * 100 + 1800) / 3600
    } else {
        -(((-secs) * 100 + 1800) / 3600)
    }
}

/// The same civil time read under another UTC offset.
pub open spec fn with_offset(t: Timestamp, off: i32) -> Timestamp {
    Timestamp { offset_seconds: off, ..t }
}

pub fn with_offset_exec(t: Timestamp, off: i32) -> (r: Timestamp)
    requires
        -86400 < off < 86400,
    ensures
        r == with_offset(t, off),
        t.valid() ==> r.valid(),
{
    Timestamp {
        date: t.date,
        hour: t.hour,
        minute: t.minute,
        second: t.second,
        offset_seconds: off,
    }
}

/// Whether byte `b` is an ASCII decimal digit.
pub open spec fn is_digit(b: u8) -> bool {
    48 <= b <= 57
}

pub open spec fn digit_val(b: u8) -> int {
    b - 48
}

pub open spec fn two_digits(s: Seq<u8>, i: int) -> int {
    digit_val(s[i]) * 10 + digit_val(s[i + 1])
}

pub open spec fn four_digits(s: Seq<u8>, i: int) -> int {
    two_digits(s, i) * 100 + two_digits(s, i + 2)
}

/// Shape of the textual timestamp format: `DD.MM.YYYY HH:MM`.
pub open spec fn datetime_text_shape(s: Seq<u8>) -> bool {
    &&& s.len() == 16
    &&& is_digit(s[0]) && is_digit(s[1])
    &&& s[2] == 46u8
    &&& is_digit(s[3]) && is_digit(s[4])
    &&& s[5] == 46u8
    &&& is_digit(s[6]) && is_digit(s[7]) && is_digit(s[8]) && is_digit(s[9])
    &&& s[10] == 32u8
    &&& is_digit(s[11]) && is_digit(s[12])
    &&& s[13] == 58u8
    &&& is_digit(s[14]) && is_digit(s[15])
}

/// The timestamp the text denotes, read in an unknown zone: offset 0.
pub open spec fn parsed_stamp(s: Seq<u8>) -> Timestamp {
    Timestamp {
        date: Date {
            year: four_digits(s, 6) as i64,
            month: two_digits(s, 3) as u8,
            day: two_digits(s, 0) as u8,
        },
        hour: two_digits(s, 11) as u8,
        minute: two_digits(s, 14) as u8,
        second: 0,
        offset_seconds: 0,
    }
}

/// The text is well shaped and denotes a real calendar date and time.
pub open spec fn datetime_text_valid(s: Seq<u8>) -> bool {
    datetime_text_shape(s) && parsed_stamp(s).valid()
}

fn digit_at(s: &Vec<u8>, i: usize) -> (r: Option<u8>)
    requires
        i < s@.len(),
    ensures
        r is Some <==> is_digit(s@[i as int]),
        r matches Some(v) ==> v == digit_val(s@[i as int]),
{
    let b = s[i];
    if 48 <= b && b <= 57 {
        Some(b - 48)
    } else {
        None
    }
}

/// Reads a timestamp written as `DD.MM.YYYY HH:MM`. The zone is left to the
/// caller: the result carries offset 0.
pub fn parse_datetime(s: &Vec<u8>) -> (r: Option<Timestamp>)
    ensures
        r is Some <==> datetime_text_valid(s@),
        r matches Some(t) ==> t == parsed_stamp(s@),
{
    if s.len() != 16 {
        return None;
    }
    if !(s[2] == 46 && s[5] == 46 && s[10] == 32 && s[13] == 58) {
        return None;
    }
    let (d1, d0) = match (digit_at(s, 0), digit_at(s, 1)) {
        (Some(a), Some(b)) => (a, b),
        _ => { return None; },
    };
    let (m1, m0) = match (digit_at(s, 3), digit_at(s, 4)) {
        (Some(a), Some(b)) => (a, b),
        _ => { return None; },
    };
    let (y3, y2) = match (digit_at(s, 6), digit_at(s, 7)) {
        (Some(a), Some(b)) => (a, b),
        _ => { return None; },
    };
    let (y1, y0) = match (digit_at(s, 8), digit_at(s, 9)) {
        (Some(a), Some(b)) => (a, b),
        _ => { return None; },
    };
    let (h1, h0) = match (digit_at(s, 11), digit_at(s, 12)) {
        (Some(a), Some(b)) => (a, b),
        _ => { return None; },
    };
    let (n1, n0) = match (digit_at(s, 14), digit_at(s, 15)) {
        (Some(a), Some(b)) => (a, b),
        _ => { return None; },
    };
    let year: i64 = (y3 as i64 * 10 + y2 as i64) * 100 + (y1 as i64 * 10 + y0 as i64);
    let month: u8 = m1 * 10 + m0;
    let day: u8 = d1 * 10 + d0;
    let hour: u8 = h1 * 10 + h0;
    let minute: u8 = n1 * 10 + n0;
    if year < 1 || month < 1 || month > 12 {
        return None;
    }
    if day < 1 || day > days_in_month_exec(year, month) {
        return None;
    }
    if hour > 23 || minute > 59 {
        return None;
    }
    let t = Timestamp {
        date: Date { year, month, day },
        hour,
        minute,
        second: 0,
        offset_seconds: 0,
    };
    Some(t)
}

impl Timestamp {
    /// Seconds since 0001-01-01 00:00 UTC, as a machine integer.
    pub fn instant_exec(&self) -> (r: i64)
        requires
            self.valid(),
        ensures
            r == self.instant(),
    {
        proof {
            lemma_instant_bounds(*self);
        }
        let dn = day_number_exec(self.date);
        dn * 86400 + self.hour as i64 * 3600 + self.minute as i64 * 60 + self.second as i64
            - self.offset_seconds as i64
    }
}

} // verus!
