//! Proleptic Gregorian calendar arithmetic: validity of civil dates and
//! clock times, and conversion of a date, time and UTC offset to a Unix
//! timestamp in seconds.
//!
//! Years are limited to `-9999..=9999`, the range the rest of the program
//! accepts for a requested date.

use vstd::prelude::*;
use vstd::arithmetic::div_mod::lemma_mod_multiples_vanish;

verus! {

/// A leap year in the proleptic Gregorian calendar.
pub open spec fn is_leap_year(y: int) -> bool {
    y % 4 == 0 && (y % 100 != 0 || y % 400 == 0)
}

/// Number of days of year `y`.
pub open spec fn days_in_year(y: int) -> int {
    if is_leap_year(y) {
        366
    } else {
        365
    }
}

/// Number of days of month `m` (1-based) of year `y`.
pub open spec fn days_in_month(y: int, m: int) -> int {
    if m == 2 {
        if is_leap_year(y) {
            29
        } else {
            28
        }
    } else if m == 4 || m == 6 || m == 9 || m == 11 {
        30
    } else {
        31
    }
}

/// Days from 1970-01-01 to January 1 of year `y`; negative when `y` lies
/// before 1970.
pub open spec fn days_to_year(y: int) -> int
    decreases (if y >= 1970 { y - 1970 } else { 1970 - y }),
{
    if y == 1970 {
        0
    } else if y > 1970 {
        days_to_year(y - 1) + days_in_year(y - 1)
    } else {
        days_to_year(y + 1) - days_in_year(y)
    }
}

/// Days from January 1 of year `y` to the first day of month `m`.
pub open spec fn days_before_month(y: int, m: int) -> int
    decreases m,
{
    if m <= 1 {
        0
    } else {
        days_before_month(y, m - 1) + days_in_month(y, m - 1)
    }
}

/// Day index of the civil date `y-m-d`, counting 1970-01-01 as day 0.
pub open spec fn day_number(y: int, m: int, d: int) -> int {
    days_to_year(y) + days_before_month(y, m) + (d - 1)
}

/// A real calendar date within the supported year range.
pub open spec fn valid_date(y: int, m: int, d: int) -> bool {
    &&& -9999 <= y <= 9999
    &&& 1 <= m <= 12
    &&& 1 <= d <= days_in_month(y, m)
}

/// A real clock time of day.
pub open spec fn valid_time(h: int, mi: int, s: int) -> bool {
    &&& 0 <= h <= 23
    &&& 0 <= mi <= 59
    &&& 0 <= s <= 59
}

/// Unix timestamp, in seconds, of the civil date `y-m-d` at time
/// `h:mi:s` in a zone `off` seconds east of UTC.
pub open spec fn civil_timestamp(y: int, m: int, d: int, h: int, mi: int, s: int, off: int) -> int {
    day_number(y, m, d) * 86400 + h * 3600 + mi * 60 + s - off
}

/// Leap-year test over the machine type.
pub fn leap_year(y: i32) -> (r: bool)
    requires
        -9999 <= y <= 9999,
    ensures
        r == is_leap_year(y as int),
{
    let n: u32 = (y + 10000) as u32;
    proof {
        lemma_mod_multiples_vanish(2500, y as int, 4);
        lemma_mod_multiples_vanish(100, y as int, 100);
        lemma_mod_multiples_vanish(25, y as int, 400);
    }
    n % 4 == 0 && (n % 100 != 0 || n % 400 == 0)
}

/// Length in days of month `m` of year `y`.
pub fn days_in_month_count(y: i32, m: u8) -> (r: u8)
    requires
        -9999 <= y <= 9999,
        1 <= m <= 12,
    ensures
        r as int == days_in_month(y as int, m as int),
{
    if m == 2 {
        if leap_year(y) {
            29
        } else {
            28
        }
    } else if m == 4 || m == 6 || m == 9 || m == 11 {
        30
    } else {
        31
    }
}

/// Length in days of year `y`.
fn days_in_year_count(y: i32) -> (r: u16)
    requires
        -9999 <= y <= 9999,
    ensures
        r as int == days_in_year(y as int),
{
    if leap_year(y) {
        366
    } else {
        365
    }
}

/// Day index of a valid civil date, counting 1970-01-01 as day 0.
pub fn day_number_of(y: i32, m: u8, d: u8) -> (r: i64)
    requires
        valid_date(y as int, m as int, d as int),
    ensures
        r == day_number(y as int, m as int, d as int),
        -5000000 <= r <= 5000000,
{
    let mut days: i64 = 0;
    if y >= 1970 {
        let mut cy: i32 = 1970;
        while cy < y
            invariant
                1970 <= cy <= y,
                y <= 9999,
                days == days_to_year(cy as int),
                0 <= days <= (cy - 1970) * 366,
            decreases y - cy,
        {
            days = days + days_in_year_count(cy) as i64;
            cy = cy + 1;
        }
    } else {
        let mut cy: i32 = 1970;
        while cy > y
            invariant
                y <= cy <= 1970,
                -9999 <= y,
                days == days_to_year(cy as int),
                (cy - 1970) * 366 <= days <= 0,
            decreases cy - y,
        {
            cy = cy - 1;
            days = days - days_in_year_count(cy) as i64;
        }
    }
    let mut mo: u8 = 1;
    while mo < m
        invariant
            1 <= mo <= m,
            m <= 12,
            -9999 <= y <= 9999,
            days == days_to_year(y as int) + days_before_month(y as int, mo as int),
            -4500000 <= days_to_year(y as int) <= 3000000,
            0 <= days_before_month(y as int, mo as int) <= 31 * (mo - 1),
        decreases m - mo,
    {
        days = days + days_in_month_count(y, mo) as i64;
        mo = mo + 1;
    }
    days + (d as i64 - 1)
}

/// Unix timestamp of a valid civil date and time at a UTC offset given
/// in seconds east of UTC.
pub fn civil_timestamp_of(y: i32, m: u8, d: u8, h: u8, mi: u8, s: u8, off: i32) -> (r: i64)
    requires
        valid_date(y as int, m as int, d as int),
        valid_time(h as int, mi as int, s as int),
        -93599 <= off <= 93599,
    ensures
        r == civil_timestamp(y as int, m as int, d as int, h as int, mi as int, s as int, off as int),
        -450000000000 <= r <= 450000000000,
{
    let dn = day_number_of(y, m, d);
    dn * 86400 + (h as i64) * 3600 + (mi as i64) * 60 + (s as i64) - (off as i64)
}

/// The twelve month offsets fill the year exactly.
proof fn lemma_days_before_month_full(y: int)
    ensures
        days_before_month(y, 13) == days_in_year(y),
{
    reveal_with_fuel(days_before_month, 13);
}

/// Month offsets within one year grow by whole months.
proof fn lemma_days_before_month_mono(y: int, m1: int, m2: int)
    requires
        1 <= m1 <= m2 <= 13,
    ensures
        days_before_month(y, m1) <= days_before_month(y, m2),
        m1 < m2 ==> days_before_month(y, m1) + days_in_month(y, m1) <= days_before_month(y, m2),
    decreases m2 - m1,
{
    if m1 < m2 {
        lemma_days_before_month_mono(y, m1, m2 - 1);
    }
}

/// A valid month and day land strictly inside their own year.
proof fn lemma_day_offset_in_year(y: int, m: int, d: int)
    requires
        valid_date(y, m, d),
    ensures
        0 <= days_before_month(y, m) + (d - 1) < days_in_year(y),
{
    lemma_days_before_month_mono(y, 1, m);
    lemma_days_before_month_mono(y, m, 13);
    lemma_days_before_month_full(y);
}

/// Later years start at least one whole year of days later.
proof fn lemma_days_to_year_step(y1: int, y2: int)
    requires
        y1 < y2,
    ensures
        days_to_year(y1) + days_in_year(y1) <= days_to_year(y2),
    decreases y2 - y1,
{
    if y2 == y1 + 1 {
    } else {
        lemma_days_to_year_step(y1, y2 - 1);
        lemma_days_to_year_step(y2 - 1, y2);
    }
}

/// The conversion to a timestamp loses nothing: two valid civil dates
/// and times that give the same timestamp at the same UTC offset are
/// the same date and time, so the calendar representation and the
/// timestamp representation of an instant convert back and forth
/// without loss.
pub proof fn lemma_civil_timestamp_lossless(
    y1: int,
    m1: int,
    d1: int,
    h1: int,
    mi1: int,
    s1: int,
    y2: int,
    m2: int,
    d2: int,
    h2: int,
    mi2: int,
    s2: int,
    off: int,
)
    requires
        valid_date(y1, m1, d1),
        valid_time(h1, mi1, s1),
        valid_date(y2, m2, d2),
        valid_time(h2, mi2, s2),
        civil_timestamp(y1, m1, d1, h1, mi1, s1, off) == civil_timestamp(
            y2,
            m2,
            d2,
            h2,
            mi2,
            s2,
            off,
        ),
    ensures
        y1 == y2,
        m1 == m2,
        d1 == d2,
        h1 == h2,
        mi1 == mi2,
        s1 == s2,
{
    let dn1 = day_number(y1, m1, d1);
    let dn2 = day_number(y2, m2, d2);
    let t1 = h1 * 3600 + mi1 * 60 + s1;
    let t2 = h2 * 3600 + mi2 * 60 + s2;
    assert(dn1 * 86400 + t1 == dn2 * 86400 + t2);
    assert(0 <= t1 < 86400);
    assert(0 <= t2 < 86400);
    assert(dn1 == dn2);
    assert(t1 == t2);
    assert(h1 == h2);
    assert(mi1 == mi2);
    assert(s1 == s2);
    lemma_day_offset_in_year(y1, m1, d1);
    lemma_day_offset_in_year(y2, m2, d2);
    if y1 < y2 {
        lemma_days_to_year_step(y1, y2);
        assert(false);
    }
    if y2 < y1 {
        lemma_days_to_year_step(y2, y1);
        assert(false);
    }
    if m1 < m2 {
        lemma_days_before_month_mono(y1, m1, m2);
        assert(false);
    }
    if m2 < m1 {
        lemma_days_before_month_mono(y1, m2, m1);
        assert(false);
    }
}

} // verus!
