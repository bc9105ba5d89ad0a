//! Days of the Gregorian calendar.

use vstd::prelude::*;

use crate::numeral::{padded, push_padded, ten_to};
use crate::text::{decimal, push_decimal};

verus! {

pub open spec fn leap(y: int) -> bool {
    y % 4 == 0 && (y % 100 != 0 || y % 400 == 0)
}

pub open spec fn month_days(y: int, m: int) -> int {
    if m == 2 {
        if leap(y) {
            29
        } else {
            28
        }
    } else if m == 4 || m == 6 || m == 9 || m == 11 {
        30
    } else {
        31
    }
}

/// Whether there is such a date.
pub open spec fn is_date(y: int, m: int, d: int) -> bool {
    1 <= m <= 12 && 1 <= d <= month_days(y, m)
}

/// Days of the year before its month `m`.
pub open spec fn month_start(y: int, m: int) -> int
    decreases m,
{
    if m <= 1 {
        0
    } else {
        month_start(y, m - 1) + month_days(y, m - 1)
    }
}

/// Days from the first of the year 0 to the first of the year `y`: 365 for each
/// year, and one for each leap year.
pub open spec fn year_start(y: int) -> int {
    365 * y + (y + 3) / 4 - (y + 99) / 100 + (y + 399) / 400
}

/// Days from the first of January 1970 to a date.
pub open spec fn day_number(y: int, m: int, d: int) -> int {
    year_start(y) - year_start(1970) + month_start(y, m) + d - 1
}

/// Whether a date is the one `z` days after the first of January 1970.
pub open spec fn falls_on(z: int, y: int, m: int, d: int) -> bool {
    is_date(y, m, d) && day_number(y, m, d) == z
}

/// Whether a date is the one `z` days after the first of January 1970, where
/// the year is cut to 32 bits.
pub open spec fn falls_in(z: int, year: i32, m: int, d: int) -> bool {
    exists|y: int| #[trigger] falls_on(z, y, m, d) && year == y as i32
}

/// A year has 366 days where it is a leap year, and 365 where it is not.
pub proof fn year_length(y: int)
    ensures
        year_start(y + 1) - year_start(y) == if leap(y) {
            366int
        } else {
            365int
        },
        month_start(y, 13) == year_start(y + 1) - year_start(y),
{
    lemma_ceil_step(y, 4);
    lemma_ceil_step(y, 100);
    lemma_ceil_step(y, 400);
    assert(y % 400 == 0 ==> y % 100 == 0);
    assert(y % 100 == 0 ==> y % 4 == 0);
    lemma_twelve_months(y);
}

proof fn lemma_twelve_months(y: int)
    ensures
        month_start(y, 13) == if leap(y) {
            366int
        } else {
            365int
        },
{
    reveal_with_fuel(month_start, 14);
}

proof fn lemma_ceil_step(y: int, k: int)
    requires
        k == 4 || k == 100 || k == 400,
    ensures
        (y + 1 + k - 1) / k - (y + k - 1) / k == if y % k == 0 {
            1int
        } else {
            0int
        },
{
}

proof fn lemma_years_rise(a: int, b: int)
    requires
        a <= b,
    ensures
        year_start(a) + 365 * (b - a) <= year_start(b),
    decreases b - a,
{
    if a < b {
        lemma_years_rise(a, b - 1);
        year_length(b - 1);
    }
}

/// Different dates have different numbers.
pub proof fn day_number_is_unique(y: int, m: int, d: int, y2: int, m2: int, d2: int)
    requires
        is_date(y, m, d),
        is_date(y2, m2, d2),
        day_number(y, m, d) == day_number(y2, m2, d2),
    ensures
        y == y2 && m == m2 && d == d2,
{
    reveal_with_fuel(month_start, 14);
    year_length(y);
    year_length(y2);
    if y < y2 {
        lemma_years_rise(y + 1, y2);
    } else if y2 < y {
        lemma_years_rise(y2 + 1, y);
    }
}

/// Years repeat after 400, which are 146097 days.
proof fn lemma_era(y: int, n: int)
    ensures
        year_start(y + 400 * n) == year_start(y) + 146097 * n,
        leap(y + 400 * n) == leap(y),
{
    lemma_ceil_era(y, n, 4, 100);
    lemma_ceil_era(y, n, 100, 4);
    lemma_ceil_era(y, n, 400, 1);
}

proof fn lemma_ceil_era(y: int, n: int, k: int, q: int)
    requires
        k > 0,
        k * q == 400,
    ensures
        (y + 400 * n + k - 1) / k == (y + k - 1) / k + q * n,
        (y + 400 * n) % k == y % k,
{
    assert(y + 400 * n + k - 1 == (y + k - 1) + (q * n) * k) by (nonlinear_arith)
        requires
            k * q == 400,
    ;
    vstd::arithmetic::div_mod::lemma_hoist_over_denominator(y + k - 1, q * n, k as nat);
    assert(y + 400 * n == k * (q * n) + y) by (nonlinear_arith)
        requires
            k * q == 400,
    ;
    vstd::arithmetic::div_mod::lemma_mod_multiples_vanish(q * n, y, k);
}

proof fn lemma_months_in_era(y: int, n: int, m: int)
    ensures
        month_start(y + 400 * n, m) == month_start(y, m),
    decreases m,
{
    lemma_era(y, n);
    if m > 1 {
        lemma_months_in_era(y, n, m - 1);
    }
}

fn days_in_month(y: u32, m: u32) -> (r: u32)
    requires
        1 <= m <= 12,
    ensures
        r == month_days(y as int, m as int),
{
    if m == 2 {
        if y % 4 == 0 && (y % 100 != 0 || y % 400 == 0) {
            29
        } else {
            28
        }
    } else if m == 4 || m == 6 || m == 9 || m == 11 {
        30
    } else {
        31
    }
}

/// The year of an era that holds a day, and the day on which it starts.
fn year_of_era(doe: u32) -> (r: (u32, u32))
    requires
        doe < 146097,
    ensures
        r.0 < 400,
        r.1 == year_start(r.0 as int),
        r.1 <= doe < year_start(r.0 + 1),
{
    let mut yoe: u32 = doe / 366;
    let mut start: u32 = 365 * yoe + (yoe + 3) / 4 - (yoe + 99) / 100 + (yoe + 399) / 400;
    loop
        invariant
            start == year_start(yoe as int),
            start <= doe,
            doe < 146097,
            yoe < 400,
        decreases 400 - yoe,
    {
        let next: u32 = 365 * (yoe + 1) + (yoe + 4) / 4 - (yoe + 100) / 100 + (yoe + 400) / 400;
        if next > doe {
            return (yoe, start);
        }
        yoe = yoe + 1;
        start = next;
    }
}

/// The month that holds a day of the year, and the day of the month.
fn month_of_year(y: u32, doy: u32) -> (r: (u32, u32))
    requires
        doy < month_start(y as int, 13),
    ensures
        is_date(y as int, r.0 as int, r.1 as int),
        month_start(y as int, r.0 as int) + r.1 - 1 == doy,
{
    let mut m: u32 = 1;
    let mut rest: u32 = doy;
    while rest >= days_in_month(y, m)
        invariant
            1 <= m <= 12,
            rest + month_start(y as int, m as int) == doy,
            doy < month_start(y as int, 13),
        decreases 12 - m,
    {
        rest = rest - days_in_month(y, m);
        m = m + 1;
    }
    (m, rest + 1)
}

/// The date `z` days after the first of January 1970.
fn date_of(z: i64) -> (r: (i64, u32, u32))
    requires
        z <= i64::MAX - 719468,
    ensures
        falls_on(z as int, r.0 as int, r.1 as int, r.2 as int),
{
    // days from the first of the year 0, in eras of 400 years
    let days: i128 = z as i128 + 719528;
    let mut era: i128 = days / 146097;
    if era * 146097 > days {
        era = era - 1;
    }
    let doe: u32 = (days - era * 146097) as u32;
    let (yoe, start) = year_of_era(doe);
    proof {
        year_length(yoe as int);
    }
    let (m, d) = month_of_year(yoe, doe - start);
    let y: i64 = (yoe as i128 + era * 400) as i64;
    proof {
        lemma_era(yoe as int, era as int);
        lemma_months_in_era(yoe as int, era as int, m as int);
        assert(year_start(1970) == 719528);
    }
    (y, m, d)
}

/// The date `z` days after the first of January 1970. The year is cut to 32
/// bits.
pub fn civil_from_days(z: i64) -> (r: (i32, u32, u32))
    requires
        z <= i64::MAX - 719468,
    ensures
        falls_in(z as int, r.0, r.1 as int, r.2 as int),
{
    let (y, m, d) = date_of(z);
    let cut = y as i32;
    proof {
        let year = y as int;
        assert(falls_on(z as int, year, m as int, d as int) && cut == year as i32);
    }
    (cut, m, d)
}

/// A number of at least `w` digits, zeros first; a sign takes the place of one.
pub open spec fn zero_filled(n: int, w: int) -> Seq<char> {
    if n < 0 {
        seq!['-'] + zero_filled_digits(-n, w - 1)
    } else {
        zero_filled_digits(n, w)
    }
}

pub open spec fn zero_filled_digits(n: int, w: int) -> Seq<char> {
    if n < ten_to(w) {
        padded(n, w)
    } else {
        decimal(n)
    }
}

/// Whether a text is the date `z` days after the first of January 1970.
pub open spec fn date_text(s: Seq<char>, z: int) -> bool {
    exists|year: i32, m: int, d: int| #[trigger]
        falls_in(z, year, m, d) && s == zero_filled(year as int, 4) + "-"@ + padded(m, 2) + "-"@
            + padded(d, 2)
}

fn push_zero_filled(out: &mut String, n: i32)
    ensures
        final(out)@ == old(out)@ + zero_filled(n as int, 4),
{
    proof {
        reveal_with_fuel(ten_to, 5);
    }
    if n < 0 {
        out.push('-');
        let k: u64 = (-(n as i64)) as u64;
        if k < 1000 {
            push_padded(out, k, 3);
        } else {
            push_decimal(out, k);
        }
    } else {
        let k: u64 = n as u64;
        if k < 10000 {
            push_padded(out, k, 4);
        } else {
            push_decimal(out, k);
        }
    }
    assert(out@ =~= old(out)@ + zero_filled(n as int, 4));
}

/// The days that have passed at a time in seconds.
pub open spec fn day_of(unix: u64) -> int {
    unix as int / 86400
}

/// The day of a time in seconds, such as `1970-01-01`.
pub fn ymd(unix: u64) -> (r: String)
    ensures
        date_text(r@, day_of(unix)),
{
    let (y, m, d) = civil_from_days((unix / 86400) as i64);
    let mut out: String = String::new();
    push_zero_filled(&mut out, y);
    out.append("-");
    push_padded(&mut out, m as u64, 2);
    out.append("-");
    push_padded(&mut out, d as u64, 2);
    assert(falls_in(unix as int / 86400, y, m as int, d as int));
    assert(out@ =~= zero_filled(y as int, 4) + "-"@ + padded(m as int, 2) + "-"@ + padded(
        d as int,
        2,
    ));
    out
}

/// A day has one text.
pub proof fn date_text_is_unique(s: Seq<char>, t: Seq<char>, z: int)
    requires
        date_text(s, z),
        date_text(t, z),
    ensures
        s == t,
{
    let (y1, m1, d1) = choose|year: i32, m: int, d: int| #[trigger]
        falls_in(z, year, m, d) && s == zero_filled(year as int, 4) + "-"@ + padded(m, 2) + "-"@
            + padded(d, 2);
    let (y2, m2, d2) = choose|year: i32, m: int, d: int| #[trigger]
        falls_in(z, year, m, d) && t == zero_filled(year as int, 4) + "-"@ + padded(m, 2) + "-"@
            + padded(d, 2);
    let a = choose|y: int| #[trigger] falls_on(z, y, m1, d1) && y1 == y as i32;
    let b = choose|y: int| #[trigger] falls_on(z, y, m2, d2) && y2 == y as i32;
    day_number_is_unique(a, m1, d1, b, m2, d2);
}

/// A day is 24 hours, which are 86400 seconds, and days are counted from the first
/// of January 1970.
pub proof fn days_have_24_hours(unix: u64)
    ensures
        day_of(unix) * 86400 <= unix < (day_of(unix) + 1) * 86400,
        falls_on(0, 1970, 1, 1),
        falls_on(11016, 2000, 2, 29),
{
    reveal_with_fuel(month_start, 3);
}

/// But for February, months have 31 and 30 days in turn, where July and August
/// both have 31; February has 28, or 29 in a year of 366 days.
pub proof fn months_take_turns(y: int, m: int)
    requires
        1 <= m <= 12,
    ensures
        m != 2 ==> month_days(y, m) == 30 + (m + m / 8) % 2,
        month_days(y, 2) == 28 + year_start(y + 1) - year_start(y) - 365,
{
    year_length(y);
}

/// A day is followed by the next of its month, or by the first of the next
/// month, or by the first of the next year.
pub proof fn days_follow_each_other(y: int, m: int, d: int)
    requires
        is_date(y, m, d),
    ensures
        d < month_days(y, m) ==> day_number(y, m, d + 1) == day_number(y, m, d) + 1,
        d == month_days(y, m) && m < 12 ==> day_number(y, m + 1, 1) == day_number(y, m, d) + 1,
        d == month_days(y, m) && m == 12 ==> day_number(y + 1, 1, 1) == day_number(y, m, d) + 1,
{
    year_length(y);
    reveal_with_fuel(month_start, 2);
    if m == 12 {
        assert(month_start(y, 13) == month_start(y, 12) + month_days(y, 12));
    }
}

} // verus!
