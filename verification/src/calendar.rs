//! Proleptic Gregorian calendar arithmetic on plain timestamps: seconds
//! since the Unix epoch, UTC. The journal names its segment files by the
//! event's calendar year and month, and the date-range filters of the
//! report consumers turn years, months and days into timestamp bounds.
//!
//! The supported range runs from the epoch to the last second of year
//! 9999.

use vstd::prelude::*;

verus! {

/// The supported timestamp ceiling: above every instant of year 9999.
pub const MAX_TS: i64 = 253928304000;

/// Whether `y` is a leap year.
pub open spec fn is_leap_spec(y: int) -> bool {
    y % 4 == 0 && (y % 100 != 0 || y % 400 == 0)
}

/// The number of days of year `y`.
pub open spec fn days_in_year(y: int) -> int {
    if is_leap_spec(y) {
        366
    } else {
        365
    }
}

/// The number of days of month `m` of year `y` (month 13 and above count
/// as zero days).
pub open spec fn days_in_month(y: int, m: int) -> int {
    if m == 1 || m == 3 || m == 5 || m == 7 || m == 8 || m == 10 || m == 12 {
        31
    } else if m == 4 || m == 6 || m == 9 || m == 11 {
        30
    } else if m == 2 {
        if is_leap_spec(y) {
            29
        } else {
            28
        }
    } else {
        0
    }
}

/// Days from the epoch to the first day of year `y`.
pub open spec fn days_before_year(y: int) -> int
    decreases y - 1970,
{
    if y <= 1970 {
        0
    } else {
        days_before_year(y - 1) + days_in_year(y - 1)
    }
}

/// Days from the first day of year `y` to the first day of its month `m`.
pub open spec fn days_before_month(y: int, m: int) -> int
    decreases m,
{
    if m <= 1 {
        0
    } else {
        days_before_month(y, m - 1) + days_in_month(y, m - 1)
    }
}

/// The twelve months of a year hold exactly its days.
pub proof fn lemma_year_months(y: int)
    ensures
        days_before_month(y, 13) == days_in_year(y),
{
    reveal_with_fuel(days_before_month, 14);
}

/// Whether `(y, m, d)` names the day `days` after the epoch.
pub open spec fn ymd_ok(days: int, y: int, m: int, d: int) -> bool {
    &&& 1970 <= y
    &&& 1 <= m <= 12
    &&& 1 <= d <= days_in_month(y, m)
    &&& days == days_before_year(y) + days_before_month(y, m) + (d - 1)
}

/// Whether `y` is a leap year.
pub fn is_leap(y: i64) -> (r: bool)
    requires
        y >= 0,
    ensures
        r == is_leap_spec(y as int),
{
    y % 4 == 0 && (y % 100 != 0 || y % 400 == 0)
}

/// The number of days of year `y`.
pub fn year_days(y: i64) -> (r: i64)
    requires
        y >= 0,
    ensures
        r == days_in_year(y as int),
{
    if is_leap(y) {
        366
    } else {
        365
    }
}

/// The number of days of month `m` of year `y`.
pub fn month_days(y: i64, m: u32) -> (r: i64)
    requires
        y >= 0,
        1 <= m <= 12,
    ensures
        r == days_in_month(y as int, m as int),
{
    if m == 1 || m == 3 || m == 5 || m == 7 || m == 8 || m == 10 || m == 12 {
        31
    } else if m == 4 || m == 6 || m == 9 || m == 11 {
        30
    } else {
        if is_leap(y) {
            29
        } else {
            28
        }
    }
}

/// The calendar date of a timestamp: the year, month and day that the
/// timestamp's day after the epoch falls in.
pub fn ymd_from_ts(ts: i64) -> (r: (i64, u32, u32))
    requires
        0 <= ts <= MAX_TS,
    ensures
        ymd_ok(ts as int / 86400, r.0 as int, r.1 as int, r.2 as int),
{
    let days: i64 = ts / 86400;
    let mut y: i64 = 1970;
    let mut rem: i64 = days;
    while rem >= year_days(y)
        invariant
            1970 <= y,
            y <= 1970 + (days - rem),
            0 <= rem,
            days == days_before_year(y as int) + rem,
            days <= MAX_TS / 86400,
        decreases rem,
    {
        rem = rem - year_days(y);
        y = y + 1;
    }
    let mut m: u32 = 1;
    while rem >= month_days(y, m)
        invariant
            1970 <= y,
            1 <= m <= 12,
            0 <= rem,
            rem < days_in_year(y as int) - days_before_month(y as int, m as int),
            days == days_before_year(y as int) + days_before_month(y as int, m as int) + rem,
        decreases 12 - m,
    {
        proof {
            lemma_year_months(y as int);
            if m == 12 {
                assert(days_before_month(y as int, 13) == days_before_month(y as int, 12)
                    + days_in_month(y as int, 12));
                assert(false);
            }
        }
        rem = rem - month_days(y, m);
        m = m + 1;
    }
    let d: u32 = (rem + 1) as u32;
    (y, m, d)
}

/// The timestamp of midnight on `(y, m, d)`, or `None` when that triple
/// does not name a supported calendar date.
pub fn ts_from_ymd(y: i64, m: u32, d: u32) -> (r: Option<i64>)
    ensures
        match r {
            Some(ts) => {
                &&& 1970 <= y <= 9999 && 1 <= m <= 12
                &&& 1 <= d as int <= days_in_month(y as int, m as int)
                &&& ts == (days_before_year(y as int) + days_before_month(y as int, m as int) + (
                d - 1)) * 86400
                &&& 0 <= ts <= MAX_TS
            },
            None => !(1970 <= y <= 9999 && 1 <= m <= 12 && 1 <= d as int <= days_in_month(
                y as int,
                m as int,
            )),
        },
{
    if !(1970 <= y && y <= 9999) || !(1 <= m && m <= 12) {
        return None;
    }
    if d < 1 || (d as i64) > month_days(y, m) {
        return None;
    }
    let mut yy: i64 = 1970;
    let mut acc: i64 = 0;
    while yy < y
        invariant
            1970 <= yy <= y <= 9999,
            acc == days_before_year(yy as int),
            0 <= acc <= (yy - 1970) * 366,
        decreases y - yy,
    {
        proof {
            assert((yy - 1970) * 366 + 366 == (yy + 1 - 1970) * 366) by (nonlinear_arith);
            assert((yy + 1 - 1970) * 366 <= (9999 - 1970) * 366) by (nonlinear_arith)
                requires
                    yy + 1 <= 9999,
            ;
        }
        acc = acc + year_days(yy);
        yy = yy + 1;
    }
    proof {
        assert((y - 1970) * 366 <= (9999 - 1970) * 366) by (nonlinear_arith)
            requires
                y <= 9999,
        ;
    }
    let mut mm: u32 = 1;
    let mut macc: i64 = 0;
    while mm < m
        invariant
            1 <= mm <= m <= 12,
            y >= 1970,
            macc == days_before_month(y as int, mm as int),
            0 <= macc <= 31 * (mm - 1),
        decreases m - mm,
    {
        macc = macc + month_days(y, mm);
        mm = mm + 1;
    }
    let days: i64 = acc + macc + (d as i64 - 1);
    proof {
        assert(acc <= 8029 * 366) by (nonlinear_arith)
            requires
                acc <= (y - 1970) * 366,
                1970 <= y <= 9999,
        ;
        assert(days <= 2938985);
        assert(days * 86400 <= 2938985 * 86400) by (nonlinear_arith)
            requires
                0 <= days <= 2938985,
        ;
        assert(days * 86400 >= 0) by (nonlinear_arith)
            requires
                days >= 0,
        ;
    }
    let ts: i64 = days * 86400;
    Some(ts)
}

/// The `YYYY-MM-DD` text of the calendar date a timestamp falls on.
pub fn format_date(ts: i64) -> (r: String)
    requires
        0 <= ts <= MAX_TS,
    ensures
        exists|y: int, m: int, d: int|
            #[trigger] ymd_ok(ts as int / 86400, y, m, d) && r@ == crate::numbers::dec_of_nat(y)
                + seq!['-'] + crate::numbers::two_digits(m) + seq!['-']
                + crate::numbers::two_digits(d),
{
    let (y, m, d) = ymd_from_ts(ts);
    let mut out = crate::numbers::enc_u64(y as u64);
    out.push('-');
    crate::text::extend_chars(&mut out, &crate::numbers::enc_two_digits(m as u64));
    out.push('-');
    crate::text::extend_chars(&mut out, &crate::numbers::enc_two_digits(d as u64));
    proof {
        let yy = y as int;
        let mm = m as int;
        let dd = d as int;
        assert(ymd_ok(ts as int / 86400, yy, mm, dd));
        assert(out@ =~= crate::numbers::dec_of_nat(yy) + seq!['-'] + crate::numbers::two_digits(mm)
            + seq!['-'] + crate::numbers::two_digits(dd));
    }
    crate::text::chars_to_string(&out)
}

} // verus!
