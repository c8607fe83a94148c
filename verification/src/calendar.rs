//! The UTC calendar (proleptic Gregorian) of a Unix time: which year and
//! month a moment falls in.

use vstd::prelude::*;

verus! {

/// The Unix times the calendar handles: a little over half a million
/// years either side of 1970, more than `chrono`'s `DateTime` can hold.
pub open spec fn in_time_range(secs: int) -> bool {
    -17592186044416 <= secs <= 17592186044416
}

/// The day a moment falls in, counted from 1970-01-01 (rounded down).
pub open spec fn day_of(secs: int) -> int {
    secs / 86400
}

/// The leap-year count of the Gregorian rule up to year `n`, up to a
/// constant: each step from `n - 1` to `n` adds one exactly when `n` is a
/// leap year.
pub open spec fn leaps_through(n: int) -> int {
    n / 4 - n / 100 + n / 400
}

/// Gregorian leap years.
pub open spec fn is_leap_year(y: int) -> bool {
    y % 4 == 0 && (y % 100 != 0 || y % 400 == 0)
}

/// The day on which year `y` starts, counted from 1970-01-01.
pub open spec fn year_start(y: int) -> int {
    365 * (y - 1970) + leaps_through(y - 1) - leaps_through(1969)
}

/// The days of a year before month `m` (`m` from 1 to 13: 13 gives the
/// length of the year).
pub open spec fn days_before_month(m: int, leap: bool) -> int {
    let l: int = if leap {
        1
    } else {
        0
    };
    if m <= 1 {
        0
    } else if m == 2 {
        31
    } else if m == 3 {
        59 + l
    } else if m == 4 {
        90 + l
    } else if m == 5 {
        120 + l
    } else if m == 6 {
        151 + l
    } else if m == 7 {
        181 + l
    } else if m == 8 {
        212 + l
    } else if m == 9 {
        243 + l
    } else if m == 10 {
        273 + l
    } else if m == 11 {
        304 + l
    } else if m == 12 {
        334 + l
    } else {
        365 + l
    }
}

/// The day on which month `m` of year `y` starts.
pub open spec fn month_start(y: int, m: int) -> int {
    year_start(y) + days_before_month(m, is_leap_year(y))
}

/// The moment `secs` falls in month `m` (1 to 12) of year `y`.
pub open spec fn in_month(secs: int, y: int, m: int) -> bool {
    1 <= m <= 12 && month_start(y, m) <= day_of(secs) < month_start(y, m + 1)
}

/// The year and month of a moment.
pub open spec fn calendar(secs: int) -> (int, int) {
    choose|ym: (int, int)| in_month(secs, ym.0, ym.1)
}

/// A year is 365 days long, 366 in a leap year.
pub proof fn lemma_year_length(y: int)
    ensures
        year_start(y + 1) == year_start(y) + 365 + (if is_leap_year(y) {
            1int
        } else {
            0int
        }),
{
    assert(leaps_through(y) - leaps_through(y - 1) == (if is_leap_year(y) {
        1int
    } else {
        0int
    })) by (nonlinear_arith);
}

/// Later years start later.
pub proof fn lemma_year_start_increasing(a: int, b: int)
    requires
        a < b,
    ensures
        year_start(a) + 365 * (b - a) <= year_start(b),
    decreases b - a,
{
    lemma_year_length(b - 1);
    if a < b - 1 {
        lemma_year_start_increasing(a, b - 1);
    }
}

/// A moment falls in one month only.
pub proof fn lemma_in_month_unique(secs: int, y1: int, m1: int, y2: int, m2: int)
    requires
        in_month(secs, y1, m1),
        in_month(secs, y2, m2),
    ensures
        y1 == y2 && m1 == m2,
{
    lemma_year_length(y1);
    lemma_year_length(y2);
    if y1 < y2 {
        lemma_year_start_increasing(y1 + 1, y2);
        assert(false);
    } else if y2 < y1 {
        lemma_year_start_increasing(y2 + 1, y1);
        assert(false);
    }
}

/// `calendar` gives the month a moment falls in.
pub proof fn lemma_calendar(secs: int, y: int, m: int)
    requires
        in_month(secs, y, m),
    ensures
        calendar(secs) == (y, m),
{
    assert(exists|ym: (int, int)| in_month(secs, ym.0, ym.1)) by {
        assert(in_month(secs, (y, m).0, (y, m).1));
    }
    let ym = calendar(secs);
    lemma_in_month_unique(secs, y, m, ym.0, ym.1);
}

fn day_number(secs: i64) -> (d: i64)
    requires
        in_time_range(secs as int),
    ensures
        d == day_of(secs as int),
        -203613265 <= d <= 203613264,
{
    let shifted: u64 = (secs + 23192823398400) as u64;
    let q: u64 = shifted / 86400;
    assert(q == secs / 86400 + 268435456) by (nonlinear_arith)
        requires
            shifted == secs + 23192823398400,
            q == shifted / 86400,
    ;
    q as i64 - 268435456
}

fn leaps_of(n: i64) -> (r: i64)
    requires
        -1000001 <= n <= 1000000,
    ensures
        r == leaps_through(n as int),
{
    let s: u64 = (n + 2000000) as u64;
    let a: u64 = s / 4;
    let b: u64 = s / 100;
    let c: u64 = s / 400;
    assert(a == n / 4 + 500000 && b == n / 100 + 20000 && c == n / 400 + 5000) by (
    nonlinear_arith)
        requires
            s == n + 2000000,
            a == s / 4,
            b == s / 100,
            c == s / 400,
    ;
    a as i64 - b as i64 + c as i64 - 485000
}

fn year_start_of(y: i64) -> (r: i64)
    requires
        -1000000 <= y <= 1000000,
    ensures
        r == year_start(y as int),
{
    365 * (y - 1970) + leaps_of(y - 1) - leaps_of(1969)
}

fn leap_year(y: i64) -> (b: bool)
    ensures
        b == is_leap_year(y as int),
{
    y % 4 == 0 && (y % 100 != 0 || y % 400 == 0)
}

fn days_before(m: u32, leap: bool) -> (r: i64)
    ensures
        r == days_before_month(m as int, leap),
{
    let l: i64 = if leap {
        1
    } else {
        0
    };
    if m <= 1 {
        0
    } else if m == 2 {
        31
    } else if m == 3 {
        59 + l
    } else if m == 4 {
        90 + l
    } else if m == 5 {
        120 + l
    } else if m == 6 {
        151 + l
    } else if m == 7 {
        181 + l
    } else if m == 8 {
        212 + l
    } else if m == 9 {
        243 + l
    } else if m == 10 {
        273 + l
    } else if m == 11 {
        304 + l
    } else if m == 12 {
        334 + l
    } else {
        365 + l
    }
}

/// The calendar year and month (1 to 12) of a Unix time, in UTC.
pub fn year_month(unix_seconds: i64) -> (r: (i64, u32))
    requires
        in_time_range(unix_seconds as int),
    ensures
        in_month(unix_seconds as int, r.0 as int, r.1 as int),
        calendar(unix_seconds as int) == (r.0 as int, r.1 as int),
        -600000 <= r.0 <= 600000,
{
    let d = day_number(unix_seconds);
    let shifted: u64 = (d + 292194000) as u64;
    let q: u64 = (shifted * 400) / 146097;
    let estimate: i64 = 1970 + q as i64 - 800000;
    proof {
        let t = q as int - 800000;
        assert(146097 * t <= 400 * d && 400 * d < 146097 * t + 146097) by (nonlinear_arith)
            requires
                shifted == d + 292194000,
                q == (shifted * 400) / 146097,
                t == q - 800000,
        ;
        let e = estimate as int;
        assert(year_start(e - 1) <= d && d < year_start(e + 2)) by (nonlinear_arith)
            requires
                e == 1970 + t,
                146097 * t <= 400 * d,
                400 * d < 146097 * t + 146097,
        ;
    }
    let mut y: i64 = estimate;
    while year_start_of(y) > d
        invariant
            estimate - 1 <= y <= estimate,
            -600000 <= estimate <= 600000,
            year_start(estimate - 1) <= d,
            d < year_start(estimate + 2),
        decreases y - estimate + 1,
    {
        y = y - 1;
    }
    while year_start_of(y + 1) <= d
        invariant
            estimate - 1 <= y <= estimate + 1,
            -600000 <= estimate <= 600000,
            year_start(y as int) <= d,
            d < year_start(estimate + 2),
        decreases estimate + 1 - y,
    {
        y = y + 1;
    }
    proof {
        lemma_year_length(y as int);
    }
    let leap = leap_year(y);
    let start = year_start_of(y);
    assert(start <= d < start + 366);
    let mut m: u32 = 1;
    while m < 12 && start + days_before(m + 1, leap) <= d
        invariant
            1 <= m <= 12,
            start == year_start(y as int),
            start <= d < start + 366,
            -203613265 <= d <= 203613264,
            leap == is_leap_year(y as int),
            month_start(y as int, m as int) <= d,
            d < year_start(y as int + 1),
            year_start(y as int + 1) == month_start(y as int, 13),
        decreases 12 - m,
    {
        m = m + 1;
    }
    proof {
        lemma_calendar(unix_seconds as int, y as int, m as int);
    }
    (y, m)
}

} // verus!
