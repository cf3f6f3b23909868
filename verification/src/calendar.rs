use vstd::prelude::*;

verus! {

/// Integer division rounded toward zero, as Rust's `/` does.
pub open spec fn tdiv(a: int, b: int) -> int {
    if a >= 0 {
        a / b
    } else {
        -((-a) / b)
    }
}

/// Remainder of `tdiv`, with the sign of `a`, as Rust's `%` does.
pub open spec fn trem(a: int, b: int) -> int {
    a - b * tdiv(a, b)
}

/// The Julian day number of the Gregorian date `y-mo-d` (the count of days
/// since noon of 24 November 4714 BC), by the Fliegel–Van Flandern formula
/// in integer arithmetic.
pub open spec fn julian_day(y: int, mo: int, d: int) -> int {
    let a = tdiv(14 - mo, 12);
    let yy = y + 4800 - a;
    let mm = mo + 12 * a - 3;
    d + tdiv(153 * mm + 2, 5) + 365 * yy + tdiv(yy, 4) - tdiv(yy, 100) + tdiv(yy, 400) - 32045
}

/// Minutes elapsed between the start of the Julian day count and the time
/// `h:mi` of the date `y-mo-d`.
pub open spec fn minute_number(y: int, mo: int, d: int, h: int, mi: int) -> int {
    julian_day(y, mo, d) * 1440 + h * 60 + mi
}

/// Day of the week of `y-mo-d` with Monday as 0, by Zeller's congruence.
pub open spec fn weekday_number(y: int, mo: int, d: int) -> int {
    let yy = if mo < 3 {
        y - 1
    } else {
        y
    };
    let mm = if mo < 3 {
        mo + 12
    } else {
        mo
    };
    let h = trem(d + tdiv(13 * (mm + 1), 5) + yy + tdiv(yy, 4) - tdiv(yy, 100) + tdiv(yy, 400), 7);
    (h + 5) % 7
}

/// The inputs are far enough from the limits of `i64` for the minute count
/// to be computed without overflow (years up to ten trillion either way).
pub open spec fn minutes_in_range(y: i64, mo: i64, d: i64, h: i64, mi: i64) -> bool {
    &&& -10_000_000_000_000 <= y <= 10_000_000_000_000
    &&& -1_000_000_000_000 <= mo <= 1_000_000_000_000
    &&& -1_000_000_000_000_000 <= d <= 1_000_000_000_000_000
    &&& -1_000_000_000_000_000 <= h <= 1_000_000_000_000_000
    &&& -1_000_000_000_000_000 <= mi <= 1_000_000_000_000_000
}

/// The inputs are far enough from the limits of `i64` for the weekday
/// formula to be computed without overflow.
pub open spec fn weekday_in_range(y: i64, mo: i64, d: i64) -> bool {
    &&& -1_000_000_000_000_000_000 <= y <= 1_000_000_000_000_000_000
    &&& -100_000_000_000_000_000 <= mo <= 100_000_000_000_000_000
    &&& -1_000_000_000_000_000_000 <= d <= 1_000_000_000_000_000_000
}

/// Minutes since the start of the Julian day count at `y-mo-d h:mi`.
pub fn epoch_minutes(y: i64, mo: i64, d: i64, h: i64, mi: i64) -> (r: i64)
    requires
        minutes_in_range(y, mo, d, h, mi),
    ensures
        r == minute_number(y as int, mo as int, d as int, h as int, mi as int),
{
    let a = (14 - mo) / 12;
    let yy = y + 4800 - a;
    let mm = mo + 12 * a - 3;
    let jdn = d + (153 * mm + 2) / 5 + 365 * yy + yy / 4 - yy / 100 + yy / 400 - 32045;
    jdn * 1440 + h * 60 + mi
}

/// Day of the week of `y-mo-d`, Monday being 0 and Sunday 6.
pub fn weekday_mon0(y: i64, mo: i64, d: i64) -> (r: i64)
    requires
        weekday_in_range(y, mo, d),
    ensures
        r == weekday_number(y as int, mo as int, d as int),
        0 <= r < 7,
{
    let (yy, mm) = if mo < 3 {
        (y - 1, mo + 12)
    } else {
        (y, mo)
    };
    let h = (d + 13 * (mm + 1) / 5 + yy + yy / 4 - yy / 100 + yy / 400) % 7;
    let t = h + 5;
    let r = t % 7;
    if r < 0 {
        r + 7
    } else {
        r
    }
}

/// Whether `y` is a leap year of the Gregorian calendar.
pub open spec fn is_leap_year(y: int) -> bool {
    y % 4 == 0 && (y % 100 != 0 || y % 400 == 0)
}

/// Number of days of month `mo` (1 to 12) of year `y`.
pub open spec fn days_in_month(y: int, mo: int) -> int {
    if mo == 2 {
        if is_leap_year(y) {
            29
        } else {
            28
        }
    } else if mo == 4 || mo == 6 || mo == 9 || mo == 11 {
        30
    } else {
        31
    }
}

/// The calendar date that follows `y-mo-d`.
pub open spec fn next_day(y: int, mo: int, d: int) -> (int, int, int) {
    if d < days_in_month(y, mo) {
        (y, mo, d + 1)
    } else if mo < 12 {
        (y, mo + 1, 1)
    } else {
        (y + 1, 1, 1)
    }
}

proof fn lemma_div_step(n: int, k: int)
    requires
        0 <= n,
        0 < k,
    ensures
        (n + 1) / k - n / k == if (n + 1) % k == 0 {
            1int
        } else {
            0int
        },
{
    assert((n + 1) / k - n / k == if (n + 1) % k == 0 {
        1int
    } else {
        0int
    }) by (nonlinear_arith)
        requires
            0 <= n,
            0 < k,
    ;
}

/// The day after a date has the next Julian day number, across month ends,
/// leap days and year ends.
pub proof fn lemma_julian_day_next(y: int, mo: int, d: int)
    requires
        0 <= y,
        1 <= mo <= 12,
        1 <= d <= days_in_month(y, mo),
    ensures
        julian_day(next_day(y, mo, d).0, next_day(y, mo, d).1, next_day(y, mo, d).2) == julian_day(
            y,
            mo,
            d,
        ) + 1,
{
    if d < days_in_month(y, mo) {
    } else if mo == 2 {
        let n = y + 4799;
        lemma_div_step(n, 4);
        lemma_div_step(n, 100);
        lemma_div_step(n, 400);
        assert((n + 1) % 4 == y % 4);
        assert((n + 1) % 100 == y % 100);
        assert((n + 1) % 400 == y % 400);
    }
}

/// A date a day later is 1440 minutes later at the same time of day.
pub proof fn lemma_minute_number_next_day(y: int, mo: int, d: int, h: int, mi: int)
    requires
        0 <= y,
        1 <= mo <= 12,
        1 <= d <= days_in_month(y, mo),
    ensures
        minute_number(next_day(y, mo, d).0, next_day(y, mo, d).1, next_day(y, mo, d).2, h, mi)
            == minute_number(y, mo, d, h, mi) + 1440,
{
    lemma_julian_day_next(y, mo, d);
}

/// The weekday that Zeller's congruence gives is the Julian day number
/// modulo 7 (day number 0 being a Monday).
pub proof fn lemma_weekday_from_julian_day(y: int, mo: int, d: int)
    requires
        1 <= y,
        1 <= mo <= 12,
        0 <= d,
    ensures
        weekday_number(y, mo, d) == julian_day(y, mo, d) % 7,
{
    let big_y = if mo < 3 {
        y - 1
    } else {
        y
    };
    let big_m = if mo < 3 {
        mo + 12
    } else {
        mo
    };
    let n = big_y + 4800;
    assert(n / 4 == big_y / 4 + 1200);
    assert(n / 100 == big_y / 100 + 48);
    assert(n / 400 == big_y / 400 + 12);
    let s = d + big_y + big_y / 4 - big_y / 100 + big_y / 400;
    assert(big_y / 4 >= big_y / 100) by (nonlinear_arith)
        requires
            big_y >= 0,
    ;
    let p = (153 * (big_m - 3) + 2) / 5;
    let q = (13 * (big_m + 1)) / 5;
    assert(julian_day(y, mo, d) == s + 364 * big_y + p + 1721119);
    assert(weekday_number(y, mo, d) == ((s + q) % 7 + 5) % 7);
    assert((p - q + 3) % 7 == 0) by {
        if big_m == 3 {
        } else if big_m == 4 {
        } else if big_m == 5 {
        } else if big_m == 6 {
        } else if big_m == 7 {
        } else if big_m == 8 {
        } else if big_m == 9 {
        } else if big_m == 10 {
        } else if big_m == 11 {
        } else if big_m == 12 {
        } else if big_m == 13 {
        } else {
            assert(big_m == 14);
        }
    }
    assert((s + 364 * big_y + p + 1721119) % 7 == ((s + q) % 7 + 5) % 7) by (nonlinear_arith)
        requires
            (p - q + 3) % 7 == 0,
    ;
}

/// The day after a date falls on the next day of the week.
pub proof fn lemma_weekday_next_day(y: int, mo: int, d: int)
    requires
        1 <= y,
        1 <= mo <= 12,
        1 <= d <= days_in_month(y, mo),
    ensures
        weekday_number(next_day(y, mo, d).0, next_day(y, mo, d).1, next_day(y, mo, d).2) == (
        weekday_number(y, mo, d) + 1) % 7,
{
    let (ny, nmo, nd) = next_day(y, mo, d);
    lemma_julian_day_next(y, mo, d);
    lemma_weekday_from_julian_day(y, mo, d);
    lemma_weekday_from_julian_day(ny, nmo, nd);
    let j = julian_day(y, mo, d);
    assert((j + 1) % 7 == (j % 7 + 1) % 7) by (nonlinear_arith);
}

/// `y-mo-d` is a date of the Gregorian calendar in a year from 0 on.
pub open spec fn valid_date(y: int, mo: int, d: int) -> bool {
    &&& 0 <= y
    &&& 1 <= mo <= 12
    &&& 1 <= d <= days_in_month(y, mo)
}

/// The date `n` days after `y-mo-d`.
pub open spec fn days_after(y: int, mo: int, d: int, n: nat) -> (int, int, int)
    decreases n,
{
    if n == 0 {
        (y, mo, d)
    } else {
        let prev = days_after(y, mo, d, (n - 1) as nat);
        next_day(prev.0, prev.1, prev.2)
    }
}

/// Counting `n` days on from a date gives a date whose Julian day number is
/// `n` more.
pub proof fn lemma_julian_day_after(y: int, mo: int, d: int, n: nat)
    requires
        valid_date(y, mo, d),
    ensures
        valid_date(days_after(y, mo, d, n).0, days_after(y, mo, d, n).1, days_after(y, mo, d, n).2),
        julian_day(days_after(y, mo, d, n).0, days_after(y, mo, d, n).1, days_after(y, mo, d, n).2)
            == julian_day(y, mo, d) + n,
    decreases n,
{
    if n > 0 {
        lemma_julian_day_after(y, mo, d, (n - 1) as nat);
        let prev = days_after(y, mo, d, (n - 1) as nat);
        lemma_julian_day_next(prev.0, prev.1, prev.2);
    }
}

/// From `h1:mi1` on a date to `h2:mi2` on the date `n` days later there are
/// `n * 1440 + (h2 - h1) * 60 + (mi2 - mi1)` minutes.
pub proof fn lemma_minutes_between(y: int, mo: int, d: int, n: nat, h1: int, mi1: int, h2: int, mi2: int)
    requires
        valid_date(y, mo, d),
    ensures
        minute_number(days_after(y, mo, d, n).0, days_after(y, mo, d, n).1, days_after(y, mo, d, n).2, h2, mi2)
            - minute_number(y, mo, d, h1, mi1) == n * 1440 + (h2 - h1) * 60 + (mi2 - mi1),
{
    lemma_julian_day_after(y, mo, d, n);
}

/// The date `n` days later falls `n` days further on in the week.
pub proof fn lemma_weekday_after(y: int, mo: int, d: int, n: nat)
    requires
        valid_date(y, mo, d),
        1 <= y,
    ensures
        weekday_number(days_after(y, mo, d, n).0, days_after(y, mo, d, n).1, days_after(y, mo, d, n).2)
            == (weekday_number(y, mo, d) + n) % 7,
{
    lemma_julian_day_after(y, mo, d, n);
    let later = days_after(y, mo, d, n);
    lemma_days_after_year(y, mo, d, n);
    lemma_weekday_from_julian_day(y, mo, d);
    lemma_weekday_from_julian_day(later.0, later.1, later.2);
    let j = julian_day(y, mo, d);
    assert((j + n) % 7 == (j % 7 + n) % 7) by (nonlinear_arith);
}

/// The weekday of a date is its minute count at midnight, in whole days,
/// modulo 7 (Monday being 0).
pub proof fn lemma_weekday_from_minutes(y: int, mo: int, d: int)
    requires
        1 <= y,
        1 <= mo <= 12,
        0 <= d,
    ensures
        weekday_number(y, mo, d) == (minute_number(y, mo, d, 0, 0) / 1440) % 7,
{
    lemma_weekday_from_julian_day(y, mo, d);
    let j = julian_day(y, mo, d);
    assert((j * 1440) / 1440 == j) by (nonlinear_arith);
}

proof fn lemma_days_after_year(y: int, mo: int, d: int, n: nat)
    requires
        valid_date(y, mo, d),
    ensures
        y <= days_after(y, mo, d, n).0,
    decreases n,
{
    if n > 0 {
        lemma_days_after_year(y, mo, d, (n - 1) as nat);
    }
}

} // verus!
