//! Dates of the proleptic Gregorian calendar as day numbers, day 0 being
//! 1970-01-01.

use vstd::prelude::*;

verus! {

/// Whether `y` is a leap year.
pub open spec fn is_leap(y: int) -> bool {
    y % 4 == 0 && (y % 100 != 0 || y % 400 == 0)
}

/// The number of days in year `y`.
pub open spec fn days_in_year(y: int) -> int {
    if is_leap(y) {
        366
    } else {
        365
    }
}

/// The number of days in month `m` of year `y`.
pub open spec fn days_in_month(y: int, m: int) -> int {
    if m == 2 {
        if is_leap(y) {
            29
        } else {
            28
        }
    } else if m == 4 || m == 6 || m == 9 || m == 11 {
        30
    } else {
        31
    }
}

/// The day number of the first day of year `y`.
pub open spec fn year_start(y: int) -> int
    decreases (if y >= 1970 {
        y - 1970
    } else {
        1970 - y
    }),
{
    if y == 1970 {
        0
    } else if y > 1970 {
        year_start(y - 1) + days_in_year(y - 1)
    } else {
        year_start(y + 1) - days_in_year(y)
    }
}

/// How many days of year `y` come before month `m`.
pub open spec fn month_start(y: int, m: int) -> int
    decreases m,
{
    if m <= 1 {
        0
    } else {
        month_start(y, m - 1) + days_in_month(y, m - 1)
    }
}

/// The number of day `d` of month `m` of year `y`, counted from the first day of
/// that month.
pub open spec fn day_number(y: int, m: int, d: int) -> int {
    year_start(y) + month_start(y, m) + d - 1
}

/// Whether `y-m-d` is a date.
pub open spec fn is_date(y: int, m: int, d: int) -> bool {
    1 <= m <= 12 && 1 <= d <= days_in_month(y, m)
}

/// The date of a day.
pub open spec fn civil(day: int) -> (int, int, int) {
    choose|date: (int, int, int)|
        is_date(date.0, date.1, date.2) && #[trigger] day_number(date.0, date.1, date.2) == day
}

/// The number of leap days before year `y`, up to a constant.
spec fn leaps(y: int) -> int {
    (y - 1) / 4 - (y - 1) / 100 + (y - 1) / 400
}

/// One year adds a leap day if it is a leap year.
proof fn lemma_leaps(y: int)
    ensures
        leaps(y + 1) == leaps(y) + (if is_leap(y) {
            1int
        } else {
            0
        }),
{
    assert(y / 4 == (y - 1) / 4 + (if y % 4 == 0 {
        1int
    } else {
        0
    }));
    assert(y / 100 == (y - 1) / 100 + (if y % 100 == 0 {
        1int
    } else {
        0
    }));
    assert(y / 400 == (y - 1) / 400 + (if y % 400 == 0 {
        1int
    } else {
        0
    }));
}

/// The start of a year in closed form.
proof fn lemma_year_start(y: int)
    ensures
        year_start(y) == 365 * (y - 1970) + leaps(y) - 477,
    decreases (if y >= 1970 {
        y - 1970
    } else {
        1970 - y
    }),
{
    if y > 1970 {
        lemma_year_start(y - 1);
        lemma_leaps(y - 1);
    } else if y < 1970 {
        lemma_year_start(y + 1);
        lemma_leaps(y);
    }
}

/// The start of each month in a year that is counted from March.
proof fn lemma_month_start(y: int, m: int)
    requires
        1 <= m <= 12,
    ensures
        m > 2 ==> month_start(y, m) == (153 * (m - 3) + 2) / 5 + 59 + (if is_leap(y) {
            1int
        } else {
            0
        }),
        m <= 2 ==> month_start(y, m) == 31 * (m - 1),
        m <= 2 ==> (153 * (m + 9) + 2) / 5 == 306 + 31 * (m - 1),
{
    reveal_with_fuel(month_start, 13);
}

/// A day number in terms of years that start in March.
proof fn lemma_day_number(y: int, m: int, d: int)
    requires
        1 <= m <= 12,
    ensures
        ({
            let yy = if m <= 2 {
                y - 1
            } else {
                y
            };
            let mp = if m > 2 {
                m - 3
            } else {
                m + 9
            };
            day_number(y, m, d) == 365 * yy + yy / 4 - yy / 100 + yy / 400 + (153 * mp + 2) / 5 + d
                - 1 - 719468
        }),
{
    lemma_year_start(y);
    lemma_month_start(y, m);
}

/// Days since 1970-01-01 for `y-m-d`.
pub fn days_from_civil(y: i64, m: i64, d: i64) -> (days: i64)
    requires
        -25_000_000_000_000_000 <= y <= 25_000_000_000_000_000,
        1 <= m <= 12,
        1 <= d <= 31,
    ensures
        days == day_number(y as int, m as int, d as int),
{
    let yy: i64 = if m <= 2 {
        y - 1
    } else {
        y
    };
    let era: i64 = if yy >= 0 {
        yy / 400
    } else {
        -((399 - yy) / 400)
    };
    let yoe: i64 = yy - era * 400;
    let mp: i64 = if m > 2 {
        m - 3
    } else {
        m + 9
    };
    let doy: i64 = (153 * mp + 2) / 5 + d - 1;
    let doe: i64 = yoe * 365 + yoe / 4 - yoe / 100 + doy;
    proof {
        lemma_day_number(y as int, m as int, d as int);
        assert(0 <= yoe < 400);
        assert(yy / 4 == era * 100 + yoe / 4);
        assert(yy / 100 == era * 4 + yoe / 100);
        assert(yy / 400 == era);
    }
    era * 146097 + doe - 719468
}

/// The 400-year era of a day counted from a first of March.
fn era_of(shifted: i64) -> (era: i64)
    requires
        shifted >= i64::MIN + 719468,
    ensures
        0 <= shifted - era * 146097 < 146097,
        -70_000_000_000_000 <= era <= 70_000_000_000_000,
{
    if shifted >= 0 {
        shifted / 146097
    } else {
        -((146096 - shifted) / 146097)
    }
}

/// The century, group of four years, year and day that a day of an era is in.
fn split_era(doe: i64) -> (parts: (i64, i64, i64, i64))
    requires
        0 <= doe < 146097,
    ensures
        ({
            let (century, quad, year, doy) = parts;
            &&& doe == century * 36524 + quad * 1461 + year * 365 + doy
            &&& 0 <= century <= 3
            &&& 0 <= quad <= 24
            &&& 0 <= year <= 3
            &&& 0 <= doy <= 365
            &&& (doy == 365 ==> year == 3 && (quad == 24 ==> century == 3))
        }),
{
    let century: i64 = if doe / 36524 < 3 {
        doe / 36524
    } else {
        3
    };
    let in_century: i64 = doe - century * 36524;
    let quad: i64 = in_century / 1461;
    let in_quad: i64 = in_century % 1461;
    let year: i64 = if in_quad / 365 < 3 {
        in_quad / 365
    } else {
        3
    };
    (century, quad, year, in_quad - year * 365)
}

/// The date of day `z`.
pub fn civil_from_days(z: i64) -> (date: (i64, i64, i64))
    requires
        z <= i64::MAX - 719468,
    ensures
        is_date(date.0 as int, date.1 as int, date.2 as int),
        day_number(date.0 as int, date.1 as int, date.2 as int) == z,
        (date.0 as int, date.1 as int, date.2 as int) == civil(z as int),
{
    let shifted: i64 = z + 719468;
    let era: i64 = era_of(shifted);
    let (century, quad, year, doy) = split_era(shifted - era * 146097);
    let mp: i64 = (5 * doy + 2) / 153;
    proof {
        lemma_from_march(era as int, century as int, quad as int, year as int, doy as int);
    }
    let d: i64 = doy - (153 * mp + 2) / 5 + 1;
    let m: i64 = if mp < 10 {
        mp + 3
    } else {
        mp - 9
    };
    let yy: i64 = century * 100 + quad * 4 + year + era * 400;
    let y: i64 = if m <= 2 {
        yy + 1
    } else {
        yy
    };
    proof {
        lemma_civil(y as int, m as int, d as int);
    }
    (y, m, d)
}

/// The date of a day that is given by the parts of a 400-year era that starts in
/// March: whole centuries, then whole groups of four years, whole years and days.
proof fn lemma_from_march(era: int, century: int, quad: int, year: int, doy: int)
    requires
        0 <= century <= 3,
        0 <= quad <= 24,
        0 <= year <= 3,
        0 <= doy <= 365,
        doy == 365 ==> year == 3 && (quad == 24 ==> century == 3),
    ensures
        ({
            let mp = (5 * doy + 2) / 153;
            let d = doy - (153 * mp + 2) / 5 + 1;
            let m = if mp < 10 {
                mp + 3
            } else {
                mp - 9
            };
            let yy = century * 100 + quad * 4 + year + era * 400;
            let y = if m <= 2 {
                yy + 1
            } else {
                yy
            };
            &&& is_date(y, m, d)
            &&& day_number(y, m, d) == era * 146097 + century * 36524 + quad * 1461 + year * 365
                + doy - 719468
        }),
{
    let mp = (5 * doy + 2) / 153;
    let d = doy - (153 * mp + 2) / 5 + 1;
    let m = if mp < 10 {
        mp + 3
    } else {
        mp - 9
    };
    let yy = century * 100 + quad * 4 + year + era * 400;
    let y = if m <= 2 {
        yy + 1
    } else {
        yy
    };
    assert(yy / 4 == era * 100 + century * 25 + quad);
    assert(yy / 100 == era * 4 + century);
    assert(yy / 400 == era);
    lemma_month_of_day(doy);
    lemma_day_number(y, m, d);
    if doy == 365 {
        assert(yy + 1 == 400 * era + 100 * century + 4 * quad + 4);
        assert(is_leap(yy + 1));
    }
}

/// The month, counted from March, and the day of month of a day of the year.
proof fn lemma_month_of_day(doy: int)
    requires
        0 <= doy <= 365,
    ensures
        ({
            let mp = (5 * doy + 2) / 153;
            let d = doy - (153 * mp + 2) / 5 + 1;
            &&& 0 <= mp <= 11
            &&& 1 <= d <= 31
            &&& (mp == 1 || mp == 3 || mp == 6 || mp == 8 ==> d <= 30)
            &&& (mp == 11 ==> d <= 29)
            &&& (mp == 11 && d == 29 ==> doy == 365)
        }),
{
    let mp = (5 * doy + 2) / 153;
    assert(mp == 0 || mp == 1 || mp == 2 || mp == 3 || mp == 4 || mp == 5 || mp == 6 || mp == 7
        || mp == 8 || mp == 9 || mp == 10 || mp == 11);
}

/// Months do not overlap, and fill their year.
proof fn lemma_months(y: int, m: int, n: int)
    requires
        1 <= m <= 12,
        1 <= n <= 13,
    ensures
        m < n ==> month_start(y, m) + days_in_month(y, m) <= month_start(y, n),
        month_start(y, 13) == days_in_year(y),
        0 <= month_start(y, m),
{
    reveal_with_fuel(month_start, 14);
}

/// Years do not overlap.
proof fn lemma_years(y: int, z: int)
    requires
        y < z,
    ensures
        year_start(y) + days_in_year(y) <= year_start(z),
    decreases z - y,
{
    lemma_year_start(y);
    lemma_year_start(y + 1);
    if y + 1 < z {
        lemma_years(y + 1, z);
    }
}

/// Every day has one date only: the day number tells dates apart.
pub proof fn lemma_one_date(y: int, m: int, d: int, y2: int, m2: int, d2: int)
    requires
        is_date(y, m, d),
        is_date(y2, m2, d2),
        day_number(y, m, d) == day_number(y2, m2, d2),
    ensures
        y == y2,
        m == m2,
        d == d2,
{
    lemma_months(y, m, 13);
    lemma_months(y2, m2, 13);
    if y < y2 {
        lemma_years(y, y2);
    } else if y2 < y {
        lemma_years(y2, y);
    }
    lemma_months(y, m, m2);
    lemma_months(y, m2, m);
}

/// The date of a date's day number is that date.
pub proof fn lemma_civil(y: int, m: int, d: int)
    requires
        is_date(y, m, d),
    ensures
        civil(day_number(y, m, d)) == (y, m, d),
{
    let day = day_number(y, m, d);
    let date = (y, m, d);
    assert(is_date(date.0, date.1, date.2) && day_number(date.0, date.1, date.2) == day);
    let c = civil(day);
    lemma_one_date(c.0, c.1, c.2, y, m, d);
}

/// The day number of a day's date is that day.
pub proof fn lemma_day_of_civil(day: int)
    ensures
        is_date(civil(day).0, civil(day).1, civil(day).2),
        day_number(civil(day).0, civil(day).1, civil(day).2) == day,
{
    let shifted = day + 719468;
    let era = shifted / 146097;
    let doe = shifted % 146097;
    let century = if doe / 36524 < 3 {
        doe / 36524
    } else {
        3
    };
    let in_century = doe - century * 36524;
    let quad = in_century / 1461;
    let in_quad = in_century % 1461;
    let year = if in_quad / 365 < 3 {
        in_quad / 365
    } else {
        3
    };
    let doy = in_quad - year * 365;
    lemma_from_march(era, century, quad, year, doy);
    let mp = (5 * doy + 2) / 153;
    let d = doy - (153 * mp + 2) / 5 + 1;
    let m = if mp < 10 {
        mp + 3
    } else {
        mp - 9
    };
    let yy = century * 100 + quad * 4 + year + era * 400;
    let y = if m <= 2 {
        yy + 1
    } else {
        yy
    };
    lemma_civil(y, m, d);
}

/// The day numbers of the years that four digits can write.
pub proof fn lemma_day_bounds(y: int, m: int, d: int)
    requires
        0 <= y <= 9999,
        1 <= m <= 12,
        1 <= d <= 31,
    ensures
        -719_600 <= day_number(y, m, d) <= 3_000_000,
{
    lemma_day_number(y, m, d);
}

/// A date that is not before 1970 has a year that is not before 1970, nor far
/// beyond its day number.
pub proof fn lemma_year_of_day(y: int, m: int, d: int)
    requires
        is_date(y, m, d),
        day_number(y, m, d) >= 0,
    ensures
        1970 <= y <= day_number(y, m, d) + 1970,
{
    lemma_months(y, m, 13);
    if y < 1970 {
        lemma_years(y, 1970);
    }
    lemma_year_start(y);
}

/// The day numbers count days from the first of January 1970: the next day of a month, the
/// first day of the next month and the first day of the next year each come right after
/// the day before them.
pub proof fn lemma_days_follow(y: int, m: int, d: int)
    requires
        is_date(y, m, d),
    ensures
        day_number(1970, 1, 1) == 0,
        day_number(y, m, d + 1) == day_number(y, m, d) + 1,
        d == days_in_month(y, m) && m < 12 ==> day_number(y, m + 1, 1) == day_number(y, m, d) + 1,
        m == 12 && d == 31 ==> day_number(y + 1, 1, 1) == day_number(y, m, d) + 1,
{
    if m == 12 && d == 31 {
        reveal_with_fuel(month_start, 13);
    }
}

/// The months have the lengths that everyone knows, and February has 29 days in the years
/// that four divides, but for those that a hundred divides and four hundred does not.
pub proof fn lemma_month_lengths(y: int)
    ensures
        days_in_month(y, 1) == 31 && days_in_month(y, 3) == 31 && days_in_month(y, 5) == 31,
        days_in_month(y, 7) == 31 && days_in_month(y, 8) == 31 && days_in_month(y, 10) == 31,
        days_in_month(y, 12) == 31,
        days_in_month(y, 4) == 30 && days_in_month(y, 6) == 30 && days_in_month(y, 9) == 30,
        days_in_month(y, 11) == 30,
        days_in_month(y, 2) == 28 || days_in_month(y, 2) == 29,
        days_in_month(y, 2) == 29 <==> (y % 4 == 0 && y % 100 != 0) || y % 400 == 0,
{
    if y % 400 == 0 {
        assert(y % 4 == 0);
    }
}

} // verus!
