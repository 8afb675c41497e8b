//! The proleptic Gregorian calendar, and why the day arithmetic in
//! [`civil_of_days`] follows it.

use vstd::prelude::*;

use crate::scores::civil_of_days;

verus! {

/// Days from the start of a 400-year era to the start of its year `y`
/// (years starting on March 1).
pub open spec fn days_before_year(y: int) -> int {
    365 * y + y / 4 - y / 100
}

/// The year of the era that day `doe` of the era falls in.
pub open spec fn year_of_era(doe: int) -> int {
    (doe - doe / 1460 + doe / 36_524 - doe / 146_096) / 365
}

#[verifier::rlimit(100)]
proof fn lemma_year_of_era(doe: int)
    requires
        0 <= doe <= 146_096,
    ensures
        0 <= year_of_era(doe) <= 399,
        days_before_year(year_of_era(doe)) <= doe,
        doe < days_before_year(year_of_era(doe) + 1) + if year_of_era(doe) == 399 {
            1int
        } else {
            0int
        },
{
}

/// Days from March 1 to the start of month `mp` (0 for March).
pub open spec fn month_start(mp: int) -> int {
    (153 * mp + 2) / 5
}

/// The month (0 for March) that day `doy` of a March-based year falls in.
pub open spec fn month_of_day(doy: int) -> int {
    (5 * doy + 2) / 153
}

#[verifier::rlimit(50)]
proof fn lemma_month_of_day(doy: int)
    requires
        0 <= doy <= 365,
    ensures
        0 <= month_of_day(doy) <= 11,
        month_start(month_of_day(doy)) <= doy < month_start(month_of_day(doy) + 1),
{
}

proof fn lemma_month_unique(doy: int, mp: int)
    requires
        0 <= doy <= 365,
        0 <= mp <= 11,
        month_start(mp) <= doy < month_start(mp + 1),
    ensures
        month_of_day(doy) == mp,
{
    lemma_month_of_day(doy);
    let k = month_of_day(doy);
    if k < mp {
        lemma_month_start_monotonic(k + 1, mp);
    } else if k > mp {
        lemma_month_start_monotonic(mp + 1, k);
    }
}

proof fn lemma_month_start_monotonic(a: int, b: int)
    requires
        0 <= a <= b <= 12,
    ensures
        month_start(a) <= month_start(b),
{
}

proof fn lemma_year_unique(d: int, y: int)
    requires
        0 <= d <= 146_096,
        0 <= y <= 399,
        days_before_year(y) <= d,
        d < days_before_year(y + 1) + if y == 399 {
            1int
        } else {
            0int
        },
    ensures
        year_of_era(d) == y,
{
    lemma_year_of_era(d);
    let k = year_of_era(d);
    if k < y {
        lemma_days_before_year_monotonic(k + 1, y);
    } else if k > y {
        lemma_days_before_year_monotonic(y + 1, k);
    }
}

proof fn lemma_days_before_year_monotonic(a: int, b: int)
    requires
        0 <= a <= b <= 400,
    ensures
        days_before_year(a) + 364 * (b - a) <= days_before_year(b),
    decreases b - a,
{
    if a < b {
        lemma_days_before_year_monotonic(a + 1, b);
    }
}

#[verifier::rlimit(50)]
proof fn lemma_year_length(y: int, era: int)
    requires
        0 <= y <= 399,
    ensures
        days_before_year(y + 1) - days_before_year(y) + (if y == 399 {
            1int
        } else {
            0int
        }) == if is_leap_year(era * 400 + y + 1) {
            366int
        } else {
            365int
        },
{
}

/// Whether `y` is a Gregorian leap year.
pub open spec fn is_leap_year(y: int) -> bool {
    y % 4 == 0 && (y % 100 != 0 || y % 400 == 0)
}

/// The number of days in month `m` of year `y`.
pub open spec fn days_in_month(y: int, m: int) -> int {
    if m == 2 {
        if is_leap_year(y) {
            29
        } else {
            28
        }
    } else if m == 4 || m == 6 || m == 9 || m == 11 {
        30
    } else {
        31
    }
}

/// The calendar date after `date`.
pub open spec fn next_day(date: (int, int, int)) -> (int, int, int) {
    let (y, m, d) = date;
    if d < days_in_month(y, m) {
        (y, m, d + 1)
    } else if m < 12 {
        (y, m + 1, 1)
    } else {
        (y + 1, 1, 1)
    }
}

/// The date of day `doy` of March-based year `yoe` of era `era`.
pub open spec fn date_in_era(era: int, yoe: int, doy: int) -> (int, int, int) {
    let mp = month_of_day(doy);
    let day = doy - month_start(mp) + 1;
    let month = if mp < 10 {
        mp + 3
    } else {
        mp - 9
    };
    let year = yoe + era * 400;
    (if month <= 2 {
        year + 1
    } else {
        year
    }, month, day)
}

proof fn lemma_civil_parts(z: int)
    ensures
        ({
            let s = z + 719_468;
            let era = s / 146_097;
            let doe = s - era * 146_097;
            let y = year_of_era(doe);
            &&& 0 <= doe < 146_097
            &&& civil_of_days(z) == date_in_era(era, y, doe - days_before_year(y))
        }),
{
}

/// One more day within a March-based year moves the date to the next
/// calendar day.
#[verifier::rlimit(50)]
proof fn lemma_step_in_year(era: int, y: int, doy: int)
    requires
        0 <= y <= 399,
        0 <= doy,
        doy + 1 < days_before_year(y + 1) - days_before_year(y) + if y == 399 {
            1int
        } else {
            0int
        },
    ensures
        date_in_era(era, y, doy + 1) == next_day(date_in_era(era, y, doy)),
        1 <= date_in_era(era, y, doy).2 <= days_in_month(date_in_era(era, y, doy).0, date_in_era(era, y, doy).1),
        1 <= date_in_era(era, y, doy).1 <= 12,
{
    lemma_year_length(y, era);
    lemma_month_of_day(doy);
    let mp = month_of_day(doy);
    if doy + 1 < month_start(mp + 1) {
        lemma_month_unique(doy + 1, mp);
    } else {
        lemma_month_unique(doy + 1, mp + 1);
    }
}

/// The last day of a March-based year is the day before March 1 of the
/// next.
#[verifier::rlimit(50)]
proof fn lemma_step_out_of_year(era: int, y: int, doy: int)
    requires
        0 <= y <= 399,
        doy + 1 == days_before_year(y + 1) - days_before_year(y) + if y == 399 {
            1int
        } else {
            0int
        },
    ensures
        next_day(date_in_era(era, y, doy)) == (if y == 399 {
            date_in_era(era + 1, 0, 0)
        } else {
            date_in_era(era, y + 1, 0)
        }),
        1 <= date_in_era(era, y, doy).2 <= days_in_month(date_in_era(era, y, doy).0, date_in_era(era, y, doy).1),
        1 <= date_in_era(era, y, doy).1 <= 12,
{
    lemma_year_length(y, era);
    lemma_month_of_day(doy);
    lemma_month_unique(doy, 11);
}

/// Day 0 is 1970-01-01, each day count gives a valid date, and the next
/// day count gives the next calendar date: the day counts run through the
/// whole proleptic Gregorian calendar.
#[verifier::rlimit(50)]
pub proof fn law_days_follow_the_calendar(z: int)
    ensures
        civil_of_days(0) == (1970int, 1int, 1int),
        1 <= civil_of_days(z).1 <= 12,
        1 <= civil_of_days(z).2 <= days_in_month(civil_of_days(z).0, civil_of_days(z).1),
        civil_of_days(z + 1) == next_day(civil_of_days(z)),
{
    lemma_civil_parts(z);
    lemma_civil_parts(z + 1);
    let s = z + 719_468;
    let era = s / 146_097;
    let doe = s - era * 146_097;
    lemma_year_of_era(doe);
    let y = year_of_era(doe);
    let doy = doe - days_before_year(y);
    let bound = days_before_year(y + 1) + if y == 399 {
        1int
    } else {
        0int
    };
    if doe < 146_096 {
        assert((s + 1) / 146_097 == era);
        if doe + 1 < bound {
            lemma_year_unique(doe + 1, y);
            lemma_step_in_year(era, y, doy);
        } else {
            assert(y < 399);
            lemma_year_unique(doe + 1, y + 1);
            lemma_step_out_of_year(era, y, doy);
        }
    } else {
        assert((s + 1) / 146_097 == era + 1);
        assert(y == 399);
        lemma_year_unique(0, 0);
        lemma_step_out_of_year(era, y, doy);
    }
}

} // verus!
