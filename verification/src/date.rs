//! Calendar dates in SQL Anywhere's minute-based representation.
use vstd::arithmetic::div_mod;
use vstd::prelude::*;

verus! {

/// Whether `year` is a leap year of the proleptic Gregorian calendar.
pub open spec fn is_leap(year: int) -> bool {
    year % 4 == 0 && (year % 100 != 0 || year % 400 == 0)
}

/// Number of days of `month`, counted from one, in `year`.
pub open spec fn days_in_month(year: int, month: int) -> int {
    if month == 2 {
        if is_leap(year) {
            29
        } else {
            28
        }
    } else if month == 4 || month == 6 || month == 9 || month == 11 {
        30
    } else {
        31
    }
}

/// Number of days of `year` before the first of `month`.
pub open spec fn days_before_month(year: int, month: int) -> int
    decreases month,
{
    if month <= 1 {
        0
    } else {
        days_before_month(year, month - 1) + days_in_month(year, month - 1)
    }
}

/// Number of days from the first of January of year one to that of `year`;
/// negative for earlier years.
pub open spec fn days_before_year(year: int) -> int {
    let elapsed = year - 1;
    365 * elapsed + elapsed / 4 - elapsed / 100 + elapsed / 400
}

/// Whether there is such a day in the proleptic Gregorian calendar.
pub open spec fn valid_date(year: int, month: int, day: int) -> bool {
    1 <= month <= 12 && 1 <= day <= days_in_month(year, month)
}

/// Number of days from the first of January of year one to the given day.
pub open spec fn day_number(year: int, month: int, day: int) -> int {
    days_before_year(year) + days_before_month(year, month) + day - 1
}

/// Calendar date decoded from SQL Anywhere's minute-based date representation.
#[derive(Debug, Clone, Copy, PartialEq, Eq, Structural)]
pub struct SaDate {
    /// Original signed minute count, retained without epoch conversion.
    pub raw_minutes: i32,
}

/// SQL Anywhere datetime.  The source grammar establishes the first field as
/// minute count; the meaning/unit of `subminute_raw` is not assumed here.
#[derive(Debug, Clone, Copy, PartialEq, Eq, Structural)]
pub struct SaDateTime {
    /// Date component obtained by floor-dividing `minutes_since_sa_epoch` by 1440.
    pub date: SaDate,
    /// Raw signed minute count from SQL Anywhere's observed date epoch.
    pub minutes_since_sa_epoch: i32,
    /// The second signed 32-bit datetime word, retained losslessly.
    pub subminute_raw: i32,
}

/// All partial sums of month lengths.
proof fn lemma_days_before_month(year: int)
    ensures
        days_before_month(year, 1) == 0,
        days_before_month(year, 2) == 31,
        days_before_month(year, 3) == 31 + days_in_month(year, 2),
        days_before_month(year, 4) == 62 + days_in_month(year, 2),
        days_before_month(year, 5) == 92 + days_in_month(year, 2),
        days_before_month(year, 6) == 123 + days_in_month(year, 2),
        days_before_month(year, 7) == 153 + days_in_month(year, 2),
        days_before_month(year, 8) == 184 + days_in_month(year, 2),
        days_before_month(year, 9) == 215 + days_in_month(year, 2),
        days_before_month(year, 10) == 245 + days_in_month(year, 2),
        days_before_month(year, 11) == 276 + days_in_month(year, 2),
        days_before_month(year, 12) == 306 + days_in_month(year, 2),
{
    reveal_with_fuel(days_before_month, 13);
}

/// A year has 365 days, a leap year one more.
proof fn lemma_year_length(year: int)
    ensures
        days_before_year(year + 1) - days_before_year(year) == if is_leap(year) {
            366int
        } else {
            365
        },
{
    lemma_quotient_grows(year, 4);
    lemma_quotient_grows(year, 100);
    lemma_quotient_grows(year, 400);
    assert(year % 400 == 0 ==> year % 100 == 0);
    assert(year % 100 == 0 ==> year % 4 == 0);
}

/// A quotient grows by one at each multiple of the divisor.
proof fn lemma_quotient_grows(x: int, divisor: int)
    requires
        divisor > 1,
    ensures
        x / divisor - (x - 1) / divisor == if x % divisor == 0 {
            1int
        } else {
            0
        },
{
    let q = x / divisor;
    let r = x % divisor;
    div_mod::lemma_fundamental_div_mod(x, divisor);
    div_mod::lemma_mod_bound(x, divisor);
    assert(divisor * (q - 1) == divisor * q - divisor) by (nonlinear_arith);
    if r == 0 {
        div_mod::lemma_fundamental_div_mod_converse(x - 1, divisor, q - 1, divisor - 1);
    } else {
        div_mod::lemma_fundamental_div_mod_converse(x - 1, divisor, q, r - 1);
    }
}

impl SaDate {
    /// Whole days since SQL Anywhere's observed date epoch.
    pub open spec fn days(self) -> int {
        self.raw_minutes as int / 1440
    }

    /// Whole days since SQL Anywhere's observed date epoch.
    pub fn days_since_sa_epoch(self) -> (days: i32)
        ensures
            days == self.days(),
    {
        let minutes: i32 = self.raw_minutes;
        if minutes >= 0 {
            minutes / 1440
        } else {
            // Floor division of a negative count.
            -((-(minutes + 1)) / 1440) - 1
        }
    }

    /// Convert the date to proleptic-Gregorian `(year, month, day)`.
    ///
    /// Raw day zero is 1600-02-29.
    pub fn ymd(self) -> (date: (i32, u8, u8))
        ensures
            valid_date(date.0 as int, date.1 as int, date.2 as int),
            day_number(date.0 as int, date.1 as int, date.2 as int) == day_number(1600, 2, 29)
                + self.days(),
    {
        // Days since the first of March of year zero. Counting years from
        // March puts the leap day at their end.
        let z: i64 = self.days_since_sa_epoch() as i64 + 584_387;
        let era: i64 = if z >= 0 {
            z / 146_097
        } else {
            -((-(z + 1)) / 146_097) - 1
        };
        let day_of_era: i64 = z - era * 146_097;
        // Only the last century of an era and the last year of a four-year
        // group can be one day longer.
        let century: i64 = if day_of_era == 146_096 {
            3
        } else {
            day_of_era / 36_524
        };
        let day_of_century: i64 = day_of_era - century * 36_524;
        let group: i64 = day_of_century / 1_461;
        let day_of_group: i64 = day_of_century - group * 1_461;
        let year_of_group: i64 = if day_of_group == 1_460 {
            3
        } else {
            day_of_group / 365
        };
        let day_of_year: i64 = day_of_group - year_of_group * 365;
        let march_year: i64 = era * 400 + century * 100 + group * 4 + year_of_group;
        let month_index: i64 = (5 * day_of_year + 2) / 153;
        let day: i64 = day_of_year - (153 * month_index + 2) / 5 + 1;
        let (year, month): (i64, i64) = if month_index < 10 {
            (march_year, month_index + 3)
        } else {
            (march_year + 1, month_index - 9)
        };
        proof {
            lemma_march_year(
                era as int,
                century as int,
                group as int,
                year_of_group as int,
                day_of_year as int,
            );
            lemma_march_month(march_year as int, day_of_year as int);
            lemma_days_before_month(1600);
        }
        (year as i32, month as u8, day as u8)
    }
}

/// The days before the March-based year made of its parts, and when it can
/// hold a 366th day.
proof fn lemma_march_year(era: int, century: int, group: int, year_of_group: int, day_of_year: int)
    requires
        0 <= century <= 3,
        0 <= group <= 24,
        0 <= year_of_group <= 3,
        0 <= day_of_year <= 365,
        day_of_year == 365 ==> year_of_group == 3 && (group == 24 ==> century == 3),
    ensures
        ({
            let march_year = era * 400 + century * 100 + group * 4 + year_of_group;
            &&& days_before_year(march_year + 1) == era * 146_097 + century * 36_524 + group
                * 1_461 + year_of_group * 365
            &&& day_of_year == 365 ==> is_leap(march_year + 1)
        }),
{
    let march_year = era * 400 + century * 100 + group * 4 + year_of_group;
    assert(march_year / 4 == era * 100 + century * 25 + group);
    assert(march_year / 100 == era * 4 + century);
    assert(march_year / 400 == era);
    if day_of_year == 365 {
        assert((march_year + 1) % 4 == 0);
        if group == 24 {
            assert((march_year + 1) % 400 == 0);
        } else {
            assert((march_year + 1) % 100 != 0);
        }
    }
}

/// The month and day of a day of a March-based year.
proof fn lemma_march_month(march_year: int, day_of_year: int)
    requires
        0 <= day_of_year <= 365,
        day_of_year == 365 ==> is_leap(march_year + 1),
    ensures
        ({
            let month_index = (5 * day_of_year + 2) / 153;
            let day = day_of_year - (153 * month_index + 2) / 5 + 1;
            let year = if month_index < 10 {
                march_year
            } else {
                march_year + 1
            };
            let month = if month_index < 10 {
                month_index + 3
            } else {
                month_index - 9
            };
            &&& 0 <= month_index <= 11
            &&& valid_date(year, month, day)
            &&& day_number(year, month, day) == days_before_year(march_year + 1) - 306
                + day_of_year
        }),
{
    let month_index = (5 * day_of_year + 2) / 153;
    lemma_days_before_month(march_year);
    lemma_days_before_month(march_year + 1);
    lemma_year_length(march_year);
    assert(0 <= month_index <= 11);
    if month_index == 0 {
    } else if month_index == 1 {
    } else if month_index == 2 {
    } else if month_index == 3 {
    } else if month_index == 4 {
    } else if month_index == 5 {
    } else if month_index == 6 {
    } else if month_index == 7 {
    } else if month_index == 8 {
    } else if month_index == 9 {
    } else if month_index == 10 {
    } else {
    }
}

// ---------------------------------------------------------------------------
// Laws
// ---------------------------------------------------------------------------

proof fn lemma_years_grow(earlier: int, later: int)
    requires
        earlier <= later,
    ensures
        days_before_year(earlier) <= days_before_year(later),
    decreases later - earlier,
{
    if earlier < later {
        lemma_years_grow(earlier, later - 1);
        lemma_year_length(later - 1);
    }
}

/// Day numbers order valid dates as the calendar does, so that a day number
/// belongs to one date only.
pub proof fn day_numbers_order_dates(y1: int, m1: int, d1: int, y2: int, m2: int, d2: int)
    requires
        valid_date(y1, m1, d1),
        valid_date(y2, m2, d2),
    ensures
        day_number(y1, m1, d1) < day_number(y2, m2, d2) <==> (y1 < y2 || (y1 == y2 && (m1 < m2 || (
        m1 == m2 && d1 < d2)))),
        day_number(y1, m1, d1) == day_number(y2, m2, d2) <==> (y1 == y2 && m1 == m2 && d1 == d2),
{
    lemma_days_before_month(y1);
    lemma_days_before_month(y2);
    lemma_year_length(y1);
    lemma_year_length(y2);
    if y1 < y2 {
        lemma_years_grow(y1 + 1, y2);
    } else if y2 < y1 {
        lemma_years_grow(y2 + 1, y1);
    }
}

/// Every fourth year is a leap year but for three in four centuries.
pub proof fn leap_years_are_gregorian(year: int)
    ensures
        year % 4 != 0 ==> !is_leap(year),
        year % 400 == 0 ==> is_leap(year),
        year % 100 == 0 && year % 400 != 0 ==> !is_leap(year),
        year % 4 == 0 && year % 100 != 0 ==> is_leap(year),
{
}

/// There is a day in the calendar exactly where its month has that many days.
pub proof fn months_have_their_days(year: int, month: int, day: int)
    ensures
        valid_date(year, month, day) <==> {
            &&& day >= 1
            &&& {
                ||| month == 1 && day <= 31
                ||| month == 2 && day <= 28
                ||| month == 2 && day == 29 && year % 4 == 0 && year % 100 != 0
                ||| month == 2 && day == 29 && year % 400 == 0
                ||| month == 3 && day <= 31
                ||| month == 4 && day <= 30
                ||| month == 5 && day <= 31
                ||| month == 6 && day <= 30
                ||| month == 7 && day <= 31
                ||| month == 8 && day <= 31
                ||| month == 9 && day <= 30
                ||| month == 10 && day <= 31
                ||| month == 11 && day <= 30
                ||| month == 12 && day <= 31
            }
        },
{
}

/// Days are numbered from the first of January of year one on, and each day has
/// the number after that of the day before, over the ends of months and years.
pub proof fn days_are_numbered_in_order(year: int, month: int, day: int)
    requires
        valid_date(year, month, day),
    ensures
        day_number(1, 1, 1) == 0,
        valid_date(year, month, day + 1) ==> day_number(year, month, day + 1) == day_number(
            year,
            month,
            day,
        ) + 1,
        !valid_date(year, month, day + 1) && month < 12 ==> day_number(year, month + 1, 1)
            == day_number(year, month, day) + 1,
        !valid_date(year, month, day + 1) && month == 12 ==> day_number(year + 1, 1, 1)
            == day_number(year, month, day) + 1,
{
    lemma_days_before_month(year);
    lemma_days_before_month(year + 1);
    lemma_days_before_month(1);
    lemma_year_length(year);
}

/// A day begins every 1440 minutes, the day of the epoch with minute zero; the
/// minutes before it belong to earlier days.
pub proof fn days_begin_every_1440_minutes(date: SaDate)
    ensures
        1440 * date.days() <= date.raw_minutes < 1440 * date.days() + 1440,
{
}

/// Dates as many days apart as their minutes say are as many days apart in the
/// calendar: of two dates a day apart the later is the next day, or the first
/// of the next month or year.
pub proof fn consecutive_days_are_consecutive_dates(
    earlier: SaDate,
    later: SaDate,
    from: (int, int, int),
    to: (int, int, int),
)
    requires
        later.days() == earlier.days() + 1,
        valid_date(from.0, from.1, from.2),
        valid_date(to.0, to.1, to.2),
        day_number(from.0, from.1, from.2) == day_number(1600, 2, 29) + earlier.days(),
        day_number(to.0, to.1, to.2) == day_number(1600, 2, 29) + later.days(),
    ensures
        to == if valid_date(from.0, from.1, from.2 + 1) {
            (from.0, from.1, from.2 + 1)
        } else if from.1 < 12 {
            (from.0, from.1 + 1, 1int)
        } else {
            (from.0 + 1, 1int, 1int)
        },
{
    days_are_numbered_in_order(from.0, from.1, from.2);
    let next = if valid_date(from.0, from.1, from.2 + 1) {
        (from.0, from.1, from.2 + 1)
    } else if from.1 < 12 {
        (from.0, from.1 + 1, 1int)
    } else {
        (from.0 + 1, 1int, 1int)
    };
    day_numbers_order_dates(to.0, to.1, to.2, next.0, next.1, next.2);
}

} // verus!
