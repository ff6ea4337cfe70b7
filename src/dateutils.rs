//! Calendar arithmetic: month ends, day shifts, and month and year shifts
//! that clamp the day to the end of a shorter month.
use vstd::prelude::*;
use crate::calendar::{
    Date, days_in_month, lemma_date_of, lemma_dn_order, lemma_dn_range, lemma_month_end_next,
    max_dn, min_dn, month_end, month_shift, plus_days, MAX_YEAR, MIN_YEAR,
};
use crate::chrono_glue::{chrono_add_days, chrono_from_ymd};

verus! {

/// The first day of `date`'s month.
pub fn first_day_of_month(date: Date) -> (r: Date)
    requires
        date.valid(),
    ensures
        r == (Date { year: date.year, month: date.month, day: 1 }),
        r.valid(),
{
    chrono_from_ymd(date.year, date.month, 1).unwrap()
}

/// The last day of `date`'s month: the day before the first of the next
/// month. December of the latest year has no next month to step back from.
pub fn last_day_of_month(date: Date) -> (r: Date)
    requires
        date.valid(),
        date.year < MAX_YEAR || date.month < 12,
    ensures
        r == month_end(date.year as int, date.month as int),
        r.valid(),
{
    let next_month: u32 = if date.month == 12 { 1 } else { date.month + 1 };
    let next_year: i32 = if date.month == 12 { date.year + 1 } else { date.year };
    let first = chrono_from_ymd(next_year, next_month, 1).unwrap();
    let ghost end = month_end(date.year as int, date.month as int);
    proof {
        lemma_month_end_next(date.year as int, date.month as int);
        lemma_dn_range(end);
    }
    let r = chrono_add_days(first, -1);
    proof {
        lemma_dn_order(r, end);
    }
    r
}

/// The date `days` days after `date` (before, for a negative `days`).
pub fn add_days(date: Date, days: i64) -> (r: Date)
    requires
        date.valid(),
        min_dn() <= date.dn() + days <= max_dn(),
    ensures
        r.valid(),
        r.dn() == date.dn() + days,
        r == plus_days(date, days as int),
{
    let r = chrono_add_days(date, days);
    proof {
        lemma_date_of(r, date.dn() + days);
    }
    r
}

/// The date `days` days before `date` (after, for a negative `days`).
pub fn subtract_days(date: Date, days: i64) -> (r: Date)
    requires
        date.valid(),
        min_dn() <= date.dn() - days <= max_dn(),
    ensures
        r.valid(),
        r.dn() == date.dn() - days,
        r == plus_days(date, -days),
{
    proof {
        lemma_dn_range(date);
    }
    add_days(date, -days)
}

/// The same day `months` months later (earlier, for a negative `months`),
/// clamped to the last day of a shorter month.
pub fn add_months(date: Date, months: i32) -> (r: Date)
    requires
        date.valid(),
        MIN_YEAR <= (date.mi() + months) / 12 < MAX_YEAR,
    ensures
        r == month_shift(date, months as int),
        r.valid(),
{
    let t: i64 = date.year as i64 * 12 + date.month as i64 - 1 + months as i64;
    let mut year: i64 = date.year as i64;
    let mut month: i64 = date.month as i64 + months as i64;
    if month > 12 {
        while month > 12
            invariant
                year * 12 + month - 1 == t,
                month >= 1,
                date.year <= year <= t / 12,
            decreases t / 12 - year,
        {
            month = month - 12;
            year = year + 1;
        }
    } else {
        while month < 1
            invariant
                year * 12 + month - 1 == t,
                month <= 12,
                t / 12 <= year <= date.year,
            decreases year - t / 12,
        {
            month = month + 12;
            year = year - 1;
        }
    }
    assert(year == t / 12 && month - 1 == t % 12);
    let year: i32 = year as i32;
    let month: u32 = month as u32;
    let last = last_day_of_month(Date { year, month, day: 1 }).day;
    let day: u32 = if date.day < last { date.day } else { last };
    Date { year, month, day }
}

/// The same day `months` months earlier, clamped like `add_months`.
pub fn subtract_months(date: Date, months: i32) -> (r: Date)
    requires
        date.valid(),
        MIN_YEAR <= (date.mi() - months) / 12 < MAX_YEAR,
    ensures
        r == month_shift(date, -months),
        r.valid(),
{
    add_months(date, -months)
}

/// The same day `years` years later; February 29 becomes February 28 in a
/// common year.
pub fn add_years(date: Date, years: i32) -> (r: Date)
    requires
        date.valid(),
        MIN_YEAR <= date.year + years < MAX_YEAR,
    ensures
        r == month_shift(date, 12 * years),
        r.valid(),
{
    add_months(date, years * 12)
}

/// The same day `years` years earlier, clamped like `add_years`.
pub fn subtract_years(date: Date, years: i32) -> (r: Date)
    requires
        date.valid(),
        MIN_YEAR <= date.year - years < MAX_YEAR,
    ensures
        r == month_shift(date, -12 * years),
        r.valid(),
{
    subtract_months(date, years * 12)
}

/// `date` moved into `year`, its day clamped to the last day of the month
/// where that day does not exist there (February 29 in a common year).
pub fn with_year_safe(date: Date, year: i32) -> (r: Date)
    requires
        date.valid(),
        MIN_YEAR <= year <= MAX_YEAR,
    ensures
        r.valid(),
        r.year == year,
        r.month == date.month,
        r.day == (if date.day <= days_in_month(year as int, date.month as int) {
            date.day as int
        } else {
            days_in_month(year as int, date.month as int)
        }),
{
    match chrono_from_ymd(year, date.month, date.day) {
        Some(d) => d,
        None => {
            let last_day = last_day_of_month_year(date.month, year);
            chrono_from_ymd(year, date.month, last_day).unwrap()
        },
    }
}

/// Number of days in `month` of `year`.
fn last_day_of_month_year(month: u32, year: i32) -> (r: u32)
    requires
        1 <= month <= 12,
        MIN_YEAR <= year <= MAX_YEAR,
        year < MAX_YEAR || month < 12,
    ensures
        r == days_in_month(year as int, month as int),
{
    last_day_of_month(Date { year, month, day: 1 }).day
}

} // verus!
