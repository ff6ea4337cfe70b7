//! Month-long ranges that start on a configured day of the month.
use vstd::prelude::*;
use crate::calendar::{
    end_of_month, first_of_month, lemma_after_first_year, lemma_day_after, lemma_dn_order,
    lemma_month_shift, lemma_month_shift_order, lemma_month_shift_zero, lemma_plus_days,
    month_shift, plus_days, Date, MAX_YEAR, MIN_YEAR,
};
use crate::chrono_glue::{chrono_from_ymd, chrono_sub_months};
use crate::date_range::{DateRange, Recurrence};
use crate::dateutils::{
    add_days, add_months, first_day_of_month, last_day_of_month, subtract_days, subtract_months,
};

verus! {

pub struct MonthlyDateRange;

/// The start of the monthly range that ends on `e`: the first of `e`'s month
/// for start day 1, else the day after `e` one month earlier.
pub open spec fn monthly_start_for_end(e: Date, start_day: usize) -> Date {
    if start_day == 1 {
        first_of_month(e)
    } else {
        month_shift(plus_days(e, 1), -1)
    }
}

pub open spec fn monthly_next_bounds(start_day: Option<usize>, e: Date) -> (Date, Date) {
    if start_day == Some(1usize) {
        (plus_days(e, 1), end_of_month(plus_days(e, 1)))
    } else {
        (plus_days(e, 1), month_shift(e, 1))
    }
}

pub open spec fn monthly_prior_bounds(start_day: Option<usize>, s: Date) -> (Date, Date) {
    if start_day == Some(1usize) {
        (first_of_month(plus_days(s, -1)), plus_days(s, -1))
    } else {
        (month_shift(s, -1), plus_days(s, -1))
    }
}

impl MonthlyDateRange {
    /// The calendar month that ends on `end_date`.
    pub fn with_end_date_on_first(end_date: Date) -> (r: DateRange)
        requires
            end_date.valid(),
            MIN_YEAR < end_date.year < MAX_YEAR,
        ensures
            r == DateRange::spec_make(
                first_of_month(end_date),
                end_date,
                Recurrence::Monthly,
                Some(1usize),
            ),
            r.end_date == end_date,
            r.wf(),
    {
        Self::with_end_date_and_start_day(end_date, 1)
    }

    /// The monthly range that ends on `end_date`, for periods that start on
    /// day `start_day` of the month.
    pub fn with_end_date_and_start_day(end_date: Date, start_day: usize) -> (r: DateRange)
        requires
            end_date.valid(),
            MIN_YEAR < end_date.year < MAX_YEAR,
        ensures
            r == DateRange::spec_make(
                monthly_start_for_end(end_date, start_day),
                end_date,
                Recurrence::Monthly,
                Some(start_day),
            ),
            r.end_date == end_date,
            r.wf(),
    {
        let start_date = calculate_start_date_from_end_date(end_date, start_day);
        DateRange::new_with_recurrence(start_date, end_date, Recurrence::Monthly, Some(start_day))
    }

    pub(crate) fn prior(date_range: &DateRange) -> (r: DateRange)
        requires
            date_range.wf(),
            date_range.recurrence == Recurrence::Monthly,
            MIN_YEAR < date_range.start_date.year < MAX_YEAR,
        ensures
            r == date_range.with_bounds(
                monthly_prior_bounds(date_range.start_day, date_range.start_date),
            ),
            r.wf(),
    {
        let s = date_range.start_date;
        proof {
            lemma_after_first_year(s);
            lemma_plus_days(s, -1);
        }
        let on_first = match date_range.start_day {
            Some(k) => k == 1,
            None => false,
        };
        if on_first {
            let new_end = subtract_days(s, 1);
            let new_start = first_day_of_month(new_end);
            DateRange::new_with_recurrence(
                new_start,
                new_end,
                Recurrence::Monthly,
                date_range.start_day,
            )
        } else {
            proof {
                lemma_month_shift(s, -1);
                lemma_month_shift_zero(s);
                lemma_month_shift_order(s, -1, 0);
            }
            let new_start = subtract_months(s, 1);
            let new_end = subtract_days(s, 1);
            DateRange::new_with_recurrence(
                new_start,
                new_end,
                Recurrence::Monthly,
                date_range.start_day,
            )
        }
    }

    pub(crate) fn next(date_range: &DateRange) -> (r: DateRange)
        requires
            date_range.wf(),
            date_range.recurrence == Recurrence::Monthly,
            date_range.end_date.year + 1 < MAX_YEAR,
        ensures
            r == date_range.with_bounds(
                monthly_next_bounds(date_range.start_day, date_range.end_date),
            ),
            r.wf(),
    {
        let e = date_range.end_date;
        proof {
            lemma_day_after(e);
        }
        let on_first = match date_range.start_day {
            Some(k) => k == 1,
            None => false,
        };
        if on_first {
            let new_start = add_days(e, 1);
            let new_end = last_day_of_month(new_start);
            proof {
                lemma_dn_order(new_start, new_end);
            }
            DateRange::new_with_recurrence(
                new_start,
                new_end,
                Recurrence::Monthly,
                date_range.start_day,
            )
        } else {
            proof {
                lemma_month_shift(e, 1);
                lemma_month_shift_zero(e);
                lemma_month_shift_order(e, 0, 1);
            }
            let new_start = add_days(e, 1);
            let new_end = add_months(e, 1);
            DateRange::new_with_recurrence(
                new_start,
                new_end,
                Recurrence::Monthly,
                date_range.start_day,
            )
        }
    }
}

fn calculate_start_date_from_end_date(end_date: Date, start_day: usize) -> (r: Date)
    requires
        end_date.valid(),
        MIN_YEAR < end_date.year < MAX_YEAR,
    ensures
        r == monthly_start_for_end(end_date, start_day),
        r.valid(),
        r.dn() <= end_date.dn(),
{
    if start_day == 1 {
        let r = chrono_from_ymd(end_date.year, end_date.month, 1).unwrap();
        proof {
            lemma_dn_order(r, end_date);
        }
        r
    } else {
        proof {
            lemma_day_after(end_date);
        }
        let next = add_days(end_date, 1);
        proof {
            lemma_month_shift(next, -1);
            lemma_month_shift_zero(next);
            lemma_month_shift_order(next, -1, 0);
        }
        chrono_sub_months(next, 1)
    }
}

} // verus!
