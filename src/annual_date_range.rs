//! Year-long ranges from any start day, leap-day aware.
use vstd::prelude::*;
use crate::calendar::{
    lemma_dn_order, lemma_dn_range, lemma_month_shift, lemma_month_shift_order,
    lemma_month_shift_zero, lemma_plus_days, month_shift, plus_days, Date, MAX_YEAR, MIN_YEAR,
};
use crate::chrono_glue::chrono_from_ymd;
use crate::date_range::{DateRange, Recurrence};
use crate::dateutils::{add_days, add_years, subtract_days, subtract_years};

verus! {

pub struct AnnualDateRange;

/// The last day of the year-long range that starts on `s`: the day before the
/// same date a year later, and February 28 of the next year for a start on
/// February 29.
pub open spec fn annual_end(s: Date) -> Date {
    if s.month == 2 && s.day == 29 {
        Date { year: (s.year + 1) as i32, month: 2, day: 28 }
    } else {
        plus_days(month_shift(s, 12), -1)
    }
}

pub open spec fn annual_next_bounds(s: Date) -> (Date, Date) {
    (month_shift(s, 12), annual_end(month_shift(s, 12)))
}

pub open spec fn annual_prior_bounds(s: Date) -> (Date, Date) {
    (month_shift(s, -12), annual_end(month_shift(s, -12)))
}

pub proof fn lemma_annual_end(s: Date)
    requires
        s.valid(),
        s.year + 1 < MAX_YEAR,
    ensures
        annual_end(s).valid(),
        s.dn() < annual_end(s).dn(),
{
    if s.month == 2 && s.day == 29 {
        lemma_dn_order(s, annual_end(s));
    } else {
        let x = month_shift(s, 12);
        lemma_month_shift(s, 12);
        lemma_month_shift_zero(s);
        lemma_month_shift_order(s, 0, 1);
        lemma_month_shift_order(s, 1, 12);
        lemma_dn_range(s);
        lemma_dn_range(x);
        lemma_plus_days(x, -1);
    }
}

impl AnnualDateRange {
    /// The year-long range that starts on `start_date`.
    pub fn with_start_date(start_date: Date) -> (r: DateRange)
        requires
            start_date.valid(),
            start_date.year + 1 < MAX_YEAR,
        ensures
            r == DateRange::spec_make(start_date, annual_end(start_date), Recurrence::Annual, None),
            r.start_date == start_date,
            r.wf(),
    {
        let end_date = Self::end_for_start(start_date);
        DateRange::new_with_recurrence(start_date, end_date, Recurrence::Annual, None)
    }

    /// The year-long range that ends on `end_date`: it starts the day after
    /// the same date a year earlier.
    pub fn with_end_date(end_date: Date) -> (r: DateRange)
        requires
            end_date.valid(),
            MIN_YEAR < end_date.year,
        ensures
            r == DateRange::spec_make(
                plus_days(month_shift(end_date, -12), 1),
                end_date,
                Recurrence::Annual,
                None,
            ),
            r.end_date == end_date,
            r.wf(),
    {
        proof {
            lemma_month_shift(end_date, -12);
            lemma_month_shift_zero(end_date);
            lemma_month_shift_order(end_date, -12, 0);
            lemma_dn_range(end_date);
        }
        let start_date = add_days(subtract_years(end_date, 1), 1);
        DateRange::new_with_recurrence(start_date, end_date, Recurrence::Annual, None)
    }

    /// The year-long range that starts a year before `date_range` does.
    pub fn prior(date_range: &DateRange) -> (r: DateRange)
        requires
            date_range.wf(),
            MIN_YEAR < date_range.start_date.year < MAX_YEAR,
        ensures
            r == DateRange::spec_make(
                annual_prior_bounds(date_range.start_date).0,
                annual_prior_bounds(date_range.start_date).1,
                Recurrence::Annual,
                None,
            ),
            r.wf(),
    {
        let start = subtract_years(date_range.start_date, 1);
        let end = Self::end_for_start(start);
        DateRange::new_with_recurrence(start, end, Recurrence::Annual, None)
    }

    /// The year-long range that starts a year after `date_range` does.
    pub fn next(date_range: &DateRange) -> (r: DateRange)
        requires
            date_range.wf(),
            date_range.start_date.year + 2 < MAX_YEAR,
        ensures
            r == DateRange::spec_make(
                annual_next_bounds(date_range.start_date).0,
                annual_next_bounds(date_range.start_date).1,
                Recurrence::Annual,
                None,
            ),
            r.wf(),
    {
        let start = add_years(date_range.start_date, 1);
        let end = Self::end_for_start(start);
        DateRange::new_with_recurrence(start, end, Recurrence::Annual, None)
    }

    fn end_for_start(start_date: Date) -> (r: Date)
        requires
            start_date.valid(),
            start_date.year + 1 < MAX_YEAR,
        ensures
            r == annual_end(start_date),
            r.valid(),
            start_date.dn() < r.dn(),
    {
        proof {
            lemma_annual_end(start_date);
        }
        if start_date.month == 2 && start_date.day == 29 {
            // The anniversary is clamped to February 28; the day before it
            // would end the range a day early.
            chrono_from_ymd(start_date.year + 1, 2, 28).unwrap()
        } else {
            proof {
                lemma_month_shift(start_date, 12);
                lemma_dn_range(month_shift(start_date, 12));
                lemma_dn_range(start_date);
            }
            subtract_days(add_years(start_date, 1), 1)
        }
    }
}

} // verus!
