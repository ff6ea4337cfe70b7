//! Half-month ranges: the 1st to the 15th, and the 16th to the month's end.
use vstd::prelude::*;
use crate::calendar::{
    end_of_month, first_of_month, lemma_after_first_year, lemma_day_before_first,
    lemma_dn_order, lemma_plus_days, next_month_start, plus_days, Date, MAX_YEAR, MIN_YEAR,
};
use crate::chrono_glue::chrono_from_ymd;
use crate::date_range::{DateRange, Recurrence};
use crate::dateutils::{last_day_of_month, subtract_days};

verus! {

pub struct SemiMonthlyDateRange;

const FIFTEENTH_OF_MONTH: u32 = 15;

/// The start of the half-month range that ends on `e`.
pub open spec fn semi_monthly_start_for_end(e: Date) -> Date {
    if e.day == 15 {
        first_of_month(e)
    } else {
        Date { year: e.year, month: e.month, day: 16 }
    }
}

pub open spec fn semi_monthly_next_bounds(e: Date) -> (Date, Date) {
    if e.day == 15 {
        (Date { year: e.year, month: e.month, day: 16 }, end_of_month(e))
    } else {
        let s = next_month_start(e.year as int, e.month as int);
        (s, Date { year: s.year, month: s.month, day: 15 })
    }
}

pub open spec fn semi_monthly_prior_bounds(s: Date) -> (Date, Date) {
    let e = plus_days(s, -1);
    if s.day == 1 {
        (Date { year: e.year, month: e.month, day: 16 }, e)
    } else {
        (first_of_month(e), e)
    }
}

impl SemiMonthlyDateRange {
    /// The half-month range that ends on `end_date`: from the 1st when it ends
    /// on the 15th, else from the 16th.
    pub fn with_end_date(end_date: Date) -> (r: DateRange)
        requires
            end_date.valid(),
            end_date.day >= 15,
        ensures
            r == DateRange::spec_make(
                semi_monthly_start_for_end(end_date),
                end_date,
                Recurrence::SemiMonthly,
                None,
            ),
            r.end_date == end_date,
            r.wf(),
    {
        let start = calculate_start_date_from_end_date(end_date);
        proof {
            lemma_dn_order(start, end_date);
        }
        DateRange::new_with_recurrence(start, end_date, Recurrence::SemiMonthly, None)
    }

    pub(crate) fn prior(date_range: &DateRange) -> (r: DateRange)
        requires
            date_range.wf(),
            MIN_YEAR < date_range.start_date.year,
        ensures
            r == DateRange::spec_make(
                semi_monthly_prior_bounds(date_range.start_date).0,
                semi_monthly_prior_bounds(date_range.start_date).1,
                Recurrence::SemiMonthly,
                None,
            ),
            r.wf(),
    {
        let s = date_range.start_date;
        proof {
            lemma_after_first_year(s);
            lemma_plus_days(s, -1);
            if s.day == 1 {
                lemma_day_before_first(s);
            }
        }
        let end_date = subtract_days(s, 1);
        let start_date = if s.day == 1 {
            // the 1st to the 15th follows the 16th to the end of the month before
            chrono_from_ymd(end_date.year, end_date.month, FIFTEENTH_OF_MONTH + 1).unwrap()
        } else {
            // the 16th to the end follows the 1st to the 15th of the same month
            chrono_from_ymd(end_date.year, end_date.month, 1).unwrap()
        };
        proof {
            lemma_dn_order(start_date, end_date);
        }
        DateRange::new_with_recurrence(start_date, end_date, Recurrence::SemiMonthly, None)
    }

    pub(crate) fn next(date_range: &DateRange) -> (r: DateRange)
        requires
            date_range.wf(),
            date_range.end_date.year < MAX_YEAR,
        ensures
            r == DateRange::spec_make(
                semi_monthly_next_bounds(date_range.end_date).0,
                semi_monthly_next_bounds(date_range.end_date).1,
                Recurrence::SemiMonthly,
                None,
            ),
            r.wf(),
    {
        let e = date_range.end_date;
        let start_date = if e.day == FIFTEENTH_OF_MONTH {
            // the 16th to the end of the same month
            chrono_from_ymd(e.year, e.month, FIFTEENTH_OF_MONTH + 1).unwrap()
        } else {
            // the 1st to the 15th of the next month
            let next_month = e.month % 12 + 1;
            let year = if next_month == 1 { e.year + 1 } else { e.year };
            chrono_from_ymd(year, next_month, 1).unwrap()
        };
        let end_date = if start_date.day == 1 {
            chrono_from_ymd(start_date.year, start_date.month, FIFTEENTH_OF_MONTH).unwrap()
        } else {
            last_day_of_month(start_date)
        };
        proof {
            lemma_dn_order(start_date, end_date);
        }
        DateRange::new_with_recurrence(start_date, end_date, Recurrence::SemiMonthly, None)
    }
}

/// The start for an end on the 15th or on the last day of a month.
fn calculate_start_date_from_end_date(end_date: Date) -> (r: Date)
    requires
        end_date.valid(),
    ensures
        r == semi_monthly_start_for_end(end_date),
        r.valid(),
{
    if end_date.day == FIFTEENTH_OF_MONTH {
        chrono_from_ymd(end_date.year, end_date.month, 1).unwrap()
    } else {
        // ending on the last day of the month, the period starts on the 16th
        chrono_from_ymd(end_date.year, end_date.month, FIFTEENTH_OF_MONTH + 1).unwrap()
    }
}

} // verus!
