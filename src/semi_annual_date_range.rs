//! Six-month ranges that step both bounds by six months.
use vstd::prelude::*;
use crate::calendar::{
    lemma_dn_order, lemma_dn_range, lemma_month_shift, lemma_month_shift_mono,
    lemma_month_shift_order, lemma_month_shift_zero, month_shift, plus_days, Date, MAX_YEAR,
    MIN_YEAR,
};
use crate::date_range::{DateRange, Recurrence};
use crate::dateutils::{add_days, add_months, subtract_days, subtract_months};

verus! {

pub struct SemiAnnualDateRange;

impl SemiAnnualDateRange {
    /// The range from `start_date` to the day before the same day six months
    /// later (clamped to a shorter month).
    pub fn with_start_date(start_date: Date) -> (r: DateRange)
        requires
            start_date.valid(),
            start_date.year + 1 < MAX_YEAR,
        ensures
            r == DateRange::spec_make(
                start_date,
                plus_days(month_shift(start_date, 6), -1),
                Recurrence::SemiAnnual,
                None,
            ),
            r.start_date == start_date,
            r.wf(),
    {
        proof {
            lemma_month_shift(start_date, 6);
            lemma_month_shift_zero(start_date);
            lemma_month_shift_order(start_date, 0, 6);
            lemma_dn_range(start_date);
        }
        let end_date = subtract_days(add_months(start_date, 6), 1);
        DateRange::new_with_recurrence(start_date, end_date, Recurrence::SemiAnnual, None)
    }

    /// The range that ends on `end_date` and starts the day after the same
    /// day six months earlier (clamped to a shorter month).
    pub fn with_end_date(end_date: Date) -> (r: DateRange)
        requires
            end_date.valid(),
            MIN_YEAR < end_date.year < MAX_YEAR,
        ensures
            r == DateRange::spec_make(
                plus_days(month_shift(end_date, -6), 1),
                end_date,
                Recurrence::SemiAnnual,
                None,
            ),
            r.end_date == end_date,
            r.wf(),
    {
        proof {
            lemma_month_shift(end_date, -6);
            lemma_month_shift_zero(end_date);
            lemma_month_shift_order(end_date, -6, 0);
            lemma_dn_range(end_date);
        }
        let start_date = add_days(subtract_months(end_date, 6), 1);
        DateRange::new_with_recurrence(start_date, end_date, Recurrence::SemiAnnual, None)
    }

    /// Both bounds six months earlier.
    pub fn prior(date_range: &DateRange) -> (r: DateRange)
        requires
            date_range.wf(),
            MIN_YEAR < date_range.start_date.year,
            date_range.end_date.year < MAX_YEAR,
        ensures
            r == DateRange::spec_make(
                month_shift(date_range.start_date, -6),
                month_shift(date_range.end_date, -6),
                Recurrence::SemiAnnual,
                None,
            ),
            r.wf(),
    {
        proof {
            lemma_dn_order(date_range.start_date, date_range.end_date);
            lemma_month_shift_mono(date_range.start_date, date_range.end_date, -6);
        }
        let start = subtract_months(date_range.start_date, 6);
        let end = subtract_months(date_range.end_date, 6);
        DateRange::new_with_recurrence(start, end, Recurrence::SemiAnnual, None)
    }

    /// Both bounds six months later.
    pub fn next(date_range: &DateRange) -> (r: DateRange)
        requires
            date_range.wf(),
            MIN_YEAR < date_range.start_date.year,
            date_range.end_date.year + 1 < MAX_YEAR,
        ensures
            r == DateRange::spec_make(
                month_shift(date_range.start_date, 6),
                month_shift(date_range.end_date, 6),
                Recurrence::SemiAnnual,
                None,
            ),
            r.wf(),
    {
        proof {
            lemma_dn_order(date_range.start_date, date_range.end_date);
            lemma_month_shift_mono(date_range.start_date, date_range.end_date, 6);
        }
        let start = add_months(date_range.start_date, 6);
        let end = add_months(date_range.end_date, 6);
        DateRange::new_with_recurrence(start, end, Recurrence::SemiAnnual, None)
    }
}

} // verus!
