//! Three-month ranges aligned to whole months.
use vstd::prelude::*;
use crate::calendar::{
    end_of_month, first_of_month, lemma_dn_order, lemma_month_shift, month_shift, Date, MAX_YEAR,
    MIN_YEAR,
};
use crate::date_range::{DateRange, Recurrence};
use crate::dateutils::{add_months, first_day_of_month, last_day_of_month, subtract_months};

verus! {

pub struct QuarterlyDateRange;

pub open spec fn quarterly_next_bounds(s: Date, e: Date) -> (Date, Date) {
    (month_shift(s, 3), end_of_month(month_shift(first_of_month(e), 3)))
}

pub open spec fn quarterly_prior_bounds(s: Date, e: Date) -> (Date, Date) {
    (month_shift(s, -3), end_of_month(month_shift(first_of_month(e), -3)))
}

/// Shifting the start and the end's month by the same number of months
/// keeps the start before the end of that month.
pub proof fn lemma_quarter_bounds(s: Date, e: Date, n: int)
    requires
        s.valid(),
        e.valid(),
        s.dn() <= e.dn(),
        MIN_YEAR <= (s.mi() + n) / 12,
        (e.mi() + n) / 12 <= MAX_YEAR,
    ensures
        month_shift(s, n).valid(),
        end_of_month(month_shift(first_of_month(e), n)).valid(),
        month_shift(s, n).dn() <= end_of_month(month_shift(first_of_month(e), n)).dn(),
{
    lemma_dn_order(s, e);
    lemma_month_shift(s, n);
    lemma_month_shift(first_of_month(e), n);
    lemma_dn_order(month_shift(s, n), end_of_month(month_shift(first_of_month(e), n)));
}

impl QuarterlyDateRange {
    /// The quarter whose first month is `start_date`'s month.
    pub fn with_start_date(start_date: Date) -> (r: DateRange)
        requires
            start_date.valid(),
            start_date.year + 1 < MAX_YEAR,
        ensures
            r == DateRange::spec_make(
                first_of_month(start_date),
                end_of_month(month_shift(first_of_month(start_date), 2)),
                Recurrence::Quarterly,
                None,
            ),
            start_date.day == 1 ==> r.start_date == start_date,
            r.wf(),
    {
        proof {
            lemma_quarter_bounds(first_of_month(start_date), first_of_month(start_date), 2);
            lemma_month_shift(first_of_month(start_date), 0);
        }
        let start = first_day_of_month(start_date);
        let end = last_day_of_month(add_months(first_day_of_month(start_date), 2));
        DateRange::new_with_recurrence(start, end, Recurrence::Quarterly, None)
    }

    /// The quarter whose last month is `end_date`'s month.
    pub fn with_end_date(end_date: Date) -> (r: DateRange)
        requires
            end_date.valid(),
            MIN_YEAR < end_date.year < MAX_YEAR,
        ensures
            r == DateRange::spec_make(
                month_shift(first_of_month(end_date), -2),
                end_of_month(end_date),
                Recurrence::Quarterly,
                None,
            ),
            end_date == end_of_month(end_date) ==> r.end_date == end_date,
            r.wf(),
    {
        proof {
            lemma_month_shift(first_of_month(end_date), -2);
            lemma_dn_order(month_shift(first_of_month(end_date), -2), end_of_month(end_date));
        }
        let start = subtract_months(first_day_of_month(end_date), 2);
        let end = last_day_of_month(end_date);
        DateRange::new_with_recurrence(start, end, Recurrence::Quarterly, None)
    }

    /// The quarter three months earlier.
    pub fn prior(date_range: &DateRange) -> (r: DateRange)
        requires
            date_range.wf(),
            MIN_YEAR < date_range.start_date.year,
            date_range.end_date.year < MAX_YEAR,
        ensures
            r == DateRange::spec_make(
                quarterly_prior_bounds(date_range.start_date, date_range.end_date).0,
                quarterly_prior_bounds(date_range.start_date, date_range.end_date).1,
                Recurrence::Quarterly,
                None,
            ),
            r.wf(),
    {
        proof {
            lemma_quarter_bounds(date_range.start_date, date_range.end_date, -3);
        }
        let start = subtract_months(date_range.start_date, 3);
        let end = last_day_of_month(subtract_months(first_day_of_month(date_range.end_date), 3));
        DateRange::new_with_recurrence(start, end, Recurrence::Quarterly, None)
    }

    /// The quarter three months later.
    pub fn next(date_range: &DateRange) -> (r: DateRange)
        requires
            date_range.wf(),
            MIN_YEAR < date_range.start_date.year,
            date_range.end_date.year + 1 < MAX_YEAR,
        ensures
            r == DateRange::spec_make(
                quarterly_next_bounds(date_range.start_date, date_range.end_date).0,
                quarterly_next_bounds(date_range.start_date, date_range.end_date).1,
                Recurrence::Quarterly,
                None,
            ),
            r.wf(),
    {
        proof {
            lemma_quarter_bounds(date_range.start_date, date_range.end_date, 3);
        }
        let start = add_months(date_range.start_date, 3);
        let end = last_day_of_month(add_months(first_day_of_month(date_range.end_date), 3));
        DateRange::new_with_recurrence(start, end, Recurrence::Quarterly, None)
    }
}

} // verus!
