//! Fourteen-day ranges that step by their length.
use vstd::prelude::*;
use crate::calendar::{max_dn, min_dn, plus_days, Date, Weekday};
use crate::date_range::{DateRange, Recurrence};
use crate::dateutils::{add_days, subtract_days};
use crate::weekly_date_range::{calculate_day_of_week_offset, lemma_weekday_offset, weekday_offset};

verus! {

pub struct BiWeeklyDateRange;

impl BiWeeklyDateRange {
    /// The two weeks from `start_date` to thirteen days later.
    pub fn with_start_date(start_date: Date) -> (r: DateRange)
        requires
            start_date.valid(),
            start_date.dn() + 13 <= max_dn(),
        ensures
            r == DateRange::spec_make(
                start_date,
                plus_days(start_date, 13),
                Recurrence::ByLength,
                None,
            ),
            r.start_date == start_date,
            r.wf(),
    {
        let end = add_days(start_date, 13);
        DateRange::new(start_date, end)
    }

    /// The two weeks from thirteen days before `end_date` to `end_date`.
    pub fn with_end_date(end_date: Date) -> (r: DateRange)
        requires
            end_date.valid(),
            min_dn() <= end_date.dn() - 13,
        ensures
            r == DateRange::spec_make(
                plus_days(end_date, -13),
                end_date,
                Recurrence::ByLength,
                None,
            ),
            r.end_date == end_date,
            r.wf(),
    {
        let start = subtract_days(end_date, 13);
        DateRange::new(start, end_date)
    }

    /// The two weeks that end on the first `end_day` on or after `target`.
    pub fn with_target_date(target: Date, end_day: Weekday) -> (r: DateRange)
        requires
            target.valid(),
            target.dn() + 13 <= max_dn(),
            min_dn() <= target.dn() - 13,
        ensures
            r == DateRange::spec_make(
                plus_days(target, weekday_offset(target, end_day) - 13),
                plus_days(target, weekday_offset(target, end_day)),
                Recurrence::ByLength,
                None,
            ),
            r.end_date.weekday_index() == end_day.index(),
            r.wf(),
    {
        let offset = calculate_day_of_week_offset(target, end_day);
        let end = add_days(target, offset);
        assert(end.dn() == target.dn() + offset);
        proof {
            lemma_weekday_offset(target, end_day);
        }
        assert(end.weekday_index() == end_day.index());
        let start = subtract_days(end, 13);
        assert(end.dn() - 13 == target.dn() + offset - 13);
        DateRange::new(start, end)
    }
}

} // verus!
