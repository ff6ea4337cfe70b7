//! Seven-day ranges that step by their length.
use vstd::prelude::*;
use crate::calendar::{max_dn, min_dn, plus_days, Date, Weekday};
use crate::date_range::{DateRange, Recurrence};
use crate::dateutils::{add_days, subtract_days};

verus! {

pub struct WeeklyDateRange;

/// Days from `d` forward to the next `end_day` (0 when `d` falls on it).
pub open spec fn weekday_offset(d: Date, end_day: Weekday) -> int {
    (end_day.index() - d.weekday_index() + 7) % 7
}

/// Moving a date forward by `weekday_offset` lands on `end_day`.
pub proof fn lemma_weekday_offset(d: Date, end_day: Weekday)
    ensures
        0 <= weekday_offset(d, end_day) < 7,
        (d.dn() + weekday_offset(d, end_day)) % 7 == end_day.index(),
{
    let w = d.dn() % 7;
    let q = d.dn() / 7;
    assert(d.dn() == 7 * q + w && 0 <= w < 7) by {
        vstd::arithmetic::div_mod::lemma_fundamental_div_mod(d.dn(), 7);
    }
    let e = end_day.index();
    assert(0 <= e < 7);
    if e >= w {
        assert(weekday_offset(d, end_day) == e - w);
        assert(d.dn() + (e - w) == 7 * q + e);
        vstd::arithmetic::div_mod::lemma_mod_multiples_vanish(q, e, 7);
    } else {
        assert(weekday_offset(d, end_day) == e - w + 7);
        assert(d.dn() + (e - w + 7) == 7 * (q + 1) + e);
        vstd::arithmetic::div_mod::lemma_mod_multiples_vanish(q + 1, e, 7);
    }
}

impl WeeklyDateRange {
    /// The week from `start_date` to six days later.
    pub fn with_start_date(start_date: Date) -> (r: DateRange)
        requires
            start_date.valid(),
            start_date.dn() + 6 <= max_dn(),
        ensures
            r == DateRange::spec_make(
                start_date,
                plus_days(start_date, 6),
                Recurrence::ByLength,
                None,
            ),
            r.start_date == start_date,
            r.wf(),
    {
        let end = add_days(start_date, 6);
        DateRange::new(start_date, end)
    }

    /// The week from six days before `end_date` to `end_date`.
    pub fn with_end_date(end_date: Date) -> (r: DateRange)
        requires
            end_date.valid(),
            min_dn() <= end_date.dn() - 6,
        ensures
            r == DateRange::spec_make(
                plus_days(end_date, -6),
                end_date,
                Recurrence::ByLength,
                None,
            ),
            r.end_date == end_date,
            r.wf(),
    {
        let start = subtract_days(end_date, 6);
        DateRange::new(start, end_date)
    }

    /// The week that ends on the first `end_day` on or after `target`.
    pub fn with_target_date(target: Date, end_day: Weekday) -> (r: DateRange)
        requires
            target.valid(),
            target.dn() + 6 <= max_dn(),
            min_dn() <= target.dn() - 6,
        ensures
            r == DateRange::spec_make(
                plus_days(target, weekday_offset(target, end_day) - 6),
                plus_days(target, weekday_offset(target, end_day)),
                Recurrence::ByLength,
                None,
            ),
            r.end_date.weekday_index() == end_day.index(),
            r.wf(),
    {
        let offset = calculate_day_of_week_offset(target, end_day);
        let end = add_days(target, offset);
        assert(end.dn() == target.dn() + offset);
        proof {
            lemma_weekday_offset(target, end_day);
        }
        assert(end.weekday_index() == end_day.index());
        let start = subtract_days(end, 6);
        assert(end.dn() - 6 == target.dn() + offset - 6);
        DateRange::new(start, end)
    }
}

/// Days from `date` forward to the next `end_day`, 0 to 6.
pub(crate) fn calculate_day_of_week_offset(date: Date, end_day: Weekday) -> (r: i64)
    requires
        date.valid(),
    ensures
        r == weekday_offset(date, end_day),
        0 <= r < 7,
{
    proof {
        lemma_weekday_offset(date, end_day);
    }
    let mut offset: i64 = end_day.num_days_from_monday() as i64
        - date.weekday().num_days_from_monday() as i64;
    if offset < 0 {
        offset += 7;
    }
    offset
}

} // verus!
