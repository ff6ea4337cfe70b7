//! A range of whole days with a recurrence rule that steps to the prior and
//! the next range.
use vstd::prelude::*;
use crate::annual_date_range::{
    annual_next_bounds, annual_prior_bounds, lemma_annual_end, AnnualDateRange,
};
use crate::calendar::{
    end_of_month, first_of_month, lemma_after_first_year, lemma_day_after,
    lemma_day_before_first, lemma_dn_order, lemma_dn_range, lemma_month_shift,
    lemma_month_shift_mono, lemma_month_shift_order, lemma_month_shift_zero, lemma_plus_days,
    max_dn, min_dn, month_shift, plus_days, Date, Weekday, MAX_YEAR, MIN_YEAR,
};
use crate::chrono_glue::chrono_days_since;
use crate::dateutils::add_days;
use crate::monthly_date_range::{monthly_next_bounds, monthly_prior_bounds, MonthlyDateRange};
use crate::quarterly_date_range::{
    lemma_quarter_bounds, quarterly_next_bounds, quarterly_prior_bounds, QuarterlyDateRange,
};
use crate::semi_annual_date_range::SemiAnnualDateRange;
use crate::semi_monthly_date_range::{
    semi_monthly_next_bounds, semi_monthly_prior_bounds, SemiMonthlyDateRange,
};

verus! {

/// How a range steps to its prior and next range.
#[derive(Clone, Copy, Debug, PartialEq, Eq, Structural)]
pub enum Recurrence {
    /// Both bounds move by the range's length in days.
    ByLength,
    Annual,
    SemiAnnual,
    Quarterly,
    /// Monthly from a configured start day; the range's `start_day` holds it.
    Monthly,
    SemiMonthly,
}

/// An inclusive range of days `[start_date, end_date]`, `len` days long.
#[derive(Clone, Copy, Debug)]
pub struct DateRange {
    pub start_date: Date,
    pub end_date: Date,
    pub len: usize,
    pub recurrence: Recurrence,
    pub start_day: Option<usize>,
}

impl DateRange {
    /// The range with these bounds, rule and start day.
    pub open spec fn spec_make(
        start: Date,
        end: Date,
        recurrence: Recurrence,
        start_day: Option<usize>,
    ) -> DateRange {
        DateRange {
            start_date: start,
            end_date: end,
            len: (end.dn() - start.dn() + 1) as usize,
            recurrence,
            start_day,
        }
    }

    /// The range with these bounds and this range's rule and start day.
    pub open spec fn with_bounds(self, bounds: (Date, Date)) -> DateRange {
        DateRange::spec_make(bounds.0, bounds.1, self.recurrence, self.start_day)
    }

    pub open spec fn wf(self) -> bool {
        &&& self.start_date.valid()
        &&& self.end_date.valid()
        &&& self.start_date.dn() <= self.end_date.dn()
        &&& self.len == self.end_date.dn() - self.start_date.dn() + 1
        &&& (self.recurrence == Recurrence::Monthly) == self.start_day.is_some()
    }

    pub open spec fn contains(self, d: Date) -> bool {
        self.start_date.dn() <= d.dn() <= self.end_date.dn()
    }

    /// Whether the two ranges have the same bounds.
    pub open spec fn same_bounds(self, other: DateRange) -> bool {
        self.start_date == other.start_date && self.end_date == other.end_date
    }

    /// The years that the calendar rules may step within.
    pub open spec fn in_year_band(self) -> bool {
        MIN_YEAR + 2 < self.start_date.year && self.end_date.year + 2 < MAX_YEAR
    }

    /// Whether the next range stays within the dates that can be represented.
    pub open spec fn can_next(self) -> bool {
        match self.recurrence {
            Recurrence::ByLength => self.end_date.dn() + self.len <= max_dn(),
            _ => self.in_year_band(),
        }
    }

    /// Whether the prior range stays within the dates that can be represented.
    pub open spec fn can_prior(self) -> bool {
        match self.recurrence {
            Recurrence::ByLength => min_dn() <= self.start_date.dn() - self.len,
            _ => self.in_year_band(),
        }
    }

    /// Bounds of the next range.
    #[verifier::opaque]
    pub open spec fn next_bounds(self) -> (Date, Date) {
        match self.recurrence {
            Recurrence::ByLength => (
                plus_days(self.start_date, self.len as int),
                plus_days(self.end_date, self.len as int),
            ),
            Recurrence::Annual => annual_next_bounds(self.start_date),
            Recurrence::SemiAnnual => (
                month_shift(self.start_date, 6),
                month_shift(self.end_date, 6),
            ),
            Recurrence::Quarterly => quarterly_next_bounds(self.start_date, self.end_date),
            Recurrence::Monthly => monthly_next_bounds(self.start_day, self.end_date),
            Recurrence::SemiMonthly => semi_monthly_next_bounds(self.end_date),
        }
    }

    /// Bounds of the prior range.
    #[verifier::opaque]
    pub open spec fn prior_bounds(self) -> (Date, Date) {
        match self.recurrence {
            Recurrence::ByLength => (
                plus_days(self.start_date, -self.len),
                plus_days(self.end_date, -self.len),
            ),
            Recurrence::Annual => annual_prior_bounds(self.start_date),
            Recurrence::SemiAnnual => (
                month_shift(self.start_date, -6),
                month_shift(self.end_date, -6),
            ),
            Recurrence::Quarterly => quarterly_prior_bounds(self.start_date, self.end_date),
            Recurrence::Monthly => monthly_prior_bounds(self.start_day, self.start_date),
            Recurrence::SemiMonthly => semi_monthly_prior_bounds(self.start_date),
        }
    }

    pub open spec fn overlaps_spec(self, other: DateRange) -> bool {
        self.start_date.dn() <= other.end_date.dn() && self.end_date.dn() >= other.start_date.dn()
    }

    /// The range `k` steps before this one.
    pub open spec fn prior_iter(self, k: nat) -> DateRange
        decreases k,
    {
        if k == 0 {
            self
        } else {
            self.prior_iter((k - 1) as nat).spec_prior()
        }
    }

    /// The range `k` steps after this one.
    pub open spec fn next_iter(self, k: nat) -> DateRange
        decreases k,
    {
        if k == 0 {
            self
        } else {
            self.next_iter((k - 1) as nat).spec_next()
        }
    }

    /// Whether `k` steps back stay within the representable dates.
    pub open spec fn can_prior_n(self, k: nat) -> bool
        decreases k,
    {
        k == 0 || (self.can_prior_n((k - 1) as nat) && self.prior_iter((k - 1) as nat).can_prior())
    }

    /// Whether `k` steps forward stay within the representable dates.
    pub open spec fn can_next_n(self, k: nat) -> bool
        decreases k,
    {
        k == 0 || (self.can_next_n((k - 1) as nat) && self.next_iter((k - 1) as nat).can_next())
    }

    /// One step of the search for `d`: forward when `d` is after the range,
    /// else back.
    pub open spec fn toward(self, d: Date) -> DateRange {
        if self.end_date.dn() < d.dn() {
            self.spec_next()
        } else {
            self.spec_prior()
        }
    }

    pub open spec fn can_toward(self, d: Date) -> bool {
        if self.end_date.dn() < d.dn() {
            self.can_next()
        } else {
            self.can_prior()
        }
    }

    /// Whether the search for `d` from this range finds it within `k` steps.
    pub open spec fn scan_reaches(self, d: Date, k: nat) -> bool
        decreases k,
    {
        self.contains(d) || (k > 0 && self.can_toward(d) && self.toward(d).scan_reaches(
            d,
            (k - 1) as nat,
        ))
    }

    /// The first range of the search for `d` that contains it (within `k`
    /// steps).
    pub open spec fn scan_result(self, d: Date, k: nat) -> DateRange
        decreases k,
    {
        if self.contains(d) || k == 0 {
            self
        } else {
            self.toward(d).scan_result(d, (k - 1) as nat)
        }
    }

    /// Room to step forward until a range reaches `to`.
    pub open spec fn forward_room(self, to: Date) -> bool {
        match self.recurrence {
            Recurrence::ByLength => to.dn() + self.len <= max_dn(),
            _ => MIN_YEAR + 2 < self.start_date.year && to.year + 2 < MAX_YEAR,
        }
    }

    pub open spec fn spec_next(self) -> DateRange {
        self.with_bounds(self.next_bounds())
    }

    pub open spec fn spec_prior(self) -> DateRange {
        self.with_bounds(self.prior_bounds())
    }

    /// A range from `start_date` to `end_date` that steps by its length.
    pub fn new(start_date: Date, end_date: Date) -> (r: DateRange)
        requires
            start_date.valid(),
            end_date.valid(),
            start_date.dn() <= end_date.dn(),
        ensures
            r == DateRange::spec_make(start_date, end_date, Recurrence::ByLength, None),
            r.wf(),
    {
        DateRange::new_with_recurrence(start_date, end_date, Recurrence::ByLength, None)
    }

    pub(crate) fn new_with_recurrence(
        start_date: Date,
        end_date: Date,
        recurrence: Recurrence,
        start_day: Option<usize>,
    ) -> (r: DateRange)
        requires
            start_date.valid(),
            end_date.valid(),
            start_date.dn() <= end_date.dn(),
            (recurrence == Recurrence::Monthly) == start_day.is_some(),
        ensures
            r == DateRange::spec_make(start_date, end_date, recurrence, start_day),
            r.wf(),
    {
        proof {
            lemma_dn_range(start_date);
            lemma_dn_range(end_date);
        }
        let days = chrono_days_since(end_date, start_date);
        DateRange { start_date, end_date, len: (days + 1) as usize, recurrence, start_day }
    }

    /// The same rule and start day with other bounds.
    fn create_new_date_range(&self, start: Date, end: Date) -> (r: DateRange)
        requires
            self.wf(),
            start.valid(),
            end.valid(),
            start.dn() <= end.dn(),
        ensures
            r == self.with_bounds((start, end)),
            r.wf(),
    {
        DateRange::new_with_recurrence(start, end, self.recurrence, self.start_day)
    }

    pub fn start_date(&self) -> (r: Date)
        ensures
            r == self.start_date,
    {
        self.start_date
    }

    pub fn end_date(&self) -> (r: Date)
        ensures
            r == self.end_date,
    {
        self.end_date
    }

    /// The number of days in the range, both bounds included.
    pub fn len(&self) -> (r: usize)
        ensures
            r == self.len,
    {
        self.len
    }

    /// The configured start day of a monthly range.
    pub fn start_day(&self) -> (r: Option<usize>)
        ensures
            r == self.start_day,
    {
        self.start_day
    }

    /// The range before this one.
    pub fn prior(&self) -> (r: DateRange)
        requires
            self.wf(),
            self.can_prior(),
        ensures
            r == self.spec_prior(),
            r.wf(),
    {
        proof {
            lemma_dn_order(self.start_date, self.end_date);
            reveal(DateRange::prior_bounds);
        }
        match self.recurrence {
            Recurrence::ByLength => {
                proof {
                    lemma_dn_range(self.end_date);
                }
                let n = self.len as i64;
                let start = add_days(self.start_date, -n);
                let end = add_days(self.end_date, -n);
                self.create_new_date_range(start, end)
            },
            Recurrence::Annual => AnnualDateRange::prior(self),
            Recurrence::SemiAnnual => SemiAnnualDateRange::prior(self),
            Recurrence::Quarterly => QuarterlyDateRange::prior(self),
            Recurrence::Monthly => MonthlyDateRange::prior(self),
            Recurrence::SemiMonthly => SemiMonthlyDateRange::prior(self),
        }
    }

    /// The range after this one.
    pub fn next(&self) -> (r: DateRange)
        requires
            self.wf(),
            self.can_next(),
        ensures
            r == self.spec_next(),
            r.wf(),
    {
        proof {
            lemma_dn_order(self.start_date, self.end_date);
            reveal(DateRange::next_bounds);
        }
        match self.recurrence {
            Recurrence::ByLength => {
                proof {
                    lemma_dn_range(self.start_date);
                }
                let n = self.len as i64;
                let start = add_days(self.start_date, n);
                let end = add_days(self.end_date, n);
                self.create_new_date_range(start, end)
            },
            Recurrence::Annual => AnnualDateRange::next(self),
            Recurrence::SemiAnnual => SemiAnnualDateRange::next(self),
            Recurrence::Quarterly => QuarterlyDateRange::next(self),
            Recurrence::Monthly => MonthlyDateRange::next(self),
            Recurrence::SemiMonthly => SemiMonthlyDateRange::next(self),
        }
    }

    /// Whether `date` lies in the range, bounds included.
    pub fn contains_date(&self, date: Date) -> (r: bool)
        requires
            self.wf(),
            date.valid(),
        ensures
            r == self.contains(date),
    {
        !date.precedes(&self.start_date) && !self.end_date.precedes(&date)
    }

    /// Whether `date_range` lies wholly in this range.
    pub fn contains_range(&self, date_range: &DateRange) -> (r: bool)
        requires
            self.wf(),
            date_range.wf(),
        ensures
            r == (self.start_date.dn() <= date_range.start_date.dn()
                && date_range.end_date.dn() <= self.end_date.dn()),
    {
        !date_range.start_date.precedes(&self.start_date) && !self.end_date.precedes(
            &date_range.end_date,
        )
    }

    /// Whether the two ranges share a day; touching at a bound counts.
    pub fn overlaps(&self, date_range: &DateRange) -> (r: bool)
        requires
            self.wf(),
            date_range.wf(),
        ensures
            r == self.overlaps_spec(*date_range),
    {
        !date_range.end_date.precedes(&self.start_date) && !self.end_date.precedes(
            &date_range.start_date,
        )
    }

    /// Whether the range overlaps any of `date_ranges`.
    pub fn overlaps_any(&self, date_ranges: &[DateRange]) -> (r: bool)
        requires
            self.wf(),
            forall|i: int| 0 <= i < date_ranges@.len() ==> (#[trigger] date_ranges@[i]).wf(),
        ensures
            r == exists|i: int|
                0 <= i < date_ranges@.len() && self.overlaps_spec(#[trigger] date_ranges@[i]),
    {
        let mut i: usize = 0;
        while i < date_ranges.len()
            invariant
                self.wf(),
                i <= date_ranges@.len(),
                forall|j: int| 0 <= j < date_ranges@.len() ==> (#[trigger] date_ranges@[j]).wf(),
                forall|j: int| 0 <= j < i ==> !self.overlaps_spec(#[trigger] date_ranges@[j]),
            decreases date_ranges@.len() - i,
        {
            if self.overlaps(&date_ranges[i]) {
                return true;
            }
            i += 1;
        }
        false
    }

    /// The days of the range in ascending order.
    pub fn dates(&self) -> (r: Vec<Date>)
        requires
            self.wf(),
        ensures
            r@.len() == self.len,
            forall|i: int| 0 <= i < self.len ==> #[trigger] r@[i] == plus_days(self.start_date, i),
            forall|i: int| 0 <= i < self.len ==> (#[trigger] r@[i]).valid() && r@[i].dn() == self.start_date.dn() + i,
    {
        let mut dates: Vec<Date> = Vec::with_capacity(self.len);
        let mut current = self.start_date;
        let mut i: usize = 0;
        proof {
            crate::calendar::lemma_date_of(current, self.start_date.dn());
        }
        while i < self.len
            invariant
                self.wf(),
                i <= self.len,
                dates@.len() == i,
                i < self.len ==> current.valid() && current.dn() == self.start_date.dn() + i
                    && current == plus_days(self.start_date, i as int),
                forall|j: int| 0 <= j < i ==> #[trigger] dates@[j] == plus_days(self.start_date, j),
                forall|j: int| 0 <= j < i ==> (#[trigger] dates@[j]).valid() && dates@[j].dn() == self.start_date.dn() + j,
            decreases self.len - i,
        {
            dates.push(current);
            if i + 1 < self.len {
                proof {
                    lemma_dn_range(self.end_date);
                }
                current = add_days(current, 1);
                proof {
                    crate::calendar::lemma_date_of(current, self.start_date.dn() + i + 1);
                }
            }
            i += 1;
        }
        dates
    }

    /// The day at `index` (0 is the start), or `None` past the end.
    pub fn date_at(&self, index: usize) -> (r: Option<Date>)
        requires
            self.wf(),
        ensures
            index < self.len ==> r == Some(plus_days(self.start_date, index as int)),
            index >= self.len ==> r.is_none(),
    {
        if index < self.len {
            proof {
                lemma_dn_range(self.end_date);
            }
            Some(add_days(self.start_date, index as i64))
        } else {
            None
        }
    }

    /// The days of the range that fall on `day`, in ascending order.
    pub fn dates_for_day(&self, day: Weekday) -> (r: Vec<Date>)
        requires
            self.wf(),
        ensures
            forall|x: Date|
                r@.contains(x) <==> (x.valid() && self.contains(x) && x.weekday_index()
                    == day.index()),
            forall|i: int, j: int| 0 <= i < j < r@.len() ==> r@[i].dn() < r@[j].dn(),
    {
        let mut found: Vec<Date> = Vec::new();
        let mut current = self.start_date;
        let mut i: usize = 0;
        while i < self.len
            invariant
                self.wf(),
                i <= self.len,
                i < self.len ==> current.valid() && current.dn() == self.start_date.dn() + i,
                forall|k: int| 0 <= k < found@.len() ==> (#[trigger] found@[k]).valid()
                    && self.start_date.dn() <= found@[k].dn() < self.start_date.dn() + i,
                forall|k: int, l: int| 0 <= k < l < found@.len() ==> found@[k].dn() < found@[l].dn(),
                forall|x: Date|
                    found@.contains(x) <==> (x.valid() && self.start_date.dn() <= x.dn()
                        < self.start_date.dn() + i && x.weekday_index() == day.index()),
            decreases self.len - i,
        {
            let ghost before = found@;
            let matches = current.weekday() == day;
            if matches {
                found.push(current);
            }
            proof {
                if matches {
                    assert(found@ == before.push(current));
                } else {
                    assert(found@ == before);
                }
                assert forall|x: Date|
                    found@.contains(x) <==> (x.valid() && self.start_date.dn() <= x.dn()
                        < self.start_date.dn() + i + 1 && x.weekday_index() == day.index()) by {
                    if x.valid() && x.dn() == current.dn() {
                        lemma_dn_order(x, current);
                    }
                    if matches {
                        if found@.contains(x) {
                            let k = choose|k: int| 0 <= k < found@.len() && found@[k] == x;
                            if k < before.len() {
                                assert(before[k] == x);
                            }
                        }
                        if before.contains(x) {
                            let k = choose|k: int| 0 <= k < before.len() && before[k] == x;
                            assert(found@[k] == x);
                        }
                        if x == current {
                            assert(found@[before.len() as int] == x);
                        }
                    }
                }
            }
            if i + 1 < self.len {
                proof {
                    lemma_dn_range(self.end_date);
                }
                current = add_days(current, 1);
            }
            i += 1;
        }
        found
    }

    /// A cursor over the days of the range.
    pub fn iter(&self) -> (r: DateRangeIter)
        requires
            self.wf(),
        ensures
            r.current == self.start_date,
            r.remaining == self.len,
            r.wf(),
    {
        proof {
            lemma_dn_range(self.end_date);
        }
        DateRangeIter { current: self.start_date, remaining: self.len }
    }

    /// The range `number` steps before this one: `prior()` applied `number`
    /// times, so this range itself for `number` 0.
    pub fn prior_n(&self, number: usize) -> (r: DateRange)
        requires
            self.wf(),
            self.can_prior_n(number as nat),
        ensures
            r == self.prior_iter(number as nat),
            r.wf(),
    {
        let mut range = *self;
        let mut i: usize = 0;
        while i < number
            invariant
                self.wf(),
                i <= number,
                self.can_prior_n(number as nat),
                range == self.prior_iter(i as nat),
                range.wf(),
            decreases number - i,
        {
            proof {
                lemma_can_prior_n(*self, i as nat, number as nat);
            }
            range = range.prior();
            i += 1;
        }
        range
    }

    /// The range `number` steps after this one: `next()` applied `number`
    /// times, so this range itself for `number` 0.
    pub fn next_n(&self, number: usize) -> (r: DateRange)
        requires
            self.wf(),
            self.can_next_n(number as nat),
        ensures
            r == self.next_iter(number as nat),
            r.wf(),
    {
        let mut range = *self;
        let mut i: usize = 0;
        while i < number
            invariant
                self.wf(),
                i <= number,
                self.can_next_n(number as nat),
                range == self.next_iter(i as nat),
                range.wf(),
            decreases number - i,
        {
            proof {
                lemma_can_next_n(*self, i as nat, number as nat);
            }
            range = range.next();
            i += 1;
        }
        range
    }

    /// The `number` ranges before this one, in ascending order.
    pub fn ranges_before(&self, number: usize) -> (r: Vec<DateRange>)
        requires
            self.wf(),
            self.can_prior_n(number as nat),
        ensures
            r@.len() == number,
            forall|i: int| 0 <= i < number ==> #[trigger] r@[i] == self.prior_iter((number - i) as nat),
    {
        self.ranges_before_impl(number, false)
    }

    /// The `number` ranges before this one and this one, in ascending order.
    pub fn ranges_before_inclusive(&self, number: usize) -> (r: Vec<DateRange>)
        requires
            self.wf(),
            self.can_prior_n(number as nat),
            number < usize::MAX,
        ensures
            r@.len() == number + 1,
            forall|i: int| 0 <= i <= number ==> #[trigger] r@[i] == self.prior_iter((number - i) as nat),
    {
        self.ranges_before_impl(number, true)
    }

    /// The `number` ranges after this one, in ascending order.
    pub fn ranges_after(&self, number: usize) -> (r: Vec<DateRange>)
        requires
            self.wf(),
            self.can_next_n(number as nat),
        ensures
            r@.len() == number,
            forall|i: int| 0 <= i < number ==> #[trigger] r@[i] == self.next_iter((i + 1) as nat),
    {
        self.ranges_after_impl(number, false)
    }

    /// This range and the `number` ranges after it, in ascending order.
    pub fn ranges_after_inclusive(&self, number: usize) -> (r: Vec<DateRange>)
        requires
            self.wf(),
            self.can_next_n(number as nat),
            number < usize::MAX,
        ensures
            r@.len() == number + 1,
            forall|i: int| 0 <= i <= number ==> #[trigger] r@[i] == self.next_iter(i as nat),
    {
        self.ranges_after_impl(number, true)
    }

    /// The `before` ranges before this one, this one, and the `after` ranges
    /// after it, in ascending order.
    pub fn ranges_window(&self, before: usize, after: usize) -> (r: Vec<DateRange>)
        requires
            self.wf(),
            self.can_prior_n(before as nat),
            self.can_next_n(after as nat),
            before + after + 1 <= usize::MAX,
        ensures
            r@.len() == before + after + 1,
            forall|i: int| 0 <= i <= before ==> #[trigger] r@[i] == self.prior_iter((before - i) as nat),
            forall|i: int|
                before < i <= before + after ==> #[trigger] r@[i] == self.next_iter((i - before) as nat),
    {
        let mut ranges = self.ranges_before_impl(before, true);
        let after_ranges = self.ranges_after_impl(after, false);
        let mut i: usize = 0;
        while i < after_ranges.len()
            invariant
                i <= after_ranges@.len() == after,
                ranges@.len() == before + 1 + i,
                forall|j: int| 0 <= j <= before ==> #[trigger] ranges@[j] == self.prior_iter((before - j) as nat),
                forall|j: int| before < j < before + 1 + i ==> #[trigger] ranges@[j] == self.next_iter((j - before) as nat),
                forall|j: int| 0 <= j < after ==> #[trigger] after_ranges@[j] == self.next_iter((j + 1) as nat),
            decreases after_ranges@.len() - i,
        {
            ranges.push(after_ranges[i]);
            i += 1;
        }
        ranges
    }

    fn ranges_before_impl(&self, number: usize, include_self: bool) -> (r: Vec<DateRange>)
        requires
            self.wf(),
            self.can_prior_n(number as nat),
            include_self ==> number < usize::MAX,
        ensures
            r@.len() == number + (if include_self { 1int } else { 0int }),
            forall|i: int| 0 <= i < r@.len() ==> #[trigger] r@[i] == self.prior_iter((number - i) as nat),
    {
        let ghost skip: int = if include_self { 0 } else { 1 };
        let mut descending: Vec<DateRange> = Vec::new();
        if include_self {
            descending.push(*self);
        }
        let mut current = *self;
        let mut i: usize = 0;
        while i < number
            invariant
                self.wf(),
                self.can_prior_n(number as nat),
                i <= number,
                current == self.prior_iter(i as nat),
                current.wf(),
                descending@.len() == i + 1 - skip,
                forall|j: int| 0 <= j < descending@.len() ==> #[trigger] descending@[j] == self.prior_iter((j + skip) as nat),
            decreases number - i,
        {
            proof {
                lemma_can_prior_n(*self, i as nat, number as nat);
            }
            current = current.prior();
            descending.push(current);
            i += 1;
        }
        let mut ranges: Vec<DateRange> = Vec::new();
        let mut k: usize = descending.len();
        while k > 0
            invariant
                k <= descending@.len(),
                descending@.len() == number + 1 - skip,
                ranges@.len() == descending@.len() - k,
                forall|j: int| 0 <= j < descending@.len() ==> #[trigger] descending@[j] == self.prior_iter((j + skip) as nat),
                forall|j: int| 0 <= j < ranges@.len() ==> #[trigger] ranges@[j] == self.prior_iter((number - j) as nat),
            decreases k,
        {
            k -= 1;
            ranges.push(descending[k]);
        }
        ranges
    }

    fn ranges_after_impl(&self, number: usize, include_self: bool) -> (r: Vec<DateRange>)
        requires
            self.wf(),
            self.can_next_n(number as nat),
            include_self ==> number < usize::MAX,
        ensures
            r@.len() == number + (if include_self { 1int } else { 0int }),
            forall|i: int| 0 <= i < r@.len() ==> #[trigger] r@[i] == self.next_iter(
                (i + (if include_self { 0int } else { 1int })) as nat,
            ),
    {
        let ghost skip: int = if include_self { 0 } else { 1 };
        let mut ranges: Vec<DateRange> = Vec::new();
        if include_self {
            ranges.push(*self);
        }
        let mut current = *self;
        let mut i: usize = 0;
        while i < number
            invariant
                self.wf(),
                self.can_next_n(number as nat),
                i <= number,
                current == self.next_iter(i as nat),
                current.wf(),
                ranges@.len() == i + 1 - skip,
                forall|j: int| 0 <= j < ranges@.len() ==> #[trigger] ranges@[j] == self.next_iter((j + skip) as nat),
            decreases number - i,
        {
            proof {
                lemma_can_next_n(*self, i as nat, number as nat);
            }
            current = current.next();
            ranges.push(current);
            i += 1;
        }
        ranges
    }

    /// The range that contains `date`, found by stepping forward while `date`
    /// is after the range and back while it is before.
    pub fn range_containing_date(&self, date: Date) -> (r: DateRange)
        requires
            self.wf(),
            date.valid(),
            exists|k: nat| self.scan_reaches(date, k),
        ensures
            r.wf(),
            r.contains(date),
            forall|k: nat| self.scan_reaches(date, k) ==> r == self.scan_result(date, k),
    {
        let ghost k0 = choose|k: nat| self.scan_reaches(date, k);
        let ghost mut fuel: nat = k0;
        let mut range = *self;
        while !range.contains_date(date)
            invariant
                range.wf(),
                date.valid(),
                range.scan_reaches(date, fuel),
                self.scan_result(date, k0) == range.scan_result(date, fuel),
            decreases fuel,
        {
            proof {
                lemma_dn_order(range.end_date, date);
                fuel = (fuel - 1) as nat;
            }
            if range.end_date.precedes(&date) {
                range = range.next();
            } else {
                range = range.prior();
            }
        }
        proof {
            assert forall|k: nat| self.scan_reaches(date, k) implies range == self.scan_result(
                date,
                k,
            ) by {
                lemma_scan_unique(*self, date, k, k0);
            }
        }
        range
    }

    /// The ranges from the one that contains `from_date` up to the first one
    /// that reaches `to_date`, in ascending order.
    pub fn ranges_containing_span(&self, from_date: Date, to_date: Date) -> (r: Vec<DateRange>)
        requires
            self.wf(),
            from_date.valid(),
            to_date.valid(),
            exists|k: nat| self.scan_reaches(from_date, k),
            forall|k: nat|
                self.scan_reaches(from_date, k) ==> #[trigger] self.scan_result(
                    from_date,
                    k,
                ).forward_room(to_date),
        ensures
            r@.len() >= 1,
            forall|k: nat| self.scan_reaches(from_date, k) ==> r@[0] == self.scan_result(from_date, k),
            forall|i: int| 0 <= i < r@.len() - 1 ==> #[trigger] r@[i + 1] == r@[i].spec_next(),
            forall|i: int| 0 <= i < r@.len() - 1 ==> (#[trigger] r@[i]).end_date.dn() < to_date.dn(),
            to_date.dn() <= r@[r@.len() - 1].end_date.dn(),
            forall|i: int, j: int| 0 <= i < j < r@.len() ==> r@[i].start_date.dn() < r@[j].start_date.dn(),
            forall|i: int| 0 <= i < r@.len() ==> (#[trigger] r@[i]).wf(),
    {
        let mut ranges: Vec<DateRange> = Vec::new();
        let mut range = self.range_containing_date(from_date);
        let ghost first = range;
        proof {
            let k = choose|k: nat| self.scan_reaches(from_date, k);
            assert(self.scan_result(from_date, k).forward_room(to_date));
        }
        ranges.push(range);
        while range.end_date.precedes(&to_date)
            invariant
                range.wf(),
                to_date.valid(),
                range.forward_room(to_date),
                range.recurrence == first.recurrence,
                first.recurrence == Recurrence::ByLength ==> range.len == first.len,
                ranges@.len() >= 1,
                ranges@[0] == first,
                ranges@[ranges@.len() - 1] == range,
                forall|i: int| 0 <= i < ranges@.len() ==> (#[trigger] ranges@[i]).wf(),
                forall|i: int| 0 <= i < ranges@.len() - 1 ==> #[trigger] ranges@[i + 1] == ranges@[i].spec_next(),
                forall|i: int| 0 <= i < ranges@.len() - 1 ==> (#[trigger] ranges@[i]).end_date.dn() < to_date.dn(),
                forall|i: int, j: int| 0 <= i < j < ranges@.len() ==> ranges@[i].start_date.dn() < ranges@[j].start_date.dn(),
            decreases (if range.start_date.dn() <= to_date.dn() {
                to_date.dn() - range.start_date.dn()
            } else {
                0
            }),
        {
            proof {
                lemma_dn_order(range.end_date, to_date);
                lemma_next_advances(range);
            }
            let ghost prev = range;
            range = range.next();
            proof {
                lemma_dn_order(prev.start_date, range.start_date);
            }
            ranges.push(range);
        }
        proof {
            lemma_dn_order(range.end_date, to_date);
        }
        ranges
    }
}

/// Order of dates by year, then month, then day.
pub open spec fn date_order(a: Date, b: Date) -> std::cmp::Ordering {
    if a.year < b.year {
        std::cmp::Ordering::Less
    } else if a.year > b.year {
        std::cmp::Ordering::Greater
    } else if a.month < b.month {
        std::cmp::Ordering::Less
    } else if a.month > b.month {
        std::cmp::Ordering::Greater
    } else if a.day < b.day {
        std::cmp::Ordering::Less
    } else if a.day > b.day {
        std::cmp::Ordering::Greater
    } else {
        std::cmp::Ordering::Equal
    }
}

/// Order of ranges by start date, then end date.
pub open spec fn range_order(a: DateRange, b: DateRange) -> std::cmp::Ordering {
    if date_order(a.start_date, b.start_date) == std::cmp::Ordering::Equal {
        date_order(a.end_date, b.end_date)
    } else {
        date_order(a.start_date, b.start_date)
    }
}

fn compare_dates(a: &Date, b: &Date) -> (r: std::cmp::Ordering)
    ensures
        r == date_order(*a, *b),
{
    if a.year < b.year {
        std::cmp::Ordering::Less
    } else if a.year > b.year {
        std::cmp::Ordering::Greater
    } else if a.month < b.month {
        std::cmp::Ordering::Less
    } else if a.month > b.month {
        std::cmp::Ordering::Greater
    } else if a.day < b.day {
        std::cmp::Ordering::Less
    } else if a.day > b.day {
        std::cmp::Ordering::Greater
    } else {
        std::cmp::Ordering::Equal
    }
}

/// Ranges are equal when their bounds are; the rule and start day do not count.
impl PartialEq for DateRange {
    fn eq(&self, other: &DateRange) -> (r: bool) {
        self.start_date == other.start_date && self.end_date == other.end_date
    }
}

impl vstd::std_specs::cmp::PartialEqSpecImpl for DateRange {
    open spec fn obeys_eq_spec() -> bool {
        true
    }

    open spec fn eq_spec(&self, other: &DateRange) -> bool {
        self.same_bounds(*other)
    }
}

impl Eq for DateRange {
}

/// Ranges are ordered by their bounds: start date first, then end date.
impl PartialOrd for DateRange {
    fn partial_cmp(&self, other: &DateRange) -> (r: Option<std::cmp::Ordering>) {
        let by_start = compare_dates(&self.start_date, &other.start_date);
        match by_start {
            std::cmp::Ordering::Equal => Some(compare_dates(&self.end_date, &other.end_date)),
            _ => Some(by_start),
        }
    }
}

impl vstd::std_specs::cmp::PartialOrdSpecImpl for DateRange {
    open spec fn obeys_partial_cmp_spec() -> bool {
        true
    }

    open spec fn partial_cmp_spec(&self, other: &DateRange) -> Option<std::cmp::Ordering> {
        Some(range_order(*self, *other))
    }
}

/// A cursor over consecutive days: `current`, then the `remaining - 1` days
/// after it.
pub struct DateRangeIter {
    pub current: Date,
    pub remaining: usize,
}

impl DateRangeIter {
    pub open spec fn wf(self) -> bool {
        &&& self.current.valid()
        &&& self.remaining > 0 ==> self.current.dn() + self.remaining - 1 <= max_dn()
    }

    /// The next day, or `None` once all days have been handed out.
    pub fn next(&mut self) -> (r: Option<Date>)
        requires
            old(self).wf(),
        ensures
            final(self).wf(),
            old(self).remaining == 0 ==> r.is_none() && *final(self) == *old(self),
            old(self).remaining > 0 ==> r == Some(old(self).current),
            old(self).remaining > 0 ==> final(self).remaining == old(self).remaining - 1,
            final(self).remaining > 0 ==> final(self).current == plus_days(old(self).current, 1),
    {
        if self.remaining == 0 {
            None
        } else {
            let r = self.current;
            self.remaining = self.remaining - 1;
            if self.remaining > 0 {
                self.current = add_days(self.current, 1);
            }
            Some(r)
        }
    }
}

pub proof fn lemma_can_prior_n(r: DateRange, i: nat, n: nat)
    requires
        r.can_prior_n(n),
        i < n,
    ensures
        r.prior_iter(i).can_prior(),
        r.can_prior_n(i + 1),
    decreases n - i,
{
    if i + 1 < n {
        lemma_can_prior_n(r, i, (n - 1) as nat);
    }
}

pub proof fn lemma_can_next_n(r: DateRange, i: nat, n: nat)
    requires
        r.can_next_n(n),
        i < n,
    ensures
        r.next_iter(i).can_next(),
        r.can_next_n(i + 1),
    decreases n - i,
{
    if i + 1 < n {
        lemma_can_next_n(r, i, (n - 1) as nat);
    }
}

/// Two bounds under which the search finds a date give the same range.
pub proof fn lemma_scan_unique(r: DateRange, d: Date, k1: nat, k2: nat)
    requires
        r.scan_reaches(d, k1),
        r.scan_reaches(d, k2),
    ensures
        r.scan_result(d, k1) == r.scan_result(d, k2),
    decreases k1,
{
    if !r.contains(d) {
        lemma_scan_unique(r.toward(d), d, (k1 - 1) as nat, (k2 - 1) as nat);
    }
}

/// The next range of a well-formed range is well-formed.
#[verifier::rlimit(40)]
pub proof fn lemma_spec_next_wf(r: DateRange)
    requires
        r.wf(),
        r.can_next(),
    ensures
        r.spec_next().wf(),
        r.spec_next().recurrence == r.recurrence,
        r.spec_next().start_day == r.start_day,
{
    reveal(DateRange::next_bounds);
    let s = r.start_date;
    let e = r.end_date;
    lemma_dn_order(s, e);
    match r.recurrence {
        Recurrence::ByLength => {
            lemma_plus_days(s, r.len as int);
            lemma_plus_days(e, r.len as int);
        },
        Recurrence::Annual => {
            lemma_month_shift(s, 12);
            lemma_annual_end(month_shift(s, 12));
        },
        Recurrence::SemiAnnual => {
            lemma_month_shift(s, 6);
            lemma_month_shift(e, 6);
            lemma_month_shift_mono(s, e, 6);
        },
        Recurrence::Quarterly => {
            lemma_quarter_bounds(s, e, 3);
        },
        Recurrence::Monthly => {
            lemma_day_after(e);
            let x = plus_days(e, 1);
            lemma_dn_order(x, end_of_month(x));
            lemma_month_shift(e, 1);
            lemma_month_shift_zero(e);
            lemma_month_shift_order(e, 0, 1);
        },
        Recurrence::SemiMonthly => {
            let b = r.next_bounds();
            lemma_dn_order(b.0, b.1);
        },
    }
    let n = r.spec_next();
    lemma_dn_range(n.start_date);
    lemma_dn_range(n.end_date);
}

/// The prior range of a well-formed range is well-formed.
#[verifier::rlimit(40)]
pub proof fn lemma_spec_prior_wf(r: DateRange)
    requires
        r.wf(),
        r.can_prior(),
    ensures
        r.spec_prior().wf(),
        r.spec_prior().recurrence == r.recurrence,
        r.spec_prior().start_day == r.start_day,
{
    reveal(DateRange::prior_bounds);
    let s = r.start_date;
    let e = r.end_date;
    lemma_dn_order(s, e);
    match r.recurrence {
        Recurrence::ByLength => {
            lemma_dn_range(s);
            lemma_plus_days(s, -r.len);
            lemma_plus_days(e, -r.len);
        },
        Recurrence::Annual => {
            lemma_month_shift(s, -12);
            lemma_annual_end(month_shift(s, -12));
        },
        Recurrence::SemiAnnual => {
            lemma_month_shift(s, -6);
            lemma_month_shift(e, -6);
            lemma_month_shift_mono(s, e, -6);
        },
        Recurrence::Quarterly => {
            lemma_quarter_bounds(s, e, -3);
        },
        Recurrence::Monthly => {
            lemma_after_first_year(s);
            lemma_plus_days(s, -1);
            let y = plus_days(s, -1);
            lemma_dn_order(first_of_month(y), y);
            lemma_month_shift(s, -1);
            lemma_month_shift_zero(s);
            lemma_month_shift_order(s, -1, 0);
        },
        Recurrence::SemiMonthly => {
            lemma_after_first_year(s);
            lemma_plus_days(s, -1);
            if s.day == 1 {
                lemma_day_before_first(s);
            }
            let b = r.prior_bounds();
            lemma_dn_order(b.0, b.1);
        },
    }
    let p = r.spec_prior();
    lemma_dn_range(p.start_date);
    lemma_dn_range(p.end_date);
}

/// Each rule's next range starts after the range does.
#[verifier::rlimit(40)]
pub proof fn lemma_next_advances(r: DateRange)
    requires
        r.wf(),
        r.can_next(),
    ensures
        r.start_date.dn() < r.spec_next().start_date.dn(),
        r.recurrence == Recurrence::ByLength ==> r.spec_next().len == r.len,
{
    lemma_dn_order(r.start_date, r.end_date);
    reveal(DateRange::next_bounds);
    let s = r.start_date;
    let e = r.end_date;
    match r.recurrence {
        Recurrence::ByLength => {
            lemma_plus_days(s, r.len as int);
            lemma_plus_days(e, r.len as int);
        },
        Recurrence::Annual => {
            lemma_month_shift_zero(s);
            lemma_month_shift_order(s, 0, 12);
        },
        Recurrence::SemiAnnual => {
            lemma_month_shift_zero(s);
            lemma_month_shift_order(s, 0, 6);
        },
        Recurrence::Quarterly => {
            lemma_month_shift_zero(s);
            lemma_month_shift_order(s, 0, 3);
        },
        Recurrence::Monthly => {
            lemma_day_after(e);
        },
        Recurrence::SemiMonthly => {
            lemma_dn_order(e, r.spec_next().start_date);
        },
    }
}

} // verus!
