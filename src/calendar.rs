//! Civil dates of the proleptic Gregorian calendar and their model.
//!
//! A valid date is numbered on a line of days: `0001-01-01` is day 0, and each
//! following day adds one. Order, distance and weekday of dates are stated over
//! that number.
use vstd::prelude::*;
use crate::chrono_glue::{chrono_from_ymd, chrono_weekday};

verus! {

/// The earliest year that a date may have.
pub const MIN_YEAR: i32 = -262143;

/// The latest year that a date may have.
pub const MAX_YEAR: i32 = 262142;

/// A civil date: year, month (1 to 12) and day of the month.
#[derive(Clone, Copy, Debug, PartialEq, Eq, Structural, PartialOrd, Ord, Hash)]
pub struct Date {
    pub year: i32,
    pub month: u32,
    pub day: u32,
}

/// A day of the week.
#[derive(Clone, Copy, Debug, PartialEq, Eq, Structural, Hash)]
pub enum Weekday {
    Mon,
    Tue,
    Wed,
    Thu,
    Fri,
    Sat,
    Sun,
}

pub open spec fn is_leap_year(y: int) -> bool {
    (y % 4 == 0 && y % 100 != 0) || y % 400 == 0
}

pub open spec fn year_length(y: int) -> int {
    if is_leap_year(y) { 366 } else { 365 }
}

/// Number of days in month `m` of year `y`.
pub open spec fn days_in_month(y: int, m: int) -> int {
    if m == 2 {
        if is_leap_year(y) { 29 } else { 28 }
    } else if m == 4 || m == 6 || m == 9 || m == 11 {
        30
    } else {
        31
    }
}

/// Days of year `y` that come before the first of month `m` (1 to 13).
pub open spec fn days_before_month(y: int, m: int) -> int {
    let leap: int = if is_leap_year(y) { 1 } else { 0 };
    if m <= 1 { 0 }
    else if m == 2 { 31 }
    else if m == 3 { 59 + leap }
    else if m == 4 { 90 + leap }
    else if m == 5 { 120 + leap }
    else if m == 6 { 151 + leap }
    else if m == 7 { 181 + leap }
    else if m == 8 { 212 + leap }
    else if m == 9 { 243 + leap }
    else if m == 10 { 273 + leap }
    else if m == 11 { 304 + leap }
    else if m == 12 { 334 + leap }
    else { 365 + leap }
}

/// Days from `0001-01-01` to the first of January of year `y`.
pub open spec fn days_before_year(y: int) -> int {
    let p = y - 1;
    365 * p + p / 4 - p / 100 + p / 400
}

pub open spec fn ymd_valid(y: int, m: int, d: int) -> bool {
    &&& MIN_YEAR <= y <= MAX_YEAR
    &&& 1 <= m <= 12
    &&& 1 <= d <= days_in_month(y, m)
}

/// Position of a year-month on a line of months.
pub open spec fn month_index(y: int, m: int) -> int {
    y * 12 + m - 1
}

impl Date {
    pub open spec fn valid(self) -> bool {
        ymd_valid(self.year as int, self.month as int, self.day as int)
    }

    /// The day number: `0001-01-01` is 0.
    pub open spec fn dn(self) -> int {
        days_before_year(self.year as int) + days_before_month(self.year as int, self.month as int)
            + self.day - 1
    }

    pub open spec fn mi(self) -> int {
        month_index(self.year as int, self.month as int)
    }

    /// Days from Monday: 0 for a Monday, 6 for a Sunday.
    pub open spec fn weekday_index(self) -> int {
        self.dn() % 7
    }
}

impl Weekday {
    /// Days from Monday: 0 for `Mon` up to 6 for `Sun`.
    pub open spec fn index(self) -> int {
        match self {
            Weekday::Mon => 0,
            Weekday::Tue => 1,
            Weekday::Wed => 2,
            Weekday::Thu => 3,
            Weekday::Fri => 4,
            Weekday::Sat => 5,
            Weekday::Sun => 6,
        }
    }

    /// Days from Monday: 0 for `Mon` up to 6 for `Sun`.
    pub fn num_days_from_monday(&self) -> (r: u32)
        ensures
            r == self.index(),
    {
        match self {
            Weekday::Mon => 0,
            Weekday::Tue => 1,
            Weekday::Wed => 2,
            Weekday::Thu => 3,
            Weekday::Fri => 4,
            Weekday::Sat => 5,
            Weekday::Sun => 6,
        }
    }

    /// The weekday `n` days after Monday, for `n` below 7.
    pub fn from_days_from_monday(n: u32) -> (r: Weekday)
        requires
            n < 7,
        ensures
            r.index() == n,
    {
        if n == 0 {
            Weekday::Mon
        } else if n == 1 {
            Weekday::Tue
        } else if n == 2 {
            Weekday::Wed
        } else if n == 3 {
            Weekday::Thu
        } else if n == 4 {
            Weekday::Fri
        } else if n == 5 {
            Weekday::Sat
        } else {
            Weekday::Sun
        }
    }
}

impl Date {
    /// The date with this year, month and day, or `None` where no such day
    /// exists (month 13, day 32, February 29 of a common year) or the year is
    /// out of range.
    pub fn from_ymd_opt(year: i32, month: u32, day: u32) -> (r: Option<Date>)
        ensures
            r.is_some() <==> ymd_valid(year as int, month as int, day as int),
            r.is_some() ==> r == Some(Date { year, month, day }),
    {
        chrono_from_ymd(year, month, day)
    }

    pub fn year(&self) -> (r: i32)
        ensures
            r == self.year,
    {
        self.year
    }

    pub fn month(&self) -> (r: u32)
        ensures
            r == self.month,
    {
        self.month
    }

    pub fn day(&self) -> (r: u32)
        ensures
            r == self.day,
    {
        self.day
    }

    /// The day of the week of this date.
    pub fn weekday(&self) -> (r: Weekday)
        requires
            self.valid(),
        ensures
            r.index() == self.weekday_index(),
    {
        let n = chrono_weekday(*self);
        Weekday::from_days_from_monday(n)
    }

    /// Whether this date comes before `other`.
    pub fn precedes(&self, other: &Date) -> (r: bool)
        requires
            self.valid(),
            other.valid(),
        ensures
            r == (self.dn() < other.dn()),
    {
        proof {
            lemma_dn_order(*self, *other);
        }
        if self.year != other.year {
            self.year < other.year
        } else if self.month != other.month {
            self.month < other.month
        } else {
            self.day < other.day
        }
    }
}

/// Day number of the earliest date.
pub open spec fn min_dn() -> int {
    Date { year: MIN_YEAR, month: 1, day: 1 }.dn()
}

/// Day number of the latest date.
pub open spec fn max_dn() -> int {
    Date { year: MAX_YEAR, month: 12, day: 31 }.dn()
}

/// The valid date with day number `k`.
pub open spec fn date_of(k: int) -> Date {
    choose|d: Date| d.valid() && d.dn() == k
}

/// The date `n` days after `d`.
pub open spec fn plus_days(d: Date, n: int) -> Date {
    date_of(d.dn() + n)
}

proof fn lemma_div_step(x: int, k: int)
    requires
        k > 0,
    ensures
        (x + 1) / k == x / k + (if (x + 1) % k == 0 { 1int } else { 0int }),
{
    let q = x / k;
    let r = x % k;
    let q1 = (x + 1) / k;
    let r1 = (x + 1) % k;
    assert(x == k * q + r && 0 <= r < k) by {
        vstd::arithmetic::div_mod::lemma_fundamental_div_mod(x, k);
    }
    assert(x + 1 == k * q1 + r1 && 0 <= r1 < k) by {
        vstd::arithmetic::div_mod::lemma_fundamental_div_mod(x + 1, k);
    }
    if r1 == 0 {
        assert(q1 == q + 1) by (nonlinear_arith)
            requires
                x == k * q + r,
                x + 1 == k * q1,
                0 <= r < k,
        ;
    } else {
        assert(q1 == q) by (nonlinear_arith)
            requires
                x == k * q + r,
                x + 1 == k * q1 + r1,
                0 <= r < k,
                0 < r1 < k,
        ;
    }
}

/// The date `n` months after `d` (before, for a negative `n`), with its day
/// clamped to the last day of a shorter month.
pub open spec fn month_shift(d: Date, n: int) -> Date {
    let t = d.mi() + n;
    let y = t / 12;
    let m = t % 12 + 1;
    let day = if d.day <= days_in_month(y, m) { d.day as int } else { days_in_month(y, m) };
    Date { year: y as i32, month: m as u32, day: day as u32 }
}

/// Whether `month_shift(d, n)` lands in a year that a date may have.
pub open spec fn month_shift_in_range(d: Date, n: int) -> bool {
    MIN_YEAR <= (d.mi() + n) / 12 <= MAX_YEAR
}

pub proof fn lemma_month_shift(d: Date, n: int)
    requires
        d.valid(),
        month_shift_in_range(d, n),
    ensures
        month_shift(d, n).valid(),
        month_shift(d, n).mi() == d.mi() + n,
        month_shift(d, n).day <= d.day,
        month_shift(d, n).year == (d.mi() + n) / 12,
{
}

/// A month shift moves a date by whole months, and the number of months
/// orders the results.
pub proof fn lemma_month_shift_order(d: Date, n1: int, n2: int)
    requires
        d.valid(),
        month_shift_in_range(d, n1),
        month_shift_in_range(d, n2),
        n1 < n2,
    ensures
        month_shift(d, n1).dn() < month_shift(d, n2).dn(),
{
    lemma_month_shift(d, n1);
    lemma_month_shift(d, n2);
    lemma_dn_order(month_shift(d, n1), month_shift(d, n2));
}

/// The last day of month `m` of year `y`.
pub open spec fn month_end(y: int, m: int) -> Date {
    Date { year: y as i32, month: m as u32, day: days_in_month(y, m) as u32 }
}

/// The first day of the month after month `m` of year `y`.
pub open spec fn next_month_start(y: int, m: int) -> Date {
    if m == 12 {
        Date { year: (y + 1) as i32, month: 1, day: 1 }
    } else {
        Date { year: y as i32, month: (m + 1) as u32, day: 1 }
    }
}

/// The day after the last day of a month is the first of the next month.
pub proof fn lemma_month_end_next(y: int, m: int)
    requires
        MIN_YEAR <= y <= MAX_YEAR,
        y < MAX_YEAR || m < 12,
        1 <= m <= 12,
    ensures
        month_end(y, m).dn() + 1 == next_month_start(y, m).dn(),
{
    lemma_year_step(y);
}

/// The day after a valid date that is not the latest one.
pub open spec fn next_day(d: Date) -> Date {
    if d.day < days_in_month(d.year as int, d.month as int) {
        Date { year: d.year, month: d.month, day: (d.day + 1) as u32 }
    } else {
        next_month_start(d.year as int, d.month as int)
    }
}

pub proof fn lemma_next_day(d: Date)
    requires
        d.valid(),
        d.dn() < max_dn(),
    ensures
        next_day(d).valid(),
        next_day(d).dn() == d.dn() + 1,
{
    let hi = Date { year: MAX_YEAR, month: 12, day: 31 };
    lemma_dn_order(d, hi);
    if d.day >= days_in_month(d.year as int, d.month as int) {
        lemma_month_end_next(d.year as int, d.month as int);
    }
}

/// Every number between the earliest and the latest day number is the day
/// number of a valid date.
pub proof fn lemma_dn_onto(k: int)
    requires
        min_dn() <= k <= max_dn(),
    ensures
        exists|d: Date| d.valid() && d.dn() == k,
    decreases k - min_dn(),
{
    if k == min_dn() {
        let lo = Date { year: MIN_YEAR, month: 1, day: 1 };
        assert(lo.valid() && lo.dn() == k);
    } else {
        lemma_dn_onto(k - 1);
        let d = choose|d: Date| d.valid() && d.dn() == k - 1;
        lemma_next_day(d);
        assert(next_day(d).valid() && next_day(d).dn() == k);
    }
}

/// `plus_days` lands on the valid date with the shifted day number.
pub proof fn lemma_plus_days(d: Date, n: int)
    requires
        min_dn() <= d.dn() + n <= max_dn(),
    ensures
        plus_days(d, n).valid(),
        plus_days(d, n).dn() == d.dn() + n,
{
    lemma_dn_onto(d.dn() + n);
}

/// Shifting two dates by the same number of months keeps their order.
pub proof fn lemma_month_shift_mono(a: Date, b: Date, n: int)
    requires
        a.valid(),
        b.valid(),
        a.dn() <= b.dn(),
        month_shift_in_range(a, n),
        month_shift_in_range(b, n),
    ensures
        month_shift(a, n).dn() <= month_shift(b, n).dn(),
{
    lemma_dn_order(a, b);
    lemma_month_shift(a, n);
    lemma_month_shift(b, n);
    lemma_dn_order(month_shift(a, n), month_shift(b, n));
}

/// A shift by no months leaves a valid date as it is.
pub proof fn lemma_month_shift_zero(d: Date)
    requires
        d.valid(),
    ensures
        month_shift(d, 0) == d,
{
}

/// The first day of `d`'s month.
pub open spec fn first_of_month(d: Date) -> Date {
    Date { year: d.year, month: d.month, day: 1 }
}

/// The last day of `d`'s month.
pub open spec fn end_of_month(d: Date) -> Date {
    month_end(d.year as int, d.month as int)
}

/// A date after the earliest year is not the earliest date.
pub proof fn lemma_after_first_year(d: Date)
    requires
        d.valid(),
        MIN_YEAR < d.year,
    ensures
        min_dn() < d.dn(),
{
    lemma_dn_order(Date { year: MIN_YEAR, month: 1, day: 1 }, d);
}

/// A date before the latest year is not the latest date.
pub proof fn lemma_before_last_year(d: Date)
    requires
        d.valid(),
        d.year < MAX_YEAR,
    ensures
        d.dn() < max_dn(),
{
    lemma_dn_order(d, Date { year: MAX_YEAR, month: 12, day: 31 });
}

/// The day after a date is at most in the next year.
pub proof fn lemma_day_after(d: Date)
    requires
        d.valid(),
        d.year < MAX_YEAR,
    ensures
        plus_days(d, 1) == next_day(d),
        plus_days(d, 1).valid(),
        plus_days(d, 1).year <= d.year + 1,
{
    lemma_before_last_year(d);
    lemma_next_day(d);
    lemma_date_of(next_day(d), d.dn() + 1);
}

/// The last day of the month before `d`'s month.
pub open spec fn prev_month_end(d: Date) -> Date {
    if d.month == 1 {
        month_end(d.year - 1, 12)
    } else {
        month_end(d.year as int, d.month - 1)
    }
}

/// The day before the first of a month is the last day of the month before.
pub proof fn lemma_day_before_first(s: Date)
    requires
        s.valid(),
        s.day == 1,
        MIN_YEAR < s.year,
    ensures
        plus_days(s, -1) == prev_month_end(s),
        plus_days(s, -1).valid(),
        plus_days(s, -1).day >= 28,
{
    let py: int = if s.month == 1 { s.year - 1 } else { s.year as int };
    let pm: int = if s.month == 1 { 12 } else { s.month - 1 };
    lemma_month_end_next(py, pm);
    assert(next_month_start(py, pm) == s);
    lemma_date_of(month_end(py, pm), s.dn() - 1);
}

pub proof fn lemma_year_step(y: int)
    ensures
        days_before_year(y + 1) == days_before_year(y) + year_length(y),
{
    let p = y - 1;
    lemma_div_step(p, 4);
    lemma_div_step(p, 100);
    lemma_div_step(p, 400);
    assert(y % 400 == 0 ==> y % 100 == 0) by {
        if y % 400 == 0 {
            vstd::arithmetic::div_mod::lemma_fundamental_div_mod(y, 400);
            assert(y == 100 * (4 * (y / 400)));
            vstd::arithmetic::div_mod::lemma_mod_multiples_basic(4 * (y / 400), 100);
        }
    }
    assert(y % 100 == 0 ==> y % 4 == 0) by {
        if y % 100 == 0 {
            vstd::arithmetic::div_mod::lemma_fundamental_div_mod(y, 100);
            assert(y == 4 * (25 * (y / 100)));
            vstd::arithmetic::div_mod::lemma_mod_multiples_basic(25 * (y / 100), 4);
        }
    }
}

pub proof fn lemma_years_ordered(y1: int, y2: int)
    requires
        y1 < y2,
    ensures
        days_before_year(y1) + year_length(y1) <= days_before_year(y2),
    decreases y2 - y1,
{
    lemma_year_step(y1);
    if y1 + 1 < y2 {
        lemma_years_ordered(y1 + 1, y2);
        lemma_year_step(y1 + 1);
    }
}

proof fn lemma_months_ordered(y: int, m1: int, m2: int)
    requires
        1 <= m1 < m2 <= 13,
    ensures
        days_before_month(y, m1) + days_in_month(y, m1) <= days_before_month(y, m2),
{
}

/// A valid date falls inside its year and its month on the line of days.
pub proof fn lemma_dn_bounds(d: Date)
    requires
        d.valid(),
    ensures
        days_before_year(d.year as int) <= d.dn(),
        d.dn() < days_before_year(d.year as int) + year_length(d.year as int),
        d.dn() - d.day + 1 == days_before_year(d.year as int) + days_before_month(
            d.year as int,
            d.month as int,
        ),
{
    lemma_months_ordered(d.year as int, d.month as int, 13);
}

/// On valid dates the day number orders dates as (month index, day) does,
/// and two valid dates with one day number are the same date.
pub proof fn lemma_dn_order(a: Date, b: Date)
    requires
        a.valid(),
        b.valid(),
    ensures
        (a.dn() < b.dn()) <==> (a.mi() < b.mi() || (a.mi() == b.mi() && a.day < b.day)),
        (a.dn() == b.dn()) <==> (a == b),
{
    lemma_dn_bounds(a);
    lemma_dn_bounds(b);
    if a.year < b.year {
        lemma_years_ordered(a.year as int, b.year as int);
    } else if b.year < a.year {
        lemma_years_ordered(b.year as int, a.year as int);
    } else if a.month < b.month {
        lemma_months_ordered(a.year as int, a.month as int, b.month as int);
    } else if b.month < a.month {
        lemma_months_ordered(a.year as int, b.month as int, a.month as int);
    }
}

/// Every valid date lies between the earliest and the latest date.
pub proof fn lemma_dn_range(d: Date)
    requires
        d.valid(),
    ensures
        min_dn() <= d.dn() <= max_dn(),
{
    let lo = Date { year: MIN_YEAR, month: 1, day: 1 };
    let hi = Date { year: MAX_YEAR, month: 12, day: 31 };
    lemma_dn_order(lo, d);
    lemma_dn_order(d, hi);
}

/// A valid date with day number `k` is the date `date_of(k)`.
pub proof fn lemma_date_of(d: Date, k: int)
    requires
        d.valid(),
        d.dn() == k,
    ensures
        date_of(k) == d,
{
    let e = date_of(k);
    assert(e.valid() && e.dn() == k);
    lemma_dn_order(d, e);
}

} // verus!
