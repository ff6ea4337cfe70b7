//! Laws that relate the range operations to each other, proved over the
//! models that their contracts use.
use vstd::prelude::*;
use crate::annual_date_range::annual_end;
use crate::calendar::{
    end_of_month, first_of_month, lemma_after_first_year, lemma_date_of, lemma_day_after,
    lemma_day_before_first, lemma_dn_order, lemma_dn_range, lemma_month_end_next,
    lemma_month_shift, lemma_month_shift_order, lemma_month_shift_zero, lemma_plus_days, max_dn,
    min_dn, month_shift, next_month_start, plus_days, Date, MAX_YEAR, MIN_YEAR,
};
use crate::quarterly_date_range::{quarterly_next_bounds, quarterly_prior_bounds};
use crate::semi_monthly_date_range::{semi_monthly_next_bounds, semi_monthly_prior_bounds};
use crate::date_range::{
    lemma_can_next_n, lemma_can_prior_n, lemma_spec_next_wf, lemma_spec_prior_wf, DateRange,
    Recurrence,
};

verus! {

/// Days from `start` to `end`, both included.
pub open spec fn days_between_inclusive(start: Date, end: Date) -> int {
    end.dn() - start.dn() + 1
}

/// A range built from two dates is as long as the days between them, both
/// included.
pub proof fn law_len_counts_days(start: Date, end: Date)
    requires
        start.valid(),
        end.valid(),
        start.dn() <= end.dn(),
    ensures
        DateRange::spec_make(start, end, Recurrence::ByLength, None).len == days_between_inclusive(
            start,
            end,
        ),
{
    lemma_dn_range(start);
    lemma_dn_range(end);
}

/// Every well-formed range is as long as the days between its bounds.
pub proof fn law_len_of_range(r: DateRange)
    requires
        r.wf(),
    ensures
        r.len == days_between_inclusive(r.start_date, r.end_date),
{
}

/// The ranges `k` steps back are well-formed and keep the rule.
pub proof fn lemma_prior_iter_wf(r: DateRange, k: nat)
    requires
        r.wf(),
        r.can_prior_n(k),
    ensures
        r.prior_iter(k).wf(),
        r.prior_iter(k).recurrence == r.recurrence,
        r.prior_iter(k).start_day == r.start_day,
    decreases k,
{
    if k > 0 {
        let j = (k - 1) as nat;
        lemma_prior_iter_wf(r, j);
        lemma_spec_prior_wf(r.prior_iter(j));
    }
}

/// The ranges `k` steps forward are well-formed and keep the rule.
pub proof fn lemma_next_iter_wf(r: DateRange, k: nat)
    requires
        r.wf(),
        r.can_next_n(k),
    ensures
        r.next_iter(k).wf(),
        r.next_iter(k).recurrence == r.recurrence,
        r.next_iter(k).start_day == r.start_day,
    decreases k,
{
    if k > 0 {
        let j = (k - 1) as nat;
        lemma_next_iter_wf(r, j);
        lemma_spec_next_wf(r.next_iter(j));
    }
}

/// A range that steps by its length returns to its own bounds when it steps
/// back and then forward, or forward and then back.
pub proof fn law_round_trip_by_length(r: DateRange)
    requires
        r.wf(),
        r.recurrence == Recurrence::ByLength,
    ensures
        r.can_prior() ==> r.spec_prior().spec_next().same_bounds(r),
        r.can_next() ==> r.spec_next().spec_prior().same_bounds(r),
{
    reveal(DateRange::next_bounds);
    reveal(DateRange::prior_bounds);
    let s = r.start_date;
    let e = r.end_date;
    lemma_dn_range(s);
    lemma_dn_range(e);
    lemma_date_of(s, s.dn());
    lemma_date_of(e, e.dn());
    if r.can_prior() {
        lemma_plus_days(s, -r.len);
        lemma_plus_days(e, -r.len);
        assert(r.spec_prior().len == r.len);
    }
    if r.can_next() {
        lemma_plus_days(s, r.len as int);
        lemma_plus_days(e, r.len as int);
        assert(r.spec_next().len == r.len);
    }
}

/// A whole calendar month returns to itself when it steps back and then
/// forward, or forward and then back.
pub proof fn law_round_trip_calendar_month(r: DateRange)
    requires
        r.wf(),
        r.recurrence == Recurrence::Monthly,
        r.start_day == Some(1usize),
        r.in_year_band(),
        r.start_date == first_of_month(r.end_date),
        r.end_date == end_of_month(r.end_date),
    ensures
        r.spec_prior().spec_next().same_bounds(r),
        r.spec_next().spec_prior().same_bounds(r),
{
    reveal(DateRange::next_bounds);
    reveal(DateRange::prior_bounds);
    let s = r.start_date;
    let e = r.end_date;
    // forward, then back
    lemma_day_after(e);
    let x = plus_days(e, 1);
    assert(x.day == 1);
    lemma_day_before_first(x);
    // back, then forward
    lemma_day_before_first(s);
    let y = plus_days(s, -1);
    lemma_day_after(y);
}

/// A monthly range from day `k` (2 to 28) of one month to day `k - 1` of the
/// next returns to itself when it steps back and then forward, or forward and
/// then back.
pub proof fn law_round_trip_monthly_start_day(r: DateRange, k: usize)
    requires
        r.wf(),
        r.recurrence == Recurrence::Monthly,
        r.start_day == Some(k),
        2 <= k <= 28,
        r.in_year_band(),
        r.start_date.day == k,
        r.end_date.day == k - 1,
        r.end_date.mi() == r.start_date.mi() + 1,
    ensures
        r.spec_prior().spec_next().same_bounds(r),
        r.spec_next().spec_prior().same_bounds(r),
{
    let s = r.start_date;
    let e = r.end_date;
    let n = r.spec_next();
    let p = r.spec_prior();
    assert(n.start_date == plus_days(e, 1) && n.end_date == month_shift(e, 1)) by {
        reveal(DateRange::next_bounds);
    }
    assert(p.start_date == month_shift(s, -1) && p.end_date == plus_days(s, -1)) by {
        reveal(DateRange::prior_bounds);
    }
    let after_e = Date { year: e.year, month: e.month, day: k as u32 };
    let before_s = Date { year: s.year, month: s.month, day: (k - 1) as u32 };
    lemma_anchor_days(s, e, k as int);
    assert(n.spec_prior().start_date == month_shift(after_e, -1) && n.spec_prior().end_date
        == plus_days(after_e, -1)) by {
        reveal(DateRange::prior_bounds);
    }
    assert(p.spec_next().start_date == plus_days(before_s, 1) && p.spec_next().end_date
        == month_shift(before_s, 1)) by {
        reveal(DateRange::next_bounds);
    }
}

/// The days around a monthly range from day `k` to day `k - 1` of the next
/// month: the day after its end is day `k`, the day before its start is day
/// `k - 1`, and one month separates them.
proof fn lemma_anchor_days(s: Date, e: Date, k: int)
    requires
        s.valid(),
        e.valid(),
        2 <= k <= 28,
        MIN_YEAR + 2 < s.year,
        e.year + 2 < MAX_YEAR,
        s.day == k,
        e.day == k - 1,
        e.mi() == s.mi() + 1,
    ensures
        plus_days(e, 1) == (Date { year: e.year, month: e.month, day: k as u32 }),
        plus_days(s, -1) == (Date { year: s.year, month: s.month, day: (k - 1) as u32 }),
        month_shift(Date { year: e.year, month: e.month, day: k as u32 }, -1) == s,
        month_shift(Date { year: s.year, month: s.month, day: (k - 1) as u32 }, 1) == e,
        plus_days(Date { year: e.year, month: e.month, day: k as u32 }, -1) == e,
        plus_days(Date { year: s.year, month: s.month, day: (k - 1) as u32 }, 1) == s,
{
    let after_e = Date { year: e.year, month: e.month, day: k as u32 };
    let before_s = Date { year: s.year, month: s.month, day: (k - 1) as u32 };
    lemma_date_of(after_e, e.dn() + 1);
    lemma_date_of(before_s, s.dn() - 1);
    lemma_date_of(e, after_e.dn() - 1);
    lemma_date_of(s, before_s.dn() + 1);
    lemma_month_shift(after_e, -1);
    lemma_month_shift(before_s, 1);
    lemma_same_day(month_shift(after_e, -1), s);
    lemma_same_day(month_shift(before_s, 1), e);
}

/// A half-month range (the 1st to the 15th, or the 16th to the month's end)
/// returns to itself when it steps back and then forward, or forward and then
/// back.
pub proof fn law_round_trip_half_month(r: DateRange)
    requires
        r.wf(),
        r.recurrence == Recurrence::SemiMonthly,
        r.in_year_band(),
        (r.start_date.day == 1 && r.end_date == (Date {
            year: r.start_date.year,
            month: r.start_date.month,
            day: 15,
        })) || (r.start_date.day == 16 && r.end_date == end_of_month(r.start_date)),
    ensures
        r.spec_prior().spec_next().same_bounds(r),
        r.spec_next().spec_prior().same_bounds(r),
{
    reveal(DateRange::next_bounds);
    reveal(DateRange::prior_bounds);
    let s = r.start_date;
    let e = r.end_date;
    lemma_after_first_year(s);
    if s.day == 1 {
        lemma_day_before_first(s);
        lemma_day_after(plus_days(s, -1));
        let sixteenth = Date { year: s.year, month: s.month, day: 16 };
        lemma_date_of(e, sixteenth.dn() - 1);
    } else {
        let fifteenth = Date { year: s.year, month: s.month, day: 15 };
        lemma_date_of(fifteenth, s.dn() - 1);
        lemma_day_after(e);
        let x = plus_days(e, 1);
        lemma_day_before_first(x);
    }
}

/// A quarter of whole months returns to itself when it steps back and then
/// forward, or forward and then back.
pub proof fn law_round_trip_quarter(r: DateRange)
    requires
        r.wf(),
        r.recurrence == Recurrence::Quarterly,
        r.in_year_band(),
        r.start_date.day == 1,
        r.end_date == end_of_month(month_shift(r.start_date, 2)),
    ensures
        r.spec_prior().spec_next().same_bounds(r),
        r.spec_next().spec_prior().same_bounds(r),
{
    let s = r.start_date;
    let e = r.end_date;
    lemma_month_shift(s, 2);
    lemma_dn_order(s, e);
    lemma_quarter_step(s, e, 3);
    lemma_quarter_step(s, e, -3);
    let n = r.spec_next();
    let p = r.spec_prior();
    assert(n.start_date == month_shift(s, 3) && n.end_date == end_of_month(
        month_shift(first_of_month(e), 3),
    )) by {
        reveal(DateRange::next_bounds);
    }
    assert(p.start_date == month_shift(s, -3) && p.end_date == end_of_month(
        month_shift(first_of_month(e), -3),
    )) by {
        reveal(DateRange::prior_bounds);
    }
    lemma_quarter_step(n.start_date, n.end_date, -3);
    lemma_quarter_step(p.start_date, p.end_date, 3);
    assert(n.spec_prior().start_date == month_shift(n.start_date, -3) && n.spec_prior().end_date
        == end_of_month(month_shift(first_of_month(n.end_date), -3))) by {
        reveal(DateRange::prior_bounds);
    }
    assert(p.spec_next().start_date == month_shift(p.start_date, 3) && p.spec_next().end_date
        == end_of_month(month_shift(first_of_month(p.end_date), 3))) by {
        reveal(DateRange::next_bounds);
    }
    lemma_same_day(month_shift(month_shift(s, 3), -3), s);
    lemma_same_day(month_shift(month_shift(s, -3), 3), s);
}

/// Two valid dates with the same month index and day are the same date.
proof fn lemma_same_day(a: Date, b: Date)
    requires
        a.valid(),
        b.valid(),
        a.mi() == b.mi(),
        a.day == b.day,
    ensures
        a == b,
{
    lemma_dn_order(a, b);
}

/// The facts of a quarter step by `n` months from bounds `s` (on the 1st) and
/// `e` (a month's end): where the new bounds fall.
proof fn lemma_quarter_step(s: Date, e: Date, n: int)
    requires
        s.valid(),
        e.valid(),
        s.day == 1,
        MIN_YEAR + 1 < s.year,
        e.year + 1 < MAX_YEAR,
        s.mi() <= e.mi(),
        -3 <= n <= 3,
    ensures
        s.year - 1 <= month_shift(s, n).year <= s.year + 1,
        e.year - 1 <= end_of_month(month_shift(first_of_month(e), n)).year <= e.year + 1,
        month_shift(s, n).valid(),
        month_shift(s, n).day == 1,
        month_shift(s, n).mi() == s.mi() + n,
        end_of_month(month_shift(first_of_month(e), n)).valid(),
        end_of_month(month_shift(first_of_month(e), n)).mi() == e.mi() + n,
        MIN_YEAR < month_shift(s, n).year,
        end_of_month(month_shift(first_of_month(e), n)).year < MAX_YEAR,
{
    lemma_month_shift(s, n);
    lemma_month_shift(first_of_month(e), n);
}

/// A year-long range that does not start on February 29 returns to itself
/// when it steps back and then forward, or forward and then back.
#[verifier::rlimit(80)]
pub proof fn law_round_trip_year(r: DateRange)
    requires
        r.wf(),
        r.recurrence == Recurrence::Annual,
        r.in_year_band(),
        !(r.start_date.month == 2 && r.start_date.day == 29),
        r.end_date == annual_end(r.start_date),
    ensures
        r.spec_prior().spec_next().same_bounds(r),
        r.spec_next().spec_prior().same_bounds(r),
{
    let s = r.start_date;
    lemma_month_shift(s, 12);
    lemma_month_shift(s, -12);
    let up = month_shift(s, 12);
    let down = month_shift(s, -12);
    assert(up.day == s.day && down.day == s.day);
    lemma_month_shift(up, -12);
    lemma_month_shift(down, 12);
    lemma_same_day(month_shift(up, -12), s);
    lemma_same_day(month_shift(down, 12), s);
    let n = r.spec_next();
    let p = r.spec_prior();
    assert(n.start_date == up) by {
        reveal(DateRange::next_bounds);
    }
    assert(p.start_date == down) by {
        reveal(DateRange::prior_bounds);
    }
    assert(n.spec_prior().start_date == s && n.spec_prior().end_date == annual_end(s)) by {
        reveal(DateRange::prior_bounds);
    }
    assert(p.spec_next().start_date == s && p.spec_next().end_date == annual_end(s)) by {
        reveal(DateRange::next_bounds);
    }
}

/// The search that finds a date ends on a range that contains it, and a
/// search from that range finds that same range at once.
pub proof fn law_range_containing_date_idempotent(r: DateRange, d: Date, k: nat)
    requires
        r.scan_reaches(d, k),
    ensures
        r.scan_result(d, k).contains(d),
        r.scan_result(d, k).scan_reaches(d, 0),
        forall|k2: nat| #[trigger] r.scan_result(d, k).scan_result(d, k2) == r.scan_result(d, k),
    decreases k,
{
    if !r.contains(d) {
        law_range_containing_date_idempotent(r.toward(d), d, (k - 1) as nat);
    }
}

/// How far the search for `d` still has to go from `r`, in days.
pub open spec fn scan_distance(r: DateRange, d: Date) -> int {
    if r.end_date.dn() < d.dn() {
        d.dn() - r.end_date.dn()
    } else if d.dn() < r.start_date.dn() {
        r.start_date.dn() - d.dn()
    } else {
        0
    }
}

/// For a range that steps by its length, the search finds every date that
/// lies at least one range length inside the representable days.
pub proof fn law_scan_reaches_by_length(r: DateRange, d: Date) -> (k: nat)
    requires
        r.wf(),
        r.recurrence == Recurrence::ByLength,
        d.valid(),
        min_dn() <= d.dn() - r.len,
        d.dn() + r.len <= max_dn(),
    ensures
        r.scan_reaches(d, k),
    decreases scan_distance(r, d),
{
    if r.contains(d) {
        0
    } else {
        let s = r.start_date;
        let e = r.end_date;
        lemma_dn_range(s);
        lemma_dn_range(e);
        if e.dn() < d.dn() {
            assert(r.can_next());
            lemma_spec_next_wf(r);
            assert(r.spec_next().start_date == plus_days(s, r.len as int)
                && r.spec_next().end_date == plus_days(e, r.len as int)) by {
                reveal(DateRange::next_bounds);
            }
            lemma_plus_days(s, r.len as int);
            lemma_plus_days(e, r.len as int);
            let k = law_scan_reaches_by_length(r.spec_next(), d);
            (k + 1) as nat
        } else {
            assert(r.can_prior());
            lemma_spec_prior_wf(r);
            assert(r.spec_prior().start_date == plus_days(s, -r.len)
                && r.spec_prior().end_date == plus_days(e, -r.len)) by {
                reveal(DateRange::prior_bounds);
            }
            lemma_plus_days(s, -r.len);
            lemma_plus_days(e, -r.len);
            let k = law_scan_reaches_by_length(r.spec_prior(), d);
            (k + 1) as nat
        }
    }
}

/// The search for `d` from a calendar-rule range of regular shape: each step
/// adjoins the last, so the search moves one way and gets closer each step.
proof fn lemma_scan_reaches_regular(r: DateRange, d: Date) -> (k: nat)
    requires
        r.wf(),
        regular_shape(r),
        r.recurrence != Recurrence::ByLength,
        d.valid(),
        MIN_YEAR + 2 < d.year,
        d.year + 2 < MAX_YEAR,
        r.contains(d) || r.in_year_band(),
    ensures
        r.scan_reaches(d, k),
    decreases scan_distance(r, d),
{
    if r.contains(d) {
        0
    } else {
        let s = r.start_date;
        let e = r.end_date;
        lemma_dn_order(s, e);
        if e.dn() < d.dn() {
            assert(r.can_next());
            lemma_spec_next_wf(r);
            lemma_regular_steps(r);
            let n = r.spec_next();
            lemma_dn_order(s, n.start_date);
            lemma_dn_order(n.end_date, d);
            let k = lemma_scan_reaches_regular(n, d);
            (k + 1) as nat
        } else {
            assert(r.can_prior());
            lemma_spec_prior_wf(r);
            lemma_regular_steps(r);
            let p = r.spec_prior();
            lemma_dn_order(p.end_date, e);
            lemma_dn_order(d, p.start_date);
            let k = lemma_scan_reaches_regular(p, d);
            (k + 1) as nat
        }
    }
}

/// For a monthly range, a half-month, a whole-month quarter or a year-long
/// range that does not start on February 29 (a range of regular shape), the
/// search finds every date that lies two years inside the representable
/// years.
pub proof fn law_scan_reaches_regular(r: DateRange, d: Date) -> (k: nat)
    requires
        r.wf(),
        regular_shape(r),
        r.recurrence != Recurrence::ByLength,
        r.in_year_band(),
        d.valid(),
        MIN_YEAR + 2 < d.year,
        d.year + 2 < MAX_YEAR,
    ensures
        r.scan_reaches(d, k),
{
    lemma_scan_reaches_regular(r, d)
}

/// The range at position `i` of the window of `before` ranges before `r`, `r`
/// itself, and the ranges after it.
pub open spec fn window_at(r: DateRange, before: nat, i: int) -> DateRange {
    if i <= before {
        r.prior_iter((before - i) as nat)
    } else {
        r.next_iter((i - before) as nat)
    }
}

/// Whether the rule's prior range ends the day before the range starts.
pub open spec fn prior_adjoins(x: DateRange) -> bool {
    x.spec_prior().end_date.dn() + 1 == x.start_date.dn()
}

/// Whether the rule's next range starts the day after the range ends.
pub open spec fn next_adjoins(x: DateRange) -> bool {
    x.spec_next().start_date.dn() == x.end_date.dn() + 1
}

/// Ranges that step by their length, and monthly ranges, adjoin their prior
/// range.
pub proof fn lemma_prior_adjoins(x: DateRange)
    requires
        x.wf(),
        x.recurrence == Recurrence::ByLength || x.recurrence == Recurrence::Monthly,
        x.can_prior(),
    ensures
        prior_adjoins(x),
{
    let s = x.start_date;
    let e = x.end_date;
    lemma_dn_range(s);
    if x.recurrence == Recurrence::ByLength {
        assert(x.spec_prior().end_date == plus_days(e, -x.len)) by {
            reveal(DateRange::prior_bounds);
        }
        lemma_plus_days(e, -x.len);
    } else {
        assert(x.spec_prior().end_date == plus_days(s, -1)) by {
            reveal(DateRange::prior_bounds);
        }
        lemma_after_first_year(s);
        lemma_plus_days(s, -1);
    }
}

/// Ranges that step by their length, and monthly ranges, adjoin their next
/// range.
pub proof fn lemma_next_adjoins(x: DateRange)
    requires
        x.wf(),
        x.recurrence == Recurrence::ByLength || x.recurrence == Recurrence::Monthly,
        x.can_next(),
    ensures
        next_adjoins(x),
{
    let s = x.start_date;
    let e = x.end_date;
    lemma_dn_range(e);
    if x.recurrence == Recurrence::ByLength {
        assert(x.spec_next().start_date == plus_days(s, x.len as int)) by {
            reveal(DateRange::next_bounds);
        }
        lemma_plus_days(s, x.len as int);
    } else {
        assert(x.spec_next().start_date == plus_days(e, 1)) by {
            reveal(DateRange::next_bounds);
        }
        lemma_day_after(e);
    }
}

proof fn lemma_window_wf(r: DateRange, before: nat, after: nat, i: int)
    requires
        r.wf(),
        r.can_prior_n(before),
        r.can_next_n(after),
        0 <= i <= before + after,
    ensures
        window_at(r, before, i).wf(),
{
    if i <= before {
        let k = (before - i) as nat;
        if k < before {
            lemma_can_prior_n(r, k, before);
        }
        lemma_prior_iter_wf(r, k);
        assert(window_at(r, before, i) == r.prior_iter(k));
    } else {
        let k = (i - before) as nat;
        if k < after {
            lemma_can_next_n(r, k, after);
        }
        lemma_next_iter_wf(r, k);
        assert(window_at(r, before, i) == r.next_iter(k));
    }
}

/// The shape that a rule's ranges keep from step to step, and under which
/// each range adjoins its prior and next range. Six-month steps clamp month
/// ends and have no such shape.
pub open spec fn regular_shape(x: DateRange) -> bool {
    match x.recurrence {
        Recurrence::ByLength => true,
        Recurrence::Monthly => true,
        Recurrence::SemiMonthly => (x.start_date.day == 1 || x.start_date.day == 16) && (
        x.end_date.day == 15 || x.end_date == end_of_month(x.end_date)),
        Recurrence::Quarterly => x.start_date.day == 1 && x.end_date == end_of_month(
            month_shift(x.start_date, 2),
        ),
        Recurrence::Annual => !(x.start_date.month == 2 && x.start_date.day == 29) && x.end_date
            == annual_end(x.start_date),
        Recurrence::SemiAnnual => false,
    }
}

proof fn lemma_half_month_next_step(x: DateRange)
    requires
        x.wf(),
        x.recurrence == Recurrence::SemiMonthly,
        regular_shape(x),
        x.in_year_band(),
    ensures
        next_adjoins(x),
        regular_shape(x.spec_next()),
{
    let e = x.end_date;
    assert(x.spec_next().start_date == semi_monthly_next_bounds(e).0
        && x.spec_next().end_date == semi_monthly_next_bounds(e).1) by {
        reveal(DateRange::next_bounds);
    }
    if e.day != 15 {
        lemma_month_end_next(e.year as int, e.month as int);
    }
}

proof fn lemma_half_month_prior_step(x: DateRange)
    requires
        x.wf(),
        x.recurrence == Recurrence::SemiMonthly,
        regular_shape(x),
        x.in_year_band(),
    ensures
        prior_adjoins(x),
        regular_shape(x.spec_prior()),
{
    let s = x.start_date;
    assert(x.spec_prior().start_date == semi_monthly_prior_bounds(s).0
        && x.spec_prior().end_date == semi_monthly_prior_bounds(s).1) by {
        reveal(DateRange::prior_bounds);
    }
    lemma_after_first_year(s);
    lemma_plus_days(s, -1);
    if s.day == 1 {
        lemma_day_before_first(s);
    } else {
        let fifteenth = Date { year: s.year, month: s.month, day: 15 };
        lemma_date_of(fifteenth, s.dn() - 1);
    }
}

/// A whole-month quarter from `s` and the quarter after it: the next one
/// starts the day after this one ends and is again a whole-month quarter.
proof fn lemma_quarter_next_dates(s: Date)
    requires
        s.valid(),
        s.day == 1,
        MIN_YEAR + 2 < s.year,
        s.year + 2 < MAX_YEAR,
    ensures
        month_shift(s, 3).day == 1,
        month_shift(s, 3).dn() == end_of_month(month_shift(s, 2)).dn() + 1,
        end_of_month(month_shift(first_of_month(end_of_month(month_shift(s, 2))), 3))
            == end_of_month(month_shift(month_shift(s, 3), 2)),
{
    let e = end_of_month(month_shift(s, 2));
    let ns = month_shift(s, 3);
    lemma_month_shift(s, 2);
    lemma_month_shift(s, 3);
    lemma_month_shift(first_of_month(e), 3);
    lemma_month_shift(ns, 2);
    lemma_month_end_next(e.year as int, e.month as int);
    lemma_same_day(next_month_start(e.year as int, e.month as int), ns);
}

/// A whole-month quarter from `s` and the quarter before it: the prior one
/// ends the day before this one starts and is again a whole-month quarter.
proof fn lemma_quarter_prior_dates(s: Date)
    requires
        s.valid(),
        s.day == 1,
        MIN_YEAR + 2 < s.year,
        s.year + 2 < MAX_YEAR,
    ensures
        month_shift(s, -3).day == 1,
        end_of_month(month_shift(first_of_month(end_of_month(month_shift(s, 2))), -3)).dn() + 1
            == s.dn(),
        end_of_month(month_shift(first_of_month(end_of_month(month_shift(s, 2))), -3))
            == end_of_month(month_shift(month_shift(s, -3), 2)),
{
    let e = end_of_month(month_shift(s, 2));
    let ps = month_shift(s, -3);
    let pe = end_of_month(month_shift(first_of_month(e), -3));
    lemma_month_shift(s, 2);
    lemma_month_shift(s, -3);
    lemma_month_shift(first_of_month(e), -3);
    lemma_month_shift(ps, 2);
    lemma_month_end_next(pe.year as int, pe.month as int);
    lemma_same_day(next_month_start(pe.year as int, pe.month as int), s);
}

proof fn lemma_quarter_next_step(x: DateRange)
    requires
        x.wf(),
        x.recurrence == Recurrence::Quarterly,
        regular_shape(x),
        x.in_year_band(),
    ensures
        next_adjoins(x),
        regular_shape(x.spec_next()),
{
    let s = x.start_date;
    lemma_dn_order(s, x.end_date);
    lemma_quarter_next_dates(s);
    assert(x.spec_next().start_date == quarterly_next_bounds(s, x.end_date).0
        && x.spec_next().end_date == quarterly_next_bounds(s, x.end_date).1) by {
        reveal(DateRange::next_bounds);
    }
}

proof fn lemma_quarter_prior_step(x: DateRange)
    requires
        x.wf(),
        x.recurrence == Recurrence::Quarterly,
        regular_shape(x),
        x.in_year_band(),
    ensures
        prior_adjoins(x),
        regular_shape(x.spec_prior()),
{
    let s = x.start_date;
    lemma_dn_order(s, x.end_date);
    lemma_quarter_prior_dates(s);
    assert(x.spec_prior().start_date == quarterly_prior_bounds(s, x.end_date).0
        && x.spec_prior().end_date == quarterly_prior_bounds(s, x.end_date).1) by {
        reveal(DateRange::prior_bounds);
    }
}

/// A year-long range from `s` (not February 29) and its neighbours: where
/// they start, and that they adjoin.
proof fn lemma_anniversaries(s: Date)
    requires
        s.valid(),
        MIN_YEAR + 2 < s.year,
        s.year + 2 < MAX_YEAR,
        !(s.month == 2 && s.day == 29),
    ensures
        month_shift(s, 12).month == s.month,
        month_shift(s, 12).day == s.day,
        month_shift(s, -12).month == s.month,
        month_shift(s, -12).day == s.day,
        annual_end(s).dn() + 1 == month_shift(s, 12).dn(),
        annual_end(month_shift(s, -12)).dn() + 1 == s.dn(),
{
    let up = month_shift(s, 12);
    let down = month_shift(s, -12);
    lemma_month_shift(s, 12);
    lemma_month_shift(s, -12);
    assert(month_shift(down, 12) == s) by {
        lemma_month_shift(down, 12);
        lemma_same_day(month_shift(down, 12), s);
    }
    assert(annual_end(s).dn() + 1 == up.dn()) by {
        lemma_dn_range(s);
        lemma_dn_range(up);
        lemma_month_shift_zero(s);
        lemma_month_shift_order(s, 0, 12);
        lemma_plus_days(up, -1);
    }
    assert(annual_end(down).dn() + 1 == s.dn()) by {
        lemma_after_first_year(s);
        lemma_plus_days(s, -1);
    }
}

proof fn lemma_year_next_step(x: DateRange)
    requires
        x.wf(),
        x.recurrence == Recurrence::Annual,
        regular_shape(x),
        x.in_year_band(),
    ensures
        next_adjoins(x),
        regular_shape(x.spec_next()),
{
    let s = x.start_date;
    lemma_anniversaries(s);
    assert(x.spec_next().start_date == month_shift(s, 12) && x.spec_next().end_date
        == annual_end(month_shift(s, 12))) by {
        reveal(DateRange::next_bounds);
    }
}

proof fn lemma_year_prior_step(x: DateRange)
    requires
        x.wf(),
        x.recurrence == Recurrence::Annual,
        regular_shape(x),
        x.in_year_band(),
    ensures
        prior_adjoins(x),
        regular_shape(x.spec_prior()),
{
    let s = x.start_date;
    lemma_anniversaries(s);
    assert(x.spec_prior().start_date == month_shift(s, -12) && x.spec_prior().end_date
        == annual_end(month_shift(s, -12))) by {
        reveal(DateRange::prior_bounds);
    }
}

/// A range of regular shape keeps that shape and adjoins its neighbours.
pub proof fn lemma_regular_steps(x: DateRange)
    requires
        x.wf(),
        regular_shape(x),
    ensures
        x.can_prior() ==> prior_adjoins(x) && regular_shape(x.spec_prior()),
        x.can_next() ==> next_adjoins(x) && regular_shape(x.spec_next()),
{
    if x.can_prior() {
        lemma_spec_prior_wf(x);
    }
    if x.can_next() {
        lemma_spec_next_wf(x);
    }
    match x.recurrence {
        Recurrence::ByLength => {
            if x.can_prior() {
                lemma_prior_adjoins(x);
            }
            if x.can_next() {
                lemma_next_adjoins(x);
            }
        },
        Recurrence::Monthly => {
            if x.can_prior() {
                lemma_prior_adjoins(x);
            }
            if x.can_next() {
                lemma_next_adjoins(x);
            }
        },
        Recurrence::SemiMonthly => {
            if x.in_year_band() {
                lemma_half_month_next_step(x);
                lemma_half_month_prior_step(x);
            }
        },
        Recurrence::Quarterly => {
            if x.in_year_band() {
                lemma_quarter_next_step(x);
                lemma_quarter_prior_step(x);
            }
        },
        Recurrence::Annual => {
            if x.in_year_band() {
                lemma_year_next_step(x);
                lemma_year_prior_step(x);
            }
        },
        Recurrence::SemiAnnual => {},
    }
}

/// The ranges `k` steps back from a range of regular shape keep the shape.
pub proof fn lemma_prior_iter_regular(r: DateRange, k: nat)
    requires
        r.wf(),
        regular_shape(r),
        r.can_prior_n(k),
    ensures
        regular_shape(r.prior_iter(k)),
    decreases k,
{
    if k > 0 {
        let j = (k - 1) as nat;
        lemma_prior_iter_regular(r, j);
        lemma_prior_iter_wf(r, j);
        lemma_regular_steps(r.prior_iter(j));
    }
}

/// The ranges `k` steps forward from a range of regular shape keep the shape.
pub proof fn lemma_next_iter_regular(r: DateRange, k: nat)
    requires
        r.wf(),
        regular_shape(r),
        r.can_next_n(k),
    ensures
        regular_shape(r.next_iter(k)),
    decreases k,
{
    if k > 0 {
        let j = (k - 1) as nat;
        lemma_next_iter_regular(r, j);
        lemma_next_iter_wf(r, j);
        lemma_regular_steps(r.next_iter(j));
    }
}

/// One position of the window: the range there starts the day after the one
/// before it ends.
proof fn lemma_window_step(r: DateRange, before: nat, after: nat, i: int)
    requires
        r.wf(),
        regular_shape(r),
        r.can_prior_n(before),
        r.can_next_n(after),
        0 <= i < before + after,
    ensures
        window_at(r, before, i + 1).start_date.dn() == window_at(r, before, i).end_date.dn() + 1,
{
    if i < before {
        let j = (before - i - 1) as nat;
        lemma_can_prior_n(r, j, before);
        lemma_prior_iter_wf(r, j);
        lemma_prior_iter_regular(r, j);
        lemma_regular_steps(r.prior_iter(j));
        assert(window_at(r, before, i) == r.prior_iter(j).spec_prior());
    } else {
        let j = (i - before) as nat;
        lemma_can_next_n(r, j, after);
        lemma_next_iter_wf(r, j);
        lemma_next_iter_regular(r, j);
        lemma_regular_steps(r.next_iter(j));
        assert(window_at(r, before, i + 1) == r.next_iter(j).spec_next());
    }
}

/// For a range of regular shape (any range that steps by its length, any
/// monthly range, half-months, whole-month quarters, year-long ranges that do
/// not start on February 29), each range of the window starts the day after
/// the one before it ends: the window is ascending, without gaps and without
/// repeats.
pub proof fn law_window_contiguous(r: DateRange, before: nat, after: nat)
    requires
        r.wf(),
        regular_shape(r),
        r.can_prior_n(before),
        r.can_next_n(after),
    ensures
        forall|i: int|
            0 <= i < before + after ==> (#[trigger] window_at(r, before, i + 1)).start_date.dn()
                == window_at(r, before, i).end_date.dn() + 1,
        forall|i: int| 0 <= i <= before + after ==> (#[trigger] window_at(r, before, i)).wf(),
{
    assert forall|i: int| 0 <= i <= before + after implies (#[trigger] window_at(
        r,
        before,
        i,
    )).wf() by {
        lemma_window_wf(r, before, after, i);
    }
    assert forall|i: int| 0 <= i < before + after implies (#[trigger] window_at(
        r,
        before,
        i + 1,
    )).start_date.dn() == window_at(r, before, i).end_date.dn() + 1 by {
        lemma_window_step(r, before, after, i);
    }
}

} // verus!
