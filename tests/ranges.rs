use dateranges::annual_date_range::AnnualDateRange;
use dateranges::monthly_date_range::MonthlyDateRange;
use dateranges::quarterly_date_range::QuarterlyDateRange;
use dateranges::semi_monthly_date_range::SemiMonthlyDateRange;
use dateranges::{Date, DateRange, Weekday};

fn d(y: i32, m: u32, day: u32) -> Date {
    Date::from_ymd_opt(y, m, day).expect("invalid date")
}

#[test]
fn new_and_accessors_and_len_inclusive() {
    let r = DateRange::new(d(2023, 1, 1), d(2023, 1, 7));
    assert_eq!(r.start_date(), d(2023, 1, 1));
    assert_eq!(r.end_date(), d(2023, 1, 7));
    assert_eq!(r.len(), 7); // inclusive
}

#[test]
fn iter_and_dates_and_date_at_bounds() {
    let r = DateRange::new(d(2023, 3, 28), d(2023, 4, 2)); // 6 days inclusive
    let v = r.dates();
    assert_eq!(v.len(), r.len());
    assert_eq!(v.first().copied(), Some(d(2023, 3, 28)));
    assert_eq!(v.last().copied(), Some(d(2023, 4, 2)));

    // iterator yields same sequence
    let mut cursor = r.iter();
    let mut it = Vec::new();
    while let Some(day) = cursor.next() {
        it.push(day);
    }
    assert_eq!(it, v);

    // date_at within and out-of-bounds
    assert_eq!(r.date_at(0), Some(d(2023, 3, 28)));
    assert_eq!(r.date_at(r.len() - 1), Some(d(2023, 4, 2)));
    assert_eq!(r.date_at(r.len()), None);
}

#[test]
fn dates_for_day_filters_correct_weekdays() {
    // Week spanning Mon..Sun
    let r = DateRange::new(d(2023, 5, 1), d(2023, 5, 7));
    let mondays = r.dates_for_day(Weekday::Mon);
    assert_eq!(mondays, vec![d(2023, 5, 1)]);
    let sunday = r.dates_for_day(Weekday::Sun);
    assert_eq!(sunday, vec![d(2023, 5, 7)]);
}

#[test]
fn predicates_contains_overlaps() {
    let r = DateRange::new(d(2023, 1, 10), d(2023, 1, 20));
    assert!(r.contains_date(d(2023, 1, 10)));
    assert!(r.contains_date(d(2023, 1, 15)));
    assert!(r.contains_date(d(2023, 1, 20)));
    assert!(!r.contains_date(d(2023, 1, 9)));
    assert!(!r.contains_date(d(2023, 1, 21)));

    // contained range
    let inner = DateRange::new(d(2023, 1, 12), d(2023, 1, 18));
    assert!(r.contains_range(&inner));

    // overlapping ranges
    let left_overlap = DateRange::new(d(2023, 1, 5), d(2023, 1, 12));
    let right_overlap = DateRange::new(d(2023, 1, 18), d(2023, 1, 25));
    let non_overlap = DateRange::new(d(2023, 1, 21), d(2023, 1, 25));
    assert!(r.overlaps(&left_overlap));
    assert!(r.overlaps(&right_overlap));
    assert!(!r.overlaps(&non_overlap));

    // overlaps_any
    let many = vec![non_overlap, left_overlap, right_overlap];
    assert!(r.overlaps_any(&many));
    let none = vec![DateRange::new(d(2023, 1, 1), d(2023, 1, 5))];
    assert!(!r.overlaps_any(&none));
}

#[test]
fn prior_next_default_shift_by_len_and_n_variants() {
    let r = DateRange::new(d(2023, 1, 1), d(2023, 1, 7)); // len 7
    let p = r.prior();
    assert_eq!(p.start_date(), d(2022, 12, 25));
    assert_eq!(p.end_date(), d(2022, 12, 31));
    let n = r.next();
    assert_eq!(n.start_date(), d(2023, 1, 8));
    assert_eq!(n.end_date(), d(2023, 1, 14));

    // prior_n and next_n
    let p2 = r.prior_n(2);
    assert_eq!(p2.start_date(), d(2022, 12, 18));
    assert_eq!(p2.end_date(), d(2022, 12, 24));
    let n3 = r.next_n(3);
    assert_eq!(n3.start_date(), d(2023, 1, 22));
    assert_eq!(n3.end_date(), d(2023, 1, 28));
}

#[test]
fn range_containing_date_moves_forward_and_backward() {
    // Base week Jan 1..Jan 7
    let base = DateRange::new(d(2023, 1, 1), d(2023, 1, 7));
    // Forward date Jan 19 -> should find Jan 15..21
    let f = base.range_containing_date(d(2023, 1, 19));
    assert_eq!(f.start_date(), d(2023, 1, 15));
    assert_eq!(f.end_date(), d(2023, 1, 21));
    // Backward date Dec 20 -> should find Dec 18..24
    let b = base.range_containing_date(d(2022, 12, 20));
    assert_eq!(b.start_date(), d(2022, 12, 18));
    assert_eq!(b.end_date(), d(2022, 12, 24));
}

#[test]
fn ranges_before_and_after_and_window_orders() {
    let base = DateRange::new(d(2023, 1, 1), d(2023, 1, 7));
    let before = base.ranges_before(2);
    assert_eq!(before.len(), 2);
    assert_eq!(before[0].start_date(), d(2022, 12, 18));
    assert_eq!(before[0].end_date(), d(2022, 12, 24));
    assert_eq!(before[1].start_date(), d(2022, 12, 25));
    assert_eq!(before[1].end_date(), d(2022, 12, 31));

    let before_incl = base.ranges_before_inclusive(2);
    assert_eq!(before_incl.len(), 3);
    assert_eq!(before_incl[0].start_date(), d(2022, 12, 18));
    assert_eq!(before_incl[1].start_date(), d(2022, 12, 25));
    assert_eq!(before_incl[2].start_date(), d(2023, 1, 1));

    let after = base.ranges_after(2);
    assert_eq!(after.len(), 2);
    assert_eq!(after[0].start_date(), d(2023, 1, 8));
    assert_eq!(after[1].start_date(), d(2023, 1, 15));

    let after_incl = base.ranges_after_inclusive(2);
    assert_eq!(after_incl.len(), 3);
    assert_eq!(after_incl[0].start_date(), d(2023, 1, 1));
    assert_eq!(after_incl[1].start_date(), d(2023, 1, 8));
    assert_eq!(after_incl[2].start_date(), d(2023, 1, 15));

    let window = base.ranges_window(2, 2);
    let expected = vec![
        DateRange::new(d(2022, 12, 18), d(2022, 12, 24)),
        DateRange::new(d(2022, 12, 25), d(2022, 12, 31)),
        DateRange::new(d(2023, 1, 1), d(2023, 1, 7)),
        DateRange::new(d(2023, 1, 8), d(2023, 1, 14)),
        DateRange::new(d(2023, 1, 15), d(2023, 1, 21)),
    ];
    assert_eq!(window, expected);
}

#[test]
fn ranges_containing_span_covers_all_intervening_ranges() {
    let base = DateRange::new(d(2023, 1, 1), d(2023, 1, 7));
    let ranges = base.ranges_containing_span(d(2023, 1, 5), d(2023, 1, 25));
    let starts: Vec<_> = ranges.iter().map(|r| r.start_date()).collect();
    assert_eq!(starts, vec![
        d(2023, 1, 1),
        d(2023, 1, 8),
        d(2023, 1, 15),
        d(2023, 1, 22),
    ]);
    assert!(ranges.first().unwrap().contains_date(d(2023, 1, 5)));
    assert!(ranges.last().unwrap().contains_date(d(2023, 1, 25)));
}

#[test]
fn ordering_and_equality_semantics() {
    let a = DateRange::new(d(2023, 1, 1), d(2023, 1, 7));
    let b = DateRange::new(d(2023, 1, 8), d(2023, 1, 14));
    let c_same_as_a = DateRange::new(d(2023, 1, 1), d(2023, 1, 7));
    // equality compares start/end only
    assert_eq!(a, c_same_as_a);
    assert!(a < b);
    let mut v = vec![b, a];
    v.sort_by(|x, y| x.partial_cmp(y).unwrap());
    assert_eq!(v, vec![a, b]);
}

#[test]
fn equality_ignores_the_stepping_rule() {
    let plain = DateRange::new(d(2023, 1, 1), d(2023, 1, 31));
    let month = MonthlyDateRange::with_end_date_on_first(d(2023, 1, 31));
    assert_eq!(plain, month);
    assert_eq!(month.start_day(), Some(1));
    assert_eq!(plain.start_day(), None);
}

#[test]
fn len_counts_both_bounds() {
    assert_eq!(DateRange::new(d(2023, 1, 1), d(2023, 1, 1)).len(), 1);
    assert_eq!(DateRange::new(d(2023, 1, 1), d(2023, 12, 31)).len(), 365);
    assert_eq!(DateRange::new(d(2024, 1, 1), d(2024, 12, 31)).len(), 366);
    assert_eq!(DateRange::new(d(2023, 2, 27), d(2023, 3, 2)).len(), 4);
}

#[test]
fn prior_n_and_next_n_step_exactly_n_times() {
    let r = DateRange::new(d(2023, 1, 1), d(2023, 1, 7));
    assert_eq!(r.prior_n(0), r);
    assert_eq!(r.next_n(0), r);
    assert_eq!(r.prior_n(1), r.prior());
    assert_eq!(r.next_n(1), r.next());
    assert_eq!(r.next_n(2), r.next().next());
}

#[test]
fn round_trip_by_length_returns_the_bounds() {
    let r = DateRange::new(d(2023, 2, 25), d(2023, 3, 3));
    assert_eq!(r.prior().next(), r);
    assert_eq!(r.next().prior(), r);
}

#[test]
fn range_containing_date_is_idempotent() {
    let base = DateRange::new(d(2023, 1, 1), d(2023, 1, 7));
    let found = base.range_containing_date(d(2023, 3, 3));
    assert!(found.contains_date(d(2023, 3, 3)));
    assert_eq!(found.range_containing_date(d(2023, 3, 3)), found);
    let month = MonthlyDateRange::with_end_date_and_start_day(d(2023, 2, 15), 16);
    let found_month = month.range_containing_date(d(2021, 7, 4));
    assert!(found_month.contains_date(d(2021, 7, 4)));
    assert_eq!(found_month.range_containing_date(d(2021, 7, 4)), found_month);
}

#[test]
fn window_is_ascending_without_gaps() {
    let base = MonthlyDateRange::with_end_date_on_first(d(2023, 1, 31));
    let window = base.ranges_window(3, 4);
    assert_eq!(window.len(), 8);
    for i in 0..window.len() - 1 {
        assert_eq!(
            dateranges::dateutils::add_days(window[i].end_date(), 1),
            window[i + 1].start_date()
        );
    }
    assert_eq!(window[3], base);
    assert_eq!(window[0].start_date(), d(2022, 10, 1));
    assert_eq!(window[7].end_date(), d(2023, 5, 31));
}

#[test]
fn ranges_containing_span_of_a_single_range() {
    let base = SemiMonthlyDateRange::with_end_date(d(2023, 3, 15));
    let ranges = base.ranges_containing_span(d(2023, 3, 2), d(2023, 3, 10));
    assert_eq!(ranges.len(), 1);
    assert_eq!(ranges[0], base);
}

#[test]
fn date_at_steps_across_months() {
    let r = DateRange::new(d(2024, 2, 27), d(2024, 3, 2));
    assert_eq!(r.date_at(2), Some(d(2024, 2, 29)));
    assert_eq!(r.date_at(3), Some(d(2024, 3, 1)));
    assert_eq!(r.date_at(5), None);
    assert_eq!(r.dates_for_day(Weekday::Thu), vec![d(2024, 2, 29)]);
    assert_eq!(r.dates_for_day(Weekday::Mon), Vec::<Date>::new());
}

#[test]
fn windows_of_regular_families_are_gap_free() {
    let windows = vec![
        QuarterlyDateRange::with_start_date(d(2023, 2, 14)).ranges_window(2, 3),
        SemiMonthlyDateRange::with_end_date(d(2024, 2, 29)).ranges_window(3, 3),
        AnnualDateRange::with_start_date(d(2019, 7, 1)).ranges_window(2, 2),
        DateRange::new(d(2023, 1, 1), d(2023, 1, 14)).ranges_window(1, 1),
    ];
    for window in windows {
        for i in 0..window.len() - 1 {
            assert_eq!(
                dateranges::dateutils::add_days(window[i].end_date(), 1),
                window[i + 1].start_date()
            );
        }
    }
    let quarters = QuarterlyDateRange::with_start_date(d(2023, 2, 14)).ranges_window(2, 3);
    assert_eq!(quarters.len(), 6);
    assert_eq!(quarters[0].start_date(), d(2022, 8, 1));
    assert_eq!(quarters[5].end_date(), d(2024, 1, 31));
}
