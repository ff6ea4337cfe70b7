use dateranges::dateutils::{
    add_days, add_months, add_years, first_day_of_month, last_day_of_month, subtract_days,
    subtract_months, subtract_years, with_year_safe,
};
use dateranges::{Date, Weekday};

fn ymd(y: i32, m: u32, day: u32) -> Date {
    Date::from_ymd_opt(y, m, day).expect("invalid date")
}

fn check(result: Date, expected_year: i32, expected_month: u32, expected_day: u32) {
    assert_eq!(result.year(), expected_year, "Failed for {:?}", result);
    assert_eq!(result.month(), expected_month, "Failed for {:?}", result);
    assert_eq!(result.day(), expected_day, "Failed for {:?}", result);
}

#[test]
fn test_first_day_of_month() {
    let date = first_day_of_month(ymd(2025, 8, 20));

    assert_eq!(date.year(), 2025);
    assert_eq!(date.month(), 8);
    assert_eq!(date.day(), 1);
}

#[test]
fn test_last_day_of_month_cases() {
    check(last_day_of_month(ymd(2025, 8, 20)), 2025, 8, 31);
    check(last_day_of_month(ymd(2025, 12, 15)), 2025, 12, 31);
    check(last_day_of_month(ymd(2025, 2, 15)), 2025, 2, 28);
    check(last_day_of_month(ymd(2028, 2, 15)), 2028, 2, 29);
}

#[test]
fn test_add_days_cases() {
    check(add_days(ymd(2025, 8, 20), 1), 2025, 8, 21);
    check(add_days(ymd(2025, 12, 31), 2), 2026, 1, 2);
    check(add_days(ymd(2025, 2, 28), 1), 2025, 3, 1);
    check(add_days(ymd(2028, 2, 28), 1), 2028, 2, 29);
}

#[test]
fn test_subtract_days_cases() {
    check(subtract_days(ymd(2025, 8, 20), 1), 2025, 8, 19);
    check(subtract_days(ymd(2026, 1, 2), 2), 2025, 12, 31);
    check(subtract_days(ymd(2025, 3, 1), 1), 2025, 2, 28);
    check(subtract_days(ymd(2028, 2, 29), 1), 2028, 2, 28);
}

#[test]
fn test_add_months_cases() {
    check(add_months(ymd(2025, 8, 20), 1), 2025, 9, 20);
    check(add_months(ymd(2025, 12, 31), 2), 2026, 2, 28);
    check(add_months(ymd(2025, 2, 28), 1), 2025, 3, 28);
    check(add_months(ymd(2028, 2, 28), 1), 2028, 3, 28);
    check(add_months(ymd(2028, 2, 29), 1), 2028, 3, 29);
}

#[test]
fn test_subtract_months_cases() {
    check(subtract_months(ymd(2025, 9, 20), 1), 2025, 8, 20);
    check(subtract_months(ymd(2026, 2, 28), 2), 2025, 12, 28);
    check(subtract_months(ymd(2025, 3, 28), 1), 2025, 2, 28);
    check(subtract_months(ymd(2028, 3, 28), 1), 2028, 2, 28);
    check(subtract_months(ymd(2028, 3, 29), 1), 2028, 2, 29);
}

#[test]
fn test_add_years_cases() {
    check(add_years(ymd(2025, 8, 20), 1), 2026, 8, 20);
    check(add_years(ymd(2025, 12, 31), 2), 2027, 12, 31);
    check(add_years(ymd(2025, 12, 31), 3), 2028, 12, 31);
    check(add_years(ymd(2025, 2, 28), 1), 2026, 2, 28);
    check(add_years(ymd(2028, 2, 29), 1), 2029, 2, 28);
}

#[test]
fn test_subtract_years_cases() {
    check(subtract_years(ymd(2026, 8, 20), 1), 2025, 8, 20);
    check(subtract_years(ymd(2027, 12, 31), 2), 2025, 12, 31);
    check(subtract_years(ymd(2028, 12, 31), 3), 2025, 12, 31);
    check(subtract_years(ymd(2026, 2, 28), 1), 2025, 2, 28);
    check(subtract_years(ymd(2029, 2, 28), 1), 2028, 2, 28);
}

#[test]
fn test_with_year_safe() {
    let feb29_2028 = ymd(2028, 2, 29);
    // Non-leap year fallback to Feb 28
    let y2029 = with_year_safe(feb29_2028, 2029);
    assert_eq!(y2029, ymd(2029, 2, 28));
    // Leap year remains Feb 29
    let y2032 = with_year_safe(feb29_2028, 2032);
    assert_eq!(y2032, ymd(2032, 2, 29));
    // A normal date remains same day
    let aug20_2025 = ymd(2025, 8, 20);
    let y2030 = with_year_safe(aug20_2025, 2030);
    assert_eq!(y2030, ymd(2030, 8, 20));
}

#[test]
fn from_ymd_opt_rejects_days_that_do_not_exist() {
    assert_eq!(Date::from_ymd_opt(2023, 13, 1), None);
    assert_eq!(Date::from_ymd_opt(2023, 1, 32), None);
    assert_eq!(Date::from_ymd_opt(2023, 2, 29), None);
    assert_eq!(Date::from_ymd_opt(2023, 0, 10), None);
    assert_eq!(Date::from_ymd_opt(400000, 1, 1), None);
    assert!(Date::from_ymd_opt(2024, 2, 29).is_some());
    assert!(Date::from_ymd_opt(-4, 2, 29).is_some());
}

#[test]
fn weekday_of_known_dates() {
    assert_eq!(ymd(2023, 1, 1).weekday(), Weekday::Sun);
    assert_eq!(ymd(2023, 1, 2).weekday(), Weekday::Mon);
    assert_eq!(ymd(2023, 1, 3).weekday(), Weekday::Tue);
    assert_eq!(ymd(2024, 2, 29).weekday(), Weekday::Thu);
    assert_eq!(ymd(1, 1, 1).weekday(), Weekday::Mon);
}

#[test]
fn precedes_orders_by_calendar() {
    assert!(ymd(2022, 12, 31).precedes(&ymd(2023, 1, 1)));
    assert!(ymd(2023, 1, 31).precedes(&ymd(2023, 2, 1)));
    assert!(!ymd(2023, 2, 1).precedes(&ymd(2023, 2, 1)));
    assert!(!ymd(2023, 2, 2).precedes(&ymd(2023, 2, 1)));
}

#[test]
fn add_months_clamps_and_carries_years() {
    // Jan 31 + 1 month clamps to the end of February, never rolls into March
    check(add_months(ymd(2023, 1, 31), 1), 2023, 2, 28);
    check(add_months(ymd(2024, 1, 31), 1), 2024, 2, 29);
    check(add_months(ymd(2023, 3, 31), -1), 2023, 2, 28);
    check(add_months(ymd(2023, 11, 15), 14), 2025, 1, 15);
    check(add_months(ymd(2023, 2, 15), -26), 2020, 12, 15);
    check(add_months(ymd(2023, 5, 15), 0), 2023, 5, 15);
}

#[test]
fn with_year_safe_keeps_month_and_clamps_only_down() {
    assert_eq!(with_year_safe(ymd(2024, 2, 29), 2023), ymd(2023, 2, 28));
    assert_eq!(with_year_safe(ymd(2023, 12, 31), 1999), ymd(1999, 12, 31));
}

#[test]
fn add_days_crosses_long_spans() {
    assert_eq!(add_days(ymd(2000, 1, 1), 366), ymd(2001, 1, 1));
    assert_eq!(add_days(ymd(2000, 1, 1), -1), ymd(1999, 12, 31));
    assert_eq!(subtract_days(ymd(2000, 3, 1), 1), ymd(2000, 2, 29));
    assert_eq!(subtract_days(ymd(1900, 3, 1), 1), ymd(1900, 2, 28));
}
