//! The calls into chrono that the calendar arithmetic makes, each with the
//! contract that chrono's `NaiveDate` documents, stated over the day-number
//! model of `calendar`.
use vstd::prelude::*;
use chrono::Datelike;
use crate::calendar::{Date, max_dn, min_dn, month_shift, ymd_valid, MAX_YEAR, MIN_YEAR};

verus! {

/// Relies on `chrono::NaiveDate::from_ymd_opt`: `Some` exactly when the year is
/// in chrono's range and the month and day name an existing day.
#[verifier::external_body]
pub(crate) fn chrono_from_ymd(year: i32, month: u32, day: u32) -> (r: Option<Date>)
    ensures
        r.is_some() <==> ymd_valid(year as int, month as int, day as int),
        r.is_some() ==> r == Some(Date { year, month, day }),
{
    match chrono::NaiveDate::from_ymd_opt(year, month, day) {
        Some(nd) => Some(Date { year: nd.year(), month: nd.month(), day: nd.day() }),
        None => None,
    }
}

/// Relies on `NaiveDate + chrono::Duration::days(n)`: the date `n` days later
/// (earlier for a negative `n`). It panics outside chrono's range, which
/// `requires` excludes.
#[verifier::external_body]
pub(crate) fn chrono_add_days(d: Date, n: i64) -> (r: Date)
    requires
        d.valid(),
        min_dn() <= d.dn() + n <= max_dn(),
    ensures
        r.valid(),
        r.dn() == d.dn() + n,
{
    let nd = chrono::NaiveDate::from_ymd_opt(d.year, d.month, d.day).unwrap()
        + chrono::Duration::days(n);
    Date { year: nd.year(), month: nd.month(), day: nd.day() }
}

/// Relies on `NaiveDate::signed_duration_since` and `TimeDelta::num_days`: the
/// whole days from `b` to `a`.
#[verifier::external_body]
pub(crate) fn chrono_days_since(a: Date, b: Date) -> (r: i64)
    requires
        a.valid(),
        b.valid(),
    ensures
        r == a.dn() - b.dn(),
{
    let na = chrono::NaiveDate::from_ymd_opt(a.year, a.month, a.day).unwrap();
    let nb = chrono::NaiveDate::from_ymd_opt(b.year, b.month, b.day).unwrap();
    na.signed_duration_since(nb).num_days()
}

/// Relies on `Datelike::weekday` and `Weekday::num_days_from_monday`: 0 for a
/// Monday up to 6 for a Sunday (`0001-01-01`, day 0, was a Monday).
#[verifier::external_body]
pub(crate) fn chrono_weekday(d: Date) -> (r: u32)
    requires
        d.valid(),
    ensures
        r == d.weekday_index(),
{
    let nd = chrono::NaiveDate::from_ymd_opt(d.year, d.month, d.day).unwrap();
    nd.weekday().num_days_from_monday()
}

/// Relies on `NaiveDate::checked_sub_months`: the same day `n` months earlier,
/// clamped to the last day of a shorter month; `None` only outside chrono's
/// range, which `requires` excludes.
#[verifier::external_body]
pub(crate) fn chrono_sub_months(d: Date, n: u32) -> (r: Date)
    requires
        d.valid(),
        n <= i32::MAX,
        MIN_YEAR <= (d.mi() - n) / 12 <= MAX_YEAR,
    ensures
        r == month_shift(d, -(n as int)),
{
    let nd = chrono::NaiveDate::from_ymd_opt(d.year, d.month, d.day).unwrap();
    let r = nd.checked_sub_months(chrono::Months::new(n)).unwrap();
    Date { year: r.year(), month: r.month(), day: r.day() }
}

} // verus!
