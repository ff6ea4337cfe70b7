//! Recurring calendar periods (fiscal years, billing months, pay periods) as
//! navigable, boundary-exact day intervals, with the calendar arithmetic that
//! generates, shifts and locates them.
pub mod annual_date_range;
pub mod bi_weekly_date_range;
pub mod calendar;
mod chrono_glue;
pub mod date_range;
pub mod dateutils;
pub mod laws;
pub mod monthly_date_range;
pub mod quarterly_date_range;
pub mod semi_annual_date_range;
pub mod semi_monthly_date_range;
pub mod weekly_date_range;

pub use calendar::{Date, Weekday};
pub use date_range::{DateRange, Recurrence};
