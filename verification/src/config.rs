//! The run configuration: the per-file offset and the requested civil
//! date and clock time, with validation of every field.

use crate::calendar::{days_in_month, days_in_month_count, valid_date, valid_time};
use vstd::prelude::*;

verus! {

/// Everything one invocation was asked to do, besides the directory
/// itself: the spacing between consecutive planned instants and the
/// civil date and time the first instant should fall on.
#[derive(Clone, Copy, Debug)]
pub struct Config {
    /// Seconds between consecutive planned instants.
    pub offset: u64,
    /// Requested year, `-9999..=9999`.
    pub year: i32,
    /// Requested month, `1..=12`.
    pub month: u8,
    /// Requested day of the month, valid for the month and year.
    pub day: u8,
    /// Requested hour, `0..=23`.
    pub hour: u8,
    /// Requested minute, `0..=59`.
    pub minute: u8,
    /// Requested second, `0..=59`.
    pub second: u8,
}

/// Which field of a requested date or time is out of range.
#[derive(Clone, Copy, Debug, PartialEq, Eq, Structural)]
pub enum ConfigError {
    YearOutOfRange,
    MonthOutOfRange,
    DayOutOfRange,
    HourOutOfRange,
    MinuteOutOfRange,
    SecondOutOfRange,
}

/// The configuration names a real calendar date and a real clock time.
pub open spec fn valid_config(c: Config) -> bool {
    &&& valid_date(c.year as int, c.month as int, c.day as int)
    &&& valid_time(c.hour as int, c.minute as int, c.second as int)
}

impl Config {
    /// Checks every field, reporting the first one out of range in the
    /// order year, month, day, hour, minute, second.
    pub fn validate(&self) -> (r: Result<(), ConfigError>)
        ensures
            r is Ok <==> valid_config(*self),
            r == Result::<(), ConfigError>::Err(ConfigError::YearOutOfRange) <==> !(-9999
                <= self.year <= 9999),
            r == Result::<(), ConfigError>::Err(ConfigError::MonthOutOfRange) <==> (-9999
                <= self.year <= 9999 && !(1 <= self.month <= 12)),
            r == Result::<(), ConfigError>::Err(ConfigError::DayOutOfRange) <==> (-9999
                <= self.year <= 9999 && 1 <= self.month <= 12 && !(1 <= self.day
                <= days_in_month(self.year as int, self.month as int))),
            r == Result::<(), ConfigError>::Err(ConfigError::HourOutOfRange) <==> (valid_date(
                self.year as int,
                self.month as int,
                self.day as int,
            ) && self.hour > 23),
            r == Result::<(), ConfigError>::Err(ConfigError::MinuteOutOfRange) <==> (valid_date(
                self.year as int,
                self.month as int,
                self.day as int,
            ) && self.hour <= 23 && self.minute > 59),
            r == Result::<(), ConfigError>::Err(ConfigError::SecondOutOfRange) <==> (valid_date(
                self.year as int,
                self.month as int,
                self.day as int,
            ) && self.hour <= 23 && self.minute <= 59 && self.second > 59),
    {
        if self.year < -9999 || self.year > 9999 {
            return Err(ConfigError::YearOutOfRange);
        }
        if self.month < 1 || self.month > 12 {
            return Err(ConfigError::MonthOutOfRange);
        }
        let dim = days_in_month_count(self.year, self.month);
        if self.day < 1 || self.day > dim {
            return Err(ConfigError::DayOutOfRange);
        }
        if self.hour > 23 {
            return Err(ConfigError::HourOutOfRange);
        }
        if self.minute > 59 {
            return Err(ConfigError::MinuteOutOfRange);
        }
        if self.second > 59 {
            return Err(ConfigError::SecondOutOfRange);
        }
        Ok(())
    }
}

} // verus!
