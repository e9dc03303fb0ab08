//! The date picker's state and its calendar arithmetic. The widget
//! drawing lives with the host application; what is verified here is
//! the state the widget edits and the bounds-wrapping rules it applies
//! after every edit.

use vstd::prelude::*;

verus! {

/// Whether `y` is a leap year in the proleptic Gregorian calendar.
pub open spec fn spec_is_leap_year(y: int) -> bool {
    (y % 4 == 0 && y % 100 != 0) || y % 400 == 0
}

/// Days in month `m` (1 through 12) of year `y`.
pub open spec fn spec_days_in_month(y: int, m: int) -> int {
    if m == 2 {
        if spec_is_leap_year(y) {
            29
        } else {
            28
        }
    } else if m == 4 || m == 6 || m == 9 || m == 11 {
        30
    } else {
        31
    }
}

/// The number of days in the given month (January is 1) of the given
/// year, leap years included.
pub fn days_in_month(year: i32, month: u32) -> (r: i64)
    requires
        1 <= month <= 12,
    ensures
        r == spec_days_in_month(year as int, month as int),
{
    if month == 2 {
        if (year % 4 == 0 && year % 100 != 0) || year % 400 == 0 {
            29
        } else {
            28
        }
    } else if month == 4 || month == 6 || month == 9 || month == 11 {
        30
    } else {
        31
    }
}

/// The editable state of a calendar date picker: a year, a month
/// (1 through 12) and a day of month (1 through 31), each adjusted
/// independently and then wrapped back into range.
pub struct DatePicker {
    pub year: i32,
    pub month: u8,
    pub day: u8,
}

impl DatePicker {
    /// A picker showing the first day of the year 2000.
    pub fn new() -> (r: DatePicker)
        ensures
            r.year == 2000,
            r.month == 1,
            r.day == 1,
    {
        DatePicker { year: 2000, month: 1, day: 1 }
    }

    /// Wrap the month back into 1 through 12 after an edit: past
    /// December wraps to January, and below January wraps to December.
    pub fn wrap_month(&mut self)
        ensures
            final(self).year == old(self).year,
            final(self).day == old(self).day,
            final(self).month == (if old(self).month > 12 {
                1u8
            } else if old(self).month < 1 {
                12u8
            } else {
                old(self).month
            }),
            1 <= final(self).month <= 12,
    {
        if self.month > 12 {
            self.month = 1;
        } else if self.month < 1 {
            self.month = 12;
        }
    }

    /// Wrap the day of month back into range after an edit: below the
    /// first it wraps to the month's last day, and past the month's
    /// last day it wraps to the first.
    pub fn wrap_day(&mut self)
        requires
            1 <= old(self).month <= 12,
        ensures
            final(self).year == old(self).year,
            final(self).month == old(self).month,
            final(self).day == (if old(self).day < 1 {
                spec_days_in_month(old(self).year as int, old(self).month as int) as u8
            } else if old(self).day > spec_days_in_month(
                old(self).year as int,
                old(self).month as int,
            ) {
                1u8
            } else {
                old(self).day
            }),
            1 <= final(self).day <= spec_days_in_month(
                old(self).year as int,
                old(self).month as int,
            ),
    {
        let limit = days_in_month(self.year, self.month as u32);
        if self.day < 1 {
            self.day = limit as u8;
        } else if self.day as i64 > limit {
            self.day = 1;
        }
    }
}

} // verus!
