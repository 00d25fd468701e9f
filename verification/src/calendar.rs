//! Calendar dates as day numbers of the proleptic Gregorian calendar.

use chrono::{Datelike, Local, NaiveDate};
use vstd::prelude::*;

verus! {

/// Day number of the earliest date that `chrono::NaiveDate` can hold
/// (January 1 of the year -262143).
pub const MIN_DAY: i32 = -95_746_129;

/// Day number of the latest date that `chrono::NaiveDate` can hold
/// (December 31 of the year 262142).
pub const MAX_DAY: i32 = 95_745_399;

/// A calendar date without time of day, held as the number of days since
/// December 31 of the year 1 BCE: January 1 of the year 1 is day 1.
#[derive(Clone, Copy, Debug, PartialEq, Eq, Structural, Hash)]
pub struct Date {
    pub days: i32,
}

/// The current local date as a day number.
///
/// Trusted: calls chrono's `Local::now`, `DateTime::date_naive` and
/// `Datelike::num_days_from_ce`. The clock decides the value; the contract
/// only says that it is the day number of a date that `NaiveDate` can hold.
#[verifier::external_body]
fn current_day() -> (day: i32)
    ensures
        MIN_DAY <= day <= MAX_DAY,
{
    Local::now().date_naive().num_days_from_ce()
}

/// The number of days that have passed since the most recent Sunday.
///
/// Trusted: calls chrono's `NaiveDate::from_num_days_from_ce_opt`,
/// `Datelike::weekday` and `Weekday::num_days_from_sunday`. The contract says
/// that a date exists exactly for the day numbers from `MIN_DAY` to `MAX_DAY`,
/// and that weekdays repeat every seven days with day 0 falling on a Sunday.
#[verifier::external_body]
fn days_from_sunday(day: i32) -> (r: Option<u32>)
    ensures
        r is Some <==> MIN_DAY <= day <= MAX_DAY,
        r matches Some(w) ==> w as int == day as int % 7,
{
    NaiveDate::from_num_days_from_ce_opt(day).map(|d| d.weekday().num_days_from_sunday())
}

impl Date {
    /// A date that the calendar can represent.
    pub open spec fn is_valid(self) -> bool {
        MIN_DAY <= self.days <= MAX_DAY
    }

    /// Days since the most recent Sunday: 0 for a Sunday, 6 for a Saturday.
    pub open spec fn weekday(self) -> int {
        self.days as int % 7
    }

    /// Day number of the Sunday on or before this date.
    pub open spec fn week_start(self) -> int {
        self.days - self.days as int % 7
    }

    /// Whether the Sunday on or before this date is itself representable.
    pub open spec fn has_week_start(self) -> bool {
        self.week_start() >= MIN_DAY
    }

    /// The date with the given day number, if there is one.
    pub fn from_days(days: i32) -> (r: Option<Date>)
        ensures
            r == if MIN_DAY <= days <= MAX_DAY {
                Some(Date { days })
            } else {
                None
            },
    {
        if MIN_DAY <= days && days <= MAX_DAY {
            Some(Date { days })
        } else {
            None
        }
    }

    /// Today's date in the local time zone.
    pub fn today() -> (r: Date)
        ensures
            r.is_valid(),
    {
        Date { days: current_day() }
    }

    /// Days since the most recent Sunday.
    pub fn weekday_from_sunday(&self) -> (w: u32)
        requires
            self.is_valid(),
        ensures
            w as int == self.weekday(),
            w < 7,
    {
        match days_from_sunday(self.days) {
            Some(w) => w,
            None => 0,
        }
    }

    /// The Sunday on or before this date; `None` when that Sunday lies before
    /// the earliest representable date.
    pub fn previous_sunday(&self) -> (r: Option<Date>)
        requires
            self.is_valid(),
        ensures
            r == if self.has_week_start() {
                Some(Date { days: self.week_start() as i32 })
            } else {
                None
            },
            r matches Some(sunday) ==> sunday.is_valid() && sunday.weekday() == 0
                && sunday.days <= self.days < sunday.days + 7,
    {
        let w: u32 = self.weekday_from_sunday();
        let start: i32 = self.days - (w as i32);
        if start >= MIN_DAY {
            Some(Date { days: start })
        } else {
            None
        }
    }
}

/// The week start of any date is a Sunday, and lies on the date or at most
/// six days before it.
pub proof fn lemma_week_start_is_sunday(date: Date)
    ensures
        date.week_start() % 7 == 0,
        date.week_start() <= date.days < date.week_start() + 7,
        date.has_week_start() && date.is_valid() ==> (Date { days: date.week_start() as i32 }).weekday()
            == 0,
{
}

} // verus!
