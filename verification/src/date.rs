//! Calendar dates as the graph's nodes carry them.
//!
//! A [`Date`] holds a year, a month and a day as plain integers. The calendar
//! itself (which triples exist, how a date is written, how text is read) is
//! chrono's: the functions at the end of this file call it, and their contracts
//! are taken on trust.

use chrono::Datelike;
use vstd::prelude::*;

verus! {

/// Whether `chrono::NaiveDate::from_ymd_opt` accepts the triple.
pub uninterp spec fn is_calendar_date(year: int, month: int, day: int) -> bool;

/// The text that `Display` of `chrono::NaiveDate` gives for the date of this
/// triple. Meaningful only where [`is_calendar_date`] holds.
pub uninterp spec fn calendar_text(year: int, month: int, day: int) -> Seq<char>;

/// What `chrono::NaiveDate::parse_from_str` reads out of `text` under
/// `format`, as (year, month, day); `None` where it reports an error.
pub uninterp spec fn parsed_calendar_date(text: Seq<char>, format: Seq<char>) -> Option<
    (int, int, int),
>;

/// chrono's parse error, carried through unread.
#[verifier::external_type_specification]
#[verifier::external_body]
pub struct ExParseError(chrono::ParseError);

/// A day of the proleptic Gregorian calendar.
#[derive(Clone, Copy, Debug, PartialEq, Eq, Structural, Hash)]
pub struct Date {
    year: i32,
    month: u32,
    day: u32,
}

/// Why a piece of text is not a date.
#[derive(Clone, Copy, Debug, PartialEq, Eq, Structural)]
pub enum DateError {
    /// The text does not read as `%Y-%m-%d`.
    Unreadable,
}

/// The format in which dates are read.
pub open spec fn date_format() -> Seq<char> {
    "%Y-%m-%d"@
}

impl Date {
    /// Every `Date` is a date that chrono knows.
    #[verifier::type_invariant]
    spec fn exists_in_calendar(self) -> bool {
        is_calendar_date(self.year as int, self.month as int, self.day as int)
    }

    /// The year, as the proleptic Gregorian calendar numbers it.
    pub closed spec fn year(self) -> int {
        self.year as int
    }

    /// The month, from 1.
    pub closed spec fn month(self) -> int {
        self.month as int
    }

    /// The day of the month, from 1.
    pub closed spec fn day(self) -> int {
        self.day as int
    }

    /// A number of the date's own: no two dates share one.
    pub closed spec fn key_value(self) -> u128 {
        ((self.year + 0x8000_0000) * 0x1_0000_0000_0000_0000 + self.month * 0x1_0000_0000
            + self.day) as u128
    }

    /// Dates with the same key are the same date.
    pub proof fn lemma_key_tells_apart(self, other: Date)
        requires
            self.key_value() == other.key_value(),
        ensures
            self == other,
    {
    }

    /// The date's text, as chrono writes it.
    pub open spec fn text(self) -> Seq<char> {
        calendar_text(self.year(), self.month(), self.day())
    }

    /// The date of a year, a month and a day, where the calendar has one.
    pub fn from_ymd_opt(year: i32, month: u32, day: u32) -> (r: Option<Date>)
        ensures
            r.is_some() == is_calendar_date(year as int, month as int, day as int),
            r matches Some(d) ==> d.year() == year && d.month() == month && d.day() == day,
    {
        if calendar_date_exists(year, month, day) {
            Some(Date { year, month, day })
        } else {
            None
        }
    }

    /// Reads a date written as `%Y-%m-%d`.
    pub fn parse(text: &str) -> (r: Result<Date, DateError>)
        ensures
            match r {
                Ok(d) => parsed_calendar_date(text@, date_format()) == Some(
                    (d.year(), d.month(), d.day()),
                ),
                Err(e) => parsed_calendar_date(text@, date_format()).is_none() && e
                    == DateError::Unreadable,
            },
    {
        match read_calendar_date(text, "%Y-%m-%d") {
            Ok(ymd) => Ok(Date { year: ymd.0, month: ymd.1, day: ymd.2 }),
            Err(_) => Err(DateError::Unreadable),
        }
    }

    /// The date as text.
    pub fn to_string(&self) -> (r: String)
        ensures
            r@ == self.text(),
    {
        proof {
            use_type_invariant(self);
        }
        write_calendar_date(self.year, self.month, self.day).unwrap()
    }

    /// The date's key.
    pub fn key(&self) -> (k: u128)
        ensures
            k == self.key_value(),
    {
        let year: u128 = (self.year as i64 + 0x8000_0000) as u128;
        year * 0x1_0000_0000_0000_0000 + (self.month as u128) * 0x1_0000_0000 + (self.day as u128)
    }

    /// The year.
    pub fn year_number(&self) -> (r: i32)
        ensures
            r == self.year(),
    {
        self.year
    }

    /// The month.
    pub fn month_number(&self) -> (r: u32)
        ensures
            r == self.month(),
    {
        self.month
    }

    /// The day of the month.
    pub fn day_number(&self) -> (r: u32)
        ensures
            r == self.day(),
    {
        self.day
    }
}

/// `chrono::NaiveDate::from_ymd_opt`: whether it returns a date. The contract
/// does no more than give that answer its name.
#[verifier::external_body]
fn calendar_date_exists(year: i32, month: u32, day: u32) -> (r: bool)
    ensures
        r == is_calendar_date(year as int, month as int, day as int),
{
    chrono::NaiveDate::from_ymd_opt(year, month, day).is_some()
}

/// `Display` of `chrono::NaiveDate`, on the date that
/// `chrono::NaiveDate::from_ymd_opt` makes of the triple. The contract claims
/// that text comes back exactly where the triple is a date, and names it.
#[verifier::external_body]
fn write_calendar_date(year: i32, month: u32, day: u32) -> (r: Option<String>)
    ensures
        r.is_some() == is_calendar_date(year as int, month as int, day as int),
        r matches Some(s) ==> s@ == calendar_text(year as int, month as int, day as int),
{
    chrono::NaiveDate::from_ymd_opt(year, month, day).map(|d| d.to_string())
}

/// `chrono::NaiveDate::parse_from_str`, with the date handed back as year,
/// month and day (`Datelike::year`, `month`, `day`). The contract names the
/// outcome and claims that a date which was read exists in the calendar.
#[verifier::external_body]
fn read_calendar_date(text: &str, format: &str) -> (r: Result<(i32, u32, u32), chrono::ParseError>)
    ensures
        match r {
            Ok(ymd) => parsed_calendar_date(text@, format@) == Some(
                (ymd.0 as int, ymd.1 as int, ymd.2 as int),
            ) && is_calendar_date(ymd.0 as int, ymd.1 as int, ymd.2 as int),
            Err(_) => parsed_calendar_date(text@, format@).is_none(),
        },
{
    chrono::NaiveDate::parse_from_str(text, format).map(|d| (d.year(), d.month(), d.day()))
}

} // verus!
