//! Calendar dates and instants as plain numbers, and the calls that read and
//! write them as text.

use chrono::format::ParseError;
use chrono::{DateTime, Datelike, NaiveDate};
use vstd::prelude::*;
use crate::number::{fixed_digits, lemma_fixed_digits, is_digit};

verus! {

/// The earliest year that a date can have.
pub const MIN_YEAR: i32 = -262143;

/// The latest year that a date can have.
pub const MAX_YEAR: i32 = 262142;

/// A day of the proleptic Gregorian calendar.
#[derive(Clone, Copy, Debug, PartialEq, Eq, Structural)]
pub struct Date {
    pub year: i32,
    pub month: u32,
    pub day: u32,
}

/// A point in time: seconds since 1970-01-01 00:00:00 UTC, and the
/// nanoseconds into that second.
#[derive(Clone, Copy, Debug, PartialEq, Eq, Structural)]
pub struct Instant {
    pub secs: i64,
    pub nanos: u32,
}

/// Whether February has 29 days in the year.
pub open spec fn is_leap_year(year: int) -> bool {
    year % 4 == 0 && (year % 100 != 0 || year % 400 == 0)
}

/// The number of days of a month.
pub open spec fn days_in_month(year: int, month: int) -> int {
    if month == 2 {
        if is_leap_year(year) {
            29
        } else {
            28
        }
    } else if month == 4 || month == 6 || month == 9 || month == 11 {
        30
    } else {
        31
    }
}

/// How many digits a year is written with: four, or as many as it has.
pub open spec fn year_width(magnitude: nat) -> nat {
    if magnitude < 10000 {
        4
    } else if magnitude < 100000 {
        5
    } else {
        6
    }
}

/// A year as text: four digits from 0 to 9999, and otherwise a sign followed
/// by at least four digits.
pub open spec fn year_text(year: int) -> Seq<char> {
    if 0 <= year <= 9999 {
        fixed_digits(year as nat, 4)
    } else if year < 0 {
        seq!['-'] + fixed_digits((-year) as nat, year_width((-year) as nat))
    } else {
        seq!['+'] + fixed_digits(year as nat, year_width(year as nat))
    }
}

/// The format of a date in a record: year, month and day, separated by `-`.
pub open spec fn iso_format() -> Seq<char> {
    "%Y-%m-%d"@
}

impl Date {
    /// The date exists in the calendar and its year is in range.
    pub open spec fn well_formed(self) -> bool {
        &&& MIN_YEAR <= self.year <= MAX_YEAR
        &&& 1 <= self.month <= 12
        &&& 1 <= self.day <= days_in_month(self.year as int, self.month as int)
    }

    /// The date as `YYYY-MM-DD`.
    pub open spec fn text(self) -> Seq<char> {
        year_text(self.year as int) + seq!['-'] + fixed_digits(self.month as nat, 2) + seq!['-']
            + fixed_digits(self.day as nat, 2)
    }
}

/// The number of days in a month of a year within the range of dates.
fn month_length(year: i32, month: u32) -> (days: u32)
    requires
        MIN_YEAR <= year <= MAX_YEAR,
    ensures
        days == days_in_month(year as int, month as int),
{
    // 262400 is a multiple of 400 that lifts every year in range above zero.
    let lifted: u32 = (year + 262400) as u32;
    let leap = lifted % 4 == 0 && (lifted % 100 != 0 || lifted % 400 == 0);
    if month == 2 {
        if leap {
            29
        } else {
            28
        }
    } else if month == 4 || month == 6 || month == 9 || month == 11 {
        30
    } else {
        31
    }
}

impl Date {
    /// Whether the date exists.
    pub fn is_valid(&self) -> (b: bool)
        ensures
            b == self.well_formed(),
    {
        MIN_YEAR <= self.year && self.year <= MAX_YEAR && 1 <= self.month && self.month <= 12 && 1
            <= self.day && self.day <= month_length(self.year, self.month)
    }

    /// The date of the three numbers, if there is such a day.
    pub fn new(year: i32, month: u32, day: u32) -> (r: Option<Date>)
        ensures
            r == if (Date { year, month, day }).well_formed() {
                Some(Date { year, month, day })
            } else {
                None
            },
    {
        let d = Date { year, month, day };
        if d.is_valid() {
            Some(d)
        } else {
            None
        }
    }
}

/// The date that `chrono::NaiveDate::parse_from_str` reads from `text` under
/// `format`, if it reads one.
pub uninterp spec fn parsed_date(text: Seq<char>, format: Seq<char>) -> Option<Date>;

/// The instant that `chrono::DateTime::parse_from_str` reads from `text`
/// under `format`, if it reads one.
pub uninterp spec fn parsed_instant(text: Seq<char>, format: Seq<char>) -> Option<Instant>;

/// The whole days of the time from `since` to `of`, as
/// `chrono::DateTime::signed_duration_since` and `TimeDelta::num_days` count
/// them: negative where `of` is the earlier instant. Nothing where either
/// instant is outside the range of `chrono::DateTime`.
pub uninterp spec fn days_between(of: Instant, since: Instant) -> Option<i64>;

/// The error of chrono's parsers. Nothing is known of what it holds.
#[verifier::external_type_specification]
#[verifier::external_body]
pub struct ExParseError(ParseError);

/// `chrono::NaiveDate::parse_from_str`. Nothing is claimed about which texts
/// are read as which dates; only that a date which comes back exists in the
/// calendar, as every `NaiveDate` does.
#[verifier::external_body]
pub(crate) fn parse_date(text: &str, format: &str) -> (r: Result<Date, ParseError>)
    ensures
        parsed_date(text@, format@) == match r {
            Ok(d) => Some(d),
            Err(_) => None,
        },
        r is Ok ==> r->Ok_0.well_formed(),
{
    match NaiveDate::parse_from_str(text, format) {
        Ok(d) => Ok(Date { year: d.year(), month: d.month(), day: d.day() }),
        Err(e) => Err(e),
    }
}

/// Writes a date as year, month and day. Reading the text gives the date
/// back.
pub fn write_date(d: &Date) -> (s: String)
    requires
        d.well_formed(),
    ensures
        s@ == d.text(),
        parsed_date(s@, iso_format()) == Some(*d),
{
    date_text(d)
}

/// Reads a date written as year, month and day.
pub fn read_date(text: &str) -> (r: Option<Date>)
    ensures
        r == parsed_date(text@, iso_format()),
        r is Some ==> r->0.well_formed(),
{
    match parse_date(text, "%Y-%m-%d") {
        Ok(d) => Some(d),
        Err(_) => None,
    }
}

/// The `Display` of `chrono::NaiveDate`, on the date that
/// `NaiveDate::from_ymd_opt` makes of the three numbers. The text is the one
/// that `Date::text` spells out, and, as the documentation of that `Display`
/// says, parsing it under `%Y-%m-%d` gives the date back.
#[verifier::external_body]
pub(crate) fn date_text(d: &Date) -> (s: String)
    requires
        d.well_formed(),
    ensures
        s@ == d.text(),
        parsed_date(s@, iso_format()) == Some(*d),
{
    NaiveDate::from_ymd_opt(d.year, d.month, d.day).unwrap().to_string()
}

/// `chrono::DateTime::parse_from_str`, with the instant handed back as its
/// Unix timestamp and the nanoseconds within the second.
#[verifier::external_body]
pub(crate) fn parse_instant(text: &str, format: &str) -> (r: Result<Instant, ParseError>)
    ensures
        parsed_instant(text@, format@) == match r {
            Ok(t) => Some(t),
            Err(_) => None,
        },
{
    match DateTime::parse_from_str(text, format) {
        Ok(t) => Ok(Instant { secs: t.timestamp(), nanos: t.timestamp_subsec_nanos() }),
        Err(e) => Err(e),
    }
}

/// `chrono::DateTime::signed_duration_since` followed by
/// `TimeDelta::num_days`, on the two instants as `DateTime::from_timestamp`
/// rebuilds them.
#[verifier::external_body]
pub(crate) fn whole_days(of: Instant, since: Instant) -> (r: Option<i64>)
    ensures
        r == days_between(of, since),
{
    let a = DateTime::from_timestamp(of.secs, of.nanos)?;
    let b = DateTime::from_timestamp(since.secs, since.nanos)?;
    Some(a.signed_duration_since(b).num_days())
}

/// The text of a date has at least ten characters, each a digit, `-` or `+`.
pub proof fn lemma_date_text(d: Date)
    requires
        d.well_formed(),
    ensures
        d.text().len() >= 10,
        forall|i: int|
            0 <= i < d.text().len() ==> is_digit(#[trigger] d.text()[i]) || d.text()[i] == '-'
                || d.text()[i] == '+',
{
    let y = d.year as int;
    let m = fixed_digits(d.month as nat, 2);
    let dd = fixed_digits(d.day as nat, 2);
    lemma_fixed_digits(d.month as nat, 2);
    lemma_fixed_digits(d.day as nat, 2);
    let yt = year_text(y);
    assert(yt.len() >= 4 && forall|i: int|
        0 <= i < yt.len() ==> is_digit(#[trigger] yt[i]) || yt[i] == '-' || yt[i] == '+') by {
        if 0 <= y <= 9999 {
            lemma_fixed_digits(y as nat, 4);
        } else if y < 0 {
            lemma_fixed_digits((-y) as nat, year_width((-y) as nat));
        } else {
            lemma_fixed_digits(y as nat, year_width(y as nat));
        }
    }
    let t = d.text();
    assert forall|i: int| 0 <= i < t.len() implies is_digit(#[trigger] t[i]) || t[i] == '-'
        || t[i] == '+' by {
        if i < yt.len() {
            assert(t[i] == yt[i]);
        } else if i == yt.len() {
        } else if i < yt.len() + 3 {
            assert(t[i] == m[i - yt.len() - 1]);
        } else if i == yt.len() + 3 {
        } else {
            assert(t[i] == dd[i - yt.len() - 4]);
        }
    }
}

} // verus!
