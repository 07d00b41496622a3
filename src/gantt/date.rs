use vstd::prelude::*;
use chrono::{Datelike, NaiveDate};
use crate::text::is_printable_ascii;

verus! {

/// A calendar date, as its day number in the proleptic Gregorian calendar:
/// 1 January of year 1 is day 1.
#[derive(Debug, Clone, Copy, PartialEq, Eq, Structural)]
pub struct Date {
    pub day: i32,
}

/// Day number of 1 January 0001.
pub const FIRST_DAY: i32 = 1;

/// Day number of 31 December 9999.
pub const LAST_DAY: i32 = 3652059;

/// The date that chrono reads from `s` in the form `DD-MM-YYYY`, as a day number.
pub uninterp spec fn day_of_text(s: Seq<char>) -> Option<int>;

/// How chrono writes the date with day number `day` in the form `DD-MM-YYYY`.
pub uninterp spec fn text_of_day(day: int) -> Seq<char>;

/// Relies on chrono's `NaiveDate::parse_from_str` with the format `%d-%m-%Y`, and on
/// `Datelike::num_days_from_ce` for the day number of the date it reads.
#[verifier::external_body]
pub(crate) fn parse_date(s: &str) -> (r: Option<Date>)
    ensures
        match r {
            Some(d) => day_of_text(s@) == Some(d.day as int),
            None => day_of_text(s@) is None,
        },
{
    match NaiveDate::parse_from_str(s, "%d-%m-%Y") {
        Ok(d) => Some(Date { day: d.num_days_from_ce() }),
        Err(_) => None,
    }
}

/// Relies on chrono's `NaiveDate::from_num_days_from_ce_opt` and its `format` with
/// `%d-%m-%Y`: for years 1 to 9999 that is two digits of day, two of month and four
/// of year, separated by hyphens.
#[verifier::external_body]
pub(crate) fn format_date(date: Date) -> (r: String)
    requires
        FIRST_DAY <= date.day <= LAST_DAY,
    ensures
        r@ == text_of_day(date.day as int),
        r@.len() == 10,
        is_printable_ascii(r@),
{
    NaiveDate::from_num_days_from_ce_opt(date.day).unwrap().format("%d-%m-%Y").to_string()
}

} // verus!
