//! Calendar dates. A date inside the engine is its day count in the
//! proleptic Gregorian calendar; only parsing and formatting are delegated
//! to the calendar library, and both depend on their argument alone.
use vstd::prelude::*;

use chrono::Datelike;

verus! {

/// The day count of an ISO `YYYY-MM-DD` text, when it parses as a date.
pub uninterp spec fn iso_date_num(s: Seq<char>) -> Option<int>;

/// The canonical ISO `YYYY-MM-DD` text of a day count.
pub uninterp spec fn iso_date_text(d: int) -> Seq<char>;

/// The `MM/DD` axis label of a day count.
pub uninterp spec fn month_day_text(d: int) -> Seq<char>;

/// Relies on `chrono::NaiveDate::parse_from_str` with the fixed format
/// `%Y-%m-%d`, and on `Datelike::num_days_from_ce` (the day count in the
/// proleptic Gregorian calendar): both depend on the text alone.
#[verifier::external_body]
pub fn parse_iso_date(s: &str) -> (r: Option<i32>)
    ensures
        r is Some <==> iso_date_num(s@) is Some,
        r matches Some(d) ==> iso_date_num(s@) == Some(d as int),
{
    match chrono::NaiveDate::parse_from_str(s, "%Y-%m-%d") {
        Ok(d) => Some(d.num_days_from_ce()),
        Err(_) => None,
    }
}

/// Relies on `chrono::NaiveDate::from_num_days_from_ce_opt` and on
/// formatting with `%Y-%m-%d`: the text depends on the day count alone.
#[verifier::external_body]
pub fn format_iso_date(d: i32) -> (r: String)
    ensures
        r@ == iso_date_text(d as int),
{
    match chrono::NaiveDate::from_num_days_from_ce_opt(d) {
        Some(nd) => nd.format("%Y-%m-%d").to_string(),
        None => String::new(),
    }
}

/// Relies on `chrono::NaiveDate::from_num_days_from_ce_opt` and on
/// formatting with `%m/%d`: the label depends on the day count alone.
#[verifier::external_body]
pub fn format_month_day(d: i32) -> (r: String)
    ensures
        r@ == month_day_text(d as int),
{
    match chrono::NaiveDate::from_num_days_from_ce_opt(d) {
        Some(nd) => nd.format("%m/%d").to_string(),
        None => String::new(),
    }
}

} // verus!
