use chrono::Datelike;
use vstd::prelude::*;

verus! {

/// The (year, month) of a `YYYY-MM-DD` date string, or `None` where the string
/// is not a valid calendar date in that format.
pub uninterp spec fn year_month_of(s: Seq<char>) -> Option<(i32, u32)>;

/// Relies on `chrono::NaiveDate::parse_from_str` with the format `%Y-%m-%d`: the
/// outcome depends on the text alone, and a parsed date's month lies in 1..=12.
#[verifier::external_body]
pub fn parse_year_month(s: &str) -> (r: Option<(i32, u32)>)
    ensures
        r == year_month_of(s@),
        r matches Some((y, m)) ==> 1 <= m <= 12,
{
    match chrono::NaiveDate::parse_from_str(s, "%Y-%m-%d") {
        Ok(d) => Some((d.year(), d.month())),
        Err(_) => None,
    }
}

} // verus!
