//! The days that entries of a record are dated by, read as the page reads
//! them.
use vstd::prelude::*;
use crate::page::{textish, textish_of};
use crate::text::{chars_of, string_of, trim, trimmed};
use crate::value::{Model, Value, entries, get, lookup, truth, truthy};

verus! {

/// The day a text reads as in a `strftime`-style format, as a year, a month
/// and a day of the month; None where it does not read as one.
pub uninterp spec fn parsed_day(text: Seq<char>, format: Seq<char>) -> Option<(i32, u32, u32)>;

/// `chrono::NaiveDate::parse_from_str`: the day `text` reads as in `format`,
/// given as its year, month and day of the month. What it reads depends on
/// the two texts alone; the contract names it `parsed_day` and says nothing
/// more of it.
#[verifier::external_body]
fn parse_day(text: &str, format: &str) -> (r: Option<(i32, u32, u32)>)
    ensures
        r == parsed_day(text@, format@),
{
    match chrono::NaiveDate::parse_from_str(text, format) {
        Ok(day) => Some((chrono::Datelike::year(&day), chrono::Datelike::month(&day), chrono::Datelike::day(&day))),
        Err(_) => None,
    }
}

/// A text read as an ISO day (`%Y-%m-%d`), once trimmed.
pub fn parse_date(value: &str) -> (r: Option<(i32, u32, u32)>)
    ensures
        r == parsed_day(trim(value@), "%Y-%m-%d"@),
{
    let t = string_of(&trimmed(&chars_of(value)));
    parse_day(t.as_str(), "%Y-%m-%d")
}

/// The text an entry is dated by: its `v`, else its `quoted`, where that is
/// truthy, as the page writes it and trimmed.
pub open spec fn entry_text(body: Seq<(Seq<char>, Model)>) -> Option<Seq<char>> {
    match lookup(body, "v"@) {
        Some(v) if truthy(v) => Some(trim(textish(v))),
        _ => match lookup(body, "quoted"@) {
            Some(q) if truthy(q) => Some(trim(textish(q))),
            _ => None,
        },
    }
}

/// The day an entry is dated by: its text read as an ISO day, else as
/// day/month/year, else as day.month.year.
pub open spec fn entry_day(body: Seq<(Seq<char>, Model)>) -> Option<(i32, u32, u32)> {
    match entry_text(body) {
        None => None,
        Some(t) => match parsed_day(t, "%Y-%m-%d"@) {
            Some(d) => Some(d),
            None => match parsed_day(t, "%d/%m/%Y"@) {
                Some(d) => Some(d),
                None => parsed_day(t, "%d.%m.%Y"@),
            },
        },
    }
}

/// The day an entry is dated by, where its value reads as one.
pub fn entry_date(body: &Vec<(String, Value)>) -> (r: Option<(i32, u32, u32)>)
    ensures
        r == entry_day(entries(body@)),
{
    let chosen: Option<&Value> = match get(body, "v") {
        Some(v) if truth(v) => Some(v),
        _ => match get(body, "quoted") {
            Some(q) if truth(q) => Some(q),
            _ => None,
        },
    };
    let value = match chosen {
        Some(v) => v,
        None => return None,
    };
    let t = string_of(&trimmed(&chars_of(textish_of(value).as_str())));
    match parse_day(t.as_str(), "%Y-%m-%d") {
        Some(d) => Some(d),
        None => match parse_day(t.as_str(), "%d/%m/%Y") {
            Some(d) => Some(d),
            None => parse_day(t.as_str(), "%d.%m.%Y"),
        },
    }
}

} // verus!
