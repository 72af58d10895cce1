//! Calendar dates as year, month and day, their text form and their order.
use crate::text::{decimal, pad_left, push_decimal, push_padded};
use chrono::Datelike;
use vstd::prelude::*;

verus! {

/// A calendar date.
#[derive(Clone, Copy, Debug, PartialEq, Eq, Structural)]
pub struct Date {
    pub year: i32,
    pub month: u32,
    pub day: u32,
}

/// Why a query could not start.
#[derive(Clone, Copy, Debug, PartialEq, Eq, Structural)]
pub enum QueryError {
    /// The date boundary is not a `YYYY-MM-DD` calendar date.
    InvalidDate,
}

/// What parsing a text as `%Y-%m-%d` yields: year, month and day.
pub uninterp spec fn parsed_ymd(s: Seq<char>) -> Option<(int, int, int)>;

impl Date {
    /// Month and day lie in their calendar ranges.
    pub open spec fn wf(&self) -> bool {
        1 <= self.month <= 12 && 1 <= self.day <= 31
    }

    /// The date as year, month and day.
    pub open spec fn ymd(&self) -> (int, int, int) {
        (self.year as int, self.month as int, self.day as int)
    }

    /// `self` falls strictly after `other`.
    pub open spec fn after(&self, other: Date) -> bool {
        self.year > other.year || (self.year == other.year && (self.month > other.month || (
        self.month == other.month && self.day > other.day)))
    }

    /// Whether `self` falls strictly after `other`.
    pub fn is_after(&self, other: &Date) -> (r: bool)
        ensures
            r == self.after(*other),
    {
        self.year > other.year || (self.year == other.year && (self.month > other.month || (
        self.month == other.month && self.day > other.day)))
    }
}

/// Relies on `chrono::NaiveDate::parse_from_str` with the format `%Y-%m-%d`:
/// its outcome depends on the text alone, and a `NaiveDate` has a month in
/// 1..=12 and a day in 1..=31.
#[verifier::external_body]
pub(crate) fn parse_ymd(s: &str) -> (r: Option<Date>)
    ensures
        r is Some <==> parsed_ymd(s@) is Some,
        r is Some ==> parsed_ymd(s@) == Some(r->Some_0.ymd()) && r->Some_0.wf(),
{
    match chrono::NaiveDate::parse_from_str(s, "%Y-%m-%d") {
        Ok(d) => Some(Date { year: d.year(), month: d.month(), day: d.day() }),
        Err(_) => None,
    }
}

/// Checks the date boundary of a query; a text that is no `YYYY-MM-DD`
/// calendar date is refused.
pub fn parse_since_date(s: &str) -> (r: Result<Date, QueryError>)
    ensures
        r is Ok <==> parsed_ymd(s@) is Some,
        r is Ok ==> parsed_ymd(s@) == Some(r->Ok_0.ymd()) && r->Ok_0.wf(),
        r is Err ==> r == Err::<Date, QueryError>(QueryError::InvalidDate),
{
    match parse_ymd(s) {
        Some(d) => Ok(d),
        None => Err(QueryError::InvalidDate),
    }
}

/// The text of a year: four digits for years 0 to 9999, else an explicit
/// sign and at least four digits.
pub open spec fn year_text(y: int) -> Seq<char> {
    if 0 <= y <= 9999 {
        pad_left(decimal(y as nat), '0', 4)
    } else if y < 0 {
        seq!['-'] + pad_left(decimal((-y) as nat), '0', 4)
    } else {
        seq!['+'] + pad_left(decimal(y as nat), '0', 4)
    }
}

/// The `YYYY-MM-DD` text of a date.
pub open spec fn date_text(d: Date) -> Seq<char> {
    year_text(d.year as int) + seq!['-'] + pad_left(decimal(d.month as nat), '0', 2) + seq!['-']
        + pad_left(decimal(d.day as nat), '0', 2)
}

fn push_zero_padded(out: &mut Vec<char>, n: u64, w: usize)
    ensures
        final(out)@ == old(out)@ + pad_left(decimal(n as nat), '0', w as nat),
{
    let mut digits: Vec<char> = Vec::new();
    push_decimal(&mut digits, n);
    assert(digits@ =~= decimal(n as nat));
    push_padded(out, &digits, '0', w);
}

/// Appends the `YYYY-MM-DD` text of a date.
pub fn push_date(out: &mut Vec<char>, d: &Date)
    ensures
        final(out)@ == old(out)@ + date_text(*d),
{
    let ghost o = out@;
    if 0 <= d.year && d.year <= 9999 {
        push_zero_padded(out, d.year as u64, 4);
    } else if d.year < 0 {
        out.push('-');
        push_zero_padded(out, (-(d.year as i64)) as u64, 4);
    } else {
        out.push('+');
        push_zero_padded(out, d.year as u64, 4);
    }
    assert(out@ =~= o + year_text(d.year as int));
    out.push('-');
    push_zero_padded(out, d.month as u64, 2);
    out.push('-');
    push_zero_padded(out, d.day as u64, 2);
    assert(out@ =~= o + date_text(*d));
}

} // verus!
