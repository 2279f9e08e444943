//! Dates written as `year.month.day` inside quotes.
use vstd::prelude::*;
use crate::number::{digits_value, digits_value_capped};
use crate::scan::{lemma_run_end_bounds, run_end, run_end_unrolled, CharClass};
use crate::value::Date;

verus! {

pub open spec fn is_leap_year(y: int) -> bool {
    y % 4 == 0 && (y % 100 != 0 || y % 400 == 0)
}

pub open spec fn days_in_month(y: int, m: int) -> int {
    if m == 2 {
        if is_leap_year(y) {
            29
        } else {
            28
        }
    } else if m == 4 || m == 6 || m == 9 || m == 11 {
        30
    } else {
        31
    }
}

/// A day of the proleptic Gregorian calendar within years -9999 to 9999.
pub open spec fn is_calendar_date(y: int, m: int, d: int) -> bool {
    -9999 <= y <= 9999 && 1 <= m <= 12 && 1 <= d <= days_in_month(y, m)
}

/// Relies on `time::Month::try_from` and `time::Date::from_calendar_date`:
/// a month number names a month iff it is 1 to 12, and the date exists iff
/// the year is within -9999..=9999 and the day within the month's length.
#[verifier::external_body]
fn calendar_date_exists(year: i32, month: u8, day: u8) -> (r: bool)
    ensures
        r == is_calendar_date(year as int, month as int, day as int),
{
    match time::Month::try_from(month) {
        Ok(m) => time::Date::from_calendar_date(year, m, day).is_ok(),
        Err(_) => false,
    }
}

/// End of the first field of `digit+ '.' digit+ '.' digit+`, then of the
/// second and third.
pub open spec fn date_field_ends(c: Seq<u8>) -> (int, int, int) {
    let a = run_end(CharClass::Digit, c, 0);
    let b = run_end(CharClass::Digit, c, a + 1);
    let e = run_end(CharClass::Digit, c, b + 1);
    (a, b, e)
}

/// Whether the whole of `c` has the shape `digit+ '.' digit+ '.' digit+`.
pub open spec fn is_date_shaped(c: Seq<u8>) -> bool {
    let (a, b, e) = date_field_ends(c);
    0 < a && a < c.len() && c[a] == 46 && a + 1 < b && b < c.len() && c[b] == 46 && b + 1 < e
        && e == c.len()
}

/// The three field values of date-shaped text.
pub open spec fn date_fields(c: Seq<u8>) -> (int, int, int) {
    let (a, b, e) = date_field_ends(c);
    (
        digits_value(c.subrange(0, a)) as int,
        digits_value(c.subrange(a + 1, b)) as int,
        digits_value(c.subrange(b + 1, e)) as int,
    )
}

/// The date that `c` denotes, if it is date-shaped and names a calendar day.
pub open spec fn date_of(c: Seq<u8>) -> Option<(int, int, int)> {
    if is_date_shaped(c) && is_calendar_date(date_fields(c).0, date_fields(c).1, date_fields(c).2) {
        Some(date_fields(c))
    } else {
        None
    }
}

#[derive(Clone, Copy, Debug, PartialEq, Eq)]
pub enum DateErrorKind {
    /// The text is not three dot-separated digit runs.
    Malformed,
    /// The fields do not name a calendar day.
    OutOfRange,
}

/// Why date text was refused.
#[derive(Clone, Copy, Debug, PartialEq, Eq)]
pub struct DateParseError {
    pub kind: DateErrorKind,
}

/// Reads date text such as `2200.01.01`.
pub fn map_to_date(c: &[u8]) -> (r: Result<Date, DateParseError>)
    ensures
        match r {
            Ok(d) => date_of(c@) == Some((d.year as int, d.month as int, d.day as int)),
            Err(e) => match e.kind {
                DateErrorKind::Malformed => !is_date_shaped(c@),
                DateErrorKind::OutOfRange => is_date_shaped(c@) && date_of(c@) is None,
            },
        },
{
    let len = c.len();
    let a = run_end_unrolled(CharClass::Digit, c, 0);
    proof {
        lemma_run_end_bounds(CharClass::Digit, c@, 0);
    }
    if a == 0 || a >= len || c[a] != 46 {
        return Err(DateParseError { kind: DateErrorKind::Malformed });
    }
    let b = run_end_unrolled(CharClass::Digit, c, a + 1);
    proof {
        lemma_run_end_bounds(CharClass::Digit, c@, a + 1);
    }
    if b <= a + 1 || b >= len || c[b] != 46 {
        return Err(DateParseError { kind: DateErrorKind::Malformed });
    }
    let e = run_end_unrolled(CharClass::Digit, c, b + 1);
    proof {
        lemma_run_end_bounds(CharClass::Digit, c@, b + 1);
    }
    if e <= b + 1 || e != len {
        return Err(DateParseError { kind: DateErrorKind::Malformed });
    }
    let y = digits_value_capped(c, 0, a, 100000);
    let m = digits_value_capped(c, a + 1, b, 100000);
    let d = digits_value_capped(c, b + 1, e, 100000);
    if y > 9999 || m > 12 || d > 31 {
        return Err(DateParseError { kind: DateErrorKind::OutOfRange });
    }
    if calendar_date_exists(y as i32, m as u8, d as u8) {
        Ok(Date { year: y as i32, month: m as u8, day: d as u8 })
    } else {
        Err(DateParseError { kind: DateErrorKind::OutOfRange })
    }
}

} // verus!
