//! Calendar dates: validity rules, parsing from `year-month-day` text and
//! rendering back to canonical (unpadded) text.

use vstd::prelude::*;
use vstd::string::StringExecFns;
use crate::errors::Errors;
use crate::text::{
    all_digits, dec_digits, dec_value, parse_u32, split_char, split_str, u32_to_string,
};

verus! {

/// A calendar date. Constructed only through [`Date::new`] or
/// [`Date::parse_date`], which admit exactly the triples that
/// [`valid_date`] accepts.
#[derive(Clone, Copy, Debug, PartialEq, Eq, Structural)]
pub struct Date {
    pub y: u32,
    pub m: u8,
    pub d: u8,
}

/// The leap-year rule of this library: divisible by 4 but not by 10, or
/// divisible by 400. This deliberately diverges from the Gregorian rule,
/// which tests divisibility by 100 instead of 10: here 2020 does not count
/// as a leap year, while the Gregorian calendar says it does.
pub open spec fn leap(y: u32) -> bool {
    (y % 4 == 0 && y % 10 != 0) || y % 400 == 0
}

/// The number of days in a month, February depending on the leap flag.
pub open spec fn days_in_month(m: u8, is_leap: bool) -> u32 {
    if m == 2 {
        if is_leap {
            29
        } else {
            28
        }
    } else if m == 4 || m == 6 || m == 9 || m == 11 {
        30
    } else {
        31
    }
}

/// A (year, month, day) triple names a real date: the year is positive, the
/// month is 1..=12, and the day is 1..=days_in_month.
pub open spec fn valid_date(y: u32, m: u8, d: u8) -> bool {
    &&& y >= 1
    &&& 1 <= m <= 12
    &&& d >= 1
    &&& (d as u32) <= days_in_month(m, leap(y))
}

/// The canonical text of a date: `year-month-day`, each number unpadded.
pub open spec fn date_text(dt: Date) -> Seq<char> {
    dec_digits(dt.y as nat) + seq!['-'] + dec_digits(dt.m as nat) + seq!['-'] + dec_digits(
        dt.d as nat,
    )
}

/// A digit string denoting a number that fits in a `u32`.
pub open spec fn valid_u32_text(s: Seq<char>) -> bool {
    s.len() > 0 && all_digits(s) && dec_value(s) <= u32::MAX
}

/// A digit string denoting a number that fits in a `u8`.
pub open spec fn valid_u8_text(s: Seq<char>) -> bool {
    s.len() > 0 && all_digits(s) && dec_value(s) <= u8::MAX
}

/// What parsing date text yields: exactly three dash-separated parts, each a
/// number in range, naming a valid date — or the first error met.
pub open spec fn spec_parse_date(s: Seq<char>) -> Result<Date, Errors> {
    let parts = split_char(s, '-');
    if parts.len() != 3 {
        Err(Errors::InvalidFormat)
    } else if !valid_u32_text(parts[0]) {
        Err(Errors::Parse)
    } else if !valid_u8_text(parts[1]) {
        Err(Errors::Parse)
    } else if !valid_u8_text(parts[2]) {
        Err(Errors::Parse)
    } else {
        let y = dec_value(parts[0]) as u32;
        let m = dec_value(parts[1]) as u8;
        let d = dec_value(parts[2]) as u8;
        if valid_date(y, m, d) {
            Ok(Date { y, m, d })
        } else {
            Err(Errors::InvalidValue)
        }
    }
}

impl Date {
    /// The source's leap-year rule, as stated by [`leap`].
    pub fn is_leapyear(y: u32) -> (b: bool)
        ensures
            b == leap(y),
    {
        (y % 4 == 0 && y % 10 != 0) || y % 400 == 0
    }

    /// Decides [`valid_date`]: true iff the year is at least 1, the month is
    /// 1..=12 and the day is 1..=days_in_month under the leap rule.
    pub fn is_valid(y: u32, m: u8, d: u8) -> (b: bool)
        ensures
            b == valid_date(y, m, d),
    {
        if y == 0 || m == 0 || m > 12 {
            false
        } else {
            let lday: u32 = if m == 2 && Date::is_leapyear(y) {
                29
            } else if m == 2 {
                28
            } else if m == 4 || m == 6 || m == 9 || m == 11 {
                30
            } else {
                31
            };
            d >= 1 && (d as u32) <= lday
        }
    }

    /// Accepts exactly the valid triples; rejects the rest with
    /// `InvalidValue`.
    pub fn new(year: u32, month: u8, day: u8) -> (r: Result<Date, Errors>)
        ensures
            valid_date(year, month, day) ==> r == Ok::<Date, Errors>(
                Date { y: year, m: month, d: day },
            ),
            !valid_date(year, month, day) ==> r == Err::<Date, Errors>(Errors::InvalidValue),
    {
        if Date::is_valid(year, month, day) {
            Ok(Date { y: year, m: month, d: day })
        } else {
            Err(Errors::InvalidValue)
        }
    }

    /// Parses `year-month-day` text as [`spec_parse_date`] says.
    pub fn parse_date(text: String) -> (r: Result<Date, Errors>)
        ensures
            r == spec_parse_date(text@),
    {
        let parts = split_str(text.as_str(), '-');
        if parts.len() != 3 {
            return Err(Errors::InvalidFormat);
        }
        let y: u32 = match parse_u32(parts[0].as_str()) {
            Some(v) => v,
            None => {
                return Err(Errors::Parse);
            },
        };
        let m: u8 = match parse_u32(parts[1].as_str()) {
            Some(v) if v <= 255 => v as u8,
            _ => {
                return Err(Errors::Parse);
            },
        };
        let d: u8 = match parse_u32(parts[2].as_str()) {
            Some(v) if v <= 255 => v as u8,
            _ => {
                return Err(Errors::Parse);
            },
        };
        Date::new(y, m, d)
    }

    /// Renders the date as canonical `year-month-day` text.
    pub fn form_string(&self) -> (r: String)
        ensures
            r@ == date_text(*self),
    {
        let mut r = u32_to_string(self.y);
        proof {
            reveal_strlit("-");
        }
        r.append("-");
        let ms = u32_to_string(self.m as u32);
        r.append(ms.as_str());
        r.append("-");
        let ds = u32_to_string(self.d as u32);
        r.append(ds.as_str());
        proof {
            assert("-"@ =~= seq!['-']);
            assert(r@ =~= date_text(*self));
        }
        r
    }
}

} // verus!
