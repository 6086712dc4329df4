//! Calendar dates: every ledger statement is led by a `YYYY-MM-DD` date.
use crate::text::{digit_char, digit_val};
use vstd::prelude::*;

verus! {

/// A calendar date: plain year, month and day fields with the usual
/// Gregorian validity rules.
#[derive(Clone, Copy, Debug, PartialEq, Eq, Structural)]
pub struct Date {
    pub year: u32,
    pub month: u32,
    pub day: u32,
}

impl Date {
    pub open spec fn spec_valid(year: u32, month: u32, day: u32) -> bool {
        &&& year <= 9999
        &&& 1 <= month <= 12
        &&& 1 <= day <= Date::spec_days_in_month(year, month)
    }

    pub open spec fn spec_is_leap_year(year: u32) -> bool {
        year % 4 == 0 && (year % 100 != 0 || year % 400 == 0)
    }

    pub open spec fn spec_days_in_month(year: u32, month: u32) -> u32 {
        if month == 2 {
            if Date::spec_is_leap_year(year) {
                29u32
            } else {
                28u32
            }
        } else if month == 4 || month == 6 || month == 9 || month == 11 {
            30u32
        } else {
            31u32
        }
    }

    pub open spec fn wf(self) -> bool {
        Date::spec_valid(self.year, self.month, self.day)
    }

    /// Builds the date; callers supply a valid calendar date.
    pub fn new(year: u32, month: u32, day: u32) -> (r: Date)
        requires
            Date::spec_valid(year, month, day),
        ensures
            r == (Date { year, month, day }),
            r.wf(),
    {
        Date { year, month, day }
    }

    pub fn is_leap_year(year: u32) -> (r: bool)
        ensures
            r == Date::spec_is_leap_year(year),
    {
        year % 4 == 0 && (year % 100 != 0 || year % 400 == 0)
    }

    pub fn days_in_month(year: u32, month: u32) -> (r: u32)
        ensures
            r == Date::spec_days_in_month(year, month),
    {
        if month == 2 {
            if Date::is_leap_year(year) {
                29
            } else {
                28
            }
        } else if month == 4 || month == 6 || month == 9 || month == 11 {
            30
        } else {
            31
        }
    }
}

/// The text is exactly `YYYY-MM-DD` and names a valid calendar date.
pub open spec fn date_lit_ok(s: Seq<char>) -> bool {
    &&& s.len() == 10
    &&& digit_char(s[0]) && digit_char(s[1]) && digit_char(s[2]) && digit_char(s[3])
    &&& s[4] == '-'
    &&& digit_char(s[5]) && digit_char(s[6])
    &&& s[7] == '-'
    &&& digit_char(s[8]) && digit_char(s[9])
    &&& Date::spec_valid(
        date_lit_year(s) as u32,
        date_lit_month(s) as u32,
        date_lit_day(s) as u32,
    )
}

pub open spec fn date_lit_year(s: Seq<char>) -> int {
    digit_val(s[0]) * 1000 + digit_val(s[1]) * 100 + digit_val(s[2]) * 10 + digit_val(s[3])
}

pub open spec fn date_lit_month(s: Seq<char>) -> int {
    digit_val(s[5]) * 10 + digit_val(s[6])
}

pub open spec fn date_lit_day(s: Seq<char>) -> int {
    digit_val(s[8]) * 10 + digit_val(s[9])
}

impl Date {
    /// Parses `YYYY-MM-DD`, rejecting out-of-range months and days.
    pub fn from_str(s: &str) -> (r: Option<Date>)
        ensures
            (r is Some) <==> date_lit_ok(s@),
            r matches Some(d) ==> {
                &&& d.year == date_lit_year(s@)
                &&& d.month == date_lit_month(s@)
                &&& d.day == date_lit_day(s@)
                &&& d.wf()
            },
    {
        if s.unicode_len() != 10 {
            return None;
        }
        let c0 = s.get_char(0);
        let c1 = s.get_char(1);
        let c2 = s.get_char(2);
        let c3 = s.get_char(3);
        let c4 = s.get_char(4);
        let c5 = s.get_char(5);
        let c6 = s.get_char(6);
        let c7 = s.get_char(7);
        let c8 = s.get_char(8);
        let c9 = s.get_char(9);
        if !(crate::text::is_digit(c0) && crate::text::is_digit(c1) && crate::text::is_digit(c2)
            && crate::text::is_digit(c3) && c4 == '-' && crate::text::is_digit(c5)
            && crate::text::is_digit(c6) && c7 == '-' && crate::text::is_digit(c8)
            && crate::text::is_digit(c9)) {
            return None;
        }
        let year: u32 = (c0 as u32 - 48) * 1000 + (c1 as u32 - 48) * 100 + (c2 as u32 - 48) * 10 + (
        c3 as u32 - 48);
        let month: u32 = (c5 as u32 - 48) * 10 + (c6 as u32 - 48);
        let day: u32 = (c8 as u32 - 48) * 10 + (c9 as u32 - 48);
        if month < 1 || month > 12 {
            return None;
        }
        if day < 1 || day > Date::days_in_month(year, month) {
            return None;
        }
        Some(Date { year, month, day })
    }
}

} // verus!
