//! Calendar arithmetic for the history range filter.
//!
//! Snapshot dates stay strings throughout the engine; parsing happens only
//! here, where a cutoff date must be computed by month or year subtraction
//! with day-of-month clamping, and then rendered back to the zero-padded
//! ISO-8601 form that compares lexicographically in date order.

use vstd::prelude::*;

use chrono::Datelike;

use crate::error::NwError;

verus! {

/// An ASCII decimal digit.
pub open spec fn is_digit(c: char) -> bool {
    48 <= (c as u32) && (c as u32) <= 57
}

/// The numeric value of an ASCII digit.
pub open spec fn digit_val(c: char) -> int {
    (c as u32) - 48
}

/// The zero-padded ISO-8601 shape `YYYY-MM-DD`.
pub open spec fn is_date_str(s: Seq<char>) -> bool {
    &&& s.len() == 10
    &&& is_digit(s[0])
    &&& is_digit(s[1])
    &&& is_digit(s[2])
    &&& is_digit(s[3])
    &&& s[4] == '-'
    &&& is_digit(s[5])
    &&& is_digit(s[6])
    &&& s[7] == '-'
    &&& is_digit(s[8])
    &&& is_digit(s[9])
}

/// The year encoded by a date string.
pub open spec fn date_str_year(s: Seq<char>) -> int {
    digit_val(s[0]) * 1000 + digit_val(s[1]) * 100 + digit_val(s[2]) * 10 + digit_val(s[3])
}

/// The month encoded by a date string.
pub open spec fn date_str_month(s: Seq<char>) -> int {
    digit_val(s[5]) * 10 + digit_val(s[6])
}

/// The day encoded by a date string.
pub open spec fn date_str_day(s: Seq<char>) -> int {
    digit_val(s[8]) * 10 + digit_val(s[9])
}

/// Gregorian leap year rule.
pub open spec fn is_leap_year(year: int) -> bool {
    year % 400 == 0 || (year % 4 == 0 && year % 100 != 0)
}

/// Length of a month; months outside 1..=12 default to 30, as the filter
/// never asks for them.
pub open spec fn days_in_month_s(year: int, month: int) -> int {
    if month == 1 || month == 3 || month == 5 || month == 7 || month == 8 || month == 10 || month
        == 12 {
        31
    } else if month == 4 || month == 6 || month == 9 || month == 11 {
        30
    } else if month == 2 {
        if is_leap_year(year) {
            29
        } else {
            28
        }
    } else {
        30
    }
}

/// A zero-padded date string that encodes a real calendar date.
pub open spec fn is_valid_date_str(s: Seq<char>) -> bool {
    &&& is_date_str(s)
    &&& 1 <= date_str_month(s) <= 12
    &&& 1 <= date_str_day(s) <= days_in_month_s(date_str_year(s), date_str_month(s))
}

/// Number of days in the given month.
pub fn days_in_month(year: i32, month: u32) -> (r: u32)
    requires
        0 <= year,
    ensures
        r == days_in_month_s(year as int, month as int),
{
    match month {
        1 | 3 | 5 | 7 | 8 | 10 | 12 => 31,
        4 | 6 | 9 | 11 => 30,
        2 => {
            if year % 400 == 0 || (year % 4 == 0 && year % 100 != 0) {
                29
            } else {
                28
            }
        },
        _ => 30,
    }
}

/// Year and month after stepping `months` months back: counting months from
/// zero, the new month index is `year * 12 + (month - 1) - months`.
pub open spec fn months_back(year: int, month: int, months: int) -> (int, int) {
    let total = year * 12 + (month - 1) - months;
    (total / 12, total % 12 + 1)
}

/// Step `months` months back from a date, clamping the day to the length of
/// the destination month (March 31 minus one month is the last day of
/// February, never an invalid date).
pub fn subtract_months(year: i32, month: u32, day: u32, months: u32) -> (r: (i32, u32, u32))
    requires
        1 <= year <= 9999,
        1 <= month <= 12,
        1 <= months <= 12,
    ensures
        (r.0 as int, r.1 as int) == months_back(year as int, month as int, months as int),
        year - 1 <= r.0 <= year,
        1 <= r.1 <= 12,
        r.2 == if day <= days_in_month_s(r.0 as int, r.1 as int) {
            day as int
        } else {
            days_in_month_s(r.0 as int, r.1 as int)
        },
        1 <= day ==> 1 <= r.2 <= days_in_month_s(r.0 as int, r.1 as int),
{
    let mut y = year;
    let mut m = month as i32 - months as i32;
    if m <= 0 {
        m = m + 12;
        y = y - 1;
    }
    proof {
        let total = year * 12 + (month - 1) - months;
        assert(total == (y as int) * 12 + (m as int) - 1);
        assert(1 <= m <= 12);
        assert(total / 12 == y as int && total % 12 == m - 1) by (nonlinear_arith)
            requires
                total == (y as int) * 12 + (m as int) - 1,
                1 <= m <= 12,
        ;
    }
    let dim = days_in_month(y, m as u32);
    let d = if day <= dim {
        day
    } else {
        dim
    };
    (y, m as u32, d)
}

/// Step `years` years back, clamping the day against the destination
/// month's length (February 29 becomes February 28 on a non-leap year).
pub fn subtract_years(year: i32, month: u32, day: u32, years: u32) -> (r: (i32, u32, u32))
    requires
        1 <= year <= 9999,
        years < year,
        1 <= month <= 12,
    ensures
        r.0 == year - years,
        r.1 == month,
        r.2 == if day <= days_in_month_s(r.0 as int, r.1 as int) {
            day as int
        } else {
            days_in_month_s(r.0 as int, r.1 as int)
        },
        1 <= day ==> 1 <= r.2 <= days_in_month_s(r.0 as int, r.1 as int),
{
    let y = year - years as i32;
    let dim = days_in_month(y, month);
    let d = if day <= dim {
        day
    } else {
        dim
    };
    (y, month, d)
}

/// The ten characters of the zero-padded ISO-8601 form of a date.
pub open spec fn date_seq(y: int, m: int, d: int) -> Seq<char> {
    seq![
        digit_char(y / 1000),
        digit_char(y / 100 % 10),
        digit_char(y / 10 % 10),
        digit_char(y % 10),
        '-',
        digit_char(m / 10),
        digit_char(m % 10),
        '-',
        digit_char(d / 10),
        digit_char(d % 10),
    ]
}

/// The ASCII digit with value `d`; values outside 0..=9 give '9'.
pub open spec fn digit_char(d: int) -> char {
    if d == 0 {
        '0'
    } else if d == 1 {
        '1'
    } else if d == 2 {
        '2'
    } else if d == 3 {
        '3'
    } else if d == 4 {
        '4'
    } else if d == 5 {
        '5'
    } else if d == 6 {
        '6'
    } else if d == 7 {
        '7'
    } else if d == 8 {
        '8'
    } else {
        '9'
    }
}

/// The one-character string holding the digit `x`.
pub(crate) fn digit_str(x: u32) -> (s: &'static str)
    requires
        x < 10,
    ensures
        s@ == seq![digit_char(x as int)],
{
    proof {
        reveal_strlit("0");
        reveal_strlit("1");
        reveal_strlit("2");
        reveal_strlit("3");
        reveal_strlit("4");
        reveal_strlit("5");
        reveal_strlit("6");
        reveal_strlit("7");
        reveal_strlit("8");
        reveal_strlit("9");
    }
    let s = match x {
        0 => "0",
        1 => "1",
        2 => "2",
        3 => "3",
        4 => "4",
        5 => "5",
        6 => "6",
        7 => "7",
        8 => "8",
        _ => "9",
    };
    proof {
        assert(s@ =~= seq![digit_char(x as int)]);
    }
    s
}

/// Render a date in the zero-padded ISO-8601 form.
pub fn format_ymd(year: i32, month: u32, day: u32) -> (r: String)
    requires
        0 <= year <= 9999,
        month <= 99,
        day <= 99,
    ensures
        r@ == date_seq(year as int, month as int, day as int),
{
    proof {
        reveal_strlit("-");
    }
    let y = year as u32;
    let mut r = digit_str(y / 1000).to_owned();
    r.append(digit_str(y / 100 % 10));
    r.append(digit_str(y / 10 % 10));
    r.append(digit_str(y % 10));
    r.append("-");
    r.append(digit_str(month / 10));
    r.append(digit_str(month % 10));
    r.append("-");
    r.append(digit_str(day / 10));
    r.append(digit_str(day % 10));
    proof {
        assert(r@ =~= date_seq(year as int, month as int, day as int));
    }
    r
}

/// Check a user-supplied date: exactly `YYYY-MM-DD`, zero-padded, naming a
/// real calendar date. The zero-padded shape is what lets the rest of the
/// engine order dates by plain string comparison.
pub fn validate_date(date: &str) -> (r: Result<(), NwError>)
    ensures
        if is_valid_date_str(date@) {
            r == Ok::<(), NwError>(())
        } else {
            r matches Err(NwError::InvalidDate(d)) && d@ == date@
        },
{
    if date.unicode_len() != 10 {
        return Err(NwError::InvalidDate(date.to_owned()));
    }
    let mut i: usize = 0;
    while i < 10
        invariant
            date@.len() == 10,
            i <= 10,
            forall|j: int|
                0 <= j < i ==> if j == 4 || j == 7 {
                    date@[j] == '-'
                } else {
                    is_digit(date@[j])
                },
        decreases 10 - i,
    {
        let c = date.get_char(i);
        if i == 4 || i == 7 {
            if c != '-' {
                return Err(NwError::InvalidDate(date.to_owned()));
            }
        } else {
            let x = c as u32;
            if x < 48 || x > 57 {
                return Err(NwError::InvalidDate(date.to_owned()));
            }
        }
        i += 1;
    }
    let year = digit_at(date, 0) * 1000 + digit_at(date, 1) * 100 + digit_at(date, 2) * 10
        + digit_at(date, 3);
    let month = digit_at(date, 5) * 10 + digit_at(date, 6);
    let day = digit_at(date, 8) * 10 + digit_at(date, 9);
    if month < 1 || month > 12 {
        return Err(NwError::InvalidDate(date.to_owned()));
    }
    let dim = days_in_month(year as i32, month);
    if day < 1 || day > dim {
        return Err(NwError::InvalidDate(date.to_owned()));
    }
    Ok(())
}

/// The numeric value of the digit at position `i`.
fn digit_at(s: &str, i: usize) -> (r: u32)
    requires
        i < s@.len(),
        is_digit(s@[i as int]),
    ensures
        r == digit_val(s@[i as int]),
{
    s.get_char(i) as u32 - 48
}

/// What `chrono` reads out of an anchor date string: year, month and day,
/// or nothing when the string does not parse.
pub uninterp spec fn chrono_parsed(s: Seq<char>) -> Option<(i32, u32, u32)>;

/// Relies on `chrono::NaiveDate::parse_from_str` with format `%Y-%m-%d`,
/// and on the `Datelike` accessors: a parse success is a valid proleptic
/// Gregorian date, so its month is 1..=12 and its day fits the month.
#[verifier::external_body]
pub(crate) fn parse_anchor(s: &str) -> (r: Option<(i32, u32, u32)>)
    ensures
        r == chrono_parsed(s@),
        r matches Some(ymd) ==> 1 <= ymd.1 <= 12 && 1 <= ymd.2
            <= days_in_month_s(ymd.0 as int, ymd.1 as int),
{
    match chrono::NaiveDate::parse_from_str(s, "%Y-%m-%d") {
        Ok(d) => Some((d.year(), d.month(), d.day())),
        Err(_) => None,
    }
}

} // verus!
