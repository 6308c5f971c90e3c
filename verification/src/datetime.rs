//! The fixed `YYYYMMDDTHHMMSS` date-time layout and its parser.

use vstd::prelude::*;

verus! {

/// The calendar date and time-of-day fields carried by one date-time value.
#[derive(Clone, Copy, Debug, PartialEq, Eq, Structural)]
pub struct DateTimeFields {
    pub year: u16,
    pub month: u8,
    pub day: u8,
    pub hour: u8,
    pub minute: u8,
    pub second: u8,
}

pub open spec fn is_leap_year(y: int) -> bool {
    y % 4 == 0 && (y % 100 != 0 || y % 400 == 0)
}

pub open spec fn days_in_month(y: int, m: int) -> int {
    if m == 2 {
        if is_leap_year(y) {
            29
        } else {
            28
        }
    } else if m == 4 || m == 6 || m == 9 || m == 11 {
        30
    } else {
        31
    }
}

/// A well-formed calendar date and time of day: the month exists, the day
/// exists in that month of that year (leap years included), and the time of
/// day is within a day.
pub open spec fn valid_fields(f: DateTimeFields) -> bool {
    &&& f.year <= 9999
    &&& 1 <= f.month <= 12
    &&& 1 <= f.day <= days_in_month(f.year as int, f.month as int)
    &&& f.hour <= 23
    &&& f.minute <= 59
    &&& f.second <= 59
}

pub open spec fn is_digit(c: char) -> bool {
    48 <= c as int <= 57
}

pub open spec fn digit(c: char) -> int {
    c as int - 48
}

/// The shape of the one accepted layout: exactly fifteen characters, a
/// literal `T` between date and time, digits everywhere else.
pub open spec fn dt_layout_ok(s: Seq<char>) -> bool {
    &&& s.len() == 15
    &&& s[8] == 'T'
    &&& forall|i: int| 0 <= i < 15 && i != 8 ==> is_digit(#[trigger] s[i])
}

/// The fields spelled by a text in the accepted layout.
pub open spec fn dt_fields_of(s: Seq<char>) -> DateTimeFields {
    DateTimeFields {
        year: (digit(s[0]) * 1000 + digit(s[1]) * 100 + digit(s[2]) * 10 + digit(s[3])) as u16,
        month: (digit(s[4]) * 10 + digit(s[5])) as u8,
        day: (digit(s[6]) * 10 + digit(s[7])) as u8,
        hour: (digit(s[9]) * 10 + digit(s[10])) as u8,
        minute: (digit(s[11]) * 10 + digit(s[12])) as u8,
        second: (digit(s[13]) * 10 + digit(s[14])) as u8,
    }
}

/// What parsing a date-time text returns: the spelled fields when the text
/// has the accepted layout and names a real date and time, nothing otherwise.
pub open spec fn parse_date_time_spec(s: Seq<char>) -> Option<DateTimeFields> {
    if dt_layout_ok(s) && valid_fields(dt_fields_of(s)) {
        Some(dt_fields_of(s))
    } else {
        None
    }
}

/// The character spelling one decimal digit.
pub open spec fn digit_char(d: int) -> char {
    ((48 + d) as u8) as char
}

/// The fifteen-character rendering of a set of fields in the accepted
/// layout.
pub open spec fn dt_text(f: DateTimeFields) -> Seq<char> {
    seq![
        digit_char(f.year as int / 1000),
        digit_char((f.year as int / 100) % 10),
        digit_char((f.year as int / 10) % 10),
        digit_char(f.year as int % 10),
        digit_char(f.month as int / 10),
        digit_char(f.month as int % 10),
        digit_char(f.day as int / 10),
        digit_char(f.day as int % 10),
        'T',
        digit_char(f.hour as int / 10),
        digit_char(f.hour as int % 10),
        digit_char(f.minute as int / 10),
        digit_char(f.minute as int % 10),
        digit_char(f.second as int / 10),
        digit_char(f.second as int % 10),
    ]
}

pub proof fn lemma_digit_char(d: int)
    requires
        0 <= d <= 9,
    ensures
        is_digit(digit_char(d)),
        digit(digit_char(d)) == d,
{
}

/// Recombining a two-digit split returns the value.
proof fn lemma_split2(v: int)
    requires
        0 <= v <= 99,
    ensures
        (v / 10) * 10 + v % 10 == v,
{
    vstd::arithmetic::div_mod::lemma_fundamental_div_mod(v, 10);
}

/// Recombining a four-digit split returns the value.
proof fn lemma_split4(y: int)
    requires
        0 <= y <= 9999,
    ensures
        (y / 1000) * 1000 + ((y / 100) % 10) * 100 + ((y / 10) % 10) * 10 + y % 10 == y,
{
    vstd::arithmetic::div_mod::lemma_fundamental_div_mod(y, 10);
    vstd::arithmetic::div_mod::lemma_fundamental_div_mod(y / 10, 10);
    vstd::arithmetic::div_mod::lemma_fundamental_div_mod(y / 100, 10);
    vstd::arithmetic::div_mod::lemma_div_denominator(y, 10, 10);
    vstd::arithmetic::div_mod::lemma_div_denominator(y, 100, 10);
}

/// Rendering well-formed fields and parsing the text back returns exactly
/// those fields.
#[verifier::rlimit(60)]
pub proof fn lemma_dt_text_round_trip(f: DateTimeFields)
    requires
        valid_fields(f),
    ensures
        parse_date_time_spec(dt_text(f)) == Some(f),
{
    let s = dt_text(f);
    let y = f.year as int;
    lemma_digit_char(y / 1000);
    lemma_digit_char((y / 100) % 10);
    lemma_digit_char((y / 10) % 10);
    lemma_digit_char(y % 10);
    lemma_digit_char(f.month as int / 10);
    lemma_digit_char(f.month as int % 10);
    lemma_digit_char(f.day as int / 10);
    lemma_digit_char(f.day as int % 10);
    lemma_digit_char(f.hour as int / 10);
    lemma_digit_char(f.hour as int % 10);
    lemma_digit_char(f.minute as int / 10);
    lemma_digit_char(f.minute as int % 10);
    lemma_digit_char(f.second as int / 10);
    lemma_digit_char(f.second as int % 10);
    assert forall|i: int| 0 <= i < 15 && i != 8 implies is_digit(#[trigger] s[i]) by {
        if i == 0 {
            assert(is_digit(s[0]));
        } else if i == 1 {
            assert(is_digit(s[1]));
        } else if i == 2 {
            assert(is_digit(s[2]));
        } else if i == 3 {
            assert(is_digit(s[3]));
        } else if i == 4 {
            assert(is_digit(s[4]));
        } else if i == 5 {
            assert(is_digit(s[5]));
        } else if i == 6 {
            assert(is_digit(s[6]));
        } else if i == 7 {
            assert(is_digit(s[7]));
        } else if i == 9 {
            assert(is_digit(s[9]));
        } else if i == 10 {
            assert(is_digit(s[10]));
        } else if i == 11 {
            assert(is_digit(s[11]));
        } else if i == 12 {
            assert(is_digit(s[12]));
        } else if i == 13 {
            assert(is_digit(s[13]));
        } else {
            assert(is_digit(s[14]));
        }
    }
    assert(dt_layout_ok(s));
    let g = dt_fields_of(s);
    assert(g.year == f.year) by {
        lemma_split4(y);
    }
    assert(g.month == f.month) by {
        lemma_split2(f.month as int);
    }
    assert(g.day == f.day) by {
        lemma_split2(f.day as int);
    }
    assert(g.hour == f.hour) by {
        lemma_split2(f.hour as int);
    }
    assert(g.minute == f.minute) by {
        lemma_split2(f.minute as int);
    }
    assert(g.second == f.second) by {
        lemma_split2(f.second as int);
    }
    assert(g == f);
}

fn digit_of(c: char) -> (r: Option<u8>)
    ensures
        match r {
            Some(d) => is_digit(c) && d == digit(c),
            None => !is_digit(c),
        },
{
    let d = c as u32;
    if 48 <= d && d <= 57 {
        Some((d - 48) as u8)
    } else {
        None
    }
}

fn two_digits(s: &str, i: usize) -> (r: Option<u8>)
    requires
        i < usize::MAX,
        i + 1 < s@.len(),
    ensures
        match r {
            Some(d) => {
                &&& is_digit(s@[i as int])
                &&& is_digit(s@[i + 1])
                &&& d == digit(s@[i as int]) * 10 + digit(s@[i + 1])
            },
            None => !(is_digit(s@[i as int]) && is_digit(s@[i + 1])),
        },
{
    let hi = digit_of(s.get_char(i));
    let lo = digit_of(s.get_char(i + 1));
    match (hi, lo) {
        (Some(h), Some(l)) => Some(h * 10 + l),
        _ => None,
    }
}

fn is_leap_year_x(y: u16) -> (r: bool)
    ensures
        r == is_leap_year(y as int),
{
    y % 4 == 0 && (y % 100 != 0 || y % 400 == 0)
}

fn days_in_month_x(y: u16, m: u8) -> (r: u8)
    ensures
        r == days_in_month(y as int, m as int),
{
    if m == 2 {
        if is_leap_year_x(y) {
            29
        } else {
            28
        }
    } else if m == 4 || m == 6 || m == 9 || m == 11 {
        30
    } else {
        31
    }
}

/// Parse a text against the fixed layout `YYYYMMDDTHHMMSS`: 4-digit year,
/// 2-digit month, day, literal `T`, 2-digit hour, minute, second. Any other
/// shape, and any date or time that does not exist, is rejected.
pub fn parse_date_time(s: &str) -> (r: Option<DateTimeFields>)
    ensures
        r == parse_date_time_spec(s@),
{
    if s.unicode_len() != 15 {
        return None;
    }
    if s.get_char(8) != 'T' {
        return None;
    }
    let y_hi = match two_digits(s, 0) {
        Some(d) => d,
        None => { return None; },
    };
    let y_lo = match two_digits(s, 2) {
        Some(d) => d,
        None => { return None; },
    };
    let month = match two_digits(s, 4) {
        Some(d) => d,
        None => { return None; },
    };
    let day = match two_digits(s, 6) {
        Some(d) => d,
        None => { return None; },
    };
    let hour = match two_digits(s, 9) {
        Some(d) => d,
        None => { return None; },
    };
    let minute = match two_digits(s, 11) {
        Some(d) => d,
        None => { return None; },
    };
    let second = match two_digits(s, 13) {
        Some(d) => d,
        None => { return None; },
    };
    let year: u16 = y_hi as u16 * 100 + y_lo as u16;
    let f = DateTimeFields { year, month, day, hour, minute, second };
    assert(dt_layout_ok(s@));
    assert(f == dt_fields_of(s@));
    if month < 1 || month > 12 {
        return None;
    }
    if day < 1 || day > days_in_month_x(year, month) {
        return None;
    }
    if hour > 23 || minute > 59 || second > 59 {
        return None;
    }
    Some(f)
}

} // verus!
