//! Calendar timestamps of the fiscal operator.
//!
//! The operator reports a transaction instant as text in the fixed format
//! `YYYY-MM-DDTHH:MM:SS`.  A [`Timestamp`] holds the six parsed fields as
//! plain integers; parsing validates the format and the calendar ranges,
//! leap years included.

use vstd::prelude::*;
use crate::text::{digit_char, digit_val, is_digit};
use crate::text::digit_str;

verus! {

/// A calendar date and time-of-day, second precision, no time zone.
#[derive(Clone, Copy, Debug, PartialEq, Eq, Structural)]
pub struct Timestamp {
    pub year: u16,
    pub month: u8,
    pub day: u8,
    pub hour: u8,
    pub minute: u8,
    pub second: u8,
}

/// Gregorian leap years.
pub open spec fn leap_year(y: int) -> bool {
    y % 4 == 0 && (y % 100 != 0 || y % 400 == 0)
}

/// Number of days of month `m` in year `y`.
pub open spec fn days_in_month(y: int, m: int) -> int
    recommends
        1 <= m <= 12,
{
    if m == 2 {
        if leap_year(y) {
            29
        } else {
            28
        }
    } else if m == 4 || m == 6 || m == 9 || m == 11 {
        30
    } else {
        31
    }
}

impl Timestamp {
    /// The fields form a real calendar instant with a four-digit year.
    pub open spec fn valid(self) -> bool {
        &&& self.year <= 9999
        &&& 1 <= self.month <= 12
        &&& 1 <= self.day <= days_in_month(self.year as int, self.month as int)
        &&& self.hour <= 23
        &&& self.minute <= 59
        &&& self.second <= 59
    }
}

/// Value of the two-digit group at position `i`.
pub open spec fn two_val(s: Seq<char>, i: int) -> int {
    digit_val(s[i]) * 10 + digit_val(s[i + 1])
}

/// Value of the four-digit group at position `i`.
pub open spec fn four_val(s: Seq<char>, i: int) -> int {
    digit_val(s[i]) * 1000 + digit_val(s[i + 1]) * 100 + digit_val(s[i + 2]) * 10 + digit_val(
        s[i + 3],
    )
}

/// The text has the shape `YYYY-MM-DDTHH:MM:SS`: correct length,
/// separators in place, digits everywhere else.
pub open spec fn ts_text_wf(s: Seq<char>) -> bool {
    &&& s.len() == 19
    &&& s[4] == '-'
    &&& s[7] == '-'
    &&& s[10] == 'T'
    &&& s[13] == ':'
    &&& s[16] == ':'
    &&& forall|i: int|
        (0 <= i <= 3 || 5 <= i <= 6 || 8 <= i <= 9 || 11 <= i <= 12 || 14 <= i <= 15 || 17 <= i
            <= 18) ==> is_digit(#[trigger] s[i])
}

/// The timestamp encoded by a well-shaped text.
pub open spec fn ts_of(s: Seq<char>) -> Timestamp {
    Timestamp {
        year: four_val(s, 0) as u16,
        month: two_val(s, 5) as u8,
        day: two_val(s, 8) as u8,
        hour: two_val(s, 11) as u8,
        minute: two_val(s, 14) as u8,
        second: two_val(s, 17) as u8,
    }
}

/// The text is a well-shaped timestamp whose fields are in range.
pub open spec fn ts_valid(s: Seq<char>) -> bool {
    ts_text_wf(s) && ts_of(s).valid()
}

/// Digit value at one position of a string.
fn digit_at(s: &str, i: usize) -> (r: Option<u8>)
    requires
        i < s@.len(),
    ensures
        r is Some <==> is_digit(s@[i as int]),
        r is Some ==> r->Some_0 == digit_val(s@[i as int]),
{
    let c = s.get_char(i);
    let cv = c as u32;
    if 48 <= cv && cv <= 57 {
        Some((cv - 48) as u8)
    } else {
        None
    }
}

/// Checks that one position of a string holds the given separator.
fn sep_at(s: &str, i: usize, c: char) -> (r: bool)
    requires
        i < s@.len(),
    ensures
        r == (s@[i as int] == c),
{
    let g = s.get_char(i);
    let r = g as u32 == c as u32;
    proof {
        vstd::utf8::char_u32_cast(g, g as u32);
        vstd::utf8::char_u32_cast(c, c as u32);
    }
    r
}

/// Two-digit group at one position.
fn two_at(s: &str, i: usize) -> (r: Option<u8>)
    requires
        i + 1 < s@.len(),
        s@.len() <= usize::MAX,
    ensures
        r is Some <==> is_digit(s@[i as int]) && is_digit(s@[i + 1]),
        r is Some ==> r->Some_0 == two_val(s@, i as int),
{
    match (digit_at(s, i), digit_at(s, i + 1)) {
        (Some(a), Some(b)) => Some(a * 10 + b),
        _ => None,
    }
}

/// Number of days of a month.
pub fn month_days(y: u16, m: u8) -> (r: u8)
    requires
        1 <= m <= 12,
    ensures
        r == days_in_month(y as int, m as int),
{
    if m == 2 {
        if y % 4 == 0 && (y % 100 != 0 || y % 400 == 0) {
            29
        } else {
            28
        }
    } else if m == 4 || m == 6 || m == 9 || m == 11 {
        30
    } else {
        31
    }
}

/// Parses an operator timestamp of the fixed format `YYYY-MM-DDTHH:MM:SS`,
/// rejecting texts of the wrong shape and impossible calendar values.
pub fn parse_timestamp(s: &str) -> (r: Option<Timestamp>)
    ensures
        r is Some <==> ts_valid(s@),
        r is Some ==> r->Some_0 == ts_of(s@) && r->Some_0.valid(),
{
    let n = s.unicode_len();
    if n != 19 {
        return None;
    }
    if !(sep_at(s, 4, '-') && sep_at(s, 7, '-') && sep_at(s, 10, 'T') && sep_at(s, 13, ':')
        && sep_at(s, 16, ':')) {
        return None;
    }
    let year = match two_at(s, 0) {
        Some(hi) => {
            match two_at(s, 2) {
                Some(lo) => (hi as u16) * 100 + (lo as u16),
                None => { return None; },
            }
        },
        None => { return None; },
    };
    let month = match two_at(s, 5) {
        Some(v) => v,
        None => { return None; },
    };
    let day = match two_at(s, 8) {
        Some(v) => v,
        None => { return None; },
    };
    let hour = match two_at(s, 11) {
        Some(v) => v,
        None => { return None; },
    };
    let minute = match two_at(s, 14) {
        Some(v) => v,
        None => { return None; },
    };
    let second = match two_at(s, 17) {
        Some(v) => v,
        None => { return None; },
    };
    proof {
        assert(year == four_val(s@, 0));
        assert(ts_text_wf(s@));
    }
    if !(1 <= month && month <= 12) {
        return None;
    }
    if !(1 <= day && day <= month_days(year, month)) {
        return None;
    }
    if !(hour <= 23 && minute <= 59 && second <= 59) {
        return None;
    }
    Some(Timestamp { year, month, day, hour, minute, second })
}

/// Two digits with a leading zero.
pub open spec fn pad2(n: int) -> Seq<char>
    recommends
        0 <= n <= 99,
{
    seq![digit_char(n / 10), digit_char(n % 10)]
}

/// Four digits with leading zeros.
pub open spec fn pad4(n: int) -> Seq<char>
    recommends
        0 <= n <= 9999,
{
    seq![
        digit_char(n / 1000),
        digit_char((n / 100) % 10),
        digit_char((n / 10) % 10),
        digit_char(n % 10),
    ]
}

/// The `YYYY.MM.DD` date text stored with each persisted ticket line.
pub open spec fn date_rep(t: Timestamp) -> Seq<char> {
    pad4(t.year as int) + seq!['.'] + pad2(t.month as int) + seq!['.'] + pad2(t.day as int)
}

/// Renders the date part as `YYYY.MM.DD`.
pub fn format_date(t: &Timestamp) -> (r: String)
    requires
        t.valid(),
    ensures
        r@ == date_rep(*t),
{
    let y = t.year as u64;
    let mut s = String::new();
    s.append(digit_str(y / 1000));
    s.append(digit_str((y / 100) % 10));
    s.append(digit_str((y / 10) % 10));
    s.append(digit_str(y % 10));
    proof {
        reveal_strlit(".");
    }
    s.append(".");
    s.append(digit_str((t.month / 10) as u64));
    s.append(digit_str((t.month % 10) as u64));
    s.append(".");
    s.append(digit_str((t.day / 10) as u64));
    s.append(digit_str((t.day % 10) as u64));
    proof {
        assert(s@ =~= date_rep(*t));
    }
    s
}

} // verus!
