//! Time windows: the half-open-exclusive selection interval, and the
//! calendar-day constructor interpreted in a fixed UTC offset.

use vstd::prelude::*;
use crate::decimal::{is_digit, digit_val};
use crate::frames::in_window;
use vstd::arithmetic::div_mod::lemma_fundamental_div_mod;

verus! {

/// Seconds the fixed `-04:00` offset lies west of UTC: calendar days are
/// interpreted at this offset, with no daylight-saving correction.
pub const UTC_OFFSET_WEST_SECONDS: i64 = 14400;

/// A selection interval in epoch seconds; the selection predicate is
/// strict on both ends.
pub struct TimeWindow {
    pub start: i64,
    pub end: i64,
}

impl TimeWindow {
    /// Whether `ts` lies strictly inside the window.
    pub fn contains(&self, ts: i64) -> (r: bool)
        ensures
            r == in_window(self.start as int, self.end as int, ts as int),
    {
        self.start < ts && ts < self.end
    }
}

/// Proleptic-Gregorian leap year.
pub open spec fn is_leap_year(y: int) -> bool {
    y % 4 == 0 && (y % 100 != 0 || y % 400 == 0)
}

/// Days of month `m` in year `y`.
pub open spec fn days_in_month(y: int, m: int) -> int {
    if m == 2 {
        if is_leap_year(y) {
            29
        } else {
            28
        }
    } else if m == 4 || m == 6 || m == 9 || m == 11 {
        30
    } else {
        31
    }
}

/// A calendar date the service accepts.
pub open spec fn valid_date(y: int, m: int, d: int) -> bool {
    1 <= y <= 9999 && 1 <= m <= 12 && 1 <= d <= days_in_month(y, m)
}

/// Days from 1970-01-01 to `y-m-d` in the proleptic Gregorian calendar.
pub open spec fn days_from_civil(y: int, m: int, d: int) -> int {
    let yy = if m <= 2 {
        y - 1
    } else {
        y
    };
    let era = yy / 400;
    let yoe = yy - era * 400;
    let mp = if m > 2 {
        m - 3
    } else {
        m + 9
    };
    let doy = (153 * mp + 2) / 5 + d - 1;
    let doe = yoe * 365 + yoe / 4 - yoe / 100 + doy;
    era * 146097 + doe - 719468
}

/// `s` has the `YYYY-MM-DD` shape.
pub open spec fn day_str_valid(s: Seq<char>) -> bool {
    &&& s.len() == 10
    &&& is_digit(s[0])
    &&& is_digit(s[1])
    &&& is_digit(s[2])
    &&& is_digit(s[3])
    &&& s[4] == '-'
    &&& is_digit(s[5])
    &&& is_digit(s[6])
    &&& s[7] == '-'
    &&& is_digit(s[8])
    &&& is_digit(s[9])
}

/// The year named by a well-shaped day string.
pub open spec fn day_str_year(s: Seq<char>) -> int {
    digit_val(s[0]) as int * 1000 + digit_val(s[1]) as int * 100 + digit_val(s[2]) as int * 10 + digit_val(s[3]) as int
}

/// The month named by a well-shaped day string.
pub open spec fn day_str_month(s: Seq<char>) -> int {
    digit_val(s[5]) as int * 10 + digit_val(s[6]) as int
}

/// The day of month named by a well-shaped day string.
pub open spec fn day_str_dom(s: Seq<char>) -> int {
    digit_val(s[8]) as int * 10 + digit_val(s[9]) as int
}

/// The window of one calendar day at the fixed offset: from its local
/// `00:00:00` to its local `23:59:59`, as epoch seconds.
pub open spec fn day_window_spec(s: Seq<char>) -> Option<(int, int)> {
    if day_str_valid(s) && valid_date(day_str_year(s), day_str_month(s), day_str_dom(s)) {
        let start = days_from_civil(day_str_year(s), day_str_month(s), day_str_dom(s)) * 86400
            + UTC_OFFSET_WEST_SECONDS;
        Some((start, start + 86399))
    } else {
        None
    }
}

/// Days in a month, executable.
fn days_in_month_x(y: u64, m: u64) -> (r: u64)
    requires
        1 <= m <= 12,
    ensures
        r == days_in_month(y as int, m as int),
{
    if m == 2 {
        if y % 4 == 0 && (y % 100 != 0 || y % 400 == 0) {
            29
        } else {
            28
        }
    } else if m == 4 || m == 6 || m == 9 || m == 11 {
        30
    } else {
        31
    }
}

/// Days from the epoch, executable.
fn civil_days(y: u64, m: u64, d: u64) -> (r: i64)
    requires
        valid_date(y as int, m as int, d as int),
    ensures
        r == days_from_civil(y as int, m as int, d as int),
        -719163 <= r <= 2932896,
{
    let yy: u64 = if m <= 2 {
        y - 1
    } else {
        y
    };
    let era: u64 = yy / 400;
    let yoe: u64 = yy % 400;
    proof {
        lemma_fundamental_div_mod(yy as int, 400);
    }
    let mp: u64 = if m > 2 {
        m - 3
    } else {
        m + 9
    };
    let doy: u64 = (153 * mp + 2) / 5 + d - 1;
    let doe: u64 = yoe * 365 + yoe / 4 - yoe / 100 + doy;
    (era * 146097 + doe) as i64 - 719468
}

/// Parse a `YYYY-MM-DD` day and give its selection window at the fixed
/// offset; malformed shapes and impossible dates yield nothing.
pub fn day_window(day: &str) -> (r: Option<TimeWindow>)
    ensures
        match r {
            Some(w) => day_window_spec(day@) == Some((w.start as int, w.end as int)),
            None => day_window_spec(day@) is None,
        },
{
    let n: usize = day.unicode_len();
    if n != 10 {
        return None;
    }
    let c4: char = day.get_char(4);
    let c7: char = day.get_char(7);
    if !(c4 == '-' && c7 == '-') {
        return None;
    }
    let d0: u64 = match digit_at(day, 0) {
        Some(v) => v,
        None => {
            return None;
        },
    };
    let d1: u64 = match digit_at(day, 1) {
        Some(v) => v,
        None => {
            return None;
        },
    };
    let d2: u64 = match digit_at(day, 2) {
        Some(v) => v,
        None => {
            return None;
        },
    };
    let d3: u64 = match digit_at(day, 3) {
        Some(v) => v,
        None => {
            return None;
        },
    };
    let d5: u64 = match digit_at(day, 5) {
        Some(v) => v,
        None => {
            return None;
        },
    };
    let d6: u64 = match digit_at(day, 6) {
        Some(v) => v,
        None => {
            return None;
        },
    };
    let d8: u64 = match digit_at(day, 8) {
        Some(v) => v,
        None => {
            return None;
        },
    };
    let d9: u64 = match digit_at(day, 9) {
        Some(v) => v,
        None => {
            return None;
        },
    };
    let y: u64 = d0 * 1000 + d1 * 100 + d2 * 10 + d3;
    let m: u64 = d5 * 10 + d6;
    let d: u64 = d8 * 10 + d9;
    if y == 0 || m == 0 || m > 12 || d == 0 || d > days_in_month_x(y, m) {
        return None;
    }
    let days: i64 = civil_days(y, m, d);
    let start: i64 = days * 86400 + UTC_OFFSET_WEST_SECONDS;
    Some(TimeWindow { start, end: start + 86399 })
}

/// The digit at character position `i`, when it is one.
fn digit_at(s: &str, i: usize) -> (r: Option<u64>)
    requires
        i < s@.len(),
    ensures
        match r {
            Some(v) => is_digit(s@[i as int]) && v == digit_val(s@[i as int]),
            None => !is_digit(s@[i as int]),
        },
{
    let c: char = s.get_char(i);
    let cv: u32 = c as u32;
    if 48 <= cv && cv <= 57 {
        Some((cv - 48) as u64)
    } else {
        None
    }
}

} // verus!
