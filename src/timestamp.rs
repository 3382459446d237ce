use vstd::prelude::*;
use crate::sample::{digit_value, is_ascii_digit, is_digit};
use crate::text::{chars_of, is_space, is_space_char};

verus! {

/// A wall-clock time as written in the export: calendar date, hour and minute.
#[derive(Clone, Copy, PartialEq, Eq, Structural, Debug)]
pub struct LocalTime {
    pub year: u32,
    pub month: u32,
    pub day: u32,
    pub hour: u32,
    pub minute: u32,
}

/// The offset of the export's clock from UTC, in milliseconds (UTC+8).
pub const OFFSET_MS: i64 = 28800000;

/// One or two digits at `i` followed by `marker`: their value and the index after the marker.
/// Two digits are tried before one.
pub open spec fn number_before(s: Seq<char>, i: int, marker: char) -> Option<(u32, int)> {
    if 0 <= i && i + 2 < s.len() && is_digit(s[i]) && is_digit(s[i + 1]) && s[i + 2] == marker {
        Some(((10 * digit_value(s[i]) + digit_value(s[i + 1])) as u32, i + 3))
    } else if 0 <= i && i + 1 < s.len() && is_digit(s[i]) && s[i + 1] == marker {
        Some((digit_value(s[i]) as u32, i + 2))
    } else {
        None
    }
}

/// The first index at or after `j` that does not hold white space.
pub open spec fn skip_spaces(s: Seq<char>, j: int) -> int
    decreases s.len() - j,
{
    if 0 <= j < s.len() && is_space(s[j]) {
        skip_spaces(s, j + 1)
    } else {
        j
    }
}

/// The value of four decimal digits at `p`.
pub open spec fn year_at(s: Seq<char>, p: int) -> u32 {
    (1000 * digit_value(s[p]) + 100 * digit_value(s[p + 1]) + 10 * digit_value(s[p + 2])
        + digit_value(s[p + 3])) as u32
}

/// The time written at `p` as `YYYY年M月D日 H:MM` (month, day and hour with one or two
/// digits, at least one white space before the hour); what follows the minute is not read.
pub open spec fn match_at(s: Seq<char>, p: int) -> Option<LocalTime> {
    if 0 <= p && p + 4 < s.len() && is_digit(s[p]) && is_digit(s[p + 1]) && is_digit(s[p + 2])
        && is_digit(s[p + 3]) && s[p + 4] == '年' {
        match number_before(s, p + 5, '月') {
            Some((month, i)) => match number_before(s, i, '日') {
                Some((day, j)) => {
                    let k = skip_spaces(s, j);
                    if k > j {
                        match number_before(s, k, ':') {
                            Some((hour, m)) => if m + 1 < s.len() && is_digit(s[m]) && is_digit(
                                s[m + 1],
                            ) {
                                Some(
                                    LocalTime {
                                        year: year_at(s, p),
                                        month,
                                        day,
                                        hour,
                                        minute: (10 * digit_value(s[m]) + digit_value(
                                            s[m + 1],
                                        )) as u32,
                                    },
                                )
                            } else {
                                None
                            },
                            None => None,
                        }
                    } else {
                        None
                    }
                },
                None => None,
            },
            None => None,
        }
    } else {
        None
    }
}

/// The leftmost time written in `s` at or after `p`.
pub open spec fn first_match(s: Seq<char>, p: int) -> Option<LocalTime>
    decreases s.len() - p,
{
    if p < 0 || p >= s.len() {
        None
    } else {
        match match_at(s, p) {
            Some(t) => Some(t),
            None => first_match(s, p + 1),
        }
    }
}

pub open spec fn is_leap_year(y: int) -> bool {
    (y % 4 == 0 && y % 100 != 0) || y % 400 == 0
}

pub open spec fn days_in_month(y: int, m: int) -> int {
    if m == 2 {
        if is_leap_year(y) {
            29
        } else {
            28
        }
    } else if m == 4 || m == 6 || m == 9 || m == 11 {
        30
    } else {
        31
    }
}

/// Whether year, month and day name a day of the proleptic Gregorian calendar.
pub open spec fn is_valid_date(y: int, m: int, d: int) -> bool {
    1 <= m <= 12 && 1 <= d <= days_in_month(y, m)
}

/// Days from 1970-01-01 to the given date of the proleptic Gregorian calendar.
pub open spec fn days_from_civil(y: int, m: int, d: int) -> int {
    let y1 = if m <= 2 { y - 1 } else { y };
    let era = y1 / 400;
    let yoe = y1 - era * 400;
    let mp = if m > 2 { m - 3 } else { m + 9 };
    let doy = (153 * mp + 2) / 5 + d - 1;
    let doe = yoe * 365 + yoe / 4 - yoe / 100 + doy;
    era * 146097 + doe - 719468
}

/// Milliseconds since the Unix epoch of `t` read as a UTC time, if `t` is a valid date and
/// time of day.
pub open spec fn naive_millis_of(t: LocalTime) -> Option<int> {
    if is_valid_date(t.year as int, t.month as int, t.day as int) && t.hour < 24 && t.minute < 60 {
        Some(
            days_from_civil(t.year as int, t.month as int, t.day as int) * 86400000 + t.hour
                * 3600000 + t.minute * 60000,
        )
    } else {
        None
    }
}

/// Milliseconds since the Unix epoch of the UTC instant of `t`, read as UTC+8, if `t` is a
/// valid date and time of day.
pub open spec fn utc_millis_of(t: LocalTime) -> Option<int> {
    match naive_millis_of(t) {
        Some(m) => Some(m - OFFSET_MS),
        None => None,
    }
}

/// The instant that a line holds, in milliseconds since the Unix epoch.
pub open spec fn stamp_of(line: Seq<char>) -> Option<int> {
    match first_match(line, 0) {
        Some(t) => utc_millis_of(t),
        None => None,
    }
}

fn digit_at(s: &Vec<char>, i: usize) -> (r: u32)
    requires
        i < s@.len(),
        is_digit(s@[i as int]),
    ensures
        r as nat == digit_value(s@[i as int]),
        r < 10,
{
    s[i] as u32 - 48
}

fn number_before_at(s: &Vec<char>, i: usize, marker: char) -> (r: Option<(u32, usize)>)
    ensures
        match r {
            Some((v, e)) => number_before(s@, i as int, marker) == Some((v, e as int)),
            None => number_before(s@, i as int, marker) is None,
        },
{
    let n = s.len();
    if i < n && n - i > 2 && is_ascii_digit(s[i]) && is_ascii_digit(s[i + 1]) && s[i + 2] == marker {
        Some((10 * digit_at(s, i) + digit_at(s, i + 1), i + 3))
    } else if i < n && n - i > 1 && is_ascii_digit(s[i]) && s[i + 1] == marker {
        Some((digit_at(s, i), i + 2))
    } else {
        None
    }
}

fn skip_spaces_from(s: &Vec<char>, j: usize) -> (r: usize)
    requires
        j <= s@.len(),
    ensures
        r as int == skip_spaces(s@, j as int),
        j <= r <= s@.len(),
{
    let mut k = j;
    while k < s.len() && is_space_char(s[k])
        invariant
            j <= k <= s@.len(),
            skip_spaces(s@, j as int) == skip_spaces(s@, k as int),
        decreases s@.len() - k,
    {
        k = k + 1;
    }
    k
}

fn match_at_index(s: &Vec<char>, p: usize) -> (r: Option<LocalTime>)
    ensures
        r == match_at(s@, p as int),
{
    let n = s.len();
    if !(p < n && n - p > 4 && is_ascii_digit(s[p]) && is_ascii_digit(s[p + 1]) && is_ascii_digit(
        s[p + 2],
    ) && is_ascii_digit(s[p + 3]) && s[p + 4] == '年') {
        return None;
    }
    let year = 1000 * digit_at(s, p) + 100 * digit_at(s, p + 1) + 10 * digit_at(s, p + 2)
        + digit_at(s, p + 3);
    let (month, i) = match number_before_at(s, p + 5, '月') {
        Some(x) => x,
        None => return None,
    };
    let (day, j) = match number_before_at(s, i, '日') {
        Some(x) => x,
        None => return None,
    };
    let k = skip_spaces_from(s, j);
    if k == j {
        return None;
    }
    let (hour, m) = match number_before_at(s, k, ':') {
        Some(x) => x,
        None => return None,
    };
    if m < n && n - m > 1 && is_ascii_digit(s[m]) && is_ascii_digit(s[m + 1]) {
        let minute = 10 * digit_at(s, m) + digit_at(s, m + 1);
        Some(LocalTime { year, month, day, hour, minute })
    } else {
        None
    }
}

/// The leftmost wall-clock time written in `s`.
fn find_local_time(s: &Vec<char>) -> (r: Option<LocalTime>)
    ensures
        r == first_match(s@, 0),
        r matches Some(t) ==> t.year <= 9999,
{
    let mut p: usize = 0;
    while p < s.len()
        invariant
            p <= s@.len(),
            first_match(s@, 0) == first_match(s@, p as int),
        decreases s@.len() - p,
    {
        let r = match_at_index(s, p);
        if r.is_some() {
            return r;
        }
        p = p + 1;
    }
    None
}

/// The UTC instant, in milliseconds since the Unix epoch, of the first `YYYY年M月D日 H:MM`
/// written in a line, read as UTC+8; `None` where there is none or it names no real date
/// or time of day.
pub fn parse_chinese_datetime(line: &str) -> (r: Option<i64>)
    ensures
        match r {
            Some(m) => stamp_of(line@) == Some(m as int),
            None => stamp_of(line@) is None,
        },
        r matches Some(m) ==> m % 60000 == 0,
{
    let chars = chars_of(line);
    timestamp_in(&chars)
}

/// The instant that `line` holds; see `parse_chinese_datetime`.
pub fn timestamp_in(line: &Vec<char>) -> (r: Option<i64>)
    ensures
        match r {
            Some(m) => stamp_of(line@) == Some(m as int),
            None => stamp_of(line@) is None,
        },
        r matches Some(m) ==> m % 60000 == 0,
{
    match find_local_time(line) {
        Some(t) => {
            proof {
                lemma_whole_minutes(t);
            }
            match millis_read_as_utc(t) {
                Some(m) => {
                    proof {
                        lemma_days_from_year_zero(t.year as int, t.month as int, t.day as int);
                    }
                    Some(m - OFFSET_MS)
                },
                None => None,
            }
        },
        None => None,
    }
}

/// No date from year 0 on lies more than 1,000,000 days before the Unix epoch.
proof fn lemma_days_from_year_zero(y: int, m: int, d: int)
    requires
        0 <= y,
        1 <= m <= 12,
        1 <= d,
    ensures
        days_from_civil(y, m, d) >= -1000000,
{
    let y1 = if m <= 2 { y - 1 } else { y };
    let era = y1 / 400;
    let yoe = y1 - era * 400;
    let mp = if m > 2 { m - 3 } else { m + 9 };
    assert(era >= -1);
    assert(0 <= yoe < 400);
    assert(yoe / 4 >= yoe / 100);
    assert(0 <= mp);
    assert((153 * mp + 2) / 5 >= 0);
    assert(era * 146097 >= -146097);
}

/// Every instant read from a line falls on a whole minute.
pub proof fn lemma_whole_minutes(t: LocalTime)
    ensures
        utc_millis_of(t) matches Some(m) ==> m % 60000 == 0,
{
    if utc_millis_of(t) is Some {
        let d = days_from_civil(t.year as int, t.month as int, t.day as int);
        let h = t.hour as int;
        let mi = t.minute as int;
        assert(d * 86400000 + h * 3600000 + mi * 60000 - 28800000 == 60000 * (d * 1440 + h * 60
            + mi - 480)) by (nonlinear_arith);
        assert((60000 * (d * 1440 + h * 60 + mi - 480)) % 60000 == 0) by (nonlinear_arith);
    }
}

/// Relies on chrono: `NaiveDate::from_ymd_opt` and `NaiveTime::from_hms_opt` give `None`
/// unless the proleptic Gregorian date and the time of day exist; `NaiveDateTime::and_utc`
/// with `timestamp_millis` counts the milliseconds from 1970-01-01T00:00 to that date and time.
#[verifier::external_body]
fn millis_read_as_utc(t: LocalTime) -> (r: Option<i64>)
    requires
        t.year <= 9999,
    ensures
        match r {
            Some(m) => naive_millis_of(t) == Some(m as int),
            None => naive_millis_of(t) is None,
        },
{
    let date = chrono::NaiveDate::from_ymd_opt(t.year as i32, t.month, t.day)?;
    let time = chrono::NaiveTime::from_hms_opt(t.hour, t.minute, 0)?;
    Some(chrono::NaiveDateTime::new(date, time).and_utc().timestamp_millis())
}

} // verus!
