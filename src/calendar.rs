//! Calendar days: the ISO text `YYYY-MM-DD` of the log, and the day numbers
//! the status rules count with. The calendar itself is chrono's.

use chrono::{Datelike, NaiveDate};
use vstd::prelude::*;

use crate::text::{digit_char, digit_to_char, digit_value, is_digit, lemma_digit_round_trip};

verus! {

/// The day number chrono gives the civil date `year-month-day` (1 January of
/// year 1 is day 1), or `None` where no such date exists in its calendar.
pub uninterp spec fn ce_day_of(year: int, month: int, day: int) -> Option<i32>;

/// The civil date `(year, month, day)` of day number `n`, or `None` where `n`
/// lies outside chrono's range.
pub uninterp spec fn civil_of(n: int) -> Option<(i32, u32, u32)>;

/// Relies on chrono's `NaiveDate::from_ymd_opt` and `Datelike::num_days_from_ce`:
/// the day number of a civil date, `None` for a date that does not exist.
#[verifier::external_body]
pub(crate) fn day_number(year: i32, month: u32, day: u32) -> (r: Option<i32>)
    ensures
        r == ce_day_of(year as int, month as int, day as int),
{
    match NaiveDate::from_ymd_opt(year, month, day) {
        Some(date) => Some(date.num_days_from_ce()),
        None => None,
    }
}

/// Relies on chrono's `NaiveDate::from_num_days_from_ce_opt` and the `Datelike`
/// accessors `year`, `month`, `day`: the civil date of a day number, whose own
/// day number is that number again.
#[verifier::external_body]
pub(crate) fn civil_date(n: i32) -> (r: Option<(i32, u32, u32)>)
    ensures
        r == civil_of(n as int),
        r matches Some(t) ==> ce_day_of(t.0 as int, t.1 as int, t.2 as int) == Some(n),
{
    match NaiveDate::from_num_days_from_ce_opt(n) {
        Some(date) => Some((date.year(), date.month(), date.day())),
        None => None,
    }
}

/// The year, month and day written in `s` as `YYYY-MM-DD`, if it has that shape.
pub open spec fn iso_fields(s: Seq<char>) -> Option<(int, int, int)> {
    if s.len() == 10 && s[4] == '-' && s[7] == '-' && is_digit(s[0]) && is_digit(s[1])
        && is_digit(s[2]) && is_digit(s[3]) && is_digit(s[5]) && is_digit(s[6]) && is_digit(
        s[8],
    ) && is_digit(s[9]) {
        Some(
            (
                1000 * digit_value(s[0]) + 100 * digit_value(s[1]) + 10 * digit_value(s[2])
                    + digit_value(s[3]),
                10 * digit_value(s[5]) + digit_value(s[6]),
                10 * digit_value(s[8]) + digit_value(s[9]),
            ),
        )
    } else {
        None
    }
}

/// The day number written in `s`: `None` where `s` is not an ISO date of an
/// existing day.
pub open spec fn iso_day(s: Seq<char>) -> Option<i32> {
    match iso_fields(s) {
        Some(t) => ce_day_of(t.0, t.1, t.2),
        None => None,
    }
}

/// `YYYY-MM-DD` for a year of four digits and a month and day of two.
pub open spec fn iso_text(y: int, m: int, d: int) -> Seq<char> {
    seq![
        digit_char(y / 1000),
        digit_char((y / 100) % 10),
        digit_char((y / 10) % 10),
        digit_char(y % 10),
        '-',
        digit_char(m / 10),
        digit_char(m % 10),
        '-',
        digit_char(d / 10),
        digit_char(d % 10),
    ]
}

/// Whether a civil date can be written as `YYYY-MM-DD`.
pub open spec fn writable(t: (i32, u32, u32)) -> bool {
    0 <= t.0 <= 9999 && 1 <= t.1 <= 12 && 1 <= t.2 <= 31
}

/// The ISO text of day number `n`, where it has one.
pub open spec fn day_text(n: int) -> Option<Seq<char>> {
    match civil_of(n) {
        Some(t) => if writable(t) {
            Some(iso_text(t.0 as int, t.1 as int, t.2 as int))
        } else {
            None
        },
        None => None,
    }
}

proof fn lemma_four_digits(y: int)
    requires
        0 <= y <= 9999,
    ensures
        1000 * (y / 1000) + 100 * ((y / 100) % 10) + 10 * ((y / 10) % 10) + y % 10 == y,
        0 <= y / 1000 <= 9,
{
    assert(1000 * (y / 1000) + 100 * ((y / 100) % 10) + 10 * ((y / 10) % 10) + y % 10 == y)
        by (nonlinear_arith)
        requires
            0 <= y <= 9999,
    ;
    assert(0 <= y / 1000 <= 9) by (nonlinear_arith)
        requires
            0 <= y <= 9999,
    ;
}

proof fn lemma_two_digits(m: int)
    requires
        0 <= m <= 99,
    ensures
        10 * (m / 10) + m % 10 == m,
        0 <= m / 10 <= 9,
{
}

/// Reading back the text of a writable date gives that date.
pub proof fn lemma_iso_round_trip(y: int, m: int, d: int)
    requires
        0 <= y <= 9999,
        1 <= m <= 12,
        1 <= d <= 31,
    ensures
        iso_fields(iso_text(y, m, d)) == Some((y, m, d)),
{
    lemma_four_digits(y);
    lemma_two_digits(m);
    lemma_two_digits(d);
    lemma_digit_round_trip(y / 1000);
    lemma_digit_round_trip((y / 100) % 10);
    lemma_digit_round_trip((y / 10) % 10);
    lemma_digit_round_trip(y % 10);
    lemma_digit_round_trip(m / 10);
    lemma_digit_round_trip(m % 10);
    lemma_digit_round_trip(d / 10);
    lemma_digit_round_trip(d % 10);
}

/// Reads `s[start..end]` as `YYYY-MM-DD`: its year, month and day, whether
/// or not that day exists.
pub fn parse_civil(s: &[char], start: usize, end: usize) -> (r: Option<(i32, u32, u32)>)
    requires
        start <= end <= s@.len(),
    ensures
        match r {
            Some(t) => iso_fields(s@.subrange(start as int, end as int)) == Some(
                (t.0 as int, t.1 as int, t.2 as int),
            ),
            None => iso_fields(s@.subrange(start as int, end as int)) is None,
        },
{
    let ghost f = s@.subrange(start as int, end as int);
    if end - start != 10 {
        return None;
    }
    let mut i: usize = 0;
    while i < 10
        invariant
            i <= 10,
            end - start == 10,
            start <= end <= s@.len(),
            f == s@.subrange(start as int, end as int),
            forall|j: int| 0 <= j < i && j != 4 && j != 7 ==> is_digit(#[trigger] f[j]),
        decreases 10 - i,
    {
        let c = s[start + i];
        if i != 4 && i != 7 && !('0' <= c && c <= '9') {
            return None;
        }
        i = i + 1;
    }
    if s[start + 4] != '-' || s[start + 7] != '-' {
        return None;
    }
    let y: u32 = 1000 * (s[start] as u32 - 48) + 100 * (s[start + 1] as u32 - 48) + 10 * (
    s[start + 2] as u32 - 48) + (s[start + 3] as u32 - 48);
    let m: u32 = 10 * (s[start + 5] as u32 - 48) + (s[start + 6] as u32 - 48);
    let d: u32 = 10 * (s[start + 8] as u32 - 48) + (s[start + 9] as u32 - 48);
    Some((y as i32, m, d))
}

/// Reads the ISO date in `s[start..end]` and gives its day number.
pub fn parse_day(s: &[char], start: usize, end: usize) -> (r: Option<i32>)
    requires
        start <= end <= s@.len(),
    ensures
        r == iso_day(s@.subrange(start as int, end as int)),
{
    match parse_civil(s, start, end) {
        None => None,
        Some(t) => day_number(t.0, t.1, t.2),
    }
}

/// Writes a civil date as `YYYY-MM-DD`; `None` where its year is not one of
/// four digits, or its month or day is out of range.
pub fn write_civil(y: i32, m: u32, d: u32) -> (r: Option<Vec<char>>)
    ensures
        match r {
            Some(v) => writable((y, m, d)) && v@ == iso_text(y as int, m as int, d as int),
            None => !writable((y, m, d)),
        },
{
    if !(0 <= y && y <= 9999 && 1 <= m && m <= 12 && 1 <= d && d <= 31) {
        return None;
    }
    let yy = y as u32;
    let mut v: Vec<char> = Vec::new();
    v.push(digit_to_char(yy / 1000));
    v.push(digit_to_char((yy / 100) % 10));
    v.push(digit_to_char((yy / 10) % 10));
    v.push(digit_to_char(yy % 10));
    v.push('-');
    v.push(digit_to_char(m / 10));
    v.push(digit_to_char(m % 10));
    v.push('-');
    v.push(digit_to_char(d / 10));
    v.push(digit_to_char(d % 10));
    proof {
        assert(v@ =~= iso_text(y as int, m as int, d as int));
    }
    Some(v)
}

/// Writes day number `n` as `YYYY-MM-DD`; `None` where its year is not one of
/// four digits or chrono has no date for it.
pub fn format_day(n: i32) -> (r: Option<Vec<char>>)
    ensures
        match r {
            Some(v) => day_text(n as int) == Some(v@) && iso_day(v@) == Some(n),
            None => day_text(n as int) is None,
        },
{
    match civil_date(n) {
        None => None,
        Some(t) => {
            let r = write_civil(t.0, t.1, t.2);
            proof {
                if r is Some {
                    lemma_iso_round_trip(t.0 as int, t.1 as int, t.2 as int);
                }
            }
            r
        },
    }
}

} // verus!
