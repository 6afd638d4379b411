//! Calendar arithmetic: reading `YYYY-MM-DD` dates and Unix timestamps, and
//! rendering timestamps as `YYYY-MM-DD HH:MM:SS` (UTC).
use vstd::prelude::*;
use crate::text::{decimal, padded, digit_char, push_padded, push_char, chars_of, slice_chars};

verus! {

/// Whether the Gregorian year `y` has a 29th of February.
pub open spec fn is_leap(y: int) -> bool {
    y % 4 == 0 && (y % 100 != 0 || y % 400 == 0)
}

/// Days before year `yoe` (counted from March) inside a 400-year era.
pub open spec fn era_days_before(yoe: int) -> int {
    365 * yoe + yoe / 4 - yoe / 100
}

/// The year of an era (counted from March) that day `doe` of the era falls in.
pub open spec fn year_of_era(doe: int) -> int {
    (doe - doe / 1460 + doe / 36524 - doe / 146096) / 365
}

/// Each day of a 400-year era falls inside the year the formula gives it:
/// at most 365 days after that year's first day, or 364 when the year has
/// no 29th of February.
proof fn lemma_year_of_era(doe: int)
    requires
        0 <= doe < 146097,
    ensures
        0 <= year_of_era(doe) <= 399,
        0 <= doe - era_days_before(year_of_era(doe)),
        doe - era_days_before(year_of_era(doe)) <= if is_leap(year_of_era(doe) + 1) { 365int } else { 364int },
{
    let yoe = year_of_era(doe);
    let q1 = doe / 1460;
    let q2 = doe / 36524;
    let q3 = doe / 146096;
    let t = doe - q1 + q2 - q3;
    assert(yoe == t / 365);
    let p = yoe / 4;
    let c = yoe / 100;
    assert(0 <= q3 <= 1);
    assert(0 <= q2 <= 4);
}


/// Integer division rounding toward zero, as Rust's `/` on signed integers.
pub open spec fn tdiv(a: int, b: int) -> int {
    if a >= 0 {
        a / b
    } else {
        -((-a) / b)
    }
}

/// Days from 1970-01-01 to `y-m-d`, by the Julian-day-number formula a
/// date string is read with (month and day are not range-checked there).
pub open spec fn day_number(y: int, m: int, d: int) -> int {
    let a = tdiv(14 - m, 12);
    let yr = y + 4800 - a;
    let mo = m + 12 * a - 3;
    d + tdiv(153 * mo + 2, 5) + 365 * yr + tdiv(yr, 4) - tdiv(yr, 100) + tdiv(yr, 400) - 32045 - 2440588
}

/// Number of days in month `m` of year `y`.
pub open spec fn days_in_month(y: int, m: int) -> int {
    if m == 2 {
        if is_leap(y) { 29 } else { 28 }
    } else if m == 4 || m == 6 || m == 9 || m == 11 {
        30
    } else {
        31
    }
}

/// `y-m-d` is a calendar date.
pub open spec fn valid_date(y: int, m: int, d: int) -> bool {
    1 <= m <= 12 && 1 <= d <= days_in_month(y, m)
}

/// The date of day `days` after 1970-01-01 (for `days >= 0`), computed by
/// splitting time into 400-year eras of March-based years.
spec fn civil(days: int) -> (int, int, int) {
    let z = days + 719468;
    let era = z / 146097;
    let doe = z - era * 146097;
    let yoe = year_of_era(doe);
    let doy = doe - era_days_before(yoe);
    let mp = (5 * doy + 2) / 153;
    let d = doy - (153 * mp + 2) / 5 + 1;
    let m = if mp < 10 { mp + 3 } else { mp - 9 };
    let y = yoe + era * 400 + if m <= 2 { 1int } else { 0int };
    (y, m, d)
}

/// The date of a non-negative day number is a calendar date.
#[verifier::rlimit(40)]
proof fn lemma_civil_valid(days: int)
    requires
        days >= 0,
    ensures
        valid_date(civil(days).0, civil(days).1, civil(days).2),
        civil(days).0 >= 1970,
{
    let z = days + 719468;
    let era = z / 146097;
    let doe = z - era * 146097;
    lemma_year_of_era(doe);
    let yoe = year_of_era(doe);
    let doy = doe - era_days_before(yoe);
    let mp = (5 * doy + 2) / 153;
    assert(0 <= mp <= 11);
    let d = doy - (153 * mp + 2) / 5 + 1;
    let m = if mp < 10 { mp + 3 } else { mp - 9 };
    let y = yoe + era * 400 + if m <= 2 { 1int } else { 0int };
    assert(civil(days) == (y, m, d));
    assert(1 <= d);
    assert(d <= days_in_month(y, m)) by {
        if m == 2 {
            assert(is_leap(y) == is_leap(yoe + 1));
        }
    }
    assert(y >= 1970) by {
        assert(z >= 719468);
    }
}

/// The day number of the date of a non-negative day number is that number.
#[verifier::rlimit(40)]
proof fn lemma_civil_number(days: int)
    requires
        days >= 0,
    ensures
        day_number(civil(days).0, civil(days).1, civil(days).2) == days,
{
    let z = days + 719468;
    let era = z / 146097;
    let doe = z - era * 146097;
    lemma_year_of_era(doe);
    let yoe = year_of_era(doe);
    let doy = doe - era_days_before(yoe);
    let mp = (5 * doy + 2) / 153;
    assert(0 <= mp <= 11);
    let d = doy - (153 * mp + 2) / 5 + 1;
    let m = if mp < 10 { mp + 3 } else { mp - 9 };
    let y = yoe + era * 400 + if m <= 2 { 1int } else { 0int };
    assert(civil(days) == (y, m, d));
    let yy = yoe + era * 400;
    let a = tdiv(14 - m, 12);
    assert(a == if m <= 2 { 1int } else { 0int });
    let yr = y + 4800 - a;
    assert(yr == yy + 4800);
    assert(tdiv(yr, 4) == yy / 4 + 1200);
    assert(tdiv(yr, 100) == yy / 100 + 48);
    assert(tdiv(yr, 400) == yy / 400 + 12);
    assert(yy / 4 == yoe / 4 + 100 * era);
    assert(yy / 100 == yoe / 100 + 4 * era);
    assert(yy / 400 == era);
}

proof fn lemma_civil(days: int)
    requires
        days >= 0,
    ensures
        valid_date(civil(days).0, civil(days).1, civil(days).2),
        civil(days).0 >= 1970,
        day_number(civil(days).0, civil(days).1, civil(days).2) == days,
{
    lemma_civil_valid(days);
    lemma_civil_number(days);
}

/// Inside an era, a day a given number of days into a March-based year is
/// placed back into that year.
proof fn lemma_year_of_era_inverse(yoe: int, doy: int)
    requires
        0 <= yoe <= 399,
        0 <= doy <= if is_leap(yoe + 1) { 365int } else { 364int },
    ensures
        0 <= era_days_before(yoe) + doy < 146097,
        year_of_era(era_days_before(yoe) + doy) == yoe,
{
    let doe = era_days_before(yoe) + doy;
    lemma_year_of_era(doe);
    let y2 = year_of_era(doe);
    if y2 < yoe {
        assert(era_days_before(y2 + 1) <= era_days_before(yoe));
        assert(era_days_before(y2 + 1) == era_days_before(y2) + if is_leap(y2 + 1) { 366int } else { 365int });
    } else if y2 > yoe {
        assert(era_days_before(yoe + 1) <= era_days_before(y2));
        assert(era_days_before(yoe + 1) == era_days_before(yoe) + if is_leap(yoe + 1) { 366int } else { 365int });
    }
}

/// A calendar date on or after 1970-01-01 is the date of its day number.
#[verifier::rlimit(40)]
proof fn lemma_civil_inverse(y: int, m: int, d: int)
    requires
        valid_date(y, m, d),
        day_number(y, m, d) >= 0,
    ensures
        civil(day_number(y, m, d)) == (y, m, d),
{
    let yy = if m <= 2 { y - 1 } else { y };
    let mp = if m >= 3 { m - 3 } else { m + 9 };
    let doy = (153 * mp + 2) / 5 + d - 1;
    assert(yy >= 0) by {
        if yy < 0 {
            assert(day_number(y, m, d) < 0);
        }
    }
    let era = yy / 400;
    let yoe = yy - 400 * era;
    assert(is_leap(yoe + 1) == (m <= 2 && is_leap(y)) || is_leap(yoe + 1) == is_leap(yy + 1));
    assert(0 <= doy <= if is_leap(yoe + 1) { 365int } else { 364int }) by {
        assert(is_leap(yoe + 1) == is_leap(yy + 1));
        if m <= 2 {
            assert(yy + 1 == y);
        }
    }
    lemma_year_of_era_inverse(yoe, doy);
    let doe = era_days_before(yoe) + doy;
    let days = day_number(y, m, d);
    assert(days + 719468 == era * 146097 + doe) by {
        let a = tdiv(14 - m, 12);
        assert(a == if m <= 2 { 1int } else { 0int });
        let yr = y + 4800 - a;
        assert(yr == yy + 4800);
        assert(tdiv(yr, 4) == yy / 4 + 1200);
        assert(tdiv(yr, 100) == yy / 100 + 48);
        assert(tdiv(yr, 400) == yy / 400 + 12);
        assert(yy / 4 == yoe / 4 + 100 * era);
        assert(yy / 100 == yoe / 100 + 4 * era);
    }
    let z = days + 719468;
    assert(z / 146097 == era);
    assert(z - (z / 146097) * 146097 == doe);
    assert((5 * doy + 2) / 153 == mp);
}


/// The date of day `days` after 1970-01-01, as (year, month, day).
pub closed spec fn date_of_day(days: int) -> (int, int, int) {
    civil(days)
}

/// The date of a day number on or after the epoch is a calendar date with
/// that day number.
pub proof fn law_date_of_day(days: int)
    requires
        days >= 0,
    ensures
        valid_date(date_of_day(days).0, date_of_day(days).1, date_of_day(days).2),
        date_of_day(days).0 >= 1970,
        day_number(date_of_day(days).0, date_of_day(days).1, date_of_day(days).2) == days,
{
    lemma_civil(days);
}

/// Every calendar date on or after 1970-01-01 is the date of its own day
/// number, so no two calendar dates share a day number.
pub proof fn law_date_unique(y: int, m: int, d: int)
    requires
        valid_date(y, m, d),
        day_number(y, m, d) >= 0,
    ensures
        date_of_day(day_number(y, m, d)) == (y, m, d),
{
    lemma_civil_inverse(y, m, d);
}

/// `y-m-d` rendered as `YYYY-MM-DD` (each part zero-padded, the year to at
/// least four digits).
pub open spec fn render_date(y: int, m: int, d: int) -> Seq<char> {
    padded(y as nat, 4) + seq!['-'] + padded(m as nat, 2) + seq!['-'] + padded(d as nat, 2)
}

/// A timestamp rendered as `YYYY-MM-DD HH:MM:SS`.
pub open spec fn render_timestamp(ts: nat) -> Seq<char> {
    let (y, m, d) = date_of_day((ts / 86400) as int);
    let tod = ts % 86400;
    render_date(y, m, d) + seq![' '] + padded(tod / 3600, 2) + seq![':'] + padded((tod % 3600) / 60, 2) + seq![':']
        + padded(tod % 60, 2)
}

/// Formats a Unix timestamp (seconds) as `YYYY-MM-DD HH:MM:SS` in UTC.
pub fn format_ts(ts: u64) -> (r: String)
    ensures
        r@ == render_timestamp(ts as nat),
{
    let secs_in_day: u64 = 86400;
    let time_of_day = ts % secs_in_day;
    let days = ts / secs_in_day;
    let hh = time_of_day / 3600;
    let mm = (time_of_day % 3600) / 60;
    let ss = time_of_day % 60;
    let z = days + 719468;
    let era = z / 146097;
    let doe = z - era * 146097;
    let yoe = (doe - doe / 1460 + doe / 36524 - doe / 146096) / 365;
    proof {
        lemma_year_of_era(doe as int);
    }
    let y = yoe + era * 400;
    let doy = doe - (365 * yoe + yoe / 4 - yoe / 100);
    let mp = (5 * doy + 2) / 153;
    let d = doy - (153 * mp + 2) / 5 + 1;
    let m = if mp < 10 { mp + 3 } else { mp - 9 };
    let y = if m <= 2 { y + 1 } else { y };
    assert(date_of_day(days as int) == (y as int, m as int, d as int));
    let mut r = String::new();
    push_padded(&mut r, y, 4);
    push_char(&mut r, '-');
    push_padded(&mut r, m, 2);
    push_char(&mut r, '-');
    push_padded(&mut r, d, 2);
    push_char(&mut r, ' ');
    push_padded(&mut r, hh, 2);
    push_char(&mut r, ':');
    push_padded(&mut r, mm, 2);
    push_char(&mut r, ':');
    push_padded(&mut r, ss, 2);
    assert(r@ =~= render_timestamp(ts as nat));
    r
}


/// `c` is an ASCII decimal digit.
pub open spec fn is_digit(c: char) -> bool {
    '0' <= c <= '9'
}

/// The value of a decimal digit.
pub open spec fn digit_value(c: char) -> nat {
    (c as int - '0' as int) as nat
}

/// The value of a string of decimal digits.
pub open spec fn digits_value(s: Seq<char>) -> nat
    decreases s.len(),
{
    if s.len() == 0 {
        0
    } else {
        digits_value(s.drop_last()) * 10 + digit_value(s.last())
    }
}

/// `s` is one or more decimal digits.
pub open spec fn all_digits(s: Seq<char>) -> bool {
    s.len() > 0 && forall|i: int| 0 <= i < s.len() ==> is_digit(#[trigger] s[i])
}

/// What `u64::from_str` gives: an optional `+`, then digits, within range.
pub open spec fn parse_u64_spec(s: Seq<char>) -> Option<u64> {
    let body = if s.len() > 0 && s[0] == '+' { s.drop_first() } else { s };
    if all_digits(body) && digits_value(body) <= u64::MAX {
        Some(digits_value(body) as u64)
    } else {
        None
    }
}

/// What `i64::from_str` gives: an optional `+` or `-`, then digits, within range.
pub open spec fn parse_i64_spec(s: Seq<char>) -> Option<i64> {
    let neg = s.len() > 0 && s[0] == '-';
    let body = if s.len() > 0 && (s[0] == '+' || s[0] == '-') { s.drop_first() } else { s };
    if !all_digits(body) {
        None
    } else if neg {
        if digits_value(body) <= 0x8000_0000_0000_0000 {
            Some((0 - digits_value(body)) as i64)
        } else {
            None
        }
    } else if digits_value(body) <= i64::MAX {
        Some(digits_value(body) as i64)
    } else {
        None
    }
}

proof fn lemma_digits_value_mono(s: Seq<char>, i: int)
    requires
        0 <= i <= s.len(),
        forall|j: int| 0 <= j < s.len() ==> is_digit(#[trigger] s[j]),
    ensures
        digits_value(s) >= digits_value(s.take(i)),
    decreases s.len() - i,
{
    if i < s.len() {
        assert(s.take(i + 1).drop_last() =~= s.take(i));
        lemma_digits_value_mono(s, i + 1);
    } else {
        assert(s.take(i) =~= s);
    }
}

/// The value of digits `cs[from..to]`, or `None` when it is above `max`
/// (a non-digit gives `None` too).
fn digits_upto(cs: &Vec<char>, from: usize, max: u64) -> (r: Option<u64>)
    requires
        from <= cs@.len(),
        max >= 10,
    ensures
        r matches Some(v) ==> all_digits(cs@.skip(from as int)) && v == digits_value(cs@.skip(from as int)) && v <= max,
        r is None ==> !all_digits(cs@.skip(from as int)) || digits_value(cs@.skip(from as int)) > max,
{
    let ghost body = cs@.skip(from as int);
    if from == cs.len() {
        return None;
    }
    let mut acc: u64 = 0;
    let mut i: usize = from;
    while i < cs.len()
        invariant
            from <= i <= cs@.len(),
            body == cs@.skip(from as int),
            forall|j: int| 0 <= j < i - from ==> is_digit(#[trigger] body[j]),
            acc == digits_value(body.take(i - from)),
            acc <= max,
            max >= 10,
        decreases cs@.len() - i,
    {
        let c = cs[i];
        if !('0' <= c && c <= '9') {
            assert(body[i - from] == c);
            return None;
        }
        let dv = (c as u32 - '0' as u32) as u64;
        assert(body.take(i - from + 1).drop_last() =~= body.take(i - from));
        assert(body[i - from] == c);
        if acc > (max - dv) / 10 {
            proof {
                assert(digits_value(body.take(i - from + 1)) > max);
                if all_digits(body) {
                    lemma_digits_value_mono(body, i - from + 1);
                }
            }
            return None;
        }
        acc = acc * 10 + dv;
        i = i + 1;
    }
    assert(body.take(i - from) =~= body);
    Some(acc)
}

/// Parses an unsigned decimal number as `u64::from_str` does.
pub fn parse_u64(cs: &Vec<char>) -> (r: Option<u64>)
    ensures
        r == parse_u64_spec(cs@),
{
    let from: usize = if cs.len() > 0 && cs[0] == '+' { 1 } else { 0 };
    assert(cs@.skip(from as int) =~= if cs@.len() > 0 && cs@[0] == '+' { cs@.drop_first() } else { cs@ });
    digits_upto(cs, from, u64::MAX)
}

/// Parses a signed decimal number as `i64::from_str` does.
pub fn parse_i64(cs: &Vec<char>) -> (r: Option<i64>)
    ensures
        r == parse_i64_spec(cs@),
{
    let neg = cs.len() > 0 && cs[0] == '-';
    let from: usize = if cs.len() > 0 && (cs[0] == '+' || cs[0] == '-') { 1 } else { 0 };
    assert(cs@.skip(from as int) =~= if cs@.len() > 0 && (cs@[0] == '+' || cs@[0] == '-') { cs@.drop_first() } else { cs@ });
    if neg {
        match digits_upto(cs, from, 0x8000_0000_0000_0000u64) {
            Some(v) => {
                if v == 0x8000_0000_0000_0000u64 {
                    Some(i64::MIN)
                } else {
                    Some(0 - (v as i64))
                }
            },
            None => None,
        }
    } else {
        match digits_upto(cs, from, i64::MAX as u64) {
            Some(v) => Some(v as i64),
            None => None,
        }
    }
}

/// Position of the first `'-'` in `s` at or after `from`.
pub open spec fn dash_from(s: Seq<char>, from: int) -> Option<int> {
    if exists|i: int| from <= i < s.len() && s[i] == '-' {
        Some(choose|i: int| from <= i < s.len() && s[i] == '-' && forall|j: int| from <= j < i ==> s[j] != '-')
    } else {
        None
    }
}

/// The three parts `s.splitn(3, '-')` gives when `s` holds at least two dashes.
pub open spec fn split3(s: Seq<char>) -> Option<(Seq<char>, Seq<char>, Seq<char>)> {
    match dash_from(s, 0) {
        None => None,
        Some(i) => match dash_from(s, i + 1) {
            None => None,
            Some(j) => Some((s.subrange(0, i), s.subrange(i + 1, j), s.subrange(j + 1, s.len() as int))),
        },
    }
}

fn find_dash(cs: &Vec<char>, from: usize) -> (r: Option<usize>)
    requires
        from <= cs@.len(),
    ensures
        r matches Some(i) ==> dash_from(cs@, from as int) == Some(i as int) && from <= i < cs@.len() && cs@[i as int] == '-',
        r is None ==> dash_from(cs@, from as int) is None,
{
    let mut i = from;
    while i < cs.len()
        invariant
            from <= i <= cs@.len(),
            forall|j: int| from <= j < i ==> cs@[j] != '-',
        decreases cs@.len() - i,
    {
        if cs[i] == '-' {
            proof {
                let k = choose|k: int| from <= k < cs@.len() && cs@[k] == '-' && forall|j: int| from <= j < k ==> cs@[j] != '-';
                if k < i {
                } else if k > i {
                    assert(cs@[i as int] != '-');
                }
            }
            return Some(i);
        }
        i = i + 1;
    }
    None
}

/// Why a date argument could not be read.
#[derive(Debug, Clone, Copy, PartialEq, Eq)]
pub enum DateError {
    /// Neither a Unix timestamp nor of the form `YYYY-MM-DD`.
    Unrecognized,
    /// The year part is not a number.
    InvalidYear,
    /// The month part is not a number.
    InvalidMonth,
    /// The day part is not a number.
    InvalidDay,
    /// The date lies before 1970-01-01.
    BeforeEpoch,
    /// The date lies too far ahead for a 64-bit timestamp.
    OutOfRange,
}

/// What a date error is reported as, for the argument `input`.
pub open spec fn date_error_text(e: DateError, input: Seq<char>) -> Seq<char> {
    match e {
        DateError::Unrecognized => "invalid date (use YYYY-MM-DD or Unix timestamp): "@ + input,
        DateError::InvalidYear => "invalid year"@,
        DateError::InvalidMonth => "invalid month"@,
        DateError::InvalidDay => "invalid day"@,
        DateError::BeforeEpoch => "date before Unix epoch: "@ + input,
        DateError::OutOfRange => "date too far in the future: "@ + input,
    }
}

impl DateError {
    /// The message reported for the error on the argument `input`.
    pub fn message(&self, input: &str) -> (r: String)
        ensures
            r@ == date_error_text(*self, input@),
    {
        let (head, with_input) = match self {
            DateError::Unrecognized => ("invalid date (use YYYY-MM-DD or Unix timestamp): ", true),
            DateError::InvalidYear => ("invalid year", false),
            DateError::InvalidMonth => ("invalid month", false),
            DateError::InvalidDay => ("invalid day", false),
            DateError::BeforeEpoch => ("date before Unix epoch: ", true),
            DateError::OutOfRange => ("date too far in the future: ", true),
        };
        let mut r = String::from_str(head);
        if with_input {
            crate::text::push_all(&mut r, input);
        }
        r
    }
}

/// The result for a date whose parts read as `y`, `m` and `d`.
pub open spec fn date_result(y: i64, m: i64, d: i64) -> Result<u64, DateError> {
    let days = day_number(y as int, m as int, d as int);
    if days < 0 {
        Err(DateError::BeforeEpoch)
    } else if days * 86400 > u64::MAX {
        Err(DateError::OutOfRange)
    } else {
        Ok((days * 86400) as u64)
    }
}

/// The result for the three dash-separated parts of a date.
pub open spec fn parts_result(a: Seq<char>, b: Seq<char>, c: Seq<char>) -> Result<u64, DateError> {
    match parse_i64_spec(a) {
        None => Err(DateError::InvalidYear),
        Some(y) => match parse_i64_spec(b) {
            None => Err(DateError::InvalidMonth),
            Some(m) => match parse_i64_spec(c) {
                None => Err(DateError::InvalidDay),
                Some(d) => date_result(y, m, d),
            },
        },
    }
}

/// What reading a date argument gives.
pub open spec fn parse_date_spec(s: Seq<char>) -> Result<u64, DateError> {
    match parse_u64_spec(s) {
        Some(v) => Ok(v),
        None => match split3(s) {
            None => Err(DateError::Unrecognized),
            Some((a, b, c)) => parts_result(a, b, c),
        },
    }
}

/// Rounds toward zero, as Rust's `/` on signed numbers does.
fn tdiv_exec(a: i128, b: i128) -> (r: i128)
    requires
        b > 0,
        -0x1_0000_0000_0000_0000_0000_0000 < a < 0x1_0000_0000_0000_0000_0000_0000,
    ensures
        r == tdiv(a as int, b as int),
{
    if a >= 0 {
        a / b
    } else {
        let p = 0 - a;
        0 - p / b
    }
}

/// The day number of `y-m-d`, computed exactly.
fn day_number_exec(y: i64, m: i64, d: i64) -> (r: i128)
    ensures
        r == day_number(y as int, m as int, d as int),
{
    let y = y as i128;
    let m = m as i128;
    let d = d as i128;
    let a = tdiv_exec(14 - m, 12);
    let yr = y + 4800 - a;
    let mo = m + 12 * a - 3;
    d + tdiv_exec(153 * mo + 2, 5) + 365 * yr + tdiv_exec(yr, 4) - tdiv_exec(yr, 100) + tdiv_exec(yr, 400) - 32045 - 2440588
}

/// Reads `YYYY-MM-DD` or a Unix timestamp (seconds) as seconds since the
/// epoch.
pub fn parse_date(s: &str) -> (r: Result<u64, DateError>)
    ensures
        r == parse_date_spec(s@),
{
    let cs = chars_of(s);
    if let Some(ts) = parse_u64(&cs) {
        return Ok(ts);
    }
    let i = match find_dash(&cs, 0) {
        Some(i) => i,
        None => return Err(DateError::Unrecognized),
    };
    let j = match find_dash(&cs, i + 1) {
        Some(j) => j,
        None => return Err(DateError::Unrecognized),
    };
    let part_a = slice_chars(&cs, 0, i);
    let part_b = slice_chars(&cs, i + 1, j);
    let part_c = slice_chars(&cs, j + 1, cs.len());
    assert(split3(s@) == Some((part_a@, part_b@, part_c@)));
    read_parts(&part_a, &part_b, &part_c)
}

fn read_parts(a: &Vec<char>, b: &Vec<char>, c: &Vec<char>) -> (r: Result<u64, DateError>)
    ensures
        r == parts_result(a@, b@, c@),
{
    let y = match parse_i64(a) { Some(v) => v, None => return Err(DateError::InvalidYear) };
    let m = match parse_i64(b) { Some(v) => v, None => return Err(DateError::InvalidMonth) };
    let d = match parse_i64(c) { Some(v) => v, None => return Err(DateError::InvalidDay) };
    date_of_parts(y, m, d)
}

fn date_of_parts(y: i64, m: i64, d: i64) -> (r: Result<u64, DateError>)
    ensures
        r == date_result(y, m, d),
{
    let days = day_number_exec(y, m, d);
    if days < 0 {
        return Err(DateError::BeforeEpoch);
    }
    if days > (u64::MAX / 86400) as i128 {
        return Err(DateError::OutOfRange);
    }
    Ok(days as u64 * 86400)
}

proof fn lemma_digit_char(d: nat)
    requires
        d < 10,
    ensures
        is_digit(digit_char(d)),
        digit_value(digit_char(d)) == d,
{
}

proof fn lemma_decimal_digits(n: nat)
    ensures
        all_digits(decimal(n)),
        digits_value(decimal(n)) == n,
    decreases n,
{
    if n < 10 {
        lemma_digit_char(n);
        let s = decimal(n);
        assert(s == seq![digit_char(n)]);
        assert(s.drop_last() =~= Seq::<char>::empty());
        assert(s.last() == digit_char(n));
        assert(digits_value(s) == digits_value(s.drop_last()) * 10 + digit_value(s.last()));
    } else {
        lemma_decimal_digits(n / 10);
        lemma_digit_char(n % 10);
        let s = decimal(n);
        assert(s == decimal(n / 10) + seq![digit_char(n % 10)]);
        assert(s.drop_last() =~= decimal(n / 10));
        assert(s.last() == digit_char(n % 10));
        assert(digits_value(s) == digits_value(s.drop_last()) * 10 + digit_value(s.last()));
        assert((n / 10) * 10 + n % 10 == n);
        assert forall|i: int| 0 <= i < s.len() implies is_digit(#[trigger] s[i]) by {
            if i < s.len() - 1 {
                assert(s[i] == decimal(n / 10)[i]);
            }
        }
    }
}

proof fn lemma_zeros_value(k: nat, s: Seq<char>)
    ensures
        digits_value(Seq::new(k, |i: int| '0') + s) == digits_value(s),
    decreases s.len(), k,
{
    let z = Seq::new(k, |i: int| '0');
    if s.len() == 0 {
        assert(z + s =~= z);
        if k > 0 {
            assert(z.drop_last() =~= Seq::new((k - 1) as nat, |i: int| '0'));
            lemma_zeros_value((k - 1) as nat, s);
            assert(Seq::new((k - 1) as nat, |i: int| '0') + s =~= Seq::new((k - 1) as nat, |i: int| '0'));
        }
    } else {
        assert((z + s).drop_last() =~= z + s.drop_last());
        lemma_zeros_value(k, s.drop_last());
    }
}

proof fn lemma_padded_digits(n: nat, w: nat)
    ensures
        all_digits(padded(n, w)),
        digits_value(padded(n, w)) == n,
        padded(n, w)[0] != '+' && padded(n, w)[0] != '-',
{
    lemma_decimal_digits(n);
    let p = padded(n, w);
    if decimal(n).len() < w {
        let k = (w - decimal(n).len()) as nat;
        lemma_zeros_value(k, decimal(n));
        assert forall|i: int| 0 <= i < p.len() implies is_digit(#[trigger] p[i]) by {
            if i >= k {
                assert(p[i] == decimal(n)[i - k]);
            }
        }
    }
    assert(is_digit(p[0]));
}

/// The first dash of `x + ['-'] + y` when `x` has no dash is right after `x`.
proof fn lemma_dash_after_digits(s: Seq<char>, from: int, k: int)
    requires
        0 <= from <= k < s.len(),
        s[k] == '-',
        forall|j: int| from <= j < k ==> s[j] != '-',
    ensures
        dash_from(s, from) == Some(k),
{
    let i = choose|i: int| from <= i < s.len() && s[i] == '-' && forall|j: int| from <= j < i ==> s[j] != '-';
    if i < k {
        assert(s[i] != '-');
    } else if i > k {
        assert(s[k] != '-');
    }
}

/// Three digit strings joined by dashes split back into the same three
/// strings, and the whole is no plain number.
proof fn lemma_split_rendered(a: Seq<char>, b: Seq<char>, c: Seq<char>)
    requires
        all_digits(a),
        all_digits(b),
        all_digits(c),
    ensures
        split3(a + seq!['-'] + b + seq!['-'] + c) == Some((a, b, c)),
        parse_u64_spec(a + seq!['-'] + b + seq!['-'] + c) is None,
{
    let r = a + seq!['-'] + b + seq!['-'] + c;
    let k1 = a.len() as int;
    let k2 = k1 + 1 + b.len();
    assert(r[k1] == '-');
    assert(r[k2] == '-');
    assert forall|j: int| 0 <= j < k1 implies r[j] != '-' by {
        assert(r[j] == a[j]);
        assert(is_digit(a[j]));
    }
    assert forall|j: int| k1 + 1 <= j < k2 implies r[j] != '-' by {
        assert(r[j] == b[j - k1 - 1]);
        assert(is_digit(b[j - k1 - 1]));
    }
    lemma_dash_after_digits(r, 0, k1);
    lemma_dash_after_digits(r, k1 + 1, k2);
    assert(r.subrange(0, k1) =~= a);
    assert(r.subrange(k1 + 1, k2) =~= b);
    assert(r.subrange(k2 + 1, r.len() as int) =~= c);
    assert(r[0] == a[0]);
    assert(is_digit(a[0]));
    let body = if r.len() > 0 && r[0] == '+' { r.drop_first() } else { r };
    assert(body == r);
    assert(!is_digit(r[k1]));
}

/// A zero-padded rendering of `n` reads back as `n`.
proof fn lemma_parse_padded(n: nat, w: nat)
    requires
        n <= i64::MAX,
    ensures
        all_digits(padded(n, w)),
        parse_i64_spec(padded(n, w)) == Some(n as i64),
{
    lemma_padded_digits(n, w);
    let p = padded(n, w);
    assert(is_digit(p[0]));
}

/// Reading back the date part of a rendered timestamp gives the timestamp
/// of that day's midnight: for `days` on or after the epoch within the
/// 64-bit range, reading `render_date` of the date of `days` gives
/// `days * 86400`.
pub proof fn law_format_then_parse(days: int)
    requires
        days >= 0,
        days * 86400 <= u64::MAX,
    ensures
        parse_date_spec(render_date(date_of_day(days).0, date_of_day(days).1, date_of_day(days).2)) == Ok::<u64, DateError>((days * 86400) as u64),
{
    law_date_of_day(days);
    lemma_civil_bound(days);
    lemma_render_then_parse(date_of_day(days).0, date_of_day(days).1, date_of_day(days).2, days);
}

#[verifier::spinoff_prover]
#[verifier::rlimit(40)]
proof fn lemma_render_then_parse(y: int, m: int, d: int, days: int)
    requires
        valid_date(y, m, d),
        1970 <= y <= 1_000_000_000_000,
        day_number(y, m, d) == days,
        days >= 0,
        days * 86400 <= u64::MAX,
    ensures
        parse_date_spec(render_date(y, m, d)) == Ok::<u64, DateError>((days * 86400) as u64),
{
    let py = padded(y as nat, 4);
    let pm = padded(m as nat, 2);
    let pd = padded(d as nat, 2);
    lemma_parse_padded(y as nat, 4);
    lemma_parse_padded(m as nat, 2);
    lemma_parse_padded(d as nat, 2);
    lemma_split_rendered(py, pm, pd);
    let r = render_date(y, m, d);
    assert(r == py + seq!['-'] + pm + seq!['-'] + pd);
    let (yi, mi, di) = (y as i64, m as i64, d as i64);
    assert(parts_result(py, pm, pd) == date_result(yi, mi, di));
    lemma_date_result(yi, mi, di, days);
}

/// A day number on or after the epoch within range gives its midnight.
proof fn lemma_date_result(y: i64, m: i64, d: i64, days: int)
    requires
        day_number(y as int, m as int, d as int) == days,
        days >= 0,
        days * 86400 <= u64::MAX,
    ensures
        date_result(y, m, d) == Ok::<u64, DateError>((days * 86400) as u64),
{
}

/// The year of a day within the 64-bit timestamp range fits an `i64`.
proof fn lemma_civil_bound(days: int)
    requires
        days >= 0,
        days * 86400 <= u64::MAX,
    ensures
        date_of_day(days).0 <= 1_000_000_000_000,
{
    let z = days + 719468;
    let era = z / 146097;
    let doe = z - era * 146097;
    lemma_year_of_era(doe);
    assert(civil(days).0 <= year_of_era(doe) + era * 400 + 1);
}

/// A calendar date on or after 1970-01-01, written as `YYYY-MM-DD`, reads
/// as the timestamp of its midnight, and that timestamp's date is the date
/// written.
pub proof fn law_parse_then_format(y: int, m: int, d: int)
    requires
        valid_date(y, m, d),
        day_number(y, m, d) >= 0,
        day_number(y, m, d) * 86400 <= u64::MAX,
    ensures
        parse_date_spec(render_date(y, m, d)) == Ok::<u64, DateError>((day_number(y, m, d) * 86400) as u64),
        date_of_day(day_number(y, m, d)) == (y, m, d),
{
    law_date_unique(y, m, d);
    law_format_then_parse(day_number(y, m, d));
}

/// A number below 100 is written with two digits when padded to two.
proof fn lemma_padded_two(n: nat)
    requires
        n < 100,
    ensures
        padded(n, 2).len() == 2,
{
    if n >= 10 {
        assert(decimal(n / 10) == seq![digit_char(n / 10)]);
        assert(decimal(n) == decimal(n / 10) + seq![digit_char(n % 10)]);
    } else {
        assert(decimal(n) == seq![digit_char(n)]);
    }
}

/// A timestamp written in decimal reads back as itself.
pub proof fn law_timestamp_reads_back(t: u64)
    ensures
        parse_date_spec(decimal(t as nat)) == Ok::<u64, DateError>(t),
{
    lemma_decimal_digits(t as nat);
    let s = decimal(t as nat);
    assert(is_digit(s[0]));
    assert(parse_u64_spec(s) == Some(t));
}

/// The date part of a formatted timestamp (all but its last nine
/// characters, ` HH:MM:SS`) reads back as the timestamp of that day's
/// midnight.
pub proof fn law_formatted_date_reads_back(t: u64)
    ensures
        render_timestamp(t as nat).len() >= 9,
        parse_date_spec(render_timestamp(t as nat).take(render_timestamp(t as nat).len() - 9)) == Ok::<u64, DateError>(
            (t - t % 86400) as u64,
        ),
{
    let ts = t as nat;
    let days = (ts / 86400) as int;
    let (y, m, d) = date_of_day(days);
    let tod = ts % 86400;
    lemma_padded_two(tod / 3600);
    lemma_padded_two((tod % 3600) / 60);
    lemma_padded_two(tod % 60);
    let head = render_date(y, m, d);
    let tail = seq![' '] + padded(tod / 3600, 2) + seq![':'] + padded((tod % 3600) / 60, 2) + seq![':'] + padded(tod % 60, 2);
    assert(tail.len() == 9);
    assert(render_timestamp(ts) =~= head + tail);
    assert((head + tail).take(head.len() as int) =~= head);
    assert(days * 86400 <= t) by (nonlinear_arith)
        requires
            days == t / 86400,
    ;
    law_format_then_parse(days);
    assert(t - t % 86400 == days * 86400);
}

/// A day before 10000-01-01 falls in a year of at most four digits.
proof fn lemma_year_below_10000(days: int)
    requires
        0 <= days < 2932897,
    ensures
        date_of_day(days).0 <= 9999,
{
    let z = days + 719468;
    let era = z / 146097;
    let doe = z - era * 146097;
    lemma_year_of_era(doe);
    assert(era <= 24);
    if era == 24 {
        let yoe = year_of_era(doe);
        if yoe == 399 {
            let doy = doe - era_days_before(yoe);
            assert(era_days_before(399) == 145731);
            assert(doy < 306);
            let mp = (5 * doy + 2) / 153;
            assert(mp <= 9);
        }
    }
}

/// A number of four digits is written with four characters.
proof fn lemma_four_digits(n: nat)
    requires
        1000 <= n <= 9999,
    ensures
        decimal(n).len() == 4,
{
    assert(decimal(n / 1000) == seq![digit_char(n / 1000)]);
    assert(decimal(n / 100) == decimal(n / 1000) + seq![digit_char((n / 100) % 10)]) by {
        assert((n / 100) / 10 == n / 1000);
    }
    assert(decimal(n / 10) == decimal(n / 100) + seq![digit_char((n / 10) % 10)]) by {
        assert((n / 10) / 10 == n / 100);
    }
    assert(decimal(n) == decimal(n / 10) + seq![digit_char(n % 10)]);
}

/// Before the year 10000 a formatted timestamp has nineteen characters, and
/// its first ten (`YYYY-MM-DD`) read back as the timestamp of that day's
/// midnight.
pub proof fn law_formatted_date_prefix(t: u64)
    requires
        t < 253402300800,
    ensures
        render_timestamp(t as nat).len() == 19,
        parse_date_spec(render_timestamp(t as nat).take(10)) == Ok::<u64, DateError>((t - t % 86400) as u64),
{
    let ts = t as nat;
    let days = (ts / 86400) as int;
    law_date_of_day(days);
    lemma_year_below_10000(days);
    let (y, m, d) = date_of_day(days);
    lemma_four_digits(y as nat);
    lemma_padded_two(m as nat);
    lemma_padded_two(d as nat);
    let head = render_date(y, m, d);
    assert(head.len() == 10);
    let tod = ts % 86400;
    lemma_padded_two(tod / 3600);
    lemma_padded_two((tod % 3600) / 60);
    lemma_padded_two(tod % 60);
    let tail = seq![' '] + padded(tod / 3600, 2) + seq![':'] + padded((tod % 3600) / 60, 2) + seq![':'] + padded(tod % 60, 2);
    assert(render_timestamp(ts) =~= head + tail);
    assert(render_timestamp(ts).len() == 19);
    law_formatted_date_reads_back(t);
    assert(render_timestamp(ts).take(10) == render_timestamp(ts).take(render_timestamp(ts).len() - 9));
}

} // verus!
