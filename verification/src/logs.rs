//! Daily log files: their names, when to switch to a new one, and which
//! old ones to delete.

use vstd::prelude::*;
use chrono::{Datelike, Local};
use crate::text::{chars_of, concat, decimal_chars, decimal_spec, eq_chars, string_of};

verus! {

/// How many days of logs are kept.
pub const MAX_LOG_KEEP_DAYS: i64 = 30;

/// `n` in decimal, zero-padded to at least four digits.
pub open spec fn pad4(n: nat) -> Seq<char> {
    if n < 10 {
        seq!['0', '0', '0'] + decimal_spec(n)
    } else if n < 100 {
        seq!['0', '0'] + decimal_spec(n)
    } else if n < 1000 {
        seq!['0'] + decimal_spec(n)
    } else {
        decimal_spec(n)
    }
}

/// `n < 100` in decimal, zero-padded to two digits.
pub open spec fn pad2(n: nat) -> Seq<char> {
    if n < 10 {
        seq!['0'] + decimal_spec(n)
    } else {
        decimal_spec(n)
    }
}

/// A year as the `%Y` format of `chrono` writes it: four digits, zero
/// padded, for years 0 to 9999; with a sign in front otherwise.
pub open spec fn year_text(y: int) -> Seq<char> {
    if 0 <= y <= 9999 {
        pad4(y as nat)
    } else if y < 0 {
        seq!['-'] + pad4((-y) as nat)
    } else {
        seq!['+'] + pad4(y as nat)
    }
}

/// A date as `%Y-%m-%d`.
pub open spec fn date_text(y: int, m: nat, d: nat) -> Seq<char> {
    year_text(y) + seq!['-'] + pad2(m) + seq!['-'] + pad2(d)
}

pub open spec fn log_ext() -> Seq<char> {
    seq!['.', 'l', 'o', 'g']
}

/// `n` zero-padded to `width` (1 to 4) digits.
fn padded(n: u64, width: u64) -> (r: Vec<char>)
    requires
        width == 2 || width == 4,
        width == 2 ==> n < 100,
    ensures
        width == 4 ==> r@ == pad4(n as nat),
        width == 2 ==> r@ == pad2(n as nat),
{
    let digits = decimal_chars(n);
    let zeros: Vec<char> = if width == 4 {
        if n < 10 {
            vec!['0', '0', '0']
        } else if n < 100 {
            vec!['0', '0']
        } else if n < 1000 {
            vec!['0']
        } else {
            Vec::new()
        }
    } else {
        if n < 10 {
            vec!['0']
        } else {
            Vec::new()
        }
    };
    let r = concat(&zeros, &digits);
    proof {
        if width == 4 && n >= 1000 {
            assert(r@ =~= digits@);
        }
        if width == 2 && n >= 10 {
            assert(r@ =~= digits@);
        }
    }
    r
}

/// Writes a date as `chrono` writes it with `%Y-%m-%d`.
pub fn format_log_date(year: i32, month: u32, day: u32) -> (r: String)
    requires
        1 <= month <= 12,
        1 <= day <= 31,
    ensures
        r@ == date_text(year as int, month as nat, day as nat),
{
    let y: Vec<char> = if 0 <= year && year <= 9999 {
        padded(year as u64, 4)
    } else if year < 0 {
        let a = (-(year as i64)) as u64;
        let digits = padded(a, 4);
        let sign = vec!['-'];
        concat(&sign, &digits)
    } else {
        let digits = padded(year as u64, 4);
        let sign = vec!['+'];
        concat(&sign, &digits)
    };
    let dash = vec!['-'];
    let m = padded(month as u64, 2);
    let d = padded(day as u64, 2);
    let a = concat(&y, &dash);
    let b = concat(&a, &m);
    let c = concat(&b, &dash);
    let e = concat(&c, &d);
    assert(e@ =~= date_text(year as int, month as nat, day as nat));
    string_of(e.as_slice())
}

/// Calls `chrono::Local::now()` and reads its year, month and day.
///
/// Trusted: the date depends on the clock and the time zone; `chrono`
/// documents the month as 1 to 12 and the day as 1 to 31.
#[verifier::external_body]
fn local_date_parts() -> (r: (i32, u32, u32))
    ensures
        1 <= r.1 <= 12,
        1 <= r.2 <= 31,
{
    let now = Local::now();
    (now.year(), now.month(), now.day())
}

/// Today's local date, written `%Y-%m-%d`.
pub fn today_log_date() -> (r: String)
    ensures
        exists|y: int, m: nat, d: nat| 1 <= m <= 12 && 1 <= d <= 31 && r@ == date_text(y, m, d),
{
    let (y, m, d) = local_date_parts();
    format_log_date(y, m, d)
}

/// The log file of a date: `<date>.log`.
pub fn log_file_name(date: &str) -> (r: String)
    ensures
        r@ == date@ + log_ext(),
{
    let d = chars_of(date);
    let ext = chars_of(".log");
    proof {
        reveal_strlit(".log");
        assert(ext@ =~= log_ext());
    }
    let c = concat(&d, &ext);
    string_of(c.as_slice())
}

/// Today's log file name, as `2025-04-05.log`.
pub fn get_today_log_file_name() -> (r: String)
    ensures
        exists|y: int, m: nat, d: nat|
            1 <= m <= 12 && 1 <= d <= 31 && r@ == date_text(y, m, d) + log_ext(),
{
    let today = today_log_date();
    log_file_name(today.as_str())
}

/// A new log file is opened when the date has changed since the current
/// one was opened.
pub fn needs_rotation(current_date: &str, today: &str) -> (r: bool)
    ensures
        r == (current_date@ != today@),
{
    let a = chars_of(current_date);
    let b = chars_of(today);
    !eq_chars(&a, &b)
}

/// A length of time in whole days, truncated toward zero, as
/// `TimeDelta::num_days` gives it from `TimeDelta::num_seconds`.
pub open spec fn whole_days_spec(seconds: int) -> int {
    if seconds >= 0 {
        seconds / 86400
    } else {
        -((-seconds) / 86400)
    }
}

/// The whole days in `seconds` (a log file's age), truncated toward zero.
pub fn whole_days(seconds: i64) -> (r: i64)
    ensures
        r == whole_days_spec(seconds as int),
{
    if seconds >= 0 {
        seconds / 86400
    } else {
        let m = (-(seconds as i128)) as u64;
        let d = m / 86400;
        -(d as i64)
    }
}

/// A log file is deleted when it was last modified more than
/// `MAX_LOG_KEEP_DAYS` whole days ago.
pub fn is_expired_log(age_days: i64) -> (r: bool)
    ensures
        r == (age_days > MAX_LOG_KEEP_DAYS),
{
    age_days > MAX_LOG_KEEP_DAYS
}

} // verus!
