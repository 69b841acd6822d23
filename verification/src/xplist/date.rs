//! ISO 8601 and Apple-epoch (2001-01-01T00:00:00Z) conversions.
//!
//! The Apple epoch is 978307200 seconds after the Unix epoch.  Calendar
//! fields are computed by walking years from 1970, forward or back, then
//! months forward through the year.
use vstd::prelude::*;
use vstd::string::*;
use vstd::utf8::{encode_utf8, is_ascii_chars, is_char_boundary, valid_utf8};

use crate::float_bits::{f64_bits_to_i64, f64_trunc, i64_to_f64, i64_to_f64_bits, lemma_trunc_of_int};
use crate::text::{
    ascii_bytes, chars_of, digits_value, all_digits, is_digit, is_white, lemma_padded_digits, padded, parse_int,
    parse_integer, pow10, push_padded,
    string_of, trim_bounds, trim_end, trim_start, trimmed, unsigned_part,
};
use crate::unicode::push_char;

verus! {

/// Unix timestamp for 2001-01-01T00:00:00Z.
pub const APPLE_EPOCH_UNIX: i64 = 978_307_200;

/// Gregorian leap year.
pub open spec fn leap(year: int) -> bool {
    (year % 4 == 0 && year % 100 != 0) || year % 400 == 0
}

/// The number of days of a year.
pub open spec fn year_days(year: int) -> int {
    if leap(year) { 366 } else { 365 }
}

/// The number of days of `month` (1-12) of `year`; 0 for other months.
pub open spec fn month_days(year: int, month: int) -> int {
    if month == 1 || month == 3 || month == 5 || month == 7 || month == 8 || month == 10 || month == 12 {
        31
    } else if month == 4 || month == 6 || month == 9 || month == 11 {
        30
    } else if month == 2 {
        if leap(year) { 29 } else { 28 }
    } else {
        0
    }
}

/// Whether `year` is a Gregorian leap year.
#[verifier::spinoff_prover]
pub fn is_leap(year: i64) -> (b: bool)
    ensures
        b == leap(year as int),
{
    (year % 4 == 0 && year % 100 != 0) || (year % 400 == 0)
}

/// The number of days of `month` (1-12) of `year`; 0 for other months.
pub fn days_in_month(year: i64, month: u8) -> (n: u8)
    ensures
        n == month_days(year as int, month as int),
{
    match month {
        1 | 3 | 5 | 7 | 8 | 10 | 12 => 31,
        4 | 6 | 9 | 11 => 30,
        2 => {
            if is_leap(year) {
                29
            } else {
                28
            }
        },
        _ => 0,
    }
}

/// Days from 1970-01-01 to the first day of `year` (negative before 1970).
pub open spec fn days_to_year(year: int) -> int
    decreases (if year >= 1970 { year - 1970 } else { 1970 - year }),
{
    if year == 1970 {
        0
    } else if year > 1970 {
        days_to_year(year - 1) + year_days(year - 1)
    } else {
        days_to_year(year + 1) - year_days(year)
    }
}

/// Days from the first day of `year` to the first day of `month`.
pub open spec fn days_to_month(year: int, month: int) -> int
    decreases month,
{
    if month <= 1 {
        0
    } else {
        days_to_month(year, month - 1) + month_days(year, month - 1)
    }
}

/// Walks whole years forward from `year` while `days` (counted from its
/// first day) reaches past its end: the year reached and the day in it.
pub open spec fn split_years(days: int, year: int) -> (int, int)
    decreases days,
{
    if days < year_days(year) {
        (year, days)
    } else {
        split_years(days - year_days(year), year + 1)
    }
}

/// Walks whole months forward from `month` of `year` while `days` reaches
/// past their end (stopping at December): the month reached and the day
/// in it (0-based).
pub open spec fn split_months(year: int, days: int, month: int) -> (int, int)
    decreases 12 - month,
{
    if month >= 12 || days < month_days(year, month) {
        (month, days)
    } else {
        split_months(year, days - month_days(year, month), month + 1)
    }
}

/// Walks whole years back from `year` while `days` (counted from its first
/// day) is negative: the year reached and the day in it.
pub open spec fn split_years_back(days: int, year: int) -> (int, int)
    decreases (if days < 0 { -days } else { 0 }),
{
    if days >= 0 {
        (year, days)
    } else {
        split_years_back(days + year_days(year - 1), year - 1)
    }
}

/// The year of the day `days` days after 1970-01-01 (before it when
/// negative), and the day in that year (0-based).
pub open spec fn year_and_day(days: int) -> (int, int) {
    if days < 0 {
        split_years_back(days, 1970)
    } else {
        split_years(days, 1970)
    }
}

/// The UTC calendar fields (year, month, day, hour, minute, second) of a
/// Unix timestamp.
pub open spec fn calendar_of(unix: int) -> (i64, u8, u8, u8, u8, u8) {
    let days = unix / 86400;
    let time = unix % 86400;
    let (year, rest) = year_and_day(days);
    let (month, d) = split_months(year, rest, 1);
    (year as i64, month as u8, (d + 1) as u8, (time / 3600) as u8, ((time % 3600) / 60) as u8, (time % 60) as u8)
}

/// The Unix timestamp of calendar fields (`calendar_to_unix`).
pub open spec fn unix_of(year: int, month: int, day: int, hour: int, min: int, sec: int) -> int {
    (days_to_year(year) + days_to_month(year, month) + day - 1) * 86400 + hour * 3600 + min * 60 + sec
}

/// The number of days of `year`.
fn year_length(year: i64) -> (n: i64)
    ensures
        n == year_days(year as int),
{
    if is_leap(year) {
        366
    } else {
        365
    }
}

/// Consecutive years: the first day of the next year follows the days of
/// this one.
pub proof fn lemma_days_to_year_step(year: int)
    ensures
        days_to_year(year + 1) == days_to_year(year) + year_days(year),
{
    if year >= 1970 {
    } else {
    }
}

/// From 1970 on, years start later and later.
proof fn lemma_days_to_year_mono(a: int, b: int)
    requires
        a <= b,
    ensures
        days_to_year(a) <= days_to_year(b),
        a >= 1970 ==> days_to_year(a) >= 0,
        b <= 1970 ==> days_to_year(b) <= 0,
        (b - a) * 365 <= days_to_year(b) - days_to_year(a) <= (b - a) * 366,
    decreases b - a,
{
    if a < b {
        lemma_days_to_year_mono(a, b - 1);
        lemma_days_to_year_step(b - 1);
    }
    if a >= 1970 {
        lemma_days_to_year_mono_base(a);
    }
    if b <= 1970 {
        lemma_days_to_year_mono_below(b);
    }
}

proof fn lemma_days_to_year_mono_base(a: int)
    requires
        a >= 1970,
    ensures
        days_to_year(a) >= 0,
    decreases a - 1970,
{
    if a > 1970 {
        lemma_days_to_year_mono_base(a - 1);
    }
}

proof fn lemma_days_to_year_mono_below(b: int)
    requires
        b <= 1970,
    ensures
        days_to_year(b) <= 0,
    decreases 1970 - b,
{
    if b < 1970 {
        lemma_days_to_year_mono_below(b + 1);
    }
}

/// The months of a year add up to the year: December starts 31 days
/// before its end.
proof fn lemma_days_to_december(year: int)
    ensures
        days_to_month(year, 12) + 31 == year_days(year),
{
    reveal_with_fuel(days_to_month, 12);
}

/// Splits a Unix timestamp into its UTC calendar fields (year, month, day,
/// hour, minute, second), for dates before 1970 as well as after.
pub fn unix_to_calendar(unix_secs: i64) -> (r: (i64, u8, u8, u8, u8, u8))
    ensures
        r == calendar_of(unix_secs as int),
{
    let days0: i64 = match unix_secs.checked_div_euclid(86_400) {
        Some(d) => d,
        None => 0,
    };
    let time: i64 = match unix_secs.checked_rem_euclid(86_400) {
        Some(t) => t,
        None => 0,
    };
    let hour = (time / 3600) as u8;
    let min = ((time % 3600) / 60) as u8;
    let sec = (time % 60) as u8;
    let mut days: i64 = days0;
    let mut year: i64 = 1970;
    if days < 0 {
        // Walk years back from the Unix epoch year.
        while days < 0
            invariant
                days0 == unix_secs as int / 86400,
                i64::MIN / 86400 - 1 <= days0 < 0,
                days0 <= days,
                days < year_days(year as int),
                year <= 1970,
                (1970 - year) * 365 <= days - days0,
                split_years_back(days as int, year as int) == year_and_day(days0 as int),
            decreases 366 - days,
        {
            year = year - 1;
            days = days + year_length(year);
        }
    } else {
        // Walk years forward from the Unix epoch year.
        while days >= year_length(year)
            invariant
                days0 == unix_secs as int / 86400,
                0 <= days0 <= i64::MAX / 86400 + 1,
                0 <= days <= days0,
                year >= 1970,
                (year - 1970) * 365 <= days0 - days,
                split_years(days as int, year as int) == year_and_day(days0 as int),
            decreases days,
        {
            let diy = year_length(year);
            days = days - diy;
            year = year + 1;
        }
    }
    assert(year_and_day(days0 as int) == (year as int, days as int));
    let ghost rest = days as int;
    // Walk months forward through the year.
    let mut month: u8 = 1;
    proof {
        lemma_days_to_december(year as int);
    }
    while days >= days_in_month(year, month) as i64
        invariant
            1 <= month <= 12,
            0 <= days,
            rest < year_days(year as int),
            days + days_to_month(year as int, month as int) == rest,
            days_to_month(year as int, 12) + 31 == year_days(year as int),
            split_months(year as int, days as int, month as int) == split_months(year as int, rest, 1),
        decreases 12 - month,
    {
        proof {
            if month == 12 {
                assert(days < 31);
            }
        }
        let dim = days_in_month(year, month) as i64;
        days = days - dim;
        month = month + 1;
    }
    let day = (days + 1) as u8;
    (year, month, day, hour, min, sec)
}

/// The day count (from 1970-01-01) of the first day of `month` of `year`
/// plus `day - 1`.
pub open spec fn day_number(year: int, month: int, day: int) -> int {
    days_to_year(year) + days_to_month(year, month) + day - 1
}

/// Months never add more than a year's days.
proof fn lemma_days_to_month_bounds(year: int, month: int)
    ensures
        0 <= days_to_month(year, month) <= 366,
    decreases month,
{
    if month > 1 {
        lemma_days_to_month_bounds(year, month - 1);
        if month - 1 <= 12 {
            lemma_days_to_month_upto(year, month - 1);
        } else {
            lemma_days_to_month_flat(year, month - 1);
        }
    }
}

proof fn lemma_days_to_month_upto(year: int, month: int)
    requires
        month <= 12,
    ensures
        days_to_month(year, month) + month_days(year, month) <= 366,
{
    reveal_with_fuel(days_to_month, 13);
}

proof fn lemma_days_to_month_flat(year: int, month: int)
    requires
        month > 12,
    ensures
        days_to_month(year, month) + month_days(year, month) <= 366,
    decreases month,
{
    if month == 13 {
        reveal_with_fuel(days_to_month, 13);
    } else {
        lemma_days_to_month_flat(year, month - 1);
    }
}

/// Later months start later in the year.
proof fn lemma_days_to_month_mono(year: int, a: int, b: int)
    requires
        1 <= a <= b,
    ensures
        days_to_month(year, a) <= days_to_month(year, b),
    decreases b - a,
{
    if a < b {
        lemma_days_to_month_mono(year, a, b - 1);
    }
}

/// The Unix timestamp of calendar fields.  Months past 12 add no days.
pub fn calendar_to_unix(year: i64, month: u8, day: u8, hour: u8, min: u8, sec: u8) -> (r: i64)
    requires
        i64::MIN <= day_number(year as int, month as int, day as int) * 86400,
        day_number(year as int, month as int, day as int) * 86400 + hour * 3600 + min * 60 + sec <= i64::MAX,
    ensures
        r == unix_of(year as int, month as int, day as int, hour as int, min as int, sec as int),
{
    let ghost target = days_to_year(year as int);
    proof {
        lemma_days_to_month_bounds(year as int, month as int);
        if year <= 1970 {
            lemma_days_to_year_mono(year as int, 1970);
        } else {
            lemma_days_to_year_mono(1970, year as int);
        }
        let dn = day_number(year as int, month as int, day as int);
        assert(dn >= target - 1);
        assert(dn <= target + 366 + 254);
        assert(i64::MIN / 86400 - 1 <= dn);
        assert(i64::MIN / 86400 - 1000 <= target);
    }
    // Days from 1970-01-01 to the start of `year`.
    let mut days: i64 = 0;
    if year >= 1970 {
        let mut y: i64 = 1970;
        while y < year
            invariant
                1970 <= y <= year,
                days == days_to_year(y as int),
                0 <= target,
                days_to_year(year as int) == target,
                target <= i64::MAX / 86400 + 1,
                i64::MIN / 86400 - 1000 <= target,
            decreases year - y,
        {
            proof {
                lemma_days_to_year_step(y as int);
                lemma_days_to_year_mono(y + 1, year as int);
            }
            days = days + year_length(y);
            y = y + 1;
        }
    } else {
        let mut y: i64 = year;
        while y < 1970
            invariant
                year <= y <= 1970,
                days == target - days_to_year(y as int),
                target <= 0,
                days_to_year(year as int) == target,
                i64::MIN / 86400 - 1000 <= target,
                target <= i64::MAX / 86400 + 1,
            decreases 1970 - y,
        {
            proof {
                lemma_days_to_year_step(y as int);
                lemma_days_to_year_mono(year as int, y + 1);
                lemma_days_to_year_mono(y + 1, 1970);
            }
            days = days - year_length(y);
            y = y + 1;
        }
    }
    // Days within the year.
    let mut m: u8 = 1;
    while m < month
        invariant
            1 <= m,
            m <= month || month == 0,
            month == 0 ==> m == 1,
            days == target + days_to_month(year as int, m as int),
            target <= days <= target + 366,
            days_to_month(year as int, month as int) <= 366,
            days_to_month(year as int, m as int) <= days_to_month(year as int, month as int) || month == 0,
            i64::MIN / 86400 - 1000 <= target,
            target <= i64::MAX / 86400 + 1,
        decreases month - m,
    {
        proof {
            lemma_days_to_month_mono(year as int, m + 1, month as int);
            lemma_days_to_month_bounds(year as int, m + 1);
        }
        days = days + days_in_month(year, m) as i64;
        m = m + 1;
    }
    proof {
        if month == 0 {
            assert(days_to_month(year as int, 0) == 0);
            assert(days_to_month(year as int, 1) == 0);
        }
    }
    assert(days == target + days_to_month(year as int, month as int));
    days = days + (day as i64) - 1;
    assert(days == day_number(year as int, month as int, day as int));
    days * 86_400 + (hour as i64) * 3600 + (min as i64) * 60 + sec as i64
}

/// Walking years forward keeps the day count: the year reached starts
/// `days - r` days after year `y` does.
proof fn lemma_split_years(days: int, y: int)
    requires
        days >= 0,
    ensures
        days_to_year(split_years(days, y).0) + split_years(days, y).1 == days_to_year(y) + days,
        0 <= split_years(days, y).1 < year_days(split_years(days, y).0),
        y <= split_years(days, y).0,
        (split_years(days, y).0 - y) * 365 <= days,
    decreases days,
{
    if days >= year_days(y) {
        lemma_days_to_year_step(y);
        lemma_split_years(days - year_days(y), y + 1);
    }
}

/// Walking years back keeps the day count: the year reached starts
/// `days - r` days after year `y` does (`days` being negative, before).
proof fn lemma_split_years_back(days: int, y: int)
    requires
        days < year_days(y),
    ensures
        days_to_year(split_years_back(days, y).0) + split_years_back(days, y).1 == days_to_year(y) + days,
        0 <= split_years_back(days, y).1 < year_days(split_years_back(days, y).0),
        split_years_back(days, y).0 <= y,
        (y - split_years_back(days, y).0) * 365 <= (if days < 0 { -days + 365 } else { 0 }),
    decreases (if days < 0 { -days } else { 0 }),
{
    if days < 0 {
        lemma_days_to_year_step(y - 1);
        lemma_split_years_back(days + year_days(y - 1), y - 1);
    }
}

/// Walking months forward keeps the day count within the year.
proof fn lemma_split_months(year: int, days: int, month: int)
    requires
        0 <= days,
        1 <= month <= 12,
        days_to_month(year, month) + days < year_days(year),
    ensures
        days_to_month(year, split_months(year, days, month).0) + split_months(year, days, month).1
            == days_to_month(year, month) + days,
        0 <= split_months(year, days, month).1 < month_days(year, split_months(year, days, month).0),
        1 <= split_months(year, days, month).0 <= 12,
    decreases 12 - month,
{
    lemma_days_to_december(year);
    if month < 12 && days >= month_days(year, month) {
        lemma_split_months(year, days - month_days(year, month), month + 1);
    }
}

/// The calendar fields of a timestamp convert back to it: `calendar_to_unix`
/// accepts them and gives the timestamp.  (The first day of `i64`'s range
/// is cut short: its midnight lies below `i64::MIN`, so the day count in
/// seconds does not fit.)
pub proof fn lemma_calendar_roundtrip(t: int)
    requires
        i64::MIN <= (t / 86400) * 86400,
        t <= i64::MAX,
    ensures
        ({
            let c = calendar_of(t);
            &&& i64::MIN <= day_number(c.0 as int, c.1 as int, c.2 as int) * 86400
            &&& day_number(c.0 as int, c.1 as int, c.2 as int) * 86400 + c.3 * 3600 + c.4 * 60 + c.5 <= i64::MAX
            &&& unix_of(c.0 as int, c.1 as int, c.2 as int, c.3 as int, c.4 as int, c.5 as int) == t
        }),
{
    let days = t / 86400;
    let time = t % 86400;
    lemma_calendar_year_range(t);
    if days < 0 {
        lemma_split_years_back(days, 1970);
    } else {
        lemma_split_years(days, 1970);
    }
    let (year, rest) = year_and_day(days);
    assert(days_to_month(year, 1) == 0);
    lemma_split_months(year, rest, 1);
    let (month, d) = split_months(year, rest, 1);
    assert(d + 1 <= 31);
    let c = calendar_of(t);
    assert(c.0 == year && c.1 == month && c.2 == d + 1);
    assert(day_number(year, month, d + 1) == days);
    vstd::arithmetic::div_mod::lemma_fundamental_div_mod(t, 86400);
    vstd::arithmetic::div_mod::lemma_fundamental_div_mod(time, 3600);
    vstd::arithmetic::div_mod::lemma_fundamental_div_mod(time % 3600, 60);
    vstd::arithmetic::div_mod::lemma_mod_mod(time, 60, 60);
    assert(c.3 == time / 3600 && c.4 == (time % 3600) / 60 && c.5 == time % 60);
    assert(c.3 * 3600 + c.4 * 60 + c.5 == time);
}

/// The year of any `i64` timestamp lies within a few hundred billion years
/// of 1970 (so it is its own `i64`).
proof fn lemma_calendar_year_range(t: int)
    requires
        i64::MIN <= t <= i64::MAX,
    ensures
        calendar_of(t).0 as int == year_and_day(t / 86400).0,
        -300_000_000_000 <= year_and_day(t / 86400).0 <= 300_000_000_000,
{
    let days = t / 86400;
    if days < 0 {
        lemma_split_years_back(days, 1970);
        assert(days >= i64::MIN / 86400 - 1);
    } else {
        lemma_split_years(days, 1970);
        assert(days <= i64::MAX / 86400 + 1);
    }
}

// ── ISO 8601 text ───────────────────────────────────────────────────────────

/// A year as `{:04}` writes an `i64`: zero-padded to four characters,
/// the sign of a negative year among them.
pub open spec fn year_text(y: int) -> Seq<char> {
    if y < 0 {
        seq!['-'] + padded((-y) as nat, 3)
    } else {
        padded(y as nat, 4)
    }
}

/// `YYYY-MM-DDTHH:MM:SSZ` for calendar fields, each field zero-padded to
/// its width (a longer year keeps all its digits).
pub open spec fn iso_text(c: (i64, u8, u8, u8, u8, u8)) -> Seq<char> {
    year_text(c.0 as int) + seq!['-'] + padded(c.1 as nat, 2) + seq!['-'] + padded(c.2 as nat, 2) + seq!['T']
        + padded(c.3 as nat, 2) + seq![':'] + padded(c.4 as nat, 2) + seq![':'] + padded(c.5 as nat, 2) + seq!['Z']
}

/// The Unix timestamp of Apple-epoch seconds given as the bit pattern of a
/// binary64: truncated toward zero (saturating), then shifted by the epoch
/// offset, wrapping around at the bounds of `i64`.
pub open spec fn apple_to_unix(seconds: u64) -> i64 {
    vstd::wrapping::i64_specs::wrapping_add(f64_trunc(seconds), APPLE_EPOCH_UNIX)
}

/// Converts Apple-epoch seconds, as the bit pattern of a binary64, to
/// `YYYY-MM-DDTHH:MM:SSZ`; the seconds are truncated toward zero first.
pub fn apple_epoch_to_iso8601(seconds: u64) -> (r: String)
    ensures
        r@ == iso_text(calendar_of(apple_to_unix(seconds) as int)),
{
    let unix = f64_bits_to_i64(seconds).wrapping_add(APPLE_EPOCH_UNIX);
    let (y, mo, d, h, mi, s) = unix_to_calendar(unix);
    proof {
        lemma_calendar_year_range(unix as int);
    }
    let mut out = String::new();
    if y < 0 {
        push_char(&mut out, '-');
        push_padded(&mut out, (0 - y) as u64, 3);
    } else {
        push_padded(&mut out, y as u64, 4);
    }
    push_char(&mut out, '-');
    push_padded(&mut out, mo as u64, 2);
    push_char(&mut out, '-');
    push_padded(&mut out, d as u64, 2);
    push_char(&mut out, 'T');
    push_padded(&mut out, h as u64, 2);
    push_char(&mut out, ':');
    push_padded(&mut out, mi as u64, 2);
    push_char(&mut out, ':');
    push_padded(&mut out, s as u64, 2);
    push_char(&mut out, 'Z');
    assert(out@ =~= iso_text((y, mo, d, h, mi, s)));
    out
}

/// `t` without one trailing `Z`.
pub open spec fn strip_z(t: Seq<char>) -> Seq<char> {
    if t.len() > 0 && t.last() == 'Z' {
        t.drop_last()
    } else {
        t
    }
}

/// The UTF-8 bytes that the ISO 8601 reader looks at: `s` trimmed of white
/// space, without a trailing `Z`.
pub open spec fn iso_bytes(s: Seq<char>) -> Seq<u8> {
    encode_utf8(strip_z(trimmed(s)))
}

/// Whether the two-digit field at `a..b` of `b` parses (as a `u8`).
pub open spec fn field(bytes: Seq<u8>, a: int, b: int) -> Option<int> {
    parse_int(bytes.subrange(a, b), false, 0, 255)
}

/// Whether `c` is a separator between the date and the time.
pub open spec fn is_date_time_sep(c: u8) -> bool {
    c == 84 || c == 116 || c == 32
}

/// Whether the reader's slices past the minutes field start and end on
/// character boundaries (it stops at the first field that fails).
pub open spec fn slices_ok_after_minute(b: Seq<u8>) -> bool {
    field(b, 14, 16) is None || b[16] != 58 || (is_char_boundary(b, 17) && is_char_boundary(b, 19))
}

/// The same from the hours field on.
pub open spec fn slices_ok_after_hour(b: Seq<u8>) -> bool {
    field(b, 11, 13) is None || b[13] != 58 || (is_char_boundary(b, 14) && is_char_boundary(b, 16)
        && slices_ok_after_minute(b))
}

/// The same from the day field on.
pub open spec fn slices_ok_after_day(b: Seq<u8>) -> bool {
    field(b, 8, 10) is None || !is_date_time_sep(b[10]) || (is_char_boundary(b, 11) && is_char_boundary(b, 13)
        && slices_ok_after_hour(b))
}

/// The same from the month field on.
pub open spec fn slices_ok_after_month(b: Seq<u8>) -> bool {
    field(b, 5, 7) is None || b[7] != 45 || (is_char_boundary(b, 8) && is_char_boundary(b, 10)
        && slices_ok_after_day(b))
}

/// Whether the reader gets through its byte-range slices of `b` without
/// hitting a range that does not start and end on character boundaries (it
/// stops at the first field that fails).
pub open spec fn iso_slices_ok(b: Seq<u8>) -> bool {
    b.len() < 19 || (is_char_boundary(b, 4) && (parse_int(b.subrange(0, 4), true, i64::MIN as int, i64::MAX as int)
        is None || b[4] != 45 || (is_char_boundary(b, 5) && is_char_boundary(b, 7) && slices_ok_after_month(b))))
}

/// The fields `YYYY-MM-DD?HH:MM:SS` of the bytes `b` (`?` being `T`, `t`
/// or a space), when each parses and lies in its range.
pub open spec fn iso_fields(b: Seq<u8>) -> Option<(int, int, int, int, int, int)> {
    if b.len() < 19 {
        None
    } else {
        let y = parse_int(b.subrange(0, 4), true, i64::MIN as int, i64::MAX as int);
        let mo = field(b, 5, 7);
        let d = field(b, 8, 10);
        let h = field(b, 11, 13);
        let mi = field(b, 14, 16);
        let sc = field(b, 17, 19);
        if y is Some && b[4] == 45 && mo is Some && b[7] == 45 && d is Some && is_date_time_sep(b[10]) && h is Some && b[13] == 58 && mi is Some && b[16] == 58 && sc is Some && 1
            <= mo->0 <= 12 && 1 <= d->0 <= 31 && h->0 <= 23 && mi->0 <= 59 && sc->0 <= 59 {
            Some((y->0, mo->0, d->0, h->0, mi->0, sc->0))
        } else {
            None
        }
    }
}

/// The Apple-epoch seconds (as a binary64 bit pattern) that the ISO 8601
/// reader gives for `s`, if any.
pub open spec fn iso_to_apple(s: Seq<char>) -> Option<u64> {
    match iso_fields(iso_bytes(s)) {
        Some((y, mo, d, h, mi, sc)) => Some(i64_to_f64_bits(unix_of(y, mo, d, h, mi, sc) - APPLE_EPOCH_UNIX)),
        None => None,
    }
}

/// What the ISO 8601 reader gives for `s`: nothing when one of its fixed
/// byte ranges would split a character, else as [`iso_to_apple`].
pub open spec fn iso_read(s: Seq<char>) -> Option<u64> {
    if iso_slices_ok(iso_bytes(s)) {
        iso_to_apple(s)
    } else {
        None
    }
}

/// `n` digits are worth less than `10^n`.
proof fn lemma_digits_bound(b: Seq<u8>)
    requires
        all_digits(b),
    ensures
        digits_value(b) < pow10(b.len()),
    decreases b.len(),
{
    if b.len() > 0 {
        assert(all_digits(b.drop_last()));
        lemma_digits_bound(b.drop_last());
        assert(is_digit(b[b.len() - 1]));
    }
}

/// A four-byte year lies within -999..=9999.
proof fn lemma_year_range(b: Seq<u8>, y: int)
    requires
        b.len() == 4,
        parse_int(b, true, i64::MIN as int, i64::MAX as int) == Some(y),
    ensures
        -999 <= y <= 9999,
{
    let body = unsigned_part(b, true);
    lemma_digits_bound(body);
    reveal_with_fuel(pow10, 5);
}

/// Parses the two-digit field at `a..a + 2`.
fn parse_field(b: &[u8], a: usize) -> (r: Option<u8>)
    requires
        a <= 17,
        a + 2 <= b@.len(),
    ensures
        r matches Some(v) ==> field(b@, a as int, a + 2) == Some(v as int),
        r is None ==> field(b@, a as int, a + 2) is None,
{
    match parse_integer(b, a, a + 2, false, 0, 255) {
        Some(v) => Some(v as u8),
        None => None,
    }
}

/// `s` trimmed of white space, without a trailing `Z`.
fn iso_core(s: &str) -> (t: String)
    ensures
        t@ == strip_z(trimmed(s@)),
{
    let cs = chars_of(s);
    let (a, b0) = trim_bounds(&cs);
    let mut e = b0;
    if e > a && cs[e - 1] == 'Z' {
        e = e - 1;
    }
    let t = string_of(&cs, a, e);
    assert(t@ =~= strip_z(trimmed(s@)));
    t
}

/// Whether reading `s` as an ISO 8601 date takes only byte ranges that
/// start and end on character boundaries (see [`iso_slices_ok`]).
pub fn iso_slices_fit(s: &str) -> (ok: bool)
    ensures
        ok == iso_slices_ok(iso_bytes(s@)),
{
    let t = iso_core(s);
    let ts = t.as_str();
    let b = ts.as_bytes();
    if b.len() < 19 {
        return true;
    }
    if !ts.is_char_boundary(4) {
        return false;
    }
    if parse_integer(b, 0, 4, true, i64::MIN, i64::MAX).is_none() || b[4] != 45 {
        return true;
    }
    if !(ts.is_char_boundary(5) && ts.is_char_boundary(7)) {
        return false;
    }
    if parse_field(b, 5).is_none() || b[7] != 45 {
        return true;
    }
    if !(ts.is_char_boundary(8) && ts.is_char_boundary(10)) {
        return false;
    }
    if parse_field(b, 8).is_none() || !(b[10] == 84 || b[10] == 116 || b[10] == 32) {
        return true;
    }
    if !(ts.is_char_boundary(11) && ts.is_char_boundary(13)) {
        return false;
    }
    if parse_field(b, 11).is_none() || b[13] != 58 {
        return true;
    }
    if !(ts.is_char_boundary(14) && ts.is_char_boundary(16)) {
        return false;
    }
    if parse_field(b, 14).is_none() || b[16] != 58 {
        return true;
    }
    ts.is_char_boundary(17) && ts.is_char_boundary(19)
}

/// Parses `YYYY-MM-DDTHH:MM:SSZ` (or without the `Z`, or with `t` or a space
/// for `T`, after trimming white space) into Apple-epoch seconds, as the
/// bit pattern of a binary64.  `Err(())` when it does not parse, a fixed
/// field range that would split a character included.
pub fn iso8601_to_apple_epoch(s: &str) -> (r: Result<u64, ()>)
    ensures
        r matches Ok(bits) ==> iso_read(s@) == Some(bits),
        r is Err ==> iso_read(s@) is None,
{
    if !iso_slices_fit(s) {
        return Err(());
    }
    let t = iso_core(s);
    let tb = t.as_str().as_bytes();
    assert(tb@ == iso_bytes(s@));
    if tb.len() < 19 {
        return Err(());
    }
    let year = match parse_integer(tb, 0, 4, true, i64::MIN, i64::MAX) {
        Some(v) => v,
        None => return Err(()),
    };
    if tb[4] != 45 {
        return Err(());
    }
    let month = match parse_field(tb, 5) {
        Some(v) => v,
        None => return Err(()),
    };
    if tb[7] != 45 {
        return Err(());
    }
    let day = match parse_field(tb, 8) {
        Some(v) => v,
        None => return Err(()),
    };
    let sep = tb[10];
    if sep != 84 && sep != 116 && sep != 32 {
        return Err(());
    }
    let hour = match parse_field(tb, 11) {
        Some(v) => v,
        None => return Err(()),
    };
    if tb[13] != 58 {
        return Err(());
    }
    let min = match parse_field(tb, 14) {
        Some(v) => v,
        None => return Err(()),
    };
    if tb[16] != 58 {
        return Err(());
    }
    let sec = match parse_field(tb, 17) {
        Some(v) => v,
        None => return Err(()),
    };
    if month == 0 || month > 12 || day == 0 || day > 31 || hour > 23 || min > 59 || sec > 59 {
        return Err(());
    }
    proof {
        lemma_year_range(tb@.subrange(0, 4), year as int);
        lemma_days_to_month_bounds(year as int, month as int);
        if year <= 1970 {
            lemma_days_to_year_mono(year as int, 1970);
        } else {
            lemma_days_to_year_mono(1970, year as int);
        }
    }
    let unix = calendar_to_unix(year, month, day, hour, min, sec);
    Ok(i64_to_f64(unix - APPLE_EPOCH_UNIX))
}

// ── Reading back what was written ───────────────────────────────────────────

/// The UTF-8 of an ASCII text is its characters, byte for byte.
proof fn lemma_ascii_encode(s: Seq<char>)
    requires
        is_ascii_chars(s),
    ensures
        encode_utf8(s) == ascii_bytes(s),
{
    broadcast use vstd::utf8::is_ascii_chars_encode_utf8;

    assert(encode_utf8(s) =~= ascii_bytes(s));
}

/// A year from -999 to 9999 written by `year_text`: four ASCII characters
/// that read back as the year.
proof fn lemma_year_text(y: int)
    requires
        -999 <= y <= 9999,
    ensures
        year_text(y).len() == 4,
        is_ascii_chars(year_text(y)),
        year_text(y)[0] == '-' || ('0' <= year_text(y)[0] <= '9'),
        parse_int(ascii_bytes(year_text(y)), true, i64::MIN as int, i64::MAX as int) == Some(y),
{
    reveal_with_fuel(pow10, 5);
    let t = year_text(y);
    let b = ascii_bytes(t);
    if y < 0 {
        lemma_padded_digits((-y) as nat, 3);
        assert(b.drop_first() =~= ascii_bytes(padded((-y) as nat, 3)));
        assert(b[0] == 45);
    } else {
        lemma_padded_digits(y as nat, 4);
        assert(is_digit(b[0]));
    }
    assert(is_ascii_chars(t));
}

/// A field from 0 to 99 written by `padded(_, 2)`: two ASCII digits that
/// read back as the field.
proof fn lemma_field_text(n: int)
    requires
        0 <= n <= 99,
    ensures
        padded(n as nat, 2).len() == 2,
        is_ascii_chars(padded(n as nat, 2)),
        parse_int(ascii_bytes(padded(n as nat, 2)), false, 0, 255) == Some(n),
{
    reveal_with_fuel(pow10, 3);
    lemma_padded_digits(n as nat, 2);
    let b = ascii_bytes(padded(n as nat, 2));
    assert(is_digit(b[0]));
    assert(is_ascii_chars(padded(n as nat, 2)));
}

/// The fields of a timestamp lie in their ranges, and a year from -999 on
/// starts a day count whose midnight fits in `i64`.
proof fn lemma_calendar_fields(t: int)
    requires
        i64::MIN <= t <= i64::MAX,
        -999 <= calendar_of(t).0,
    ensures
        1 <= calendar_of(t).1 <= 12,
        1 <= calendar_of(t).2 <= 31,
        calendar_of(t).3 <= 23,
        calendar_of(t).4 <= 59,
        calendar_of(t).5 <= 59,
        i64::MIN <= (t / 86400) * 86400,
{
    let days = t / 86400;
    lemma_calendar_year_range(t);
    if days < 0 {
        lemma_split_years_back(days, 1970);
    } else {
        lemma_split_years(days, 1970);
    }
    let (year, rest) = year_and_day(days);
    assert(days_to_month(year, 1) == 0);
    lemma_split_months(year, rest, 1);
    if year <= 1970 {
        lemma_days_to_year_mono(-999, year);
    }
    lemma_days_to_year_mono(-999, 1970);
    assert(days >= -2969 * 366);
}

/// The text of calendar fields in their ranges, with a year of four
/// characters, is read as those fields, and its slices stay on character
/// boundaries.
proof fn lemma_iso_text_fields(c: (i64, u8, u8, u8, u8, u8))
    requires
        -999 <= c.0 <= 9999,
        1 <= c.1 <= 12,
        1 <= c.2 <= 31,
        c.3 <= 23,
        c.4 <= 59,
        c.5 <= 59,
    ensures
        iso_slices_ok(iso_bytes(iso_text(c))),
        iso_fields(iso_bytes(iso_text(c))) == Some((c.0 as int, c.1 as int, c.2 as int, c.3 as int, c.4 as int, c.5 as int)),
        !is_white(iso_text(c)[0]),
        !is_white(iso_text(c).last()),
{
    broadcast use vstd::utf8::group_utf8_lib;

    lemma_year_text(c.0 as int);
    lemma_field_text(c.1 as int);
    lemma_field_text(c.2 as int);
    lemma_field_text(c.3 as int);
    lemma_field_text(c.4 as int);
    lemma_field_text(c.5 as int);
    let yt = year_text(c.0 as int);
    let text = iso_text(c);
    assert(text.len() == 20);
    assert(!is_white(text[0]));
    assert(text.last() == 'Z');
    assert(trim_start(text) == text);
    assert(trim_end(text) == text);
    assert(trimmed(text) == text);
    let core = text.drop_last();
    assert(strip_z(text) == core);
    assert(is_ascii_chars(core));
    lemma_ascii_encode(core);
    let b = iso_bytes(text);
    assert(b == ascii_bytes(core));
    assert(b.subrange(0, 4) =~= ascii_bytes(yt));
    assert(b.subrange(5, 7) =~= ascii_bytes(padded(c.1 as nat, 2)));
    assert(b.subrange(8, 10) =~= ascii_bytes(padded(c.2 as nat, 2)));
    assert(b.subrange(11, 13) =~= ascii_bytes(padded(c.3 as nat, 2)));
    assert(b.subrange(14, 16) =~= ascii_bytes(padded(c.4 as nat, 2)));
    assert(b.subrange(17, 19) =~= ascii_bytes(padded(c.5 as nat, 2)));
    assert(b[4] == 45 && b[7] == 45 && b[10] == 84 && b[13] == 58 && b[16] == 58);
    assert(iso_fields(b) == Some((c.0 as int, c.1 as int, c.2 as int, c.3 as int, c.4 as int, c.5 as int)));
    assert(valid_utf8(b));
    assert(b.len() == 19);
    assert forall|k: int| 0 <= k <= 19 implies is_char_boundary(b, k) by {
        if k < 19 {
            assert(b[k] < 128);
            assert(!vstd::utf8::is_continuation_byte(b[k]));
            vstd::utf8::is_char_boundary_iff_not_is_continuation_byte(b, k);
        } else {
            vstd::utf8::is_char_boundary_start_end_of_seq(b);
        }
    }
}

/// Reading back what `apple_epoch_to_iso8601` writes: for a date whose
/// year has four characters (-999 to 9999) and whose Unix time fits in
/// `i64`, `iso8601_to_apple_epoch` reads the text as the date's
/// Apple-epoch seconds truncated toward zero, as a binary64.
pub proof fn lemma_iso_roundtrip(seconds: u64)
    requires
        i64::MIN <= f64_trunc(seconds) + APPLE_EPOCH_UNIX <= i64::MAX,
        -999 <= calendar_of(f64_trunc(seconds) + APPLE_EPOCH_UNIX).0 <= 9999,
    ensures
        iso_read(iso_text(calendar_of(apple_to_unix(seconds) as int))) == Some(
            i64_to_f64_bits(f64_trunc(seconds) as int),
        ),
        !is_white(iso_text(calendar_of(apple_to_unix(seconds) as int))[0]),
        !is_white(iso_text(calendar_of(apple_to_unix(seconds) as int)).last()),
{
    let u = f64_trunc(seconds) + APPLE_EPOCH_UNIX;
    assert(apple_to_unix(seconds) as int == u);
    let c = calendar_of(u);
    lemma_calendar_fields(u);
    lemma_calendar_roundtrip(u);
    lemma_iso_text_fields(c);
}

// ── Writing back what was read ──────────────────────────────────────────────

/// Walking years forward from `y0` to a day `r` into year `y` stops there.
proof fn lemma_split_years_at(y0: int, y: int, r: int)
    requires
        y0 <= y,
        0 <= r < year_days(y),
    ensures
        split_years(days_to_year(y) - days_to_year(y0) + r, y0) == (y, r),
    decreases y - y0,
{
    if y0 < y {
        lemma_days_to_year_step(y0);
        lemma_days_to_year_mono(y0 + 1, y);
        lemma_split_years_at(y0 + 1, y, r);
    }
}

/// Walking years back from `y0` to a day `r` into year `y` stops there.
proof fn lemma_split_back_at(y: int, y0: int, r: int)
    requires
        y <= y0,
        0 <= r < year_days(y),
    ensures
        split_years_back(days_to_year(y) - days_to_year(y0) + r, y0) == (y, r),
    decreases y0 - y,
{
    if y < y0 {
        lemma_days_to_year_step(y0 - 1);
        lemma_days_to_year_step(y);
        lemma_days_to_year_mono(y + 1, y0);
        lemma_split_back_at(y, y0 - 1, r);
    }
}

/// Walking months forward from `m0` to a day `r` into month `mo` stops
/// there.
proof fn lemma_split_months_at(y: int, m0: int, mo: int, r: int)
    requires
        1 <= m0 <= mo <= 12,
        0 <= r < month_days(y, mo),
    ensures
        split_months(y, days_to_month(y, mo) - days_to_month(y, m0) + r, m0) == (mo, r),
    decreases mo - m0,
{
    if m0 < mo {
        lemma_days_to_month_mono(y, m0 + 1, mo);
        lemma_split_months_at(y, m0 + 1, mo, r);
    }
}

/// Valid calendar fields with a year of four characters: their timestamp
/// has them as its fields, and lies well within 2^53 seconds of 1970.
proof fn lemma_calendar_of_fields(c: (i64, u8, u8, u8, u8, u8))
    requires
        -999 <= c.0 <= 9999,
        1 <= c.1 <= 12,
        1 <= c.2 <= month_days(c.0 as int, c.1 as int),
        c.3 <= 23,
        c.4 <= 59,
        c.5 <= 59,
    ensures
        calendar_of(unix_of(c.0 as int, c.1 as int, c.2 as int, c.3 as int, c.4 as int, c.5 as int)) == c,
        -100_000_000_000 < unix_of(c.0 as int, c.1 as int, c.2 as int, c.3 as int, c.4 as int, c.5 as int)
            < 300_000_000_000,
{
    let y = c.0 as int;
    let mo = c.1 as int;
    let r = days_to_month(y, mo) + c.2 - 1;
    let days = days_to_year(y) + r;
    let time = c.3 * 3600 + c.4 * 60 + c.5;
    let u = unix_of(y, mo, c.2 as int, c.3 as int, c.4 as int, c.5 as int);
    lemma_days_to_december(y);
    lemma_days_to_month_bounds(y, mo);
    if mo < 12 {
        lemma_days_to_month_mono(y, mo + 1, 12);
        assert(days_to_month(y, mo + 1) == days_to_month(y, mo) + month_days(y, mo));
    }
    assert(0 <= r < year_days(y));
    assert(days_to_month(y, 1) == 0);
    lemma_split_months_at(y, 1, mo, c.2 - 1);
    if y >= 1970 {
        lemma_days_to_year_mono(1970, y);
        lemma_split_years_at(1970, y, r);
    } else {
        lemma_days_to_year_mono(y, 1970);
        lemma_days_to_year_step(y);
        lemma_split_back_at(y, 1970, r);
    }
    assert(year_and_day(days) == (y, r));
    assert(u == days * 86400 + time);
    vstd::arithmetic::div_mod::lemma_fundamental_div_mod_converse(u, 86400, days, time);
    vstd::arithmetic::div_mod::lemma_fundamental_div_mod_converse(time, 3600, c.3 as int, c.4 * 60 + c.5);
    vstd::arithmetic::div_mod::lemma_fundamental_div_mod_converse(c.4 * 60 + c.5, 60, c.4 as int, c.5 as int);
    vstd::arithmetic::div_mod::lemma_fundamental_div_mod_converse(time, 60, c.3 * 60 + c.4, c.5 as int);
    lemma_days_to_year_mono(-999, 1970);
    lemma_days_to_year_mono(1970, 10000);
    if y >= 1970 {
        lemma_days_to_year_mono(y, 10000);
    } else {
        lemma_days_to_year_mono(-999, y);
    }
}

/// Writing back what `iso8601_to_apple_epoch` reads: for the text of a
/// valid date and time (the day within its month) whose year has four
/// characters (-999 to 9999), the reader gives seconds that
/// `apple_epoch_to_iso8601` writes as the same text.
pub proof fn lemma_iso_text_roundtrip(c: (i64, u8, u8, u8, u8, u8))
    requires
        -999 <= c.0 <= 9999,
        1 <= c.1 <= 12,
        1 <= c.2 <= month_days(c.0 as int, c.1 as int),
        c.3 <= 23,
        c.4 <= 59,
        c.5 <= 59,
    ensures
        iso_read(iso_text(c)) matches Some(a) && iso_text(calendar_of(apple_to_unix(a) as int)) == iso_text(c),
{
    lemma_iso_text_fields(c);
    lemma_calendar_of_fields(c);
    let u = unix_of(c.0 as int, c.1 as int, c.2 as int, c.3 as int, c.4 as int, c.5 as int);
    let a = i64_to_f64_bits(u - APPLE_EPOCH_UNIX);
    assert(iso_read(iso_text(c)) == Some(a));
    lemma_trunc_of_int(u - APPLE_EPOCH_UNIX);
    assert(apple_to_unix(a) as int == u);
}

} // verus!
