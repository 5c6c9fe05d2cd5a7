//! Local time: the UTC offset as `date +%z` prints it, and the hour, clock
//! time and calendar day of a unix time in that offset.

use vstd::prelude::*;
use crate::text::{push_char, push_pad2, pad2};
use vstd::arithmetic::div_mod::lemma_fundamental_div_mod_converse;

verus! {

// ---------- integers in text ----------

pub open spec fn is_digit(c: char) -> bool {
    '0' <= c && c <= '9'
}

pub open spec fn all_digits(s: Seq<char>) -> bool {
    forall|i: int| 0 <= i < s.len() ==> is_digit(#[trigger] s[i])
}

/// The number that a string of decimal digits denotes.
pub open spec fn digits_value(s: Seq<char>) -> int
    decreases s.len(),
{
    if s.len() == 0 {
        0
    } else {
        digits_value(s.drop_last()) * 10 + (s.last() as int - 48)
    }
}

pub open spec fn has_sign(s: Seq<char>) -> bool {
    s.len() > 0 && (s[0] == '+' || s[0] == '-')
}

/// The digits after an optional sign.
pub open spec fn unsigned_part(s: Seq<char>) -> Seq<char> {
    if has_sign(s) {
        s.drop_first()
    } else {
        s
    }
}

/// What `str::parse::<i64>` accepts and returns: an optional `+` or `-`,
/// then at least one decimal digit, denoting a value that fits in `i64`.
pub open spec fn parse_int(s: Seq<char>) -> Option<int> {
    let body = unsigned_part(s);
    if body.len() == 0 || !all_digits(body) {
        None
    } else {
        let v = if s[0] == '-' {
            -digits_value(body)
        } else {
            digits_value(body)
        };
        if i64::MIN <= v <= i64::MAX {
            Some(v)
        } else {
            None
        }
    }
}

proof fn lemma_digits_value_nonneg(s: Seq<char>)
    requires
        all_digits(s),
    ensures
        digits_value(s) >= 0,
    decreases s.len(),
{
    if s.len() > 0 {
        lemma_digits_value_nonneg(s.drop_last());
    }
}

/// A longer run of digits never denotes less than its prefix.
proof fn lemma_digits_value_grows(s: Seq<char>, k: int)
    requires
        all_digits(s),
        0 <= k <= s.len(),
    ensures
        digits_value(s.take(k)) <= digits_value(s),
    decreases s.len() - k,
{
    if k < s.len() {
        lemma_digits_value_grows(s, k + 1);
        assert(s.take(k + 1).drop_last() =~= s.take(k));
        lemma_digits_value_nonneg(s.take(k));
    } else {
        assert(s.take(k) =~= s);
    }
}

/// Parses a decimal integer as `str::parse::<i64>` does.
pub fn parse_i64(s: &str) -> (r: Option<i64>)
    ensures
        r matches Some(v) ==> parse_int(s@) == Some(v as int),
        r is None ==> parse_int(s@) is None,
{
    let len = s.unicode_len();
    if len == 0 {
        return None;
    }
    let first = s.get_char(0);
    let start: usize = if first == '+' || first == '-' { 1 } else { 0 };
    let ghost body = unsigned_part(s@);
    assert(body =~= s@.subrange(start as int, len as int));
    if start == len {
        return None;
    }
    let mut acc: i128 = 0;
    let mut i: usize = start;
    assert(body.take(0) =~= Seq::<char>::empty());
    while i < len
        invariant
            len == s@.len(),
            start <= i <= len,
            body == s@.subrange(start as int, len as int),
            body == unsigned_part(s@),
            all_digits(body.take(i - start)),
            acc == digits_value(body.take(i - start)),
            0 <= acc <= 9223372036854775808,
        decreases len - i,
    {
        let c = s.get_char(i);
        if !('0' <= c && c <= '9') {
            assert(body[i - start] == c);
            assert(!is_digit(body[i - start]));
            return None;
        }
        let d: i128 = (c as u32) as i128 - 48;
        acc = acc * 10 + d;
        i = i + 1;
        assert(body.take(i - start).drop_last() =~= body.take(i - 1 - start));
        assert(all_digits(body.take(i - start))) by {
            assert forall|j: int| 0 <= j < body.take(i - start).len() implies is_digit(
                #[trigger] body.take(i - start)[j],
            ) by {
                if j < i - 1 - start {
                    assert(body.take(i - start)[j] == body.take(i - 1 - start)[j]);
                }
            }
        }
        if acc > 9223372036854775808 {
            proof {
                if all_digits(body) {
                    lemma_digits_value_grows(body, i - start);
                }
            }
            return None;
        }
    }
    assert(body.take(len - start) =~= body);
    let v: i128 = if first == '-' { -acc } else { acc };
    if v < -9223372036854775808 || v > 9223372036854775807 {
        None
    } else {
        Some(v as i64)
    }
}

// ---------- UTC offset ----------

/// The offset in seconds that `date +%z` output (`+0900`) or a plain number
/// of seconds (`32400`) denotes; anything unreadable is no offset.
pub open spec fn offset_seconds(s: Seq<char>) -> int {
    match parse_int(s) {
        Some(secs) => if s.len() == 5 && has_sign(s) {
            let sign = if s[0] == '-' { -1int } else { 1int };
            let n = if secs < 0 { -secs } else { secs };
            sign * ((n / 100) * 3600 + (n % 100) * 60)
        } else {
            secs
        },
        None => 0,
    }
}

/// Reads a UTC offset, `+0900` or `32400`, as seconds.
pub fn parse_offset(s: &str) -> (r: i64)
    ensures
        r == offset_seconds(s@),
{
    match parse_i64(s) {
        Some(secs) => {
            if s.unicode_len() == 5 {
                let first = s.get_char(0);
                if first == '+' || first == '-' {
                    let sign: i64 = if first == '-' { -1 } else { 1 };
                    assert(-10000 < secs < 10000) by {
                        let body = unsigned_part(s@);
                        assert(body.len() == 4);
                        assert(body =~= body.take(4));
                        reveal_with_fuel(digits_value, 5);
                        assert(body.take(4).drop_last() =~= body.take(3));
                        assert(body.take(3).drop_last() =~= body.take(2));
                        assert(body.take(2).drop_last() =~= body.take(1));
                        assert(body.take(1).drop_last() =~= body.take(0));
                        assert(is_digit(body[0]) && is_digit(body[1]) && is_digit(body[2])
                            && is_digit(body[3]));
                    }
                    let n: i64 = if secs < 0 { -secs } else { secs };
                    return sign * ((n / 100) * 3600 + (n % 100) * 60);
                }
            }
            secs
        },
        None => 0,
    }
}

// ---------- local clock ----------

/// Whether `t + offset` stays within `i64`.
pub open spec fn shift_fits(t: i64, offset: i64) -> bool {
    i64::MIN <= t + offset <= i64::MAX
}

/// Seconds since local midnight.
pub open spec fn second_of_day(t: int, offset: int) -> int {
    (t + offset) % 86400
}

/// The local hour (0 to 23) of unix time `t` in a zone `offset` seconds east of UTC.
pub open spec fn hour_of(t: int, offset: int) -> int {
    second_of_day(t, offset) / 3600
}

fn day_second(t: i64, offset: i64) -> (r: i64)
    requires
        shift_fits(t, offset),
    ensures
        r == second_of_day(t as int, offset as int),
        0 <= r < 86400,
{
    let x = t + offset;
    let r = x % 86400;
    if r < 0 {
        r + 86400
    } else {
        r
    }
}

/// The local hour of `t`; a day is cut where the local clock passes midnight.
pub fn local_hour(t: i64, offset: i64) -> (r: i64)
    requires
        shift_fits(t, offset),
    ensures
        r == hour_of(t as int, offset as int),
        0 <= r < 24,
{
    day_second(t, offset) / 3600
}

/// `HH:MM` of the local clock.
pub open spec fn hhmm_text(t: int, offset: int) -> Seq<char> {
    let s = second_of_day(t, offset);
    pad2(s / 3600) + seq![':'] + pad2((s % 3600) / 60)
}

/// `HH:MM:SS` of the local clock.
pub open spec fn hhmmss_text(t: int, offset: int) -> Seq<char> {
    let s = second_of_day(t, offset);
    pad2(s / 3600) + seq![':'] + pad2((s % 3600) / 60) + seq![':'] + pad2(s % 60)
}

/// The local clock time of `t`, as `HH:MM`.
pub fn hhmm(t: i64, offset: i64) -> (r: String)
    requires
        shift_fits(t, offset),
    ensures
        r@ == hhmm_text(t as int, offset as int),
{
    let s = day_second(t, offset);
    let mut r = String::new();
    push_pad2(&mut r, s / 3600);
    push_char(&mut r, ':');
    push_pad2(&mut r, (s % 3600) / 60);
    assert(r@ =~= hhmm_text(t as int, offset as int));
    r
}

/// The local clock time of `t`, as `HH:MM:SS`.
pub fn hhmmss(t: i64, offset: i64) -> (r: String)
    requires
        shift_fits(t, offset),
    ensures
        r@ == hhmmss_text(t as int, offset as int),
{
    let s = day_second(t, offset);
    let mut r = String::new();
    push_pad2(&mut r, s / 3600);
    push_char(&mut r, ':');
    push_pad2(&mut r, (s % 3600) / 60);
    push_char(&mut r, ':');
    push_pad2(&mut r, s % 60);
    assert(r@ =~= hhmmss_text(t as int, offset as int));
    r
}

// ---------- calendar day ----------

/// The day number (days since 1970-01-01) of the local day that holds `t`.
pub open spec fn local_day(t: int, offset: int) -> int {
    (t + offset) / 86400
}

/// The proleptic Gregorian date `(year, month, day)` of a day number, by the
/// era-based conversion of days to civil dates.
pub open spec fn civil_from_days(days: int) -> (int, int, int) {
    let z = days + 719468;
    let era = z / 146097;
    let doe = z - era * 146097;
    let yoe = (doe - doe / 1460 + doe / 36524 - doe / 146096) / 365;
    let y = yoe + era * 400;
    let doy = doe - (365 * yoe + yoe / 4 - yoe / 100);
    let mp = (5 * doy + 2) / 153;
    let d = doy - (153 * mp + 2) / 5 + 1;
    let m = if mp < 10 { mp + 3 } else { mp - 9 };
    (if m <= 2 { y + 1 } else { y }, m, d)
}

/// `MM-DD` of the local calendar day that holds `t`.
pub open spec fn mmdd_text(t: int, offset: int) -> Seq<char> {
    let date = civil_from_days(local_day(t, offset));
    pad2(date.1) + seq!['-'] + pad2(date.2)
}

/// The local calendar day of `t`, as `MM-DD`.
pub fn mmdd(t: i64, offset: i64) -> (r: String)
    requires
        shift_fits(t, offset),
    ensures
        r@ == mmdd_text(t as int, offset as int),
{
    let x = t + offset;
    let days: i64 = if x % 86400 < 0 { x / 86400 - 1 } else { x / 86400 };
    assert(days == local_day(t as int, offset as int));
    let z = days + 719468;
    let era: i64 = if z % 146097 < 0 { z / 146097 - 1 } else { z / 146097 };
    assert(era == z / 146097);
    let doe = z - era * 146097;
    assert(0 <= doe < 146097);
    let yoe = (doe - doe / 1460 + doe / 36524 - doe / 146096) / 365;
    assert(0 <= yoe <= 400);
    let doy = doe - (365 * yoe + yoe / 4 - yoe / 100);
    assert(0 <= doy < 1000) by (nonlinear_arith)
        requires
            0 <= doe < 146097,
            yoe == (doe - doe / 1460 + doe / 36524 - doe / 146096) / 365,
            doy == doe - (365 * yoe + yoe / 4 - yoe / 100),
    ;
    let mp = (5 * doy + 2) / 153;
    let d = doy - (153 * mp + 2) / 5 + 1;
    let m = if mp < 10 { mp + 3 } else { mp - 9 };
    let mut r = String::new();
    push_pad2(&mut r, m);
    push_char(&mut r, '-');
    push_pad2(&mut r, d);
    assert(r@ =~= mmdd_text(t as int, offset as int));
    r
}

// ---------- the calendar ----------

/// A leap year of the proleptic Gregorian calendar.
pub open spec fn is_leap(y: int) -> bool {
    y % 4 == 0 && (y % 100 != 0 || y % 400 == 0)
}

/// The number of days of month `m` (1 to 12) of year `y`.
pub open spec fn days_in_month(y: int, m: int) -> int {
    if m == 2 {
        if is_leap(y) {
            29
        } else {
            28
        }
    } else if m == 4 || m == 6 || m == 9 || m == 11 {
        30
    } else {
        31
    }
}

/// Days of the year `y` before the first of month `m`.
pub open spec fn days_before_month(y: int, m: int) -> int {
    let common = if m == 1 {
        0int
    } else if m == 2 {
        31
    } else if m == 3 {
        59
    } else if m == 4 {
        90
    } else if m == 5 {
        120
    } else if m == 6 {
        151
    } else if m == 7 {
        181
    } else if m == 8 {
        212
    } else if m == 9 {
        243
    } else if m == 10 {
        273
    } else if m == 11 {
        304
    } else {
        334
    };
    common + if m > 2 && is_leap(y) {
        1int
    } else {
        0
    }
}

/// Days from 0001-01-01 to the first of January of year `y`: 365 a year and
/// one for each leap year in between.
pub open spec fn days_before_year(y: int) -> int {
    let p = y - 1;
    365 * p + p / 4 - p / 100 + p / 400
}

/// The day number (days since 1970-01-01) of the date `y-m-d`.
pub open spec fn day_number(y: int, m: int, d: int) -> int {
    days_before_year(y) + days_before_month(y, m) + d - 1 - 719162
}

/// A date of the calendar: a month of the year and a day of that month.
pub open spec fn valid_date(y: int, m: int, d: int) -> bool {
    1 <= m <= 12 && 1 <= d <= days_in_month(y, m)
}

/// Days of a 400-year era before the March-based year `y` (0 to 400) of it.
spec fn era_days(y: int) -> int {
    365 * y + y / 4 - y / 100
}

proof fn lemma_year_of_era(doe: int)
    requires
        0 <= doe < 146097,
    ensures
        ({
            let yoe = (doe - doe / 1460 + doe / 36524 - doe / 146096) / 365;
            &&& 0 <= yoe < 400
            &&& era_days(yoe) <= doe
            &&& doe < era_days(yoe + 1) || (yoe == 399 && doe == 146096)
        }),
{
    let a = doe / 1460;
    let b = doe / 36524;
    let c = doe / 146096;
    let yoe = (doe - a + b - c) / 365;
    assert(0 <= yoe < 400);
    assert(era_days(yoe) <= doe);
    assert(doe < era_days(yoe + 1) || (yoe == 399 && doe == 146096));
}

/// The length of month `m` in a year that is a leap year or not.
spec fn month_len(m: int, leap: bool) -> int {
    if m == 2 {
        if leap {
            29
        } else {
            28
        }
    } else if m == 4 || m == 6 || m == 9 || m == 11 {
        30
    } else {
        31
    }
}

proof fn lemma_month_of_year(doy: int, leap: bool)
    requires
        0 <= doy <= (if leap { 365int } else { 364 }),
    ensures
        ({
            let mp = (5 * doy + 2) / 153;
            let d = doy - (153 * mp + 2) / 5 + 1;
            let m = if mp < 10 { mp + 3 } else { mp - 9 };
            &&& 0 <= mp <= 11
            &&& 1 <= d <= month_len(m, leap)
            &&& (mp < 10 ==> (153 * mp + 2) / 5 + 59 == days_before_month(2001, m))
            &&& (mp >= 10 ==> (153 * mp + 2) / 5 == 306 + days_before_month(2001, m))
        }),
{
    let mp = (5 * doy + 2) / 153;
    assert(0 <= mp <= 11);
    let d = doy - (153 * mp + 2) / 5 + 1;
    let m = if mp < 10 { mp + 3 } else { mp - 9 };
    if mp == 0 {
    } else if mp == 1 {
    } else if mp == 2 {
    } else if mp == 3 {
    } else if mp == 4 {
    } else if mp == 5 {
    } else if mp == 6 {
    } else if mp == 7 {
    } else if mp == 8 {
    } else if mp == 9 {
    } else if mp == 10 {
    } else {
    }
}

proof fn lemma_years_shift(y: int, e: int)
    ensures
        days_before_year(y + 400 * e) == days_before_year(y) + 146097 * e,
        is_leap(y + 400 * e) == is_leap(y),
{
    let p = y - 1;
    lemma_fundamental_div_mod_converse(p + 400 * e, 4, p / 4 + 100 * e, p % 4);
    lemma_fundamental_div_mod_converse(p + 400 * e, 100, p / 100 + 4 * e, p % 100);
    lemma_fundamental_div_mod_converse(p + 400 * e, 400, p / 400 + e, p % 400);
    lemma_fundamental_div_mod_converse(y + 400 * e, 4, y / 4 + 100 * e, y % 4);
    lemma_fundamental_div_mod_converse(y + 400 * e, 100, y / 100 + 4 * e, y % 100);
    lemma_fundamental_div_mod_converse(y + 400 * e, 400, y / 400 + e, y % 400);
}

proof fn lemma_era_year_length(yoe: int)
    requires
        0 <= yoe < 399,
    ensures
        era_days(yoe + 1) - era_days(yoe) == 365 + (if is_leap(yoe + 1) { 1int } else { 0 }),
{
}

/// The date that `mmdd` prints is a date of the proleptic Gregorian
/// calendar, and it is the date of the given day number.
pub proof fn lemma_civil_from_days(days: int)
    ensures
        ({
            let (y, m, d) = civil_from_days(days);
            valid_date(y, m, d) && day_number(y, m, d) == days
        }),
{
    let z = days + 719468;
    let era = z / 146097;
    let doe = z - era * 146097;
    lemma_year_of_era(doe);
    let yoe = (doe - doe / 1460 + doe / 36524 - doe / 146096) / 365;
    let doy = doe - (365 * yoe + yoe / 4 - yoe / 100);
    let leap = is_leap(yoe + 1);
    if yoe < 399 {
        lemma_era_year_length(yoe);
    } else {
        assert(leap);
    }
    assert(0 <= doy <= (if leap { 365int } else { 364 }));
    lemma_month_of_year(doy, leap);
    let mp = (5 * doy + 2) / 153;
    let d = doy - (153 * mp + 2) / 5 + 1;
    let m = if mp < 10 { mp + 3 } else { mp - 9 };
    let y = yoe + era * 400;
    let year = if m <= 2 { y + 1 } else { y };
    assert(civil_from_days(days) == (year, m, d));
    if m <= 2 {
        lemma_years_shift(yoe + 1, era);
        assert(days_before_year(yoe + 1) == 365 * yoe + yoe / 4 - yoe / 100 + yoe / 400);
        assert(yoe / 400 == 0);
    } else {
        lemma_years_shift(yoe, era);
        if yoe == 0 {
            assert(days_before_year(0) == -366);
        } else {
            assert(days_before_year(yoe) == 365 * (yoe - 1) + (yoe - 1) / 4 - (yoe - 1) / 100);
        }
        assert(days_before_month(year, m) == days_before_month(2001, m) + (if is_leap(yoe) {
            1int
        } else {
            0
        }));
    }
    assert(days_in_month(year, m) == month_len(m, is_leap(year)));
}

} // verus!

