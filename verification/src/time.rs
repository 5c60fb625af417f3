//! Timezone-aware instants on the proleptic Gregorian calendar, for years
//! 0000 through 9999, together with the day-count arithmetic that relates
//! civil dates to seconds since 1970-01-01T00:00:00Z.

use vstd::prelude::*;
use vstd::arithmetic::div_mod::{lemma_fundamental_div_mod, lemma_fundamental_div_mod_converse};

verus! {

/// Days between 0000-01-01 and 1970-01-01.
pub const EPOCH_DAYS: u64 = 719528;

/// A Gregorian leap year.
pub open spec fn is_leap(y: int) -> bool {
    y % 4 == 0 && (y % 100 != 0 || y % 400 == 0)
}

/// Number of days in the given month of the given year.
pub open spec fn days_in_month(y: int, m: int) -> int {
    if m == 1 {
        31
    } else if m == 2 {
        if is_leap(y) {
            29
        } else {
            28
        }
    } else if m == 3 {
        31
    } else if m == 4 {
        30
    } else if m == 5 {
        31
    } else if m == 6 {
        30
    } else if m == 7 {
        31
    } else if m == 8 {
        31
    } else if m == 9 {
        30
    } else if m == 10 {
        31
    } else if m == 11 {
        30
    } else {
        31
    }
}

/// Days in the year before the first of the given month.
pub open spec fn days_before_month(y: int, m: int) -> int {
    let adj: int = if m > 2 && is_leap(y) {
        1
    } else {
        0
    };
    (if m == 1 {
        0int
    } else if m == 2 {
        31
    } else if m == 3 {
        59
    } else if m == 4 {
        90
    } else if m == 5 {
        120
    } else if m == 6 {
        151
    } else if m == 7 {
        181
    } else if m == 8 {
        212
    } else if m == 9 {
        243
    } else if m == 10 {
        273
    } else if m == 11 {
        304
    } else {
        334
    }) + adj
}

/// Days between 0000-01-01 and the first day of year `y` (for `y >= 0`).
pub open spec fn days_before_year(y: int) -> int {
    365 * y + (y + 3) / 4 - (y + 99) / 100 + (y + 399) / 400
}

/// A valid civil date in the supported year range.
pub open spec fn valid_date(y: int, m: int, d: int) -> bool {
    0 <= y <= 9999 && 1 <= m <= 12 && 1 <= d <= days_in_month(y, m)
}

/// Days between 0000-01-01 and the civil date `y`-`m`-`d`.
pub open spec fn civil_days(y: int, m: int, d: int) -> int {
    days_before_year(y) + days_before_month(y, m) + d - 1
}

/// Seconds since 1970-01-01T00:00:00Z of a UTC civil date and time of day.
pub open spec fn epoch_of(y: int, m: int, d: int, h: int, mi: int, se: int) -> int {
    (civil_days(y, m, d) - EPOCH_DAYS) * 86400 + h * 3600 + mi * 60 + se
}

/// An instant in UTC: the civil fields, the day count since 0000-01-01,
/// the weekday index, and the seconds since the 1970 epoch.
#[derive(PartialEq, Eq, Structural, Clone, Copy, Debug)]
pub struct UtcTime {
    pub year: u64,
    pub month: u64,
    pub day: u64,
    pub hour: u64,
    pub minute: u64,
    pub second: u64,
    /// Days between 0000-01-01 and this instant's date.
    pub days: u64,
    /// Weekday index: 0 stands for Saturday (the weekday of 0000-01-01).
    pub weekday: u64,
    pub epoch_seconds: i64,
}

impl UtcTime {
    /// The derived fields agree with the civil fields, and every field is
    /// within its range.
    pub open spec fn inv(self) -> bool {
        &&& valid_date(self.year as int, self.month as int, self.day as int)
        &&& self.hour <= 23
        &&& self.minute <= 59
        &&& self.second <= 59
        &&& self.days == civil_days(self.year as int, self.month as int, self.day as int)
        &&& self.weekday == self.days as int % 7
        &&& self.epoch_seconds == epoch_of(
            self.year as int,
            self.month as int,
            self.day as int,
            self.hour as int,
            self.minute as int,
            self.second as int,
        )
    }
}

/// How one extra day moves an integer quotient: it grows by one exactly
/// when the new numerator is a multiple of the divisor.
proof fn lemma_div_step(n: int, k: int)
    requires
        n >= 0,
        k > 0,
    ensures
        (n + 1) / k == n / k + if (n + 1) % k == 0 {
            1int
        } else {
            0int
        },
{
    lemma_fundamental_div_mod(n, k);
    lemma_fundamental_div_mod(n + 1, k);
    let q = n / k;
    let r = n % k;
    assert(q * k == k * q) by (nonlinear_arith);
    if r + 1 < k {
        lemma_fundamental_div_mod_converse(n + 1, k, q, r + 1);
    } else {
        assert((q + 1) * k == k * q + k) by (nonlinear_arith);
        lemma_fundamental_div_mod_converse(n + 1, k, q + 1, 0);
    }
}

/// Divisibility by `k` is unchanged by adding the multiple `a * k`.
proof fn lemma_mod_shift(n: int, k: int, a: int)
    requires
        k > 0,
    ensures
        (n + a * k) % k == n % k,
{
    lemma_fundamental_div_mod(n, k);
    assert((n / k + a) * k == k * (n / k) + a * k) by (nonlinear_arith);
    lemma_fundamental_div_mod_converse(n + a * k, k, n / k + a, n % k);
}

/// Crossing from December 31 to January 1 advances the day count by one:
/// the year that ends contributes 365 or 366 days according to its kind.
#[verifier::rlimit(100)]
proof fn lemma_year_step(y: int)
    requires
        0 <= y,
    ensures
        days_before_year(y + 1) == days_before_year(y) + 365 + if is_leap(y) {
            1int
        } else {
            0int
        },
{
    lemma_div_step(y + 3, 4);
    lemma_div_step(y + 99, 100);
    lemma_div_step(y + 399, 400);
    lemma_mod_shift(y, 4, 1);
    lemma_mod_shift(y, 100, 1);
    lemma_mod_shift(y, 400, 1);
    assert((y + 4) % 4 == y % 4);
    assert((y + 100) % 100 == y % 100);
    assert((y + 400) % 400 == y % 400);
    assert((y + 4) / 4 == (y + 3) / 4 + if y % 4 == 0 { 1int } else { 0int });
    assert((y + 100) / 100 == (y + 99) / 100 + if y % 100 == 0 { 1int } else { 0int });
    assert((y + 400) / 400 == (y + 399) / 400 + if y % 400 == 0 { 1int } else { 0int });
}

/// The day after a valid date, by civil fields.
pub open spec fn next_date(y: int, m: int, d: int) -> (int, int, int) {
    if d < days_in_month(y, m) {
        (y, m, d + 1)
    } else if m < 12 {
        (y, m + 1, 1)
    } else {
        (y + 1, 1, 1)
    }
}

/// Stepping to the next civil date adds one to the day count.
pub proof fn lemma_next_date(y: int, m: int, d: int)
    requires
        valid_date(y, m, d),
    ensures
        civil_days(next_date(y, m, d).0, next_date(y, m, d).1, next_date(y, m, d).2)
            == civil_days(y, m, d) + 1,
        y < 9999 || m < 12 || d < 31 ==> valid_date(
            next_date(y, m, d).0,
            next_date(y, m, d).1,
            next_date(y, m, d).2,
        ),
{
    if d < days_in_month(y, m) {
    } else if m < 12 {
    } else {
        lemma_year_step(y);
    }
}

/// The day before a valid date, by civil fields.
pub open spec fn prev_date(y: int, m: int, d: int) -> (int, int, int) {
    if d > 1 {
        (y, m, d - 1)
    } else if m > 1 {
        (y, m - 1, days_in_month(y, m - 1))
    } else {
        (y - 1, 12, 31)
    }
}

/// Stepping to the previous civil date removes one from the day count.
pub proof fn lemma_prev_date(y: int, m: int, d: int)
    requires
        valid_date(y, m, d),
        y > 0 || m > 1 || d > 1,
    ensures
        civil_days(prev_date(y, m, d).0, prev_date(y, m, d).1, prev_date(y, m, d).2)
            == civil_days(y, m, d) - 1,
        valid_date(prev_date(y, m, d).0, prev_date(y, m, d).1, prev_date(y, m, d).2),
{
    let (py, pm, pd) = prev_date(y, m, d);
    lemma_next_date(py, pm, pd);
    if d > 1 {
    } else if m > 1 {
    } else {
        assert(next_date(py, pm, pd) == (y, m, d));
    }
}

} // verus!

use crate::strutil::{is_digit, digit_val, digit_char};
use vstd::string::StrSliceExecFns;
use vstd::string::StringExecFns;
use crate::strutil::push_digit;

verus! {

/// Every one of the `k` characters from position `i` on is an ASCII digit.
pub open spec fn digits_at(s: Seq<char>, i: int, k: int) -> bool {
    forall|j: int| i <= j < i + k ==> is_digit(#[trigger] s[j])
}

/// The base-10 value of the `k` digits of `s` starting at position `i`.
pub open spec fn num_at(s: Seq<char>, i: int, k: int) -> int
    decreases k,
{
    if k <= 0 {
        0
    } else {
        num_at(s, i, k - 1) * 10 + digit_val(s[i + k - 1])
    }
}

/// The first position at or after `i` that does not hold an ASCII digit.
pub open spec fn skip_digits(s: Seq<char>, i: int) -> int
    decreases s.len() - i,
{
    if i < s.len() && is_digit(s[i]) {
        skip_digits(s, i + 1)
    } else {
        i
    }
}

/// The fixed `YYYY-MM-DDTHH:MM:SS` skeleton of a timestamp, with `t` or a
/// space accepted for the date-time separator.
pub open spec fn datetime_shape(s: Seq<char>) -> bool {
    &&& s.len() >= 20
    &&& digits_at(s, 0, 4)
    &&& s[4] == '-'
    &&& digits_at(s, 5, 2)
    &&& s[7] == '-'
    &&& digits_at(s, 8, 2)
    &&& (s[10] == 'T' || s[10] == 't' || s[10] == ' ')
    &&& digits_at(s, 11, 2)
    &&& s[13] == ':'
    &&& digits_at(s, 14, 2)
    &&& s[16] == ':'
    &&& digits_at(s, 17, 2)
}

/// Where the offset part starts: after the seconds, or after an optional
/// fractional-seconds group.
pub open spec fn off_start(s: Seq<char>) -> int {
    if 19 < s.len() && s[19] == '.' {
        skip_digits(s, 20)
    } else {
        19
    }
}

/// A fractional-seconds group, if present, holds at least one digit.
pub open spec fn frac_ok(s: Seq<char>) -> bool {
    (19 < s.len() && s[19] == '.') ==> skip_digits(s, 20) > 20
}

/// The offset part fills the rest of the string: `Z`, `z`, or a signed
/// `HH:MM` displacement within a day.
pub open spec fn offset_shape(s: Seq<char>, j: int) -> bool {
    ||| (j + 1 == s.len() && (s[j] == 'Z' || s[j] == 'z'))
    ||| (j + 6 == s.len() && (s[j] == '+' || s[j] == '-') && digits_at(s, j + 1, 2) && s[j + 3]
        == ':' && digits_at(s, j + 4, 2) && num_at(s, j + 1, 2) <= 23 && num_at(s, j + 4, 2) <= 59)
}

/// The signed offset, in minutes east of UTC.
pub open spec fn offset_minutes(s: Seq<char>, j: int) -> int {
    if s[j] == '+' {
        num_at(s, j + 1, 2) * 60 + num_at(s, j + 4, 2)
    } else if s[j] == '-' {
        -(num_at(s, j + 1, 2) * 60 + num_at(s, j + 4, 2))
    } else {
        0
    }
}

pub open spec fn p_year(s: Seq<char>) -> int {
    num_at(s, 0, 4)
}

pub open spec fn p_month(s: Seq<char>) -> int {
    num_at(s, 5, 2)
}

pub open spec fn p_day(s: Seq<char>) -> int {
    num_at(s, 8, 2)
}

pub open spec fn p_hour(s: Seq<char>) -> int {
    num_at(s, 11, 2)
}

pub open spec fn p_minute(s: Seq<char>) -> int {
    num_at(s, 14, 2)
}

pub open spec fn p_second(s: Seq<char>) -> int {
    num_at(s, 17, 2)
}

/// The civil fields name a real calendar date and time of day.
pub open spec fn ranges_ok(s: Seq<char>) -> bool {
    &&& 1 <= p_month(s) <= 12
    &&& 1 <= p_day(s) <= days_in_month(p_year(s), p_month(s))
    &&& p_hour(s) <= 23
    &&& p_minute(s) <= 59
    &&& p_second(s) <= 59
}

/// The displacement of the local time of day against UTC, in minutes.
pub open spec fn utc_shift(s: Seq<char>) -> int {
    p_hour(s) * 60 + p_minute(s) - offset_minutes(s, off_start(s))
}

/// Converting to UTC stays within the supported years: the instant does not
/// fall before 0000-01-01 or after 9999-12-31 in UTC.
pub open spec fn utc_in_range(s: Seq<char>) -> bool {
    &&& !(p_year(s) == 0 && p_month(s) == 1 && p_day(s) == 1 && utc_shift(s) < 0)
    &&& !(p_year(s) == 9999 && p_month(s) == 12 && p_day(s) == 31 && utc_shift(s) >= 1440)
}

/// The timestamps this crate accepts: an RFC-3339 date-time whose UTC
/// equivalent lies within years 0000..=9999.
pub open spec fn rfc3339_valid(s: Seq<char>) -> bool {
    &&& datetime_shape(s)
    &&& frac_ok(s)
    &&& offset_shape(s, off_start(s))
    &&& ranges_ok(s)
    &&& utc_in_range(s)
}

/// The instant a valid timestamp names, in seconds since the 1970 epoch.
pub open spec fn rfc3339_epoch(s: Seq<char>) -> int {
    epoch_of(p_year(s), p_month(s), p_day(s), p_hour(s), p_minute(s), p_second(s))
        - offset_minutes(s, off_start(s)) * 60
}

/// Reads `k <= 4` characters from position `i` as a base-10 number;
/// nothing, if any of them is not a digit.
fn read_digits(s: &str, i: usize, k: usize) -> (r: Option<u64>)
    requires
        i + k <= s@.len(),
        s@.len() <= usize::MAX,
        k <= 4,
    ensures
        r is Some <==> digits_at(s@, i as int, k as int),
        r matches Some(v) ==> v == num_at(s@, i as int, k as int) && v <= 9999,
{
    let mut acc: u64 = 0;
    let mut j: usize = 0;
    while j < k
        invariant
            i + k <= s@.len(),
            s@.len() <= usize::MAX,
            k <= 4,
            j <= k,
            digits_at(s@, i as int, j as int),
            acc == num_at(s@, i as int, j as int),
            acc < pow10_small(j as int),
        decreases k - j,
    {
        let c = s.get_char(i + j);
        if !('0' <= c && c <= '9') {
            assert(!digits_at(s@, i as int, k as int)) by {
                assert(!is_digit(s@[i + j]));
            }
            return None;
        }
        assert(num_at(s@, i as int, j + 1) == num_at(s@, i as int, j as int) * 10 + digit_val(
            s@[i + j],
        ));
        acc = acc * 10 + (c as u32 as u64 - 48);
        let ghost jj = j as int;
        j = j + 1;
        assert forall|x: int| i <= x < i + j implies is_digit(#[trigger] s@[x]) by {
            if x == i + jj {
                assert(is_digit(s@[x]));
            }
        }
    }
    Some(acc)
}

/// Ten to a small power; enough for four-digit reads.
pub open spec fn pow10_small(j: int) -> int {
    if j <= 0 {
        1
    } else if j == 1 {
        10
    } else if j == 2 {
        100
    } else if j == 3 {
        1000
    } else {
        10000
    }
}

/// Number of days in the given month, as `days_in_month` states.
pub fn days_in_month_x(y: u64, m: u64) -> (r: u64)
    requires
        1 <= m <= 12,
    ensures
        r == days_in_month(y as int, m as int),
{
    if m == 2 {
        if y % 4 == 0 && (y % 100 != 0 || y % 400 == 0) {
            29
        } else {
            28
        }
    } else if m == 4 || m == 6 || m == 9 || m == 11 {
        30
    } else {
        31
    }
}

/// Days in the year before the first of month `m`, as `days_before_month`
/// states.
fn days_before_month_x(y: u64, m: u64) -> (r: u64)
    requires
        1 <= m <= 12,
    ensures
        r == days_before_month(y as int, m as int),
{
    let base: u64 = match m {
        1 => 0,
        2 => 31,
        3 => 59,
        4 => 90,
        5 => 120,
        6 => 151,
        7 => 181,
        8 => 212,
        9 => 243,
        10 => 273,
        11 => 304,
        _ => 334,
    };
    if m > 2 && y % 4 == 0 && (y % 100 != 0 || y % 400 == 0) {
        base + 1
    } else {
        base
    }
}

/// The day count of a civil date, as `civil_days` states.
pub fn civil_days_x(y: u64, m: u64, d: u64) -> (r: u64)
    requires
        valid_date(y as int, m as int, d as int),
    ensures
        r == civil_days(y as int, m as int, d as int),
        r <= 3652424,
{
    proof {
        lemma_fundamental_div_mod((y + 3) as int, 4);
        lemma_fundamental_div_mod((y + 99) as int, 100);
        lemma_fundamental_div_mod((y + 399) as int, 400);
    }
    let dby: u64 = 365 * y + (y + 3) / 4 + (y + 399) / 400 - (y + 99) / 100;
    let dbm: u64 = days_before_month_x(y, m);
    dby + dbm + d - 1
}

} // verus!

verus! {

/// The civil date one day later, as `next_date` states.
fn next_day_x(y: u64, m: u64, d: u64) -> (r: (u64, u64, u64))
    requires
        valid_date(y as int, m as int, d as int),
        !(y == 9999 && m == 12 && d == 31),
    ensures
        (r.0 as int, r.1 as int, r.2 as int) == next_date(y as int, m as int, d as int),
        valid_date(r.0 as int, r.1 as int, r.2 as int),
        civil_days(r.0 as int, r.1 as int, r.2 as int) == civil_days(
            y as int,
            m as int,
            d as int,
        ) + 1,
{
    proof {
        lemma_next_date(y as int, m as int, d as int);
    }
    if d < days_in_month_x(y, m) {
        (y, m, d + 1)
    } else if m < 12 {
        (y, m + 1, 1)
    } else {
        (y + 1, 1, 1)
    }
}

/// The civil date one day earlier, as `prev_date` states.
fn prev_day_x(y: u64, m: u64, d: u64) -> (r: (u64, u64, u64))
    requires
        valid_date(y as int, m as int, d as int),
        !(y == 0 && m == 1 && d == 1),
    ensures
        (r.0 as int, r.1 as int, r.2 as int) == prev_date(y as int, m as int, d as int),
        valid_date(r.0 as int, r.1 as int, r.2 as int),
        civil_days(r.0 as int, r.1 as int, r.2 as int) == civil_days(
            y as int,
            m as int,
            d as int,
        ) - 1,
{
    proof {
        lemma_prev_date(y as int, m as int, d as int);
    }
    if d > 1 {
        (y, m, d - 1)
    } else if m > 1 {
        (y, m - 1, days_in_month_x(y, m - 1))
    } else {
        (y - 1, 12, 31)
    }
}

/// Parses an RFC-3339 timestamp and converts it to UTC. Accepts exactly
/// the strings `rfc3339_valid` describes, and returns the instant
/// `rfc3339_epoch` names.
#[verifier::rlimit(100)]
pub fn parse_rfc3339(s: &str) -> (r: Option<UtcTime>)
    ensures
        r is Some <==> rfc3339_valid(s@),
        r matches Some(t) ==> t.inv() && t.epoch_seconds == rfc3339_epoch(s@),
{
    let n = s.unicode_len();
    if n < 20 {
        return None;
    }
    let y = match read_digits(s, 0, 4) {
        Some(v) => v,
        None => { return None; },
    };
    if s.get_char(4) != '-' {
        return None;
    }
    let mo = match read_digits(s, 5, 2) {
        Some(v) => v,
        None => { return None; },
    };
    if s.get_char(7) != '-' {
        return None;
    }
    let d = match read_digits(s, 8, 2) {
        Some(v) => v,
        None => { return None; },
    };
    let sep = s.get_char(10);
    if !(sep == 'T' || sep == 't' || sep == ' ') {
        return None;
    }
    let h = match read_digits(s, 11, 2) {
        Some(v) => v,
        None => { return None; },
    };
    if s.get_char(13) != ':' {
        return None;
    }
    let mi = match read_digits(s, 14, 2) {
        Some(v) => v,
        None => { return None; },
    };
    if s.get_char(16) != ':' {
        return None;
    }
    let se = match read_digits(s, 17, 2) {
        Some(v) => v,
        None => { return None; },
    };
    if !(1 <= mo && mo <= 12) {
        return None;
    }
    if d < 1 || d > days_in_month_x(y, mo) {
        return None;
    }
    if h > 23 || mi > 59 || se > 59 {
        return None;
    }
    let mut j: usize = 19;
    if s.get_char(19) == '.' {
        let mut k: usize = 20;
        loop
            invariant_except_break
                n == s@.len(),
                20 <= k <= n,
                skip_digits(s@, 20) == skip_digits(s@, k as int),
            ensures
                20 <= k <= n,
                skip_digits(s@, 20) == k,
            decreases n - k,
        {
            if k >= n {
                break;
            }
            let c = s.get_char(k);
            if !('0' <= c && c <= '9') {
                break;
            }
            k = k + 1;
        }
        if k == 20 {
            return None;
        }
        j = k;
    }
    assert(j == off_start(s@));
    assert(frac_ok(s@));
    if j >= n {
        return None;
    }
    let oc = s.get_char(j);
    let mut off_min: i64 = 0;
    if oc == 'Z' || oc == 'z' {
        if j + 1 != n {
            return None;
        }
    } else if oc == '+' || oc == '-' {
        if n - j != 6 {
            return None;
        }
        let oh = match read_digits(s, j + 1, 2) {
            Some(v) => v,
            None => { return None; },
        };
        if s.get_char(j + 3) != ':' {
            return None;
        }
        let om = match read_digits(s, j + 4, 2) {
            Some(v) => v,
            None => { return None; },
        };
        if oh > 23 || om > 59 {
            return None;
        }
        off_min = (oh * 60 + om) as i64;
        if oc == '-' {
            off_min = -off_min;
        }
    } else {
        return None;
    }
    assert(offset_shape(s@, j as int));
    assert(off_min == offset_minutes(s@, j as int));
    let shift0: i64 = (h * 60 + mi) as i64 - off_min;
    assert(shift0 == utc_shift(s@));
    if y == 0 && mo == 1 && d == 1 && shift0 < 0 {
        return None;
    }
    if y == 9999 && mo == 12 && d == 31 && shift0 >= 1440 {
        return None;
    }
    assert(rfc3339_valid(s@));
    let (y2, mo2, d2, shift): (u64, u64, u64, u64) = if shift0 < 0 {
        let nd = prev_day_x(y, mo, d);
        (nd.0, nd.1, nd.2, (shift0 + 1440) as u64)
    } else if shift0 >= 1440 {
        let nd = next_day_x(y, mo, d);
        (nd.0, nd.1, nd.2, (shift0 - 1440) as u64)
    } else {
        (y, mo, d, shift0 as u64)
    };
    let days = civil_days_x(y2, mo2, d2);
    proof {
        lemma_fundamental_div_mod(shift as int, 60);
        lemma_fundamental_div_mod(days as int, 7);
    }
    let h2 = shift / 60;
    let mi2 = shift % 60;
    let epoch: i64 = (days as i64 - 719528) * 86400 + (shift as i64) * 60 + (se as i64);
    let t = UtcTime {
        year: y2,
        month: mo2,
        day: d2,
        hour: h2,
        minute: mi2,
        second: se,
        days,
        weekday: days % 7,
        epoch_seconds: epoch,
    };
    assert(t.inv());
    assert(t.epoch_seconds == rfc3339_epoch(s@));
    Some(t)
}

} // verus!

verus! {

/// Two-character zero-padded decimal rendering.
pub open spec fn two_digit_chars(v: int) -> Seq<char> {
    seq![digit_char(v / 10), digit_char(v % 10)]
}

/// Four-character zero-padded decimal rendering.
pub open spec fn four_digit_chars(v: int) -> Seq<char> {
    seq![digit_char(v / 1000), digit_char((v / 100) % 10), digit_char((v / 10) % 10), digit_char(v % 10)]
}

/// The `YYYY-MM-DD` rendering of an instant's date.
pub open spec fn date_chars(t: UtcTime) -> Seq<char> {
    four_digit_chars(t.year as int) + seq!['-'] + two_digit_chars(t.month as int) + seq!['-']
        + two_digit_chars(t.day as int)
}

/// The `HH:MM:SS` rendering of an instant's time of day.
pub open spec fn time_chars(t: UtcTime) -> Seq<char> {
    two_digit_chars(t.hour as int) + seq![':'] + two_digit_chars(t.minute as int) + seq![':']
        + two_digit_chars(t.second as int)
}

/// The combined `YYYY-MM-DD HH:MM:SS` rendering.
pub open spec fn date_time_chars(t: UtcTime) -> Seq<char> {
    date_chars(t) + seq![' '] + time_chars(t)
}

/// The English weekday name for a weekday index (0 stands for Saturday).
pub open spec fn weekday_chars(w: int) -> Seq<char> {
    if w == 0 {
        "Saturday"@
    } else if w == 1 {
        "Sunday"@
    } else if w == 2 {
        "Monday"@
    } else if w == 3 {
        "Tuesday"@
    } else if w == 4 {
        "Wednesday"@
    } else if w == 5 {
        "Thursday"@
    } else {
        "Friday"@
    }
}

/// Appends the two-digit rendering of `v` to `s`.
pub fn push_two_digits(s: &mut String, v: u64)
    requires
        v <= 99,
    ensures
        final(s)@ == old(s)@ + two_digit_chars(v as int),
{
    push_digit(s, (v / 10) as u8);
    push_digit(s, (v % 10) as u8);
    proof {
        assert(final(s)@ =~= old(s)@ + two_digit_chars(v as int));
    }
}

/// Renders the date of `t` as `YYYY-MM-DD`.
pub fn format_date(t: &UtcTime) -> (r: String)
    requires
        t.inv(),
    ensures
        r@ == date_chars(*t),
{
    let mut r = String::new();
    push_digit(&mut r, (t.year / 1000) as u8);
    push_digit(&mut r, ((t.year / 100) % 10) as u8);
    push_digit(&mut r, ((t.year / 10) % 10) as u8);
    push_digit(&mut r, (t.year % 10) as u8);
    r.append("-");
    push_two_digits(&mut r, t.month);
    r.append("-");
    push_two_digits(&mut r, t.day);
    proof {
        reveal_strlit("-");
        assert(r@ =~= date_chars(*t));
    }
    r
}

/// Renders the time of day of `t` as `HH:MM:SS`.
pub fn format_time(t: &UtcTime) -> (r: String)
    requires
        t.inv(),
    ensures
        r@ == time_chars(*t),
{
    let mut r = String::new();
    push_two_digits(&mut r, t.hour);
    r.append(":");
    push_two_digits(&mut r, t.minute);
    r.append(":");
    push_two_digits(&mut r, t.second);
    proof {
        reveal_strlit(":");
        assert(r@ =~= time_chars(*t));
    }
    r
}

/// Renders `t` as `YYYY-MM-DD HH:MM:SS`.
pub fn format_date_time(t: &UtcTime) -> (r: String)
    requires
        t.inv(),
    ensures
        r@ == date_time_chars(*t),
{
    let date = format_date(t);
    let time = format_time(t);
    let mut r = date;
    r.append(" ");
    r.append(time.as_str());
    proof {
        reveal_strlit(" ");
        assert(r@ =~= date_time_chars(*t));
    }
    r
}

/// The English name of the weekday of `t`.
pub fn weekday_name(t: &UtcTime) -> (r: String)
    requires
        t.inv(),
    ensures
        r@ == weekday_chars(t.weekday as int),
{
    let part: &str = match t.weekday {
        0 => "Saturday",
        1 => "Sunday",
        2 => "Monday",
        3 => "Tuesday",
        4 => "Wednesday",
        5 => "Thursday",
        _ => "Friday",
    };
    String::from_str(part)
}

} // verus!
