//! Timestamps of the form `YYYY-MM-DDTHH:MM:SS`, read as seconds since
//! 1970-01-01T00:00:00 (UTC), and the hour of the day and day of the week of
//! such a count.
//!
//! Digits are read without validation: the byte `c` at a digit position counts
//! as `(c - '0') mod 256`, and a two-digit field is taken modulo 256, as the
//! byte arithmetic of the service's release build does.
use vstd::prelude::*;

verus! {

/// The value a byte contributes at a digit position: `(c - '0') mod 256`.
pub open spec fn wrapped_digit(c: u8) -> int {
    (c - 48) % 256
}

/// A two-digit field `ab`, computed in byte arithmetic (modulo 256).
pub open spec fn two_digits(a: u8, b: u8) -> int {
    (10 * wrapped_digit(a) + wrapped_digit(b)) % 256
}

/// A four-digit field `abcd`.
pub open spec fn four_digits(a: u8, b: u8, c: u8, d: u8) -> int {
    wrapped_digit(a) * 1000 + wrapped_digit(b) * 100 + wrapped_digit(c) * 10 + wrapped_digit(d)
}

/// Days from 1970-01-01 to the given proleptic Gregorian date, counting the
/// year from March so that the leap day falls at the end of it.
pub open spec fn days_from_civil(year: int, month: int, day: int) -> int {
    let y = if month <= 2 {
        year - 1
    } else {
        year
    };
    let era = y / 400;
    let yoe = y - era * 400;
    let mp = if month > 2 {
        month - 3
    } else {
        month + 9
    };
    let doy = (153 * mp + 2) / 5 + day - 1;
    let doe = yoe * 365 + yoe / 4 - yoe / 100 + doy;
    era * 146097 + doe - 719468
}

/// Seconds from 1970-01-01T00:00:00 to the given date and time of day.
pub open spec fn seconds_since_epoch(
    year: int,
    month: int,
    day: int,
    hour: int,
    minute: int,
    second: int,
) -> int {
    days_from_civil(year, month, day) * 86400 + hour * 3600 + minute * 60 + second
}

/// The value of a timestamp `YYYY-MM-DDTHH:MM:SS` (the bytes at positions 4,
/// 7, 10, 13 and 16 are not looked at); 0 for a text shorter than 19 bytes.
pub open spec fn timestamp_value(s: Seq<u8>) -> int {
    if s.len() < 19 {
        0
    } else {
        seconds_since_epoch(
            four_digits(s[0], s[1], s[2], s[3]),
            two_digits(s[5], s[6]),
            two_digits(s[8], s[9]),
            two_digits(s[11], s[12]),
            two_digits(s[14], s[15]),
            two_digits(s[17], s[18]),
        )
    }
}

/// The hour of the day that the service assigns to a count of seconds. For a
/// negative count the hour is taken from the truncated remainder, so the last
/// partial hour before each midnight (and the first hour after it) counts as hour 0.
pub open spec fn hour_of(u: int) -> int {
    if u >= 0 {
        (u % 86400) / 3600
    } else {
        let q = ((-u) % 86400) / 3600;
        if q == 0 {
            0
        } else {
            24 - q
        }
    }
}

/// The day of the week of a count of seconds, 0 for Monday: 1970-01-01 was a
/// Thursday.
pub open spec fn weekday_of(u: int) -> int {
    (u / 86400 + 3) % 7
}

proof fn lemma_wrapping_sub_digit(c: u8)
    ensures
        vstd::wrapping::u8_specs::wrapping_sub(c, 48) == wrapped_digit(c),
{
    if c >= 48 {
        vstd::arithmetic::div_mod::lemma_small_mod((c - 48) as nat, 256);
    } else {
        vstd::arithmetic::div_mod::lemma_mod_multiples_vanish(1, c - 48, 256);
        vstd::arithmetic::div_mod::lemma_small_mod((c - 48 + 256) as nat, 256);
    }
}

/// The two-digit field at positions `i` and `i + 1`.
fn two_digits_at(s: &[u8], i: usize) -> (r: i64)
    requires
        i + 1 < s@.len(),
    ensures
        r == two_digits(s@[i as int], s@[i + 1]),
        0 <= r < 256,
{
    let hi = s[i].wrapping_sub(48);
    let lo = s[i + 1].wrapping_sub(48);
    let t = hi.wrapping_mul(10);
    let v = t.wrapping_add(lo);
    proof {
        lemma_wrapping_sub_digit(s@[i as int]);
        lemma_wrapping_sub_digit(s@[i + 1]);
        vstd::arithmetic::div_mod::lemma_add_mod_noop(hi * 10, lo as int, 256);
        vstd::arithmetic::div_mod::lemma_small_mod(lo as nat, 256);
        vstd::arithmetic::div_mod::lemma_mod_twice(hi * 10, 256);
        if t + lo > 255 {
            vstd::arithmetic::div_mod::lemma_mod_multiples_vanish(-1, t + lo, 256);
            vstd::arithmetic::div_mod::lemma_small_mod((t + lo - 256) as nat, 256);
        } else {
            vstd::arithmetic::div_mod::lemma_small_mod((t + lo) as nat, 256);
        }
    }
    v as i64
}

/// A single wrapped digit at position `i`.
fn digit_at(s: &[u8], i: usize) -> (r: i64)
    requires
        i < s@.len(),
    ensures
        r == wrapped_digit(s@[i as int]),
        0 <= r < 256,
{
    proof {
        lemma_wrapping_sub_digit(s@[i as int]);
    }
    s[i].wrapping_sub(48) as i64
}

/// Converts `YYYY-MM-DDTHH:MM:SS` to seconds since 1970-01-01T00:00:00; 0 when
/// the text is shorter than 19 bytes.
pub fn fast_parse_time_str(s: &[u8]) -> (r: i64)
    ensures
        r == timestamp_value(s@),
        -0x4_0000_0000_0000 <= r <= 0x4_0000_0000_0000,
{
    if s.len() < 19 {
        return 0;
    }
    let year = digit_at(s, 0) * 1000 + digit_at(s, 1) * 100 + digit_at(s, 2) * 10 + digit_at(s, 3);
    let month = two_digits_at(s, 5);
    let day = two_digits_at(s, 8);
    let hour = two_digits_at(s, 11);
    let min = two_digits_at(s, 14);
    let sec = two_digits_at(s, 17);

    let mut y = year;
    if month <= 2 {
        y = y - 1;
    }
    let era = if y >= 0 {
        y / 400
    } else {
        (y - 399) / 400
    };
    assert(era == y as int / 400);
    let yoe = y - era * 400;
    let m = if month > 2 {
        month - 3
    } else {
        month + 9
    };
    let doy = (153 * m + 2) / 5 + day - 1;
    let doe = yoe * 365 + yoe / 4 - yoe / 100 + doy;
    let days = era * 146097 + doe - 719468;
    days * 86400 + hour * 3600 + min * 60 + sec
}

/// The hour of the day (0 to 23) of a count of seconds since the epoch.
pub fn hour_of_day(u: i64) -> (r: i64)
    ensures
        r == hour_of(u as int),
        0 <= r <= 23,
{
    let mut h = (u % 86400) / 3600;
    if h < 0 {
        h = h + 24;
    }
    h
}

/// The day of the week (0 for Monday to 6 for Sunday) of a count of seconds
/// since the epoch.
pub fn day_of_week(u: i64) -> (r: i64)
    ensures
        r == weekday_of(u as int),
        0 <= r <= 6,
{
    let mut days = u / 86400;
    if u < 0 && u % 86400 != 0 {
        days = days - 1;
    }
    let mut wk = (days + 3) % 7;
    if wk < 0 {
        wk = wk + 7;
    }
    wk
}

/// A leap year of the proleptic Gregorian calendar.
pub open spec fn is_leap_year(y: int) -> bool {
    (y % 4 == 0 && y % 100 != 0) || y % 400 == 0
}

/// The number of days of month `m` (1 to 12) of year `y`.
pub open spec fn days_in_month(y: int, m: int) -> int {
    if m == 2 {
        if is_leap_year(y) {
            29
        } else {
            28
        }
    } else if m == 4 || m == 6 || m == 9 || m == 11 {
        30
    } else {
        31
    }
}

/// A date of the proleptic Gregorian calendar.
pub open spec fn is_valid_date(y: int, m: int, d: int) -> bool {
    1 <= m <= 12 && 1 <= d <= days_in_month(y, m)
}

/// The calendar day after the date (`y`, `m`, `d`).
pub open spec fn next_day(y: int, m: int, d: int) -> (int, int, int) {
    if d < days_in_month(y, m) {
        (y, m, d + 1)
    } else if m < 12 {
        (y, m + 1, 1)
    } else {
        (y + 1, 1, 1)
    }
}

/// Days from the start of the calendar to the March 1st that follows the end
/// of year `y`, up to a constant.
spec fn days_through_year(y: int) -> int {
    365 * y + y / 4 - y / 100 + y / 400
}

proof fn lemma_div_parts(y: int, e: int, r: int, k: int)
    requires
        y == 400 * e + r,
        0 <= r < 400,
        k == 4 || k == 100,
    ensures
        y / k == e * (400int / k) + r / k,
{
    vstd::arithmetic::div_mod::lemma_fundamental_div_mod(r, k);
    vstd::arithmetic::div_mod::lemma_mod_bound(r, k);
    vstd::arithmetic::div_mod::lemma_fundamental_div_mod_converse(y, k, e * (400int / k) + r / k, r % k);
}

proof fn lemma_days_from_civil_linear(year: int, month: int, day: int)
    ensures
        days_from_civil(year, month, day) == days_through_year(
            if month <= 2 {
                year - 1
            } else {
                year
            },
        ) + (153 * (if month > 2 {
            month - 3
        } else {
            month + 9
        }) + 2) / 5 + day - 1 - 719468,
{
    let y = if month <= 2 {
        year - 1
    } else {
        year
    };
    let e = y / 400;
    let r = y - e * 400;
    vstd::arithmetic::div_mod::lemma_fundamental_div_mod(y, 400);
    vstd::arithmetic::div_mod::lemma_mod_bound(y, 400);
    lemma_div_parts(y, e, r, 4);
    lemma_div_parts(y, e, r, 100);
}

proof fn lemma_div_step(y: int, k: int)
    requires
        k > 0,
    ensures
        y / k - (y - 1) / k == if y % k == 0 {
            1int
        } else {
            0int
        },
{
    vstd::arithmetic::div_mod::lemma_fundamental_div_mod(y, k);
    vstd::arithmetic::div_mod::lemma_mod_bound(y, k);
    let q = y / k;
    let r = y % k;
    if r == 0 {
        assert(y - 1 == (q - 1) * k + (k - 1)) by (nonlinear_arith)
            requires
                y == k * q + r,
                r == 0,
        ;
        vstd::arithmetic::div_mod::lemma_fundamental_div_mod_converse(y - 1, k, q - 1, k - 1);
    } else {
        assert(y - 1 == q * k + (r - 1)) by (nonlinear_arith)
            requires
                y == k * q + r,
        ;
        vstd::arithmetic::div_mod::lemma_fundamental_div_mod_converse(y - 1, k, q, r - 1);
    }
}

proof fn lemma_multiple_of_multiple(y: int, a: int, b: int)
    requires
        a > 0,
        b > 0,
        y % (a * b) == 0,
    ensures
        y % a == 0,
{
    assert(a * b > 0) by (nonlinear_arith)
        requires
            a > 0,
            b > 0,
    ;
    vstd::arithmetic::div_mod::lemma_fundamental_div_mod(y, a * b);
    let q = y / (a * b);
    assert(y == a * b * q);
    assert(y == (b * q) * a) by (nonlinear_arith)
        requires
            y == a * b * q,
    ;
    vstd::arithmetic::div_mod::lemma_fundamental_div_mod_converse(y, a, b * q, 0);
}

/// The length of a year, counted from March 1st of the year before to March
/// 1st of year `y`: 366 days when February of `y` has a leap day, else 365.
proof fn lemma_year_length(y: int)
    ensures
        days_through_year(y) - days_through_year(y - 1) == 337 + days_in_month(y, 2),
{
    lemma_div_step(y, 4);
    lemma_div_step(y, 100);
    lemma_div_step(y, 400);
    if y % 100 == 0 {
        lemma_multiple_of_multiple(y, 4, 25);
    }
    if y % 400 == 0 {
        lemma_multiple_of_multiple(y, 100, 4);
    }
}

/// The epoch: 1970-01-01T00:00:00 counts as second 0.
pub proof fn lemma_epoch_is_zero()
    ensures
        seconds_since_epoch(1970, 1, 1, 0, 0, 0) == 0,
{
    lemma_days_from_civil_linear(1970, 1, 1);
    assert(days_through_year(1969) == 719162);
}

/// The count of days follows the calendar: for every date of the proleptic
/// Gregorian calendar, the next calendar day comes exactly one day, 86400
/// seconds, later.
pub proof fn lemma_next_day_is_one_day_later(y: int, m: int, d: int)
    requires
        is_valid_date(y, m, d),
    ensures
        is_valid_date(next_day(y, m, d).0, next_day(y, m, d).1, next_day(y, m, d).2),
        days_from_civil(next_day(y, m, d).0, next_day(y, m, d).1, next_day(y, m, d).2)
            == days_from_civil(y, m, d) + 1,
        seconds_since_epoch(next_day(y, m, d).0, next_day(y, m, d).1, next_day(y, m, d).2, 0, 0, 0)
            == seconds_since_epoch(y, m, d, 0, 0, 0) + 86400,
{
    let (ny, nm, nd) = next_day(y, m, d);
    lemma_days_from_civil_linear(y, m, d);
    lemma_days_from_civil_linear(ny, nm, nd);
    if d < days_in_month(y, m) {
    } else if m == 2 {
        lemma_year_length(y);
    } else if m < 12 {
        assert(m == 1 || m == 3 || m == 4 || m == 5 || m == 6 || m == 7 || m == 8 || m == 9
            || m == 10 || m == 11);
    }
}

/// The weekday advances by one, modulo seven, with each day.
pub proof fn lemma_weekday_next_day(u: int)
    ensures
        weekday_of(u + 86400) == (weekday_of(u) + 1) % 7,
{
    vstd::arithmetic::div_mod::lemma_fundamental_div_mod(u, 86400);
    vstd::arithmetic::div_mod::lemma_mod_bound(u, 86400);
    vstd::arithmetic::div_mod::lemma_fundamental_div_mod_converse(u + 86400, 86400, u / 86400 + 1, u % 86400);
    vstd::arithmetic::div_mod::lemma_add_mod_noop(u / 86400 + 3, 1, 7);
    vstd::arithmetic::div_mod::lemma_mod_twice(u / 86400 + 3, 7);
    vstd::arithmetic::div_mod::lemma_small_mod(1, 7);
}

/// The hour of the day and the day of the week of a timestamp are its own: for
/// a time of day within range, on a day on or after 1970-01-01, the hour is
/// the timestamp's hour field; and on any day the weekday is the day count's,
/// counted from the Thursday 1970-01-01.
pub proof fn lemma_hour_and_weekday_of_timestamp(
    year: int,
    month: int,
    day: int,
    hour: int,
    minute: int,
    second: int,
)
    requires
        0 <= hour < 24,
        0 <= minute < 60,
        0 <= second < 60,
    ensures
        days_from_civil(year, month, day) >= 0 ==> hour_of(
            seconds_since_epoch(year, month, day, hour, minute, second),
        ) == hour,
        weekday_of(seconds_since_epoch(year, month, day, hour, minute, second)) == (
        days_from_civil(year, month, day) + 3) % 7,
{
    let days = days_from_civil(year, month, day);
    let rest = hour * 3600 + minute * 60 + second;
    let u = seconds_since_epoch(year, month, day, hour, minute, second);
    assert(0 <= rest < 86400);
    vstd::arithmetic::div_mod::lemma_fundamental_div_mod_converse(u, 86400, days, rest);
    vstd::arithmetic::div_mod::lemma_fundamental_div_mod_converse(rest, 3600, hour, minute * 60 + second);
}

/// Only the first 19 bytes of a timestamp count: whatever follows them (a
/// zone designator, fractions of a second) does not change its value.
pub proof fn lemma_timestamp_reads_first_19_bytes(s: Seq<u8>)
    requires
        s.len() >= 19,
    ensures
        timestamp_value(s) == timestamp_value(s.subrange(0, 19)),
{
    let t = s.subrange(0, 19);
    assert(forall|k: int| 0 <= k < 19 ==> t[k] == s[k]);
}

/// An ASCII decimal digit byte.
pub open spec fn is_ascii_digit(c: u8) -> bool {
    48 <= c <= 57
}

proof fn lemma_digit_fields(a: u8, b: u8)
    requires
        is_ascii_digit(a),
        is_ascii_digit(b),
    ensures
        wrapped_digit(a) == a - 48,
        two_digits(a, b) == 10 * (a - 48) + (b - 48),
{
    vstd::arithmetic::div_mod::lemma_small_mod((a - 48) as nat, 256);
    vstd::arithmetic::div_mod::lemma_small_mod((b - 48) as nat, 256);
    vstd::arithmetic::div_mod::lemma_small_mod((10 * (a - 48) + (b - 48)) as nat, 256);
}

/// A timestamp of 19 or more bytes whose date and time positions hold digits
/// reads as the date and time those digits spell: year from positions 0-3,
/// month 5-6, day 8-9, hour 11-12, minute 14-15 and second 17-18.
pub proof fn lemma_timestamp_of_digits(s: Seq<u8>)
    requires
        s.len() >= 19,
        forall|k: int|
            0 <= k < 19 && k != 4 && k != 7 && k != 10 && k != 13 && k != 16 ==> is_ascii_digit(
                #[trigger] s[k],
            ),
    ensures
        timestamp_value(s) == seconds_since_epoch(
            1000 * (s[0] - 48) + 100 * (s[1] - 48) + 10 * (s[2] - 48) + (s[3] - 48),
            10 * (s[5] - 48) + (s[6] - 48),
            10 * (s[8] - 48) + (s[9] - 48),
            10 * (s[11] - 48) + (s[12] - 48),
            10 * (s[14] - 48) + (s[15] - 48),
            10 * (s[17] - 48) + (s[18] - 48),
        ),
{
    assert(is_ascii_digit(s[0]));
    assert(is_ascii_digit(s[1]));
    assert(is_ascii_digit(s[2]));
    assert(is_ascii_digit(s[3]));
    assert(is_ascii_digit(s[5]));
    assert(is_ascii_digit(s[6]));
    assert(is_ascii_digit(s[8]));
    assert(is_ascii_digit(s[9]));
    assert(is_ascii_digit(s[11]));
    assert(is_ascii_digit(s[12]));
    assert(is_ascii_digit(s[14]));
    assert(is_ascii_digit(s[15]));
    assert(is_ascii_digit(s[17]));
    assert(is_ascii_digit(s[18]));
    lemma_digit_fields(s[0], s[1]);
    lemma_digit_fields(s[2], s[3]);
    lemma_digit_fields(s[5], s[6]);
    lemma_digit_fields(s[8], s[9]);
    lemma_digit_fields(s[11], s[12]);
    lemma_digit_fields(s[14], s[15]);
    lemma_digit_fields(s[17], s[18]);
}

} // verus!
