//! Timestamps of the form `YYYY-MM-DDThh:mm:ssZ`.

use vstd::prelude::*;
use vstd::string::*;

verus! {

/// An ASCII digit.
pub open spec fn is_digit(c: u8) -> bool {
    0x30 <= c <= 0x39
}

/// There are digits at `i` and right behind it.
pub open spec fn has_pair(b: Seq<u8>, i: int) -> bool {
    is_digit(b[i]) && is_digit(b[i + 1])
}

/// The number that two digits form.
pub open spec fn pair(b: Seq<u8>, i: int) -> int {
    10 * (b[i] - 0x30) + (b[i + 1] - 0x30)
}

/// The year that a timestamp starts with.
pub open spec fn year_of(b: Seq<u8>) -> int {
    100 * pair(b, 0) + pair(b, 2)
}

/// The text has year, month, day and hour in their places, with the marks
/// between them, and at least the length of a whole timestamp.
pub open spec fn has_date_and_hour(b: Seq<u8>) -> bool {
    &&& b.len() >= 20
    &&& b[4] == 0x2D && b[7] == 0x2D && b[10] == 0x54 && b[13] == 0x3A
    &&& has_pair(b, 0) && has_pair(b, 2) && has_pair(b, 5) && has_pair(b, 8) && has_pair(b, 11)
}

/// The text has the digits of a whole timestamp in their places; the marks
/// between them do not matter.
pub open spec fn has_instant(b: Seq<u8>) -> bool {
    &&& b.len() >= 20
    &&& has_pair(b, 0) && has_pair(b, 2) && has_pair(b, 5) && has_pair(b, 8) && has_pair(b, 11)
    &&& has_pair(b, 14) && has_pair(b, 17)
}

/// Year, month, day and hour of a timestamp.
pub open spec fn date_and_hour(b: Seq<u8>) -> Option<(u32, u32, u32, u32)> {
    if has_date_and_hour(b) {
        Some((year_of(b) as u32, pair(b, 5) as u32, pair(b, 8) as u32, pair(b, 11) as u32))
    } else {
        None
    }
}

/// The year that starts in March and holds the month.
pub open spec fn march_year(y: int, m: int) -> int {
    if m <= 2 {
        y - 1
    } else {
        y
    }
}

/// The day's number in the proleptic Gregorian calendar; 1970-01-01 is day 0.
/// Days beyond the end of their month run on into the next.
pub open spec fn day_number(y: int, m: int, d: int) -> int {
    let my = march_year(y, m);
    let months_from_march = if m <= 2 {
        m + 9
    } else {
        m - 3
    };
    365 * my + my / 4 - my / 100 + my / 400 + (153 * months_from_march + 2) / 5 + d - 1 - 719468
}

/// Seconds from 1970-01-01T00:00:00 to the instant that a timestamp names.
pub open spec fn unix_seconds(b: Seq<u8>) -> int {
    86400 * day_number(year_of(b), pair(b, 5), pair(b, 8)) + 3600 * pair(b, 11) + 60 * pair(b, 14)
        + pair(b, 17)
}

/// The instant of a timestamp, as a 64-bit count that wraps below 1970.
pub open spec fn instant(b: Seq<u8>) -> Option<u64> {
    if has_instant(b) {
        Some((unix_seconds(b) % 0x1_0000_0000_0000_0000) as u64)
    } else {
        None
    }
}

/// The seconds from `prev` to `now`; none if either is no timestamp or `prev`
/// is the later count.
pub open spec fn elapsed(now: Seq<u8>, prev: Seq<u8>) -> Option<u64> {
    match (instant(now), instant(prev)) {
        (Some(a), Some(b)) => if b <= a {
            Some((a - b) as u64)
        } else {
            None
        },
        _ => None,
    }
}

/// The value of the digit at `i`.
fn digit(b: &[u8], i: usize) -> (r: Option<u32>)
    requires
        i < b@.len(),
    ensures
        r == if is_digit(b@[i as int]) {
            Some((b@[i as int] - 0x30) as u32)
        } else {
            None
        },
{
    let c = b[i];
    if 0x30 <= c && c <= 0x39 {
        Some((c - 0x30) as u32)
    } else {
        None
    }
}

/// The number that the two digits from `i` on form.
fn two_digits(b: &[u8], i: usize) -> (r: Option<u32>)
    requires
        i + 1 < b@.len(),
    ensures
        r == if has_pair(b@, i as int) {
            Some(pair(b@, i as int) as u32)
        } else {
            None
        },
        r matches Some(v) ==> v <= 99,
{
    assert(b.len() == b@.len());
    let tens = digit(b, i)?;
    let ones = digit(b, i + 1)?;
    Some(tens * 10 + ones)
}

/// Reads year, month, day and hour of a timestamp. The numbers are not checked
/// against the calendar.
pub fn parse_rfc3339_ymdh(s: &str) -> (r: Option<(u32, u32, u32, u32)>)
    ensures
        r == date_and_hour(s.spec_bytes()),
{
    let b = s.as_bytes();
    if b.len() < 20 || b[4] != 0x2D || b[7] != 0x2D || b[10] != 0x54 || b[13] != 0x3A {
        return None;
    }
    let century = two_digits(b, 0)?;
    let y = two_digits(b, 2)?;
    let mo = two_digits(b, 5)?;
    let da = two_digits(b, 8)?;
    let ho = two_digits(b, 11)?;
    Some((century * 100 + y, mo, da, ho))
}

/// The number of a day of a four-digit year.
fn civil_days(year: i64, mo: i64, da: i64) -> (days: i64)
    requires
        0 <= year <= 9999,
        0 <= mo <= 99,
        0 <= da <= 99,
    ensures
        days == day_number(year as int, mo as int, da as int),
        -1_000_000 <= days <= 4_000_000,
{
    let y: i64 = year - (if mo <= 2 {
        1
    } else {
        0
    });
    // Years are counted in eras of 400; the year before 0 is the last of its era.
    let era: i64 = if y < 0 {
        -1
    } else {
        y / 400
    };
    let yoe: i64 = y - era * 400;
    let doy: i64 = (153 * (if mo > 2 {
        mo - 3
    } else {
        mo + 9
    }) + 2) / 5 + da - 1;
    proof {
        assert(y / 4 == 100 * era + yoe / 4);
        assert(y / 100 == 4 * era + yoe / 100);
        assert(y / 400 == era);
    }
    let doe: i64 = yoe * 365 + yoe / 4 - yoe / 100 + doy;
    era * 146097 + doe - 719468
}

/// Reads a timestamp as a count of seconds. The marks between the numbers are
/// not looked at, and the numbers are not checked against the calendar.
pub fn parse_full(s: &str) -> (r: Option<u64>)
    ensures
        r == instant(s.spec_bytes()),
{
    let b = s.as_bytes();
    if b.len() < 20 {
        return None;
    }
    let century = two_digits(b, 0)?;
    let year_in_century = two_digits(b, 2)?;
    let mo: i64 = two_digits(b, 5)? as i64;
    let da: i64 = two_digits(b, 8)? as i64;
    let h: i64 = two_digits(b, 11)? as i64;
    let mi: i64 = two_digits(b, 14)? as i64;
    let se: i64 = two_digits(b, 17)? as i64;

    let y: i64 = (century * 100 + year_in_century) as i64;
    let days = civil_days(y, mo, da);
    let secs: i64 = days * 86400 + h * 3600 + mi * 60 + se;
    proof {
        assert(secs == unix_seconds(s.spec_bytes()));
        lemma_wrapped(secs);
    }
    Some(secs as u64)
}

/// A negative count wraps.
proof fn lemma_wrapped(x: i64)
    ensures
        x as u64 == (x as int) % 0x1_0000_0000_0000_0000,
{
    assert(x >= 0 ==> x as u64 == x) by (bit_vector);
    assert(x < 0 ==> x as u64 == x + 0x1_0000_0000_0000_0000) by (bit_vector);
}

/// The seconds from one timestamp to a later one.
pub fn seconds_between(now: &str, prev: &str) -> (r: Option<u64>)
    ensures
        r == elapsed(now.spec_bytes(), prev.spec_bytes()),
{
    let a = parse_full(now)?;
    let b = parse_full(prev)?;
    a.checked_sub(b)
}

/// The shift that each month adds to the weekday of its year.
pub const MONTH_SHIFT: [u32; 12] = [0, 3, 2, 5, 0, 3, 5, 1, 4, 6, 2, 4];

/// The year from which a date's weekday is counted, in 32-bit arithmetic that
/// wraps below zero.
pub open spec fn weekday_year(y: int, m: int) -> int {
    march_year(y, m) % 0x1_0000_0000
}

/// The days, up to whole weeks, that lead to a date: one for each year, one for
/// each leap day, and those of the month.
pub open spec fn weekday_sum(year: int, m: int, d: int) -> int {
    year + year / 4 - year / 100 + year / 400 + MONTH_SHIFT[m - 1] + d
}

/// The weekday of a date, Monday being 0. The sum wraps at 32 bits.
pub open spec fn weekday(y: int, m: int, d: int) -> int {
    ((weekday_sum(weekday_year(y, m), m, d) % 0x1_0000_0000) % 7 + 6) % 7
}

/// The weekday of a date, Monday being 0.
pub fn day_of_week_spec(y: u32, m: u32, d: u32) -> (w: u32)
    requires
        1 <= m <= 12,
    ensures
        w == weekday(y as int, m as int, d as int),
{
    let y_adj: u64 = if m < 3 {
        y.wrapping_sub(1) as u64
    } else {
        y as u64
    };
    let sum: u64 = y_adj + y_adj / 4 - y_adj / 100 + y_adj / 400 + MONTH_SHIFT[(m - 1) as usize]
        as u64 + d as u64;
    let sak: u64 = (sum % 0x1_0000_0000) % 7;
    ((sak + 6) % 7) as u32
}

/// A leap year of the Gregorian calendar.
pub open spec fn is_leap(y: int) -> bool {
    y % 4 == 0 && (y % 100 != 0 || y % 400 == 0)
}

/// The length of a month.
pub open spec fn days_in_month(y: int, m: int) -> int {
    if m == 2 {
        if is_leap(y) {
            29
        } else {
            28
        }
    } else if m == 4 || m == 6 || m == 9 || m == 11 {
        30
    } else {
        31
    }
}

/// Days are numbered as in the Gregorian calendar: the first day of 1970 has
/// the number 0, each day of a month follows the one before, and the first day
/// of a month follows the last day of the month before.
pub proof fn days_follow_the_calendar(y: int, m: int, d: int)
    requires
        1 <= m <= 12,
    ensures
        day_number(1970, 1, 1) == 0,
        day_number(y, m, d + 1) == day_number(y, m, d) + 1,
        m < 12 ==> day_number(y, m + 1, 1) == day_number(y, m, days_in_month(y, m)) + 1,
        m == 12 ==> day_number(y + 1, 1, 1) == day_number(y, 12, 31) + 1,
{
    if m == 2 {
        let p = y - 1;
        assert(y / 4 - p / 4 == if y % 4 == 0 {
            1int
        } else {
            0
        });
        assert(y / 100 - p / 100 == if y % 100 == 0 {
            1int
        } else {
            0
        });
        assert(y / 400 - p / 400 == if y % 400 == 0 {
            1int
        } else {
            0
        });
    }
}

/// The weekday goes with the day's number: it is the same for dates whose
/// numbers differ by whole weeks, and 1970-01-01 was a Thursday. This holds of
/// every date whose weekday is found without wrapping.
pub proof fn weekday_goes_with_the_day_number(y: int, m: int, d: int)
    requires
        1 <= m <= 12,
        0 <= march_year(y, m),
        0 <= d,
        weekday_sum(march_year(y, m), m, d) <= u32::MAX,
    ensures
        weekday(y, m, d) == (day_number(y, m, d) + 3) % 7,
{
    let my = march_year(y, m);
    let base = my + my / 4 - my / 100 + my / 400;
    let shift = (153 * (if m <= 2 {
        m + 9
    } else {
        m - 3
    }) + 2) / 5;
    lemma_month_shift(m);
    lemma_unwrapped(my, MONTH_SHIFT[m - 1] as int, d);
    lemma_week_sum(my, base, shift, MONTH_SHIFT[m - 1] as int, d);
}

/// Small sums do not wrap.
proof fn lemma_unwrapped(my: int, shift: int, d: int)
    requires
        0 <= my,
        0 <= shift <= 6,
        0 <= d,
        my + my / 4 - my / 100 + my / 400 + shift + d <= u32::MAX,
    ensures
        my % 0x1_0000_0000 == my,
        ({
            let sum = my + my / 4 - my / 100 + my / 400 + shift + d;
            ((sum % 0x1_0000_0000) % 7 + 6) % 7 == (sum + 6) % 7
        }),
{
    let sum = my + my / 4 - my / 100 + my / 400 + shift + d;
    assert(my <= sum < 0x1_0000_0000);
}

/// The shift of a month is, up to whole weeks, its distance from March.
proof fn lemma_month_shift(m: int)
    requires
        1 <= m <= 12,
    ensures
        0 <= MONTH_SHIFT[m - 1] <= 6,
        ((153 * (if m <= 2 {
            m + 9
        } else {
            m - 3
        }) + 2) / 5 - MONTH_SHIFT[m - 1] - 5) % 7 == 0,
{
}

proof fn lemma_week_sum(my: int, base: int, shift: int, month: int, d: int)
    requires
        (shift - month - 5) % 7 == 0,
    ensures
        (base + month + d + 6) % 7 == (base + 364 * my + shift + d - 1 - 719468 + 3) % 7,
{
    let q = (shift - month - 5) / 7;
    assert(shift == month + 5 + 7 * q);
    let a = base + month + d + 6;
    let b = base + 364 * my + shift + d - 1 - 719468 + 3;
    assert(b == a + 7 * (52 * my + q - 102781));
    vstd::arithmetic::div_mod::lemma_mod_multiples_vanish(52 * my + q - 102781, a, 7);
}

/// A weekday is one of seven.
pub proof fn weekday_is_one_of_seven(y: int, m: int, d: int)
    ensures
        0 <= weekday(y, m, d) <= 6,
{
}

/// Where both readings of a timestamp succeed they read the same year, month,
/// day and hour: the count of seconds lies within the hour that the date names.
pub proof fn readings_agree(b: Seq<u8>)
    requires
        has_instant(b),
        date_and_hour(b) is Some,
    ensures
        ({
            let (y, m, d, h) = date_and_hour(b).unwrap();
            let hour_start = 86400 * day_number(y as int, m as int, d as int) + 3600 * h;
            unix_seconds(b) == hour_start + 60 * pair(b, 14) + pair(b, 17)
        }),
{
}

/// No time passes between a timestamp and itself, and time that passes adds up:
/// from the first to the last of three timestamps in order it is the sum of the
/// two parts.
pub proof fn elapsed_time_adds_up(first: Seq<u8>, middle: Seq<u8>, last: Seq<u8>)
    requires
        has_instant(first),
    ensures
        elapsed(first, first) == Some(0u64),
        elapsed(middle, first) is Some && elapsed(last, middle) is Some ==> elapsed(last, first)
            is Some && elapsed(last, first).unwrap() == elapsed(middle, first).unwrap() + elapsed(
            last,
            middle,
        ).unwrap(),
{
}

/// Between two instants that are both before 1970, or both not, the seconds that
/// pass are the difference of their counts, and there is no result exactly if
/// the second one is earlier.
pub proof fn elapsed_time_is_the_difference(now: Seq<u8>, prev: Seq<u8>)
    requires
        has_instant(now),
        has_instant(prev),
        unix_seconds(now) >= 0 <==> unix_seconds(prev) >= 0,
    ensures
        elapsed(now, prev) is Some <==> unix_seconds(prev) <= unix_seconds(now),
        elapsed(now, prev) matches Some(s) ==> s == unix_seconds(now) - unix_seconds(prev),
{
    lemma_instant(now);
    lemma_instant(prev);
}

/// From 1970 on, the count of seconds does not wrap; before, it wraps once.
proof fn lemma_instant(b: Seq<u8>)
    requires
        has_instant(b),
    ensures
        instant(b) matches Some(t) && t == if unix_seconds(b) >= 0 {
            unix_seconds(b)
        } else {
            unix_seconds(b) + 0x1_0000_0000_0000_0000
        },
{
    let x = unix_seconds(b);
    assert(-0x1_0000_0000_0000_0000 < x < 0x1_0000_0000_0000_0000);
    if x >= 0 {
        vstd::arithmetic::div_mod::lemma_small_mod(x as nat, 0x1_0000_0000_0000_0000);
    } else {
        vstd::arithmetic::div_mod::lemma_mod_add_multiples_vanish(x, 0x1_0000_0000_0000_0000);
        vstd::arithmetic::div_mod::lemma_small_mod(
            (x + 0x1_0000_0000_0000_0000) as nat,
            0x1_0000_0000_0000_0000,
        );
    }
}

/// The two bytes from `i` on are the decimal text of `n`.
pub open spec fn shows(b: Seq<u8>, i: int, n: int) -> bool {
    0 <= n <= 99 && b[i] == 48 + n / 10 && b[i + 1] == 48 + n % 10
}

/// The decimal text of a number of two digits reads as that number.
pub proof fn digits_read_as_their_number(b: Seq<u8>, i: int, n: int)
    requires
        shows(b, i, n),
    ensures
        has_pair(b, i),
        pair(b, i) == n,
{
}

/// Two bytes read as a number exactly where both are digits, and then they are
/// the text of the number read.
pub proof fn only_digits_are_read(b: Seq<u8>, i: int)
    ensures
        has_pair(b, i) <==> 48 <= b[i] <= 57 && 48 <= b[i + 1] <= 57,
        has_pair(b, i) ==> shows(b, i, pair(b, i)),
{
}

/// A date and hour written out in full, with its marks, reads back.
pub proof fn written_dates_read_back(b: Seq<u8>, y: int, m: int, d: int, h: int)
    requires
        b.len() >= 20,
        0 <= y <= 9999,
        shows(b, 0, y / 100),
        shows(b, 2, y % 100),
        b[4] == 45,
        shows(b, 5, m),
        b[7] == 45,
        shows(b, 8, d),
        b[10] == 84,
        shows(b, 11, h),
        b[13] == 58,
    ensures
        date_and_hour(b) == Some((y as u32, m as u32, d as u32, h as u32)),
{
}

/// A text that lacks a digit or a mark of a date and hour, or is too short for
/// a whole timestamp, is not read; every other one is.
pub proof fn only_written_dates_are_read(b: Seq<u8>)
    ensures
        date_and_hour(b) is Some <==> {
            &&& b.len() >= 20
            &&& b[4] == 45 && b[7] == 45 && b[10] == 84 && b[13] == 58
            &&& forall|i: int|
                0 <= i < 13 && i != 4 && i != 7 && i != 10 ==> 48 <= #[trigger] b[i] <= 57
        },
{
    if has_date_and_hour(b) {
        assert forall|i: int| 0 <= i < 13 && i != 4 && i != 7 && i != 10 implies 48 <= #[trigger] b[i]
            <= 57 by {
            assert(has_pair(b, 0) && has_pair(b, 2) && has_pair(b, 5) && has_pair(b, 8) && has_pair(
                b,
                11,
            ));
        }
    }
}

/// A whole timestamp reads back as the seconds of its day and time, whatever
/// stands between the numbers. Counts below zero wrap.
pub proof fn written_instants_read_back(
    b: Seq<u8>,
    y: int,
    m: int,
    d: int,
    h: int,
    mi: int,
    s: int,
)
    requires
        b.len() >= 20,
        0 <= y <= 9999,
        shows(b, 0, y / 100),
        shows(b, 2, y % 100),
        shows(b, 5, m),
        shows(b, 8, d),
        shows(b, 11, h),
        shows(b, 14, mi),
        shows(b, 17, s),
    ensures
        has_instant(b),
        unix_seconds(b) == 24 * 60 * 60 * day_number(y, m, d) + 60 * 60 * h + 60 * mi + s,
        instant(b) matches Some(t) && t == if unix_seconds(b) >= 0 {
            unix_seconds(b)
        } else {
            unix_seconds(b) + 0x1_0000_0000_0000_0000
        },
{
    lemma_instant(b);
}

/// A text that lacks a digit of a timestamp, or is too short, names no instant;
/// every other one does.
pub proof fn only_written_instants_are_read(b: Seq<u8>)
    ensures
        instant(b) is Some <==> {
            &&& b.len() >= 20
            &&& forall|i: int|
                0 <= i < 19 && i != 4 && i != 7 && i != 10 && i != 13 && i != 16 ==> 48
                    <= #[trigger] b[i] <= 57
        },
        has_instant(b) <==> instant(b) is Some,
{
    if has_instant(b) {
        assert forall|i: int|
            0 <= i < 19 && i != 4 && i != 7 && i != 10 && i != 13 && i != 16 implies 48
            <= #[trigger] b[i] <= 57 by {
            assert(has_pair(b, 0) && has_pair(b, 2) && has_pair(b, 5) && has_pair(b, 8) && has_pair(
                b,
                11,
            ) && has_pair(b, 14) && has_pair(b, 17));
        }
    }
}

/// The days of a month are numbered one after the other, and from the first of
/// a month to the first of the next it is as many days as the month has: 31, 30
/// for April, June, September and November, and for February 28, or 29 in every
/// fourth year but for three of four turns of the century.
pub proof fn months_have_their_lengths(y: int, m: int, d: int)
    requires
        1 <= m <= 12,
    ensures
        day_number(1970, 1, 1) == 0,
        day_number(y, m, d) - day_number(y, m, 1) == d - 1,
        m == 1 || m == 3 || m == 5 || m == 7 || m == 8 || m == 10 ==> day_number(y, m + 1, 1)
            - day_number(y, m, 1) == 31,
        m == 4 || m == 6 || m == 9 || m == 11 ==> day_number(y, m + 1, 1) - day_number(y, m, 1)
            == 30,
        m == 12 ==> day_number(y + 1, 1, 1) - day_number(y, m, 1) == 31,
        m == 2 && y % 400 == 0 ==> day_number(y, 3, 1) - day_number(y, 2, 1) == 29,
        m == 2 && y % 400 != 0 && y % 100 == 0 ==> day_number(y, 3, 1) - day_number(y, 2, 1) == 28,
        m == 2 && y % 100 != 0 && y % 4 == 0 ==> day_number(y, 3, 1) - day_number(y, 2, 1) == 29,
        m == 2 && y % 4 != 0 ==> day_number(y, 3, 1) - day_number(y, 2, 1) == 28,
{
    days_follow_the_calendar(y, m, 1);
    days_follow_the_calendar(y, m, d);
}

/// Numbers that name no month run on: month zero is the December before, and
/// behind the twelfth, five months make 153 days throughout.
pub proof fn months_run_on_beyond_the_calendar(y: int, m: int, d: int)
    requires
        3 <= m,
    ensures
        day_number(y, 0, d) == day_number(y - 1, 12, d),
        day_number(y, m + 5, d) == day_number(y, m, d) + 153,
{
}

/// The seconds between two timestamps are the difference of their instants;
/// there is none if one of them is no timestamp or the first instant is less.
pub proof fn elapsed_time_is_between_instants(now: Seq<u8>, prev: Seq<u8>)
    ensures
        elapsed(now, prev) is Some <==> instant(now) is Some && instant(prev) is Some
            && instant(prev)->0 <= instant(now)->0,
        elapsed(now, prev) matches Some(s) ==> s == instant(now)->0 - instant(prev)->0,
{
}

/// The weekday of every date: it goes with the day's number, 1970-01-01 being a
/// Thursday, and slips by four days back each time that the sum of years, leap
/// days, month and day passes 32 bits. January and February of the year zero
/// count from the largest 32-bit year.
pub proof fn weekdays_of_all_dates(y: int, m: int, d: int)
    requires
        1 <= m <= 12,
        0 <= y <= u32::MAX,
        0 <= d <= u32::MAX,
    ensures
        0 < y || 2 < m ==> {
            let my = if m <= 2 {
                y - 1
            } else {
                y
            };
            let sum = my + my / 4 - my / 100 + my / 400 + MONTH_SHIFT[m - 1] + d;
            weekday(y, m, d) == (day_number(y, m, d) + 3 - 4 * (sum / 0x1_0000_0000)) % 7
        },
        y == 0 && m <= 2 ==> weekday(y, m, d) == (day_number(y, m, d) + 11 - 4 * ((5336496864
            + MONTH_SHIFT[m - 1] + d) / 0x1_0000_0000)) % 7,
{
    let my = march_year(y, m);
    let shift = (153 * (if m <= 2 {
        m + 9
    } else {
        m - 3
    }) + 2) / 5;
    let month = MONTH_SHIFT[m - 1] as int;
    lemma_month_shift(m);
    let base = my + my / 4 - my / 100 + my / 400;
    lemma_week_sum(my, base, shift, month, d);
    if 0 <= my {
        assert(my % 0x1_0000_0000 == my);
        lemma_slip(base + month + d, day_number(y, m, d) + 3);
    } else {
        assert((-1int) % 0x1_0000_0000 == 0xffff_ffff);
        assert(base == -2);
        lemma_slip(5336496864 + month + d, day_number(y, m, d) + 11);
    }
}

/// Taking away 32 bits takes away four days, up to whole weeks.
proof fn lemma_slip(sum: int, day: int)
    requires
        0 <= sum,
        (sum + 6) % 7 == day % 7,
    ensures
        ((sum % 0x1_0000_0000) % 7 + 6) % 7 == (day - 4 * (sum / 0x1_0000_0000)) % 7,
{
    let k = sum / 0x1_0000_0000;
    let low = sum % 0x1_0000_0000;
    assert(sum == 0x1_0000_0000 * k + low);
    let q = day / 7 - (sum + 6) / 7;
    assert(day == sum + 6 + 7 * q);
    assert(day - 4 * k == low + 6 + 7 * (q + 613566756 * k));
    vstd::arithmetic::div_mod::lemma_mod_multiples_vanish(q + 613566756 * k, low + 6, 7);
}

} // verus!
