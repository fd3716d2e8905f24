//! Timestamps of the form `YYYY-MM-DDThh:mm:ssZ`, to the minute.

use vstd::prelude::*;

verus! {

/// A point in time: minutes since the start of 1970, the hour of the day, and
/// the day of the week with Monday as zero.
#[derive(Clone, Copy, Debug, PartialEq, Eq, Structural)]
pub struct ParsedTimestamp {
    pub total_minutes: i64,
    pub hour: u32,
    pub day_of_week: u32,
}

pub open spec fn is_digit(b: u8) -> bool {
    0x30 <= b <= 0x39
}

/// Whether all bytes are decimal digits.
pub open spec fn all_digits(bytes: Seq<u8>) -> bool {
    forall|i: int| 0 <= i < bytes.len() ==> is_digit(#[trigger] bytes[i])
}

/// The number that a run of digits stands for.
pub open spec fn digits_value(bytes: Seq<u8>) -> nat
    decreases bytes.len(),
{
    if bytes.len() == 0 {
        0
    } else {
        10 * digits_value(bytes.drop_last()) + (bytes.last() - 0x30) as nat
    }
}

/// Whether every run of digits at the front stands for a number below `2^32`.
pub open spec fn leading_digits_fit(bytes: Seq<u8>) -> bool {
    forall|n: int|
        0 <= n <= bytes.len() && all_digits(bytes.subrange(0, n)) ==> digits_value(
            #[trigger] bytes.subrange(0, n),
        ) <= u32::MAX
}

/// The number in a field of digits, or nothing where another byte stands in it.
pub fn parse_digits(bytes: &[u8]) -> (r: Option<u32>)
    requires
        leading_digits_fit(bytes@),
    ensures
        r is Some <==> all_digits(bytes@),
        r matches Some(value) ==> value == digits_value(bytes@),
{
    let mut value: u32 = 0;
    let mut i: usize = 0;
    while i < bytes.len()
        invariant
            i <= bytes@.len(),
            leading_digits_fit(bytes@),
            all_digits(bytes@.subrange(0, i as int)),
            value == digits_value(bytes@.subrange(0, i as int)),
        decreases bytes@.len() - i,
    {
        let byte: u8 = bytes[i];
        if byte < 0x30 || byte > 0x39 {
            assert(!is_digit(bytes@[i as int]));
            return None;
        }
        proof {
            let next = bytes@.subrange(0, i + 1);
            assert(next.drop_last() =~= bytes@.subrange(0, i as int));
            assert forall|j: int| 0 <= j < next.len() implies is_digit(#[trigger] next[j]) by {
                if j < i {
                    assert(next[j] == bytes@.subrange(0, i as int)[j]);
                }
            }
            assert(digits_value(next) <= u32::MAX);
        }
        value = value * 10 + (byte - 0x30) as u32;
        i += 1;
    }
    assert(bytes@.subrange(0, i as int) =~= bytes@);
    Some(value)
}

/// Short fields of digits stand for small numbers.
proof fn lemma_short_field(bytes: Seq<u8>)
    requires
        bytes.len() <= 4,
    ensures
        leading_digits_fit(bytes),
        bytes.len() == 2 && all_digits(bytes) ==> digits_value(bytes) <= 99,
        all_digits(bytes) ==> digits_value(bytes) <= 9999,
{
    assert forall|n: int| 0 <= n <= bytes.len() && all_digits(bytes.subrange(0, n)) implies digits_value(
        #[trigger] bytes.subrange(0, n),
    ) <= u32::MAX by {
        lemma_field_bound(bytes.subrange(0, n));
    }
    if all_digits(bytes) {
        lemma_field_bound(bytes);
    }
}

proof fn lemma_field_bound(bytes: Seq<u8>)
    requires
        bytes.len() <= 4,
        all_digits(bytes),
    ensures
        bytes.len() == 0 ==> digits_value(bytes) == 0,
        bytes.len() == 1 ==> digits_value(bytes) <= 9,
        bytes.len() == 2 ==> digits_value(bytes) <= 99,
        bytes.len() == 3 ==> digits_value(bytes) <= 999,
        digits_value(bytes) <= 9999,
    decreases bytes.len(),
{
    if bytes.len() > 0 {
        let rest = bytes.drop_last();
        assert forall|i: int| 0 <= i < rest.len() implies is_digit(#[trigger] rest[i]) by {
            assert(rest[i] == bytes[i]);
        }
        lemma_field_bound(rest);
        assert(is_digit(bytes[bytes.len() - 1]));
    }
}

/// The year counted from March, so that a leap day ends its year.
pub open spec fn march_year(year: int, month: int) -> int {
    if month <= 2 {
        year - 1
    } else {
        year
    }
}

/// The day in a year that starts in March, counted from zero.
pub open spec fn march_day(month: int, day: int) -> int {
    (153 * (month + if month > 2 {
        -3int
    } else {
        9
    }) + 2) / 5 + day - 1
}

/// Days from 1970-01-01 to a date of the proleptic Gregorian calendar.
#[verifier::opaque]
pub open spec fn civil_days(year: int, month: int, day: int) -> int {
    let y = march_year(year, month);
    365 * y + y / 4 - y / 100 + y / 400 + march_day(month, day) - 719_468
}

pub open spec fn in_i32(x: int) -> bool {
    i32::MIN <= x <= i32::MAX
}

/// Whether the parts of the day count stay in the `i32` range.
pub open spec fn civil_fits(year: int, month: int, day: int) -> bool {
    let y = march_year(year, month);
    let era_days = (y / 400) * 146_097;
    let y400 = y % 400;
    let day_of_era = y400 * 365 + y400 / 4 - y400 / 100 + march_day(month, day);
    &&& in_i32(month)
    &&& in_i32(day)
    &&& in_i32(
        153 * (if month > 2 {
            month - 3
        } else {
            month + 9
        }) + 2,
    )
    &&& in_i32(march_day(month, day) + 1)
    &&& in_i32(day_of_era)
    &&& in_i32(era_days)
    &&& in_i32(era_days + day_of_era)
    &&& in_i32(era_days + day_of_era - 719_468)
}

/// A year is an era of 400 years and a year in it.
proof fn lemma_era(y: int)
    ensures
        y == 400 * (y / 400) + y % 400,
        0 <= y % 400 < 400,
        y / 4 == 100 * (y / 400) + (y % 400) / 4,
        y / 100 == 4 * (y / 400) + (y % 400) / 100,
{
}

/// The date of a timestamp stays far from the machine's limits.
proof fn lemma_civil_small(year: int, month: int, day: int)
    requires
        0 <= year <= 9999,
        1 <= month <= 12,
        1 <= day <= 31,
    ensures
        civil_fits(year, month, day),
        -1_000_000 <= civil_days(year, month, day) <= 4_000_000,
{
    let y = march_year(year, month);
    reveal(civil_days);
    lemma_era(y);
    assert(0 <= march_day(month, day) <= 400);
    assert(-1 <= y / 400 <= 25);
}

/// Days from 1970-01-01 to a date of the proleptic Gregorian calendar.
pub fn days_from_civil(year: i32, month: u32, day: u32) -> (r: i64)
    requires
        civil_fits(year as int, month as int, day as int),
    ensures
        r == civil_days(year as int, month as int, day as int),
{
    let ghost y = march_year(year as int, month as int);
    let ghost doy = march_day(month as int, day as int);
    proof {
        reveal(civil_days);
        lemma_era(y);
    }
    let year: i32 = if month <= 2 {
        year - 1
    } else {
        year
    };
    let era: i32 = if year >= 0 {
        year / 400
    } else {
        -((399 - year) / 400)
    };
    assert(era == y / 400);
    assert(-14_700 <= era <= 14_700);
    let year_of_era: i32 = year - era * 400;
    let month: i32 = month as i32;
    let month_of_year: i32 = if month > 2 {
        month - 3
    } else {
        month + 9
    };
    let day_of_year: i32 = (153 * month_of_year + 2) / 5 + day as i32 - 1;
    assert(day_of_year == doy);
    let day_of_era: i32 = year_of_era * 365 + year_of_era / 4 - year_of_era / 100 + day_of_year;
    (era * 146_097 + day_of_era - 719_468) as i64
}

pub open spec fn is_leap(year: int) -> bool {
    year % 4 == 0 && (year % 100 != 0 || year % 400 == 0)
}

/// The number of days in a month.
pub open spec fn month_length(year: int, month: int) -> int {
    if month == 2 {
        if is_leap(year) {
            29
        } else {
            28
        }
    } else if month == 4 || month == 6 || month == 9 || month == 11 {
        30
    } else {
        31
    }
}

/// How the counts of leap days step from year to year.
proof fn lemma_year_step(year: int)
    ensures
        year / 4 - (year - 1) / 4 == if year % 4 == 0 {
            1int
        } else {
            0
        },
        year / 100 - (year - 1) / 100 == if year % 100 == 0 {
            1int
        } else {
            0
        },
        year / 400 - (year - 1) / 400 == if year % 400 == 0 {
            1int
        } else {
            0
        },
{
}

/// The day count starts at 1970-01-01, grows by one from day to day, by the
/// length of a month from month to month, and runs on from December to January.
pub proof fn law_calendar(year: int, month: int, day: int)
    requires
        1 <= month <= 12,
    ensures
        civil_days(1970, 1, 1) == 0,
        civil_days(year, month, day + 1) == civil_days(year, month, day) + 1,
        month < 12 ==> civil_days(year, month + 1, 1) == civil_days(year, month, 1) + month_length(
            year,
            month,
        ),
        civil_days(year + 1, 1, 1) == civil_days(year, 12, 1) + 31,
{
    reveal(civil_days);
    if month == 2 {
        lemma_year_step(year);
    }
}

/// The number in the field `from..to`.
pub open spec fn field(bytes: Seq<u8>, from: int, to: int) -> nat {
    digits_value(bytes.subrange(from, to))
}

/// Whether the bytes spell a date and a time of day to the minute; what follows
/// the second colon is only counted.
pub open spec fn is_timestamp(bytes: Seq<u8>) -> bool {
    &&& bytes.len() >= 20
    &&& bytes[4] == 0x2d
    &&& bytes[7] == 0x2d
    &&& bytes[10] == 0x54
    &&& bytes[13] == 0x3a
    &&& bytes[16] == 0x3a
    &&& all_digits(bytes.subrange(0, 4))
    &&& all_digits(bytes.subrange(5, 7))
    &&& all_digits(bytes.subrange(8, 10))
    &&& all_digits(bytes.subrange(11, 13))
    &&& all_digits(bytes.subrange(14, 16))
    &&& 1 <= field(bytes, 5, 7) <= 12
    &&& 1 <= field(bytes, 8, 10) <= 31
    &&& field(bytes, 11, 13) <= 23
    &&& field(bytes, 14, 16) <= 59
}

/// The days from 1970-01-01 to the date of a timestamp.
pub open spec fn timestamp_days(bytes: Seq<u8>) -> int {
    civil_days(
        field(bytes, 0, 4) as int,
        field(bytes, 5, 7) as int,
        field(bytes, 8, 10) as int,
    )
}

/// The minutes from the start of 1970 to a timestamp.
pub open spec fn timestamp_minutes(bytes: Seq<u8>) -> int {
    timestamp_days(bytes) * 1440 + field(bytes, 11, 13) * 60 + field(bytes, 14, 16)
}

/// What a timestamp says: its minutes, its hour, and its day of the week, on
/// which 1970-01-01 was a Thursday.
pub open spec fn denotes(t: ParsedTimestamp, bytes: Seq<u8>) -> bool {
    &&& t.total_minutes == timestamp_minutes(bytes)
    &&& t.hour == field(bytes, 11, 13)
    &&& t.day_of_week == (timestamp_days(bytes) + 3) % 7
}

/// Timestamps lie within ten thousand years.
pub(crate) proof fn lemma_timestamp_range(bytes: Seq<u8>)
    requires
        is_timestamp(bytes),
    ensures
        -2_000_000_000 <= timestamp_minutes(bytes) <= 6_000_000_000,
{
    lemma_short_field(bytes.subrange(0, 4));
    lemma_civil_small(
        field(bytes, 0, 4) as int,
        field(bytes, 5, 7) as int,
        field(bytes, 8, 10) as int,
    );
}

/// The day of the week, with Monday as zero.
fn weekday(days: i64) -> (r: u32)
    requires
        -1_000_000 <= days <= 4_000_000,
    ensures
        r == (days + 3) % 7,
{
    let shifted: i64 = days + 3;
    if shifted >= 0 {
        (shifted % 7) as u32
    } else {
        ((7 - (-shifted) % 7) % 7) as u32
    }
}

/// Reads a timestamp, or nothing where the text is none.
pub fn parse_timestamp(value: &str) -> (r: Option<ParsedTimestamp>)
    ensures
        r is Some <==> is_timestamp(vstd::utf8::encode_utf8(value@)),
        r matches Some(t) ==> denotes(t, vstd::utf8::encode_utf8(value@)),
{
    let bytes: &[u8] = value.as_bytes();
    if bytes.len() < 20 || bytes[4] != 0x2d || bytes[7] != 0x2d || bytes[10] != 0x54 || bytes[13]
        != 0x3a || bytes[16] != 0x3a {
        return None;
    }
    proof {
        lemma_short_field(bytes@.subrange(0, 4));
        lemma_short_field(bytes@.subrange(5, 7));
        lemma_short_field(bytes@.subrange(8, 10));
        lemma_short_field(bytes@.subrange(11, 13));
        lemma_short_field(bytes@.subrange(14, 16));
    }
    let year: u32 = parse_digits(&bytes[0..4])?;
    let month: u32 = parse_digits(&bytes[5..7])?;
    let day: u32 = parse_digits(&bytes[8..10])?;
    let hour: u32 = parse_digits(&bytes[11..13])?;
    let minute: u32 = parse_digits(&bytes[14..16])?;
    if month < 1 || month > 12 || day < 1 || day > 31 || hour > 23 || minute > 59 {
        return None;
    }
    proof {
        lemma_civil_small(year as int, month as int, day as int);
    }
    let days: i64 = days_from_civil(year as i32, month, day);
    let day_of_week: u32 = weekday(days);
    Some(
        ParsedTimestamp {
            total_minutes: days * 1440 + hour as i64 * 60 + minute as i64,
            hour,
            day_of_week,
        },
    )
}

pub(crate) proof fn lemma_two_digits(bytes: Seq<u8>, a: int)
    requires
        0 <= a,
        a + 2 <= bytes.len(),
    ensures
        all_digits(bytes.subrange(a, a + 2)) <==> 0x30 <= bytes[a] <= 0x39 && 0x30 <= bytes[a + 1]
            <= 0x39,
        all_digits(bytes.subrange(a, a + 2)) ==> field(bytes, a, a + 2) == 10 * (bytes[a] - 0x30) + (
        bytes[a + 1] - 0x30),
{
    let s = bytes.subrange(a, a + 2);
    assert(s[0] == bytes[a] && s[1] == bytes[a + 1]);
    reveal_with_fuel(digits_value, 3);
    assert(s.drop_last().last() == bytes[a]);
    assert(s.drop_last().drop_last().len() == 0);
}

pub(crate) proof fn lemma_four_digits(bytes: Seq<u8>)
    requires
        4 <= bytes.len(),
    ensures
        all_digits(bytes.subrange(0, 4)) <==> 0x30 <= bytes[0] <= 0x39 && 0x30 <= bytes[1] <= 0x39
            && 0x30 <= bytes[2] <= 0x39 && 0x30 <= bytes[3] <= 0x39,
        all_digits(bytes.subrange(0, 4)) ==> field(bytes, 0, 4) == 1000 * (bytes[0] - 0x30) + 100 * (
        bytes[1] - 0x30) + 10 * (bytes[2] - 0x30) + (bytes[3] - 0x30),
{
    let s = bytes.subrange(0, 4);
    assert(s[0] == bytes[0] && s[1] == bytes[1] && s[2] == bytes[2] && s[3] == bytes[3]);
    reveal_with_fuel(digits_value, 5);
    let a = s.drop_last();
    let b = a.drop_last();
    let c = b.drop_last();
    assert(a.last() == s[2] && b.last() == s[1] && c.last() == s[0] && c.drop_last().len() == 0);
}

proof fn lemma_spelled_pair(bytes: Seq<u8>, a: int, n: int)
    requires
        0 <= a,
        a + 2 <= bytes.len(),
        0 <= n <= 99,
        bytes[a] == 0x30 + n / 10,
        bytes[a + 1] == 0x30 + n % 10,
    ensures
        all_digits(bytes.subrange(a, a + 2)),
        field(bytes, a, a + 2) == n,
{
    lemma_two_digits(bytes, a);
}

/// A number of four digits is what its digits say.
proof fn lemma_four_places(n: int)
    requires
        0 <= n <= 9999,
    ensures
        n == 1000 * (n / 1000) + 100 * (n / 100 % 10) + 10 * (n / 10 % 10) + n % 10,
        0 <= n / 1000 <= 9,
        0 <= n / 100 % 10 <= 9,
        0 <= n / 10 % 10 <= 9,
        0 <= n % 10 <= 9,
{
    let tens = n / 10;
    let hundreds = n / 100;
    assert(n == 10 * tens + n % 10);
    assert(hundreds == tens / 10);
    assert(tens == 10 * hundreds + tens % 10);
    assert(n / 1000 == hundreds / 10);
    assert(hundreds == 10 * (hundreds / 10) + hundreds % 10);
}

proof fn lemma_spelled_year(bytes: Seq<u8>, n: int)
    requires
        4 <= bytes.len(),
        0 <= n <= 9999,
        bytes[0] == 0x30 + n / 1000,
        bytes[1] == 0x30 + n / 100 % 10,
        bytes[2] == 0x30 + n / 10 % 10,
        bytes[3] == 0x30 + n % 10,
    ensures
        all_digits(bytes.subrange(0, 4)),
        field(bytes, 0, 4) == n,
{
    lemma_four_places(n);
    let d0 = bytes[0] as int;
    let d1 = bytes[1] as int;
    let d2 = bytes[2] as int;
    let d3 = bytes[3] as int;
    assert(n == 1000 * (d0 - 0x30) + 100 * (d1 - 0x30) + 10 * (d2 - 0x30) + (d3 - 0x30));
    lemma_four_digits(bytes);
}

/// A date and a time of day, spelled in digits between their separators, are read
/// back exactly where they are in range.
pub proof fn law_spelled_time_is_read(
    bytes: Seq<u8>,
    t: ParsedTimestamp,
    year: int,
    month: int,
    day: int,
    hour: int,
    minute: int,
)
    requires
        0 <= year <= 9999,
        0 <= month <= 99,
        0 <= day <= 99,
        0 <= hour <= 99,
        0 <= minute <= 99,
        bytes.len() >= 20,
        bytes[0] == 0x30 + year / 1000,
        bytes[1] == 0x30 + year / 100 % 10,
        bytes[2] == 0x30 + year / 10 % 10,
        bytes[3] == 0x30 + year % 10,
        bytes[4] == 0x2d,
        bytes[5] == 0x30 + month / 10,
        bytes[6] == 0x30 + month % 10,
        bytes[7] == 0x2d,
        bytes[8] == 0x30 + day / 10,
        bytes[9] == 0x30 + day % 10,
        bytes[10] == 0x54,
        bytes[11] == 0x30 + hour / 10,
        bytes[12] == 0x30 + hour % 10,
        bytes[13] == 0x3a,
        bytes[14] == 0x30 + minute / 10,
        bytes[15] == 0x30 + minute % 10,
        bytes[16] == 0x3a,
    ensures
        is_timestamp(bytes) <==> 1 <= month <= 12 && 1 <= day <= 31 && hour <= 23 && minute <= 59,
        timestamp_days(bytes) == civil_days(year, month, day),
        timestamp_minutes(bytes) == 1440 * civil_days(year, month, day) + 60 * hour + minute,
        field(bytes, 11, 13) == hour,
        denotes(t, bytes) <==> t.total_minutes == 1440 * civil_days(year, month, day) + 60 * hour
            + minute && t.hour == hour && t.day_of_week == (civil_days(year, month, day) + 3) % 7,
{
    lemma_spelled_year(bytes, year);
    lemma_spelled_pair(bytes, 5, month);
    lemma_spelled_pair(bytes, 8, day);
    lemma_spelled_pair(bytes, 11, hour);
    lemma_spelled_pair(bytes, 14, minute);
}

/// Every timestamp has digits and separators in their places.
pub proof fn law_timestamps_are_spelled(bytes: Seq<u8>)
    requires
        is_timestamp(bytes),
    ensures
        bytes.len() >= 20,
        bytes[4] == 0x2d && bytes[7] == 0x2d && bytes[10] == 0x54 && bytes[13] == 0x3a && bytes[16]
            == 0x3a,
        forall|i: int|
            0 <= i < 16 && i != 4 && i != 7 && i != 10 && i != 13 ==> 0x30 <= #[trigger] bytes[i]
                <= 0x39,
{
    lemma_four_digits(bytes);
    lemma_two_digits(bytes, 5);
    lemma_two_digits(bytes, 8);
    lemma_two_digits(bytes, 11);
    lemma_two_digits(bytes, 14);
}

} // verus!
