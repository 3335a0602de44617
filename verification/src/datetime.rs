//! Dates and times of limited precision, such as `2023`, `2023-03` or
//! `2023-03-17 17:08`, and the instants they stand for.

use crate::text::{ascii_bytes, byte_in_class, chars_of, digit_value, in_class, CharClass};
use vstd::prelude::*;

verus! {

/// A calendar date and a time of day, in UTC.
#[derive(Clone, Copy, Debug, PartialEq, Eq)]
pub struct CivilDateTime {
    pub year: i32,
    pub month: u32,
    pub day: u32,
    pub hour: u32,
    pub minute: u32,
    pub second: u32,
}

/// Why a text is no date and time.
#[derive(Clone, Copy, Debug, PartialEq, Eq)]
pub enum DateError {
    /// The text has not the form `YYYY[-MM[-DD[ HH[:MM[:SS]]]]]`, or the day
    /// does not exist.
    InvalidDate,
    /// The time of day does not exist.
    InvalidTime,
}

pub open spec fn is_leap_year(year: int) -> bool {
    year % 4 == 0 && (year % 100 != 0 || year % 400 == 0)
}

pub open spec fn days_in_month(year: int, month: int) -> int {
    if month == 2 {
        if is_leap_year(year) {
            29
        } else {
            28
        }
    } else if month == 4 || month == 6 || month == 9 || month == 11 {
        30
    } else {
        31
    }
}

/// The day exists in the Gregorian calendar.
pub open spec fn valid_date(year: int, month: int, day: int) -> bool {
    1 <= month <= 12 && 1 <= day <= days_in_month(year, month)
}

/// The time exists on a day without a leap second.
pub open spec fn valid_time(hour: int, minute: int, second: int) -> bool {
    0 <= hour < 24 && 0 <= minute < 60 && 0 <= second < 60
}

/// What must stand at position `i` of a date and time.
pub open spec fn fits_position(i: int, c: char) -> bool {
    if i == 4 || i == 7 {
        c == '-'
    } else if i == 10 {
        in_class(CharClass::Space, c)
    } else if i == 13 || i == 16 {
        c == ':'
    } else {
        in_class(CharClass::Digit, c)
    }
}

/// The text is a year of four digits, followed by as many of month, day,
/// hour, minute and second as it has, each of two digits.
pub open spec fn well_shaped(text: Seq<char>) -> bool {
    &&& text.len() == 4 || text.len() == 7 || text.len() == 10 || text.len() == 13 || text.len()
        == 16 || text.len() == 19
    &&& forall|i: int| 0 <= i < text.len() ==> fits_position(i, #[trigger] text[i])
}

/// The number of two digits at `at`.
pub open spec fn pair_at(text: Seq<char>, at: int) -> int {
    digit_value(text[at]) * 10 + digit_value(text[at + 1])
}

pub open spec fn year_of(text: Seq<char>) -> int {
    pair_at(text, 0) * 100 + pair_at(text, 2)
}

/// Field `k` of month, day, hour, minute and second: what `text` says, or
/// the default where `text` ends before it.
pub open spec fn field_of(text: Seq<char>, defaults: Seq<u32>, k: int) -> int {
    if 3 * k + 7 <= text.len() {
        pair_at(text, 3 * k + 5)
    } else {
        defaults[k] as int
    }
}

/// The date and time that `text` stands for, with `defaults` for the fields
/// that it leaves out.
pub open spec fn parsed_datetime(text: Seq<char>, defaults: Seq<u32>) -> Result<
    CivilDateTime,
    DateError,
> {
    let year = year_of(text);
    let month = field_of(text, defaults, 0);
    let day = field_of(text, defaults, 1);
    let hour = field_of(text, defaults, 2);
    let minute = field_of(text, defaults, 3);
    let second = field_of(text, defaults, 4);
    if !well_shaped(text) || !valid_date(year, month, day) {
        Err(DateError::InvalidDate)
    } else if !valid_time(hour, minute, second) {
        Err(DateError::InvalidTime)
    } else {
        Ok(
            CivilDateTime {
                year: year as i32,
                month: month as u32,
                day: day as u32,
                hour: hour as u32,
                minute: minute as u32,
                second: second as u32,
            },
        )
    }
}

/// The defaults of the earliest instant of a date: January, the first, at
/// midnight.
pub open spec fn floor_defaults() -> Seq<u32> {
    seq![1u32, 1u32, 0u32, 0u32, 0u32]
}

/// The defaults of the latest instant of a date: December, the 31st, one
/// second before midnight.
pub open spec fn ceil_defaults() -> Seq<u32> {
    seq![12u32, 31u32, 23u32, 59u32, 59u32]
}

/// The nanoseconds from 1970-01-01 00:00:00 UTC to the given UTC date and
/// time, as the `chrono` crate computes them; `None` where the date or the
/// time does not exist or the number does not fit in 64 bits.
pub uninterp spec fn utc_nanoseconds(
    year: int,
    month: int,
    day: int,
    hour: int,
    minute: int,
    second: int,
) -> Option<i64>;

/// Calls `chrono::DateTime::<Utc>::timestamp_nanos_opt` on the date and time
/// that `chrono::NaiveDate::from_ymd_opt` and `and_hms_opt` make of the
/// arguments. The contract only says that the result depends on the
/// arguments alone; it is `None` where `chrono` has no such date and time or
/// the nanoseconds do not fit.
#[verifier::external_body]
fn chrono_utc_nanoseconds(
    year: i32,
    month: u32,
    day: u32,
    hour: u32,
    minute: u32,
    second: u32,
) -> (r: Option<i64>)
    ensures
        r == utc_nanoseconds(
            year as int,
            month as int,
            day as int,
            hour as int,
            minute as int,
            second as int,
        ),
{
    chrono::NaiveDate::from_ymd_opt(year, month, day)?.and_hms_opt(
        hour,
        minute,
        second,
    )?.and_utc().timestamp_nanos_opt()
}

impl CivilDateTime {
    /// The instant as `utc_nanoseconds` names it.
    pub open spec fn nanoseconds(&self) -> Option<i64> {
        utc_nanoseconds(
            self.year as int,
            self.month as int,
            self.day as int,
            self.hour as int,
            self.minute as int,
            self.second as int,
        )
    }

    /// The nanoseconds from the Unix epoch to this instant, if they fit in
    /// 64 bits.
    pub fn timestamp_nanos(&self) -> (r: Option<i64>)
        ensures
            r == self.nanoseconds(),
    {
        chrono_utc_nanoseconds(
            self.year,
            self.month,
            self.day,
            self.hour,
            self.minute,
            self.second,
        )
    }
}

/// Whether the day exists.
pub fn is_valid_date(year: u32, month: u32, day: u32) -> (r: bool)
    ensures
        r == valid_date(year as int, month as int, day as int),
{
    if month < 1 || month > 12 || day < 1 {
        return false;
    }
    let leap = year % 4 == 0 && (year % 100 != 0 || year % 400 == 0);
    let days = if month == 2 {
        if leap {
            29
        } else {
            28
        }
    } else if month == 4 || month == 6 || month == 9 || month == 11 {
        30
    } else {
        31
    };
    day <= days
}

/// The number of two digits at `at`.
fn two_digits(bytes: &[u8], at: usize) -> (r: u32)
    requires
        at + 2 <= bytes@.len(),
        in_class(CharClass::Digit, chars_of(bytes@)[at as int]),
        in_class(CharClass::Digit, chars_of(bytes@)[at + 1]),
    ensures
        r == pair_at(chars_of(bytes@), at as int),
        r < 100,
{
    ((bytes[at] - 48) as u32) * 10 + (bytes[at + 1] - 48) as u32
}

/// Reads a date and time of any precision from a year down to a second;
/// `defaults` stand for month, day, hour, minute and second where
/// `date_str` leaves them out.
pub fn parse_datetime_arbitrary_precision(date_str: &str, defaults: &[u32; 5]) -> (r: Result<
    CivilDateTime,
    DateError,
>)
    ensures
        r == parsed_datetime(date_str@, defaults@),
{
    let bytes = match ascii_bytes(date_str) {
        Some(bytes) => bytes,
        None => {
            proof {
                if well_shaped(date_str@) {
                    assert forall|i: int| 0 <= i < date_str@.len() implies '\0'
                        <= #[trigger] date_str@[i] <= '\u{7f}' by {
                        assert(fits_position(i, date_str@[i]));
                    }
                }
            }
            return Err(DateError::InvalidDate);
        },
    };
    let n = bytes.len();
    if !(n == 4 || n == 7 || n == 10 || n == 13 || n == 16 || n == 19) {
        return Err(DateError::InvalidDate);
    }
    let mut i: usize = 0;
    while i < n
        invariant
            i <= n,
            n == bytes@.len(),
            n <= 19,
            chars_of(bytes@) == date_str@,
            forall|j: int| 0 <= j < i ==> fits_position(j, #[trigger] date_str@[j]),
        decreases n - i,
    {
        let byte = bytes[i];
        let fits = if i == 4 || i == 7 {
            byte == 45
        } else if i == 10 {
            byte_in_class(CharClass::Space, byte)
        } else if i == 13 || i == 16 {
            byte == 58
        } else {
            byte_in_class(CharClass::Digit, byte)
        };
        proof {
            assert(date_str@[i as int] == byte as char);
        }
        if !fits {
            return Err(DateError::InvalidDate);
        }
        i += 1;
    }
    proof {
        assert(fits_position(0, date_str@[0]));
        assert(fits_position(1, date_str@[1]));
        assert(fits_position(2, date_str@[2]));
        assert(fits_position(3, date_str@[3]));
    }
    let year = two_digits(bytes, 0) * 100 + two_digits(bytes, 2);
    let mut values: [u32; 5] = *defaults;
    let mut k: usize = 0;
    while k < 5 && 3 * k + 7 <= n
        invariant
            k <= 5,
            n == bytes@.len(),
            n <= 19,
            chars_of(bytes@) == date_str@,
            well_shaped(date_str@),
            forall|j: int| 0 <= j < k ==> values@[j] == field_of(date_str@, defaults@, j),
            forall|j: int| k <= j < 5 ==> values@[j] == defaults@[j],
        decreases 5 - k,
    {
        proof {
            assert(fits_position(3 * k + 5, date_str@[3 * k + 5]));
            assert(fits_position(3 * k + 6, date_str@[3 * k + 6]));
        }
        values[k] = two_digits(bytes, 3 * k + 5);
        k += 1;
    }
    proof {
        assert forall|j: int| 0 <= j < 5 implies values@[j] == field_of(
            date_str@,
            defaults@,
            j,
        ) by {}
    }
    if !is_valid_date(year, values[0], values[1]) {
        return Err(DateError::InvalidDate);
    }
    if values[2] >= 24 || values[3] >= 60 || values[4] >= 60 {
        return Err(DateError::InvalidTime);
    }
    Ok(
        CivilDateTime {
            year: year as i32,
            month: values[0],
            day: values[1],
            hour: values[2],
            minute: values[3],
            second: values[4],
        },
    )
}

/// The earliest instant that `date_str` can mean.
pub fn parse_datetime_floor(date_str: &str) -> (r: Result<CivilDateTime, DateError>)
    ensures
        r == parsed_datetime(date_str@, floor_defaults()),
{
    let defaults: [u32; 5] = [1, 1, 0, 0, 0];
    proof {
        assert(defaults@ =~= floor_defaults());
    }
    parse_datetime_arbitrary_precision(date_str, &defaults)
}

/// The latest instant that `date_str` can mean.
pub fn parse_datetime_ceil(date_str: &str) -> (r: Result<CivilDateTime, DateError>)
    ensures
        r == parsed_datetime(date_str@, ceil_defaults()),
{
    let defaults: [u32; 5] = [12, 31, 23, 59, 59];
    proof {
        assert(defaults@ =~= ceil_defaults());
    }
    parse_datetime_arbitrary_precision(date_str, &defaults)
}

} // verus!
