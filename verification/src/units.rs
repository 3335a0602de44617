//! Conversion of what a user writes in a query by hand: dates to
//! timestamps, durations to nanoseconds, timestamps to dates.

use crate::datetime::{
    ceil_defaults, floor_defaults, parse_datetime_ceil, parse_datetime_floor, parsed_datetime,
    CivilDateTime,
};
use crate::text::{
    amount_shape, ascii_bytes, chars_of, decimal, decimal_value, lemma_shape_is_ascii,
    number_shape, scan_amount, scan_number, word_is,
};
use vstd::prelude::*;
use vstd::utf8::is_ascii_chars;

verus! {

/// What a text was converted to, or why it could not be converted.
#[derive(Clone, Copy, Debug, PartialEq, Eq)]
pub enum Conversion {
    /// A date and time to the second: its timestamp in nanoseconds.
    Instant { nanoseconds: i64, at: CivilDateTime },
    /// A date and time of less precision: the timestamps of its first and of
    /// its last second.
    Range { start: i64, end: i64, first: CivilDateTime, last: CivilDateTime },
    /// A duration, in nanoseconds.
    Duration { nanoseconds: u64 },
    /// A timestamp in nanoseconds: the seconds from the Unix epoch and the
    /// nanoseconds of the second.
    Timestamp { seconds: u64, nanoseconds: u32 },
    /// A date whose last day does not exist, such as a February, which has
    /// no 31st.
    NoLastInstant,
    /// A date whose timestamp does not fit in 64 bits.
    DateOutOfRange,
    /// A duration whose quantity does not fit in 64 bits.
    InvalidQuantity,
    /// A duration with a unit that is not known.
    UnknownUnit,
    /// A duration whose nanoseconds do not fit in 64 bits.
    DurationTooLarge,
    /// A timestamp that does not fit in 64 bits.
    InvalidTimestamp,
    /// Neither a date nor a duration nor a timestamp.
    Unrecognized,
}

/// The nanoseconds in one unit of a duration. A month has 30 days and a
/// year 365.
pub open spec fn unit_factor(word: Seq<char>) -> Option<int> {
    if word == "ns"@ || word == "nanoseconds"@ {
        Some(1int)
    } else if word == "us"@ || word == "microseconds"@ {
        Some(1_000int)
    } else if word == "ms"@ || word == "milliseconds"@ {
        Some(1_000_000int)
    } else if word == "s"@ || word == "seconds"@ {
        Some(1_000_000_000int)
    } else if word == "m"@ || word == "minutes"@ {
        Some(60_000_000_000int)
    } else if word == "h"@ || word == "hours"@ {
        Some(3_600_000_000_000int)
    } else if word == "D"@ || word == "days"@ {
        Some(86_400_000_000_000int)
    } else if word == "W"@ || word == "weeks"@ {
        Some(604_800_000_000_000int)
    } else if word == "M"@ || word == "months"@ {
        Some(2_592_000_000_000_000int)
    } else if word == "Y"@ || word == "years"@ {
        Some(31_536_000_000_000_000int)
    } else {
        None
    }
}

/// What a date and time converts to, given its first and its last instant.
pub open spec fn date_conversion(first: CivilDateTime, last: Result<
    CivilDateTime,
    crate::datetime::DateError,
>) -> Conversion {
    match last {
        Err(_) => Conversion::NoLastInstant,
        Ok(last) => match (first.nanoseconds(), last.nanoseconds()) {
            (Some(start), Some(end)) => if start == end {
                Conversion::Instant { nanoseconds: start, at: first }
            } else {
                Conversion::Range { start, end, first, last }
            },
            _ => Conversion::DateOutOfRange,
        },
    }
}

/// What a duration converts to.
pub open spec fn duration_conversion(quantity: int, word: Seq<char>) -> Conversion {
    if quantity > u64::MAX {
        Conversion::InvalidQuantity
    } else {
        match unit_factor(word) {
            None => Conversion::UnknownUnit,
            Some(factor) => if quantity * factor > u64::MAX {
                Conversion::DurationTooLarge
            } else {
                Conversion::Duration { nanoseconds: (quantity * factor) as u64 }
            },
        }
    }
}

/// What a timestamp converts to.
pub open spec fn timestamp_conversion(timestamp: int) -> Conversion {
    if timestamp > u64::MAX {
        Conversion::InvalidTimestamp
    } else {
        Conversion::Timestamp {
            seconds: (timestamp / 1_000_000_000) as u64,
            nanoseconds: (timestamp % 1_000_000_000) as u32,
        }
    }
}

/// What `text` converts to. A text that is a date is taken as a date; else
/// a number with a unit is a duration, and a number alone a timestamp.
pub open spec fn conversion_of(text: Seq<char>) -> Conversion {
    match parsed_datetime(text, floor_defaults()) {
        Ok(first) => date_conversion(first, parsed_datetime(text, ceil_defaults())),
        Err(_) => match amount_shape(text) {
            Some((a, b, c, d)) => duration_conversion(
                decimal(text.subrange(a, b)),
                text.subrange(c, d),
            ),
            None => match number_shape(text) {
                Some((a, b)) => timestamp_conversion(decimal(text.subrange(a, b))),
                None => Conversion::Unrecognized,
            },
        },
    }
}

/// The nanoseconds in the unit whose name stands in `bytes` from `from` up
/// to `to`.
fn unit_factor_at(bytes: &[u8], from: usize, to: usize) -> (r: Option<u64>)
    requires
        from <= to <= bytes@.len(),
        is_ascii_chars(chars_of(bytes@)),
    ensures
        match r {
            Some(factor) => unit_factor(chars_of(bytes@).subrange(from as int, to as int)) == Some(
                factor as int,
            ),
            None => unit_factor(chars_of(bytes@).subrange(from as int, to as int)) is None,
        },
{
    if word_is(bytes, from, to, "ns") || word_is(bytes, from, to, "nanoseconds") {
        Some(1)
    } else if word_is(bytes, from, to, "us") || word_is(bytes, from, to, "microseconds") {
        Some(1_000)
    } else if word_is(bytes, from, to, "ms") || word_is(bytes, from, to, "milliseconds") {
        Some(1_000_000)
    } else if word_is(bytes, from, to, "s") || word_is(bytes, from, to, "seconds") {
        Some(1_000_000_000)
    } else if word_is(bytes, from, to, "m") || word_is(bytes, from, to, "minutes") {
        Some(60_000_000_000)
    } else if word_is(bytes, from, to, "h") || word_is(bytes, from, to, "hours") {
        Some(3_600_000_000_000)
    } else if word_is(bytes, from, to, "D") || word_is(bytes, from, to, "days") {
        Some(86_400_000_000_000)
    } else if word_is(bytes, from, to, "W") || word_is(bytes, from, to, "weeks") {
        Some(604_800_000_000_000)
    } else if word_is(bytes, from, to, "M") || word_is(bytes, from, to, "months") {
        Some(2_592_000_000_000_000)
    } else if word_is(bytes, from, to, "Y") || word_is(bytes, from, to, "years") {
        Some(31_536_000_000_000_000)
    } else {
        None
    }
}

/// Converts a date to its timestamps, a duration to nanoseconds, or a
/// timestamp to seconds and nanoseconds.
pub fn convert_unit(value: &str) -> (r: Conversion)
    ensures
        r == conversion_of(value@),
{
    if let Ok(first) = parse_datetime_floor(value) {
        let last = match parse_datetime_ceil(value) {
            Ok(last) => last,
            Err(_) => {
                return Conversion::NoLastInstant;
            },
        };
        return match (first.timestamp_nanos(), last.timestamp_nanos()) {
            (Some(start), Some(end)) => if start == end {
                Conversion::Instant { nanoseconds: start, at: first }
            } else {
                Conversion::Range { start, end, first, last }
            },
            _ => Conversion::DateOutOfRange,
        };
    }
    let bytes = match ascii_bytes(value) {
        Some(bytes) => bytes,
        None => {
            proof {
                if amount_shape(value@) is Some || number_shape(value@) is Some {
                    lemma_shape_is_ascii(value@);
                }
            }
            return Conversion::Unrecognized;
        },
    };
    if let Some((a, b, c, d)) = scan_amount(bytes) {
        let quantity = match decimal_value(bytes, a, b) {
            Some(quantity) => quantity,
            None => {
                return Conversion::InvalidQuantity;
            },
        };
        let factor = match unit_factor_at(bytes, c, d) {
            Some(factor) => factor,
            None => {
                return Conversion::UnknownUnit;
            },
        };
        return match quantity.checked_mul(factor) {
            Some(nanoseconds) => Conversion::Duration { nanoseconds },
            None => Conversion::DurationTooLarge,
        };
    }
    if let Some((a, b)) = scan_number(bytes) {
        return match decimal_value(bytes, a, b) {
            Some(timestamp) => Conversion::Timestamp {
                seconds: timestamp / 1_000_000_000,
                nanoseconds: (timestamp % 1_000_000_000) as u32,
            },
            None => Conversion::InvalidTimestamp,
        };
    }
    Conversion::Unrecognized
}

} // verus!
