use tracetool::datetime::CivilDateTime;
use tracetool::units::{convert_unit, Conversion};

fn at(year: i32, month: u32, day: u32, hour: u32, minute: u32, second: u32) -> CivilDateTime {
    CivilDateTime { year, month, day, hour, minute, second }
}

#[test]
fn dates_convert_to_timestamps() {
    assert_eq!(
        convert_unit("2021-08-25 12:25:27"),
        Conversion::Instant { nanoseconds: 1629894327000000000, at: at(2021, 8, 25, 12, 25, 27) }
    );
    assert_eq!(
        convert_unit("2021-08-25"),
        Conversion::Range {
            start: 1629849600000000000,
            end: 1629935999000000000,
            first: at(2021, 8, 25, 0, 0, 0),
            last: at(2021, 8, 25, 23, 59, 59),
        }
    );
    assert_eq!(
        convert_unit("1970"),
        Conversion::Range {
            start: 0,
            end: 31535999000000000,
            first: at(1970, 1, 1, 0, 0, 0),
            last: at(1970, 12, 31, 23, 59, 59),
        }
    );
    assert_eq!(convert_unit("2021-02"), Conversion::NoLastInstant);
    assert_eq!(convert_unit("1600"), Conversion::DateOutOfRange);
    assert_eq!(convert_unit("2262"), Conversion::DateOutOfRange);
}

#[test]
fn durations_convert_to_nanoseconds() {
    assert_eq!(convert_unit("5ns"), Conversion::Duration { nanoseconds: 5 });
    assert_eq!(convert_unit("5 nanoseconds"), Conversion::Duration { nanoseconds: 5 });
    assert_eq!(convert_unit("5us"), Conversion::Duration { nanoseconds: 5_000 });
    assert_eq!(convert_unit("5microseconds"), Conversion::Duration { nanoseconds: 5_000 });
    assert_eq!(convert_unit(" 5 ms "), Conversion::Duration { nanoseconds: 5_000_000 });
    assert_eq!(convert_unit("5 milliseconds"), Conversion::Duration { nanoseconds: 5_000_000 });
    assert_eq!(convert_unit("5s"), Conversion::Duration { nanoseconds: 5_000_000_000 });
    assert_eq!(convert_unit("5 seconds"), Conversion::Duration { nanoseconds: 5_000_000_000 });
    assert_eq!(convert_unit("2m"), Conversion::Duration { nanoseconds: 120_000_000_000 });
    assert_eq!(convert_unit("2 minutes"), Conversion::Duration { nanoseconds: 120_000_000_000 });
    assert_eq!(convert_unit("1h"), Conversion::Duration { nanoseconds: 3_600_000_000_000 });
    assert_eq!(convert_unit("1 hours"), Conversion::Duration { nanoseconds: 3_600_000_000_000 });
    assert_eq!(convert_unit("1D"), Conversion::Duration { nanoseconds: 86_400_000_000_000 });
    assert_eq!(convert_unit("1 days"), Conversion::Duration { nanoseconds: 86_400_000_000_000 });
    assert_eq!(convert_unit("1W"), Conversion::Duration { nanoseconds: 604_800_000_000_000 });
    assert_eq!(convert_unit("1 weeks"), Conversion::Duration { nanoseconds: 604_800_000_000_000 });
    assert_eq!(convert_unit("1M"), Conversion::Duration { nanoseconds: 2_592_000_000_000_000 });
    assert_eq!(convert_unit("1months"), Conversion::Duration { nanoseconds: 2_592_000_000_000_000 });
    assert_eq!(convert_unit("1Y"), Conversion::Duration { nanoseconds: 31_536_000_000_000_000 });
    assert_eq!(convert_unit("2 years"), Conversion::Duration { nanoseconds: 63_072_000_000_000_000 });
    assert_eq!(convert_unit("0Y"), Conversion::Duration { nanoseconds: 0 });
    assert_eq!(convert_unit("584Y"), Conversion::Duration { nanoseconds: 18_417_024_000_000_000_000 });
    assert_eq!(convert_unit("585Y"), Conversion::DurationTooLarge);
    assert_eq!(convert_unit("18446744073709551615ns"), Conversion::Duration { nanoseconds: u64::MAX });
    assert_eq!(convert_unit("18446744073709551616ns"), Conversion::InvalidQuantity);
    assert_eq!(convert_unit("5 parsecs"), Conversion::UnknownUnit);
    assert_eq!(convert_unit("5 d"), Conversion::UnknownUnit);
}

#[test]
fn timestamps_convert_to_seconds_and_nanoseconds() {
    assert_eq!(
        convert_unit("1629894327278673700"),
        Conversion::Timestamp { seconds: 1629894327, nanoseconds: 278673700 }
    );
    assert_eq!(convert_unit(" 0 "), Conversion::Timestamp { seconds: 0, nanoseconds: 0 });
    assert_eq!(convert_unit("999999999"), Conversion::Timestamp { seconds: 0, nanoseconds: 999999999 });
    assert_eq!(
        convert_unit("18446744073709551615"),
        Conversion::Timestamp { seconds: 18446744073, nanoseconds: 709551615 }
    );
    assert_eq!(convert_unit("18446744073709551616"), Conversion::InvalidTimestamp);
    assert_eq!(
        convert_unit("2021"),
        Conversion::Range {
            start: 1609459200000000000,
            end: 1640995199000000000,
            first: at(2021, 1, 1, 0, 0, 0),
            last: at(2021, 12, 31, 23, 59, 59),
        }
    );
}

#[test]
fn other_texts_are_not_converted() {
    for text in ["", "  ", "abc", "-5s", "5 s 3", "1.5h", "5\u{a0}s", "2021-08-25T12"] {
        assert_eq!(convert_unit(text), Conversion::Unrecognized, "{:?}", text);
    }
}
