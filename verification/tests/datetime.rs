use tracetool::datetime::{
    is_valid_date, parse_datetime_arbitrary_precision, parse_datetime_ceil, parse_datetime_floor,
    CivilDateTime, DateError,
};

fn at(year: i32, month: u32, day: u32, hour: u32, minute: u32, second: u32) -> CivilDateTime {
    CivilDateTime { year, month, day, hour, minute, second }
}

#[test]
fn date_of_any_precision_has_a_first_instant() {
    assert_eq!(parse_datetime_floor("2023"), Ok(at(2023, 1, 1, 0, 0, 0)));
    assert_eq!(parse_datetime_floor("2023-03"), Ok(at(2023, 3, 1, 0, 0, 0)));
    assert_eq!(parse_datetime_floor("2023-03-17"), Ok(at(2023, 3, 17, 0, 0, 0)));
    assert_eq!(parse_datetime_floor("2023-03-17 17"), Ok(at(2023, 3, 17, 17, 0, 0)));
    assert_eq!(parse_datetime_floor("2023-03-17 17:08"), Ok(at(2023, 3, 17, 17, 8, 0)));
    assert_eq!(parse_datetime_floor("2023-03-17 17:08:14"), Ok(at(2023, 3, 17, 17, 8, 14)));
    assert_eq!(parse_datetime_floor("2023-03-17\t17:08:14"), Ok(at(2023, 3, 17, 17, 8, 14)));
    assert_eq!(parse_datetime_floor("0000-01-01"), Ok(at(0, 1, 1, 0, 0, 0)));
}

#[test]
fn date_of_any_precision_has_a_last_instant() {
    assert_eq!(parse_datetime_ceil("2023"), Ok(at(2023, 12, 31, 23, 59, 59)));
    assert_eq!(parse_datetime_ceil("2023-03"), Ok(at(2023, 3, 31, 23, 59, 59)));
    assert_eq!(parse_datetime_ceil("2023-03-17"), Ok(at(2023, 3, 17, 23, 59, 59)));
    assert_eq!(parse_datetime_ceil("2023-03-17 17"), Ok(at(2023, 3, 17, 17, 59, 59)));
    assert_eq!(parse_datetime_ceil("2023-03-17 17:08"), Ok(at(2023, 3, 17, 17, 8, 59)));
    assert_eq!(parse_datetime_ceil("2023-03-17 17:08:14"), Ok(at(2023, 3, 17, 17, 8, 14)));
    assert_eq!(parse_datetime_ceil("2023-04"), Err(DateError::InvalidDate));
    assert_eq!(parse_datetime_ceil("2024-02"), Err(DateError::InvalidDate));
}

#[test]
fn malformed_dates_are_rejected() {
    for text in [
        "", "23", "20233", "2023-3", "2023/03", "2023-03-", "2023-03-17T17", "2023-03-17 17.08",
        "2023-03-17 17:08:14 ", " 2023", "2023-03-17 17:08:1", "abcd", "2023-0a", "２０２３",
        "2023-03-17\u{a0}17",
    ] {
        assert_eq!(parse_datetime_floor(text), Err(DateError::InvalidDate), "{:?}", text);
    }
    assert_eq!(parse_datetime_floor("2023-00"), Err(DateError::InvalidDate));
    assert_eq!(parse_datetime_floor("2023-13"), Err(DateError::InvalidDate));
    assert_eq!(parse_datetime_floor("2023-02-29"), Err(DateError::InvalidDate));
    assert_eq!(parse_datetime_floor("2023-04-31"), Err(DateError::InvalidDate));
    assert_eq!(parse_datetime_floor("2023-03-00"), Err(DateError::InvalidDate));
    assert_eq!(parse_datetime_floor("2024-02-29"), Ok(at(2024, 2, 29, 0, 0, 0)));
    assert_eq!(parse_datetime_floor("2023-03-17 24"), Err(DateError::InvalidTime));
    assert_eq!(parse_datetime_floor("2023-03-17 23:60"), Err(DateError::InvalidTime));
    assert_eq!(parse_datetime_floor("2023-03-17 23:59:60"), Err(DateError::InvalidTime));
    assert_eq!(parse_datetime_floor("2023-02-30 25"), Err(DateError::InvalidDate));
}

#[test]
fn defaults_stand_for_the_fields_that_are_left_out() {
    assert_eq!(
        parse_datetime_arbitrary_precision("2023-03", &[7, 8, 9, 10, 11]),
        Ok(at(2023, 3, 8, 9, 10, 11))
    );
    assert_eq!(
        parse_datetime_arbitrary_precision("2023", &[13, 1, 0, 0, 0]),
        Err(DateError::InvalidDate)
    );
    assert_eq!(
        parse_datetime_arbitrary_precision("2023", &[1, 1, 0, 60, 0]),
        Err(DateError::InvalidTime)
    );
}

#[test]
fn leap_years_follow_the_gregorian_rule() {
    assert!(is_valid_date(2000, 2, 29));
    assert!(!is_valid_date(1900, 2, 29));
    assert!(is_valid_date(2024, 2, 29));
    assert!(!is_valid_date(2023, 2, 29));
    assert!(is_valid_date(2023, 12, 31));
    assert!(!is_valid_date(2023, 11, 31));
    assert!(!is_valid_date(2023, 0, 1));
    assert!(!is_valid_date(2023, 1, 0));
}

#[test]
fn instants_are_counted_from_the_unix_epoch() {
    assert_eq!(at(1970, 1, 1, 0, 0, 0).timestamp_nanos(), Some(0));
    assert_eq!(at(1970, 1, 1, 0, 0, 1).timestamp_nanos(), Some(1_000_000_000));
    assert_eq!(at(1969, 12, 31, 23, 59, 59).timestamp_nanos(), Some(-1_000_000_000));
    assert_eq!(at(2021, 8, 25, 12, 25, 27).timestamp_nanos(), Some(1_629_894_327_000_000_000));
    assert_eq!(at(2262, 4, 11, 23, 47, 16).timestamp_nanos(), Some(9_223_372_036_000_000_000));
    assert_eq!(at(2262, 4, 11, 23, 47, 17).timestamp_nanos(), None);
    assert_eq!(at(1677, 9, 21, 0, 12, 43).timestamp_nanos(), None);
    assert_eq!(at(1677, 9, 21, 0, 12, 44).timestamp_nanos(), Some(-9_223_372_036_000_000_000));
    assert_eq!(at(2023, 2, 30, 0, 0, 0).timestamp_nanos(), None);
    assert_eq!(at(2023, 2, 3, 24, 0, 0).timestamp_nanos(), None);
}
