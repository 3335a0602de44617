use tracetool::config::{TimePeriod, TimePeriodError, TimeUnit, Title};

#[test]
fn time_period_is_read_from_quantity_and_unit() {
    assert_eq!(
        TimePeriod::parse("15m"),
        Ok(TimePeriod { quantity: 15, unit: TimeUnit::Minutes })
    );
    assert_eq!(
        TimePeriod::parse("  100 ms\t"),
        Ok(TimePeriod { quantity: 100, unit: TimeUnit::Milliseconds })
    );
    assert_eq!(TimePeriod::parse("1 Y"), Ok(TimePeriod { quantity: 1, unit: TimeUnit::Years }));
    assert_eq!(TimePeriod::parse("2M"), Ok(TimePeriod { quantity: 2, unit: TimeUnit::Months }));
    assert_eq!(TimePeriod::parse("007W"), Ok(TimePeriod { quantity: 7, unit: TimeUnit::Weeks }));
    assert_eq!(TimePeriod::parse("1D"), Ok(TimePeriod { quantity: 1, unit: TimeUnit::Days }));
    assert_eq!(TimePeriod::parse("1h"), Ok(TimePeriod { quantity: 1, unit: TimeUnit::Hours }));
    assert_eq!(TimePeriod::parse("0s"), Ok(TimePeriod { quantity: 0, unit: TimeUnit::Seconds }));
    assert_eq!(
        TimePeriod::parse("3us"),
        Ok(TimePeriod { quantity: 3, unit: TimeUnit::Microseconds })
    );
    assert_eq!(
        TimePeriod::parse("18446744073709551615ns"),
        Ok(TimePeriod { quantity: u64::MAX, unit: TimeUnit::Nanoseconds })
    );
}

#[test]
fn time_period_errors() {
    assert_eq!(TimePeriod::parse(""), Err(TimePeriodError::Invalid));
    assert_eq!(TimePeriod::parse("m"), Err(TimePeriodError::Invalid));
    assert_eq!(TimePeriod::parse("15"), Err(TimePeriodError::Invalid));
    assert_eq!(TimePeriod::parse("15 m s"), Err(TimePeriodError::Invalid));
    assert_eq!(TimePeriod::parse("-15m"), Err(TimePeriodError::Invalid));
    assert_eq!(TimePeriod::parse("1.5h"), Err(TimePeriodError::Invalid));
    assert_eq!(TimePeriod::parse("15\u{a0}m"), Err(TimePeriodError::Invalid));
    assert_eq!(TimePeriod::parse("18446744073709551616ns"), Err(TimePeriodError::InvalidQuantity));
    assert_eq!(TimePeriod::parse("99999999999999999999999 x"), Err(TimePeriodError::InvalidQuantity));
    assert_eq!(TimePeriod::parse("15 minutes"), Err(TimePeriodError::InvalidUnit));
    assert_eq!(TimePeriod::parse("15 S"), Err(TimePeriodError::InvalidUnit));
    assert_eq!(TimePeriod::parse("15 mss"), Err(TimePeriodError::InvalidUnit));
}

#[test]
fn units_have_their_symbols() {
    assert_eq!(TimeUnit::from_symbol("m"), Some(TimeUnit::Minutes));
    assert_eq!(TimeUnit::from_symbol("M"), Some(TimeUnit::Months));
    assert_eq!(TimeUnit::from_symbol("ms"), Some(TimeUnit::Milliseconds));
    assert_eq!(TimeUnit::from_symbol("ns"), Some(TimeUnit::Nanoseconds));
    assert_eq!(TimeUnit::from_symbol(""), None);
    assert_eq!(TimeUnit::from_symbol("xs"), None);
    assert_eq!(TimeUnit::from_symbol("é"), None);
    assert_eq!(TimeUnit::Hours.nanoseconds(), Some(3_600_000_000_000));
    assert_eq!(TimeUnit::Weeks.nanoseconds(), None);
}

#[test]
fn title_holds_its_text() {
    let title = Title::new("Latency".to_string());
    assert_eq!(title.text(), "Latency");
}
