use tracetool::config::Filter;
use tracetool::criteria::{
    checked_common_criteria, criteria_of_bounds, get_common_criteria, CriteriaError,
};
use tracetool::datetime::DateError;

fn strings(criteria: Vec<String>) -> Vec<String> {
    criteria
}

#[test]
fn criteria_bound_the_time_range() {
    assert_eq!(strings(get_common_criteria(None, None, None, None)), Vec::<String>::new());
    assert_eq!(
        get_common_criteria(Some("2021-08-25"), None, None, None),
        vec!["timestamp >= 1629849600000000000"]
    );
    assert_eq!(
        get_common_criteria(None, Some("2021-08-25"), None, None),
        vec!["timestamp <= 1629935999000000000"]
    );
    assert_eq!(
        get_common_criteria(Some("1969"), Some("1969"), None, Some("e")),
        vec!["e.timestamp >= -31536000000000000", "e.timestamp <= -1000000000"]
    );
    assert_eq!(
        get_common_criteria(Some("1970"), None, None, Some("")),
        vec![".timestamp >= 0"]
    );
}

#[test]
fn criteria_start_with_the_condition_of_the_filter() {
    let filter = Filter {
        start: None,
        end: None,
        sql_where: Some("view_id = 7".to_string()),
        work_hours: None,
    };
    assert_eq!(
        get_common_criteria(Some("1970-01-01 00:00:10"), Some("1970-01-01 00:01"), Some(&filter), None),
        vec!["view_id = 7", "timestamp >= 10000000000", "timestamp <= 119000000000"]
    );
    let plain = Filter::default();
    assert_eq!(strings(get_common_criteria(None, None, Some(&plain), Some("e"))), Vec::<String>::new());
    assert_eq!(
        criteria_of_bounds(Some(i64::MIN), Some(i64::MAX), Some(&filter), Some("t")),
        vec![
            "view_id = 7",
            "t.timestamp >= -9223372036854775808",
            "t.timestamp <= 9223372036854775807"
        ]
    );
    assert_eq!(criteria_of_bounds(Some(1005), None, None, None), vec!["timestamp >= 1005"]);
}

#[test]
fn criteria_are_refused_for_bounds_that_are_no_instants() {
    assert_eq!(
        checked_common_criteria(Some("2021-08-25"), Some("2021-08"), None, None),
        Ok(vec![
            "timestamp >= 1629849600000000000".to_string(),
            "timestamp <= 1630454399000000000".to_string()
        ])
    );
    assert_eq!(
        checked_common_criteria(Some("yesterday"), Some("x"), None, None),
        Err(CriteriaError::Start(DateError::InvalidDate))
    );
    assert_eq!(
        checked_common_criteria(Some("2021"), Some("2021-02"), None, None),
        Err(CriteriaError::End(DateError::InvalidDate))
    );
    assert_eq!(
        checked_common_criteria(Some("2021"), Some("2021-02-03 25"), None, None),
        Err(CriteriaError::End(DateError::InvalidTime))
    );
    assert_eq!(
        checked_common_criteria(Some("1600"), None, None, None),
        Err(CriteriaError::StartOutOfRange)
    );
    assert_eq!(
        checked_common_criteria(None, Some("2300"), None, None),
        Err(CriteriaError::EndOutOfRange)
    );
    assert_eq!(checked_common_criteria(None, None, None, None), Ok(Vec::new()));
}
