use tracetool::config::Filter;
use tracetool::filter::{
    apply_workday_filter, is_work_hours, is_work_hours_at, select_marked, work_hours_marks,
};

fn work_hours_filter(work_hours: Option<bool>) -> Filter {
    Filter { start: None, end: None, sql_where: None, work_hours }
}

#[test]
fn work_hours_are_from_eight_to_five_on_weekdays() {
    assert!(is_work_hours_at(8, 0));
    assert!(is_work_hours_at(16, 4));
    assert!(!is_work_hours_at(7, 0));
    assert!(!is_work_hours_at(17, 0));
    assert!(!is_work_hours_at(12, 5));
    assert!(!is_work_hours_at(12, 6));
    assert!(is_work_hours_at(12, 2));
}

#[test]
fn samples_outside_work_hours_are_dropped() {
    let hour = 3_600_000_000_000i64;
    let timestamps: Vec<i64> = (0..24 * 14).map(|h| h * hour).collect();
    let data: Vec<u64> = (0..24 * 14).collect();
    let filter = work_hours_filter(Some(true));
    let (kept_timestamps, kept_data) =
        apply_workday_filter(timestamps.clone(), data.clone(), Some(&filter));
    assert_eq!(kept_timestamps.len(), kept_data.len());
    assert_eq!(kept_timestamps.len(), 9 * 10);
    for (t, d) in kept_timestamps.iter().zip(kept_data.iter()) {
        assert_eq!(*t, *d as i64 * hour);
        assert!(is_work_hours(*t));
    }
    for pair in kept_timestamps.windows(2) {
        assert!(pair[0] < pair[1]);
    }
    let marks = work_hours_marks(&timestamps);
    assert_eq!(marks.len(), timestamps.len());
    assert_eq!(select_marked(&data, &marks), kept_data);
}

#[test]
fn samples_stay_without_a_work_hours_filter() {
    let timestamps = vec![0i64, 1, 2];
    let data = vec![10u64, 20, 30];
    assert_eq!(
        apply_workday_filter(timestamps.clone(), data.clone(), None),
        (timestamps.clone(), data.clone())
    );
    for work_hours in [None, Some(false)] {
        let filter = work_hours_filter(work_hours);
        assert_eq!(
            apply_workday_filter(timestamps.clone(), data.clone(), Some(&filter)),
            (timestamps.clone(), data.clone())
        );
    }
    let short: Vec<u64> = vec![1];
    assert_eq!(apply_workday_filter(timestamps.clone(), short.clone(), None), (timestamps, short));
}

#[test]
fn marked_values_are_selected_in_order() {
    assert_eq!(select_marked(&vec![1, 2, 3, 4], &vec![true, false, true, false]), vec![1, 3]);
    assert_eq!(select_marked(&vec![1, 2, 3, 4], &vec![false, true]), vec![2]);
    assert_eq!(select_marked(&vec![1, 2], &vec![]), Vec::<i32>::new());
    assert_eq!(select_marked(&vec!['a', 'b'], &vec![true, true]), vec!['a', 'b']);
}
