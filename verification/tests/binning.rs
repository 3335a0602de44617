use tracetool::binning::{
    bins_ascend, checked_group_by_x, checked_ungroup_segments_by_x,
    get_grouping_function_for_time_window, get_ungrouping_function_for_time_period, group_by_x,
    sort_bins_inplace, split_at_gaps, ungroup_segments_by_x,
};
use tracetool::config::{TimePeriod, TimeUnit};

fn period(quantity: u64, unit: TimeUnit) -> TimePeriod {
    TimePeriod { quantity, unit }
}

#[test]
fn grouping_divides_by_the_width_of_the_period() {
    let g = get_grouping_function_for_time_window(&period(1, TimeUnit::Nanoseconds));
    assert_eq!(g.map_to_bin(12345), 12345);
    let g = get_grouping_function_for_time_window(&period(2, TimeUnit::Microseconds));
    assert_eq!(g.map_to_bin(5_999), 2);
    let g = get_grouping_function_for_time_window(&period(3, TimeUnit::Milliseconds));
    assert_eq!(g.map_to_bin(9_000_000), 3);
    let g = get_grouping_function_for_time_window(&period(1, TimeUnit::Seconds));
    assert_eq!(g.map_to_bin(1_999_999_999), 1);
    let g = get_grouping_function_for_time_window(&period(15, TimeUnit::Minutes));
    assert_eq!(g.map_to_bin(1_800_000_000_000), 2);
    let g = get_grouping_function_for_time_window(&period(1, TimeUnit::Hours));
    assert_eq!(g.map_to_bin(7_199_999_999_999), 1);
    let g = get_grouping_function_for_time_window(&period(1, TimeUnit::Days));
    assert_eq!(g.map_to_bin(1_629_894_327_278_673_700), 18864);
}

#[test]
fn grouping_rounds_toward_zero() {
    let g = get_grouping_function_for_time_window(&period(10, TimeUnit::Nanoseconds));
    assert_eq!(g.map_to_bin(-1), 0);
    assert_eq!(g.map_to_bin(-10), -1);
    assert_eq!(g.map_to_bin(-19), -1);
    assert_eq!(g.map_to_bin(9), 0);
    assert_eq!(g.map_to_bin(i64::MIN), i64::MIN / 10);
}

#[test]
fn ungrouping_gives_the_start_of_the_bin() {
    let p = period(15, TimeUnit::Minutes);
    let g = get_grouping_function_for_time_window(&p);
    let u = get_ungrouping_function_for_time_period(&p);
    let t = 1_629_894_327_278_673_700;
    let start = u.map_to_start(g.map_to_bin(t));
    assert_eq!(start, 1_629_893_700_000_000_000);
    assert!(start <= t && t < start + 900_000_000_000);
    assert_eq!(g.map_to_bin(start), g.map_to_bin(t));
    assert_eq!(u.checked_map_to_start(3), Some(2_700_000_000_000));
    assert_eq!(u.checked_map_to_start(i64::MAX), None);
}

#[test]
fn period_is_a_bin_width_only_with_a_fixed_unit() {
    assert_eq!(period(2, TimeUnit::Days).bin_width(), Some(172_800_000_000_000));
    assert_eq!(period(0, TimeUnit::Days).bin_width(), None);
    assert_eq!(period(1, TimeUnit::Weeks).bin_width(), None);
    assert_eq!(period(1, TimeUnit::Months).bin_width(), None);
    assert_eq!(period(1, TimeUnit::Years).bin_width(), None);
    assert_eq!(period(u64::MAX, TimeUnit::Nanoseconds).bin_width(), None);
    assert_eq!(period(i64::MAX as u64, TimeUnit::Nanoseconds).bin_width(), Some(i64::MAX));
    assert_eq!(period(1 << 62, TimeUnit::Microseconds).bin_width(), None);
}

#[test]
fn samples_are_grouped_by_bin() {
    let g = get_grouping_function_for_time_window(&period(10, TimeUnit::Nanoseconds));
    let x = [0, 3, 9, 10, 25, 27, 40];
    let y = [1u64, 2, 3, 4, 5, 6, 7];
    let (keys, groups) = group_by_x(&x, &y, None, &g);
    assert_eq!(keys, vec![0, 1, 2, 4]);
    assert_eq!(groups, vec![vec![1, 2, 3], vec![4], vec![5, 6], vec![7]]);
}

#[test]
fn small_groups_are_dropped() {
    let g = get_grouping_function_for_time_window(&period(10, TimeUnit::Nanoseconds));
    let x = [0, 3, 9, 10, 25, 27, 40];
    let y = [1u64, 2, 3, 4, 5, 6, 7];
    let (keys, groups) = group_by_x(&x, &y, Some(2), &g);
    assert_eq!(keys, vec![0, 2]);
    assert_eq!(groups, vec![vec![1, 2, 3], vec![5, 6]]);
    let (keys, groups) = group_by_x(&x, &y, Some(4), &g);
    assert!(keys.is_empty());
    assert!(groups.is_empty());
    let (keys, _) = group_by_x(&x, &y, Some(0), &g);
    assert_eq!(keys, vec![0, 1, 2, 4]);
}

#[test]
fn no_samples_give_no_groups() {
    let g = get_grouping_function_for_time_window(&period(10, TimeUnit::Nanoseconds));
    let x: [i64; 0] = [];
    let y: [u64; 0] = [];
    let (keys, groups) = group_by_x(&x, &y, None, &g);
    assert!(keys.is_empty());
    assert!(groups.is_empty());
}

#[test]
fn series_is_cut_at_gaps() {
    let bins = [3, 4, 5, 7, 9, 10];
    let values = [30u64, 40, 50, 70, 90, 100];
    let segments = split_at_gaps(&bins, &values);
    assert_eq!(
        segments,
        vec![
            (vec![3, 4, 5], vec![30, 40, 50]),
            (vec![7], vec![70]),
            (vec![9, 10], vec![90, 100]),
        ]
    );
    let none: Vec<(Vec<i64>, Vec<u64>)> = split_at_gaps(&[], &[]);
    assert!(none.is_empty());
    assert_eq!(split_at_gaps(&[i64::MAX, i64::MIN], &[1u8, 2]).len(), 2);
    assert_eq!(split_at_gaps(&[5, 5], &[1u8, 2]).len(), 2);
}

#[test]
fn segments_are_mapped_back_to_timestamps() {
    let u = get_ungrouping_function_for_time_period(&period(1, TimeUnit::Seconds));
    let segments = vec![(vec![3, 4], vec![1.5f64, 2.5]), (vec![-7], vec![0.0])];
    let mapped = ungroup_segments_by_x(&segments, &u);
    assert_eq!(
        mapped,
        vec![
            (vec![3_000_000_000, 4_000_000_000], vec![1.5, 2.5]),
            (vec![-7_000_000_000], vec![0.0]),
        ]
    );
}

#[test]
fn bins_are_sorted_in_place() {
    let mut bins = vec![vec![3u64, 1, 2], vec![], vec![5, 5, 4], vec![u64::MAX, 0]];
    sort_bins_inplace(&mut bins);
    assert_eq!(bins, vec![vec![1, 2, 3], vec![], vec![4, 5, 5], vec![0, u64::MAX]]);
}

#[test]
fn samples_out_of_order_are_not_grouped() {
    let g = get_grouping_function_for_time_window(&period(10, TimeUnit::Nanoseconds));
    assert!(bins_ascend(&[], &g));
    assert!(bins_ascend(&[5], &g));
    assert!(bins_ascend(&[9, 3, 0, 10, 19, 11], &g));
    assert!(!bins_ascend(&[0, 10, 9], &g));
    assert!(!bins_ascend(&[30, 0, 10, 20], &g));
    assert!(bins_ascend(&[-9, 9, -9], &g));
    assert_eq!(
        checked_group_by_x(&[9, 3, 10], &[1u8, 2, 3], None, &g),
        Some((vec![0, 1], vec![vec![1, 2], vec![3]]))
    );
    assert_eq!(checked_group_by_x(&[9, 3, 10], &[1u8, 2], None, &g), None);
    assert_eq!(checked_group_by_x(&[10, 9], &[1u8, 2], None, &g), None);
    assert_eq!(checked_group_by_x(&[10, 9], &[1u8, 2], Some(5), &g), None);
}

#[test]
fn bins_that_start_at_no_timestamp_are_not_mapped() {
    let u = get_ungrouping_function_for_time_period(&period(1, TimeUnit::Seconds));
    let segments = vec![(vec![3, 4], vec![1u8, 2]), (vec![9_223_372_036], vec![3])];
    assert_eq!(
        checked_ungroup_segments_by_x(&segments, &u),
        Some(vec![
            (vec![3_000_000_000, 4_000_000_000], vec![1, 2]),
            (vec![9_223_372_036_000_000_000], vec![3]),
        ])
    );
    let beyond = vec![(vec![3, 4], vec![1u8, 2]), (vec![9_223_372_037], vec![3])];
    assert_eq!(checked_ungroup_segments_by_x(&beyond, &u), None);
    let below = vec![(vec![-9_223_372_037], vec![1u8])];
    assert_eq!(checked_ungroup_segments_by_x(&below, &u), None);
    let none: Vec<(Vec<i64>, Vec<u8>)> = Vec::new();
    assert_eq!(checked_ungroup_segments_by_x(&none, &u), Some(Vec::new()));
}
