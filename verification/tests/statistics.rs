use tracetool::statistics::{get_median, get_statistics, get_statistics_per_bin, Midpoint};

fn value(m: Midpoint<u64>) -> f64 {
    (m.lower as f64 + m.upper as f64) / 2.0
}

#[test]
fn statistics_of_a_single_sample() {
    let stats = get_statistics(&[5u64]);
    assert_eq!(stats.count, 1);
    assert_eq!(stats.min, 5);
    assert_eq!(stats.max, 5);
    assert_eq!(value(stats.median), 5.0);
    assert_eq!(value(stats.q1), 5.0);
    assert_eq!(value(stats.q3), 5.0);
    assert_eq!(value(stats.q3) - value(stats.q1), 0.0);
}

#[test]
fn quartiles_of_eight_samples() {
    let stats = get_statistics(&[1u64, 2, 3, 4, 5, 6, 7, 8]);
    assert_eq!(stats.count, 8);
    assert_eq!(stats.min, 1);
    assert_eq!(stats.max, 8);
    assert_eq!(stats.median, Midpoint { lower: 4, upper: 5 });
    assert_eq!(value(stats.median), 4.5);
    assert_eq!(value(stats.q1), 2.5);
    assert_eq!(value(stats.q3), 6.5);
    assert_eq!(value(stats.q3) - value(stats.q1), 4.0);
}

#[test]
fn quartiles_of_an_odd_number_leave_the_middle_out() {
    let stats = get_statistics(&[10u64, 20, 30, 40, 50, 60, 70]);
    assert_eq!(stats.median, Midpoint { lower: 40, upper: 40 });
    assert_eq!(stats.q1, Midpoint { lower: 20, upper: 20 });
    assert_eq!(stats.q3, Midpoint { lower: 60, upper: 60 });
    let stats = get_statistics(&[10u64, 20, 30, 40, 50]);
    assert_eq!(stats.q1, Midpoint { lower: 10, upper: 20 });
    assert_eq!(stats.q3, Midpoint { lower: 40, upper: 50 });
}

#[test]
fn statistics_of_two_and_three_samples() {
    let stats = get_statistics(&[2u64, 4]);
    assert_eq!(value(stats.median), 3.0);
    assert_eq!(stats.q1, Midpoint { lower: 2, upper: 2 });
    assert_eq!(stats.q3, Midpoint { lower: 4, upper: 4 });
    let stats = get_statistics(&[2u64, 4, 9]);
    assert_eq!(stats.median, Midpoint { lower: 4, upper: 4 });
    assert_eq!(stats.q1, Midpoint { lower: 2, upper: 2 });
    assert_eq!(stats.q3, Midpoint { lower: 9, upper: 9 });
}

#[test]
fn statistics_of_no_sample_are_the_defaults() {
    let none: [u64; 0] = [];
    let stats = get_statistics(&none);
    assert_eq!(stats.count, 0);
    assert_eq!(stats.min, 0);
    assert_eq!(stats.max, 0);
    assert_eq!(stats.median, Midpoint { lower: 0, upper: 0 });
    assert_eq!(stats.q1, Midpoint { lower: 0, upper: 0 });
    assert_eq!(stats.q3, Midpoint { lower: 0, upper: 0 });
}

#[test]
fn median_is_read_from_the_central_samples() {
    assert_eq!(get_median(&[7u64]), Midpoint { lower: 7, upper: 7 });
    assert_eq!(get_median(&[1.0f64, 2.0, 4.0, 8.0]), Midpoint { lower: 2.0, upper: 4.0 });
    assert_eq!(get_median(&[1i32, 2, 3]), Midpoint { lower: 2, upper: 2 });
}

#[test]
fn statistics_ascend_for_a_sorted_sample() {
    let stats = get_statistics(&[1u64, 1, 2, 3, 5, 8, 13, 21, 34, 55, 89]);
    let chain = [
        stats.min,
        stats.q1.lower,
        stats.q1.upper,
        stats.median.lower,
        stats.median.upper,
        stats.q3.lower,
        stats.q3.upper,
        stats.max,
    ];
    assert_eq!(chain, [1, 2, 2, 8, 8, 34, 34, 89]);
}

#[test]
fn every_bin_has_its_statistics() {
    let bins = vec![vec![1u64, 2, 3], vec![], vec![9]];
    let stats = get_statistics_per_bin(&bins);
    assert_eq!(stats.len(), 3);
    assert_eq!(stats[0], get_statistics(&[1u64, 2, 3]));
    assert_eq!(stats[1].count, 0);
    assert_eq!(stats[2].median, Midpoint { lower: 9, upper: 9 });
}
