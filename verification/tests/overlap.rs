use tracetool::overlap::engine::{compute_overlap, Sweep, SweepError, SweepOutput};
use tracetool::overlap::model::{CountSample, Interval, OverlapRecord};

fn interval(start_time: i64, duration: i64, ordinal: u32) -> Interval {
    Interval { start_time, duration, ordinal }
}

fn record(start_time: i64, ordinal: u32, overlap: u64, overlap_count: u32) -> OverlapRecord {
    OverlapRecord { start_time, ordinal, overlap, overlap_count }
}

fn sample(timestamp: i64, count: u32) -> CountSample {
    CountSample { timestamp, count }
}

fn sweep(intervals: &[Interval]) -> SweepOutput {
    compute_overlap(&intervals.to_vec()).unwrap()
}

/// The count of the last sample at or before `t`.
fn value_at(timeline: &[CountSample], t: i64) -> u32 {
    timeline.iter().rev().find(|s| s.timestamp <= t).map(|s| s.count).unwrap_or(0)
}

fn running_at(intervals: &[Interval], t: i64) -> u32 {
    intervals.iter().filter(|i| i.start_time <= t && t < i.start_time + i.duration).count() as u32
}

#[test]
fn empty_input_gives_empty_streams() {
    let out = sweep(&[]);
    assert!(out.records.is_empty());
    assert!(out.timeline.is_empty());
}

#[test]
fn single_interval_has_no_overlap() {
    let out = sweep(&[interval(7, 5, 0)]);
    assert_eq!(out.records, vec![record(7, 0, 0, 0)]);
    assert_eq!(out.timeline, vec![sample(7, 1), sample(12, 0)]);
}

#[test]
fn three_intervals_overlap_in_turn() {
    let out = sweep(&[interval(0, 10, 0), interval(5, 10, 0), interval(12, 3, 0)]);
    assert_eq!(out.records, vec![record(0, 0, 5, 1), record(5, 0, 8, 2), record(12, 0, 3, 1)]);
    assert_eq!(
        out.timeline[..5],
        [sample(0, 1), sample(5, 2), sample(10, 1), sample(12, 2), sample(15, 1)]
    );
    assert_eq!(out.timeline[5..], [sample(15, 0)]);
}

#[test]
fn three_way_overlap_exceeds_duration() {
    let out = sweep(&[interval(0, 10, 0), interval(1, 10, 0), interval(2, 10, 0)]);
    assert_eq!(out.records, vec![record(0, 0, 17, 2), record(1, 0, 18, 2), record(2, 0, 17, 2)]);
    let middle = out.records[1];
    assert!(middle.overlap_count > 1);
    assert!(middle.overlap > 10);
}

#[test]
fn overlap_with_one_partner_is_at_most_the_duration() {
    let intervals = [interval(0, 4, 0), interval(1, 100, 0), interval(200, 5, 0)];
    let out = sweep(&intervals);
    assert_eq!(out.records, vec![record(0, 0, 3, 1), record(1, 0, 3, 1), record(200, 0, 0, 0)]);
    for r in &out.records {
        let duration = intervals.iter().find(|i| i.start_time == r.start_time).unwrap().duration;
        assert!(r.overlap_count > 1 || r.overlap <= duration as u64);
    }
}

#[test]
fn partners_are_attributed_the_same_overlap() {
    let out = sweep(&[interval(10, 30, 0), interval(25, 100, 0)]);
    assert_eq!(out.records, vec![record(10, 0, 15, 1), record(25, 0, 15, 1)]);
    assert_eq!(out.records[0].overlap, out.records[1].overlap);
    assert_eq!(out.records[0].overlap_count, out.records[1].overlap_count);
}

#[test]
fn intervals_with_the_same_end_are_all_kept() {
    let out = sweep(&[interval(0, 20, 0), interval(5, 15, 0), interval(10, 10, 0)]);
    assert_eq!(out.records, vec![record(0, 0, 25, 2), record(5, 0, 25, 2), record(10, 0, 20, 2)]);
    assert_eq!(
        out.timeline,
        vec![sample(0, 1), sample(5, 2), sample(10, 3), sample(20, 2), sample(20, 1), sample(20, 0)]
    );
}

#[test]
fn intervals_with_the_same_start_overlap_each_other() {
    let out = sweep(&[interval(3, 4, 0), interval(3, 2, 1), interval(3, 6, 2)]);
    assert_eq!(out.records, vec![record(3, 1, 4, 2), record(3, 0, 6, 2), record(3, 2, 6, 2)]);
    assert_eq!(
        out.timeline,
        vec![sample(3, 1), sample(3, 2), sample(3, 3), sample(5, 2), sample(7, 1), sample(9, 0)]
    );
}

#[test]
fn an_interval_that_ends_when_the_next_starts_has_expired() {
    let out = sweep(&[interval(0, 5, 0), interval(5, 5, 0)]);
    assert_eq!(out.records, vec![record(0, 0, 0, 0), record(5, 0, 0, 0)]);
    assert_eq!(out.timeline, vec![sample(0, 1), sample(5, 0), sample(5, 1), sample(10, 0)]);
}

#[test]
fn an_interval_without_duration_never_runs() {
    let intervals = [interval(0, 10, 0), interval(4, 0, 0), interval(4, 3, 1)];
    let out = sweep(&intervals);
    assert_eq!(out.records, vec![record(4, 0, 0, 1), record(4, 1, 3, 1), record(0, 0, 3, 2)]);
    assert_eq!(
        out.timeline,
        vec![sample(0, 1), sample(4, 2), sample(4, 1), sample(4, 2), sample(7, 1), sample(10, 0)]
    );
    assert_eq!(value_at(&out.timeline, 4), running_at(&intervals, 4));
}

#[test]
fn timeline_holds_the_number_of_running_intervals() {
    let intervals = [
        interval(-20, 15, 0),
        interval(-20, 40, 1),
        interval(-3, 0, 0),
        interval(0, 7, 0),
        interval(6, 1, 0),
        interval(7, 30, 0),
        interval(19, 1, 0),
        interval(50, 2, 0),
    ];
    let out = sweep(&intervals);
    assert_eq!(out.timeline.len(), 2 * intervals.len());
    for pair in out.timeline.windows(2) {
        assert!(pair[0].timestamp <= pair[1].timestamp);
    }
    for t in -25..60 {
        assert_eq!(value_at(&out.timeline, t), running_at(&intervals, t), "at {}", t);
    }
    assert_eq!(value_at(&out.timeline, 0), 2);
    assert_eq!(value_at(&out.timeline, 19), 3);
    assert_eq!(value_at(&out.timeline, 51), 1);
}

#[test]
fn records_come_in_order_of_end_time() {
    let intervals = [interval(0, 100, 0), interval(1, 5, 0), interval(2, 50, 0), interval(3, 3, 0)];
    let out = sweep(&intervals);
    let starts: Vec<i64> = out.records.iter().map(|r| r.start_time).collect();
    assert_eq!(starts, vec![1, 3, 2, 0]);
    assert_eq!(
        out.records,
        vec![record(1, 0, 12, 3), record(3, 0, 9, 3), record(2, 0, 57, 3), record(0, 0, 58, 3)]
    );
}

#[test]
fn negative_duration_is_rejected() {
    let r = compute_overlap(&vec![interval(0, 1, 0), interval(1, -1, 0)]);
    assert_eq!(r.unwrap_err(), SweepError::NegativeDuration { index: 1 });
}

#[test]
fn end_time_that_does_not_fit_is_rejected() {
    let r = compute_overlap(&vec![interval(i64::MAX, 1, 0)]);
    assert_eq!(r.unwrap_err(), SweepError::EndTimeOverflow { index: 0 });
    assert!(compute_overlap(&vec![interval(i64::MAX, 0, 0)]).is_ok());
}

#[test]
fn unsorted_input_is_rejected() {
    let r = compute_overlap(&vec![interval(5, 1, 0), interval(4, 1, 0)]);
    assert_eq!(r.unwrap_err(), SweepError::OutOfOrder { index: 1 });
    let r = compute_overlap(&vec![interval(5, 1, 1), interval(5, 1, 0)]);
    assert_eq!(r.unwrap_err(), SweepError::OutOfOrder { index: 1 });
    let r = compute_overlap(&vec![interval(5, 1, 0), interval(5, 1, 0)]);
    assert_eq!(r.unwrap_err(), SweepError::OutOfOrder { index: 1 });
}

#[test]
fn the_first_defect_is_reported() {
    let r = compute_overlap(&vec![interval(5, 1, 0), interval(4, -1, 0), interval(3, -1, 0)]);
    assert_eq!(r.unwrap_err(), SweepError::NegativeDuration { index: 1 });
}

#[test]
fn accumulated_overlap_that_does_not_fit_is_rejected() {
    let long = i64::MAX - 10;
    let intervals = vec![interval(0, long, 0), interval(1, long, 0), interval(2, long, 0)];
    let out = compute_overlap(&intervals).unwrap();
    assert_eq!(out.records[0].overlap, 2 * long as u64 - 3);
    let more = vec![
        interval(0, long, 0),
        interval(1, long, 0),
        interval(2, long, 0),
        interval(3, long, 0),
    ];
    assert_eq!(compute_overlap(&more).unwrap_err(), SweepError::OverlapOverflow { index: 3 });
}

#[test]
fn sweep_can_be_driven_step_by_step() {
    let intervals = vec![interval(0, 10, 0), interval(5, 10, 0), interval(12, 3, 0)];
    let mut state = Sweep::new(&intervals).unwrap();
    let mut steps = 0;
    while !state.is_done() {
        state = state.advance().unwrap();
        steps += 1;
    }
    assert_eq!(steps, 3);
    let out = state.finish();
    let whole = compute_overlap(&intervals).unwrap();
    assert_eq!(out.records, whole.records);
    assert_eq!(out.timeline, whole.timeline);
}

#[test]
fn step_reports_the_defect_of_its_interval() {
    let intervals = vec![interval(0, 10, 0), interval(0, 10, 0)];
    let state = Sweep::new(&intervals).unwrap();
    let state = state.advance().unwrap();
    assert_eq!(state.advance().err(), Some(SweepError::OutOfOrder { index: 1 }));
}
