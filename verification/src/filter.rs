//! Selection of the samples that were taken during work hours.

use crate::config::Filter;
use chrono::{Datelike, TimeZone, Timelike};
use vstd::prelude::*;

verus! {

/// Work hours are from 08 to 17 on Monday to Friday. `weekday` counts from
/// Monday, which is 0.
pub open spec fn work_hours(hour: int, weekday: int) -> bool {
    8 <= hour < 17 && 0 <= weekday < 5
}

/// Whether the filter asks for work hours only.
pub open spec fn wants_work_hours(filter: Option<&Filter>) -> bool {
    filter matches Some(filter) && filter.work_hours == Some(true)
}

/// The values whose mark is set, in their order.
pub open spec fn marked<T>(values: Seq<T>, marks: Seq<bool>) -> Seq<T>
    decreases marks.len(),
{
    if marks.len() == 0 {
        Seq::empty()
    } else {
        let rest = marked(values.drop_last(), marks.drop_last());
        if marks.last() {
            rest.push(values.last())
        } else {
            rest
        }
    }
}

/// Calls `chrono::Local.timestamp_nanos` and reads the hour and the weekday
/// of the local time with `Timelike::hour` and `Datelike::weekday`. The
/// result depends on the time zone of the machine, so the contract only
/// gives the ranges that `chrono` documents: an hour from 0 to 23 and a
/// number of days from Monday from 0 to 6.
#[verifier::external_body]
fn local_hour_and_weekday(timestamp: i64) -> (r: (u32, u32))
    ensures
        r.0 < 24,
        r.1 < 7,
{
    let local_time = chrono::Local.timestamp_nanos(timestamp);
    (local_time.hour(), local_time.weekday().num_days_from_monday())
}

/// Whether an hour of a weekday lies in the work hours.
pub fn is_work_hours_at(hour: u32, weekday: u32) -> (r: bool)
    ensures
        r == work_hours(hour as int, weekday as int),
{
    8 <= hour && hour < 17 && weekday < 5
}

/// Whether `timestamp`, in nanoseconds from the Unix epoch, lies in the work
/// hours of the local time zone.
pub fn is_work_hours(timestamp: i64) -> (r: bool)
    ensures
        exists|hour: int, weekday: int|
            0 <= hour < 24 && 0 <= weekday < 7 && r == #[trigger] work_hours(hour, weekday),
{
    let (hour, weekday) = local_hour_and_weekday(timestamp);
    let r = is_work_hours_at(hour, weekday);
    proof {
        assert(r == work_hours(hour as int, weekday as int));
    }
    r
}

/// One mark for every timestamp: whether it lies in the work hours.
pub fn work_hours_marks(timestamps: &Vec<i64>) -> (marks: Vec<bool>)
    ensures
        marks@.len() == timestamps@.len(),
{
    let mut marks: Vec<bool> = Vec::new();
    let mut i: usize = 0;
    while i < timestamps.len()
        invariant
            i <= timestamps@.len(),
            marks@.len() == i,
        decreases timestamps@.len() - i,
    {
        marks.push(is_work_hours(timestamps[i]));
        i += 1;
    }
    marks
}

/// The values whose mark is set.
pub fn select_marked<T: Copy>(values: &Vec<T>, marks: &Vec<bool>) -> (r: Vec<T>)
    requires
        marks@.len() <= values@.len(),
    ensures
        r@ == marked(values@.take(marks@.len() as int), marks@),
{
    let mut selected: Vec<T> = Vec::new();
    let mut i: usize = 0;
    while i < marks.len()
        invariant
            i <= marks@.len() <= values@.len(),
            selected@ == marked(values@.take(i as int), marks@.take(i as int)),
        decreases marks@.len() - i,
    {
        proof {
            assert(values@.take(i + 1).drop_last() =~= values@.take(i as int));
            assert(marks@.take(i + 1).drop_last() =~= marks@.take(i as int));
        }
        if marks[i] {
            selected.push(values[i]);
        }
        i += 1;
    }
    proof {
        assert(marks@.take(marks@.len() as int) =~= marks@);
    }
    selected
}

/// Keeps the samples that were taken during work hours, if the filter asks
/// for it; else all samples.
pub fn apply_workday_filter<T: Copy>(
    timestamps: Vec<i64>,
    data: Vec<T>,
    filter: Option<&Filter>,
) -> (r: (Vec<i64>, Vec<T>))
    requires
        wants_work_hours(filter) ==> timestamps@.len() <= data@.len(),
    ensures
        !wants_work_hours(filter) ==> r.0@ == timestamps@ && r.1@ == data@,
        wants_work_hours(filter) ==> exists|marks: Seq<bool>|
            {
                &&& marks.len() == timestamps@.len()
                &&& r.0@ == #[trigger] marked(timestamps@, marks)
                &&& r.1@ == marked(data@.take(timestamps@.len() as int), marks)
            },
{
    let filter_work_hours = match filter {
        Some(filter) => match filter.work_hours {
            Some(wanted) => wanted,
            None => false,
        },
        None => false,
    };
    if !filter_work_hours {
        return (timestamps, data);
    }
    let marks = work_hours_marks(&timestamps);
    let result_timestamps = select_marked(&timestamps, &marks);
    let result_data = select_marked(&data, &marks);
    proof {
        assert(timestamps@.take(marks@.len() as int) =~= timestamps@);
        assert(result_timestamps@ == marked(timestamps@, marks@));
    }
    (result_timestamps, result_data)
}

} // verus!
