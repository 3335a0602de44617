//! The conditions of a query that selects the samples of a time range.

use crate::config::Filter;
use crate::datetime::{
    ceil_defaults, floor_defaults, parse_datetime_ceil, parse_datetime_floor, parsed_datetime,
    DateError,
};
use crate::text::{append_decimal, decimal_text};
use vstd::prelude::*;

verus! {

/// The instant that bounds a time range, or `None` where `text` is no date
/// and time or its instant does not fit in 64 bits.
pub open spec fn bound_of(text: Seq<char>, defaults: Seq<u32>) -> Option<i64> {
    match parsed_datetime(text, defaults) {
        Ok(datetime) => datetime.nanoseconds(),
        Err(_) => None,
    }
}

/// The text before the column name: the table and a dot, or nothing.
pub open spec fn qualifier(timestamp_table: Option<&str>) -> Seq<char> {
    match timestamp_table {
        Some(table) => table@ + "."@,
        None => Seq::empty(),
    }
}

/// The condition that the timestamp is at or after `start`.
pub open spec fn lower_bound(timestamp_table: Option<&str>, start: i64) -> Seq<char> {
    qualifier(timestamp_table) + "timestamp >= "@ + decimal_text(start as int)
}

/// The condition that the timestamp is at or before `end`.
pub open spec fn upper_bound(timestamp_table: Option<&str>, end: i64) -> Seq<char> {
    qualifier(timestamp_table) + "timestamp <= "@ + decimal_text(end as int)
}

/// The condition that the filter itself states, if any.
pub open spec fn filter_condition(filter: Option<&Filter>) -> Option<Seq<char>> {
    match filter {
        Some(filter) => match filter.sql_where {
            Some(condition) => Some(condition@),
            None => None,
        },
        None => None,
    }
}

pub open spec fn optional<A>(value: Option<A>) -> Seq<A> {
    match value {
        Some(value) => seq![value],
        None => Seq::empty(),
    }
}

/// The conditions for a filter and a time range, in this order: that of the
/// filter, the lower bound, the upper bound, each where it is given.
pub open spec fn conditions(
    start: Option<i64>,
    end: Option<i64>,
    filter: Option<&Filter>,
    timestamp_table: Option<&str>,
) -> Seq<Seq<char>> {
    optional(filter_condition(filter)) + optional(
        match start {
            Some(start) => Some(lower_bound(timestamp_table, start)),
            None => None,
        },
    ) + optional(
        match end {
            Some(end) => Some(upper_bound(timestamp_table, end)),
            None => None,
        },
    )
}

/// The texts that the strings hold.
pub open spec fn texts(criteria: Seq<String>) -> Seq<Seq<char>> {
    Seq::new(criteria.len(), |i: int| criteria[i]@)
}

/// Why no conditions can be made of a time range.
#[derive(Clone, Copy, Debug, PartialEq, Eq)]
pub enum CriteriaError {
    /// The start is no date and time.
    Start(DateError),
    /// The end is no date and time.
    End(DateError),
    /// The start does not fit in 64 bits of nanoseconds.
    StartOutOfRange,
    /// The end does not fit in 64 bits of nanoseconds.
    EndOutOfRange,
}

fn bound_condition(timestamp_table: Option<&str>, relation: &str, bound: i64) -> (r: String)
    ensures
        r@ == qualifier(timestamp_table) + relation@ + decimal_text(bound as int),
{
    let mut condition = String::new();
    match timestamp_table {
        Some(table) => {
            condition.append(table);
            condition.append(".");
        },
        None => {},
    }
    proof {
        assert(condition@ =~= qualifier(timestamp_table));
    }
    condition.append(relation);
    append_decimal(&mut condition, bound);
    condition
}

/// The conditions for a filter and a time range whose bounds are given as
/// instants.
pub fn criteria_of_bounds(
    start: Option<i64>,
    end: Option<i64>,
    filter: Option<&Filter>,
    timestamp_table: Option<&str>,
) -> (criteria: Vec<String>)
    ensures
        texts(criteria@) == conditions(start, end, filter, timestamp_table),
{
    let mut criteria: Vec<String> = Vec::new();
    if let Some(filter) = filter {
        if let Some(sql_where) = &filter.sql_where {
            criteria.push(sql_where.clone());
        }
    }
    proof {
        assert(texts(criteria@) =~= optional(filter_condition(filter)));
    }
    let ghost first = texts(criteria@);
    if let Some(start) = start {
        criteria.push(bound_condition(timestamp_table, "timestamp >= ", start));
    }
    let ghost second = texts(criteria@);
    proof {
        assert(second =~= first + optional(
            match start {
                Some(start) => Some(lower_bound(timestamp_table, start)),
                None => None,
            },
        ));
    }
    if let Some(end) = end {
        criteria.push(bound_condition(timestamp_table, "timestamp <= ", end));
    }
    proof {
        assert(texts(criteria@) =~= second + optional(
            match end {
                Some(end) => Some(upper_bound(timestamp_table, end)),
                None => None,
            },
        ));
    }
    criteria
}

/// The conditions for a filter and a time range: `start` is read as the
/// earliest and `end` as the latest instant that it can mean.
pub fn get_common_criteria(
    start: Option<&str>,
    end: Option<&str>,
    filter: Option<&Filter>,
    timestamp_table: Option<&str>,
) -> (criteria: Vec<String>)
    requires
        start matches Some(text) ==> bound_of(text@, floor_defaults()) is Some,
        end matches Some(text) ==> bound_of(text@, ceil_defaults()) is Some,
    ensures
        texts(criteria@) == conditions(
            match start {
                Some(text) => bound_of(text@, floor_defaults()),
                None => None,
            },
            match end {
                Some(text) => bound_of(text@, ceil_defaults()),
                None => None,
            },
            filter,
            timestamp_table,
        ),
{
    let start_bound = match start {
        Some(text) => match parse_datetime_floor(text) {
            Ok(datetime) => datetime.timestamp_nanos(),
            Err(_) => None,
        },
        None => None,
    };
    let end_bound = match end {
        Some(text) => match parse_datetime_ceil(text) {
            Ok(datetime) => datetime.timestamp_nanos(),
            Err(_) => None,
        },
        None => None,
    };
    criteria_of_bounds(start_bound, end_bound, filter, timestamp_table)
}

/// What `checked_common_criteria` returns for the given texts.
pub open spec fn checked_bounds(start: Option<&str>, end: Option<&str>) -> Result<
    (Option<i64>, Option<i64>),
    CriteriaError,
> {
    let lower = match start {
        Some(text) => match parsed_datetime(text@, floor_defaults()) {
            Ok(datetime) => match datetime.nanoseconds() {
                Some(bound) => Ok(Some(bound)),
                None => Err(CriteriaError::StartOutOfRange),
            },
            Err(e) => Err(CriteriaError::Start(e)),
        },
        None => Ok(None),
    };
    let upper = match end {
        Some(text) => match parsed_datetime(text@, ceil_defaults()) {
            Ok(datetime) => match datetime.nanoseconds() {
                Some(bound) => Ok(Some(bound)),
                None => Err(CriteriaError::EndOutOfRange),
            },
            Err(e) => Err(CriteriaError::End(e)),
        },
        None => Ok(None),
    };
    match lower {
        Err(e) => Err(e),
        Ok(lower) => match upper {
            Err(e) => Err(e),
            Ok(upper) => Ok((lower, upper)),
        },
    }
}

/// The conditions of `get_common_criteria`, or the reason why `start` or
/// `end` bounds no time range.
pub fn checked_common_criteria(
    start: Option<&str>,
    end: Option<&str>,
    filter: Option<&Filter>,
    timestamp_table: Option<&str>,
) -> (r: Result<Vec<String>, CriteriaError>)
    ensures
        match r {
            Ok(criteria) => checked_bounds(start, end) matches Ok((lower, upper)) && texts(
                criteria@,
            ) == conditions(lower, upper, filter, timestamp_table),
            Err(e) => checked_bounds(start, end) == Err::<(Option<i64>, Option<i64>), _>(e),
        },
{
    if let Some(text) = start {
        match parse_datetime_floor(text) {
            Ok(datetime) => {
                if datetime.timestamp_nanos().is_none() {
                    return Err(CriteriaError::StartOutOfRange);
                }
            },
            Err(e) => {
                return Err(CriteriaError::Start(e));
            },
        }
    }
    if let Some(text) = end {
        match parse_datetime_ceil(text) {
            Ok(datetime) => {
                if datetime.timestamp_nanos().is_none() {
                    return Err(CriteriaError::EndOutOfRange);
                }
            },
            Err(e) => {
                return Err(CriteriaError::End(e));
            },
        }
    }
    Ok(get_common_criteria(start, end, filter, timestamp_table))
}

} // verus!
