//! What the sweep computes: the state after every interval, as a function
//! of the input.

use vstd::prelude::*;

verus! {

/// One timed execution, as the input stream delivers it. Times are in
/// nanoseconds; `ordinal` tells intervals with the same `start_time` apart.
#[derive(Clone, Copy, Debug, PartialEq, Eq)]
pub struct Interval {
    pub start_time: i64,
    pub duration: i64,
    pub ordinal: u32,
}

/// The finished overlap measures of one interval.
#[derive(Clone, Copy, Debug, PartialEq, Eq)]
pub struct OverlapRecord {
    pub start_time: i64,
    pub ordinal: u32,
    pub overlap: u64,
    pub overlap_count: u32,
}

/// The number of active intervals right after one insertion or one expiry.
#[derive(Clone, Copy, Debug, PartialEq, Eq)]
pub struct CountSample {
    pub timestamp: i64,
    pub count: u32,
}

/// The running measures of the interval at position `index` of the input.
pub ghost struct Tally {
    pub index: int,
    pub overlap: int,
    pub count: int,
}

/// One sample of the active-count timeline, over unbounded integers.
pub ghost struct Tick {
    pub time: int,
    pub count: int,
}

/// The state of the sweep: the active set in expiry order, the finalized
/// intervals in the order in which they were emitted, and the timeline.
pub ghost struct SweepModel {
    pub active: Seq<Tally>,
    pub finalized: Seq<Tally>,
    pub timeline: Seq<Tick>,
}

pub open spec fn start_of(ivs: Seq<Interval>, i: int) -> int {
    ivs[i].start_time as int
}

pub open spec fn end_of(ivs: Seq<Interval>, i: int) -> int {
    ivs[i].start_time + ivs[i].duration
}

/// `a` comes strictly before `b` in the input order `(start_time, ordinal)`.
pub open spec fn precedes(a: Interval, b: Interval) -> bool {
    a.start_time < b.start_time || (a.start_time == b.start_time && a.ordinal < b.ordinal)
}

/// The first `k` intervals have a non-negative duration and an end time that
/// fits, and are strictly ascending in `(start_time, ordinal)`.
pub open spec fn well_formed_upto(ivs: Seq<Interval>, k: int) -> bool {
    &&& 0 <= k <= ivs.len()
    &&& forall|i: int|
        0 <= i < k ==> 0 <= (#[trigger] ivs[i]).duration && ivs[i].start_time + ivs[i].duration
            <= i64::MAX
    &&& forall|i: int, j: int| 0 <= i < j < k ==> precedes(#[trigger] ivs[i], #[trigger] ivs[j])
}

pub open spec fn well_formed(ivs: Seq<Interval>) -> bool {
    well_formed_upto(ivs, ivs.len() as int)
}

pub open spec fn min_int(a: int, b: int) -> int {
    if a <= b {
        a
    } else {
        b
    }
}

pub open spec fn max_int(a: int, b: int) -> int {
    if a >= b {
        a
    } else {
        b
    }
}

/// The time during which intervals `i` and `j` both run.
pub open spec fn pair_overlap(ivs: Seq<Interval>, i: int, j: int) -> int {
    min_int(end_of(ivs, i), end_of(ivs, j)) - max_int(start_of(ivs, i), start_of(ivs, j))
}

/// The position of the first member of `active`, at or after `from`, that
/// ends after `t`; `active.len()` if there is none.
pub open spec fn ended_until(ivs: Seq<Interval>, active: Seq<Tally>, t: int, from: int) -> int
    decreases active.len() - from,
{
    if 0 <= from < active.len() && end_of(ivs, active[from].index) <= t {
        ended_until(ivs, active, t, from + 1)
    } else {
        from
    }
}

/// The number of leading members of `active` that end at or before `t`.
pub open spec fn ended_count(ivs: Seq<Interval>, active: Seq<Tally>, t: int) -> int {
    ended_until(ivs, active, t, 0)
}

/// A member of the active set after interval `k` was attributed to it.
pub open spec fn touch(ivs: Seq<Interval>, a: Tally, k: int) -> Tally {
    Tally { index: a.index, overlap: a.overlap + pair_overlap(ivs, a.index, k), count: a.count + 1 }
}

pub open spec fn touch_all(ivs: Seq<Interval>, kept: Seq<Tally>, k: int) -> Seq<Tally> {
    Seq::new(kept.len(), |p: int| touch(ivs, kept[p], k))
}

/// The overlap of interval `k` with every member of `kept`, summed.
pub open spec fn sum_overlap(ivs: Seq<Interval>, kept: Seq<Tally>, k: int) -> int
    decreases kept.len(),
{
    if kept.len() == 0 {
        0
    } else {
        sum_overlap(ivs, kept.drop_last(), k) + pair_overlap(ivs, kept.last().index, k)
    }
}

/// The samples that the expiry of `expired` adds, where `before` intervals
/// were active: each holds the count after that one removal.
pub open spec fn expiry_ticks(ivs: Seq<Interval>, expired: Seq<Tally>, before: int) -> Seq<Tick> {
    Seq::new(
        expired.len(),
        |p: int| Tick { time: end_of(ivs, expired[p].index), count: before - p - 1 },
    )
}

/// The sweep's state after interval `k` was processed in state `s`: expire,
/// attribute, insert.
pub open spec fn step(ivs: Seq<Interval>, s: SweepModel, k: int) -> SweepModel {
    let t = start_of(ivs, k);
    let m = ended_count(ivs, s.active, t);
    let expired = s.active.subrange(0, m);
    let kept = s.active.subrange(m, s.active.len() as int);
    let touched = touch_all(ivs, kept, k);
    let me = Tally { index: k, overlap: sum_overlap(ivs, kept, k), count: kept.len() as int };
    let pos = ended_count(ivs, touched, end_of(ivs, k));
    SweepModel {
        active: touched.insert(pos, me),
        finalized: s.finalized + expired,
        timeline: (s.timeline + expiry_ticks(ivs, expired, s.active.len() as int)).push(
            Tick { time: t, count: kept.len() as int + 1 },
        ),
    }
}

/// The sweep's state after the first `k` intervals.
pub open spec fn run(ivs: Seq<Interval>, k: int) -> SweepModel
    decreases k,
{
    if k <= 0 {
        SweepModel { active: Seq::empty(), finalized: Seq::empty(), timeline: Seq::empty() }
    } else {
        step(ivs, run(ivs, k - 1), k - 1)
    }
}

/// The state after every remaining member of the active set has expired.
pub open spec fn flush(ivs: Seq<Interval>, s: SweepModel) -> SweepModel {
    SweepModel {
        active: Seq::empty(),
        finalized: s.finalized + s.active,
        timeline: s.timeline + expiry_ticks(ivs, s.active, s.active.len() as int),
    }
}

/// The whole sweep over `ivs`.
pub open spec fn sweep(ivs: Seq<Interval>) -> SweepModel {
    flush(ivs, run(ivs, ivs.len() as int))
}

/// `ended_until` stops at a position in range; everything it passed ends at
/// or before `t`, and the member it stopped at ends after `t`.
pub proof fn lemma_ended_until(ivs: Seq<Interval>, active: Seq<Tally>, t: int, from: int)
    requires
        0 <= from <= active.len(),
    ensures
        from <= ended_until(ivs, active, t, from) <= active.len(),
        forall|p: int|
            from <= p < ended_until(ivs, active, t, from) ==> end_of(
                ivs,
                (#[trigger] active[p]).index,
            ) <= t,
        ended_until(ivs, active, t, from) < active.len() ==> end_of(
            ivs,
            active[ended_until(ivs, active, t, from)].index,
        ) > t,
    decreases active.len() - from,
{
    if from < active.len() && end_of(ivs, active[from].index) <= t {
        lemma_ended_until(ivs, active, t, from + 1);
    }
}

/// A position `m` that splits `active` into members ending at or before `t`
/// and a member ending after `t` is the one `ended_until` finds.
pub proof fn lemma_ended_until_is(
    ivs: Seq<Interval>,
    active: Seq<Tally>,
    t: int,
    from: int,
    m: int,
)
    requires
        0 <= from <= m <= active.len(),
        forall|p: int| from <= p < m ==> end_of(ivs, (#[trigger] active[p]).index) <= t,
        m < active.len() ==> end_of(ivs, active[m].index) > t,
    ensures
        ended_until(ivs, active, t, from) == m,
    decreases m - from,
{
    if from < m {
        assert(end_of(ivs, active[from].index) <= t);
        lemma_ended_until_is(ivs, active, t, from + 1, m);
    }
}

} // verus!
