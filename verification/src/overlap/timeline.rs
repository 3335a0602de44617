//! What holds of the timeline of every sweep: it tells how many intervals
//! run at any time.

use crate::overlap::coherence::{
    all_end_after, all_end_by, expires_before, in_expiry_order, lemma_insert_index,
    lemma_run_coherent, tallies_within,
};
use crate::overlap::model::{
    end_of, ended_count, expiry_ticks, lemma_ended_until, lemma_ended_until_is, precedes, run,
    start_of, step, sum_overlap, sweep, touch_all, well_formed, well_formed_upto, Interval, Tally,
    Tick,
};
use crate::overlap::sums::{
    index_sum, lemma_sum_conserved, lemma_sum_constant, lemma_sum_parts, tally_sum,
};
use vstd::prelude::*;

verus! {

/// What the timeline says at time `t`: the count of its last sample at or
/// before `t`, and 0 before its first sample.
pub open spec fn value_at(tl: Seq<Tick>, t: int) -> int
    decreases tl.len(),
{
    if tl.len() == 0 {
        0
    } else if tl.last().time <= t {
        tl.last().count
    } else {
        value_at(tl.drop_last(), t)
    }
}

pub open spec fn running_flag(ivs: Seq<Interval>, t: int) -> spec_fn(int) -> int {
    |j: int|
        if start_of(ivs, j) <= t < end_of(ivs, j) {
            1int
        } else {
            0int
        }
}

/// The number of intervals among the first `k` that run at time `t`.
pub open spec fn running_upto(ivs: Seq<Interval>, k: int, t: int) -> int {
    index_sum(k, running_flag(ivs, t))
}

/// The number of intervals with `start_time <= t < end_time`.
pub open spec fn running_at(ivs: Seq<Interval>, t: int) -> int {
    running_upto(ivs, ivs.len() as int, t)
}

/// In a sequence in expiry order, the members that end after `t` are all but
/// the leading `ended_count` ones.
proof fn lemma_count_unended(ivs: Seq<Interval>, a: Seq<Tally>, t: int, f: spec_fn(int) -> int)
    requires
        in_expiry_order(ivs, a),
        forall|p: int|
            0 <= p < a.len() ==> f((#[trigger] a[p]).index) == (if end_of(ivs, a[p].index) > t {
                1int
            } else {
                0int
            }),
    ensures
        0 <= ended_count(ivs, a, t) <= a.len(),
        tally_sum(a, f) == a.len() - ended_count(ivs, a, t),
{
    reveal(in_expiry_order);
    let c = ended_count(ivs, a, t);
    lemma_ended_until(ivs, a, t, 0);
    let head = a.subrange(0, c);
    let tail = a.subrange(c, a.len() as int);
    assert forall|p: int| 0 <= p < head.len() implies f((#[trigger] head[p]).index) == 0 by {
        assert(head[p] == a[p]);
    }
    assert forall|p: int| 0 <= p < tail.len() implies f((#[trigger] tail[p]).index) == 1 by {
        assert(tail[p] == a[c + p]);
        if p > 0 {
            assert(expires_before(ivs, a[c].index, a[c + p].index));
        }
    }
    lemma_sum_parts(a, c, f);
    lemma_sum_constant(head, f, 0);
    lemma_sum_constant(tail, f, 1);
}

/// What the timeline says at `t` after the first `m` members of `a` have
/// expired: the count after the last of them that ended by `t`, if there is
/// one.
proof fn lemma_value_after_expiry(
    ivs: Seq<Interval>,
    tl: Seq<Tick>,
    a: Seq<Tally>,
    m: int,
    t: int,
)
    requires
        in_expiry_order(ivs, a),
        0 <= m <= a.len(),
        ended_count(ivs, a, t) <= m,
    ensures
        value_at(tl + expiry_ticks(ivs, a.subrange(0, m), a.len() as int), t) == (if ended_count(
            ivs,
            a,
            t,
        ) > 0 {
            a.len() - ended_count(ivs, a, t)
        } else {
            value_at(tl, t)
        }),
    decreases m,
{
    reveal(in_expiry_order);
    let n = a.len() as int;
    let c = ended_count(ivs, a, t);
    lemma_ended_until(ivs, a, t, 0);
    let ticks = tl + expiry_ticks(ivs, a.subrange(0, m), n);
    if m == 0 {
        assert(ticks =~= tl);
    } else {
        let x = a[m - 1];
        let last = Tick { time: end_of(ivs, x.index), count: n - m };
        let shorter = tl + expiry_ticks(ivs, a.subrange(0, m - 1), n);
        assert(ticks =~= shorter.push(last)) by {
            assert(a.subrange(0, m)[m - 1] == a[m - 1]);
            assert forall|p: int| 0 <= p < m - 1 implies a.subrange(0, m)[p] == a.subrange(
                0,
                m - 1,
            )[p] by {}
        }
        assert(ticks.last() == last);
        assert(ticks.drop_last() =~= shorter);
        if end_of(ivs, x.index) <= t {
            assert forall|p: int| 0 <= p < m implies end_of(ivs, (#[trigger] a[p]).index)
                <= t by {
                if p < m - 1 {
                    assert(expires_before(ivs, a[p].index, a[m - 1].index));
                }
            }
            if c < m {
                assert(end_of(ivs, a[c].index) <= t);
            }
            assert(c == m);
        } else {
            if c > m - 1 {
                assert(end_of(ivs, a[m - 1].index) <= t);
            }
            lemma_value_after_expiry(ivs, tl, a, m - 1, t);
        }
    }
}

/// At or after the start of the last interval processed, the intervals that
/// run are the members of the active set that have not ended.
proof fn lemma_count_running(ivs: Seq<Interval>, k: int, t: int)
    requires
        0 < k,
        well_formed_upto(ivs, k),
        t >= start_of(ivs, k - 1),
    ensures
        0 <= ended_count(ivs, run(ivs, k).active, t) <= run(ivs, k).active.len(),
        running_upto(ivs, k, t) == run(ivs, k).active.len() - ended_count(
            ivs,
            run(ivs, k).active,
            t,
        ),
{
    let s = run(ivs, k);
    let f = running_flag(ivs, t);
    lemma_run_coherent(ivs, k);
    lemma_sum_conserved(ivs, k, f);
    reveal(tallies_within);
    reveal(all_end_by);
    assert forall|j: int| 0 <= j < k implies start_of(ivs, j) <= t by {
        if j < k - 1 {
            assert(precedes(ivs[j], ivs[k - 1]));
        }
    }
    assert forall|p: int| 0 <= p < s.finalized.len() implies f(
        (#[trigger] s.finalized[p]).index,
    ) == 0 by {}
    lemma_sum_constant(s.finalized, f, 0);
    assert forall|p: int| 0 <= p < s.active.len() implies f((#[trigger] s.active[p]).index) == (
    if end_of(ivs, s.active[p].index) > t {
        1int
    } else {
        0int
    }) by {}
    lemma_count_unended(ivs, s.active, t, f);
}

/// Before the start of the last interval processed, no member of the active
/// set has ended.
proof fn lemma_none_ended(ivs: Seq<Interval>, k: int, t: int)
    requires
        0 <= k,
        well_formed_upto(ivs, k),
        k > 0 ==> t < start_of(ivs, k - 1),
    ensures
        ended_count(ivs, run(ivs, k).active, t) == 0,
{
    let s = run(ivs, k);
    lemma_run_coherent(ivs, k);
    reveal(all_end_after);
    reveal(tallies_within);
    if s.active.len() > 0 {
        let x = s.active[0];
        assert(0 <= ivs[x.index].duration);
        assert(end_of(ivs, x.index) > t);
    }
    lemma_ended_until_is(ivs, s.active, t, 0, 0);
}

/// What the timeline of the first `k` intervals says at `t`: the size of the
/// active set from the start of the last interval on, and before it the
/// number of intervals that run at `t`.
proof fn lemma_value_at_run(ivs: Seq<Interval>, k: int, t: int)
    requires
        0 <= k,
        well_formed_upto(ivs, k),
    ensures
        value_at(run(ivs, k).timeline, t) == (if k > 0 && t >= start_of(ivs, k - 1) {
            run(ivs, k).active.len() as int
        } else {
            running_upto(ivs, k, t)
        }),
    decreases k,
{
    if k > 0 {
        let j = k - 1;
        let s = run(ivs, j);
        let s2 = run(ivs, k);
        assert(s2 == step(ivs, s, j));
        let tj = start_of(ivs, j);
        let a = s.active;
        let n = a.len() as int;
        let m = ended_count(ivs, a, tj);
        lemma_ended_until(ivs, a, tj, 0);
        let expired = a.subrange(0, m);
        let kept = a.subrange(m, n);
        let touched = touch_all(ivs, kept, j);
        let pos = ended_count(ivs, touched, end_of(ivs, j));
        lemma_ended_until(ivs, touched, end_of(ivs, j), 0);
        let me = Tally { index: j, overlap: sum_overlap(ivs, kept, j), count: kept.len() as int };
        lemma_insert_index(touched, pos, me, 0);
        assert(s2.active.len() == kept.len() + 1);
        let grown = s.timeline + expiry_ticks(ivs, expired, n);
        let ins = Tick { time: tj, count: kept.len() as int + 1 };
        assert(s2.timeline == grown.push(ins));
        assert(s2.timeline.last() == ins);
        assert(s2.timeline.drop_last() =~= grown);
        if t >= tj {
        } else {
            assert(value_at(s2.timeline, t) == value_at(grown, t));
            lemma_value_at_run(ivs, j, t);
            lemma_run_coherent(ivs, j);
            let c = ended_count(ivs, a, t);
            lemma_ended_until(ivs, a, t, 0);
            if c > m {
                assert(end_of(ivs, a[m].index) <= t);
            }
            lemma_value_after_expiry(ivs, s.timeline, a, m, t);
            assert(index_sum(k, running_flag(ivs, t)) == index_sum(j, running_flag(ivs, t))
                + running_flag(ivs, t)(j));
            assert(running_upto(ivs, k, t) == running_upto(ivs, j, t));
            if j > 0 && t >= start_of(ivs, j - 1) {
                lemma_count_running(ivs, j, t);
            } else {
                lemma_none_ended(ivs, j, t);
            }
        }
    }
}

/// Active-count correctness: at every time `t`, the last sample of the
/// timeline at or before `t` holds the number of intervals with
/// `start_time <= t < end_time`; before the first sample that number is 0.
pub proof fn law_active_count(ivs: Seq<Interval>, t: int)
    requires
        well_formed(ivs),
    ensures
        value_at(sweep(ivs).timeline, t) == running_at(ivs, t),
{
    let n = ivs.len() as int;
    let s = run(ivs, n);
    let a = s.active;
    lemma_run_coherent(ivs, n);
    lemma_value_at_run(ivs, n, t);
    lemma_ended_until(ivs, a, t, 0);
    assert(a.subrange(0, a.len() as int) =~= a);
    lemma_value_after_expiry(ivs, s.timeline, a, a.len() as int, t);
    if n > 0 && t >= start_of(ivs, n - 1) {
        lemma_count_running(ivs, n, t);
    } else {
        lemma_none_ended(ivs, n, t);
    }
}

/// The samples of `tl` come in non-decreasing order of time, none after
/// `bound`.
#[verifier::opaque]
pub open spec fn ticks_ascend(tl: Seq<Tick>, bound: int) -> bool {
    &&& forall|p: int, q: int|
        0 <= p < q < tl.len() ==> (#[trigger] tl[p]).time <= (#[trigger] tl[q]).time
    &&& forall|p: int| 0 <= p < tl.len() ==> (#[trigger] tl[p]).time <= bound
}

/// Samples of expiries, each at or after `low`, behind samples that are at
/// or before `low`, keep the order of time.
proof fn lemma_expiry_ascends(
    ivs: Seq<Interval>,
    tl: Seq<Tick>,
    a: Seq<Tally>,
    m: int,
    low: int,
    high: int,
)
    requires
        ticks_ascend(tl, low),
        in_expiry_order(ivs, a),
        0 <= m <= a.len(),
        low <= high,
        forall|p: int| 0 <= p < m ==> low <= end_of(ivs, (#[trigger] a[p]).index) <= high,
    ensures
        ticks_ascend(tl + expiry_ticks(ivs, a.subrange(0, m), a.len() as int), high),
{
    reveal(ticks_ascend);
    reveal(in_expiry_order);
    let e = expiry_ticks(ivs, a.subrange(0, m), a.len() as int);
    let ticks = tl + e;
    assert forall|p: int| 0 <= p < ticks.len() implies (#[trigger] ticks[p]).time <= high && (p
        >= tl.len() ==> ticks[p].time == end_of(ivs, a[p - tl.len()].index) && low
        <= ticks[p].time) && (p < tl.len() ==> ticks[p] == tl[p] && ticks[p].time <= low) by {
        if p >= tl.len() {
            let i = p - tl.len();
            assert(ticks[p] == e[i]);
            assert(a.subrange(0, m)[i] == a[i]);
        }
    }
    assert forall|p: int, q: int| 0 <= p < q < ticks.len() implies (#[trigger] ticks[p]).time <= (
    #[trigger] ticks[q]).time by {
        if p >= tl.len() {
            assert(expires_before(ivs, a[p - tl.len()].index, a[q - tl.len()].index));
        }
    }
}

proof fn lemma_run_ascends(ivs: Seq<Interval>, k: int)
    requires
        0 <= k,
        well_formed_upto(ivs, k),
    ensures
        ticks_ascend(run(ivs, k).timeline, if k > 0 { start_of(ivs, k - 1) } else { 0 }),
    decreases k,
{
    if k > 0 {
        let j = k - 1;
        let s = run(ivs, j);
        let s2 = run(ivs, k);
        assert(s2 == step(ivs, s, j));
        let tj = start_of(ivs, j);
        let a = s.active;
        let m = ended_count(ivs, a, tj);
        lemma_ended_until(ivs, a, tj, 0);
        lemma_run_ascends(ivs, j);
        lemma_run_coherent(ivs, j);
        let low = if j > 0 { start_of(ivs, j - 1) } else { tj };
        if j > 0 {
            assert(precedes(ivs[j - 1], ivs[j]));
        } else {
            reveal(ticks_ascend);
            assert(s.timeline.len() == 0);
        }
        assert(ticks_ascend(s.timeline, low));
        assert forall|p: int| 0 <= p < m implies low <= end_of(ivs, (#[trigger] a[p]).index)
            <= tj by {
            reveal(all_end_after);
            reveal(tallies_within);
            assert(0 <= ivs[a[p].index].duration);
        }
        lemma_expiry_ascends(ivs, s.timeline, a, m, low, tj);
        let grown = s.timeline + expiry_ticks(ivs, a.subrange(0, m), a.len() as int);
        let ins = Tick { time: tj, count: a.subrange(m, a.len() as int).len() as int + 1 };
        assert(s2.timeline == grown.push(ins));
        reveal(ticks_ascend);
        assert forall|p: int, q: int| 0 <= p < q < s2.timeline.len() implies (
        #[trigger] s2.timeline[p]).time <= (#[trigger] s2.timeline[q]).time by {
            assert(s2.timeline[p] == grown[p]);
            if q < grown.len() {
                assert(s2.timeline[q] == grown[q]);
            }
        }
    } else {
        reveal(ticks_ascend);
    }
}

/// The timeline holds one sample for every insertion and one for every
/// expiry, in non-decreasing order of time.
pub proof fn law_timeline_order(ivs: Seq<Interval>)
    requires
        well_formed(ivs),
    ensures
        sweep(ivs).timeline.len() == 2 * ivs.len(),
        forall|p: int, q: int|
            0 <= p < q < sweep(ivs).timeline.len() ==> (#[trigger] sweep(ivs).timeline[p]).time
                <= (#[trigger] sweep(ivs).timeline[q]).time,
{
    let n = ivs.len() as int;
    let s = run(ivs, n);
    let a = s.active;
    lemma_run_coherent(ivs, n);
    lemma_run_ascends(ivs, n);
    assert(a.subrange(0, a.len() as int) =~= a);
    if n > 0 {
        let low = start_of(ivs, n - 1);
        assert forall|p: int| 0 <= p < a.len() implies low <= end_of(ivs, (#[trigger] a[p]).index)
            <= i64::MAX by {
            reveal(all_end_after);
            reveal(tallies_within);
            assert(0 <= ivs[a[p].index].duration);
        }
        lemma_expiry_ascends(ivs, s.timeline, a, a.len() as int, low, i64::MAX as int);
        reveal(ticks_ascend);
    } else {
        assert(sweep(ivs).timeline.len() == 0);
    }
}

} // verus!
