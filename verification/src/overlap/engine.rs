//! The executable sweep, which keeps to the model step by step.

use crate::overlap::coherence::{
    all_end_after, lemma_insert_index, lemma_pair_overlap_bounds, lemma_run_coherent, lemma_split,
    lemma_within_part, tallies_within,
};
use crate::overlap::model::{
    end_of, ended_count, ended_until, expiry_ticks, lemma_ended_until, pair_overlap, precedes, run,
    start_of, sum_overlap, sweep, touch, touch_all, well_formed_upto, CountSample, Interval,
    OverlapRecord, SweepModel, Tally, Tick,
};
use vstd::prelude::*;

verus! {

/// A member of the active set: an interval that has started and has not yet
/// been finalized, with the overlap attributed to it so far.
#[derive(Clone, Copy, Debug, PartialEq, Eq)]
pub struct ActiveInterval {
    pub start_time: i64,
    pub ordinal: u32,
    pub end_time: i64,
    pub overlap: u64,
    pub overlap_count: u32,
}

/// Why an input cannot be swept. `index` is the position of the first
/// interval at which the input fails.
#[derive(Clone, Copy, Debug, PartialEq, Eq)]
pub enum SweepError {
    /// More intervals than a 32-bit count can hold.
    TooManyIntervals,
    /// The interval's duration is negative.
    NegativeDuration { index: usize },
    /// The interval's end time does not fit in 64 bits.
    EndTimeOverflow { index: usize },
    /// The interval does not come strictly after the one before it in
    /// `(start_time, ordinal)`.
    OutOfOrder { index: usize },
    /// An accumulated overlap does not fit in 64 bits.
    OverlapOverflow { index: usize },
}

/// Both output streams of a sweep.
#[derive(Debug)]
pub struct SweepOutput {
    /// One record per interval, in the order of finalization.
    pub records: Vec<OverlapRecord>,
    /// One sample per insertion and one per expiry.
    pub timeline: Vec<CountSample>,
}

/// The state that the sweep carries from one interval to the next.
pub struct Sweep<'a> {
    input: &'a Vec<Interval>,
    next: usize,
    active: Vec<ActiveInterval>,
    records: Vec<OverlapRecord>,
    timeline: Vec<CountSample>,
}

/// `a` is the member of the active set that the tally `t` stands for.
pub open spec fn member_matches(ivs: Seq<Interval>, a: ActiveInterval, t: Tally) -> bool {
    &&& 0 <= t.index < ivs.len()
    &&& a.start_time == ivs[t.index].start_time
    &&& a.ordinal == ivs[t.index].ordinal
    &&& a.end_time == end_of(ivs, t.index)
    &&& a.overlap == t.overlap
    &&& a.overlap_count == t.count
}

pub open spec fn active_matches(ivs: Seq<Interval>, a: Seq<ActiveInterval>, m: Seq<Tally>) -> bool {
    &&& a.len() == m.len()
    &&& forall|p: int| 0 <= p < a.len() ==> member_matches(ivs, #[trigger] a[p], m[p])
}

/// `r` is the record of the finalized tally `t`.
pub open spec fn record_matches(ivs: Seq<Interval>, r: OverlapRecord, t: Tally) -> bool {
    &&& 0 <= t.index < ivs.len()
    &&& r.start_time == ivs[t.index].start_time
    &&& r.ordinal == ivs[t.index].ordinal
    &&& r.overlap == t.overlap
    &&& r.overlap_count == t.count
}

pub open spec fn records_match(ivs: Seq<Interval>, r: Seq<OverlapRecord>, m: Seq<Tally>) -> bool {
    &&& r.len() == m.len()
    &&& forall|p: int| 0 <= p < r.len() ==> record_matches(ivs, #[trigger] r[p], m[p])
}

pub open spec fn timeline_matches(tl: Seq<CountSample>, m: Seq<Tick>) -> bool {
    &&& tl.len() == m.len()
    &&& forall|p: int|
        0 <= p < tl.len() ==> (#[trigger] tl[p]).timestamp == m[p].time && tl[p].count
            == m[p].count
}

/// Every accumulated overlap of the active set fits in 64 bits.
pub open spec fn fits(s: SweepModel) -> bool {
    forall|p: int| 0 <= p < s.active.len() ==> (#[trigger] s.active[p]).overlap <= u64::MAX
}

/// What is wrong with interval `k`, given the intervals before it; `None` if
/// the sweep can process it.
pub open spec fn defect(ivs: Seq<Interval>, k: int) -> Option<SweepError> {
    if ivs[k].duration < 0 {
        Some(SweepError::NegativeDuration { index: k as usize })
    } else if ivs[k].start_time + ivs[k].duration > i64::MAX {
        Some(SweepError::EndTimeOverflow { index: k as usize })
    } else if k > 0 && !precedes(ivs[k - 1], ivs[k]) {
        Some(SweepError::OutOfOrder { index: k as usize })
    } else if !fits(run(ivs, k + 1)) {
        Some(SweepError::OverlapOverflow { index: k as usize })
    } else {
        None
    }
}

/// None of the first `k` intervals has a defect.
pub open spec fn clean_upto(ivs: Seq<Interval>, k: int) -> bool {
    forall|j: int| 0 <= j < k ==> (#[trigger] defect(ivs, j)) is None
}

/// The inputs that the sweep accepts.
pub open spec fn admissible(ivs: Seq<Interval>) -> bool {
    ivs.len() <= u32::MAX && clean_upto(ivs, ivs.len() as int)
}

/// `e` is the error of the input `ivs`: that of its first defective interval.
pub open spec fn rejects(ivs: Seq<Interval>, e: SweepError) -> bool {
    match e {
        SweepError::TooManyIntervals => ivs.len() > u32::MAX,
        SweepError::NegativeDuration { index }
        | SweepError::EndTimeOverflow { index }
        | SweepError::OutOfOrder { index }
        | SweepError::OverlapOverflow { index } => {
            &&& ivs.len() <= u32::MAX
            &&& index < ivs.len()
            &&& clean_upto(ivs, index as int)
            &&& defect(ivs, index as int) == Some(e)
        },
    }
}

/// A clean prefix is well formed.
pub proof fn lemma_clean_is_well_formed(ivs: Seq<Interval>, k: int)
    requires
        0 <= k <= ivs.len(),
        clean_upto(ivs, k),
    ensures
        well_formed_upto(ivs, k),
    decreases k,
{
    if k > 0 {
        lemma_clean_is_well_formed(ivs, k - 1);
        assert(defect(ivs, k - 1) is None);
        lemma_extend_well_formed(ivs, k - 1);
    }
}

/// A well-formed prefix stays well formed with one more valid interval that
/// comes after its last.
pub proof fn lemma_extend_well_formed(ivs: Seq<Interval>, k: int)
    requires
        0 <= k < ivs.len(),
        well_formed_upto(ivs, k),
        0 <= ivs[k].duration,
        ivs[k].start_time + ivs[k].duration <= i64::MAX,
        k > 0 ==> precedes(ivs[k - 1], ivs[k]),
    ensures
        well_formed_upto(ivs, k + 1),
{
    assert forall|i: int, j: int| 0 <= i < j < k + 1 implies precedes(
        #[trigger] ivs[i],
        #[trigger] ivs[j],
    ) by {
        if j == k && i < k - 1 {
            assert(precedes(ivs[i], ivs[k - 1]));
        }
    }
}

/// The overlap of interval `k` with a leading part of `kept` is at most its
/// overlap with all of `kept`.
pub proof fn lemma_sum_overlap_grows(ivs: Seq<Interval>, kept: Seq<Tally>, k: int, p: int)
    requires
        well_formed_upto(ivs, k + 1),
        tallies_within(kept, k),
        all_end_after(ivs, kept, start_of(ivs, k), -1),
        0 <= p <= kept.len(),
    ensures
        sum_overlap(ivs, kept.subrange(0, p), k) <= sum_overlap(ivs, kept, k),
    decreases kept.len() - p,
{
    reveal(tallies_within);
    reveal(all_end_after);
    if p < kept.len() {
        let next = kept.subrange(0, p + 1);
        assert(next.drop_last() =~= kept.subrange(0, p));
        assert(next.last() == kept[p]);
        lemma_pair_overlap_bounds(ivs, kept[p].index, k);
        lemma_sum_overlap_grows(ivs, kept, k, p + 1);
    } else {
        assert(kept.subrange(0, p) =~= kept);
    }
}

impl<'a> Sweep<'a> {
    /// The intervals that this sweep runs over.
    pub closed spec fn input(&self) -> Seq<Interval> {
        self.input@
    }

    /// The number of intervals processed so far.
    pub closed spec fn position(&self) -> int {
        self.next as int
    }

    /// The state holds what the sweep makes of the intervals before
    /// `position`, none of which has a defect.
    pub closed spec fn well_formed(&self) -> bool {
        &&& 0 <= self.next <= self.input@.len()
        &&& self.input@.len() <= u32::MAX
        &&& clean_upto(self.input@, self.next as int)
        &&& active_matches(self.input@, self.active@, run(self.input@, self.next as int).active)
        &&& records_match(self.input@, self.records@, run(self.input@, self.next as int).finalized)
        &&& timeline_matches(self.timeline@, run(self.input@, self.next as int).timeline)
    }

    /// A sweep over `input`, before its first interval.
    pub fn new(input: &'a Vec<Interval>) -> (r: Result<Sweep<'a>, SweepError>)
        ensures
            r is Ok <==> input@.len() <= u32::MAX,
            r matches Ok(s) ==> s.well_formed() && s.input() == input@ && s.position() == 0,
            r matches Err(e) ==> e == SweepError::TooManyIntervals,
    {
        if input.len() > u32::MAX as usize {
            return Err(SweepError::TooManyIntervals);
        }
        Ok(Sweep { input, next: 0, active: Vec::new(), records: Vec::new(), timeline: Vec::new() })
    }

    /// Whether every interval has been processed.
    pub fn is_done(&self) -> (r: bool)
        requires
            self.well_formed(),
        ensures
            r <==> self.position() == self.input().len(),
    {
        self.next == self.input.len()
    }

    /// Processes the next interval: expires what ended by its start,
    /// attributes its overlap with what still runs, and inserts it.
    pub fn advance(self) -> (r: Result<Sweep<'a>, SweepError>)
        requires
            self.well_formed(),
            self.position() < self.input().len(),
        ensures
            r is Ok <==> defect(self.input(), self.position()) is None,
            r matches Ok(s) ==> s.well_formed() && s.input() == self.input() && s.position()
                == self.position() + 1,
            r matches Err(e) ==> defect(self.input(), self.position()) == Some(e),
    {
        let mut state = self;
        let k = state.next;
        let iv = state.input[k];
        let ghost ivs = state.input@;
        let ghost before = run(ivs, k as int);
        if iv.duration < 0 {
            return Err(SweepError::NegativeDuration { index: k });
        }
        let end_time = match iv.start_time.checked_add(iv.duration) {
            Some(e) => e,
            None => {
                return Err(SweepError::EndTimeOverflow { index: k });
            },
        };
        if k > 0 {
            let prev = state.input[k - 1];
            let ordered = prev.start_time < iv.start_time || (prev.start_time == iv.start_time
                && prev.ordinal < iv.ordinal);
            if !ordered {
                return Err(SweepError::OutOfOrder { index: k });
            }
        }
        let ghost m = ended_count(ivs, before.active, iv.start_time as int);
        let ghost kept = before.active.subrange(m, before.active.len() as int);
        proof {
            lemma_clean_is_well_formed(ivs, k as int);
            lemma_extend_well_formed(ivs, k as int);
            lemma_run_coherent(ivs, k as int);
            lemma_split(ivs, before.active, iv.start_time as int);
            lemma_within_part(before.active, k as int, m, before.active.len() as int);
        }
        state.expire(
            iv.start_time,
            Ghost(ivs),
            Ghost(before.active),
            Ghost(before.finalized),
            Ghost(before.timeline),
        );
        let ghost touched = touch_all(ivs, kept, k as int);
        let ghost pos = ended_count(ivs, touched, end_of(ivs, k as int));
        let ghost mine = Tally {
            index: k as int,
            overlap: sum_overlap(ivs, kept, k as int),
            count: kept.len() as int,
        };
        let ghost ticks = before.timeline + expiry_ticks(
            ivs,
            before.active.subrange(0, m),
            before.active.len() as int,
        );
        let total = match state.attribute(
            iv.start_time,
            end_time,
            Ghost(ivs),
            Ghost(k as int),
            Ghost(kept),
        ) {
            Some(total) => total,
            None => {
                proof {
                    lemma_ended_until(ivs, touched, end_of(ivs, k as int), 0);
                    let after = run(ivs, k + 1);
                    assert(after.active == touched.insert(pos, mine));
                    if sum_overlap(ivs, kept, k as int) > u64::MAX {
                        lemma_insert_index(touched, pos, mine, pos);
                        assert(after.active[pos].overlap > u64::MAX);
                    } else {
                        let p = choose|p: int|
                            0 <= p < kept.len() && (#[trigger] touch(ivs, kept[p], k as int)).overlap
                                > u64::MAX;
                        let q = if p < pos { p } else { p + 1 };
                        lemma_insert_index(touched, pos, mine, q);
                        assert(touched[p] == touch(ivs, kept[p], k as int));
                        assert(after.active[q].overlap > u64::MAX);
                    }
                }
                return Err(SweepError::OverlapOverflow { index: k });
            },
        };
        let me = ActiveInterval {
            start_time: iv.start_time,
            ordinal: iv.ordinal,
            end_time,
            overlap: total,
            overlap_count: state.active.len() as u32,
        };
        state.insert(me, Ghost(ivs), Ghost(k as int), Ghost(touched), Ghost(mine), Ghost(ticks));
        state.next = k + 1;
        proof {
            let after = run(ivs, k + 1);
            assert(after.active == touched.insert(pos, mine));
            assert(after.finalized == before.finalized + before.active.subrange(0, m));
            assert(after.timeline == ticks.push(
                Tick { time: start_of(ivs, k as int), count: kept.len() as int + 1 },
            ));
            assert forall|p: int| 0 <= p < after.active.len() implies (#[trigger] after.active[p]).overlap
                <= u64::MAX by {
                assert(member_matches(ivs, state.active@[p], after.active[p]));
            }
            assert(defect(ivs, k as int) is None);
        }
        Ok(state)
    }

    /// Expires every member that is still active and hands out both streams.
    #[verifier::loop_isolation(false)]
    pub fn finish(self) -> (out: SweepOutput)
        requires
            self.well_formed(),
            self.position() == self.input().len(),
        ensures
            records_match(self.input(), out.records@, sweep(self.input()).finalized),
            timeline_matches(out.timeline@, sweep(self.input()).timeline),
    {
        let ghost ivs = self.input@;
        let ghost last = run(ivs, ivs.len() as int);
        let mut records = self.records;
        let mut timeline = self.timeline;
        let n = self.active.len();
        let mut c: usize = 0;
        proof {
            lemma_clean_is_well_formed(ivs, ivs.len() as int);
            lemma_run_coherent(ivs, ivs.len() as int);
            assert(last.finalized + last.active.subrange(0, 0) =~= last.finalized);
            assert(last.timeline + expiry_ticks(ivs, last.active.subrange(0, 0), n as int)
                =~= last.timeline);
        }
        while c < n
            invariant
                c <= n,
                n == last.active.len(),
                n <= u32::MAX,
                records_match(ivs, records@, last.finalized + last.active.subrange(0, c as int)),
                timeline_matches(
                    timeline@,
                    last.timeline + expiry_ticks(ivs, last.active.subrange(0, c as int), n as int),
                ),
            decreases n - c,
        {
            let a = self.active[c];
            proof {
                let m = last.active;
                assert(member_matches(ivs, self.active@[c as int], m[c as int]));
                let before = last.finalized + m.subrange(0, c as int);
                let after = last.finalized + m.subrange(0, c + 1);
                assert(after =~= before.push(m[c as int]));
                let ticks_before = last.timeline + expiry_ticks(ivs, m.subrange(0, c as int), n as int);
                let ticks_after = last.timeline + expiry_ticks(ivs, m.subrange(0, c + 1), n as int);
                assert(ticks_after =~= ticks_before.push(
                    Tick { time: end_of(ivs, m[c as int].index), count: n - c - 1 },
                ));
            }
            records.push(
                OverlapRecord {
                    start_time: a.start_time,
                    ordinal: a.ordinal,
                    overlap: a.overlap,
                    overlap_count: a.overlap_count,
                },
            );
            timeline.push(CountSample { timestamp: a.end_time, count: (n - c - 1) as u32 });
            c += 1;
        }
        proof {
            assert(last.active.subrange(0, n as int) =~= last.active);
        }
        SweepOutput { records, timeline }
    }

    /// Removes every member that ends at or before `t`, emits its record and
    /// one timeline sample for it.
    #[verifier::loop_isolation(false)]
    fn expire(
        &mut self,
        t: i64,
        Ghost(ivs): Ghost<Seq<Interval>>,
        Ghost(m): Ghost<Seq<Tally>>,
        Ghost(fin): Ghost<Seq<Tally>>,
        Ghost(tl): Ghost<Seq<Tick>>,
    )
        requires
            active_matches(ivs, old(self).active@, m),
            records_match(ivs, old(self).records@, fin),
            timeline_matches(old(self).timeline@, tl),
            m.len() <= u32::MAX,
        ensures
            final(self).input == old(self).input,
            final(self).next == old(self).next,
            0 <= ended_count(ivs, m, t as int) <= m.len(),
            active_matches(
                ivs,
                final(self).active@,
                m.subrange(ended_count(ivs, m, t as int), m.len() as int),
            ),
            records_match(
                ivs,
                final(self).records@,
                fin + m.subrange(0, ended_count(ivs, m, t as int)),
            ),
            timeline_matches(
                final(self).timeline@,
                tl + expiry_ticks(
                    ivs,
                    m.subrange(0, ended_count(ivs, m, t as int)),
                    m.len() as int,
                ),
            ),
    {
        let n = self.active.len();
        let mut c: usize = 0;
        while c < n && self.active[c].end_time <= t
            invariant
                c <= n,
                n == m.len(),
                self.active@ == old(self).active@,
                self.input == old(self).input,
                self.next == old(self).next,
                ended_until(ivs, m, t as int, 0) == ended_until(ivs, m, t as int, c as int),
                records_match(ivs, self.records@, fin + m.subrange(0, c as int)),
                timeline_matches(
                    self.timeline@,
                    tl + expiry_ticks(ivs, m.subrange(0, c as int), m.len() as int),
                ),
            decreases n - c,
        {
            let a = self.active[c];
            proof {
                assert(member_matches(ivs, self.active@[c as int], m[c as int]));
                let before = fin + m.subrange(0, c as int);
                let after = fin + m.subrange(0, c + 1);
                assert(after =~= before.push(m[c as int]));
                let ticks_before = tl + expiry_ticks(ivs, m.subrange(0, c as int), m.len() as int);
                let ticks_after = tl + expiry_ticks(ivs, m.subrange(0, c + 1), m.len() as int);
                assert(ticks_after =~= ticks_before.push(
                    Tick { time: end_of(ivs, m[c as int].index), count: m.len() - c - 1 },
                ));
            }
            self.records.push(
                OverlapRecord {
                    start_time: a.start_time,
                    ordinal: a.ordinal,
                    overlap: a.overlap,
                    overlap_count: a.overlap_count,
                },
            );
            self.timeline.push(CountSample { timestamp: a.end_time, count: (n - c - 1) as u32 });
            c += 1;
        }
        proof {
            if c < n {
                assert(member_matches(ivs, self.active@[c as int], m[c as int]));
            }
            assert(ended_until(ivs, m, t as int, c as int) == c);
        }
        let kept = self.active.split_off(c);
        self.active = kept;
        proof {
            let rest = m.subrange(c as int, m.len() as int);
            assert forall|p: int| 0 <= p < self.active@.len() implies member_matches(
                ivs,
                #[trigger] self.active@[p],
                rest[p],
            ) by {
                assert(self.active@[p] == old(self).active@[c + p]);
                assert(member_matches(ivs, old(self).active@[c + p], m[c + p]));
            }
        }
    }

    /// Adds the overlap with the interval `k`, which starts at `start` and
    /// ends at `end`, to every member, and returns the sum of what was added;
    /// `None` if a sum does not fit.
    #[verifier::loop_isolation(false)]
    fn attribute(
        &mut self,
        start: i64,
        end: i64,
        Ghost(ivs): Ghost<Seq<Interval>>,
        Ghost(k): Ghost<int>,
        Ghost(kept): Ghost<Seq<Tally>>,
    ) -> (r: Option<u64>)
        requires
            0 <= k < ivs.len(),
            k < u32::MAX,
            well_formed_upto(ivs, k + 1),
            start == start_of(ivs, k),
            end == end_of(ivs, k),
            active_matches(ivs, old(self).active@, kept),
            tallies_within(kept, k),
            all_end_after(ivs, kept, start_of(ivs, k), -1),
        ensures
            final(self).input == old(self).input,
            final(self).next == old(self).next,
            final(self).records == old(self).records,
            final(self).timeline == old(self).timeline,
            match r {
                Some(total) => {
                    &&& active_matches(ivs, final(self).active@, touch_all(ivs, kept, k))
                    &&& total == sum_overlap(ivs, kept, k)
                },
                None => {
                    ||| sum_overlap(ivs, kept, k) > u64::MAX
                    ||| exists|p: int|
                        0 <= p < kept.len() && (#[trigger] touch(ivs, kept[p], k)).overlap
                            > u64::MAX
                },
            },
    {
        let n = self.active.len();
        let mut total: u64 = 0;
        let mut p: usize = 0;
        while p < n
            invariant
                p <= n,
                n == kept.len(),
                self.active@.len() == n,
                self.input == old(self).input,
                self.next == old(self).next,
                self.records == old(self).records,
                self.timeline == old(self).timeline,
                total == sum_overlap(ivs, kept.subrange(0, p as int), k),
                forall|q: int|
                    0 <= q < p ==> member_matches(
                        ivs,
                        #[trigger] self.active@[q],
                        touch(ivs, kept[q], k),
                    ),
                forall|q: int|
                    p <= q < n ==> member_matches(ivs, #[trigger] self.active@[q], kept[q]),
            decreases n - p,
        {
            let a = self.active[p];
            proof {
                reveal(tallies_within);
                reveal(all_end_after);
                assert(member_matches(ivs, self.active@[p as int], kept[p as int]));
                lemma_pair_overlap_bounds(ivs, kept[p as int].index, k);
                let next = kept.subrange(0, p + 1);
                assert(next.drop_last() =~= kept.subrange(0, p as int));
                assert(next.last() == kept[p as int]);
                lemma_sum_overlap_grows(ivs, kept, k, p + 1);
            }
            let lo = if start >= a.start_time { start } else { a.start_time };
            let hi = if end <= a.end_time { end } else { a.end_time };
            let shared = (hi - lo) as u64;
            assert(shared == pair_overlap(ivs, kept[p as int].index, k));
            let grown = match a.overlap.checked_add(shared) {
                Some(v) => v,
                None => {
                    assert(touch(ivs, kept[p as int], k).overlap > u64::MAX);
                    return None;
                },
            };
            total = match total.checked_add(shared) {
                Some(v) => v,
                None => {
                    return None;
                },
            };
            self.active[p] = ActiveInterval {
                start_time: a.start_time,
                ordinal: a.ordinal,
                end_time: a.end_time,
                overlap: grown,
                overlap_count: a.overlap_count + 1,
            };
            p += 1;
        }
        proof {
            assert(kept.subrange(0, n as int) =~= kept);
        }
        Some(total)
    }

    /// Inserts `me`, the member for interval `k`, behind the members that end
    /// no later than it, and emits the timeline sample of the insertion.
    #[verifier::loop_isolation(false)]
    fn insert(
        &mut self,
        me: ActiveInterval,
        Ghost(ivs): Ghost<Seq<Interval>>,
        Ghost(k): Ghost<int>,
        Ghost(touched): Ghost<Seq<Tally>>,
        Ghost(tally): Ghost<Tally>,
        Ghost(tl): Ghost<Seq<Tick>>,
    )
        requires
            0 <= k < ivs.len(),
            active_matches(ivs, old(self).active@, touched),
            timeline_matches(old(self).timeline@, tl),
            member_matches(ivs, me, tally),
            tally.index == k,
            touched.len() < u32::MAX,
        ensures
            final(self).input == old(self).input,
            final(self).next == old(self).next,
            final(self).records == old(self).records,
            0 <= ended_count(ivs, touched, end_of(ivs, k)) <= touched.len(),
            active_matches(
                ivs,
                final(self).active@,
                touched.insert(ended_count(ivs, touched, end_of(ivs, k)), tally),
            ),
            timeline_matches(
                final(self).timeline@,
                tl.push(Tick { time: start_of(ivs, k), count: touched.len() as int + 1 }),
            ),
    {
        let n = self.active.len();
        let mut pos: usize = 0;
        while pos < n && self.active[pos].end_time <= me.end_time
            invariant
                pos <= n,
                n == touched.len(),
                self.active@ == old(self).active@,
                self.input == old(self).input,
                self.next == old(self).next,
                self.timeline@ == old(self).timeline@,
                self.records == old(self).records,
                ended_until(ivs, touched, end_of(ivs, k), 0) == ended_until(
                    ivs,
                    touched,
                    end_of(ivs, k),
                    pos as int,
                ),
            decreases n - pos,
        {
            proof {
                assert(member_matches(ivs, self.active@[pos as int], touched[pos as int]));
            }
            pos += 1;
        }
        proof {
            if pos < n {
                assert(member_matches(ivs, self.active@[pos as int], touched[pos as int]));
            }
            assert(ended_until(ivs, touched, end_of(ivs, k), pos as int) == pos);
        }
        self.active.insert(pos, me);
        self.timeline.push(CountSample { timestamp: me.start_time, count: (n + 1) as u32 });
        proof {
            let a2 = touched.insert(pos as int, tally);
            assert forall|q: int| 0 <= q < self.active@.len() implies member_matches(
                ivs,
                #[trigger] self.active@[q],
                a2[q],
            ) by {
                if q < pos {
                    assert(self.active@[q] == old(self).active@[q]);
                    assert(member_matches(ivs, old(self).active@[q], touched[q]));
                } else if q > pos {
                    assert(self.active@[q] == old(self).active@[q - 1]);
                    assert(member_matches(ivs, old(self).active@[q - 1], touched[q - 1]));
                }
            }
        }
    }
}

/// Sweeps `intervals`, which must be ascending in `(start_time, ordinal)`:
/// the overlap and the number of partners of every interval, in the order of
/// finalization, and the timeline of the active count.
pub fn compute_overlap(intervals: &Vec<Interval>) -> (r: Result<SweepOutput, SweepError>)
    ensures
        r is Ok <==> admissible(intervals@),
        r matches Ok(out) ==> {
            &&& records_match(intervals@, out.records@, sweep(intervals@).finalized)
            &&& timeline_matches(out.timeline@, sweep(intervals@).timeline)
        },
        r matches Err(e) ==> rejects(intervals@, e),
{
    let mut state = match Sweep::new(intervals) {
        Ok(state) => state,
        Err(e) => {
            return Err(e);
        },
    };
    while !state.is_done()
        invariant
            state.well_formed(),
            state.input() == intervals@,
            intervals@.len() <= u32::MAX,
            clean_upto(intervals@, state.position()),
            0 <= state.position() <= intervals@.len(),
        decreases intervals@.len() - state.position(),
    {
        state = match state.advance() {
            Ok(next) => next,
            Err(e) => {
                return Err(e);
            },
        };
    }
    Ok(state.finish())
}

} // verus!
