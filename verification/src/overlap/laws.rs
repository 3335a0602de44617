//! What holds of the records of every sweep: each pair of overlapping
//! intervals is attributed once and to both, in the order of finalization.

use crate::overlap::coherence::{
    all_end_after, all_end_by, all_expire_before, expires_before, in_expiry_order,
    lemma_insert_index, lemma_run_coherent, lemma_split, tallies_within,
};
use crate::overlap::engine::{admissible, clean_upto, defect, fits, lemma_clean_is_well_formed};
use crate::overlap::model::{
    end_of, ended_count, lemma_ended_until, pair_overlap, precedes, run, start_of, step,
    sum_overlap, sweep, touch, touch_all, well_formed, well_formed_upto, Interval, Tally,
};
use crate::overlap::sums::{
    index_sum, lemma_sum_conserved, lemma_sum_constant, lemma_sum_joined, lemma_sum_parts,
    lemma_sum_same_values, tally_sum,
};
use vstd::prelude::*;

verus! {

/// Intervals `i` and `j` are partners: the one that starts later starts
/// while the other still runs.
pub open spec fn partners(ivs: Seq<Interval>, i: int, j: int) -> bool {
    i != j && if i < j {
        end_of(ivs, i) > start_of(ivs, j)
    } else {
        end_of(ivs, j) > start_of(ivs, i)
    }
}

/// What interval `j` adds to the overlap of interval `i`.
pub open spec fn shared(ivs: Seq<Interval>, i: int, j: int) -> int {
    if partners(ivs, i, j) {
        pair_overlap(ivs, i, j)
    } else {
        0
    }
}

pub open spec fn shared_with(ivs: Seq<Interval>, i: int) -> spec_fn(int) -> int {
    |j: int| shared(ivs, i, j)
}

pub open spec fn partner_flag(ivs: Seq<Interval>, i: int) -> spec_fn(int) -> int {
    |j: int|
        if partners(ivs, i, j) {
            1int
        } else {
            0int
        }
}

/// The overlap of interval `i` with its partners among the first `k`.
pub open spec fn overlap_upto(ivs: Seq<Interval>, i: int, k: int) -> int {
    index_sum(k, shared_with(ivs, i))
}

/// The number of partners of interval `i` among the first `k`.
pub open spec fn partners_upto(ivs: Seq<Interval>, i: int, k: int) -> int {
    index_sum(k, partner_flag(ivs, i))
}

/// The overlap of interval `i` with all its partners, each pair once.
pub open spec fn overlap_total(ivs: Seq<Interval>, i: int) -> int {
    overlap_upto(ivs, i, ivs.len() as int)
}

/// The number of partners of interval `i`.
pub open spec fn partner_count(ivs: Seq<Interval>, i: int) -> int {
    partners_upto(ivs, i, ivs.len() as int)
}

/// Every member of `s` holds the overlap and the partners that the first `k`
/// intervals give it.
#[verifier::opaque]
pub open spec fn tallies_exact(ivs: Seq<Interval>, s: Seq<Tally>, k: int) -> bool {
    forall|p: int|
        0 <= p < s.len() ==> (#[trigger] s[p]).overlap == overlap_upto(ivs, s[p].index, k)
            && s[p].count == partners_upto(ivs, s[p].index, k)
}

/// Symmetry: what two intervals add to each other's overlap is the same
/// amount, and each is a partner of the other or neither is.
pub proof fn law_symmetry(ivs: Seq<Interval>, i: int, j: int)
    ensures
        partners(ivs, i, j) == partners(ivs, j, i),
        shared(ivs, i, j) == shared(ivs, j, i),
        pair_overlap(ivs, i, j) == pair_overlap(ivs, j, i),
{
}

/// The overlap of the new interval `k` with the members that still run is
/// its overlap with its partners among the intervals before it, and their
/// number is the number of those partners.
proof fn lemma_newcomer_exact(ivs: Seq<Interval>, k: int)
    requires
        0 <= k,
        well_formed_upto(ivs, k + 1),
    ensures
        ({
            let s = run(ivs, k);
            let m = ended_count(ivs, s.active, start_of(ivs, k));
            let kept = s.active.subrange(m, s.active.len() as int);
            &&& sum_overlap(ivs, kept, k) == overlap_upto(ivs, k, k + 1)
            &&& kept.len() == partners_upto(ivs, k, k + 1)
        }),
{
    let s = run(ivs, k);
    let t = start_of(ivs, k);
    let m = ended_count(ivs, s.active, t);
    let expired = s.active.subrange(0, m);
    let kept = s.active.subrange(m, s.active.len() as int);
    lemma_run_coherent(ivs, k);
    lemma_split(ivs, s.active, t);
    assert(k > 0 ==> start_of(ivs, k - 1) <= t) by {
        if k > 0 {
            assert(precedes(ivs[k - 1], ivs[k]));
        }
    }
    let f = shared_with(ivs, k);
    let g = partner_flag(ivs, k);
    let zero = |j: int| 0int;
    let one = |j: int| 1int;
    let w = |j: int| pair_overlap(ivs, j, k);
    reveal(tallies_within);
    reveal(all_end_by);
    reveal(all_end_after);
    // what has ended by `t` is no partner of `k`
    assert forall|p: int| 0 <= p < expired.len() implies f((#[trigger] expired[p]).index) == 0
        && g(expired[p].index) == 0 by {
        assert(expired[p] == s.active[p]);
    }
    assert forall|p: int| 0 <= p < s.finalized.len() implies f(
        (#[trigger] s.finalized[p]).index,
    ) == 0 && g(s.finalized[p].index) == 0 by {}
    // what still runs is
    assert forall|p: int| 0 <= p < kept.len() implies f((#[trigger] kept[p]).index) == w(
        kept[p].index,
    ) && g(kept[p].index) == 1 by {
        assert(kept[p] == s.active[m + p]);
    }
    lemma_sum_conserved(ivs, k, f);
    lemma_sum_conserved(ivs, k, g);
    lemma_sum_parts(s.active, m, f);
    lemma_sum_parts(s.active, m, g);
    lemma_sum_same_values(expired, f, zero);
    lemma_sum_same_values(expired, g, zero);
    lemma_sum_same_values(s.finalized, f, zero);
    lemma_sum_same_values(s.finalized, g, zero);
    lemma_sum_constant(expired, zero, 0);
    lemma_sum_constant(s.finalized, zero, 0);
    lemma_sum_same_values(kept, f, w);
    lemma_sum_constant(kept, g, 1);
    lemma_sum_overlap_is_sum(ivs, kept, k);
    assert(index_sum(k + 1, f) == index_sum(k, f) + f(k));
    assert(index_sum(k + 1, g) == index_sum(k, g) + g(k));
}

/// `sum_overlap` is the sum of the pairwise overlaps with `k`.
proof fn lemma_sum_overlap_is_sum(ivs: Seq<Interval>, kept: Seq<Tally>, k: int)
    ensures
        sum_overlap(ivs, kept, k) == tally_sum(kept, |j: int| pair_overlap(ivs, j, k)),
    decreases kept.len(),
{
    if kept.len() > 0 {
        lemma_sum_overlap_is_sum(ivs, kept.drop_last(), k);
    }
}

/// One step keeps every tally exact.
proof fn lemma_step_exact(ivs: Seq<Interval>, k: int)
    requires
        0 <= k,
        well_formed_upto(ivs, k + 1),
        tallies_exact(ivs, run(ivs, k).active, k),
        tallies_exact(ivs, run(ivs, k).finalized, k),
    ensures
        tallies_exact(ivs, run(ivs, k + 1).active, k + 1),
        tallies_exact(ivs, run(ivs, k + 1).finalized, k + 1),
{
    let s = run(ivs, k);
    let t = start_of(ivs, k);
    let m = ended_count(ivs, s.active, t);
    let expired = s.active.subrange(0, m);
    let kept = s.active.subrange(m, s.active.len() as int);
    let touched = touch_all(ivs, kept, k);
    let me = Tally { index: k, overlap: sum_overlap(ivs, kept, k), count: kept.len() as int };
    let pos = ended_count(ivs, touched, end_of(ivs, k));
    let s2 = run(ivs, k + 1);
    assert(s2 == step(ivs, s, k));
    lemma_run_coherent(ivs, k);
    lemma_split(ivs, s.active, t);
    lemma_ended_until(ivs, touched, end_of(ivs, k), 0);
    lemma_newcomer_exact(ivs, k);
    assert(k > 0 ==> start_of(ivs, k - 1) <= t) by {
        if k > 0 {
            assert(precedes(ivs[k - 1], ivs[k]));
        }
    }
    reveal(tallies_exact);
    reveal(tallies_within);
    reveal(all_end_by);
    reveal(all_end_after);
    assert forall|j: int| #![auto] 0 <= j < k implies index_sum(k + 1, shared_with(ivs, j))
        == index_sum(k, shared_with(ivs, j)) + shared(ivs, j, k) && index_sum(
        k + 1,
        partner_flag(ivs, j),
    ) == index_sum(k, partner_flag(ivs, j)) + (if partners(ivs, j, k) {
        1int
    } else {
        0int
    }) by {
        assert(shared_with(ivs, j)(k) == shared(ivs, j, k));
    }
    assert forall|p: int| 0 <= p < touched.len() implies (#[trigger] touched[p]).overlap
        == overlap_upto(ivs, touched[p].index, k + 1) && touched[p].count == partners_upto(
        ivs,
        touched[p].index,
        k + 1,
    ) by {
        assert(kept[p] == s.active[m + p]);
        assert(touched[p] == touch(ivs, kept[p], k));
        let j = kept[p].index;
        assert(partners(ivs, j, k));
        assert(index_sum(k + 1, shared_with(ivs, j)) == index_sum(k, shared_with(ivs, j))
            + shared(ivs, j, k));
    }
    assert forall|p: int| 0 <= p < s2.active.len() implies (#[trigger] s2.active[p]).overlap
        == overlap_upto(ivs, s2.active[p].index, k + 1) && s2.active[p].count == partners_upto(
        ivs,
        s2.active[p].index,
        k + 1,
    ) by {
        lemma_insert_index(touched, pos, me, p);
    }
    assert forall|p: int| 0 <= p < s2.finalized.len() implies (#[trigger] s2.finalized[p]).overlap
        == overlap_upto(ivs, s2.finalized[p].index, k + 1) && s2.finalized[p].count
        == partners_upto(ivs, s2.finalized[p].index, k + 1) by {
        let fl = s.finalized.len() as int;
        let x = s2.finalized[p];
        if p < fl {
            assert(x == s.finalized[p]);
        } else {
            assert(x == expired[p - fl]);
            assert(expired[p - fl] == s.active[p - fl]);
        }
        let j = x.index;
        assert(!partners(ivs, j, k));
        assert(index_sum(k + 1, shared_with(ivs, j)) == index_sum(k, shared_with(ivs, j))
            + shared(ivs, j, k));
    }
}

/// Every tally of the sweep over a well-formed input is exact.
proof fn lemma_run_exact(ivs: Seq<Interval>, k: int)
    requires
        0 <= k,
        well_formed_upto(ivs, k),
    ensures
        tallies_exact(ivs, run(ivs, k).active, k),
        tallies_exact(ivs, run(ivs, k).finalized, k),
    decreases k,
{
    if k > 0 {
        lemma_run_exact(ivs, k - 1);
        lemma_step_exact(ivs, k - 1);
    } else {
        reveal(tallies_exact);
    }
}

/// Pairwise attribution: the sweep finalizes every interval once, and the
/// record of an interval holds its overlap with its partners, each pair
/// counted once, and their number.
pub proof fn law_pairwise_overlap(ivs: Seq<Interval>)
    requires
        well_formed(ivs),
    ensures
        sweep(ivs).finalized.len() == ivs.len(),
        forall|p: int|
            0 <= p < ivs.len() ==> {
                let r = #[trigger] sweep(ivs).finalized[p];
                &&& 0 <= r.index < ivs.len()
                &&& r.overlap == overlap_total(ivs, r.index)
                &&& r.count == partner_count(ivs, r.index)
            },
{
    let n = ivs.len() as int;
    let s = run(ivs, n);
    lemma_run_coherent(ivs, n);
    lemma_run_exact(ivs, n);
    reveal(tallies_exact);
    reveal(tallies_within);
    let f = sweep(ivs).finalized;
    assert(f == s.finalized + s.active);
    assert forall|p: int| 0 <= p < ivs.len() implies {
        let r = #[trigger] f[p];
        &&& 0 <= r.index < ivs.len()
        &&& r.overlap == overlap_total(ivs, r.index)
        &&& r.count == partner_count(ivs, r.index)
    } by {
        if p < s.finalized.len() {
            assert(f[p] == s.finalized[p]);
        } else {
            assert(f[p] == s.active[p - s.finalized.len()]);
        }
    }
}

/// Interval `i` is among the finalized intervals of the sweep.
pub open spec fn has_record(ivs: Seq<Interval>, i: int) -> bool {
    exists|p: int|
        0 <= p < sweep(ivs).finalized.len() && (#[trigger] sweep(ivs).finalized[p]).index == i
}

/// Finalization order: the records come in non-decreasing order of end
/// time, intervals that end together in the order of the input, and every
/// interval has its record.
pub proof fn law_finalization_order(ivs: Seq<Interval>)
    requires
        well_formed(ivs),
    ensures
        sweep(ivs).finalized.len() == ivs.len(),
        sweep(ivs).active.len() == 0,
        forall|p: int, q: int|
            0 <= p < q < ivs.len() ==> expires_before(
                ivs,
                (#[trigger] sweep(ivs).finalized[p]).index,
                (#[trigger] sweep(ivs).finalized[q]).index,
            ),
        forall|i: int| 0 <= i < ivs.len() ==> #[trigger] has_record(ivs, i),
{
    let n = ivs.len() as int;
    let s = run(ivs, n);
    let f = sweep(ivs).finalized;
    lemma_run_coherent(ivs, n);
    assert(f == s.finalized + s.active);
    reveal(in_expiry_order);
    reveal(all_expire_before);
    assert forall|p: int, q: int| 0 <= p < q < ivs.len() implies expires_before(
        ivs,
        (#[trigger] f[p]).index,
        (#[trigger] f[q]).index,
    ) by {
        let fl = s.finalized.len() as int;
        if q < fl {
            assert(f[p] == s.finalized[p] && f[q] == s.finalized[q]);
        } else if p < fl {
            assert(f[p] == s.finalized[p] && f[q] == s.active[q - fl]);
        } else {
            assert(f[p] == s.active[p - fl] && f[q] == s.active[q - fl]);
        }
    }
    assert forall|i: int| 0 <= i < ivs.len() implies #[trigger] has_record(ivs, i) by {
        let hit = |j: int|
            if j == i {
                1int
            } else {
                0int
            };
        lemma_sum_conserved(ivs, n, hit);
        lemma_sum_joined(s.finalized, s.active, hit);
        lemma_index_sum_hit(n, i, hit);
        lemma_sum_positive(f, hit);
        let p = choose|p: int| 0 <= p < f.len() && hit((#[trigger] f[p]).index) != 0;
        assert(f[p].index == i);
    }
}

/// A function that is 1 at `i` and 0 elsewhere sums to 1 over the first
/// `k` positions, if `i` is among them.
proof fn lemma_index_sum_hit(k: int, i: int, f: spec_fn(int) -> int)
    requires
        0 <= k,
        forall|j: int| #[trigger] f(j) == (if j == i { 1int } else { 0int }),
    ensures
        index_sum(k, f) == (if 0 <= i < k { 1int } else { 0int }),
    decreases k,
{
    if k > 0 {
        lemma_index_sum_hit(k - 1, i, f);
    }
}

/// A sum that is not zero has a member whose value is not zero.
proof fn lemma_sum_positive(s: Seq<Tally>, f: spec_fn(int) -> int)
    requires
        tally_sum(s, f) != 0,
    ensures
        exists|p: int| 0 <= p < s.len() && f((#[trigger] s[p]).index) != 0,
    decreases s.len(),
{
    if s.len() > 0 {
        if f(s.last().index) != 0 {
            assert(f(s[s.len() - 1].index) != 0);
        } else {
            let rest = s.drop_last();
            lemma_sum_positive(rest, f);
            let p = choose|p: int| 0 <= p < rest.len() && f((#[trigger] rest[p]).index) != 0;
            assert(rest[p] == s[p]);
        }
    }
}

/// What one partner adds to the overlap of interval `i` is not negative and
/// at most the duration of `i`.
pub proof fn lemma_shared_bounds(ivs: Seq<Interval>, i: int, j: int)
    requires
        well_formed(ivs),
        0 <= i < ivs.len(),
        0 <= j < ivs.len(),
    ensures
        0 <= shared(ivs, i, j) <= ivs[i].duration,
{
    assert(0 <= ivs[i].duration);
    assert(0 <= ivs[j].duration);
    if i < j {
        assert(precedes(ivs[i], ivs[j]));
    } else if j < i {
        assert(precedes(ivs[j], ivs[i]));
    }
}

proof fn lemma_overlap_bounded(ivs: Seq<Interval>, i: int, k: int)
    requires
        well_formed(ivs),
        0 <= i < ivs.len(),
        0 <= k <= ivs.len(),
    ensures
        0 <= partners_upto(ivs, i, k) <= k,
        0 <= overlap_upto(ivs, i, k) <= partners_upto(ivs, i, k) * ivs[i].duration,
        partners_upto(ivs, i, k) == 0 ==> overlap_upto(ivs, i, k) == 0,
    decreases k,
{
    let d = ivs[i].duration as int;
    if k > 0 {
        lemma_overlap_bounded(ivs, i, k - 1);
        lemma_shared_bounds(ivs, i, k - 1);
        let c = partners_upto(ivs, i, k - 1);
        assert(index_sum(k, shared_with(ivs, i)) == index_sum(k - 1, shared_with(ivs, i))
            + shared(ivs, i, k - 1));
        assert(index_sum(k, partner_flag(ivs, i)) == index_sum(k - 1, partner_flag(ivs, i)) + (
        if partners(ivs, i, k - 1) {
            1int
        } else {
            0int
        }));
        assert((c + 1) * d == c * d + d) by (nonlinear_arith);
    } else {
        assert(0 * d == 0) by (nonlinear_arith);
    }
}

/// Conservation: an interval with at most one partner overlaps for no
/// longer than it runs. With more partners the same time is counted once
/// for each of them, so the bound is the duration times their number.
pub proof fn law_conservation(ivs: Seq<Interval>, i: int)
    requires
        well_formed(ivs),
        0 <= i < ivs.len(),
    ensures
        0 <= partner_count(ivs, i) < ivs.len(),
        0 <= overlap_total(ivs, i) <= partner_count(ivs, i) * ivs[i].duration,
        partner_count(ivs, i) <= 1 ==> overlap_total(ivs, i) <= ivs[i].duration,
{
    let n = ivs.len() as int;
    let d = ivs[i].duration as int;
    let c = partner_count(ivs, i);
    lemma_overlap_bounded(ivs, i, n);
    lemma_partners_exclude_self(ivs, i, n);
    if c == 0 {
    } else if c == 1 {
        assert(1 * d == d) by (nonlinear_arith);
    }
}

/// An interval is no partner of itself.
proof fn lemma_partners_exclude_self(ivs: Seq<Interval>, i: int, k: int)
    requires
        0 <= k,
    ensures
        partners_upto(ivs, i, k) <= (if 0 <= i < k {
            k - 1
        } else {
            k
        }),
    decreases k,
{
    if k > 0 {
        lemma_partners_exclude_self(ivs, i, k - 1);
        assert(index_sum(k, partner_flag(ivs, i)) == index_sum(k - 1, partner_flag(ivs, i)) + (
        if partners(ivs, i, k - 1) {
            1int
        } else {
            0int
        }));
    }
}

/// The overlap of an interval with its partners among the first `k` is at
/// most its overlap with all its partners.
proof fn lemma_overlap_grows(ivs: Seq<Interval>, i: int, k: int, n: int)
    requires
        well_formed(ivs),
        0 <= i < ivs.len(),
        0 <= k <= n <= ivs.len(),
    ensures
        overlap_upto(ivs, i, k) <= overlap_upto(ivs, i, n),
    decreases n - k,
{
    if k < n {
        lemma_overlap_grows(ivs, i, k, n - 1);
        lemma_shared_bounds(ivs, i, n - 1);
        assert(index_sum(n, shared_with(ivs, i)) == index_sum(n - 1, shared_with(ivs, i))
            + shared(ivs, i, n - 1));
    }
}

/// A prefix of a well-formed input is well formed.
proof fn lemma_prefix_well_formed(ivs: Seq<Interval>, k: int)
    requires
        well_formed(ivs),
        0 <= k <= ivs.len(),
    ensures
        well_formed_upto(ivs, k),
{
}

/// The sweep accepts every input that is well formed, has no more intervals
/// than a 32-bit count can hold, and gives no interval more overlap than 64
/// bits can hold.
pub proof fn law_success(ivs: Seq<Interval>)
    requires
        well_formed(ivs),
        ivs.len() <= u32::MAX,
        forall|i: int| 0 <= i < ivs.len() ==> #[trigger] overlap_total(ivs, i) <= u64::MAX,
    ensures
        admissible(ivs),
{
    assert forall|k: int| 0 <= k < ivs.len() implies (#[trigger] defect(ivs, k)) is None by {
        assert(0 <= ivs[k].duration);
        if k > 0 {
            assert(precedes(ivs[k - 1], ivs[k]));
        }
        lemma_prefix_well_formed(ivs, k + 1);
        lemma_run_coherent(ivs, k + 1);
        lemma_run_exact(ivs, k + 1);
        let s = run(ivs, k + 1);
        assert forall|p: int| 0 <= p < s.active.len() implies (#[trigger] s.active[p]).overlap
            <= u64::MAX by {
            reveal(tallies_exact);
            reveal(tallies_within);
            let i = s.active[p].index;
            lemma_overlap_grows(ivs, i, k + 1, ivs.len() as int);
            assert(overlap_total(ivs, i) <= u64::MAX);
        }
    }
}

/// While the sweep accepts the input, the overlap of interval `i` with its
/// partners among the first `k` fits in 64 bits.
proof fn lemma_accepted_overlap_fits(ivs: Seq<Interval>, i: int, k: int)
    requires
        well_formed(ivs),
        clean_upto(ivs, ivs.len() as int),
        0 <= i < k <= ivs.len(),
    ensures
        overlap_upto(ivs, i, k) <= u64::MAX,
    decreases k,
{
    let j = k - 1;
    let s = run(ivs, k);
    lemma_prefix_well_formed(ivs, k);
    lemma_run_coherent(ivs, k);
    lemma_run_exact(ivs, k);
    assert(defect(ivs, j) is None);
    assert(fits(s));
    assert(0 <= ivs[i].duration);
    if i < j && end_of(ivs, i) <= start_of(ivs, j) {
        lemma_accepted_overlap_fits(ivs, i, j);
        assert(!partners(ivs, i, j));
        assert(index_sum(k, shared_with(ivs, i)) == index_sum(j, shared_with(ivs, i)) + shared(
            ivs,
            i,
            j,
        ));
    } else if i == j {
        // interval `j` has just been inserted
        let before = run(ivs, j);
        let m = ended_count(ivs, before.active, start_of(ivs, j));
        lemma_ended_until(ivs, before.active, start_of(ivs, j), 0);
        let kept = before.active.subrange(m, before.active.len() as int);
        let touched = touch_all(ivs, kept, j);
        let pos = ended_count(ivs, touched, end_of(ivs, j));
        lemma_ended_until(ivs, touched, end_of(ivs, j), 0);
        assert(s == step(ivs, before, j));
        let me = s.active[pos];
        lemma_insert_index(touched, pos, me, pos);
        assert(me.index == j);
        reveal(tallies_exact);
        assert(s.active[pos].overlap <= u64::MAX);
    } else {
        // interval `i` is still active after step `j`
        let hit = |x: int|
            if x == i {
                1int
            } else {
                0int
            };
        lemma_sum_conserved(ivs, k, hit);
        lemma_index_sum_hit(k, i, hit);
        assert forall|p: int| 0 <= p < s.finalized.len() implies hit(
            (#[trigger] s.finalized[p]).index,
        ) == 0 by {
            reveal(all_end_by);
        }
        lemma_sum_constant(s.finalized, hit, 0);
        lemma_sum_positive(s.active, hit);
        let p = choose|p: int| 0 <= p < s.active.len() && hit((#[trigger] s.active[p]).index) != 0;
        assert(s.active[p].index == i);
        reveal(tallies_exact);
        assert(s.active[p].overlap <= u64::MAX);
    }
}

/// What the sweep accepts is well formed, has no more intervals than a
/// 32-bit count can hold, and gives no interval more overlap than 64 bits
/// can hold.
pub proof fn law_accepted(ivs: Seq<Interval>)
    requires
        admissible(ivs),
    ensures
        well_formed(ivs),
        ivs.len() <= u32::MAX,
        forall|i: int| 0 <= i < ivs.len() ==> #[trigger] overlap_total(ivs, i) <= u64::MAX,
{
    lemma_clean_is_well_formed(ivs, ivs.len() as int);
    assert forall|i: int| 0 <= i < ivs.len() implies #[trigger] overlap_total(ivs, i)
        <= u64::MAX by {
        lemma_accepted_overlap_fits(ivs, i, ivs.len() as int);
    }
}

} // verus!
