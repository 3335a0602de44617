//! What holds of every state of the sweep over a well-formed input: the
//! order of the active set, and where every interval stands.

use crate::overlap::model::{
    end_of, ended_count, lemma_ended_until, min_int, pair_overlap, precedes, run, start_of, step,
    sum_overlap, touch, touch_all, well_formed_upto, Interval, SweepModel, Tally,
};
use vstd::prelude::*;

verus! {

/// Interval `i` ends before interval `j`, or with it and comes first in the
/// input: the order in which intervals are finalized.
pub open spec fn expires_before(ivs: Seq<Interval>, i: int, j: int) -> bool {
    end_of(ivs, i) < end_of(ivs, j) || (end_of(ivs, i) == end_of(ivs, j) && i < j)
}

/// The members of `s` stand in the order in which they expire.
#[verifier::opaque]
pub open spec fn in_expiry_order(ivs: Seq<Interval>, s: Seq<Tally>) -> bool {
    forall|p: int, q: int|
        0 <= p < q < s.len() ==> expires_before(
            ivs,
            (#[trigger] s[p]).index,
            (#[trigger] s[q]).index,
        )
}

/// Every member of `a` expires before every member of `b`.
#[verifier::opaque]
pub open spec fn all_expire_before(ivs: Seq<Interval>, a: Seq<Tally>, b: Seq<Tally>) -> bool {
    forall|p: int, q: int|
        0 <= p < a.len() && 0 <= q < b.len() ==> expires_before(
            ivs,
            (#[trigger] a[p]).index,
            (#[trigger] b[q]).index,
        )
}

/// The members of `s` are tallies of intervals among the first `k`, with
/// measures that `k` intervals can have produced.
#[verifier::opaque]
pub open spec fn tallies_within(s: Seq<Tally>, k: int) -> bool {
    forall|p: int|
        0 <= p < s.len() ==> {
            &&& 0 <= (#[trigger] s[p]).index < k
            &&& 0 <= s[p].overlap
            &&& 0 <= s[p].count < k
        }
}

/// Every member of `s` ends at or before `t`.
#[verifier::opaque]
pub open spec fn all_end_by(ivs: Seq<Interval>, s: Seq<Tally>, t: int) -> bool {
    forall|p: int| 0 <= p < s.len() ==> end_of(ivs, (#[trigger] s[p]).index) <= t
}

/// Every member of `s` ends after `t`, but for interval `last`, which may
/// end at `t`.
#[verifier::opaque]
pub open spec fn all_end_after(ivs: Seq<Interval>, s: Seq<Tally>, t: int, last: int) -> bool {
    forall|p: int|
        0 <= p < s.len() ==> end_of(ivs, (#[trigger] s[p]).index) > t || s[p].index == last
}

/// What holds of the state after `k` intervals of a well-formed input.
pub open spec fn coherent(ivs: Seq<Interval>, s: SweepModel, k: int) -> bool {
    &&& s.active.len() + s.finalized.len() == k
    &&& s.timeline.len() == 2 * k - s.active.len()
    &&& tallies_within(s.active, k)
    &&& tallies_within(s.finalized, k)
    &&& in_expiry_order(ivs, s.active)
    &&& in_expiry_order(ivs, s.finalized)
    &&& all_expire_before(ivs, s.finalized, s.active)
    &&& all_end_after(ivs, s.active, start_of(ivs, k - 1), k - 1)
    &&& all_end_by(ivs, s.finalized, start_of(ivs, k - 1))
}

/// What `insert` puts at each position.
pub proof fn lemma_insert_index<A>(s: Seq<A>, pos: int, x: A, p: int)
    requires
        0 <= pos <= s.len(),
        0 <= p <= s.len(),
    ensures
        s.insert(pos, x).len() == s.len() + 1,
        s.insert(pos, x)[p] == (if p < pos {
            s[p]
        } else if p == pos {
            x
        } else {
            s[p - 1]
        }),
{
}

/// An earlier interval that still runs when interval `k` starts overlaps it
/// by a non-negative time that is at most the duration of `k`.
pub proof fn lemma_pair_overlap_bounds(ivs: Seq<Interval>, j: int, k: int)
    requires
        well_formed_upto(ivs, k + 1),
        0 <= j < k,
        end_of(ivs, j) > start_of(ivs, k),
    ensures
        0 <= pair_overlap(ivs, j, k) <= ivs[k].duration,
        pair_overlap(ivs, j, k) == min_int(end_of(ivs, j), end_of(ivs, k)) - start_of(ivs, k),
{
    assert(precedes(ivs[j], ivs[k]));
    assert(0 <= ivs[k].duration);
}

/// A part of a sequence of tallies among the first `k` is one too.
pub proof fn lemma_within_part(s: Seq<Tally>, k: int, from: int, to: int)
    requires
        tallies_within(s, k),
        0 <= from <= to <= s.len(),
    ensures
        tallies_within(s.subrange(from, to), k),
{
    reveal(tallies_within);
    let part = s.subrange(from, to);
    assert forall|p: int| 0 <= p < part.len() implies 0 <= (#[trigger] part[p]).index < k && 0
        <= part[p].overlap && 0 <= part[p].count < k by {
        assert(part[p] == s[from + p]);
    }
}

/// In a sequence in expiry order, the members that end at or before `t` are
/// exactly the leading `ended_count` ones.
pub proof fn lemma_split(ivs: Seq<Interval>, s: Seq<Tally>, t: int)
    requires
        in_expiry_order(ivs, s),
    ensures
        0 <= ended_count(ivs, s, t) <= s.len(),
        all_end_by(ivs, s.subrange(0, ended_count(ivs, s, t)), t),
        all_end_after(ivs, s.subrange(ended_count(ivs, s, t), s.len() as int), t, -1),
{
    reveal(in_expiry_order);
    reveal(all_end_by);
    reveal(all_end_after);
    let m = ended_count(ivs, s, t);
    lemma_ended_until(ivs, s, t, 0);
    let kept = s.subrange(m, s.len() as int);
    assert forall|p: int| 0 <= p < kept.len() implies end_of(ivs, (#[trigger] kept[p]).index)
        > t by {
        assert(kept[p] == s[m + p]);
        if p > 0 {
            assert(expires_before(ivs, s[m].index, s[m + p].index));
        }
    }
}

/// Both parts of a sequence in expiry order are in expiry order, and the
/// first part expires before the second.
pub proof fn lemma_order_parts(ivs: Seq<Interval>, s: Seq<Tally>, m: int)
    requires
        in_expiry_order(ivs, s),
        0 <= m <= s.len(),
    ensures
        in_expiry_order(ivs, s.subrange(0, m)),
        in_expiry_order(ivs, s.subrange(m, s.len() as int)),
        all_expire_before(ivs, s.subrange(0, m), s.subrange(m, s.len() as int)),
{
    reveal(in_expiry_order);
    reveal(all_expire_before);
    let a = s.subrange(0, m);
    let b = s.subrange(m, s.len() as int);
    assert forall|p: int, q: int| 0 <= p < q < a.len() implies expires_before(
        ivs,
        (#[trigger] a[p]).index,
        (#[trigger] a[q]).index,
    ) by {
        assert(a[p] == s[p] && a[q] == s[q]);
    }
    assert forall|p: int, q: int| 0 <= p < q < b.len() implies expires_before(
        ivs,
        (#[trigger] b[p]).index,
        (#[trigger] b[q]).index,
    ) by {
        assert(b[p] == s[m + p] && b[q] == s[m + q]);
    }
    assert forall|p: int, q: int| 0 <= p < a.len() && 0 <= q < b.len() implies expires_before(
        ivs,
        (#[trigger] a[p]).index,
        (#[trigger] b[q]).index,
    ) by {
        assert(a[p] == s[p] && b[q] == s[m + q]);
    }
}

/// Two sequences in expiry order, the first expiring before the second, are
/// in expiry order when joined.
pub proof fn lemma_order_joined(ivs: Seq<Interval>, a: Seq<Tally>, b: Seq<Tally>)
    requires
        in_expiry_order(ivs, a),
        in_expiry_order(ivs, b),
        all_expire_before(ivs, a, b),
    ensures
        in_expiry_order(ivs, a + b),
{
    reveal(in_expiry_order);
    reveal(all_expire_before);
    let c = a + b;
    assert forall|p: int, q: int| 0 <= p < q < c.len() implies expires_before(
        ivs,
        (#[trigger] c[p]).index,
        (#[trigger] c[q]).index,
    ) by {
        if q < a.len() {
            assert(c[p] == a[p] && c[q] == a[q]);
        } else if p < a.len() {
            assert(c[p] == a[p] && c[q] == b[q - a.len()]);
        } else {
            assert(c[p] == b[p - a.len()] && c[q] == b[q - a.len()]);
        }
    }
}

/// Attribution changes no index, so it keeps the expiry order, and what
/// expired before the members still does.
pub proof fn lemma_touch_keeps_order(
    ivs: Seq<Interval>,
    before: Seq<Tally>,
    kept: Seq<Tally>,
    k: int,
    t: int,
)
    requires
        in_expiry_order(ivs, kept),
        all_expire_before(ivs, before, kept),
        all_end_after(ivs, kept, t, -1),
    ensures
        in_expiry_order(ivs, touch_all(ivs, kept, k)),
        all_expire_before(ivs, before, touch_all(ivs, kept, k)),
        all_end_after(ivs, touch_all(ivs, kept, k), t, -1),
{
    reveal(in_expiry_order);
    reveal(all_expire_before);
    reveal(all_end_after);
    let touched = touch_all(ivs, kept, k);
    assert forall|p: int, q: int| 0 <= p < q < touched.len() implies expires_before(
        ivs,
        (#[trigger] touched[p]).index,
        (#[trigger] touched[q]).index,
    ) by {
        assert(touched[p].index == kept[p].index && touched[q].index == kept[q].index);
    }
    assert forall|p: int, q: int|
        0 <= p < before.len() && 0 <= q < touched.len() implies expires_before(
        ivs,
        (#[trigger] before[p]).index,
        (#[trigger] touched[q]).index,
    ) by {
        assert(touched[q].index == kept[q].index);
    }
    assert forall|p: int| 0 <= p < touched.len() implies end_of(
        ivs,
        (#[trigger] touched[p]).index,
    ) > t || touched[p].index == -1 by {
        assert(touched[p].index == kept[p].index);
    }
}

/// The overlap of a later interval with members that are still running when
/// it starts is never negative.
pub proof fn lemma_sum_overlap_nonnegative(ivs: Seq<Interval>, kept: Seq<Tally>, k: int)
    requires
        well_formed_upto(ivs, k + 1),
        tallies_within(kept, k),
        all_end_after(ivs, kept, start_of(ivs, k), -1),
    ensures
        0 <= sum_overlap(ivs, kept, k),
    decreases kept.len(),
{
    reveal(tallies_within);
    reveal(all_end_after);
    if kept.len() > 0 {
        let rest = kept.drop_last();
        assert forall|p: int| 0 <= p < rest.len() implies 0 <= (#[trigger] rest[p]).index < k
            && 0 <= rest[p].overlap && 0 <= rest[p].count < k && end_of(ivs, rest[p].index)
            > start_of(ivs, k) by {
            assert(rest[p] == kept[p]);
        }
        lemma_sum_overlap_nonnegative(ivs, rest, k);
        let last = kept[kept.len() - 1];
        lemma_pair_overlap_bounds(ivs, last.index, k);
    }
}

/// The members after attribution are tallies among the first `k + 1`.
pub proof fn lemma_touch_within(ivs: Seq<Interval>, kept: Seq<Tally>, k: int)
    requires
        well_formed_upto(ivs, k + 1),
        tallies_within(kept, k),
        all_end_after(ivs, kept, start_of(ivs, k), -1),
    ensures
        tallies_within(touch_all(ivs, kept, k), k + 1),
{
    reveal(tallies_within);
    reveal(all_end_after);
    let touched = touch_all(ivs, kept, k);
    assert forall|p: int| 0 <= p < touched.len() implies {
        &&& 0 <= (#[trigger] touched[p]).index < k + 1
        &&& 0 <= touched[p].overlap
        &&& 0 <= touched[p].count < k + 1
    } by {
        assert(touched[p] == touch(ivs, kept[p], k));
        lemma_pair_overlap_bounds(ivs, kept[p].index, k);
    }
}

/// Inserting interval `k` behind the members that end no later than it keeps
/// the expiry order.
pub proof fn lemma_insert_keeps_order(ivs: Seq<Interval>, touched: Seq<Tally>, me: Tally, k: int)
    requires
        in_expiry_order(ivs, touched),
        tallies_within(touched, k + 1),
        forall|p: int| 0 <= p < touched.len() ==> (#[trigger] touched[p]).index < k,
        me.index == k,
    ensures
        0 <= ended_count(ivs, touched, end_of(ivs, k)) <= touched.len(),
        in_expiry_order(ivs, touched.insert(ended_count(ivs, touched, end_of(ivs, k)), me)),
{
    let e = end_of(ivs, k);
    let pos = ended_count(ivs, touched, e);
    lemma_split(ivs, touched, e);
    reveal(in_expiry_order);
    reveal(all_end_by);
    reveal(all_end_after);
    reveal(tallies_within);
    let a2 = touched.insert(pos, me);
    let head = touched.subrange(0, pos);
    let tail = touched.subrange(pos, touched.len() as int);
    assert forall|p: int, q: int| 0 <= p < q < a2.len() implies expires_before(
        ivs,
        (#[trigger] a2[p]).index,
        (#[trigger] a2[q]).index,
    ) by {
        lemma_insert_index(touched, pos, me, p);
        lemma_insert_index(touched, pos, me, q);
        if q < pos {
        } else if q == pos {
            assert(head[p] == touched[p]);
        } else if p < pos {
            assert(expires_before(ivs, touched[p].index, touched[q - 1].index));
        } else if p == pos {
            assert(tail[q - 1 - pos] == touched[q - 1]);
        } else {
            assert(expires_before(ivs, touched[p - 1].index, touched[q - 1].index));
        }
    }
}

/// What expires before every member of `b` expires before every member of
/// each part of `b`.
pub proof fn lemma_before_parts(ivs: Seq<Interval>, a: Seq<Tally>, b: Seq<Tally>, m: int)
    requires
        all_expire_before(ivs, a, b),
        0 <= m <= b.len(),
    ensures
        all_expire_before(ivs, a, b.subrange(0, m)),
        all_expire_before(ivs, a, b.subrange(m, b.len() as int)),
{
    reveal(all_expire_before);
    let b1 = b.subrange(0, m);
    let b2 = b.subrange(m, b.len() as int);
    assert forall|p: int, q: int| 0 <= p < a.len() && 0 <= q < b1.len() implies expires_before(
        ivs,
        (#[trigger] a[p]).index,
        (#[trigger] b1[q]).index,
    ) by {
        assert(b1[q] == b[q]);
    }
    assert forall|p: int, q: int| 0 <= p < a.len() && 0 <= q < b2.len() implies expires_before(
        ivs,
        (#[trigger] a[p]).index,
        (#[trigger] b2[q]).index,
    ) by {
        assert(b2[q] == b[m + q]);
    }
}

/// Two sequences whose members expire before every member of `b`, joined.
pub proof fn lemma_before_joined(ivs: Seq<Interval>, a1: Seq<Tally>, a2: Seq<Tally>, b: Seq<Tally>)
    requires
        all_expire_before(ivs, a1, b),
        all_expire_before(ivs, a2, b),
    ensures
        all_expire_before(ivs, a1 + a2, b),
{
    reveal(all_expire_before);
    let a = a1 + a2;
    assert forall|p: int, q: int| 0 <= p < a.len() && 0 <= q < b.len() implies expires_before(
        ivs,
        (#[trigger] a[p]).index,
        (#[trigger] b[q]).index,
    ) by {
        if p < a1.len() {
            assert(a[p] == a1[p]);
        } else {
            assert(a[p] == a2[p - a1.len()]);
        }
    }
}

/// Members that end by the start of interval `k` and come before it in the
/// input expire before `b` with interval `k` inserted, if they did before `b`.
pub proof fn lemma_before_insert(
    ivs: Seq<Interval>,
    a: Seq<Tally>,
    b: Seq<Tally>,
    pos: int,
    me: Tally,
    k: int,
)
    requires
        all_expire_before(ivs, a, b),
        0 <= pos <= b.len(),
        me.index == k,
        tallies_within(a, k),
        all_end_by(ivs, a, start_of(ivs, k)),
        start_of(ivs, k) <= end_of(ivs, k),
    ensures
        all_expire_before(ivs, a, b.insert(pos, me)),
{
    reveal(all_expire_before);
    reveal(tallies_within);
    reveal(all_end_by);
    let b2 = b.insert(pos, me);
    assert forall|p: int, q: int| 0 <= p < a.len() && 0 <= q < b2.len() implies expires_before(
        ivs,
        (#[trigger] a[p]).index,
        (#[trigger] b2[q]).index,
    ) by {
        lemma_insert_index(b, pos, me, q);
        if q < pos {
            assert(expires_before(ivs, a[p].index, b[q].index));
        } else if q > pos {
            assert(expires_before(ivs, a[p].index, b[q - 1].index));
        }
    }
}

/// One step keeps the state coherent.
pub proof fn lemma_step_coherent(ivs: Seq<Interval>, s: SweepModel, k: int)
    requires
        0 <= k,
        well_formed_upto(ivs, k + 1),
        coherent(ivs, s, k),
    ensures
        coherent(ivs, step(ivs, s, k), k + 1),
{
    let t = start_of(ivs, k);
    let e = end_of(ivs, k);
    let n = s.active.len() as int;
    let m = ended_count(ivs, s.active, t);
    lemma_split(ivs, s.active, t);
    let expired = s.active.subrange(0, m);
    let kept = s.active.subrange(m, n);
    let touched = touch_all(ivs, kept, k);
    let me = Tally { index: k, overlap: sum_overlap(ivs, kept, k), count: kept.len() as int };
    let pos = ended_count(ivs, touched, e);
    let s2 = step(ivs, s, k);
    let a2 = touched.insert(pos, me);
    let f2 = s.finalized + expired;
    assert(s2.active == a2);
    assert(s2.finalized == f2);
    assert(0 <= ivs[k].duration);
    assert(t <= e);
    assert(k > 0 ==> start_of(ivs, k - 1) <= t) by {
        if k > 0 {
            assert(precedes(ivs[k - 1], ivs[k]));
        }
    }
    assert(tallies_within(kept, k) && tallies_within(expired, k + 1)) by {
        reveal(tallies_within);
        assert forall|p: int| 0 <= p < kept.len() implies 0 <= (#[trigger] kept[p]).index < k
            && 0 <= kept[p].overlap && 0 <= kept[p].count < k by {
            assert(kept[p] == s.active[m + p]);
        }
        assert forall|p: int| 0 <= p < expired.len() implies 0 <= (#[trigger] expired[p]).index
            < k + 1 && 0 <= expired[p].overlap && 0 <= expired[p].count < k + 1 by {
            assert(expired[p] == s.active[p]);
        }
    }
    lemma_order_parts(ivs, s.active, m);
    lemma_before_parts(ivs, s.finalized, s.active, m);
    lemma_touch_keeps_order(ivs, s.finalized, kept, k, t);
    lemma_touch_keeps_order(ivs, expired, kept, k, t);
    lemma_touch_within(ivs, kept, k);
    lemma_sum_overlap_nonnegative(ivs, kept, k);
    assert forall|p: int| 0 <= p < touched.len() implies (#[trigger] touched[p]).index < k by {
        reveal(tallies_within);
        assert(touched[p].index == kept[p].index);
    }
    lemma_insert_keeps_order(ivs, touched, me, k);
    assert(0 <= pos <= touched.len());
    assert(a2.len() == touched.len() + 1) by {
        lemma_insert_index(touched, pos, me, 0);
    }
    assert(tallies_within(a2, k + 1)) by {
        reveal(tallies_within);
        assert forall|p: int| 0 <= p < a2.len() implies 0 <= (#[trigger] a2[p]).index < k + 1
            && 0 <= a2[p].overlap && 0 <= a2[p].count < k + 1 by {
            lemma_insert_index(touched, pos, me, p);
        }
    }
    assert(all_end_after(ivs, a2, t, k)) by {
        reveal(all_end_after);
        reveal(tallies_within);
        assert forall|p: int| 0 <= p < a2.len() implies end_of(ivs, (#[trigger] a2[p]).index)
            > t || a2[p].index == k by {
            lemma_insert_index(touched, pos, me, p);
        }
    }
    assert(tallies_within(f2, k + 1) && all_end_by(ivs, f2, t)) by {
        reveal(tallies_within);
        reveal(all_end_by);
        assert forall|p: int| 0 <= p < f2.len() implies 0 <= (#[trigger] f2[p]).index < k + 1
            && 0 <= f2[p].overlap && 0 <= f2[p].count < k + 1 && end_of(ivs, f2[p].index)
            <= t by {
            if p < s.finalized.len() {
                assert(f2[p] == s.finalized[p]);
            } else {
                assert(f2[p] == expired[p - s.finalized.len()]);
            }
        }
    }
    assert(in_expiry_order(ivs, f2)) by {
        lemma_order_joined(ivs, s.finalized, expired);
    }
    assert(all_expire_before(ivs, f2, a2)) by {
        lemma_before_joined(ivs, s.finalized, expired, touched);
        assert(tallies_within(f2, k)) by {
            reveal(tallies_within);
            assert forall|p: int| 0 <= p < f2.len() implies 0 <= (#[trigger] f2[p]).index < k
                && 0 <= f2[p].overlap && 0 <= f2[p].count < k by {
                if p < s.finalized.len() {
                    assert(f2[p] == s.finalized[p]);
                } else {
                    assert(f2[p] == s.active[p - s.finalized.len()]);
                }
            }
        }
        lemma_before_insert(ivs, f2, touched, pos, me, k);
    }
}

/// Every state of the sweep over a well-formed input is coherent.
pub proof fn lemma_run_coherent(ivs: Seq<Interval>, k: int)
    requires
        0 <= k,
        well_formed_upto(ivs, k),
    ensures
        coherent(ivs, run(ivs, k), k),
    decreases k,
{
    if k > 0 {
        lemma_run_coherent(ivs, k - 1);
        lemma_step_coherent(ivs, run(ivs, k - 1), k - 1);
    } else {
        reveal(tallies_within);
        reveal(in_expiry_order);
        reveal(all_expire_before);
        reveal(all_end_after);
        reveal(all_end_by);
    }
}

} // verus!
