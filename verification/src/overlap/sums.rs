//! Sums over the intervals that a state of the sweep holds.

use crate::overlap::coherence::lemma_insert_index;
use crate::overlap::model::{
    ended_count, lemma_ended_until, run, step, touch_all, Interval, Tally,
};
use vstd::prelude::*;

verus! {

/// The sum of `f` over the intervals that the members of `s` stand for.
pub open spec fn tally_sum(s: Seq<Tally>, f: spec_fn(int) -> int) -> int
    decreases s.len(),
{
    if s.len() == 0 {
        0
    } else {
        tally_sum(s.drop_last(), f) + f(s.last().index)
    }
}

/// The sum of `f` over the first `k` positions of the input.
pub open spec fn index_sum(k: int, f: spec_fn(int) -> int) -> int
    decreases k,
{
    if k <= 0 {
        0
    } else {
        index_sum(k - 1, f) + f(k - 1)
    }
}

/// The sum over two sequences joined is the sum of their sums.
pub proof fn lemma_sum_joined(a: Seq<Tally>, b: Seq<Tally>, f: spec_fn(int) -> int)
    ensures
        tally_sum(a + b, f) == tally_sum(a, f) + tally_sum(b, f),
    decreases b.len(),
{
    if b.len() == 0 {
        assert(a + b =~= a);
    } else {
        assert((a + b).drop_last() =~= a + b.drop_last());
        assert((a + b).last() == b.last());
        lemma_sum_joined(a, b.drop_last(), f);
    }
}

/// The sum over a sequence is the sum over its two parts.
pub proof fn lemma_sum_parts(s: Seq<Tally>, m: int, f: spec_fn(int) -> int)
    requires
        0 <= m <= s.len(),
    ensures
        tally_sum(s, f) == tally_sum(s.subrange(0, m), f) + tally_sum(
            s.subrange(m, s.len() as int),
            f,
        ),
{
    assert(s =~= s.subrange(0, m) + s.subrange(m, s.len() as int));
    lemma_sum_joined(s.subrange(0, m), s.subrange(m, s.len() as int), f);
}

/// Two sequences that name the same intervals have the same sum.
pub proof fn lemma_sum_same_indices(a: Seq<Tally>, b: Seq<Tally>, f: spec_fn(int) -> int)
    requires
        a.len() == b.len(),
        forall|p: int| 0 <= p < a.len() ==> (#[trigger] a[p]).index == b[p].index,
    ensures
        tally_sum(a, f) == tally_sum(b, f),
    decreases a.len(),
{
    if a.len() > 0 {
        let a1 = a.drop_last();
        let b1 = b.drop_last();
        assert forall|p: int| 0 <= p < a1.len() implies (#[trigger] a1[p]).index
            == b1[p].index by {
            assert(a1[p] == a[p] && b1[p] == b[p]);
        }
        assert(a[a.len() - 1].index == b[a.len() - 1].index);
        lemma_sum_same_indices(a1, b1, f);
    }
}

/// Two functions that agree on the intervals of `s` have the same sum.
pub proof fn lemma_sum_same_values(s: Seq<Tally>, f: spec_fn(int) -> int, g: spec_fn(int) -> int)
    requires
        forall|p: int| 0 <= p < s.len() ==> f((#[trigger] s[p]).index) == g(s[p].index),
    ensures
        tally_sum(s, f) == tally_sum(s, g),
    decreases s.len(),
{
    if s.len() > 0 {
        let s1 = s.drop_last();
        assert forall|p: int| 0 <= p < s1.len() implies f((#[trigger] s1[p]).index) == g(
            s1[p].index,
        ) by {
            assert(s1[p] == s[p]);
        }
        assert(f(s[s.len() - 1].index) == g(s[s.len() - 1].index));
        lemma_sum_same_values(s1, f, g);
    }
}

/// A function that is `v` on every interval of `s` sums to `v` times the
/// length of `s`.
pub proof fn lemma_sum_constant(s: Seq<Tally>, f: spec_fn(int) -> int, v: int)
    requires
        forall|p: int| 0 <= p < s.len() ==> f((#[trigger] s[p]).index) == v,
    ensures
        tally_sum(s, f) == v * s.len(),
    decreases s.len(),
{
    if s.len() > 0 {
        let s1 = s.drop_last();
        assert forall|p: int| 0 <= p < s1.len() implies f((#[trigger] s1[p]).index) == v by {
            assert(s1[p] == s[p]);
        }
        assert(f(s[s.len() - 1].index) == v);
        lemma_sum_constant(s1, f, v);
        assert(v * s.len() == v * s1.len() + v) by (nonlinear_arith)
            requires
                s.len() == s1.len() + 1,
        ;
    }
}

/// Inserting a member adds the value of its interval to the sum.
pub proof fn lemma_sum_insert(s: Seq<Tally>, pos: int, x: Tally, f: spec_fn(int) -> int)
    requires
        0 <= pos <= s.len(),
    ensures
        tally_sum(s.insert(pos, x), f) == tally_sum(s, f) + f(x.index),
{
    let head = s.subrange(0, pos);
    let tail = s.subrange(pos, s.len() as int);
    assert(s.insert(pos, x) == head.push(x) + tail);
    lemma_sum_joined(head.push(x), tail, f);
    assert(head.push(x).drop_last() =~= head);
    assert(head.push(x).last() == x);
    lemma_sum_parts(s, pos, f);
}

/// Every interval among the first `k` is counted once: in the active set or
/// among the finalized.
pub proof fn lemma_sum_conserved(ivs: Seq<Interval>, k: int, f: spec_fn(int) -> int)
    requires
        0 <= k,
    ensures
        tally_sum(run(ivs, k).active, f) + tally_sum(run(ivs, k).finalized, f) == index_sum(k, f),
    decreases k,
{
    if k > 0 {
        let j = k - 1;
        let s = run(ivs, j);
        lemma_sum_conserved(ivs, j, f);
        let t = ivs[j].start_time as int;
        let m = ended_count(ivs, s.active, t);
        lemma_ended_until(ivs, s.active, t, 0);
        let expired = s.active.subrange(0, m);
        let kept = s.active.subrange(m, s.active.len() as int);
        let touched = touch_all(ivs, kept, j);
        let e = ivs[j].start_time + ivs[j].duration;
        let pos = ended_count(ivs, touched, e);
        lemma_ended_until(ivs, touched, e, 0);
        let s2 = step(ivs, s, j);
        assert(run(ivs, k) == s2);
        let me = s2.active[pos];
        lemma_insert_index(touched, pos, me, pos);
        assert(s2.active == touched.insert(pos, me));
        assert(me.index == j);
        lemma_sum_insert(touched, pos, me, f);
        lemma_sum_same_indices(touched, kept, f);
        lemma_sum_parts(s.active, m, f);
        lemma_sum_joined(s.finalized, expired, f);
    }
}

} // verus!
