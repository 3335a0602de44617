//! Order statistics of a sorted sample: count, extremes, median and
//! quartiles, each given by the samples it is read from.

use crate::binning::sorted;
use vstd::prelude::*;

verus! {

/// The value half way between two samples. The median of an even number of
/// samples lies between the two central ones; for an odd number both are
/// the central sample.
#[derive(Clone, Copy, Debug, PartialEq)]
pub struct Midpoint<T> {
    pub lower: T,
    pub upper: T,
}

/// The order statistics of one sample.
#[derive(Clone, Copy, Debug, PartialEq)]
pub struct Statistics<T> {
    /// The number of samples.
    pub count: usize,
    /// The first sample: the least of a sorted sample.
    pub min: T,
    /// The last sample: the greatest of a sorted sample.
    pub max: T,
    pub median: Midpoint<T>,
    /// The median of the lower half.
    pub q1: Midpoint<T>,
    /// The median of the upper half.
    pub q3: Midpoint<T>,
}

/// The two central samples of `s`; the same sample twice if their number is
/// odd.
pub open spec fn central<T>(s: Seq<T>) -> Midpoint<T> {
    Midpoint { lower: s[(s.len() - 1) / 2], upper: s[s.len() as int / 2] }
}

/// `d` with itself: the midpoint that stands where there is no sample.
pub open spec fn is_default<T: Default>(m: Midpoint<T>) -> bool {
    call_ensures(T::default, (), m.lower) && m.upper == m.lower
}

/// `stats` holds the order statistics of `s`. The quartiles are the medians
/// of the lower and of the upper half, without the central sample where the
/// number of samples is odd; a single sample is its own quartiles. Without
/// samples every field holds the default value.
pub open spec fn summarizes<T: Default>(stats: Statistics<T>, s: Seq<T>) -> bool {
    let half = s.len() as int / 2;
    &&& stats.count == s.len()
    &&& s.len() == 0 ==> {
        &&& call_ensures(T::default, (), stats.min)
        &&& stats.max == stats.min
        &&& is_default(stats.median)
        &&& stats.median.lower == stats.min
        &&& stats.q1 == stats.median
        &&& stats.q3 == stats.median
    }
    &&& s.len() > 0 ==> {
        &&& stats.min == s.first()
        &&& stats.max == s.last()
        &&& stats.median == central(s)
    }
    &&& s.len() == 1 ==> stats.q1 == stats.median && stats.q3 == stats.median
    &&& s.len() > 1 ==> {
        &&& stats.q1 == central(s.subrange(0, half))
        &&& stats.q3 == central(s.subrange(s.len() - half, s.len() as int))
    }
}

/// The median of a sorted sample, as the two samples it lies between.
pub fn get_median<T: Copy>(sorted_slice: &[T]) -> (median: Midpoint<T>)
    requires
        sorted_slice@.len() > 0,
    ensures
        median == central(sorted_slice@),
{
    let len = sorted_slice.len();
    Midpoint { lower: sorted_slice[(len - 1) / 2], upper: sorted_slice[len / 2] }
}

/// The order statistics of a sorted sample.
pub fn get_statistics<T: Copy + Default>(sorted_slice: &[T]) -> (stats: Statistics<T>)
    ensures
        summarizes(stats, sorted_slice@),
{
    let count = sorted_slice.len();
    if count == 0 {
        let zero = T::default();
        let nothing = Midpoint { lower: zero, upper: zero };
        return Statistics {
            count,
            min: zero,
            max: zero,
            median: nothing,
            q1: nothing,
            q3: nothing,
        };
    }
    let median = get_median(sorted_slice);
    let half_size = count / 2;
    let (q1, q3) = if half_size == 0 {
        (median, median)
    } else {
        (
            get_median(vstd::slice::slice_subrange(sorted_slice, 0, half_size)),
            get_median(vstd::slice::slice_subrange(sorted_slice, count - half_size, count)),
        )
    };
    Statistics { count, min: sorted_slice[0], max: sorted_slice[count - 1], median, q1, q3 }
}

/// The order statistics of every bin.
pub fn get_statistics_per_bin<T: Copy + Default>(bins: &Vec<Vec<T>>) -> (stats: Vec<Statistics<T>>)
    ensures
        stats@.len() == bins@.len(),
        forall|b: int| 0 <= b < stats@.len() ==> summarizes(#[trigger] stats@[b], bins@[b]@),
{
    let mut stats: Vec<Statistics<T>> = Vec::new();
    let mut b: usize = 0;
    while b < bins.len()
        invariant
            b <= bins@.len(),
            stats@.len() == b,
            forall|k: int| 0 <= k < b ==> summarizes(#[trigger] stats@[k], bins@[k]@),
        decreases bins@.len() - b,
    {
        stats.push(get_statistics(bins[b].as_slice()));
        b += 1;
    }
    stats
}

/// The order statistics of a sorted sample ascend: from the least sample
/// over the first quartile, the median and the third quartile to the
/// greatest.
pub proof fn law_statistics_ascend(stats: Statistics<u64>, s: Seq<u64>)
    requires
        sorted(s),
        s.len() > 0,
        summarizes(stats, s),
    ensures
        stats.min <= stats.q1.lower <= stats.q1.upper <= stats.median.lower,
        stats.median.lower <= stats.median.upper <= stats.q3.lower,
        stats.q3.lower <= stats.q3.upper <= stats.max,
{
    let n = s.len() as int;
    let half = n / 2;
    if n > 1 {
        let low = s.subrange(0, half);
        let high = s.subrange(n - half, n);
        assert(low[(half - 1) / 2] == s[(half - 1) / 2]);
        assert(low[half / 2] == s[half / 2]);
        assert(high[(half - 1) / 2] == s[n - half + (half - 1) / 2]);
        assert(high[half / 2] == s[n - half + half / 2]);
    }
}

} // verus!
