//! Binning of a time-ordered series: bucketing of timestamps, grouping of
//! samples by bucket, segmentation at gaps, and the way back from buckets to
//! timestamps.

use crate::config::TimePeriod;
use vstd::prelude::*;

verus! {

/// Division that rounds toward zero, as the machine divides.
pub open spec fn truncating_div(a: int, b: int) -> int {
    if a >= 0 {
        a / b
    } else {
        -((-a) / b)
    }
}

/// Maps a timestamp to the index of its bin.
#[derive(Clone, Copy, Debug)]
pub struct Grouping {
    width: i64,
}

/// Maps the index of a bin back to the timestamp at which the bin starts.
#[derive(Clone, Copy, Debug)]
pub struct Ungrouping {
    width: i64,
}

impl Grouping {
    /// The width of a bin in nanoseconds.
    pub closed spec fn width(&self) -> int {
        self.width as int
    }

    pub closed spec fn well_formed(&self) -> bool {
        self.width >= 1
    }

    /// The bin of `timestamp`: the timestamp divided by the width, rounded
    /// toward zero.
    pub open spec fn bin_of(&self, timestamp: int) -> int {
        truncating_div(timestamp, self.width())
    }

    pub fn map_to_bin(&self, timestamp: i64) -> (bin: i64)
        requires
            self.well_formed(),
        ensures
            bin == self.bin_of(timestamp as int),
    {
        timestamp / self.width
    }
}

impl Ungrouping {
    /// The width of a bin in nanoseconds.
    pub closed spec fn width(&self) -> int {
        self.width as int
    }

    pub closed spec fn well_formed(&self) -> bool {
        self.width >= 1
    }

    /// The timestamp at which bin `bin` starts.
    pub open spec fn start_of(&self, bin: int) -> int {
        bin * self.width()
    }

    /// The start of `bin` is a timestamp that fits in 64 bits.
    pub open spec fn in_range(&self, bin: int) -> bool {
        i64::MIN <= self.start_of(bin) <= i64::MAX
    }

    pub fn map_to_start(&self, bin: i64) -> (timestamp: i64)
        requires
            self.well_formed(),
            self.in_range(bin as int),
        ensures
            timestamp == self.start_of(bin as int),
    {
        bin * self.width
    }

    /// The start of `bin`, or `None` if it does not fit in 64 bits.
    pub fn checked_map_to_start(&self, bin: i64) -> (timestamp: Option<i64>)
        requires
            self.well_formed(),
        ensures
            timestamp is Some <==> self.in_range(bin as int),
            timestamp matches Some(t) ==> t == self.start_of(bin as int),
    {
        bin.checked_mul(self.width)
    }
}

/// The grouping of timestamps into bins as wide as `time_period`.
pub fn get_grouping_function_for_time_window(time_period: &TimePeriod) -> (grouping: Grouping)
    requires
        time_period.is_bin_width(),
    ensures
        grouping.well_formed(),
        Some(grouping.width()) == time_period.width(),
{
    Grouping { width: time_period.bin_width().unwrap() }
}

/// The way back from the bins of `get_grouping_function_for_time_window` to
/// the timestamps at which they start.
pub fn get_ungrouping_function_for_time_period(time_period: &TimePeriod) -> (ungrouping: Ungrouping)
    requires
        time_period.is_bin_width(),
    ensures
        ungrouping.well_formed(),
        Some(ungrouping.width()) == time_period.width(),
{
    Ungrouping { width: time_period.bin_width().unwrap() }
}

/// The bin of a timestamp starts at or before it and is less than one width
/// away, for timestamps that are not negative; a negative timestamp lies at
/// or before the start of its bin, less than one width away.
pub proof fn law_bin_holds_timestamp(grouping: Grouping, ungrouping: Ungrouping, timestamp: int)
    requires
        grouping.well_formed(),
        ungrouping.well_formed(),
        grouping.width() == ungrouping.width(),
    ensures
        timestamp >= 0 ==> ungrouping.start_of(grouping.bin_of(timestamp)) <= timestamp
            < ungrouping.start_of(grouping.bin_of(timestamp)) + grouping.width(),
        timestamp < 0 ==> ungrouping.start_of(grouping.bin_of(timestamp)) - grouping.width()
            < timestamp <= ungrouping.start_of(grouping.bin_of(timestamp)),
        i64::MIN <= timestamp <= i64::MAX ==> ungrouping.in_range(grouping.bin_of(timestamp)),
{
    let w = grouping.width();
    if timestamp >= 0 {
        vstd::arithmetic::div_mod::lemma_fundamental_div_mod(timestamp, w);
        vstd::arithmetic::div_mod::lemma_mod_bound(timestamp, w);
        assert((timestamp / w) * w == w * (timestamp / w)) by (nonlinear_arith);
    } else {
        let a = -timestamp;
        vstd::arithmetic::div_mod::lemma_fundamental_div_mod(a, w);
        vstd::arithmetic::div_mod::lemma_mod_bound(a, w);
        assert((-(a / w)) * w == -(w * (a / w))) by (nonlinear_arith);
    }
}

/// Grouping the start of a bin gives the bin back.
pub proof fn law_start_maps_to_bin(grouping: Grouping, ungrouping: Ungrouping, bin: int)
    requires
        grouping.well_formed(),
        ungrouping.well_formed(),
        grouping.width() == ungrouping.width(),
    ensures
        grouping.bin_of(ungrouping.start_of(bin)) == bin,
{
    let w = grouping.width();
    if bin >= 0 {
        assert(bin * w >= 0) by (nonlinear_arith)
            requires
                bin >= 0,
                w >= 1,
        ;
        vstd::arithmetic::div_mod::lemma_div_multiples_vanish(bin, w);
        assert(bin * w == w * bin) by (nonlinear_arith);
    } else {
        assert(bin * w < 0) by (nonlinear_arith)
            requires
                bin < 0,
                w >= 1,
        ;
        assert(-(bin * w) == w * (-bin)) by (nonlinear_arith);
        vstd::arithmetic::div_mod::lemma_div_multiples_vanish(-bin, w);
    }
}

/// The bins of the timestamps `x`.
pub open spec fn bins_of(grouping: Grouping, x: Seq<i64>) -> Seq<int> {
    Seq::new(x.len(), |i: int| grouping.bin_of(x[i] as int))
}

/// The bins never decrease.
pub open spec fn ascending(bins: Seq<int>) -> bool {
    forall|i: int, j: int| 0 <= i <= j < bins.len() ==> bins[i] <= bins[j]
}

/// The samples of `y` whose bin is `key`, in the order of `y`.
pub open spec fn members<V>(bins: Seq<int>, y: Seq<V>, key: int) -> Seq<V>
    decreases bins.len(),
{
    if bins.len() == 0 {
        Seq::empty()
    } else {
        let rest = members(bins.drop_last(), y.drop_last(), key);
        if bins.last() == key {
            rest.push(y.last())
        } else {
            rest
        }
    }
}

/// A group of `n` samples is kept.
pub open spec fn enough(min_count: Option<usize>, n: int) -> bool {
    match min_count {
        Some(m) => n >= m,
        None => true,
    }
}

pub open spec fn has_key(keys: Seq<i64>, bin: int) -> bool {
    exists|a: int| 0 <= a < keys.len() && #[trigger] keys[a] == bin
}

/// What `group_by_x` returns for samples `y` with bins `bins`: the bins that
/// hold enough samples, strictly ascending, each with its samples.
pub open spec fn is_grouping<V>(
    bins: Seq<int>,
    y: Seq<V>,
    min_count: Option<usize>,
    keys: Seq<i64>,
    groups: Seq<Vec<V>>,
) -> bool {
    &&& keys.len() == groups.len()
    &&& forall|a: int, b: int| 0 <= a < b < keys.len() ==> keys[a] < keys[b]
    &&& forall|a: int|
        0 <= a < keys.len() ==> {
            &&& (#[trigger] groups[a])@ == members(bins, y, keys[a] as int)
            &&& groups[a]@.len() >= 1
            &&& enough(min_count, groups[a]@.len() as int)
        }
    &&& forall|i: int|
        0 <= i < bins.len() && enough(min_count, members(bins, y, #[trigger] bins[i]).len() as int)
            ==> has_key(keys, bins[i])
}

/// The members of a bin among one sample more.
proof fn lemma_members_next<V>(bins: Seq<int>, y: Seq<V>, key: int, i: int)
    requires
        0 <= i < bins.len(),
        bins.len() == y.len(),
    ensures
        members(bins.take(i + 1), y.take(i + 1), key) == (if bins[i] == key {
            members(bins.take(i), y.take(i), key).push(y[i])
        } else {
            members(bins.take(i), y.take(i), key)
        }),
{
    assert(bins.take(i + 1).drop_last() =~= bins.take(i));
    assert(y.take(i + 1).drop_last() =~= y.take(i));
}

/// A bin that no sample has so far has no members.
proof fn lemma_members_none<V>(bins: Seq<int>, y: Seq<V>, key: int, i: int)
    requires
        0 <= i <= bins.len(),
        bins.len() == y.len(),
        forall|j: int| 0 <= j < i ==> bins[j] != key,
    ensures
        members(bins.take(i), y.take(i), key) == Seq::<V>::empty(),
    decreases i,
{
    if i > 0 {
        lemma_members_none(bins, y, key, i - 1);
        lemma_members_next(bins, y, key, i - 1);
    }
}

/// Groups the samples `y` by the bins of their timestamps `x`: one group for
/// every run of timestamps with the same bin. A group with fewer than
/// `min_count` samples is dropped.
pub fn group_by_x<V: Copy>(
    x: &[i64],
    y: &[V],
    min_count: Option<usize>,
    map_to_bin: &Grouping,
) -> (r: (Vec<i64>, Vec<Vec<V>>))
    requires
        map_to_bin.well_formed(),
        x@.len() == y@.len(),
        ascending(bins_of(*map_to_bin, x@)),
    ensures
        is_grouping(bins_of(*map_to_bin, x@), y@, min_count, r.0@, r.1@),
{
    let ghost bins = bins_of(*map_to_bin, x@);
    let n = x.len();
    let mut keys: Vec<i64> = Vec::new();
    let mut groups: Vec<Vec<V>> = Vec::new();
    if n == 0 {
        return (keys, groups);
    }
    let mut current_key = map_to_bin.map_to_bin(x[0]);
    let mut current: Vec<V> = Vec::new();
    current.push(y[0]);
    proof {
        lemma_members_none(bins, y@, current_key as int, 0);
        lemma_members_next(bins, y@, current_key as int, 0);
    }
    let mut i: usize = 1;
    while i < n
        invariant
            1 <= i <= n,
            n == x@.len(),
            n == y@.len(),
            map_to_bin.well_formed(),
            bins == bins_of(*map_to_bin, x@),
            ascending(bins),
            current_key == bins[i - 1],
            current@ == members(bins.take(i as int), y@.take(i as int), current_key as int),
            current@.len() >= 1,
            keys@.len() == groups@.len(),
            forall|a: int, b: int| 0 <= a < b < keys@.len() ==> keys@[a] < keys@[b],
            forall|a: int| 0 <= a < keys@.len() ==> (#[trigger] keys@[a]) < current_key,
            forall|a: int|
                0 <= a < keys@.len() ==> {
                    &&& (#[trigger] groups@[a])@ == members(
                        bins.take(i as int),
                        y@.take(i as int),
                        keys@[a] as int,
                    )
                    &&& groups@[a]@.len() >= 1
                    &&& enough(min_count, groups@[a]@.len() as int)
                },
            forall|j: int|
                0 <= j < i && (#[trigger] bins[j]) != current_key && enough(
                    min_count,
                    members(bins.take(i as int), y@.take(i as int), bins[j]).len() as int,
                ) ==> has_key(keys@, bins[j]),
        decreases n - i,
    {
        let bin = map_to_bin.map_to_bin(x[i]);
        let ghost old_keys = keys@;
        let ghost old_key = current_key;
        proof {
            assert(bins[i as int] == bin);
            assert(bins[i - 1] <= bins[i as int]);
            assert forall|key: int|
                members(bins.take(i + 1), y@.take(i + 1), key) == (if bins[i as int] == key {
                    members(bins.take(i as int), y@.take(i as int), key).push(y@[i as int])
                } else {
                    members(bins.take(i as int), y@.take(i as int), key)
                }) by {
                lemma_members_next(bins, y@, key, i as int);
            }
        }
        if bin == current_key {
            current.push(y[i]);
        } else {
            let keep = match min_count {
                Some(m) => current.len() >= m,
                None => true,
            };
            if keep {
                keys.push(current_key);
                groups.push(current);
            }
            current_key = bin;
            current = Vec::new();
            current.push(y[i]);
            proof {
                assert forall|j: int| 0 <= j < i implies bins[j] != bin by {
                    assert(bins[j] <= bins[i - 1]);
                }
                lemma_members_none(bins, y@, bin as int, i as int);
                assert forall|j: int|
                    0 <= j < i + 1 && (#[trigger] bins[j]) != current_key && enough(
                        min_count,
                        members(bins.take(i + 1), y@.take(i + 1), bins[j]).len() as int,
                    ) implies has_key(keys@, bins[j]) by {
                    if bins[j] == old_key {
                        assert(keep);
                        assert(keys@[keys@.len() - 1] == old_key);
                    } else {
                        assert(has_key(old_keys, bins[j]));
                        let a = choose|a: int| 0 <= a < old_keys.len() && old_keys[a] == bins[j];
                        assert(keys@[a] == bins[j]);
                    }
                }
            }
        }
        i += 1;
    }
    let keep = match min_count {
        Some(m) => current.len() >= m,
        None => true,
    };
    let ghost old_keys = keys@;
    if keep {
        keys.push(current_key);
        groups.push(current);
    }
    proof {
        assert(bins.take(n as int) =~= bins);
        assert(y@.take(n as int) =~= y@);
        assert forall|j: int|
            0 <= j < bins.len() && enough(
                min_count,
                members(bins, y@, #[trigger] bins[j]).len() as int,
            ) implies has_key(keys@, bins[j]) by {
            if bins[j] == current_key {
                assert(keys@[keys@.len() - 1] == current_key);
            } else {
                assert(has_key(old_keys, bins[j]));
                let a = choose|a: int| 0 <= a < old_keys.len() && old_keys[a] == bins[j];
                assert(keys@[a] == bins[j]);
            }
        }
    }
    (keys, groups)
}

/// Bins that never decrease from one sample to the next never decrease at
/// all.
proof fn lemma_ascending(bins: Seq<int>, n: int)
    requires
        0 <= n <= bins.len(),
        forall|i: int| 0 <= i && i + 1 < n ==> bins[i] <= #[trigger] bins[i + 1],
    ensures
        forall|i: int, j: int| 0 <= i <= j < n ==> bins[i] <= bins[j],
    decreases n,
{
    if n > 1 {
        lemma_ascending(bins, n - 1);
        assert(bins[n - 2] <= bins[n - 2 + 1]);
        assert forall|i: int, j: int| 0 <= i <= j < n implies bins[i] <= bins[j] by {
            if j == n - 1 && i < n - 1 {
                assert(bins[i] <= bins[n - 2]);
            }
        }
    }
}

/// Whether the bins of the timestamps never decrease.
pub fn bins_ascend(x: &[i64], map_to_bin: &Grouping) -> (r: bool)
    requires
        map_to_bin.well_formed(),
    ensures
        r == ascending(bins_of(*map_to_bin, x@)),
{
    let ghost bins = bins_of(*map_to_bin, x@);
    let n = x.len();
    if n == 0 {
        return true;
    }
    let mut previous = map_to_bin.map_to_bin(x[0]);
    let mut i: usize = 1;
    while i < n
        invariant
            1 <= i <= n,
            n == x@.len(),
            map_to_bin.well_formed(),
            bins == bins_of(*map_to_bin, x@),
            previous == bins[i - 1],
            forall|k: int| 0 <= k && k + 1 < i ==> bins[k] <= #[trigger] bins[k + 1],
        decreases n - i,
    {
        let bin = map_to_bin.map_to_bin(x[i]);
        if bin < previous {
            proof {
                assert(bins[i - 1] > bins[i as int]);
            }
            return false;
        }
        previous = bin;
        i += 1;
    }
    proof {
        lemma_ascending(bins, n as int);
    }
    true
}

/// `group_by_x` for samples of which nothing is known: `None` if there is
/// not one sample for every timestamp, or if the bins of the timestamps
/// decrease somewhere.
pub fn checked_group_by_x<V: Copy>(
    x: &[i64],
    y: &[V],
    min_count: Option<usize>,
    map_to_bin: &Grouping,
) -> (r: Option<(Vec<i64>, Vec<Vec<V>>)>)
    requires
        map_to_bin.well_formed(),
    ensures
        r is Some <==> x@.len() == y@.len() && ascending(bins_of(*map_to_bin, x@)),
        r matches Some(groups) ==> is_grouping(
            bins_of(*map_to_bin, x@),
            y@,
            min_count,
            groups.0@,
            groups.1@,
        ),
{
    if x.len() != y.len() || !bins_ascend(x, map_to_bin) {
        return None;
    }
    Some(group_by_x(x, y, min_count, map_to_bin))
}

/// The bins of all segments, one segment after the other.
pub open spec fn joined_bins<V>(segments: Seq<(Vec<i64>, Vec<V>)>) -> Seq<i64>
    decreases segments.len(),
{
    if segments.len() == 0 {
        Seq::empty()
    } else {
        joined_bins(segments.drop_last()) + segments.last().0@
    }
}

/// The values of all segments, one segment after the other.
pub open spec fn joined_values<V>(segments: Seq<(Vec<i64>, Vec<V>)>) -> Seq<V>
    decreases segments.len(),
{
    if segments.len() == 0 {
        Seq::empty()
    } else {
        joined_values(segments.drop_last()) + segments.last().1@
    }
}

/// The bin at position `i + 1` is the one that follows the bin at `i`.
pub open spec fn follows(bins: Seq<i64>, i: int) -> bool {
    bins[i] + 1 == bins[i + 1]
}

/// No bin is missing between the first and the last of `bins`.
pub open spec fn gapless(bins: Seq<i64>) -> bool {
    forall|i: int| 0 <= i && i + 1 < bins.len() ==> #[trigger] follows(bins, i)
}

/// What `split_at_gaps` returns: the series cut into its longest runs
/// without a gap.
pub open spec fn is_segmentation<V>(
    bins: Seq<i64>,
    values: Seq<V>,
    segments: Seq<(Vec<i64>, Vec<V>)>,
) -> bool {
    &&& joined_bins(segments) == bins
    &&& joined_values(segments) == values
    &&& forall|s: int|
        0 <= s < segments.len() ==> {
            &&& (#[trigger] segments[s]).0@.len() == segments[s].1@.len()
            &&& segments[s].0@.len() >= 1
            &&& gapless(segments[s].0@)
        }
    &&& forall|s: int|
        0 <= s && s + 1 < segments.len() ==> (#[trigger] segments[s]).0@.last() + 1 != segments[s
            + 1].0@.first()
}

/// Cuts a series of bins and their values wherever a bin is not the one that
/// follows the bin before it.
pub fn split_at_gaps<V: Copy>(bins: &[i64], values: &[V]) -> (segments: Vec<(Vec<i64>, Vec<V>)>)
    requires
        bins@.len() == values@.len(),
    ensures
        is_segmentation(bins@, values@, segments@),
{
    let n = bins.len();
    let mut segments: Vec<(Vec<i64>, Vec<V>)> = Vec::new();
    if n == 0 {
        proof {
            assert(bins@ =~= Seq::<i64>::empty());
            assert(values@ =~= Seq::<V>::empty());
        }
        return segments;
    }
    let mut current_bins: Vec<i64> = Vec::new();
    let mut current_values: Vec<V> = Vec::new();
    current_bins.push(bins[0]);
    current_values.push(values[0]);
    let mut i: usize = 1;
    while i < n
        invariant
            1 <= i <= n,
            n == bins@.len(),
            n == values@.len(),
            current_bins@.len() == current_values@.len(),
            current_bins@.len() >= 1,
            current_bins@.last() == bins@[i - 1],
            gapless(current_bins@),
            joined_bins(segments@) + current_bins@ == bins@.take(i as int),
            joined_values(segments@) + current_values@ == values@.take(i as int),
            forall|s: int|
                0 <= s < segments@.len() ==> {
                    &&& (#[trigger] segments@[s]).0@.len() == segments@[s].1@.len()
                    &&& segments@[s].0@.len() >= 1
                    &&& gapless(segments@[s].0@)
                },
            forall|s: int|
                0 <= s && s + 1 < segments@.len() ==> (#[trigger] segments@[s]).0@.last() + 1
                    != segments@[s + 1].0@.first(),
            segments@.len() > 0 ==> segments@.last().0@.last() + 1 != current_bins@.first(),
        decreases n - i,
    {
        let bin = bins[i];
        let previous = bins[i - 1];
        let ghost old_segments = segments@;
        let ghost old_bins = current_bins@;
        let ghost old_values = current_values@;
        proof {
            assert(bins@.take(i + 1) =~= bins@.take(i as int).push(bin));
            assert(values@.take(i + 1) =~= values@.take(i as int).push(values@[i as int]));
        }
        if previous < i64::MAX && bin == previous + 1 {
            current_bins.push(bin);
            current_values.push(values[i]);
            proof {
                assert forall|j: int| 0 <= j && j + 1 < current_bins@.len() implies #[trigger] follows(
                    current_bins@,
                    j,
                ) by {
                    if j + 1 < old_bins.len() {
                        assert(follows(old_bins, j));
                    }
                }
                assert(joined_bins(segments@) + current_bins@ =~= (joined_bins(old_segments)
                    + old_bins).push(bin));
                assert(joined_values(segments@) + current_values@ =~= (joined_values(
                    old_segments,
                ) + old_values).push(values@[i as int]));
            }
        } else {
            segments.push((current_bins, current_values));
            current_bins = Vec::new();
            current_values = Vec::new();
            current_bins.push(bin);
            current_values.push(values[i]);
            proof {
                assert(segments@.drop_last() =~= old_segments);
                assert(segments@.last().0@ == old_bins);
                assert(segments@.last().1@ == old_values);
                assert(joined_bins(segments@) == joined_bins(old_segments) + old_bins);
                assert(joined_values(segments@) == joined_values(old_segments) + old_values);
                assert(joined_bins(segments@) + current_bins@ =~= (joined_bins(old_segments)
                    + old_bins).push(bin));
                assert(joined_values(segments@) + current_values@ =~= (joined_values(
                    old_segments,
                ) + old_values).push(values@[i as int]));
                assert forall|s: int| 0 <= s && s + 1 < segments@.len() implies (
                #[trigger] segments@[s]).0@.last() + 1 != segments@[s + 1].0@.first() by {
                    if s + 1 < old_segments.len() {
                        assert(segments@[s] == old_segments[s]);
                        assert(segments@[s + 1] == old_segments[s + 1]);
                    } else {
                        assert(segments@[s] == old_segments[s]);
                    }
                }
            }
        }
        i += 1;
    }
    let ghost old_segments = segments@;
    let ghost old_bins = current_bins@;
    let ghost old_values = current_values@;
    segments.push((current_bins, current_values));
    proof {
        assert(segments@.drop_last() =~= old_segments);
        assert(bins@.take(n as int) =~= bins@);
        assert(values@.take(n as int) =~= values@);
        assert(joined_bins(segments@) == joined_bins(old_segments) + old_bins);
        assert(joined_values(segments@) == joined_values(old_segments) + old_values);
        assert forall|s: int| 0 <= s && s + 1 < segments@.len() implies (
        #[trigger] segments@[s]).0@.last() + 1 != segments@[s + 1].0@.first() by {
            assert(segments@[s] == old_segments[s]);
            if s + 1 < old_segments.len() {
                assert(segments@[s + 1] == old_segments[s + 1]);
            }
        }
    }
    segments
}

/// Every bin of every segment starts at a timestamp that fits in 64 bits.
pub open spec fn segments_in_range<Y>(
    segments: Seq<(Vec<i64>, Vec<Y>)>,
    ungrouping: Ungrouping,
) -> bool {
    forall|s: int, i: int|
        0 <= s < segments.len() && 0 <= i < segments[s].0@.len() ==> ungrouping.in_range(
            #[trigger] segments[s].0@[i] as int,
        )
}

/// Maps the bins of every segment back to the timestamps at which they
/// start; the values stay as they are.
pub fn ungroup_segments_by_x<Y: Copy>(
    segments: &Vec<(Vec<i64>, Vec<Y>)>,
    ungrouping_function: &Ungrouping,
) -> (r: Vec<(Vec<i64>, Vec<Y>)>)
    requires
        ungrouping_function.well_formed(),
        segments_in_range(segments@, *ungrouping_function),
    ensures
        r@.len() == segments@.len(),
        forall|s: int|
            0 <= s < r@.len() ==> {
                &&& (#[trigger] r@[s]).1@ == segments@[s].1@
                &&& r@[s].0@.len() == segments@[s].0@.len()
                &&& forall|i: int|
                    0 <= i < r@[s].0@.len() ==> (#[trigger] r@[s].0@[i])
                        == ungrouping_function.start_of(segments@[s].0@[i] as int)
            },
{
    let mut new_segments: Vec<(Vec<i64>, Vec<Y>)> = Vec::new();
    let mut s: usize = 0;
    while s < segments.len()
        invariant
            s <= segments@.len(),
            ungrouping_function.well_formed(),
            segments_in_range(segments@, *ungrouping_function),
            new_segments@.len() == s,
            forall|k: int|
                0 <= k < s ==> {
                    &&& (#[trigger] new_segments@[k]).1@ == segments@[k].1@
                    &&& new_segments@[k].0@.len() == segments@[k].0@.len()
                    &&& forall|i: int|
                        0 <= i < new_segments@[k].0@.len() ==> (#[trigger] new_segments@[k].0@[i])
                            == ungrouping_function.start_of(segments@[k].0@[i] as int)
                },
        decreases segments@.len() - s,
    {
        let x = &segments[s].0;
        let y = &segments[s].1;
        let mut mapped: Vec<i64> = Vec::new();
        let mut copied: Vec<Y> = Vec::new();
        let mut i: usize = 0;
        while i < x.len()
            invariant
                i <= x@.len(),
                s < segments@.len(),
                x@ == segments@[s as int].0@,
                ungrouping_function.well_formed(),
                segments_in_range(segments@, *ungrouping_function),
                mapped@.len() == i,
                forall|j: int|
                    0 <= j < i ==> (#[trigger] mapped@[j]) == ungrouping_function.start_of(
                        x@[j] as int,
                    ),
            decreases x@.len() - i,
        {
            proof {
                assert(ungrouping_function.in_range(segments@[s as int].0@[i as int] as int));
            }
            mapped.push(ungrouping_function.map_to_start(x[i]));
            i += 1;
        }
        let mut j: usize = 0;
        while j < y.len()
            invariant
                j <= y@.len(),
                copied@ == y@.take(j as int),
            decreases y@.len() - j,
        {
            copied.push(y[j]);
            proof {
                assert(y@.take(j + 1) =~= y@.take(j as int).push(y@[j as int]));
            }
            j += 1;
        }
        proof {
            assert(y@.take(y@.len() as int) =~= y@);
        }
        new_segments.push((mapped, copied));
        s += 1;
    }
    new_segments
}

/// `ungroup_segments_by_x` for bins of which nothing is known: `None` if
/// the start of a bin does not fit in 64 bits.
pub fn checked_ungroup_segments_by_x<Y: Copy>(
    segments: &Vec<(Vec<i64>, Vec<Y>)>,
    ungrouping_function: &Ungrouping,
) -> (r: Option<Vec<(Vec<i64>, Vec<Y>)>>)
    requires
        ungrouping_function.well_formed(),
    ensures
        r is Some <==> segments_in_range(segments@, *ungrouping_function),
        r matches Some(mapped) ==> {
            &&& mapped@.len() == segments@.len()
            &&& forall|s: int|
                0 <= s < mapped@.len() ==> {
                    &&& (#[trigger] mapped@[s]).1@ == segments@[s].1@
                    &&& mapped@[s].0@.len() == segments@[s].0@.len()
                    &&& forall|i: int|
                        0 <= i < mapped@[s].0@.len() ==> (#[trigger] mapped@[s].0@[i])
                            == ungrouping_function.start_of(segments@[s].0@[i] as int)
                }
        },
{
    let mut s: usize = 0;
    while s < segments.len()
        invariant
            s <= segments@.len(),
            ungrouping_function.well_formed(),
            forall|k: int, i: int|
                0 <= k < s && 0 <= i < segments@[k].0@.len() ==> ungrouping_function.in_range(
                    #[trigger] segments@[k].0@[i] as int,
                ),
        decreases segments@.len() - s,
    {
        let x = &segments[s].0;
        let mut i: usize = 0;
        while i < x.len()
            invariant
                i <= x@.len(),
                s < segments@.len(),
                x@ == segments@[s as int].0@,
                ungrouping_function.well_formed(),
                forall|j: int|
                    0 <= j < i ==> ungrouping_function.in_range(#[trigger] x@[j] as int),
            decreases x@.len() - i,
        {
            if ungrouping_function.checked_map_to_start(x[i]).is_none() {
                proof {
                    assert(!ungrouping_function.in_range(segments@[s as int].0@[i as int] as int));
                }
                return None;
            }
            i += 1;
        }
        s += 1;
    }
    Some(ungroup_segments_by_x(segments, ungrouping_function))
}

/// The values never decrease.
pub open spec fn sorted(values: Seq<u64>) -> bool {
    forall|i: int, j: int| 0 <= i <= j < values.len() ==> values[i] <= values[j]
}

/// Sorts `values` with the sort of `std`, `<[u64]>::sort`: afterwards they
/// are the same values, each as often as before, in ascending order.
#[verifier::external_body]
fn sort_values(values: &mut Vec<u64>)
    ensures
        sorted(final(values)@),
        final(values)@.to_multiset() == old(values)@.to_multiset(),
{
    values.sort();
}

/// Sorts the samples inside every bin. The bins stay where they are.
pub fn sort_bins_inplace(bins: &mut Vec<Vec<u64>>)
    ensures
        final(bins)@.len() == old(bins)@.len(),
        forall|b: int|
            0 <= b < final(bins)@.len() ==> {
                &&& sorted((#[trigger] final(bins)@[b])@)
                &&& final(bins)@[b]@.to_multiset() == old(bins)@[b]@.to_multiset()
            },
{
    let n = bins.len();
    let mut b: usize = 0;
    while b < n
        invariant
            b <= n,
            n == bins@.len(),
            n == old(bins)@.len(),
            forall|k: int|
                0 <= k < b ==> {
                    &&& sorted((#[trigger] bins@[k])@)
                    &&& bins@[k]@.to_multiset() == old(bins)@[k]@.to_multiset()
                },
            forall|k: int| b <= k < n ==> (#[trigger] bins@[k]) == old(bins)@[k],
        decreases n - b,
    {
        sort_values(&mut bins[b]);
        b += 1;
    }
}

} // verus!
