//! Descriptive statistics over a table of degree values.

use crate::id_table::IdTable;
use crate::sorting::ascending;
use crate::sorting::is_ascending;
use crate::sorting::sort_ascending;
use vstd::prelude::*;

verus! {

/// The upper bounds of the degree bands, ascending.
pub open spec fn thresholds() -> Seq<usize> {
    seq![
        100usize,
        250usize,
        500usize,
        750usize,
        1000usize,
        1250usize,
        1500usize,
        1750usize,
        2000usize,
    ]
}

/// The sum of the values.
pub open spec fn total(values: Seq<usize>) -> nat
    decreases values.len(),
{
    if values.len() == 0 {
        0
    } else {
        (total(values.drop_last()) + values.last()) as nat
    }
}

/// How many of the values are no greater than `limit`.
pub open spec fn count_up_to(values: Seq<usize>, limit: usize) -> nat
    decreases values.len(),
{
    if values.len() == 0 {
        0
    } else {
        count_up_to(values.drop_last(), limit) + if values.last() <= limit {
            1nat
        } else {
            0nat
        }
    }
}

/// The median of values already in ascending order: the middle one, or for
/// an even count the two middle ones' sum halved, rounding down.
pub open spec fn median_of(sorted: Seq<usize>) -> int
    recommends
        sorted.len() > 0,
{
    let mid = (sorted.len() / 2) as int;
    if sorted.len() % 2 == 0 {
        (sorted[mid - 1] + sorted[mid]) / 2
    } else {
        sorted[mid] as int
    }
}

/// How many of the values fall in band `i`: above the previous threshold
/// (if there is one) and no greater than threshold `i`.
pub open spec fn band_count(values: Seq<usize>, i: int) -> int
    recommends
        0 <= i < thresholds().len(),
{
    if i == 0 {
        count_up_to(values, thresholds()[0]) as int
    } else {
        count_up_to(values, thresholds()[i]) - count_up_to(values, thresholds()[i - 1])
    }
}

/// The sum of the first `n` band counts.
pub open spec fn bands_total(values: Seq<usize>, n: int) -> int
    decreases n,
{
    if n <= 0 {
        0
    } else {
        bands_total(values, n - 1) + band_count(values, n - 1)
    }
}

/// Summary of a non-empty collection of degree values, in whole numbers.
///
/// The mean is `sum / count`; the share of band `i` is its count over
/// `count`. Both are left to the caller, who chooses the number format.
#[derive(Debug)]
pub struct DegreeStatistics {
    /// Smallest value.
    pub min: usize,
    /// Largest value.
    pub max: usize,
    /// Sum of all values.
    pub sum: u128,
    /// Number of values.
    pub count: usize,
    /// Median, rounded down when the count is even.
    pub median: usize,
    /// For each threshold in ascending order, the threshold and the number
    /// of values in its band.
    pub bands: Vec<(usize, usize)>,
}

impl DegreeStatistics {
    /// Whether this summary is the one that belongs to `values`.
    pub open spec fn describes(&self, values: Seq<usize>) -> bool {
        &&& values.len() > 0
        &&& values.contains(self.min)
        &&& forall|i: int| 0 <= i < values.len() ==> self.min <= #[trigger] values[i]
        &&& values.contains(self.max)
        &&& forall|i: int| 0 <= i < values.len() ==> #[trigger] values[i] <= self.max
        &&& self.sum == total(values)
        &&& self.count == values.len()
        &&& self.median == median_of(ascending(values))
        &&& self.bands@.len() == thresholds().len()
        &&& forall|i: int|
            0 <= i < thresholds().len() ==> (#[trigger] self.bands@[i]).0 == thresholds()[i]
                && self.bands@[i].1 == band_count(values, i)
    }
}

/// Counting up to a limit never exceeds the number of values and grows with
/// the limit.
pub proof fn lemma_count_up_to_monotone(values: Seq<usize>, low: usize, high: usize)
    requires
        low <= high,
    ensures
        count_up_to(values, low) <= count_up_to(values, high) <= values.len(),
    decreases values.len(),
{
    if values.len() > 0 {
        lemma_count_up_to_monotone(values.drop_last(), low, high);
    }
}

/// The first `n` band counts add up to the number of values no greater
/// than the last of the first `n` thresholds.
proof fn lemma_bands_total(values: Seq<usize>, n: int)
    requires
        1 <= n <= thresholds().len(),
    ensures
        bands_total(values, n) == count_up_to(values, thresholds()[n - 1]),
    decreases n,
{
    if n > 1 {
        lemma_bands_total(values, n - 1);
    } else {
        assert(bands_total(values, 0) == 0);
    }
}

/// No band count is negative, and together the bands hold exactly the
/// values that are no greater than the last threshold.
pub proof fn lemma_bands_partition(values: Seq<usize>)
    ensures
        forall|i: int| 0 <= i < thresholds().len() ==> #[trigger] band_count(values, i) >= 0,
        bands_total(values, thresholds().len() as int) == count_up_to(
            values,
            thresholds().last(),
        ),
{
    assert forall|i: int| 0 <= i < thresholds().len() implies #[trigger] band_count(values, i)
        >= 0 by {
        if i > 0 {
            lemma_count_up_to_monotone(values, thresholds()[i - 1], thresholds()[i]);
        }
    }
    lemma_bands_total(values, thresholds().len() as int);
}

/// A sum of `n` machine words stays below `n` times the largest word.
proof fn lemma_total_bound(values: Seq<usize>)
    ensures
        total(values) <= values.len() * usize::MAX,
    decreases values.len(),
{
    if values.len() > 0 {
        lemma_total_bound(values.drop_last());
        assert((values.len() - 1) * usize::MAX + usize::MAX == values.len() * usize::MAX)
            by (nonlinear_arith);
    }
}

/// In an ascending arrangement of `values` the first entry is their
/// smallest and the last their largest.
proof fn lemma_extremes(values: Seq<usize>, sorted: Seq<usize>)
    requires
        values.len() > 0,
        sorted.to_multiset() == values.to_multiset(),
        is_ascending(sorted),
    ensures
        sorted.len() == values.len(),
        values.contains(sorted.first()),
        values.contains(sorted.last()),
        forall|i: int| 0 <= i < values.len() ==> sorted.first() <= #[trigger] values[i],
        forall|i: int| 0 <= i < values.len() ==> #[trigger] values[i] <= sorted.last(),
{
    broadcast use vstd::seq_lib::group_to_multiset_ensures;

    sorted.to_multiset_ensures();
    values.to_multiset_ensures();
    assert(sorted.len() == values.len());
    assert(sorted.to_multiset().count(sorted.first()) > 0);
    assert(sorted.to_multiset().count(sorted.last()) > 0);
    assert forall|i: int| 0 <= i < values.len() implies sorted.first() <= #[trigger] values[i]
        && values[i] <= sorted.last() by {
        assert(values.to_multiset().count(values[i]) > 0);
        assert(sorted.contains(values[i]));
        let j = choose|j: int| 0 <= j < sorted.len() && sorted[j] == values[i];
        assert(sorted[0] <= sorted[j] <= sorted[sorted.len() - 1]);
    }
}

/// Counts the values no greater than `limit`.
fn count_values_up_to(values: &Vec<usize>, limit: usize) -> (count: usize)
    ensures
        count == count_up_to(values@, limit),
{
    let mut count: usize = 0;
    let mut i: usize = 0;
    while i < values.len()
        invariant
            i <= values.len(),
            count == count_up_to(values@.take(i as int), limit),
            count <= i,
        decreases values.len() - i,
    {
        proof {
            assert(values@.take(i + 1).drop_last() =~= values@.take(i as int));
        }
        if values[i] <= limit {
            count = count + 1;
        }
        i = i + 1;
    }
    proof {
        assert(values@.take(i as int) =~= values@);
    }
    count
}

/// Summarises the degree values of a table: smallest, largest, sum, count,
/// median and the number of values in each threshold band. An empty table
/// has no summary.
pub fn calculate_statistics(degrees: &IdTable<usize>) -> (summary: Option<DegreeStatistics>)
    ensures
        summary.is_none() <==> degrees.values().len() == 0,
        summary matches Some(s) ==> s.describes(degrees.values()),
{
    let count: usize = degrees.len();
    let ghost values = degrees.values();
    proof {
        use_type_invariant(degrees);
        degrees.lemma_columns();
    }
    if count == 0 {
        return None;
    }
    let mut copied: Vec<usize> = Vec::new();
    let mut sum: u128 = 0;
    let mut i: usize = 0;
    while i < count
        invariant
            i <= count,
            count == values.len(),
            count == degrees.ids().len(),
            values == degrees.values(),
            copied@ == values.take(i as int),
            sum == total(copied@),
        decreases count - i,
    {
        let value: usize = *degrees.value_at(i);
        proof {
            lemma_total_bound(copied@);
            assert(values.take(i + 1).drop_last() =~= values.take(i as int));
            assert(i * usize::MAX + usize::MAX <= u128::MAX) by (nonlinear_arith)
                requires
                    i < usize::MAX,
                    usize::MAX <= 0xffff_ffff_ffff_ffff,
            ;
        }
        sum = sum + value as u128;
        copied.push(value);
        i = i + 1;
        proof {
            assert(copied@ =~= values.take(i as int));
        }
    }
    proof {
        assert(values.take(i as int) =~= values);
    }
    let sorted: Vec<usize> = sort_ascending(&copied);
    proof {
        lemma_extremes(values, sorted@);
    }
    let min: usize = sorted[0];
    let max: usize = sorted[count - 1];
    let mid: usize = count / 2;
    let median: usize = if count % 2 == 0 {
        ((sorted[mid - 1] as u128 + sorted[mid] as u128) / 2) as usize
    } else {
        sorted[mid]
    };
    let limits: [usize; 9] = [100, 250, 500, 750, 1000, 1250, 1500, 1750, 2000];
    proof {
        assert(limits@ =~= thresholds());
    }
    let mut bands: Vec<(usize, usize)> = Vec::new();
    let mut below: usize = 0;
    let mut b: usize = 0;
    while b < 9
        invariant
            b <= 9,
            limits@ == thresholds(),
            copied@ == values,
            bands@.len() == b,
            b > 0 ==> below == count_up_to(values, thresholds()[b - 1]),
            b == 0 ==> below == 0,
            forall|k: int|
                0 <= k < b ==> (#[trigger] bands@[k]).0 == thresholds()[k] && bands@[k].1
                    == band_count(values, k),
        decreases 9 - b,
    {
        let limit: usize = limits[b];
        let upto: usize = count_values_up_to(&copied, limit);
        proof {
            if b > 0 {
                lemma_count_up_to_monotone(values, thresholds()[b - 1], limit);
            }
        }
        bands.push((limit, upto - below));
        below = upto;
        b = b + 1;
    }
    Some(DegreeStatistics { min, max, sum, count, median, bands })
}

} // verus!
