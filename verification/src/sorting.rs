//! Sorting of degree values by merging.

use vstd::prelude::*;
use vstd::relations::sorted_by;
use vstd::seq_lib::lemma_multiset_commutative;
use vstd::seq_lib::lemma_sorted_unique;
use vstd::seq_lib::to_multiset_build;

verus! {

/// The usual order on degree values.
pub open spec fn at_most() -> spec_fn(usize, usize) -> bool {
    |a: usize, b: usize| a <= b
}

/// The values rearranged in ascending order.
pub open spec fn ascending(values: Seq<usize>) -> Seq<usize> {
    values.sort_by(at_most())
}

/// Whether the values stand in ascending order.
pub open spec fn is_ascending(values: Seq<usize>) -> bool {
    forall|i: int, j: int| 0 <= i < j < values.len() ==> values[i] <= values[j]
}

/// The ascending rearrangement stands in ascending order and holds the
/// same values, each as often as it was given.
pub proof fn lemma_ascending(values: Seq<usize>)
    ensures
        is_ascending(ascending(values)),
        ascending(values).len() == values.len(),
        ascending(values).to_multiset() == values.to_multiset(),
{
    broadcast use vstd::seq_lib::group_to_multiset_ensures;

    let sorted = ascending(values);
    values.lemma_sort_by_ensures(at_most());
    sorted.to_multiset_ensures();
    values.to_multiset_ensures();
    assert forall|i: int, j: int| 0 <= i < j < sorted.len() implies sorted[i] <= sorted[j] by {
        assert(at_most()(sorted[i], sorted[j]));
    }
}

/// There is only one ascending rearrangement of the values.
pub proof fn lemma_ascending_unique(values: Seq<usize>, sorted: Seq<usize>)
    requires
        sorted.to_multiset() == values.to_multiset(),
        is_ascending(sorted),
    ensures
        ascending(values) == sorted,
{
    assert(sorted_by(sorted, at_most()));
    values.lemma_sort_by_ensures(at_most());
    lemma_sorted_unique(sorted, ascending(values), at_most());
}

/// Merges two ascending runs into one.
fn merge(left: &Vec<usize>, right: &Vec<usize>) -> (merged: Vec<usize>)
    requires
        is_ascending(left@),
        is_ascending(right@),
        left@.len() + right@.len() <= usize::MAX,
    ensures
        is_ascending(merged@),
        merged@.len() == left@.len() + right@.len(),
        merged@.to_multiset() == left@.to_multiset().add(right@.to_multiset()),
{
    broadcast use vstd::seq_lib::group_to_multiset_ensures;

    let mut merged: Vec<usize> = Vec::new();
    let mut i: usize = 0;
    let mut j: usize = 0;
    proof {
        assert(merged@.to_multiset() =~= left@.take(0).to_multiset().add(
            right@.take(0).to_multiset(),
        ));
    }
    while i < left.len() || j < right.len()
        invariant
            i <= left.len(),
            j <= right.len(),
            is_ascending(left@),
            is_ascending(right@),
            is_ascending(merged@),
            merged@.len() == i + j,
            merged@.to_multiset() == left@.take(i as int).to_multiset().add(
                right@.take(j as int).to_multiset(),
            ),
            forall|k: int| 0 <= k < merged@.len() && i < left.len() ==> merged@[k] <= left@[i as int],
            forall|k: int|
                0 <= k < merged@.len() && j < right.len() ==> merged@[k] <= right@[j as int],
        decreases left.len() - i + right.len() - j,
    {
        let ghost before = merged@;
        if j >= right.len() || (i < left.len() && left[i] <= right[j]) {
            merged.push(left[i]);
            proof {
                assert(merged@ =~= before.push(left@[i as int]));
                assert(left@.take(i + 1) =~= left@.take(i as int).push(left@[i as int]));
                to_multiset_build(before, left@[i as int]);
                to_multiset_build(left@.take(i as int), left@[i as int]);
                assert(merged@.to_multiset() =~= left@.take(i + 1).to_multiset().add(
                    right@.take(j as int).to_multiset(),
                ));
            }
            i = i + 1;
        } else {
            merged.push(right[j]);
            proof {
                assert(merged@ =~= before.push(right@[j as int]));
                assert(right@.take(j + 1) =~= right@.take(j as int).push(right@[j as int]));
                to_multiset_build(before, right@[j as int]);
                to_multiset_build(right@.take(j as int), right@[j as int]);
                assert(merged@.to_multiset() =~= left@.take(i as int).to_multiset().add(
                    right@.take(j + 1).to_multiset(),
                ));
            }
            j = j + 1;
        }
    }
    proof {
        assert(left@.take(i as int) =~= left@);
        assert(right@.take(j as int) =~= right@);
    }
    merged
}

/// The values in ascending order, each as often as it was given.
fn merge_sort(values: &Vec<usize>) -> (sorted: Vec<usize>)
    ensures
        is_ascending(sorted@),
        sorted@.len() == values@.len(),
        sorted@.to_multiset() == values@.to_multiset(),
    decreases values@.len(),
{
    broadcast use vstd::seq_lib::group_to_multiset_ensures;

    let total: usize = values.len();
    if total <= 1 {
        let mut copy: Vec<usize> = Vec::new();
        if total == 1 {
            copy.push(values[0]);
        }
        assert(copy@ =~= values@);
        return copy;
    }
    let mid: usize = total / 2;
    let mut left: Vec<usize> = Vec::new();
    let mut right: Vec<usize> = Vec::new();
    let mut k: usize = 0;
    while k < total
        invariant
            k <= total,
            total == values@.len(),
            mid == total / 2,
            left@ == values@.take(if k <= mid { k as int } else { mid as int }),
            right@ == values@.subrange(mid as int, if k <= mid { mid as int } else { k as int }),
        decreases total - k,
    {
        if k < mid {
            left.push(values[k]);
            assert(left@ =~= values@.take(k + 1));
            assert(right@ =~= values@.subrange(mid as int, mid as int));
        } else {
            right.push(values[k]);
            assert(right@ =~= values@.subrange(mid as int, k + 1));
        }
        k = k + 1;
    }
    proof {
        assert(left@ =~= values@.take(mid as int));
        assert(right@ =~= values@.subrange(mid as int, total as int));
        assert(left@ + right@ =~= values@);
        lemma_multiset_commutative(left@, right@);
    }
    let left_sorted = merge_sort(&left);
    let right_sorted = merge_sort(&right);
    merge(&left_sorted, &right_sorted)
}

/// The values rearranged in ascending order.
pub fn sort_ascending(values: &Vec<usize>) -> (sorted: Vec<usize>)
    ensures
        sorted@ == ascending(values@),
        is_ascending(sorted@),
        sorted@.len() == values@.len(),
        sorted@.to_multiset() == values@.to_multiset(),
{
    let sorted = merge_sort(values);
    proof {
        lemma_ascending_unique(values@, sorted@);
    }
    sorted
}

} // verus!
