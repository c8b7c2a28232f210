//! The hybrid quicksort engine: median-of-three pivot, a two-pointer
//! partition, and insertion sort on small ranges.

use vstd::prelude::*;
use crate::insertion::{insertion_sort, swap_elements, THRESHOLD};
use crate::order::{
    all_at_least, all_at_most, is_sorting_of, lemma_same_elements_at_least,
    lemma_same_elements_at_most, lemma_same_elements_concat, lemma_sorted_concat,
    lemma_sorting_is_sorted_form, lemma_swap_same_elements, same_elements, same_outside,
    sorted_form, swapped,
};

verus! {

/// The pivot that the comparison chain picks among three values: `middle`
/// where it lies strictly between the other two, else `last` where it does,
/// else `first`.
pub open spec fn median_of_three(first: i64, middle: i64, last: i64) -> i64 {
    if (middle < first && middle > last) || (middle > first && middle < last) {
        middle
    } else if (last < first && last > middle) || (last > first && last < middle) {
        last
    } else {
        first
    }
}

/// Where a cursor that moves up from `from` stops: at the first element that
/// is not less than the pivot, or behind the last element.
pub open spec fn first_not_below(s: Seq<i64>, from: int, pivot: i64) -> int
    decreases s.len() - from,
{
    if 0 <= from < s.len() && s[from] < pivot {
        first_not_below(s, from + 1, pivot)
    } else {
        from
    }
}

/// Where a cursor that moves down from `from` stops: at the first element
/// that is not greater than the pivot, or at index 0.
pub open spec fn last_not_above(s: Seq<i64>, from: int, pivot: i64) -> int
    decreases from,
{
    if 0 < from < s.len() && s[from] > pivot {
        last_not_above(s, from - 1, pivot)
    } else {
        from
    }
}

/// A cursor that moves up stops at or after where it started.
pub proof fn lemma_first_not_below(s: Seq<i64>, from: int, pivot: i64)
    ensures
        from <= first_not_below(s, from, pivot),
    decreases s.len() - from,
{
    if 0 <= from < s.len() && s[from] < pivot {
        lemma_first_not_below(s, from + 1, pivot);
    }
}

/// A cursor that moves down stops at or before where it started.
pub proof fn lemma_last_not_above(s: Seq<i64>, from: int, pivot: i64)
    ensures
        last_not_above(s, from, pivot) <= from,
    decreases from,
{
    if 0 < from < s.len() && s[from] > pivot {
        lemma_last_not_above(s, from - 1, pivot);
    }
}

/// The sequence and the split that the two cursors leave, starting at `i`
/// and `j`. While they have not passed each other, each moves to where it
/// stops; where the upper one then stands before the lower one nothing more
/// changes, else the two elements are exchanged and both cursors step on.
pub open spec fn partitioned(s: Seq<i64>, i: int, j: int, pivot: i64) -> (Seq<i64>, int)
    decreases j - i + 2,
{
    if i > j {
        (s, i)
    } else {
        let up = first_not_below(s, i, pivot);
        let down = last_not_above(s, j, pivot);
        if up > down {
            (s, up)
        } else if down == 0 {
            (swapped(s, up, down), up + 1)
        } else {
            proof {
                lemma_first_not_below(s, i, pivot);
                lemma_last_not_above(s, j, pivot);
            }
            partitioned(swapped(s, up, down), up + 1, down - 1, pivot)
        }
    }
}

/// The pivot is one of the three values. Where the three differ from each
/// other it is the one strictly between the other two; where none lies
/// strictly between the other two it is `first`.
pub proof fn lemma_median_of_three(first: i64, middle: i64, last: i64)
    ensures
        ({
            let med = median_of_three(first, middle, last);
            &&& med == first || med == middle || med == last
            &&& first != middle && middle != last && first != last ==> {
                ||| med == first && (middle < first < last || last < first < middle)
                ||| med == middle && (first < middle < last || last < middle < first)
                ||| med == last && (first < last < middle || middle < last < first)
            }
            &&& !(first < middle < last) && !(last < middle < first) && !(first < last < middle)
                && !(middle < last < first) ==> med == first
        }),
{
}

/// In a range of two or more elements the median-of-three pivot occurs, and
/// some element before the last is at least as large: the partition then
/// leaves two parts that are both non-empty.
pub proof fn lemma_median_pivot_splits_inside(s: Seq<i64>, left: int, right: int)
    requires
        0 <= left < right < s.len(),
    ensures
        ({
            let middle = left + (right - left + 1) / 2;
            let pivot = median_of_three(s[left], s[middle], s[right]);
            &&& left < middle <= right
            &&& s[left] == pivot || s[middle] == pivot || s[right] == pivot
            &&& exists|k: int| left <= k <= right && s[k] == pivot
            &&& exists|k: int| left <= k < right && s[k] >= pivot
        }),
{
    let middle = left + (right - left + 1) / 2;
    let pivot = median_of_three(s[left], s[middle], s[right]);
    if s[left] >= pivot {
        assert(left <= left < right && s[left] >= pivot);
    } else {
        // The pivot is greater than the first element, so it lies strictly
        // between two of the three: the middle element is not the last one,
        // and it is at least the pivot.
        assert(middle < right);
        assert(left <= middle < right && s[middle] >= pivot);
    }
}

/// The pivot value of a non-empty range: what `median_of_three` picks among
/// its first, middle and last elements.
pub fn choose_pivot_value(list: &[i64]) -> (med: i64)
    requires
        list@.len() > 0,
    ensures
        med == median_of_three(list@[0], list@[list@.len() as int / 2], list@[list@.len() - 1]),
{
    let first: i64 = list[0];
    let middle: i64 = list[list.len() / 2];
    let last: i64 = list[list.len() - 1];

    let mut med: i64 = first;
    if middle < first && middle > last || middle > first && middle < last {
        med = middle;
    } else if last < first && last > middle || last > first && last < middle {
        med = last;
    }
    med
}

/// Rearranges the range `left..=right` around `pivot_val` and returns the
/// index at which it splits.
///
/// Two cursors move towards each other from the ends of the range: the left
/// one passes elements strictly less than the pivot, the right one elements
/// strictly greater, and where both have stopped the two elements are
/// exchanged; `partitioned` follows them step by step. The pivot value has
/// to occur in the range. Afterwards no element before the split is greater
/// than the pivot and none from the split on is less. The split lies after
/// `left`; it lies within the range where some element before `right` is at
/// least the pivot.
pub fn partition(list: &mut [i64], left: usize, right: usize, pivot_val: i64) -> (split: usize)
    requires
        left <= right < old(list)@.len(),
        exists|k: int| left <= k <= right && old(list)@[k] == pivot_val,
    ensures
        (final(list)@, split as int) == partitioned(
            old(list)@,
            left as int,
            right as int,
            pivot_val,
        ),
        same_outside(old(list)@, final(list)@, left as int, right as int),
        same_elements(
            final(list)@.subrange(left as int, right + 1),
            old(list)@.subrange(left as int, right + 1),
        ),
        left < split <= right + 1,
        all_at_most(final(list)@.subrange(left as int, split as int), pivot_val),
        all_at_least(final(list)@.subrange(split as int, right + 1), pivot_val),
        (exists|k: int| left <= k < right && old(list)@[k] >= pivot_val) ==> split <= right,
{
    let ghost early = exists|k: int| left <= k < right && old(list)@[k] >= pivot_val;
    let ghost at_pivot = choose|k: int| left <= k <= right && old(list)@[k] == pivot_val;
    // `stop_i` holds an element that the left cursor cannot pass, `stop_j`
    // one that the right cursor cannot pass.
    let ghost mut stop_i: int = at_pivot;
    let ghost mut stop_j: int = at_pivot;
    let ghost mut first: bool = true;
    let ghost goal = partitioned(old(list)@, left as int, right as int, pivot_val);
    proof {
        if early {
            let at_early = choose|k: int| left <= k < right && old(list)@[k] >= pivot_val;
            if at_early < at_pivot {
                stop_i = at_early;
            }
        }
    }

    let mut i: usize = left;
    let mut j: usize = right;
    while i <= j
        invariant
            left <= right < list@.len(),
            left <= i <= right + 1,
            j <= right,
            same_outside(old(list)@, list@, left as int, right as int),
            same_elements(
                list@.subrange(left as int, right + 1),
                old(list)@.subrange(left as int, right + 1),
            ),
            forall|k: int| left <= k < i ==> list@[k] <= pivot_val,
            forall|k: int| j < k <= right ==> list@[k] >= pivot_val,
            i <= j ==> i <= stop_i <= right && list@[stop_i] >= pivot_val,
            i <= j ==> left <= stop_j <= j && list@[stop_j] <= pivot_val,
            first ==> i == left && j == right && stop_i <= stop_j && (early ==> stop_i < right),
            !first ==> left < i && (i > j || j < right),
            early ==> i <= right,
            i <= j ==> partitioned(list@, i as int, j as int, pivot_val) == goal,
            i > j ==> (list@, i as int) == goal,
        ensures
            i > j,
        decreases right + 1 - i + (if i <= j { 1int } else { 0int }),
    {
        let ghost i_before = i;
        while list[i] < pivot_val
            invariant
                right < list@.len(),
                left <= i_before <= i <= stop_i <= right,
                !first ==> left < i,
                first_not_below(list@, i as int, pivot_val) == first_not_below(
                    list@,
                    i_before as int,
                    pivot_val,
                ),
                list@[stop_i] >= pivot_val,
                forall|k: int| left <= k < i ==> list@[k] <= pivot_val,
            decreases stop_i - i,
        {
            i += 1;
        }
        let ghost j_before = j;
        while list[j] > pivot_val
            invariant
                right < list@.len(),
                left <= stop_j <= j <= right,
                !first ==> j < right,
                last_not_above(list@, j as int, pivot_val) == last_not_above(
                    list@,
                    j_before as int,
                    pivot_val,
                ),
                list@[stop_j] <= pivot_val,
                forall|k: int| j < k <= right ==> list@[k] >= pivot_val,
            ensures
                list@[j as int] <= pivot_val,
            decreases j,
        {
            if j == 0 {
                break;
            }
            j -= 1;
        }
        if i <= j {
            proof {
                let range = list@.subrange(left as int, right + 1);
                lemma_swap_same_elements(range, i - left, j - left);
                assert(swapped(list@, i as int, j as int).subrange(left as int, right + 1)
                    =~= swapped(range, i - left, j - left));
                stop_i = j as int;
                stop_j = i as int;
                first = false;
            }
            swap_elements(list, i, j);
            i += 1;
            if j == 0 {
                break;
            }
            j -= 1;
        }
        proof {
            assert(partitioned(list@, i as int, j as int, pivot_val) == goal);
        }
    }
    i
}

/// Sorts the range `left..=right` in place and leaves the rest untouched.
///
/// A range of at most `THRESHOLD` elements goes to insertion sort. A longer
/// one is partitioned around its median-of-three pivot, and both parts are
/// sorted in turn.
pub fn quick_sort_runner(list: &mut [i64], left: usize, right: usize)
    requires
        left <= right < old(list)@.len(),
    ensures
        same_outside(old(list)@, final(list)@, left as int, right as int),
        is_sorting_of(
            final(list)@.subrange(left as int, right + 1),
            old(list)@.subrange(left as int, right + 1),
        ),
        final(list)@.subrange(left as int, right + 1) == sorted_form(
            old(list)@.subrange(left as int, right + 1),
        ),
    decreases right - left,
{
    proof {
        vstd::slice::axiom_spec_len(list);
    }
    let ghost before = list@;
    if right - left < THRESHOLD {
        let (head, _tail) = list.split_at_mut(right + 1);
        let (_before, range) = head.split_at_mut(left);
        insertion_sort(range);
        proof {
            assert(before.subrange(0, right + 1).subrange(left as int, right + 1)
                =~= before.subrange(left as int, right + 1));
            assert(list@.subrange(left as int, right + 1) =~= range@);
        }
    } else {
        let pivot_val = choose_pivot_value(&list[left..right + 1]);
        proof {
            let range = before.subrange(left as int, right + 1);
            assert(range[0] == before[left as int]);
            assert(range[(right + 1 - left) / 2] == before[left + (right + 1 - left) / 2]);
            assert(range[right - left] == before[right as int]);
            lemma_median_pivot_splits_inside(before, left as int, right as int);
        }
        let partition_idx = partition(list, left, right, pivot_val);
        let ghost parted = list@;
        if partition_idx > 0 {
            quick_sort_runner(list, left, partition_idx - 1);
        }
        let ghost half = list@;
        quick_sort_runner(list, partition_idx, right);
        proof {
            let split = partition_idx as int;
            let low = list@.subrange(left as int, split);
            let high = list@.subrange(split, right + 1);
            assert(low =~= half.subrange(left as int, split));
            assert(parted.subrange(split, right + 1) =~= half.subrange(split, right + 1));
            lemma_same_elements_at_most(parted.subrange(left as int, split), low, pivot_val);
            lemma_same_elements_at_least(parted.subrange(split, right + 1), high, pivot_val);
            lemma_sorted_concat(low, high, pivot_val);
            lemma_same_elements_concat(
                low,
                high,
                parted.subrange(left as int, split),
                parted.subrange(split, right + 1),
            );
            assert(list@.subrange(left as int, right + 1) =~= low + high);
            assert(parted.subrange(left as int, right + 1) =~= parted.subrange(left as int, split)
                + parted.subrange(split, right + 1));
        }
    }
    proof {
        lemma_sorting_is_sorted_form(
            before.subrange(left as int, right + 1),
            list@.subrange(left as int, right + 1),
        );
    }
}

} // verus!
