//! The hybrid merge sort engine: top-down halving, one scratch buffer shared
//! by all levels, insertion sort on small ranges, and no merge where the two
//! sorted halves are already in order.

use vstd::prelude::*;
use vstd::seq_lib::{to_multiset_build, to_multiset_insert};
use crate::insertion::{insertion_sort, THRESHOLD};
use crate::order::{
    is_sorted, is_sorting_of, lemma_same_elements_concat, lemma_sorted_form,
    lemma_sorting_is_sorted_form, same_elements, sorted_form,
};
use crate::stable::{
    is_stable_rearrangement, keeps_equal_in_order, lemma_stable_compose, lemma_stable_concat,
    lemma_stable_identity,
};

verus! {

/// What the scratch buffer holds after `s` has been sorted with it.
///
/// A sequence of at most `THRESHOLD` elements leaves it alone. A longer one
/// hands it to the sorting of each half in turn; where the sorted halves are
/// in order nothing more is written, else the front of the buffer holds the
/// sorted sequence.
pub open spec fn scratch_after(s: Seq<i64>, buffer: Seq<i64>) -> Seq<i64>
    decreases s.len(),
{
    if s.len() <= THRESHOLD {
        buffer
    } else {
        let mid = s.len() as int / 2;
        let low = s.subrange(0, mid);
        let high = s.subrange(mid, s.len() as int);
        let used = scratch_after(high, scratch_after(low, buffer));
        if sorted_form(low).last() <= sorted_form(high).first() {
            used
        } else {
            sorted_form(s) + used.subrange(s.len() as int, used.len() as int)
        }
    }
}

/// Sorting with a scratch buffer leaves the buffer's length as it is.
pub proof fn lemma_scratch_after_len(s: Seq<i64>, buffer: Seq<i64>)
    requires
        buffer.len() >= s.len(),
    ensures
        scratch_after(s, buffer).len() == buffer.len(),
    decreases s.len(),
{
    if s.len() > THRESHOLD {
        let mid = s.len() as int / 2;
        let low = s.subrange(0, mid);
        let high = s.subrange(mid, s.len() as int);
        lemma_scratch_after_len(low, buffer);
        lemma_scratch_after_len(high, scratch_after(low, buffer));
        lemma_sorted_form(s);
    }
}

/// The state of a merge that has taken `l` elements of `left` and `r` of
/// `right`: the first `l + r` slots of `result` hold exactly those, in order,
/// and none of them is greater than anything still to come.
spec fn merged_so_far(
    result: Seq<i64>,
    left: Seq<i64>,
    right: Seq<i64>,
    l: int,
    r: int,
) -> bool {
    &&& 0 <= l <= left.len()
    &&& 0 <= r <= right.len()
    &&& l + r <= result.len()
    &&& is_sorted(result.subrange(0, l + r))
    &&& same_elements(result.subrange(0, l + r), left.subrange(0, l) + right.subrange(0, r))
    &&& forall|k: int, a: int| 0 <= k < l + r && l <= a < left.len() ==> result[k] <= left[a]
    &&& forall|k: int, b: int| 0 <= k < l + r && r <= b < right.len() ==> result[k] <= right[b]
}

/// Where the slots of a merge that has taken `l` elements of `left` and `r`
/// of `right` came from. An origin below the length of `left` is an index
/// into `left`, one from there on that length plus an index into `right`.
/// Equal values stand in the order of their origins, and what came from
/// `right` is strictly less than all that is left of `left`.
spec fn merge_origins(
    result: Seq<i64>,
    left: Seq<i64>,
    right: Seq<i64>,
    l: int,
    r: int,
    from: Seq<int>,
) -> bool {
    &&& from.len() == l + r
    &&& forall|k: int|
        0 <= k < l + r ==> {
            ||| 0 <= #[trigger] from[k] < l && result[k] == left[from[k]]
            ||| left.len() <= from[k] < left.len() + r && result[k] == right[from[k] - left.len()]
        }
    &&& forall|i: int, j: int|
        0 <= i < j < l + r && result[i] == result[j] ==> #[trigger] from[i] < #[trigger] from[j]
    &&& forall|k: int, a: int|
        0 <= k < l + r && #[trigger] from[k] >= left.len() && l <= a < left.len() ==> result[k]
            < #[trigger] left[a]
}

/// Taking the front of `left` keeps the merge state, where that front is at
/// most the front of `right` or `right` has run out.
proof fn lemma_take_left(result: Seq<i64>, left: Seq<i64>, right: Seq<i64>, l: int, r: int)
    requires
        is_sorted(left),
        merged_so_far(result, left, right, l, r),
        l < left.len(),
        l + r < result.len(),
        r < right.len() ==> left[l] <= right[r],
        is_sorted(right),
    ensures
        merged_so_far(result.update(l + r, left[l]), left, right, l + 1, r),
{
    let next = result.update(l + r, left[l]);
    let done = result.subrange(0, l + r);
    assert(next.subrange(0, l + r + 1) =~= done.push(left[l]));
    assert(left.subrange(0, l + 1) + right.subrange(0, r) =~= (left.subrange(0, l)
        + right.subrange(0, r)).insert(l, left[l]));
    to_multiset_insert(left.subrange(0, l) + right.subrange(0, r), l, left[l]);
    to_multiset_build(done, left[l]);
}

/// Taking the front of `right` keeps the merge state, where that front is
/// less than the front of `left` or `left` has run out.
proof fn lemma_take_right(result: Seq<i64>, left: Seq<i64>, right: Seq<i64>, l: int, r: int)
    requires
        is_sorted(left),
        is_sorted(right),
        merged_so_far(result, left, right, l, r),
        r < right.len(),
        l + r < result.len(),
        l < left.len() ==> right[r] < left[l],
    ensures
        merged_so_far(result.update(l + r, right[r]), left, right, l, r + 1),
{
    let next = result.update(l + r, right[r]);
    let done = result.subrange(0, l + r);
    assert(next.subrange(0, l + r + 1) =~= done.push(right[r]));
    assert(left.subrange(0, l) + right.subrange(0, r + 1) =~= (left.subrange(0, l)
        + right.subrange(0, r)).push(right[r]));
    to_multiset_build(left.subrange(0, l) + right.subrange(0, r), right[r]);
    to_multiset_build(done, right[r]);
}

/// Taking the front of `left` keeps the record of origins.
proof fn lemma_origin_left(
    result: Seq<i64>,
    left: Seq<i64>,
    right: Seq<i64>,
    l: int,
    r: int,
    from: Seq<int>,
)
    requires
        merge_origins(result, left, right, l, r, from),
        0 <= l < left.len(),
        0 <= r <= right.len(),
        l + r < result.len(),
    ensures
        merge_origins(result.update(l + r, left[l]), left, right, l + 1, r, from.push(l)),
{
}

/// Taking the front of `right`, strictly less than what is left of `left`,
/// keeps the record of origins.
proof fn lemma_origin_right(
    result: Seq<i64>,
    left: Seq<i64>,
    right: Seq<i64>,
    l: int,
    r: int,
    from: Seq<int>,
)
    requires
        is_sorted(left),
        merge_origins(result, left, right, l, r, from),
        0 <= l <= left.len(),
        0 <= r < right.len(),
        l + r < result.len(),
        l < left.len() ==> right[r] < left[l],
    ensures
        merge_origins(
            result.update(l + r, right[r]),
            left,
            right,
            l,
            r + 1,
            from.push(left.len() + r),
        ),
{
}

/// The origins of a finished merge show that it kept equal values in order.
proof fn lemma_origins_stable(
    result: Seq<i64>,
    left: Seq<i64>,
    right: Seq<i64>,
    from: Seq<int>,
)
    requires
        result.len() == left.len() + right.len(),
        merge_origins(result, left, right, left.len() as int, right.len() as int, from),
    ensures
        is_stable_rearrangement(left + right, result, from),
        keeps_equal_in_order(left + right, result),
{
    let joined = left + right;
    assert forall|i: int| 0 <= i < from.len() implies 0 <= #[trigger] from[i] < joined.len()
        && result[i] == joined[from[i]] by {
        if from[i] < left.len() {
            assert(joined[from[i]] == left[from[i]]);
        } else {
            assert(joined[from[i]] == right[from[i] - left.len()]);
        }
    }
}

/// A sequence whose two parts are sorted, the first ending at or below where
/// the second begins, is sorted.
proof fn lemma_sorted_halves(s: Seq<i64>, mid: int)
    requires
        0 < mid < s.len(),
        is_sorted(s.subrange(0, mid)),
        is_sorted(s.subrange(mid, s.len() as int)),
        s[mid - 1] <= s[mid],
    ensures
        is_sorted(s),
{
    let low = s.subrange(0, mid);
    let high = s.subrange(mid, s.len() as int);
    assert forall|i: int, j: int| 0 <= i <= j < s.len() implies s[i] <= s[j] by {
        if j < mid {
            assert(low[i] <= low[j]);
        } else if i >= mid {
            assert(high[i - mid] <= high[j - mid]);
        } else {
            assert(low[i] <= low[mid - 1]);
            assert(high[0] <= high[j - mid]);
        }
    }
}

/// Merges two sorted slices into `result`, which has room for exactly both.
///
/// Two cursors walk the inputs; the smaller front element goes to the next
/// slot, the left one where both are equal. What is left of either input when
/// the other runs out follows as it is.
pub fn merge(left: &[i64], right: &[i64], result: &mut [i64])
    requires
        is_sorted(left@),
        is_sorted(right@),
        old(result)@.len() == left@.len() + right@.len(),
    ensures
        is_sorting_of(final(result)@, left@ + right@),
        final(result)@ == sorted_form(left@ + right@),
        keeps_equal_in_order(left@ + right@, final(result)@),
{
    let mut left_idx: usize = 0;
    let mut right_idx: usize = 0;
    let mut res_idx: usize = 0;
    // Where each slot written so far came from: an index into `left`, or the
    // length of `left` plus an index into `right`.
    let ghost mut from: Seq<int> = Seq::empty();
    proof {
        assert(result@.subrange(0, 0) =~= left@.subrange(0, 0) + right@.subrange(0, 0));
    }

    while left_idx < left.len() && right_idx < right.len()
        invariant
            is_sorted(left@),
            is_sorted(right@),
            result@.len() == left@.len() + right@.len(),
            left_idx <= left@.len(),
            right_idx <= right@.len(),
            res_idx == left_idx + right_idx,
            merged_so_far(result@, left@, right@, left_idx as int, right_idx as int),
            merge_origins(result@, left@, right@, left_idx as int, right_idx as int, from),
        decreases left@.len() + right@.len() - res_idx,
    {
        if left[left_idx] <= right[right_idx] {
            proof {
                lemma_take_left(result@, left@, right@, left_idx as int, right_idx as int);
                lemma_origin_left(result@, left@, right@, left_idx as int, right_idx as int, from);
                from = from.push(left_idx as int);
            }
            result[res_idx] = left[left_idx];
            left_idx += 1;
        } else {
            proof {
                lemma_take_right(result@, left@, right@, left_idx as int, right_idx as int);
                lemma_origin_right(result@, left@, right@, left_idx as int, right_idx as int, from);
                from = from.push(left@.len() + right_idx);
            }
            result[res_idx] = right[right_idx];
            right_idx += 1;
        }
        res_idx += 1;
    }

    while left_idx < left.len()
        invariant
            is_sorted(left@),
            is_sorted(right@),
            result@.len() == left@.len() + right@.len(),
            left_idx <= left@.len(),
            left_idx < left@.len() ==> right_idx == right@.len(),
            res_idx == left_idx + right_idx,
            merged_so_far(result@, left@, right@, left_idx as int, right_idx as int),
            merge_origins(result@, left@, right@, left_idx as int, right_idx as int, from),
        decreases left@.len() - left_idx,
    {
        proof {
            lemma_take_left(result@, left@, right@, left_idx as int, right_idx as int);
            lemma_origin_left(result@, left@, right@, left_idx as int, right_idx as int, from);
            from = from.push(left_idx as int);
        }
        result[res_idx] = left[left_idx];
        left_idx += 1;
        res_idx += 1;
    }

    while right_idx < right.len()
        invariant
            is_sorted(left@),
            is_sorted(right@),
            result@.len() == left@.len() + right@.len(),
            left_idx == left@.len(),
            right_idx <= right@.len(),
            res_idx == left_idx + right_idx,
            merged_so_far(result@, left@, right@, left_idx as int, right_idx as int),
            merge_origins(result@, left@, right@, left_idx as int, right_idx as int, from),
        decreases right@.len() - right_idx,
    {
        proof {
            lemma_take_right(result@, left@, right@, left_idx as int, right_idx as int);
            lemma_origin_right(result@, left@, right@, left_idx as int, right_idx as int, from);
            from = from.push(left@.len() + right_idx);
        }
        result[res_idx] = right[right_idx];
        right_idx += 1;
        res_idx += 1;
    }

    proof {
        assert(result@.subrange(0, res_idx as int) =~= result@);
        assert(left@.subrange(0, left_idx as int) =~= left@);
        assert(right@.subrange(0, right_idx as int) =~= right@);
        lemma_origins_stable(result@, left@, right@, from);
        lemma_sorting_is_sorted_form(left@ + right@, result@);
    }
}

/// Overwrites `target` with `source`, which has the same length.
pub fn copy_over(target: &mut [i64], source: &[i64])
    requires
        old(target)@.len() == source@.len(),
    ensures
        final(target)@ == source@,
{
    let mut idx: usize = 0;
    while idx < source.len()
        invariant
            target@.len() == source@.len(),
            idx <= source@.len(),
            forall|k: int| 0 <= k < idx ==> target@[k] == source@[k],
        decreases source@.len() - idx,
    {
        target[idx] = source[idx];
        idx += 1;
    }
}

/// Sorts `slice` in place, with `buffer` as scratch space.
///
/// A slice of at most `THRESHOLD` elements goes to insertion sort. A longer
/// one is halved, and each half sorted. Where the last element of the first
/// half is at most the first of the second, nothing is left to do; else the
/// halves are merged into the front of the buffer and copied back. The buffer
/// keeps its length; `scratch_after` says what it holds afterwards.
pub fn merge_sort_recursive(slice: &mut [i64], buffer: &mut [i64])
    requires
        old(buffer)@.len() >= old(slice)@.len(),
    ensures
        is_sorting_of(final(slice)@, old(slice)@),
        final(slice)@ == sorted_form(old(slice)@),
        keeps_equal_in_order(old(slice)@, final(slice)@),
        final(buffer)@ == scratch_after(old(slice)@, old(buffer)@),
        final(buffer)@.len() == old(buffer)@.len(),
    decreases old(slice)@.len(),
{
    proof {
        lemma_scratch_after_len(slice@, buffer@);
    }
    if slice.len() <= 1 {
        proof {
            lemma_stable_identity(slice@);
            lemma_sorting_is_sorted_form(slice@, slice@);
        }
        return ;
    }
    if slice.len() <= THRESHOLD {
        insertion_sort(slice);
        return ;
    }
    let ghost before = slice@;
    let mid: usize = slice.len() / 2;
    let ghost mut low_sorted: Seq<i64> = Seq::empty();
    let ghost mut high_sorted: Seq<i64> = Seq::empty();
    {
        let (low, high) = slice.split_at_mut(mid);
        merge_sort_recursive(low, buffer);
        merge_sort_recursive(high, buffer);
        proof {
            low_sorted = low@;
            high_sorted = high@;
        }
    }
    let ghost halves = slice@;
    let ghost mut from_halves: Seq<int> = Seq::empty();
    proof {
        let low_before = before.subrange(0, mid as int);
        let high_before = before.subrange(mid as int, before.len() as int);
        lemma_sorting_is_sorted_form(low_before, low_sorted);
        lemma_sorting_is_sorted_form(high_before, high_sorted);
        assert(halves.subrange(0, mid as int) =~= low_sorted);
        assert(halves.subrange(mid as int, halves.len() as int) =~= high_sorted);
        assert(before =~= low_before + high_before);
        lemma_same_elements_concat(low_sorted, high_sorted, low_before, high_before);
        let from_low = choose|from: Seq<int>| is_stable_rearrangement(low_before, low_sorted, from);
        let from_high = choose|from: Seq<int>|
            is_stable_rearrangement(high_before, high_sorted, from);
        lemma_stable_concat(low_before, low_sorted, from_low, high_before, high_sorted, from_high);
        from_halves = choose|from: Seq<int>| is_stable_rearrangement(before, halves, from);
    }

    if slice[mid - 1] <= slice[mid] {
        proof {
            lemma_sorted_halves(slice@, mid as int);
            lemma_sorting_is_sorted_form(before, slice@);
        }
        return ;
    }
    let len: usize = slice.len();
    let ghost mut merged: Seq<i64> = Seq::empty();
    {
        let (low, high) = slice.split_at(mid);
        let (region, _rest) = buffer.split_at_mut(len);
        merge(low, high, region);
        proof {
            merged = region@;
        }
    }
    proof {
        assert(buffer@.subrange(0, len as int) =~= merged);
        lemma_sorting_is_sorted_form(before, merged);
        let from_merge = choose|from: Seq<int>| is_stable_rearrangement(halves, merged, from);
        lemma_stable_compose(before, halves, merged, from_halves, from_merge);
    }
    copy_over(slice, &buffer[0..len]);
}

} // verus!
