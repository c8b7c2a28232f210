//! Insertion sort by adjacent swaps, the primitive both engines finish small
//! ranges with.

use vstd::prelude::*;
use crate::order::{
    is_sorting_of, lemma_sorting_is_sorted_form, lemma_swap_same_elements, same_elements,
    sorted_form, swapped,
};
use crate::stable::{
    is_stable_rearrangement, keeps_equal_in_order, lemma_stable_adjacent_swap,
    lemma_stable_identity,
};

verus! {

/// A range of at most this many elements is finished by insertion sort.
pub const THRESHOLD: usize = 15;

/// Exchanges the elements at `a` and `b`.
pub fn swap_elements(list: &mut [i64], a: usize, b: usize)
    requires
        a < old(list)@.len(),
        b < old(list)@.len(),
    ensures
        final(list)@ == swapped(old(list)@, a as int, b as int),
{
    let x: i64 = list[a];
    let y: i64 = list[b];
    list[a] = y;
    list[b] = x;
}

/// Sorts the whole slice in place.
///
/// Each element in turn moves left, one adjacent swap at a time, while its
/// left neighbour is strictly greater, so equal values never pass each other.
/// An empty or one-element slice is left as it is.
pub fn insertion_sort(list: &mut [i64])
    ensures
        is_sorting_of(final(list)@, old(list)@),
        final(list)@ == sorted_form(old(list)@),
        keeps_equal_in_order(old(list)@, final(list)@),
{
    let n: usize = list.len();
    let ghost mut from: Seq<int> = Seq::new(list@.len(), |i: int| i);
    proof {
        lemma_stable_identity(list@);
    }
    let mut i: usize = 1;
    while i < n
        invariant
            1 <= i,
            list@.len() == n,
            same_elements(list@, old(list)@),
            is_stable_rearrangement(old(list)@, list@, from),
            forall|a: int, b: int| 0 <= a <= b < i && b < n ==> list@[a] <= list@[b],
        decreases n - i,
    {
        let mut j: usize = i;
        while j > 0 && list[j] < list[j - 1]
            invariant
                j <= i < n,
                list@.len() == n,
                same_elements(list@, old(list)@),
                is_stable_rearrangement(old(list)@, list@, from),
                forall|a: int, b: int| 0 <= a <= b <= i && a != j && b != j ==> list@[a] <= list@[b],
                forall|b: int| j < b <= i ==> list@[j as int] <= list@[b],
            decreases j,
        {
            proof {
                lemma_swap_same_elements(list@, j as int, j - 1);
                lemma_stable_adjacent_swap(old(list)@, list@, from, j as int);
                from = from.update(j as int, from[j - 1]).update(j - 1, from[j as int]);
            }
            swap_elements(list, j, j - 1);
            j -= 1;
        }
        i += 1;
    }
    proof {
        lemma_sorting_is_sorted_form(old(list)@, list@);
    }
}

} // verus!
