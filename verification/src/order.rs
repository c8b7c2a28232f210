//! What it means for a sequence of integers to be sorted, and to hold the
//! same elements as another one, with the lemmas both engines rest on.

use vstd::prelude::*;
use vstd::seq_lib::*;

verus! {

/// A sequence is sorted when every earlier element is at most every later one.
pub open spec fn is_sorted(s: Seq<i64>) -> bool {
    forall|i: int, j: int| 0 <= i <= j < s.len() ==> s[i] <= s[j]
}

/// Two sequences hold the same values, each as often in one as in the other.
pub open spec fn same_elements(a: Seq<i64>, b: Seq<i64>) -> bool {
    a.to_multiset() == b.to_multiset()
}

/// `out` is `input` put in non-decreasing order: nothing added, nothing lost.
pub open spec fn is_sorting_of(out: Seq<i64>, input: Seq<i64>) -> bool {
    &&& out.len() == input.len()
    &&& is_sorted(out)
    &&& same_elements(out, input)
}

/// A sorted sequence with one more value, put behind the last element that
/// is not greater.
pub open spec fn inserted(s: Seq<i64>, value: i64) -> Seq<i64>
    decreases s.len(),
{
    if s.len() == 0 {
        seq![value]
    } else if s.last() <= value {
        s.push(value)
    } else {
        inserted(s.drop_last(), value).push(s.last())
    }
}

/// The elements of a sequence in non-decreasing order.
pub open spec fn sorted_form(s: Seq<i64>) -> Seq<i64>
    decreases s.len(),
{
    if s.len() == 0 {
        s
    } else {
        inserted(sorted_form(s.drop_last()), s.last())
    }
}

/// The sequence with the elements at `a` and `b` exchanged.
pub open spec fn swapped(s: Seq<i64>, a: int, b: int) -> Seq<i64> {
    s.update(a, s[b]).update(b, s[a])
}

/// Every element of `s` is at most `bound`.
pub open spec fn all_at_most(s: Seq<i64>, bound: i64) -> bool {
    forall|i: int| 0 <= i < s.len() ==> s[i] <= bound
}

/// Every element of `s` is at least `bound`.
pub open spec fn all_at_least(s: Seq<i64>, bound: i64) -> bool {
    forall|i: int| 0 <= i < s.len() ==> s[i] >= bound
}

/// `b` differs from `a` at most at the indices from `left` to `right`, both
/// included.
pub open spec fn same_outside(a: Seq<i64>, b: Seq<i64>, left: int, right: int) -> bool {
    &&& a.len() == b.len()
    &&& forall|k: int| 0 <= k < a.len() && !(left <= k <= right) ==> a[k] == b[k]
}

/// Exchanging two elements changes neither the length nor the multiset.
pub proof fn lemma_swap_same_elements(s: Seq<i64>, a: int, b: int)
    requires
        0 <= a < s.len(),
        0 <= b < s.len(),
    ensures
        swapped(s, a, b).len() == s.len(),
        same_elements(swapped(s, a, b), s),
{
    broadcast use vstd::multiset::group_multiset_axioms;

    let t = s.update(a, s[b]);
    to_multiset_update(s, a, s[b]);
    to_multiset_update(t, b, s[a]);
    to_multiset_contains(s, s[a]);
    assert(swapped(s, a, b).to_multiset() =~= s.to_multiset());
}

/// Sequences with the same elements have the same length.
pub proof fn lemma_same_elements_len(a: Seq<i64>, b: Seq<i64>)
    requires
        same_elements(a, b),
    ensures
        a.len() == b.len(),
{
    to_multiset_len(a);
    to_multiset_len(b);
}

/// A value that occurs in one of two sequences with the same elements occurs
/// in the other.
pub proof fn lemma_same_elements_contains(a: Seq<i64>, b: Seq<i64>, i: int) -> (j: int)
    requires
        same_elements(a, b),
        0 <= i < a.len(),
    ensures
        0 <= j < b.len(),
        b[j] == a[i],
{
    to_multiset_contains(a, a[i]);
    to_multiset_contains(b, a[i]);
    choose|j: int| 0 <= j < b.len() && b[j] == a[i]
}

/// An upper bound on all elements carries over to any rearrangement.
pub proof fn lemma_same_elements_at_most(a: Seq<i64>, b: Seq<i64>, bound: i64)
    requires
        same_elements(a, b),
        all_at_most(a, bound),
    ensures
        all_at_most(b, bound),
{
    assert forall|j: int| 0 <= j < b.len() implies b[j] <= bound by {
        let i = lemma_same_elements_contains(b, a, j);
    }
}

/// A lower bound on all elements carries over to any rearrangement.
pub proof fn lemma_same_elements_at_least(a: Seq<i64>, b: Seq<i64>, bound: i64)
    requires
        same_elements(a, b),
        all_at_least(a, bound),
    ensures
        all_at_least(b, bound),
{
    assert forall|j: int| 0 <= j < b.len() implies b[j] >= bound by {
        let i = lemma_same_elements_contains(b, a, j);
    }
}

/// Joining two rearrangements gives a rearrangement of the joined sequences.
pub proof fn lemma_same_elements_concat(a1: Seq<i64>, a2: Seq<i64>, b1: Seq<i64>, b2: Seq<i64>)
    requires
        same_elements(a1, b1),
        same_elements(a2, b2),
    ensures
        same_elements(a1 + a2, b1 + b2),
{
    lemma_multiset_commutative(a1, a2);
    lemma_multiset_commutative(b1, b2);
}

/// Two sorted sequences, the first bounded above by what bounds the second
/// below, are sorted when joined.
pub proof fn lemma_sorted_concat(a: Seq<i64>, b: Seq<i64>, bound: i64)
    requires
        is_sorted(a),
        is_sorted(b),
        all_at_most(a, bound),
        all_at_least(b, bound),
    ensures
        is_sorted(a + b),
{
}

/// The sorted arrangement of a multiset of integers is unique.
pub proof fn lemma_sorted_arrangement_unique(a: Seq<i64>, b: Seq<i64>)
    requires
        is_sorted(a),
        is_sorted(b),
        same_elements(a, b),
    ensures
        a == b,
    decreases a.len(),
{
    lemma_same_elements_len(a, b);
    if a.len() > 0 {
        let ia = lemma_same_elements_contains(b, a, 0);
        let ib = lemma_same_elements_contains(a, b, 0);
        let ra = a.remove(0);
        let rb = b.remove(0);
        to_multiset_remove(a, 0);
        to_multiset_remove(b, 0);
        lemma_sorted_arrangement_unique(ra, rb);
        assert(a =~= b) by {
            assert forall|k: int| 0 <= k < a.len() implies a[k] == b[k] by {
                if k > 0 {
                    assert(b[k] == rb[k - 1]);
                }
            }
        }
    }
}

/// Putting a value into a sorted sequence gives a sorted sequence with that
/// one value more.
pub proof fn lemma_inserted(s: Seq<i64>, value: i64)
    requires
        is_sorted(s),
    ensures
        is_sorted(inserted(s, value)),
        inserted(s, value).len() == s.len() + 1,
        inserted(s, value).to_multiset() == s.to_multiset().insert(value),
    decreases s.len(),
{
    broadcast use vstd::multiset::group_multiset_axioms;

    if s.len() == 0 {
        to_multiset_build(s, value);
        assert(seq![value] =~= s.push(value));
    } else if s.last() <= value {
        to_multiset_build(s, value);
    } else {
        let head = s.drop_last();
        let last = s.last();
        assert(head.push(last) =~= s);
        lemma_inserted(head, value);
        let grown = inserted(head, value);
        to_multiset_build(grown, last);
        to_multiset_build(head, last);
        assert forall|i: int, j: int| 0 <= i <= j < grown.len() + 1 implies grown.push(last)[i]
            <= grown.push(last)[j] by {
            if i < grown.len() && j == grown.len() && grown[i] != value {
                to_multiset_contains(grown, grown[i]);
                to_multiset_contains(head, grown[i]);
                assert(grown.contains(grown[i]));
                let k = choose|k: int| 0 <= k < head.len() && head[k] == grown[i];
                assert(s[k] <= s[s.len() - 1]);
            }
        }
    }
}

/// The sorted form of a sequence is a sorting of it.
pub proof fn lemma_sorted_form(s: Seq<i64>)
    ensures
        is_sorting_of(sorted_form(s), s),
    decreases s.len(),
{
    if s.len() > 0 {
        lemma_sorted_form(s.drop_last());
        lemma_inserted(sorted_form(s.drop_last()), s.last());
        to_multiset_build(s.drop_last(), s.last());
        assert(s.drop_last().push(s.last()) =~= s);
    }
}

/// Every sorting of a sequence is its sorted form.
pub proof fn lemma_sorting_is_sorted_form(input: Seq<i64>, out: Seq<i64>)
    requires
        is_sorting_of(out, input),
    ensures
        out == sorted_form(input),
{
    lemma_sorted_form(input);
    lemma_sorted_arrangement_unique(out, sorted_form(input));
}

/// Two sortings of one input are equal, whichever engine made them.
pub proof fn lemma_sortings_agree(input: Seq<i64>, a: Seq<i64>, b: Seq<i64>)
    requires
        is_sorting_of(a, input),
        is_sorting_of(b, input),
    ensures
        a == b,
{
    lemma_sorted_arrangement_unique(a, b);
}

/// Sorting what is sorted already gives it back unchanged.
pub proof fn lemma_sorting_of_sorted(input: Seq<i64>, out: Seq<i64>)
    requires
        is_sorted(input),
        is_sorting_of(out, input),
    ensures
        out == input,
{
    lemma_sorted_arrangement_unique(out, input);
}

/// Sorting an empty or one-element sequence gives it back unchanged.
pub proof fn lemma_sorting_of_short(input: Seq<i64>, out: Seq<i64>)
    requires
        input.len() <= 1,
        is_sorting_of(out, input),
    ensures
        out == input,
{
    lemma_sorted_arrangement_unique(out, input);
}

} // verus!
