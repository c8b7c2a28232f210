//! Rearrangements that keep equal values in the order they had: what merge
//! sort and insertion sort promise beyond the sorted result.

use vstd::prelude::*;
use vstd::seq_lib::{to_multiset_contains, to_multiset_remove};
use crate::order::{same_elements, swapped};

verus! {

/// `dst` holds the elements of `src` in another order, `from[i]` being the
/// index in `src` of the element that stands at `i` in `dst`, and elements of
/// equal value stand in `dst` in the order they had in `src`.
pub open spec fn is_stable_rearrangement(src: Seq<i64>, dst: Seq<i64>, from: Seq<int>) -> bool {
    &&& dst.len() == src.len()
    &&& from.len() == src.len()
    &&& forall|i: int|
        0 <= i < from.len() ==> 0 <= #[trigger] from[i] < src.len() && dst[i] == src[from[i]]
    &&& forall|i: int, j: int|
        0 <= i < j < from.len() && dst[i] == dst[j] ==> #[trigger] from[i] < #[trigger] from[j]
}

/// `dst` is `src` rearranged without changing the order of equal values.
pub open spec fn keeps_equal_in_order(src: Seq<i64>, dst: Seq<i64>) -> bool {
    exists|from: Seq<int>| is_stable_rearrangement(src, dst, from)
}

/// The origins of all elements but the last, as indices into the source
/// without the element that the last one came from.
pub open spec fn origins_without_last(from: Seq<int>) -> Seq<int> {
    Seq::new(
        (from.len() - 1) as nat,
        |i: int|
            if from[i] < from.last() {
                from[i]
            } else {
                from[i] - 1
            },
    )
}

/// No element of the source stands at two places of a stable rearrangement.
pub proof fn lemma_stable_rearrangement_injective(src: Seq<i64>, dst: Seq<i64>, from: Seq<int>)
    requires
        is_stable_rearrangement(src, dst, from),
    ensures
        forall|i: int, j: int|
            0 <= i < j < from.len() ==> #[trigger] from[i] != #[trigger] from[j],
{
}

/// A stable rearrangement without its last element is a stable
/// rearrangement of the source without the element that one came from.
pub proof fn lemma_stable_without_last(src: Seq<i64>, dst: Seq<i64>, from: Seq<int>)
    requires
        is_stable_rearrangement(src, dst, from),
        src.len() > 0,
    ensures
        is_stable_rearrangement(
            src.remove(from.last()),
            dst.drop_last(),
            origins_without_last(from),
        ),
{
    assert(from[from.len() - 1] == from.last());
    lemma_stable_rearrangement_injective(src, dst, from);
}

/// A stable rearrangement holds the same elements as its source.
pub proof fn lemma_stable_rearrangement_same_elements(
    src: Seq<i64>,
    dst: Seq<i64>,
    from: Seq<int>,
)
    requires
        is_stable_rearrangement(src, dst, from),
    ensures
        same_elements(src, dst),
    decreases src.len(),
{
    broadcast use vstd::multiset::group_multiset_axioms;

    if src.len() == 0 {
        assert(src =~= dst);
    } else {
        let n = src.len() - 1;
        let last = from.last();
        lemma_stable_without_last(src, dst, from);
        lemma_stable_rearrangement_same_elements(
            src.remove(last),
            dst.drop_last(),
            origins_without_last(from),
        );
        to_multiset_remove(src, last);
        to_multiset_remove(dst, n);
        to_multiset_contains(src, src[last]);
        to_multiset_contains(dst, dst[n]);
        assert(src.to_multiset() =~= dst.to_multiset()) by {
            assert forall|v: i64| src.to_multiset().count(v) == dst.to_multiset().count(v) by {
                assert(src.to_multiset().remove(src[last]).count(v) == dst.to_multiset().remove(
                    dst[n],
                ).count(v));
            }
        }
    }
}

/// Every element of the source stands somewhere in a stable rearrangement.
pub proof fn lemma_stable_rearrangement_onto(
    src: Seq<i64>,
    dst: Seq<i64>,
    from: Seq<int>,
    origin: int,
) -> (place: int)
    requires
        is_stable_rearrangement(src, dst, from),
        0 <= origin < src.len(),
    ensures
        0 <= place < from.len(),
        from[place] == origin,
    decreases src.len(),
{
    let n = src.len() - 1;
    let last = from.last();
    if origin == last {
        n
    } else {
        lemma_stable_without_last(src, dst, from);
        lemma_stable_rearrangement_injective(src, dst, from);
        let fewer = origins_without_last(from);
        let shifted = if origin < last {
            origin
        } else {
            origin - 1
        };
        let place = lemma_stable_rearrangement_onto(
            src.remove(last),
            dst.drop_last(),
            fewer,
            shifted,
        );
        place
    }
}

/// Two records of where the elements of a stable rearrangement came from
/// agree at every place up to `place`.
proof fn lemma_stable_origins_agree(
    src: Seq<i64>,
    dst: Seq<i64>,
    one: Seq<int>,
    other: Seq<int>,
    place: int,
)
    requires
        is_stable_rearrangement(src, dst, one),
        is_stable_rearrangement(src, dst, other),
        0 <= place < one.len(),
    ensures
        forall|q: int| 0 <= q <= place ==> one[q] == other[q],
    decreases place,
{
    if place > 0 {
        lemma_stable_origins_agree(src, dst, one, other, place - 1);
    }
    if one[place] != other[place] {
        lemma_stable_rearrangement_injective(src, dst, one);
        lemma_stable_rearrangement_injective(src, dst, other);
        // Each record holds somewhere the origin that the other one has at
        // `place`. Before `place` the records agree, so both of those places
        // lie behind it, and the order of equal values then puts each of the
        // two origins before the other.
        let there = lemma_stable_rearrangement_onto(src, dst, other, one[place]);
        let here = lemma_stable_rearrangement_onto(src, dst, one, other[place]);
    }
}

/// Between a source and its stable rearrangement it is settled where each
/// element came from.
pub proof fn lemma_stable_origins_unique(
    src: Seq<i64>,
    dst: Seq<i64>,
    one: Seq<int>,
    other: Seq<int>,
)
    requires
        is_stable_rearrangement(src, dst, one),
        is_stable_rearrangement(src, dst, other),
    ensures
        one == other,
{
    assert forall|place: int| 0 <= place < one.len() implies one[place] == other[place] by {
        lemma_stable_origins_agree(src, dst, one, other, place);
    }
}

/// Leaving a sequence as it is keeps equal values in order.
pub proof fn lemma_stable_identity(s: Seq<i64>)
    ensures
        is_stable_rearrangement(s, s, Seq::new(s.len(), |i: int| i)),
        keeps_equal_in_order(s, s),
{
    assert(is_stable_rearrangement(s, s, Seq::new(s.len(), |i: int| i)));
}

/// One stable rearrangement after another is a stable rearrangement.
pub proof fn lemma_stable_compose(
    a: Seq<i64>,
    b: Seq<i64>,
    c: Seq<i64>,
    first: Seq<int>,
    second: Seq<int>,
)
    requires
        is_stable_rearrangement(a, b, first),
        is_stable_rearrangement(b, c, second),
    ensures
        is_stable_rearrangement(a, c, Seq::new(a.len(), |i: int| first[second[i]])),
        keeps_equal_in_order(a, c),
{
    let both = Seq::new(a.len(), |i: int| first[second[i]]);
    assert(is_stable_rearrangement(a, c, both));
}

/// Stable rearrangements of two sequences, side by side, make one of the
/// joined sequences.
pub proof fn lemma_stable_concat(
    a1: Seq<i64>,
    b1: Seq<i64>,
    from1: Seq<int>,
    a2: Seq<i64>,
    b2: Seq<i64>,
    from2: Seq<int>,
)
    requires
        is_stable_rearrangement(a1, b1, from1),
        is_stable_rearrangement(a2, b2, from2),
    ensures
        is_stable_rearrangement(
            a1 + a2,
            b1 + b2,
            from1 + Seq::new(from2.len(), |i: int| from2[i] + a1.len()),
        ),
        keeps_equal_in_order(a1 + a2, b1 + b2),
{
    let from = from1 + Seq::new(from2.len(), |i: int| from2[i] + a1.len());
    let a = a1 + a2;
    let b = b1 + b2;
    assert(is_stable_rearrangement(a, b, from));
}

/// Exchanging two neighbours of which the left one is strictly greater keeps
/// equal values in order.
pub proof fn lemma_stable_adjacent_swap(src: Seq<i64>, cur: Seq<i64>, from: Seq<int>, j: int)
    requires
        is_stable_rearrangement(src, cur, from),
        0 < j < cur.len(),
        cur[j] < cur[j - 1],
    ensures
        is_stable_rearrangement(
            src,
            swapped(cur, j, j - 1),
            from.update(j, from[j - 1]).update(j - 1, from[j]),
        ),
{
}

} // verus!
