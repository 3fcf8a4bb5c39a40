//! Info hashes in ascending order.

use crate::swarm::InfoHash;
use vstd::multiset::Multiset;
use vstd::prelude::*;

verus! {

/// The number that bytes make, the highest first.
pub open spec fn byte_number(bytes: Seq<u8>) -> nat
    decreases bytes.len(),
{
    if bytes.len() == 0 {
        0
    } else {
        byte_number(bytes.drop_last()) * 256 + bytes.last() as nat
    }
}

/// Whether `left` comes no later than `right` in the order of their bytes.
pub open spec fn not_after(left: InfoHash, right: InfoHash) -> bool {
    byte_number(left@) <= byte_number(right@)
}

/// Whether info hashes stand in ascending order.
pub open spec fn is_ascending(hashes: Seq<InfoHash>) -> bool {
    forall|i: int, j: int|
        0 <= i < j < hashes.len() ==> not_after(#[trigger] hashes[i], #[trigger] hashes[j])
}

/// Whether `sorted` holds `hashes` in ascending order.
pub open spec fn is_sorting_of(sorted: Seq<InfoHash>, hashes: Seq<InfoHash>) -> bool {
    is_ascending(sorted) && sorted.to_multiset() == hashes.to_multiset()
}

/// The info hashes in ascending order.
pub open spec fn sorted_hashes(hashes: Seq<InfoHash>) -> Seq<InfoHash> {
    choose|sorted: Seq<InfoHash>| is_sorting_of(sorted, hashes)
}

/// Bytes of one length are told apart by their numbers.
proof fn lemma_byte_number_injective(left: Seq<u8>, right: Seq<u8>)
    requires
        left.len() == right.len(),
        byte_number(left) == byte_number(right),
    ensures
        left == right,
    decreases left.len(),
{
    if left.len() > 0 {
        let a = byte_number(left.drop_last());
        let b = byte_number(right.drop_last());
        assert(a * 256 + left.last() == b * 256 + right.last());
        assert(a == b && left.last() == right.last());
        lemma_byte_number_injective(left.drop_last(), right.drop_last());
        assert(left =~= left.drop_last().push(left.last()));
        assert(right =~= right.drop_last().push(right.last()));
    }
    assert(left =~= right);
}

/// The first byte that differs decides.
proof fn lemma_first_difference(left: Seq<u8>, right: Seq<u8>, index: int)
    requires
        left.len() == right.len(),
        0 <= index < left.len(),
        forall|i: int| 0 <= i < index ==> left[i] == right[i],
        left[index] < right[index],
    ensures
        byte_number(left) < byte_number(right),
    decreases left.len(),
{
    if index < left.len() - 1 {
        lemma_first_difference(left.drop_last(), right.drop_last(), index);
    } else {
        assert(left.drop_last() =~= right.drop_last());
    }
}

/// Whether `left` comes no later than `right`.
fn precedes(left: &InfoHash, right: &InfoHash) -> (result: bool)
    ensures
        result == not_after(*left, *right),
{
    let mut index: usize = 0;
    while index < 20
        invariant
            0 <= index <= 20,
            forall|i: int| 0 <= i < index ==> left@[i] == right@[i],
        decreases 20 - index,
    {
        if left[index] < right[index] {
            proof {
                lemma_first_difference(left@, right@, index as int);
            }
            return true;
        }
        if left[index] > right[index] {
            proof {
                lemma_first_difference(right@, left@, index as int);
            }
            return false;
        }
        index = index + 1;
    }
    assert(left@ =~= right@);
    true
}

/// Two ascending sequences of the same info hashes are equal.
pub proof fn lemma_ascending_is_unique(left: Seq<InfoHash>, right: Seq<InfoHash>)
    requires
        is_ascending(left),
        is_ascending(right),
        left.to_multiset() == right.to_multiset(),
    ensures
        left == right,
    decreases left.len(),
{
    broadcast use vstd::seq_lib::group_to_multiset_ensures;

    assert(left.len() == left.to_multiset().len());
    assert(right.len() == right.to_multiset().len());
    if left.len() > 0 {
        let last = (left.len() - 1) as int;
        assert(left.contains(left[last]));
        assert(right.contains(right[last]));
        assert(right.to_multiset().count(left[last]) > 0);
        assert(left.to_multiset().count(right[last]) > 0);
        assert(right.contains(left[last]));
        assert(left.contains(right[last]));
        let i = choose|i: int| 0 <= i < right.len() && right[i] == left[last];
        let j = choose|j: int| 0 <= j < left.len() && left[j] == right[last];
        assert(not_after(left[last], right[last])) by {
            if i < last {
                assert(not_after(right[i], right[last]));
            }
        }
        assert(not_after(right[last], left[last])) by {
            if j < last {
                assert(not_after(left[j], left[last]));
            }
        }
        lemma_byte_number_injective(left[last]@, right[last]@);
        assert(left[last] =~= right[last]);
        assert(left.remove(last) =~= left.drop_last());
        assert(right.remove(last) =~= right.drop_last());
        assert(left.drop_last().to_multiset() == right.drop_last().to_multiset());
        assert(is_ascending(left.drop_last())) by {
            assert forall|a: int, b: int| 0 <= a < b < left.drop_last().len() implies not_after(
                #[trigger] left.drop_last()[a],
                #[trigger] left.drop_last()[b],
            ) by {
                assert(not_after(left[a], left[b]));
            }
        }
        assert(is_ascending(right.drop_last())) by {
            assert forall|a: int, b: int| 0 <= a < b < right.drop_last().len() implies not_after(
                #[trigger] right.drop_last()[a],
                #[trigger] right.drop_last()[b],
            ) by {
                assert(not_after(right[a], right[b]));
            }
        }
        lemma_ascending_is_unique(left.drop_last(), right.drop_last());
        assert(left =~= left.drop_last().push(left[last]));
        assert(right =~= right.drop_last().push(right[last]));
    } else {
        assert(left =~= right);
    }
}

/// An ascending sequence of info hashes is the one that sorting gives.
pub proof fn lemma_sorted(sorted: Seq<InfoHash>, hashes: Seq<InfoHash>)
    requires
        is_sorting_of(sorted, hashes),
    ensures
        sorted_hashes(hashes) == sorted,
{
    lemma_ascending_is_unique(sorted_hashes(hashes), sorted);
}

/// The same info hashes in another order are sorted to the same sequence.
pub proof fn lemma_sorting_ignores_order(left: Seq<InfoHash>, right: Seq<InfoHash>)
    requires
        left.to_multiset() == right.to_multiset(),
    ensures
        sorted_hashes(left) == sorted_hashes(right),
{
    lemma_sorting_exists(left);
    lemma_sorted(sorted_hashes(left), right);
}

/// Any info hashes can be sorted.
pub proof fn lemma_sorting_exists(hashes: Seq<InfoHash>)
    ensures
        is_sorting_of(sorted_hashes(hashes), hashes),
{
    let order = |left: InfoHash, right: InfoHash| not_after(left, right);
    assert(vstd::relations::total_ordering(order)) by {
        assert forall|left: InfoHash, right: InfoHash| #[trigger] order(left, right)
            && #[trigger] order(right, left) implies left == right by {
            lemma_byte_number_injective(left@, right@);
            assert(left =~= right);
        }
    }
    hashes.lemma_sort_by_ensures(order);
    let sorted = hashes.sort_by(order);
    assert(is_ascending(sorted)) by {
        assert forall|i: int, j: int| 0 <= i < j < sorted.len() implies not_after(
            #[trigger] sorted[i],
            #[trigger] sorted[j],
        ) by {
            assert(order(sorted[i], sorted[j]));
        }
    }
    assert(is_sorting_of(sorted, hashes));
}

/// Merges two ascending sequences.
fn merge(left: &Vec<InfoHash>, right: &Vec<InfoHash>) -> (merged: Vec<InfoHash>)
    requires
        is_ascending(left@),
        is_ascending(right@),
    ensures
        is_ascending(merged@),
        merged@.to_multiset() == left@.to_multiset().add(right@.to_multiset()),
{
    broadcast use vstd::seq_lib::group_to_multiset_ensures;
    broadcast use vstd::multiset::group_multiset_axioms;

    let mut merged: Vec<InfoHash> = Vec::new();
    let mut i: usize = 0;
    let mut j: usize = 0;
    proof {
        assert(left@.take(0) =~= Seq::<InfoHash>::empty());
        assert(right@.take(0) =~= Seq::<InfoHash>::empty());
        lemma_no_elements(left@.take(0));
        lemma_no_elements(right@.take(0));
        lemma_no_elements(merged@);
        assert(merged@.to_multiset() =~= left@.take(0).to_multiset().add(
            right@.take(0).to_multiset(),
        ));
    }
    while i < left.len() || j < right.len()
        invariant
            0 <= i <= left@.len(),
            0 <= j <= right@.len(),
            is_ascending(left@),
            is_ascending(right@),
            is_ascending(merged@),
            merged@.to_multiset() == left@.take(i as int).to_multiset().add(
                right@.take(j as int).to_multiset(),
            ),
            forall|k: int, l: int|
                0 <= k < merged@.len() && i <= l < left@.len() ==> not_after(
                    #[trigger] merged@[k],
                    #[trigger] left@[l],
                ),
            forall|k: int, l: int|
                0 <= k < merged@.len() && j <= l < right@.len() ==> not_after(
                    #[trigger] merged@[k],
                    #[trigger] right@[l],
                ),
        decreases left@.len() - i + right@.len() - j,
    {
        let from_left: bool = if i == left.len() {
            false
        } else if j == right.len() {
            true
        } else {
            precedes(&left[i], &right[j])
        };
        let ghost before = merged@;
        if from_left {
            merged.push(left[i]);
            proof {
                assert(left@.take(i + 1) =~= left@.take(i as int).push(left@[i as int]));
                lemma_pushed(before, left@[i as int]);
                lemma_pushed(left@.take(i as int), left@[i as int]);
                assert(merged@.to_multiset() =~= left@.take(i + 1).to_multiset().add(
                    right@.take(j as int).to_multiset(),
                ));
                assert forall|k: int, l: int|
                    0 <= k < merged@.len() && j <= l < right@.len() implies not_after(
                    #[trigger] merged@[k],
                    #[trigger] right@[l],
                ) by {
                    if k == before.len() && j < l {
                        assert(not_after(right@[j as int], right@[l]));
                    }
                }
            }
            i = i + 1;
        } else {
            merged.push(right[j]);
            proof {
                assert(right@.take(j + 1) =~= right@.take(j as int).push(right@[j as int]));
                lemma_pushed(before, right@[j as int]);
                lemma_pushed(right@.take(j as int), right@[j as int]);
                assert(merged@.to_multiset() =~= left@.take(i as int).to_multiset().add(
                    right@.take(j + 1).to_multiset(),
                ));
                assert forall|k: int, l: int|
                    0 <= k < merged@.len() && i <= l < left@.len() implies not_after(
                    #[trigger] merged@[k],
                    #[trigger] left@[l],
                ) by {
                    if k == before.len() && i < l {
                        assert(not_after(left@[i as int], left@[l]));
                    }
                }
            }
            j = j + 1;
        }
    }
    assert(left@.take(i as int) =~= left@);
    assert(right@.take(j as int) =~= right@);
    merged
}

/// Pushing an element puts it into the multiset.
proof fn lemma_pushed(hashes: Seq<InfoHash>, last: InfoHash)
    ensures
        hashes.push(last).to_multiset() == hashes.to_multiset().insert(last),
{
    hashes.to_multiset_ensures();
}

/// An empty sequence has no elements.
proof fn lemma_no_elements(hashes: Seq<InfoHash>)
    requires
        hashes.len() == 0,
    ensures
        hashes.to_multiset() == Multiset::<InfoHash>::empty(),
{
    hashes.to_multiset_ensures();
    assert(hashes.to_multiset() =~= Multiset::<InfoHash>::empty()) by {
        assert forall|hash: InfoHash| hashes.to_multiset().count(hash) == 0 by {
            assert(!hashes.contains(hash));
        }
    }
}

/// Sorts info hashes from `from` to `to`.
fn sort_range(hashes: &Vec<InfoHash>, from: usize, to: usize) -> (sorted: Vec<InfoHash>)
    requires
        from <= to <= hashes@.len(),
    ensures
        is_sorting_of(sorted@, hashes@.subrange(from as int, to as int)),
    decreases to - from,
{
    if to - from <= 1 {
        let mut sorted: Vec<InfoHash> = Vec::new();
        if from < to {
            sorted.push(hashes[from]);
        }
        assert(sorted@ =~= hashes@.subrange(from as int, to as int));
        return sorted;
    }
    let middle: usize = from + (to - from) / 2;
    let left: Vec<InfoHash> = sort_range(hashes, from, middle);
    let right: Vec<InfoHash> = sort_range(hashes, middle, to);
    proof {
        let first = hashes@.subrange(from as int, middle as int);
        let second = hashes@.subrange(middle as int, to as int);
        vstd::seq_lib::lemma_multiset_commutative(first, second);
        assert(first + second =~= hashes@.subrange(from as int, to as int));
    }
    merge(&left, &right)
}

/// Sorts info hashes in ascending order.
pub fn sort_hashes(hashes: &Vec<InfoHash>) -> (sorted: Vec<InfoHash>)
    ensures
        is_sorting_of(sorted@, hashes@),
        sorted@ == sorted_hashes(hashes@),
{
    let sorted: Vec<InfoHash> = sort_range(hashes, 0, hashes.len());
    proof {
        assert(hashes@.subrange(0, hashes@.len() as int) =~= hashes@);
        lemma_sorted(sorted@, hashes@);
    }
    sorted
}

/// Sorted info hashes are the same info hashes, each as often as before, and of
/// two that follow each other the first byte that differs is the smaller one in
/// the earlier.
pub proof fn law_sorting_is_by_bytes(hashes: Seq<InfoHash>)
    ensures
        sorted_hashes(hashes).to_multiset() == hashes.to_multiset(),
        sorted_hashes(hashes).len() == hashes.len(),
        forall|info_hash: InfoHash| #[trigger]
            sorted_hashes(hashes).contains(info_hash) <==> hashes.contains(info_hash),
        forall|i: int, j: int, k: int|
            #![trigger sorted_hashes(hashes)[i]@[k], sorted_hashes(hashes)[j]@[k]]
            0 <= i < j < hashes.len() && 0 <= k < 20 && (forall|l: int|
                0 <= l < k ==> sorted_hashes(hashes)[i]@[l] == #[trigger] sorted_hashes(
                    hashes,
                )[j]@[l]) ==> sorted_hashes(hashes)[i]@[k] <= sorted_hashes(hashes)[j]@[k],
{
    broadcast use vstd::seq_lib::group_to_multiset_ensures;

    lemma_sorting_exists(hashes);
    let sorted = sorted_hashes(hashes);
    assert(sorted.len() == sorted.to_multiset().len());
    assert(hashes.len() == hashes.to_multiset().len());
    assert forall|info_hash: InfoHash| #[trigger] sorted.contains(info_hash)
        <==> hashes.contains(info_hash) by {
        sorted.to_multiset_ensures();
        hashes.to_multiset_ensures();
        assert(sorted.contains(info_hash) <==> sorted.to_multiset().count(info_hash) > 0);
        assert(hashes.contains(info_hash) <==> hashes.to_multiset().count(info_hash) > 0);
    }
    assert forall|i: int, j: int, k: int|
        #![trigger sorted[i]@[k], sorted[j]@[k]]
        0 <= i < j < hashes.len() && 0 <= k < 20 && (forall|l: int|
            0 <= l < k ==> sorted[i]@[l] == #[trigger] sorted[j]@[l]) implies sorted[i]@[k]
        <= sorted[j]@[k] by {
        assert(not_after(sorted[i], sorted[j]));
        if sorted[j]@[k] < sorted[i]@[k] {
            lemma_first_difference(sorted[j]@, sorted[i]@, k);
        }
    }
}

} // verus!
