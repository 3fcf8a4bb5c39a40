//! Sums over finite sets and over maps.

use vstd::prelude::*;

verus! {

/// The sum of `weight` over the elements of a finite set.
pub open spec fn set_sum<A>(elements: Set<A>, weight: spec_fn(A) -> nat) -> nat
    decreases elements.len(),
{
    if elements.finite() && elements.len() > 0 {
        let element = elements.choose();
        weight(element) + set_sum(elements.remove(element), weight)
    } else {
        0
    }
}

/// Any element of the set can be taken out of the sum.
pub proof fn lemma_set_sum_remove<A>(elements: Set<A>, weight: spec_fn(A) -> nat, element: A)
    requires
        elements.finite(),
        elements.contains(element),
    ensures
        set_sum(elements, weight) == weight(element) + set_sum(elements.remove(element), weight),
    decreases elements.len(),
{
    let chosen = elements.choose();
    assert(elements.len() > 0);
    assert(elements.contains(chosen));
    if chosen != element {
        let rest = elements.remove(chosen);
        lemma_set_sum_remove(rest, weight, element);
        let other = elements.remove(element);
        lemma_set_sum_remove(other, weight, chosen);
        assert(rest.remove(element) =~= other.remove(chosen));
    }
}

/// Two weights that agree on the set have the same sum over it.
pub proof fn lemma_set_sum_same<A>(
    elements: Set<A>,
    left: spec_fn(A) -> nat,
    right: spec_fn(A) -> nat,
)
    requires
        elements.finite(),
        forall|element: A| #[trigger] elements.contains(element) ==> left(element) == right(element),
    ensures
        set_sum(elements, left) == set_sum(elements, right),
    decreases elements.len(),
{
    if elements.len() > 0 {
        let chosen = elements.choose();
        assert(elements.contains(chosen));
        lemma_set_sum_same(elements.remove(chosen), left, right);
    }
}

/// A sum is at most the number of elements times a bound on the weights.
pub proof fn lemma_set_sum_bound<A>(elements: Set<A>, weight: spec_fn(A) -> nat, bound: nat)
    requires
        elements.finite(),
        forall|element: A| #[trigger] elements.contains(element) ==> weight(element) <= bound,
    ensures
        set_sum(elements, weight) <= elements.len() * bound,
    decreases elements.len(),
{
    if elements.len() > 0 {
        let chosen = elements.choose();
        assert(elements.contains(chosen));
        lemma_set_sum_bound(elements.remove(chosen), weight, bound);
        assert((elements.len() - 1) * bound + bound == elements.len() * bound) by (nonlinear_arith);
    }
}

/// A sum of ones and zeros counts the elements that weigh one.
pub proof fn lemma_set_sum_counts<A>(elements: Set<A>, counted: Set<A>, weight: spec_fn(A) -> nat)
    requires
        elements.finite(),
        counted.subset_of(elements),
        forall|element: A| #[trigger]
            elements.contains(element) ==> weight(element) == if counted.contains(element) {
                1nat
            } else {
                0nat
            },
    ensures
        counted.finite(),
        set_sum(elements, weight) == counted.len(),
    decreases elements.len(),
{
    vstd::set_lib::lemma_len_subset(counted, elements);
    if elements.len() > 0 {
        let chosen = elements.choose();
        assert(elements.contains(chosen));
        lemma_set_sum_counts(elements.remove(chosen), counted.remove(chosen), weight);
        if !counted.contains(chosen) {
            assert(counted.remove(chosen) =~= counted);
        }
    }
}

/// The sum of `weight` over the values of a map.
pub open spec fn map_sum<A, B>(map: Map<A, B>, weight: spec_fn(B) -> nat) -> nat {
    set_sum(map.dom(), |key: A| weight(map[key]))
}

/// The weight that the value of `key` has in the sum over a map.
pub open spec fn weight_at<A, B>(map: Map<A, B>, weight: spec_fn(B) -> nat, key: A) -> nat {
    if map.contains_key(key) {
        weight(map[key])
    } else {
        0
    }
}

/// Taking a key out of a map takes its weight out of the sum.
pub proof fn lemma_map_sum_remove<A, B>(map: Map<A, B>, weight: spec_fn(B) -> nat, key: A)
    requires
        map.dom().finite(),
    ensures
        map_sum(map, weight) == weight_at(map, weight, key) + map_sum(map.remove(key), weight),
{
    let smaller = map.remove(key);
    assert(smaller.dom() =~= map.dom().remove(key));
    if map.contains_key(key) {
        lemma_set_sum_remove(map.dom(), |k: A| weight(map[k]), key);
        lemma_set_sum_same(
            smaller.dom(),
            |k: A| weight(map[k]),
            |k: A| weight(smaller[k]),
        );
    } else {
        assert(smaller =~= map);
    }
}

/// Putting a value under a key replaces the key's weight in the sum.
pub proof fn lemma_map_sum_insert<A, B>(map: Map<A, B>, weight: spec_fn(B) -> nat, key: A, value: B)
    requires
        map.dom().finite(),
    ensures
        map_sum(map.insert(key, value), weight) + weight_at(map, weight, key) == map_sum(map, weight)
            + weight(value),
{
    let grown = map.insert(key, value);
    lemma_map_sum_remove(map, weight, key);
    lemma_map_sum_remove(grown, weight, key);
    assert(grown.remove(key) =~= map.remove(key));
}

/// A sum over a map is at most its size times a bound on the weights.
pub proof fn lemma_map_sum_bound<A, B>(map: Map<A, B>, weight: spec_fn(B) -> nat, bound: nat)
    requires
        map.dom().finite(),
        forall|key: A| #[trigger] map.contains_key(key) ==> weight(map[key]) <= bound,
    ensures
        map_sum(map, weight) <= map.dom().len() * bound,
{
    assert forall|key: A| #[trigger] map.dom().contains(key) implies (|k: A| weight(map[k]))(key)
        <= bound by {
        assert(map.contains_key(key));
    }
    lemma_set_sum_bound(map.dom(), |k: A| weight(map[k]), bound);
}

} // verus!
