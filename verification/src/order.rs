//! Stable ordering: the places of a list in the order of their keys, earlier places first among
//! equal keys.

use vstd::prelude::*;

verus! {

/// Whether one place comes before another.
pub open spec fn precedes(keys: Seq<int>, left: int, right: int) -> bool {
    keys[left] < keys[right] || (keys[left] == keys[right] && left < right)
}

/// `places` lists every place of `keys` once, in order.
pub open spec fn is_order(keys: Seq<int>, places: Seq<int>) -> bool {
    &&& places.len() == keys.len()
    &&& forall|i: int| 0 <= i < places.len() ==> 0 <= #[trigger] places[i] < keys.len()
    &&& forall|v: int| 0 <= v < keys.len() ==> #[trigger] places.contains(v)
    &&& forall|i: int, j: int|
        0 <= i < j < places.len() ==> precedes(keys, #[trigger] places[i], #[trigger] places[j])
}

/// The places of a list in the order of their keys.
pub open spec fn order(keys: Seq<int>) -> Seq<int> {
    choose|places: Seq<int>| is_order(keys, places)
}

/// The elements of a list, taken from the given places.
pub open spec fn taken<T>(list: Seq<T>, places: Seq<int>) -> Seq<T> {
    Seq::new(places.len(), |i: int| list[places[i]])
}

/// The integers that machine integers stand for.
pub open spec fn integers(keys: Seq<i128>) -> Seq<int> {
    Seq::new(keys.len(), |i: int| keys[i] as int)
}

/// The integers that indices stand for.
pub open spec fn places_of(indices: Seq<usize>) -> Seq<int> {
    Seq::new(indices.len(), |i: int| indices[i] as int)
}

/// A list has no more than one order.
pub proof fn lemma_order_unique(keys: Seq<int>, left: Seq<int>, right: Seq<int>)
    requires
        is_order(keys, left),
        is_order(keys, right),
    ensures
        left == right,
{
    assert forall|i: int| 0 <= i < left.len() implies left[i] == right[i] by {
        lemma_order_unique_at(keys, left, right, i);
    }
    assert(left =~= right);
}

proof fn lemma_order_unique_at(keys: Seq<int>, left: Seq<int>, right: Seq<int>, at: int)
    requires
        is_order(keys, left),
        is_order(keys, right),
        0 <= at < left.len(),
    ensures
        left[at] == right[at],
    decreases at,
{
    assert(right.contains(left[at]));
    assert(left.contains(right[at]));
    let j = choose|j: int| 0 <= j < right.len() && right[j] == left[at];
    let k = choose|k: int| 0 <= k < left.len() && left[k] == right[at];
    if j < at {
        lemma_order_unique_at(keys, left, right, j);
        assert(precedes(keys, left[j], left[at]));
    }
    if k < at {
        lemma_order_unique_at(keys, left, right, k);
        assert(precedes(keys, right[k], right[at]));
    }
    if j > at && k > at {
        assert(precedes(keys, right[at], right[j]));
        assert(precedes(keys, left[at], left[k]));
    }
}

/// The order that [`order`] names is the one that a list has.
pub proof fn lemma_order_is(keys: Seq<int>, places: Seq<int>)
    requires
        is_order(keys, places),
    ensures
        order(keys) == places,
{
    lemma_order_unique(keys, order(keys), places);
}

/// Every list has an order, and [`order`] names it.
pub proof fn lemma_order_exists(keys: Seq<int>)
    ensures
        is_order(keys, order(keys)),
    decreases keys.len(),
{
    if keys.len() == 0 {
        assert(is_order(keys, Seq::<int>::empty()));
    } else {
        let before = keys.drop_last();
        lemma_order_exists(before);
        let places = lemma_order_extends(keys, order(before));
        assert(is_order(keys, places));
    }
}

proof fn lemma_order_extends(keys: Seq<int>, before: Seq<int>) -> (places: Seq<int>)
    requires
        keys.len() > 0,
        is_order(keys.drop_last(), before),
    ensures
        is_order(keys, places),
{
    let next = keys.len() - 1;
    let at = lemma_place_to_insert(keys, before, before.len());
    let places = before.insert(at, next);
    assert forall|i: int| 0 <= i < places.len() implies 0 <= #[trigger] places[i] < keys.len() by {
        if i < at {
            assert(places[i] == before[i]);
        } else if i > at {
            assert(places[i] == before[i - 1]);
        }
    }
    assert forall|v: int| 0 <= v < keys.len() implies #[trigger] places.contains(v) by {
        if v == next {
            assert(places[at] == next);
        } else {
            assert(before.contains(v));
            let k = choose|k: int| 0 <= k < before.len() && before[k] == v;
            assert(places[if k < at {
                k
            } else {
                k + 1
            }] == v);
        }
    }
    assert forall|i: int, j: int| 0 <= i < j < places.len() implies precedes(
        keys,
        #[trigger] places[i],
        #[trigger] places[j],
    ) by {
        let a = if i < at {
            i
        } else {
            i - 1
        };
        let b = if j < at {
            j
        } else {
            j - 1
        };
        if i != at {
            assert(places[i] == before[a]);
            assert(keys[before[a]] == keys.drop_last()[before[a]]);
        }
        if j != at {
            assert(places[j] == before[b]);
            assert(keys[before[b]] == keys.drop_last()[before[b]]);
        }
        if i != at && j != at {
            assert(precedes(keys.drop_last(), before[a], before[b]));
        }
    }
    places
}

proof fn lemma_place_to_insert(keys: Seq<int>, before: Seq<int>, count: nat) -> (at: int)
    requires
        keys.len() > 0,
        is_order(keys.drop_last(), before),
        count <= before.len(),
        forall|i: int| count <= i < before.len() ==> keys[#[trigger] before[i]] > keys.last(),
    ensures
        0 <= at <= before.len(),
        forall|i: int| 0 <= i < at ==> keys[#[trigger] before[i]] <= keys.last(),
        forall|i: int| at <= i < before.len() ==> keys[#[trigger] before[i]] > keys.last(),
    decreases count,
{
    if count == 0 {
        0
    } else if keys[before[count - 1]] > keys.last() {
        lemma_place_to_insert(keys, before, (count - 1) as nat)
    } else {
        assert forall|i: int| 0 <= i < count implies keys[#[trigger] before[i]] <= keys.last() by {
            if i < count - 1 {
                assert(precedes(keys.drop_last(), before[i], before[count - 1]));
            }
        }
        count as int
    }
}

/// The places of a list in the order of their keys.
pub fn order_places(keys: &Vec<i128>) -> (places: Vec<usize>)
    ensures
        is_order(integers(keys@), places_of(places@)),
        places_of(places@) == order(integers(keys@)),
{
    let mut places: Vec<usize> = Vec::new();
    let ghost all = integers(keys@);
    let mut next: usize = 0;
    while next < keys.len()
        invariant
            next <= keys@.len(),
            all == integers(keys@),
            places@.len() == next,
            forall|i: int| 0 <= i < places@.len() ==> 0 <= #[trigger] places@[i] < next,
            forall|v: usize| 0 <= v < next ==> #[trigger] places@.contains(v),
            forall|i: int, j: int|
                0 <= i < j < places@.len() ==> precedes(
                    all,
                    #[trigger] places@[i] as int,
                    #[trigger] places@[j] as int,
                ),
        decreases keys.len() - next,
    {
        let mut at: usize = places.len();
        while at > 0 && keys[places[at - 1]] > keys[next]
            invariant
                at <= places@.len(),
                next < keys@.len(),
                all == integers(keys@),
                forall|i: int| 0 <= i < places@.len() ==> 0 <= #[trigger] places@[i] < next,
                forall|i: int|
                    at <= i < places@.len() ==> all[#[trigger] places@[i] as int] > all[next as int],
            decreases at,
        {
            at = at - 1;
        }
        let ghost before = places@;
        places.insert(at, next);
        proof {
            let after = places@;
            assert(after =~= before.insert(at as int, next));
            assert forall|i: int| 0 <= i < after.len() implies 0 <= #[trigger] after[i] < next
                + 1 by {
                if i < at {
                    assert(after[i] == before[i]);
                } else if i > at {
                    assert(after[i] == before[i - 1]);
                }
            }
            assert forall|v: usize| 0 <= v < next + 1 implies #[trigger] after.contains(v) by {
                if v == next {
                    assert(after[at as int] == next);
                } else {
                    assert(before.contains(v));
                    let k = choose|k: int| 0 <= k < before.len() && before[k] == v;
                    if k < at {
                        assert(after[k] == v);
                    } else {
                        assert(after[k + 1] == v);
                    }
                }
            }
            assert forall|i: int, j: int| 0 <= i < j < after.len() implies precedes(
                all,
                #[trigger] after[i] as int,
                #[trigger] after[j] as int,
            ) by {
                let a = if i < at { i } else { i - 1 };
                let b = if j < at { j } else { j - 1 };
                if i != at {
                    assert(after[i] == before[a]);
                }
                if j != at {
                    assert(after[j] == before[b]);
                }
                if i != at && j != at {
                    assert(precedes(all, before[a] as int, before[b] as int));
                } else if j == at {
                    if at > 0 && a < at - 1 {
                        assert(precedes(all, before[a] as int, before[at - 1] as int));
                    }
                }
            }
        }
        next = next + 1;
    }
    proof {
        let listed = places_of(places@);
        assert forall|v: int| 0 <= v < all.len() implies #[trigger] listed.contains(v) by {
            assert(places@.contains(v as usize));
            let k = choose|k: int| 0 <= k < places@.len() && places@[k] == v as usize;
            assert(listed[k] == v);
        }
        assert forall|i: int, j: int| 0 <= i < j < listed.len() implies precedes(
            all,
            #[trigger] listed[i],
            #[trigger] listed[j],
        ) by {
            assert(precedes(all, places@[i] as int, places@[j] as int));
        }
        assert(is_order(all, listed));
        lemma_order_is(all, listed);
    }
    places
}

/// Whether a list names each of the first places once.
pub open spec fn is_permutation(places: Seq<int>) -> bool {
    &&& forall|i: int| 0 <= i < places.len() ==> 0 <= #[trigger] places[i] < places.len()
    &&& forall|i: int, j: int|
        0 <= i < j < places.len() ==> #[trigger] places[i] != #[trigger] places[j]
    &&& forall|v: int| 0 <= v < places.len() ==> #[trigger] places.contains(v)
}

/// An order names each place once.
pub proof fn lemma_order_is_permutation(keys: Seq<int>, places: Seq<int>)
    requires
        is_order(keys, places),
    ensures
        is_permutation(places),
{
    assert forall|i: int, j: int| 0 <= i < j < places.len() implies #[trigger] places[i]
        != #[trigger] places[j] by {
        assert(precedes(keys, places[i], places[j]));
    }
}

/// Taking each element once keeps all of them.
pub proof fn lemma_taken_keeps_all<T>(list: Seq<T>, places: Seq<int>)
    requires
        is_permutation(places),
        places.len() == list.len(),
    ensures
        taken(list, places).to_multiset() == list.to_multiset(),
    decreases list.len(),
{
    broadcast use vstd::seq_lib::group_to_multiset_ensures;

    if list.len() == 0 {
        assert(taken(list, places) =~= list);
    } else {
        let last = list.len() - 1;
        assert(places.contains(last));
        let k = choose|k: int| 0 <= k < places.len() && places[k] == last;
        let rest = places.remove(k);
        assert forall|i: int| 0 <= i < rest.len() implies 0 <= #[trigger] rest[i] < rest.len() by {
            if i < k {
                assert(rest[i] == places[i]);
            } else {
                assert(rest[i] == places[i + 1]);
            }
        }
        assert forall|i: int, j: int| 0 <= i < j < rest.len() implies #[trigger] rest[i]
            != #[trigger] rest[j] by {
            let a = if i < k {
                i
            } else {
                i + 1
            };
            let b = if j < k {
                j
            } else {
                j + 1
            };
            assert(rest[i] == places[a] && rest[j] == places[b]);
        }
        assert forall|v: int| 0 <= v < rest.len() implies #[trigger] rest.contains(v) by {
            assert(places.contains(v));
            let m = choose|m: int| 0 <= m < places.len() && places[m] == v;
            if m < k {
                assert(rest[m] == v);
            } else {
                assert(rest[m - 1] == v);
            }
        }
        lemma_taken_keeps_all(list.drop_last(), rest);
        let all = taken(list, places);
        assert(all.remove(k) =~= taken(list.drop_last(), rest));
        assert(list =~= list.drop_last().push(list.last()));
        assert(all.remove(k).to_multiset() =~= all.to_multiset().remove(all[k]));
        assert(all.contains(all[k]));
        assert(all.to_multiset() =~= all.remove(k).to_multiset().insert(all[k]));
    }
}

/// Two lists in a row hold what each of them holds.
pub proof fn lemma_multiset_concat<T>(left: Seq<T>, right: Seq<T>)
    ensures
        (left + right).to_multiset() =~= left.to_multiset().add(right.to_multiset()),
    decreases right.len(),
{
    broadcast use vstd::seq_lib::group_to_multiset_ensures;

    if right.len() == 0 {
        assert(left + right =~= left);
        assert(right.to_multiset() =~= vstd::multiset::Multiset::empty());
    } else {
        lemma_multiset_concat(left, right.drop_last());
        assert(left + right =~= (left + right.drop_last()).push(right.last()));
        assert(right =~= right.drop_last().push(right.last()));
    }
}

/// The order of keys puts every place once, smaller keys first, and equal keys as they stand.
pub proof fn law_sorting_is_stable(keys: Seq<int>)
    ensures
        order(keys).len() == keys.len(),
        forall|i: int| 0 <= i < keys.len() ==> 0 <= #[trigger] order(keys)[i] < keys.len(),
        forall|i: int, j: int|
            0 <= i < j < keys.len() ==> keys[#[trigger] order(keys)[i]] < keys[#[trigger] order(
                keys,
            )[j]] || (keys[order(keys)[i]] == keys[order(keys)[j]] && order(keys)[i] < order(
                keys,
            )[j]),
{
    lemma_order_exists(keys);
}

} // verus!
