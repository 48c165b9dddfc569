//! Stable ordering of items by a key.

use vstd::prelude::*;

use crate::ieee::F32;

verus! {

/// Whether item `a` comes before item `b`: by the smaller key, and between equal
/// keys by the earlier place.
pub open spec fn precedes(keys: Seq<i64>, a: int, b: int) -> bool {
    keys[a] < keys[b] || (keys[a] == keys[b] && a < b)
}

/// Whether `order` lists all items of `keys` in stable ascending order.
pub open spec fn is_stable_order(keys: Seq<i64>, order: Seq<usize>) -> bool {
    &&& order.len() == keys.len()
    &&& forall|i: int| 0 <= i < order.len() ==> 0 <= #[trigger] order[i] < keys.len()
    &&& forall|i: int, j: int|
        0 <= i < j < order.len() ==> precedes(
            keys,
            #[trigger] order[i] as int,
            #[trigger] order[j] as int,
        )
}

/// The places of all items, in stable ascending order of their keys.
pub fn stable_order(keys: &[i64]) -> (order: Vec<usize>)
    ensures
        is_stable_order(keys@, order@),
{
    let mut order: Vec<usize> = Vec::new();
    let mut next: usize = 0;
    while next < keys.len()
        invariant
            next <= keys@.len(),
            order@.len() == next,
            forall|i: int| 0 <= i < order@.len() ==> 0 <= #[trigger] order@[i] < next,
            forall|i: int, j: int|
                0 <= i < j < order@.len() ==> precedes(
                    keys@,
                    #[trigger] order@[i] as int,
                    #[trigger] order@[j] as int,
                ),
        decreases keys@.len() - next,
    {
        // Every item placed so far is earlier, so the new one goes behind its equals.
        let mut at: usize = order.len();
        while at > 0 && keys[order[at - 1]] > keys[next]
            invariant
                at <= order@.len(),
                next < keys@.len(),
                order@.len() == next,
                forall|i: int| 0 <= i < order@.len() ==> 0 <= #[trigger] order@[i] < next,
                forall|i: int|
                    at <= i < order@.len() ==> keys@[#[trigger] order@[i] as int] > keys@[
                        next as int],
            decreases at,
        {
            at = at - 1;
        }
        let ghost before = order@;
        order.insert(at, next);
        proof {
            assert forall|i: int, j: int| 0 <= i < j < order@.len() implies precedes(
                keys@,
                #[trigger] order@[i] as int,
                #[trigger] order@[j] as int,
            ) by {
                let from_i = if i < at {
                    i
                } else {
                    i - 1
                };
                let from_j = if j < at {
                    j
                } else {
                    j - 1
                };
                if i != at {
                    assert(order@[i] == before[from_i]);
                }
                if j != at {
                    assert(order@[j] == before[from_j]);
                }
                if j == at && at > 0 {
                    // Everything before the gap is at most the last of it.
                    if i < at - 1 {
                        assert(precedes(keys@, before[i] as int, before[at - 1] as int));
                    }
                    assert(keys@[before[at - 1] as int] <= keys@[next as int]);
                }
            }
        }
        next = next + 1;
    }
    order
}

/// An ordering lists each item once.
pub proof fn lemma_order_has_each_once(keys: Seq<i64>, order: Seq<usize>, i: int, j: int)
    requires
        is_stable_order(keys, order),
        0 <= i < order.len(),
        0 <= j < order.len(),
        i != j,
    ensures
        order[i] != order[j],
{
    if i < j {
        assert(precedes(keys, order[i] as int, order[j] as int));
    } else {
        assert(precedes(keys, order[j] as int, order[i] as int));
    }
}

/// Whether `sorted` holds all of `items`, in stable ascending order of their keys.
pub open spec fn arranged<T>(items: Seq<T>, keys: Seq<i64>, sorted: Seq<T>) -> bool {
    exists|order: Seq<usize>| #[trigger]
        is_stable_order(keys, order) && sorted == Seq::new(
            items.len(),
            |i: int| items[order[i] as int],
        )
}

/// All items, in stable ascending order of their keys.
pub fn arrange<T: Copy>(items: &[T], keys: &[i64]) -> (sorted: Vec<T>)
    requires
        items@.len() == keys@.len(),
    ensures
        arranged(items@, keys@, sorted@),
        sorted@.len() == items@.len(),
{
    let order = stable_order(keys);
    let mut sorted: Vec<T> = Vec::new();
    let mut i: usize = 0;
    while i < order.len()
        invariant
            i <= order@.len(),
            order@.len() == items@.len(),
            keys@.len() == items@.len(),
            is_stable_order(keys@, order@),
            sorted@.len() == i,
            forall|k: int| 0 <= k < i ==> #[trigger] sorted@[k] == items@[order@[k] as int],
        decreases order@.len() - i,
    {
        sorted.push(items[order[i]]);
        i = i + 1;
    }
    assert(sorted@ =~= Seq::new(items@.len(), |i: int| items@[order@[i] as int]));
    sorted
}

/// Arranged items are those that were there, and their keys ascend.
pub proof fn lemma_arranged_ascends<T>(items: Seq<T>, keys: Seq<i64>, sorted: Seq<T>) -> (order: Seq<
    usize,
>)
    requires
        arranged(items, keys, sorted),
        items.len() == keys.len(),
    ensures
        sorted.len() == items.len(),
        order.len() == items.len(),
        forall|i: int|
            0 <= i < items.len() ==> 0 <= #[trigger] order[i] < items.len() && sorted[i]
                == items[order[i] as int],
        forall|i: int, j: int|
            0 <= i < j < items.len() ==> keys[#[trigger] order[i] as int]
                <= keys[#[trigger] order[j] as int],
{
    let order = choose|order: Seq<usize>| #[trigger]
        is_stable_order(keys, order) && sorted == Seq::new(
            items.len(),
            |i: int| items[order[i] as int],
        );
    assert forall|i: int, j: int| 0 <= i < j < items.len() implies keys[#[trigger] order[i] as int]
        <= keys[#[trigger] order[j] as int] by {
        assert(precedes(keys, order[i] as int, order[j] as int));
    }
    order
}

/// An ordering lists every item.
pub proof fn lemma_order_has_all(keys: Seq<i64>, order: Seq<usize>, at: int) -> (place: int)
    requires
        is_stable_order(keys, order),
        0 <= at < keys.len(),
    ensures
        0 <= place < order.len(),
        order[place] == at,
{
    let places = order.map_values(|u: usize| u as int);
    let all = vstd::set_lib::set_int_range(0, keys.len() as int);
    assert(places.no_duplicates()) by {
        assert forall|i: int, j: int|
            0 <= i < places.len() && 0 <= j < places.len() && i != j implies places[i]
            != places[j] by {
            lemma_order_has_each_once(keys, order, i, j);
        }
    }
    places.unique_seq_to_set();
    vstd::set_lib::lemma_int_range(0, keys.len() as int);
    assert(places.to_set().subset_of(all)) by {
        assert forall|p: int| places.to_set().contains(p) implies all.contains(p) by {
            let i = choose|i: int| 0 <= i < places.len() && places[i] == p;
            assert(places[i] == order[i]);
        }
    }
    vstd::seq_lib::seq_to_set_is_finite(places);
    vstd::set_lib::lemma_subset_equality(places.to_set(), all);
    assert(all.contains(at));
    assert(places.to_set().contains(at));
    let place = choose|i: int| 0 <= i < places.len() && places[i] == at;
    assert(order[place] == at);
    place
}

/// Every item that was there is among the arranged ones.
pub proof fn lemma_arranged_has_all<T>(
    items: Seq<T>,
    keys: Seq<i64>,
    sorted: Seq<T>,
    at: int,
) -> (place: int)
    requires
        arranged(items, keys, sorted),
        items.len() == keys.len(),
        0 <= at < items.len(),
    ensures
        0 <= place < sorted.len(),
        sorted[place] == items[at],
{
    let order = choose|order: Seq<usize>| #[trigger]
        is_stable_order(keys, order) && sorted == Seq::new(
            items.len(),
            |i: int| items[order[i] as int],
        );
    lemma_order_has_all(keys, order, at)
}

/// Items with equal keys stay in their order: those that came before an item with its
/// key stand before it.
pub proof fn lemma_arranged_is_stable<T>(
    items: Seq<T>,
    keys: Seq<i64>,
    sorted: Seq<T>,
    place: int,
) -> (at: int)
    requires
        arranged(items, keys, sorted),
        items.len() == keys.len(),
        0 <= place < sorted.len(),
    ensures
        0 <= at < items.len(),
        sorted[place] == items[at],
        forall|b: int|
            0 <= b < at && #[trigger] keys[b] == keys[at] ==> sorted.take(place).contains(
                items[b],
            ),
{
    let order = choose|order: Seq<usize>| #[trigger]
        is_stable_order(keys, order) && sorted == Seq::new(
            items.len(),
            |i: int| items[order[i] as int],
        );
    let at = order[place] as int;
    assert forall|b: int| 0 <= b < at && #[trigger] keys[b] == keys[at] implies sorted.take(
        place,
    ).contains(items[b]) by {
        let before = lemma_order_has_all(keys, order, b);
        if before > place {
            assert(precedes(keys, order[place] as int, order[before] as int));
        }
        assert(sorted.take(place)[before] == items[b]);
    }
    at
}

/// Items whose keys ascend already stay where they are.
pub proof fn lemma_ascending_stays<T>(items: Seq<T>, keys: Seq<i64>, sorted: Seq<T>)
    requires
        arranged(items, keys, sorted),
        items.len() == keys.len(),
        forall|i: int, j: int| 0 <= i < j < keys.len() ==> #[trigger] keys[i] <= #[trigger] keys[j],
    ensures
        sorted == items,
{
    let order = choose|order: Seq<usize>| #[trigger]
        is_stable_order(keys, order) && sorted == Seq::new(
            items.len(),
            |i: int| items[order[i] as int],
        );
    assert forall|i: int| 0 <= i < order.len() implies #[trigger] order[i] == i by {
        lemma_at_least_place(keys, order, i);
        lemma_at_most_place(keys, order, i);
    }
    assert(sorted =~= items);
}

proof fn lemma_at_least_place(keys: Seq<i64>, order: Seq<usize>, i: int)
    requires
        is_stable_order(keys, order),
        forall|i: int, j: int| 0 <= i < j < keys.len() ==> #[trigger] keys[i] <= #[trigger] keys[j],
        0 <= i < order.len(),
    ensures
        order[i] >= i,
    decreases i,
{
    if i > 0 {
        lemma_at_least_place(keys, order, i - 1);
        assert(precedes(keys, order[i - 1] as int, order[i] as int));
    }
}

proof fn lemma_at_most_place(keys: Seq<i64>, order: Seq<usize>, i: int)
    requires
        is_stable_order(keys, order),
        forall|i: int, j: int| 0 <= i < j < keys.len() ==> #[trigger] keys[i] <= #[trigger] keys[j],
        0 <= i < order.len(),
    ensures
        order[i] <= i,
    decreases order.len() - i,
{
    if i < order.len() - 1 {
        lemma_at_most_place(keys, order, i + 1);
        assert(precedes(keys, order[i] as int, order[i + 1] as int));
    }
}

/// The total order of numbers.
pub open spec fn ascending() -> spec_fn(F32, F32) -> bool {
    |a: F32, b: F32| a.total_rank() <= b.total_rank()
}

/// The total order of numbers is one: every two numbers are comparable, and only
/// equal ones share a place.
pub proof fn lemma_ascending_is_total()
    ensures
        vstd::relations::total_ordering(ascending()),
{
}

/// Numbers in ascending total order.
pub fn sorted_numbers(numbers: &[F32]) -> (sorted: Vec<F32>)
    ensures
        sorted@ == numbers@.sort_by(ascending()),
        sorted@.len() == numbers@.len(),
{
    let n: usize = numbers.len();
    let mut sorted: Vec<F32> = Vec::new();
    let mut next: usize = 0;
    assert(numbers@.take(0) =~= Seq::<F32>::empty());
    while next < n
        invariant
            n == numbers@.len(),
            next <= n,
            sorted@.len() == next,
            sorted@.to_multiset() == numbers@.take(next as int).to_multiset(),
            forall|i: int, j: int|
                0 <= i < j < sorted@.len() ==> #[trigger] sorted@[i].total_rank()
                    <= #[trigger] sorted@[j].total_rank(),
        decreases n - next,
    {
        let number = numbers[next];
        let key: i64 = number.total_key();
        let mut low: usize = 0;
        let mut high: usize = sorted.len();
        while low < high
            invariant
                low <= high <= sorted@.len(),
                key == number.total_rank(),
                forall|i: int, j: int|
                    0 <= i < j < sorted@.len() ==> #[trigger] sorted@[i].total_rank()
                        <= #[trigger] sorted@[j].total_rank(),
                forall|i: int| 0 <= i < low ==> #[trigger] sorted@[i].total_rank() <= key,
                forall|i: int|
                    high <= i < sorted@.len() ==> key < #[trigger] sorted@[i].total_rank(),
            decreases high - low,
        {
            let middle: usize = low + (high - low) / 2;
            if sorted[middle].total_key() <= key {
                low = middle + 1;
            } else {
                high = middle;
            }
        }
        let ghost before = sorted@;
        sorted.insert(low, number);
        proof {
            vstd::seq_lib::to_multiset_insert(before, low as int, number);
            vstd::seq_lib::to_multiset_build(numbers@.take(next as int), number);
            assert(numbers@.take(next as int).push(number) =~= numbers@.take(next + 1));
            assert(sorted@ =~= before.insert(low as int, number));
            assert forall|i: int, j: int| 0 <= i < j < sorted@.len() implies
                #[trigger] sorted@[i].total_rank() <= #[trigger] sorted@[j].total_rank() by {
                let from_i = if i < low {
                    i
                } else {
                    i - 1
                };
                let from_j = if j < low {
                    j
                } else {
                    j - 1
                };
                if i != low {
                    assert(sorted@[i] == before[from_i]);
                }
                if j != low {
                    assert(sorted@[j] == before[from_j]);
                }
            }
        }
        next = next + 1;
    }
    proof {
        let leq = ascending();
        assert(numbers@.take(n as int) =~= numbers@);
        lemma_ascending_is_total();
        numbers@.lemma_sort_by_ensures(leq);
        assert(vstd::relations::sorted_by(sorted@, leq));
        vstd::seq_lib::lemma_sorted_unique(sorted@, numbers@.sort_by(leq), leq);
    }
    sorted
}

} // verus!
