//! Which places of a list are chosen by a condition.

use vstd::prelude::*;

use crate::ieee::F32;

verus! {

/// Whether `places` are, from the lowest up, exactly those of the first `n` places that
/// meet a condition.
pub open spec fn is_choice(places: Seq<int>, n: int, keep: spec_fn(int) -> bool) -> bool {
    &&& forall|i: int| 0 <= i < places.len() ==> 0 <= #[trigger] places[i] < n && keep(places[i])
    &&& forall|i: int, j: int| 0 <= i < j < places.len() ==> #[trigger] places[i] < #[trigger] places[j]
    &&& forall|k: int| 0 <= k < n && #[trigger] keep(k) ==> places.contains(k)
}

/// What stands at some places of a list.
pub open spec fn at_places<T>(list: Seq<T>, places: Seq<int>) -> Seq<T> {
    Seq::new(places.len(), |i: int| list[places[i]])
}

/// Whether the number at a place is the greatest of those that meet a condition, and
/// the last of equals.
pub open spec fn is_greatest(numbers: Seq<F32>, keep: spec_fn(int) -> bool, at: int) -> bool {
    &&& 0 <= at < numbers.len()
    &&& keep(at)
    &&& forall|k: int|
        0 <= k < numbers.len() && #[trigger] keep(k) ==> numbers[k].total_rank()
            <= numbers[at].total_rank() && (k > at ==> numbers[k].total_rank()
            < numbers[at].total_rank())
}

/// A choice by one condition is the choice by another that says the same.
pub proof fn lemma_same_choice(
    places: Seq<int>,
    n: int,
    keep: spec_fn(int) -> bool,
    same: spec_fn(int) -> bool,
)
    requires
        is_choice(places, n, keep),
        forall|k: int| 0 <= k < n ==> #[trigger] keep(k) == #[trigger] same(k),
    ensures
        is_choice(places, n, same),
{
    assert forall|i: int| 0 <= i < places.len() implies 0 <= #[trigger] places[i] < n && same(
        places[i],
    ) by {
        assert(keep(places[i]) == same(places[i]));
    }
    assert forall|k: int| 0 <= k < n && #[trigger] same(k) implies places.contains(k) by {
        assert(keep(k) == same(k));
    }
}

/// Places in a row are the choice of those between their ends.
pub proof fn lemma_row_is_a_choice<T>(list: Seq<T>, low: int, high: int) -> (places: Seq<int>)
    requires
        0 <= low <= high <= list.len(),
    ensures
        is_choice(places, list.len() as int, |k: int| low <= k < high),
        at_places(list, places) == list.subrange(low, high),
{
    let places = Seq::new((high - low) as nat, |i: int| low + i);
    let keep = |k: int| low <= k < high;
    assert forall|k: int| 0 <= k < list.len() && #[trigger] keep(k) implies places.contains(k) by {
        assert(places[k - low] == k);
    }
    assert(at_places(list, places) =~= list.subrange(low, high));
    places
}

/// One place more: the choice among the first `n + 1` places, from that among the first
/// `n`.
pub proof fn lemma_choice_goes_on(places: Seq<int>, n: int, keep: spec_fn(int) -> bool)
    requires
        0 <= n,
        is_choice(places, n, keep),
    ensures
        keep(n) ==> is_choice(places.push(n), n + 1, keep),
        !keep(n) ==> is_choice(places, n + 1, keep),
{
    if keep(n) {
        let more = places.push(n);
        assert forall|k: int| 0 <= k < n + 1 && #[trigger] keep(k) implies more.contains(k) by {
            if k < n {
                let i = choose|i: int| 0 <= i < places.len() && places[i] == k;
                assert(more[i] == k);
            } else {
                assert(more[places.len() as int] == n);
            }
        }
    }
}

/// There is one choice only.
pub proof fn lemma_choice_is_one(
    a: Seq<int>,
    b: Seq<int>,
    n: int,
    keep: spec_fn(int) -> bool,
)
    requires
        is_choice(a, n, keep),
        is_choice(b, n, keep),
    ensures
        a == b,
    decreases a.len(),
{
    if a.len() == 0 {
        if b.len() > 0 {
            assert(keep(b[0]));
            assert(a.contains(b[0]));
        }
        assert(a =~= b);
    } else {
        let last = a[a.len() - 1];
        assert(keep(last));
        assert(b.contains(last));
        assert(b.len() > 0);
        let end = b[b.len() - 1];
        assert(keep(end));
        assert(a.contains(end));
        let i = choose|i: int| 0 <= i < a.len() && a[i] == end;
        let j = choose|j: int| 0 <= j < b.len() && b[j] == last;
        assert(last == end);
        let (x, y) = (a.drop_last(), b.drop_last());
        let fewer = |k: int| keep(k) && k < last;
        lemma_choice_without_last(a, n, keep, fewer);
        lemma_choice_without_last(b, n, keep, fewer);
        lemma_choice_is_one(x, y, n, fewer);
        assert(a =~= x.push(last));
        assert(b =~= y.push(last));
    }
}

proof fn lemma_choice_without_last(
    a: Seq<int>,
    n: int,
    keep: spec_fn(int) -> bool,
    fewer: spec_fn(int) -> bool,
)
    requires
        is_choice(a, n, keep),
        a.len() > 0,
        forall|k: int| #[trigger] fewer(k) == (keep(k) && k < a[a.len() - 1]),
    ensures
        is_choice(a.drop_last(), n, fewer),
{
    let x = a.drop_last();
    assert forall|i: int| 0 <= i < x.len() implies 0 <= #[trigger] x[i] < n && fewer(x[i]) by {
        assert(x[i] == a[i]);
        assert(a[i] < a[a.len() - 1]);
    }
    assert forall|k: int| 0 <= k < n && #[trigger] fewer(k) implies x.contains(k) by {
        assert(keep(k));
        let i = choose|i: int| 0 <= i < a.len() && a[i] == k;
        assert(x[i] == k);
    }
}

} // verus!
