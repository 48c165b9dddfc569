//! Points of a sparse curve: levels at frequencies.

use vstd::prelude::*;

use crate::choice;
use crate::ieee::F32;
use crate::numbers::{num, ZERO};
use crate::order;
use crate::order::arrange;

verus! {

/// A level at a frequency.
#[derive(Debug, Clone, Copy, PartialEq, Eq, Structural)]
pub struct LevelPoint {
    /// Frequency in hertz.
    pub hz: F32,
    /// Level in decibels.
    pub db: F32,
}

impl LevelPoint {
    /// Whether the point says anything: at a positive frequency, and finite.
    #[verifier::allow_in_spec]
    pub fn usable(&self) -> bool
        returns
            num(ZERO).lt(self.hz) && self.hz.is_finite() && self.db.is_finite(),
    {
        num(ZERO).lt(self.hz) && self.hz.is_finite() && self.db.is_finite()
    }
}

/// The points that say anything, in their order.
pub open spec fn usable_points(points: Seq<LevelPoint>) -> Seq<LevelPoint>
    decreases points.len(),
{
    if points.len() == 0 {
        Seq::empty()
    } else if points.last().usable() {
        usable_points(points.drop_last()).push(points.last())
    } else {
        usable_points(points.drop_last())
    }
}

/// The places of the frequencies in the total order.
pub open spec fn frequency_keys(points: Seq<LevelPoint>) -> Seq<i64> {
    Seq::new(points.len(), |i: int| points[i].hz.total_rank() as i64)
}

/// Whether `sorted` holds the usable points, in stable ascending order of their
/// frequencies.
pub open spec fn tidied(points: Seq<LevelPoint>, sorted: Seq<LevelPoint>) -> bool {
    order::arranged(usable_points(points), frequency_keys(usable_points(points)), sorted)
}

/// Whether every point is usable, and frequencies ascend.
pub open spec fn in_shape(points: Seq<LevelPoint>) -> bool {
    &&& forall|i: int| 0 <= i < points.len() ==> (#[trigger] points[i]).usable()
    &&& forall|i: int, j: int|
        0 <= i < j < points.len() ==> (#[trigger] points[i]).hz.at_most((#[trigger] points[j]).hz)
}

proof fn lemma_usable_points_are(points: Seq<LevelPoint>)
    ensures
        forall|i: int|
            0 <= i < usable_points(points).len() ==> (#[trigger] usable_points(points)[i]).usable(),
    decreases points.len(),
{
    if points.len() > 0 {
        lemma_usable_points_are(points.drop_last());
        let before = usable_points(points.drop_last());
        assert forall|i: int| 0 <= i < usable_points(points).len() implies (
        #[trigger] usable_points(points)[i]).usable() by {
            if i < before.len() {
                assert(usable_points(points)[i] == before[i]);
            }
        }
    }
}

/// Tidied points are usable and ascend.
pub proof fn lemma_tidied_is_in_shape(points: Seq<LevelPoint>, sorted: Seq<LevelPoint>)
    requires
        tidied(points, sorted),
    ensures
        in_shape(sorted),
{
    let usable = usable_points(points);
    let keys = frequency_keys(usable);
    lemma_usable_points_are(points);
    let order = order::lemma_arranged_ascends(usable, keys, sorted);
    assert forall|i: int| 0 <= i < sorted.len() implies (#[trigger] sorted[i]).usable() by {
        assert(sorted[i] == usable[order[i] as int]);
    }
    assert forall|i: int, j: int| 0 <= i < j < sorted.len() implies (
    #[trigger] sorted[i]).hz.at_most((#[trigger] sorted[j]).hz) by {
        assert(keys[order[i] as int] <= keys[order[j] as int]);
        assert(sorted[i].usable() && sorted[j].usable());
    }
}

/// Points that are in shape already are tidied to themselves.
pub proof fn lemma_shape_stays(points: Seq<LevelPoint>, sorted: Seq<LevelPoint>)
    requires
        in_shape(points),
        tidied(points, sorted),
    ensures
        sorted == points,
{
    lemma_usable_stay(points);
    let keys = frequency_keys(points);
    assert forall|i: int, j: int| 0 <= i < j < keys.len() implies #[trigger] keys[i]
        <= #[trigger] keys[j] by {
        assert(points[i].usable() && points[j].usable());
        assert(points[i].hz.at_most(points[j].hz));
    }
    order::lemma_ascending_stays(points, keys, sorted);
}

proof fn lemma_usable_stay(points: Seq<LevelPoint>)
    requires
        forall|i: int| 0 <= i < points.len() ==> (#[trigger] points[i]).usable(),
    ensures
        usable_points(points) == points,
    decreases points.len(),
{
    if points.len() > 0 {
        let rest = points.drop_last();
        assert forall|i: int| 0 <= i < rest.len() implies (#[trigger] rest[i]).usable() by {
            assert(rest[i] == points[i]);
        }
        lemma_usable_stay(rest);
        assert(points[points.len() - 1].usable());
        assert(usable_points(points) =~= points);
    }
}

/// Keep the usable points, and sort them by frequency.
pub fn tidy(points: &[LevelPoint]) -> (sorted: Vec<LevelPoint>)
    ensures
        tidied(points@, sorted@),
        in_shape(sorted@),
{
    let mut kept: Vec<LevelPoint> = Vec::new();
    let mut keys: Vec<i64> = Vec::new();
    let mut i: usize = 0;
    assert(points@.take(0) =~= Seq::<LevelPoint>::empty());
    while i < points.len()
        invariant
            i <= points@.len(),
            kept@ == usable_points(points@.take(i as int)),
            keys@ == frequency_keys(kept@),
        decreases points@.len() - i,
    {
        let point = points[i];
        let ghost before = kept@;
        if point.usable() {
            kept.push(point);
            keys.push(point.hz.total_key());
        }
        i = i + 1;
        assert(points@.take(i as int).drop_last() =~= points@.take(i - 1));
        assert(keys@ =~= frequency_keys(kept@));
    }
    assert(points@.take(i as int) =~= points@);
    let sorted = arrange(kept.as_slice(), keys.as_slice());
    proof {
        lemma_tidied_is_in_shape(points@, sorted@);
    }
    sorted
}

/// The usable points are those at a positive frequency whose frequency and level are
/// finite, in their order, and no other.
pub proof fn lemma_usable_points_are_chosen(points: Seq<LevelPoint>) -> (places: Seq<int>)
    ensures
        choice::is_choice(
            places,
            points.len() as int,
            |k: int|
                num(ZERO).less(points[k].hz) && points[k].hz.finite() && points[k].db.finite(),
        ),
        usable_points(points) == choice::at_places(points, places),
    decreases points.len(),
{
    let keep = |k: int|
        num(ZERO).less(points[k].hz) && points[k].hz.finite() && points[k].db.finite();
    if points.len() == 0 {
        let places = Seq::<int>::empty();
        assert(usable_points(points) =~= choice::at_places(points, places));
        places
    } else {
        let rest = points.drop_last();
        let end = rest.len() as int;
        let before = lemma_usable_points_are_chosen(rest);
        choice::lemma_same_choice(
            before,
            end,
            |k: int| num(ZERO).less(rest[k].hz) && rest[k].hz.finite() && rest[k].db.finite(),
            keep,
        );
        choice::lemma_choice_goes_on(before, end, keep);
        let places = if keep(end) {
            before.push(end)
        } else {
            before
        };
        assert forall|i: int| 0 <= i < before.len() implies rest[#[trigger] before[i]]
            == points[before[i]] by {
            assert(0 <= before[i] < end);
        }
        assert(usable_points(points) =~= choice::at_places(points, places));
        places
    }
}

} // verus!
