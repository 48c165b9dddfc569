//! Where a curve is highest.

use vstd::prelude::*;

use crate::arith::{Arith, Calc};
use crate::ieee::F32;
use crate::numbers::{num, HALF, TWO, ZERO};

verus! {

/// Minus one half.
pub const MINUS_HALF: u32 = 0xBF00_0000;

/// The least curvature that counts as a peak.
pub const LEAST_CURVATURE: u32 = 0x1E3C_E508;

/// Whether the greatest number stands at `at`, and nowhere after it.
pub open spec fn is_last_peak(numbers: Seq<F32>, at: int) -> bool {
    &&& 0 <= at < numbers.len()
    &&& forall|i: int|
        0 <= i < numbers.len() ==> #[trigger] numbers[i].total_rank() <= numbers[at].total_rank()
    &&& forall|i: int|
        at < i < numbers.len() ==> #[trigger] numbers[i].total_rank() < numbers[at].total_rank()
}

/// Where the last of the greatest numbers stands.
pub open spec fn last_peak(numbers: Seq<F32>) -> int {
    choose|at: int| is_last_peak(numbers, at)
}

/// Among numbers there is always a last peak.
pub proof fn lemma_there_is_a_last_peak(numbers: Seq<F32>)
    requires
        numbers.len() > 0,
    ensures
        is_last_peak(numbers, last_peak(numbers)),
    decreases numbers.len(),
{
    let before = numbers.drop_last();
    let end = numbers.len() - 1;
    if end == 0 {
        assert(is_last_peak(numbers, 0));
    } else {
        lemma_there_is_a_last_peak(before);
        let at = last_peak(before);
        assert(before[at] == numbers[at]);
        assert forall|k: int| 0 <= k < end implies before[k] == #[trigger] numbers[k] by {}
        if numbers[at].total_rank() <= numbers[end].total_rank() {
            assert(is_last_peak(numbers, end));
        } else {
            assert(is_last_peak(numbers, at));
        }
    }
}

/// The last of the greatest numbers stands at one place only.
pub proof fn lemma_last_peak_is_one(numbers: Seq<F32>, at: int)
    requires
        is_last_peak(numbers, at),
    ensures
        last_peak(numbers) == at,
{
    let other = last_peak(numbers);
    assert(is_last_peak(numbers, other));
    if other < at {
        assert(numbers[at].total_rank() < numbers[other].total_rank());
        assert(numbers[other].total_rank() <= numbers[at].total_rank());
    } else if at < other {
        assert(numbers[other].total_rank() < numbers[at].total_rank());
        assert(numbers[at].total_rank() <= numbers[other].total_rank());
    }
}

/// Where the last of the greatest numbers stands. `None` when there is no number.
pub fn find_last_peak(numbers: &[F32]) -> (at: Option<usize>)
    ensures
        at is None <==> numbers@.len() == 0,
        at matches Some(i) ==> is_last_peak(numbers@, i as int) && last_peak(numbers@) == i,
{
    let n: usize = numbers.len();
    if n == 0 {
        return None;
    }
    let mut at: usize = 0;
    let mut best: i64 = numbers[0].total_key();
    let mut i: usize = 1;
    while i < n
        invariant
            n == numbers@.len(),
            at < i <= n,
            best == numbers@[at as int].total_rank(),
            forall|k: int| 0 <= k < i ==> #[trigger] numbers@[k].total_rank() <= best,
            forall|k: int| at < k < i ==> #[trigger] numbers@[k].total_rank() < best,
        decreases n - i,
    {
        let key: i64 = numbers[i].total_key();
        if best <= key {
            best = key;
            at = i;
        }
        i = i + 1;
    }
    proof {
        lemma_last_peak_is_one(numbers@, at as int);
    }
    Some(at)
}

/// How far from the middle of three points a parabola through them peaks, in units
/// of their spacing. Points with no curvature keep the middle one.
#[verifier::allow_in_spec]
pub fn parabola_offset<C: Fn(Calc) -> F32>(
    m: &Arith<C>,
    before: F32,
    peak: F32,
    after: F32,
) -> F32
    returns
        (if num(LEAST_CURVATURE).lt(
            m.plus(m.minus(before, m.times(num(TWO), peak)), after).abs(),
        ) {
            m.over(
                m.times(num(HALF), m.minus(before, after)),
                m.plus(m.minus(before, m.times(num(TWO), peak)), after),
            ).clamp(num(MINUS_HALF), num(HALF))
        } else {
            num(ZERO)
        }),
{
    let curvature = m.plus(m.minus(before, m.times(num(TWO), peak)), after);
    if num(LEAST_CURVATURE).lt(curvature.abs()) {
        m.over(m.times(num(HALF), m.minus(before, after)), curvature).clamp(
            num(MINUS_HALF),
            num(HALF),
        )
    } else {
        num(ZERO)
    }
}

/// The refined peak lies within half a spacing of the point it refines.
pub proof fn lemma_offset_within_half<C: Fn(Calc) -> F32>(
    m: &Arith<C>,
    before: F32,
    peak: F32,
    after: F32,
)
    requires
        !parabola_offset(m, before, peak, after).nan(),
    ensures
        num(MINUS_HALF).at_most(parabola_offset(m, before, peak, after)),
        parabola_offset(m, before, peak, after).at_most(num(HALF)),
{
}

} // verus!
