//! Powers of two.

use vstd::arithmetic::power2;
use vstd::prelude::*;

verus! {

/// Whether a number is a power of two.
pub open spec fn is_power(n: int) -> bool {
    exists|k: nat| #[trigger] power2::pow2(k) == n
}

/// Whether a number is a power of two.
pub fn is_power_of_two(n: usize) -> (power: bool)
    ensures
        power == is_power(n as int),
{
    if n == 0 {
        proof {
            assert forall|k: nat| #[trigger] power2::pow2(k) != 0 by {
                power2::lemma_pow2_pos(k);
            }
        }
        return false;
    }
    let mut p: usize = 1;
    let ghost mut k: nat = 0;
    proof {
        power2::lemma2_to64();
    }
    while p <= n / 2
        invariant
            0 < p <= n,
            p == power2::pow2(k),
        decreases n - p,
    {
        proof {
            power2::lemma_pow2_unfold(k + 1);
            k = k + 1;
        }
        p = p * 2;
    }
    proof {
        power2::lemma_pow2_unfold(k + 1);
        if is_power(n as int) {
            let j = choose|j: nat| #[trigger] power2::pow2(j) == n;
            if j < k {
                power2::lemma_pow2_strictly_increases(j, k);
            } else if j > k + 1 {
                power2::lemma_pow2_strictly_increases(k + 1, j);
            }
        }
    }
    p == n
}

/// The least power of two that is at least `n`.
pub open spec fn is_next_power_of_two(n: int, p: int) -> bool {
    &&& n <= p
    &&& exists|k: nat| #[trigger] power2::pow2(k) == p
    &&& forall|k: nat| n <= #[trigger] power2::pow2(k) ==> p
        <= power2::pow2(k)
}

/// The least power of two that is at least `n`.
pub fn next_power_of_two(n: usize) -> (p: usize)
    requires
        n <= usize::MAX / 2 + 1,
    ensures
        is_next_power_of_two(n as int, p as int),
{
    let mut p: usize = 1;
    let ghost mut k: nat = 0;
    proof {
        power2::lemma2_to64();
    }
    while p < n
        invariant
            n <= usize::MAX / 2 + 1,
            p == power2::pow2(k),
            forall|j: nat| j < k ==> #[trigger] power2::pow2(j) < n,
        decreases usize::MAX - p,
    {
        proof {
            power2::lemma_pow2_unfold(k + 1);
            power2::lemma_pow2_pos(k);
            k = k + 1;
        }
        p = p * 2;
    }
    assert forall|j: nat| n <= #[trigger] power2::pow2(j) implies p
        <= power2::pow2(j) by {
        if k < j {
            power2::lemma_pow2_strictly_increases(k, j);
        }
    }
    p
}

} // verus!
