//! Floating-point numbers as bit patterns: their order, their classes and their
//! exact roundings to integers.
//!
//! The library decides on numbers, it does no floating-point arithmetic. A number
//! is held as its IEEE 754 bit pattern, and everything here is integer work on it.

use vstd::arithmetic::power2::{lemma_pow2_adds, lemma_pow2_pos, lemma_pow2_strictly_increases, pow2};
use vstd::prelude::*;

verus! {

/// The absolute value that a magnitude (a pattern without its sign bit) stands
/// for, with `p` fraction bits, as a multiple of the format's smallest number.
pub open spec fn magnitude_value(magnitude: int, p: nat) -> int {
    if magnitude < pow2(p) {
        magnitude
    } else {
        (pow2(p) + magnitude % (pow2(p) as int)) * pow2(
            (magnitude / (pow2(p) as int) - 1) as nat,
        )
    }
}

/// A larger magnitude stands for a larger number, one step up.
proof fn lemma_magnitude_step(magnitude: int, p: nat)
    requires
        0 <= magnitude,
    ensures
        magnitude_value(magnitude, p) < magnitude_value(magnitude + 1, p),
{
    let unit = pow2(p) as int;
    lemma_pow2_pos(p);
    if magnitude + 1 < unit {
    } else if magnitude < unit {
        assert(magnitude + 1 == unit);
        vstd::arithmetic::div_mod::lemma_fundamental_div_mod_converse(unit, unit, 1, 0);
        vstd::arithmetic::power2::lemma2_to64();
        assert(magnitude_value(magnitude + 1, p) == unit * 1);
    } else {
        let e = magnitude / unit;
        let m = magnitude % unit;
        vstd::arithmetic::div_mod::lemma_fundamental_div_mod(magnitude, unit);
        vstd::arithmetic::div_mod::lemma_mod_bound(magnitude, unit);
        assert(e >= 1) by (nonlinear_arith)
            requires
                magnitude == unit * e + m,
                magnitude >= unit,
                m < unit,
                unit > 0,
        ;
        let k = (e - 1) as nat;
        lemma_pow2_pos(k);
        if m + 1 < unit {
            assert(magnitude + 1 == e * unit + (m + 1)) by (nonlinear_arith)
                requires
                    magnitude == unit * e + m,
            ;
            vstd::arithmetic::div_mod::lemma_fundamental_div_mod_converse(
                magnitude + 1,
                unit,
                e,
                m + 1,
            );
            assert((unit + m) * pow2(k) < (unit + m + 1) * pow2(k)) by (nonlinear_arith)
                requires
                    pow2(k) > 0,
            ;
        } else {
            assert(m == unit - 1);
            assert(magnitude + 1 == (e + 1) * unit + 0) by (nonlinear_arith)
                requires
                    magnitude == unit * e + m,
                    m == unit - 1,
            ;
            vstd::arithmetic::div_mod::lemma_fundamental_div_mod_converse(
                magnitude + 1,
                unit,
                e + 1,
                0,
            );
            vstd::arithmetic::power2::lemma_pow2_unfold((k + 1) as nat);
            assert((unit + m) * pow2(k) < unit * (2 * pow2(k))) by (nonlinear_arith)
                requires
                    pow2(k) > 0,
                    m == unit - 1,
                    unit > 0,
            ;
            assert(unit * (2 * pow2(k)) == (unit + 0) * pow2((k + 1) as nat)) by (nonlinear_arith)
                requires
                    pow2((k + 1) as nat) == 2 * pow2(k),
            ;
        }
    }
}

/// The order of magnitudes is the order of the numbers they stand for.
pub proof fn lemma_magnitude_order(a: int, b: int, p: nat)
    requires
        0 <= a,
        0 <= b,
    ensures
        a < b <==> magnitude_value(a, p) < magnitude_value(b, p),
        a == b <==> magnitude_value(a, p) == magnitude_value(b, p),
{
    if a < b {
        lemma_magnitude_up(a, b, p);
    }
    if b < a {
        lemma_magnitude_up(b, a, p);
    }
}

proof fn lemma_magnitude_up(a: int, b: int, p: nat)
    requires
        0 <= a < b,
    ensures
        magnitude_value(a, p) < magnitude_value(b, p),
    decreases b - a,
{
    lemma_magnitude_step(a, p);
    if a + 1 < b {
        lemma_magnitude_up(a + 1, b, p);
    }
}

/// A magnitude parted at the point: the integer below it, and what is left over.
pub struct Parts {
    /// The integer part, saturated at the top of the type.
    pub whole: u64,
    /// Whether anything is left over.
    pub rest: bool,
    /// Whether at least one half is left over.
    pub half: bool,
}

/// The number of the format's smallest steps in one.
pub open spec fn one_in_steps(p: nat, bias: nat) -> int {
    pow2((bias + p - 1) as nat) as int
}

pub open spec fn saturated(n: int, top: int) -> int {
    if n > top {
        top
    } else {
        n
    }
}

/// Part a magnitude with `p` fraction bits and the given exponent bias.
pub fn split_magnitude(magnitude: u64, p: u64, bias: u64) -> (parts: Parts)
    requires
        1 <= p <= 52,
        p < bias <= 1023,
        magnitude < 0x8000_0000_0000_0000,
    ensures
        parts.whole == saturated(
            magnitude_value(magnitude as int, p as nat) / one_in_steps(p as nat, bias as nat),
            u64::MAX as int,
        ),
        parts.rest == (magnitude_value(magnitude as int, p as nat) % one_in_steps(
            p as nat,
            bias as nat,
        ) != 0),
        parts.half == (2 * (magnitude_value(magnitude as int, p as nat) % one_in_steps(
            p as nat,
            bias as nat,
        )) >= one_in_steps(p as nat, bias as nat)),
{
    proof {
        vstd::arithmetic::power2::lemma2_to64_rest();
        lemma_pow2_strictly_increases(p as nat, 53);
        lemma_shift(1, p);
        lemma_pow2_pos(p as nat);
        lemma_pow2_pos((bias + p - 1) as nat);
        lemma_pow2_strictly_increases(p as nat, (bias + p - 1) as nat);
    }
    let unit: u64 = 1u64 << p;
    let exponent: u64 = magnitude / unit;
    let fraction: u64 = magnitude % unit;
    let ghost v = magnitude_value(magnitude as int, p as nat);
    let ghost one = one_in_steps(p as nat, bias as nat);
    proof {
        vstd::arithmetic::div_mod::lemma_fundamental_div_mod(magnitude as int, unit as int);
        vstd::arithmetic::div_mod::lemma_mod_bound(magnitude as int, unit as int);
        if exponent == 0 {
            assert(magnitude < unit) by (nonlinear_arith)
                requires
                    magnitude == unit * exponent + fraction,
                    exponent == 0,
                    fraction < unit,
            ;
        } else {
            assert(magnitude >= unit) by (nonlinear_arith)
                requires
                    magnitude == unit * exponent + fraction,
                    exponent >= 1,
                    fraction >= 0,
            ;
        }
    }
    if exponent < bias {
        proof {
            lemma_below_one(magnitude as int, p as nat, bias as nat);
        }
        Parts { whole: 0, rest: magnitude != 0, half: exponent == bias - 1 }
    } else {
        let significand: u64 = unit + fraction;
        let ghost k = (exponent - 1) as nat;
        if exponent < bias + p {
            let shift: u64 = bias + p - exponent;
            proof {
                lemma_pow2_strictly_increases(shift as nat, 53);
                lemma_shift(1, shift);
                lemma_pow2_pos(shift as nat);
                lemma_pow2_adds(k, shift as nat);
                lemma_scaled_division(
                    significand as int,
                    pow2(k) as int,
                    pow2(shift as nat) as int,
                );
                lemma_pow2_pos(k);
                assert(one == pow2(k) * pow2(shift as nat));
                assert(v == significand * pow2(k));
            }
            let cut: u64 = 1u64 << shift;
            let left: u64 = significand % cut;
            proof {
                lemma_half(left as int, cut as int, pow2(k) as int);
            }
            Parts { whole: significand / cut, rest: left != 0, half: left * 2 >= cut }
        } else {
            let shift: u64 = exponent - bias - p;
            proof {
                lemma_pow2_adds((bias + p - 1) as nat, shift as nat);
                lemma_pow2_pos(shift as nat);
                lemma_whole_division(significand as int, pow2(shift as nat) as int, one);
                assert(v == significand * pow2(k));
                assert(pow2(k) == one * pow2(shift as nat));
            }
            if shift <= 63 - p {
                proof {
                    lemma_shift_fits(significand, p, shift);
                    lemma_shift(significand, shift);
                }
                Parts { whole: significand << shift, rest: false, half: false }
            } else {
                proof {
                    lemma_shift_over(significand as int, p as nat, shift as nat);
                }
                Parts { whole: u64::MAX, rest: false, half: false }
            }
        }
    }
}

proof fn lemma_shift(x: u64, shift: u64)
    requires
        shift < 64,
        x * pow2(shift as nat) <= u64::MAX,
    ensures
        x << shift == x * pow2(shift as nat),
{
    vstd::bits::lemma_u64_shl_is_mul(x, shift);
}

proof fn lemma_shift_fits(significand: u64, p: u64, shift: u64)
    requires
        significand < 2 * pow2(p as nat),
        p <= 52,
        shift <= 63 - p,
    ensures
        significand * pow2(shift as nat) <= u64::MAX,
{
    let room = (63 - p) as nat;
    lemma_pow2_pos(shift as nat);
    if shift < room {
        lemma_pow2_strictly_increases(shift as nat, room);
    }
    lemma_pow2_adds(p as nat, room);
    vstd::arithmetic::power2::lemma2_to64_rest();
    vstd::arithmetic::power2::lemma_pow2_unfold(64);
    assert(significand * pow2(shift as nat) < 2 * (pow2(p as nat) * pow2(room))) by (nonlinear_arith)
        requires
            significand < 2 * pow2(p as nat),
            pow2(shift as nat) <= pow2(room),
            pow2(shift as nat) > 0,
            significand >= 0,
    ;
}

proof fn lemma_shift_over(significand: int, p: nat, shift: nat)
    requires
        significand >= pow2(p),
        p <= 52,
        shift > 63 - p,
    ensures
        significand * pow2(shift) > u64::MAX,
{
    let room = (64 - p) as nat;
    if room < shift {
        lemma_pow2_strictly_increases(room, shift);
    }
    lemma_pow2_adds(p, room);
    lemma_pow2_pos(p);
    lemma_pow2_pos(room);
    vstd::arithmetic::power2::lemma2_to64_rest();
    assert(significand * pow2(shift) >= pow2(p) * pow2(room)) by (nonlinear_arith)
        requires
            significand >= pow2(p),
            pow2(shift) >= pow2(room),
            pow2(p) > 0,
            pow2(room) > 0,
    ;
}

/// Dividing a scaled number by a scaled number leaves the scale in the rest.
proof fn lemma_scaled_division(s: int, scale: int, d: int)
    requires
        s >= 0,
        scale > 0,
        d > 0,
    ensures
        (s * scale) / (scale * d) == s / d,
        (s * scale) % (scale * d) == (s % d) * scale,
{
    let q = s / d;
    let r = s % d;
    vstd::arithmetic::div_mod::lemma_fundamental_div_mod(s, d);
    vstd::arithmetic::div_mod::lemma_mod_bound(s, d);
    assert(s * scale == q * (scale * d) + r * scale) by (nonlinear_arith)
        requires
            s == d * q + r,
    ;
    assert(0 <= r * scale < scale * d) by (nonlinear_arith)
        requires
            0 <= r < d,
            scale > 0,
    ;
    vstd::arithmetic::div_mod::lemma_fundamental_div_mod_converse(
        s * scale,
        scale * d,
        q,
        r * scale,
    );
}

proof fn lemma_half(left: int, cut: int, scale: int)
    requires
        scale > 0,
        left >= 0,
        cut > 0,
    ensures
        2 * (left * scale) >= scale * cut <==> left * 2 >= cut,
        left * scale != 0 <==> left != 0,
{
    assert(left * 2 >= cut ==> 2 * (left * scale) >= scale * cut) by (nonlinear_arith)
        requires
            scale > 0,
    ;
    assert(left * 2 < cut ==> 2 * (left * scale) < scale * cut) by (nonlinear_arith)
        requires
            scale > 0,
    ;
    assert(left > 0 ==> left * scale > 0) by (nonlinear_arith)
        requires
            scale > 0,
    ;
    assert(left == 0 ==> left * scale == 0) by (nonlinear_arith);
}

proof fn lemma_whole_division(s: int, scale: int, one: int)
    requires
        s >= 0,
        scale > 0,
        one > 0,
    ensures
        (s * (one * scale)) / one == s * scale,
        (s * (one * scale)) % one == 0,
{
    assert(s * (one * scale) == (s * scale) * one + 0) by (nonlinear_arith);
    vstd::arithmetic::div_mod::lemma_fundamental_div_mod_converse(
        s * (one * scale),
        one,
        s * scale,
        0,
    );
}

proof fn lemma_below_one(magnitude: int, p: nat, bias: nat)
    requires
        1 <= p < bias,
        0 <= magnitude,
        magnitude / (pow2(p) as int) < bias,
    ensures
        0 <= magnitude_value(magnitude, p) < one_in_steps(p, bias),
        magnitude_value(magnitude, p) / one_in_steps(p, bias) == 0,
        magnitude_value(magnitude, p) % one_in_steps(p, bias) == magnitude_value(magnitude, p),
        magnitude_value(magnitude, p) == 0 <==> magnitude == 0,
        2 * magnitude_value(magnitude, p) >= one_in_steps(p, bias) <==> magnitude / (pow2(
            p,
        ) as int) == bias - 1,
{
    let unit = pow2(p) as int;
    let v = magnitude_value(magnitude, p);
    let one = one_in_steps(p, bias);
    lemma_pow2_pos(p);
    lemma_pow2_strictly_increases(p, (bias + p - 1) as nat);
    vstd::arithmetic::power2::lemma_pow2_unfold((bias + p - 1) as nat);
    let half = pow2((bias + p - 2) as nat) as int;
    assert(one == 2 * half);
    if p < bias + p - 2 {
        lemma_pow2_strictly_increases(p, (bias + p - 2) as nat);
    }
    let e = magnitude / unit;
    let m = magnitude % unit;
    vstd::arithmetic::div_mod::lemma_fundamental_div_mod(magnitude, unit);
    vstd::arithmetic::div_mod::lemma_mod_bound(magnitude, unit);
    if magnitude < unit {
        vstd::arithmetic::div_mod::lemma_fundamental_div_mod_converse(magnitude, unit, 0, magnitude);
        assert(e == 0);
        assert(v < unit <= half);
    } else {
        assert(e >= 1) by (nonlinear_arith)
            requires
                magnitude == unit * e + m,
                magnitude >= unit,
                m < unit,
                unit > 0,
        ;
        let k = (e - 1) as nat;
        lemma_pow2_pos(k);
        lemma_pow2_adds(p, k);
        assert(v >= unit * pow2(k) && v < 2 * (unit * pow2(k)) && v > 0) by (nonlinear_arith)
            requires
                v == (unit + m) * pow2(k),
                0 <= m < unit,
                pow2(k) > 0,
        ;
        if e == bias - 1 {
            assert(unit * pow2(k) == half);
        } else {
            if p + k + 1 < bias + p - 2 {
                lemma_pow2_strictly_increases((p + k + 1) as nat, (bias + p - 2) as nat);
            }
            vstd::arithmetic::power2::lemma_pow2_unfold((p + k + 1) as nat);
            assert(v < half);
        }
    }
    vstd::arithmetic::div_mod::lemma_fundamental_div_mod_converse(v, one, 0, v);
}

fn narrow(n: u64) -> (m: usize)
    ensures
        m == saturated(n as int, usize::MAX as int),
{
    if n > usize::MAX as u64 {
        usize::MAX
    } else {
        n as usize
    }
}

/// A single-precision number, held as its bit pattern.
#[derive(Clone, Copy, Debug, PartialEq, Eq, Structural)]
pub struct F32 {
    pub bits: u32,
}

impl F32 {
    /// Whether the sign bit is set.
    pub open spec fn negative(self) -> bool {
        self.bits >= 0x8000_0000
    }

    /// The pattern without its sign bit.
    pub open spec fn magnitude(self) -> int {
        if self.negative() {
            self.bits - 0x8000_0000
        } else {
            self.bits as int
        }
    }

    pub open spec fn nan(self) -> bool {
        self.magnitude() > 0x7F80_0000
    }

    pub open spec fn finite(self) -> bool {
        self.magnitude() < 0x7F80_0000
    }

    /// Place on the number line, both zeros being one place.
    pub open spec fn rank(self) -> int {
        if self.negative() {
            -self.magnitude()
        } else {
            self.magnitude()
        }
    }

    /// Place in the total order, in which negative zero comes before zero and
    /// numbers that are not numbers lie at the two ends.
    pub open spec fn total_rank(self) -> int {
        if self.negative() {
            -self.magnitude() - 1
        } else {
            self.magnitude()
        }
    }

    /// The number itself, as a multiple of the smallest positive number.
    pub open spec fn value(self) -> int {
        if self.negative() {
            -magnitude_value(self.magnitude(), 23)
        } else {
            magnitude_value(self.magnitude(), 23)
        }
    }

    /// `a < b` on numbers.
    pub open spec fn less(self, other: F32) -> bool {
        !self.nan() && !other.nan() && self.rank() < other.rank()
    }

    /// `a <= b` on numbers.
    pub open spec fn at_most(self, other: F32) -> bool {
        !self.nan() && !other.nan() && self.rank() <= other.rank()
    }

    /// The integer at or below, of a number that is not negative; zero for the others.
    pub open spec fn floor_int(self) -> int {
        if self.nan() || self.negative() {
            0
        } else {
            self.value() / one_in_steps(23, 127)
        }
    }

    /// The integer at or above, of a number that is not negative; zero for the others.
    pub open spec fn ceil_int(self) -> int {
        if self.nan() || self.negative() {
            0
        } else if self.value() % one_in_steps(23, 127) != 0 {
            self.value() / one_in_steps(23, 127) + 1
        } else {
            self.value() / one_in_steps(23, 127)
        }
    }

    /// The nearest integer, halves going up, of a number that is not negative;
    /// zero for the others.
    pub open spec fn round_int(self) -> int {
        if self.nan() || self.negative() {
            0
        } else if 2 * (self.value() % one_in_steps(23, 127)) >= one_in_steps(23, 127) {
            self.value() / one_in_steps(23, 127) + 1
        } else {
            self.value() / one_in_steps(23, 127)
        }
    }

    /// The greater of two numbers; a number rather than what is not one.
    pub open spec fn spec_max(self, other: F32) -> F32 {
        if self.nan() || self.less(other) {
            other
        } else {
            self
        }
    }

    /// The lesser of two numbers; a number rather than what is not one.
    pub open spec fn spec_min(self, other: F32) -> F32 {
        if self.nan() || other.less(self) {
            other
        } else {
            self
        }
    }

    /// The number, or the bound it lies beyond.
    pub open spec fn spec_clamp(self, low: F32, high: F32) -> F32 {
        if self.less(low) {
            low
        } else if high.less(self) {
            high
        } else {
            self
        }
    }

    /// The number with its sign cleared.
    pub open spec fn spec_abs(self) -> F32 {
        F32 { bits: self.magnitude() as u32 }
    }

    /// The number with its sign turned over.
    pub open spec fn spec_negated(self) -> F32 {
        if self.negative() {
            F32 { bits: (self.bits - 0x8000_0000) as u32 }
        } else {
            F32 { bits: (self.bits + 0x8000_0000) as u32 }
        }
    }

    fn magnitude_bits(self) -> (bits: u32)
        ensures
            bits == self.magnitude(),
            bits < 0x8000_0000,
    {
        if self.bits >= 0x8000_0000 {
            self.bits - 0x8000_0000
        } else {
            self.bits
        }
    }

    #[verifier::allow_in_spec]
    pub fn is_nan(self) -> bool
        returns
            self.nan(),
    {
        self.magnitude_bits() > 0x7F80_0000
    }

    #[verifier::allow_in_spec]
    pub fn is_finite(self) -> bool
        returns
            self.finite(),
    {
        self.magnitude_bits() < 0x7F80_0000
    }

    /// `self < other`; false if either is not a number.
    #[verifier::allow_in_spec]
    pub fn lt(self, other: F32) -> bool
        returns
            self.less(other),
    {
        if self.is_nan() || other.is_nan() {
            return false;
        }
        let a: u32 = self.magnitude_bits();
        let b: u32 = other.magnitude_bits();
        if self.bits >= 0x8000_0000 {
            if other.bits >= 0x8000_0000 {
                b < a
            } else {
                a != 0 || b != 0
            }
        } else {
            other.bits < 0x8000_0000 && a < b
        }
    }

    /// `self <= other`; false if either is not a number.
    #[verifier::allow_in_spec]
    pub fn le(self, other: F32) -> bool
        returns
            self.at_most(other),
    {
        !self.is_nan() && !other.is_nan() && !other.lt(self)
    }

    /// `self == other` as numbers: both zeros are equal, and nothing equals what
    /// is not a number.
    #[verifier::allow_in_spec]
    pub fn same(self, other: F32) -> bool
        returns
            (self.at_most(other) && other.at_most(self)),
    {
        self.le(other) && other.le(self)
    }

    /// Whether `self` comes strictly before `other` in the total order.
    #[verifier::allow_in_spec]
    pub fn before(self, other: F32) -> bool
        returns
            (self.total_rank() < other.total_rank()),
    {
        let a: u32 = self.magnitude_bits();
        let b: u32 = other.magnitude_bits();
        if self.bits >= 0x8000_0000 {
            other.bits < 0x8000_0000 || b < a
        } else {
            other.bits < 0x8000_0000 && a < b
        }
    }

    /// The place in the total order.
    pub fn total_key(self) -> (key: i64)
        ensures
            key == self.total_rank(),
    {
        let magnitude: u32 = self.magnitude_bits();
        if self.bits >= 0x8000_0000 {
            -(magnitude as i64) - 1
        } else {
            magnitude as i64
        }
    }

    #[verifier::allow_in_spec]
    pub fn max(self, other: F32) -> F32
        returns
            self.spec_max(other),
    {
        if self.is_nan() || self.lt(other) {
            other
        } else {
            self
        }
    }

    #[verifier::allow_in_spec]
    pub fn min(self, other: F32) -> F32
        returns
            self.spec_min(other),
    {
        if self.is_nan() || other.lt(self) {
            other
        } else {
            self
        }
    }

    #[verifier::allow_in_spec]
    pub fn clamp(self, low: F32, high: F32) -> F32
        returns
            self.spec_clamp(low, high),
    {
        if self.lt(low) {
            low
        } else if high.lt(self) {
            high
        } else {
            self
        }
    }

    #[verifier::allow_in_spec]
    pub fn abs(self) -> F32
        returns
            self.spec_abs(),
    {
        F32 { bits: self.magnitude_bits() }
    }

    /// The number with its sign turned over.
    #[verifier::allow_in_spec]
    pub fn negated(self) -> F32
        returns
            self.spec_negated(),
    {
        if self.bits >= 0x8000_0000 {
            F32 { bits: self.bits - 0x8000_0000 }
        } else {
            F32 { bits: self.bits + 0x8000_0000 }
        }
    }

    fn split(self) -> (parts: Parts)
        ensures
            !self.negative() ==> parts.whole == saturated(
                self.value() / one_in_steps(23, 127),
                u64::MAX as int,
            ),
            !self.negative() ==> parts.rest == (self.value() % one_in_steps(23, 127) != 0),
            !self.negative() ==> parts.half == (2 * (self.value() % one_in_steps(23, 127))
                >= one_in_steps(23, 127)),
    {
        split_magnitude(self.magnitude_bits() as u64, 23, 127)
    }

    /// The integer at or below, saturated: zero for negative numbers and for what
    /// is not a number.
    pub fn floor_to_usize(self) -> (n: usize)
        ensures
            n == saturated(self.floor_int(), usize::MAX as int),
    {
        if self.is_nan() || self.bits >= 0x8000_0000 {
            return 0;
        }
        narrow(self.split().whole)
    }

    /// The integer at or above, saturated in the same way.
    pub fn ceil_to_usize(self) -> (n: usize)
        ensures
            n == saturated(self.ceil_int(), usize::MAX as int),
    {
        if self.is_nan() || self.bits >= 0x8000_0000 {
            return 0;
        }
        let parts = self.split();
        if parts.rest {
            narrow(parts.whole.saturating_add(1))
        } else {
            narrow(parts.whole)
        }
    }

    /// The nearest integer, halves going up, saturated in the same way.
    pub fn round_to_usize(self) -> (n: usize)
        ensures
            n == saturated(self.round_int(), usize::MAX as int),
    {
        if self.is_nan() || self.bits >= 0x8000_0000 {
            return 0;
        }
        let parts = self.split();
        if parts.half {
            narrow(parts.whole.saturating_add(1))
        } else {
            narrow(parts.whole)
        }
    }
}

/// The integer below a number is never negative here.
pub proof fn lemma_floor_not_negative(a: F32)
    ensures
        0 <= a.floor_int(),
{
    if !a.nan() && !a.negative() {
        lemma_pow2_pos(23);
        lemma_magnitude_order(a.magnitude(), 0, 23);
        assert(magnitude_value(0, 23) == 0);
        lemma_pow2_pos(149);
        vstd::arithmetic::div_mod::lemma_div_pos_is_pos(a.value(), one_in_steps(23, 127));
    }
}

/// Neither is the nearest integer.
pub proof fn lemma_round_not_negative(a: F32)
    ensures
        0 <= a.round_int(),
{
    lemma_floor_not_negative(a);
}

/// A whole number, as a multiple of the smallest positive number.
pub open spec fn whole_value(k: int) -> int {
    k * one_in_steps(23, 127)
}

/// Whole numbers keep their order.
pub proof fn lemma_whole_values_ascend(a: int, b: int)
    ensures
        a < b ==> whole_value(a) < whole_value(b),
{
    lemma_pow2_pos(149);
    let one = one_in_steps(23, 127);
    if a < b {
        assert(a * one < b * one) by (nonlinear_arith)
            requires
                a < b,
                one > 0,
        ;
    }
}

/// The integers at or below, at or above and nearest: no whole number lies between them
/// and the number, and none is nearer.
pub proof fn lemma_rounded(a: F32, k: int)
    requires
        !a.nan(),
        0 <= k,
    ensures
        0 < k && k <= a.floor_int() <==> 0 < k && whole_value(k) <= a.value(),
        k >= a.ceil_int() <==> whole_value(k) >= a.value(),
        !a.negative() ==> {
            let near = whole_value(a.round_int()) - a.value();
            let other = whole_value(k) - a.value();
            let (far, further) = (
                if near < 0 {
                    -near
                } else {
                    near
                },
                if other < 0 {
                    -other
                } else {
                    other
                },
            );
            far <= further && (far == further ==> k <= a.round_int())
        },
{
    let one = one_in_steps(23, 127);
    let v = a.value();
    lemma_pow2_pos(149);
    lemma_pow2_pos(23);
    if a.negative() {
        lemma_magnitude_order(0, a.magnitude(), 23);
        assert(magnitude_value(0, 23) == 0);
        assert(v <= 0);
        assert(k * one >= 0) by (nonlinear_arith)
            requires
                k >= 0,
                one > 0,
        ;
        if 0 < k {
            assert(k * one > 0) by (nonlinear_arith)
                requires
                    k > 0,
                    one > 0,
            ;
        }
    } else {
        let q = v / one;
        let r = v % one;
        vstd::arithmetic::div_mod::lemma_fundamental_div_mod(v, one);
        vstd::arithmetic::div_mod::lemma_mod_division_less_than_divisor(v, one);
        assert(one * q == q * one) by (nonlinear_arith);
        assert((q + 1) * one == q * one + one) by (nonlinear_arith);
        if k <= q {
            assert(k * one <= q * one) by (nonlinear_arith)
                requires
                    k <= q,
                    one > 0,
            ;
        }
        if k < q {
            assert(k * one <= q * one - one) by (nonlinear_arith)
                requires
                    k <= q - 1,
                    one > 0,
            ;
        }
        if k > q {
            assert(k * one >= q * one + one) by (nonlinear_arith)
                requires
                    k >= q + 1,
                    one > 0,
            ;
        }
        if k > q + 1 {
            assert(k * one >= q * one + 2 * one) by (nonlinear_arith)
                requires
                    k >= q + 2,
                    one > 0,
            ;
        }
    }
}

/// Zero is a whole number.
pub proof fn lemma_zero_rounds_to_zero()
    ensures
        (F32 { bits: 0 }).round_int() == 0,
        (F32 { bits: 0 }).value() == 0,
{
    let zero = F32 { bits: 0 };
    lemma_pow2_pos(149);
    lemma_pow2_pos(23);
    assert(magnitude_value(0, 23) == 0);
    assert(zero.value() == 0);
    vstd::arithmetic::div_mod::lemma_basic_div(0, one_in_steps(23, 127));
    vstd::arithmetic::div_mod::lemma_small_mod(0, one_in_steps(23, 127) as nat);
}

/// Rounding keeps the order of numbers.
pub proof fn lemma_round_ascends(a: F32, b: F32)
    requires
        a.at_most(b),
    ensures
        a.round_int() <= b.round_int(),
{
    lemma_round_not_negative(b);
    if !a.negative() && a.rank() != 0 {
        lemma_f32_order(a, b);
        lemma_round_not_negative(a);
        lemma_rounded(a, b.round_int());
        lemma_rounded(b, a.round_int());
        lemma_whole_values_ascend(b.round_int(), a.round_int());
    } else if !a.negative() {
        assert(a.bits == 0);
        lemma_zero_rounds_to_zero();
    }
}

/// Comparing patterns is comparing the numbers they stand for.
pub proof fn lemma_f32_order(a: F32, b: F32)
    requires
        !a.nan(),
        !b.nan(),
    ensures
        a.less(b) <==> a.value() < b.value(),
        a.at_most(b) <==> a.value() <= b.value(),
        a.rank() == b.rank() <==> a.value() == b.value(),
{
    lemma_magnitude_order(a.magnitude(), b.magnitude(), 23);
    lemma_magnitude_order(a.magnitude(), 0, 23);
    lemma_magnitude_order(b.magnitude(), 0, 23);
    lemma_pow2_pos(23);
    assert(magnitude_value(0, 23) == 0);
}

/// The total order refines the order of numbers, and tells every two patterns apart.
pub proof fn lemma_f32_total_order(a: F32, b: F32)
    ensures
        a.less(b) ==> a.total_rank() < b.total_rank(),
        a.total_rank() == b.total_rank() <==> a == b,
{
}

/// A double-precision number, held as its bit pattern.
#[derive(Clone, Copy, Debug, PartialEq, Eq, Structural)]
pub struct F64 {
    pub bits: u64,
}

impl F64 {
    /// Whether the sign bit is set.
    pub open spec fn negative(self) -> bool {
        self.bits >= 0x8000_0000_0000_0000
    }

    /// The pattern without its sign bit.
    pub open spec fn magnitude(self) -> int {
        if self.negative() {
            self.bits - 0x8000_0000_0000_0000
        } else {
            self.bits as int
        }
    }

    pub open spec fn nan(self) -> bool {
        self.magnitude() > 0x7FF0_0000_0000_0000
    }

    pub open spec fn finite(self) -> bool {
        self.magnitude() < 0x7FF0_0000_0000_0000
    }

    /// Place on the number line, both zeros being one place.
    pub open spec fn rank(self) -> int {
        if self.negative() {
            -self.magnitude()
        } else {
            self.magnitude()
        }
    }

    /// Place in the total order, in which negative zero comes before zero and
    /// numbers that are not numbers lie at the two ends.
    pub open spec fn total_rank(self) -> int {
        if self.negative() {
            -self.magnitude() - 1
        } else {
            self.magnitude()
        }
    }

    /// The number itself, as a multiple of the smallest positive number.
    pub open spec fn value(self) -> int {
        if self.negative() {
            -magnitude_value(self.magnitude(), 52)
        } else {
            magnitude_value(self.magnitude(), 52)
        }
    }

    /// `a < b` on numbers.
    pub open spec fn less(self, other: F64) -> bool {
        !self.nan() && !other.nan() && self.rank() < other.rank()
    }

    /// `a <= b` on numbers.
    pub open spec fn at_most(self, other: F64) -> bool {
        !self.nan() && !other.nan() && self.rank() <= other.rank()
    }

    /// The integer at or below, of a number that is not negative; zero for the others.
    pub open spec fn floor_int(self) -> int {
        if self.nan() || self.negative() {
            0
        } else {
            self.value() / one_in_steps(52, 1023)
        }
    }

    /// The integer at or above, of a number that is not negative; zero for the others.
    pub open spec fn ceil_int(self) -> int {
        if self.nan() || self.negative() {
            0
        } else if self.value() % one_in_steps(52, 1023) != 0 {
            self.value() / one_in_steps(52, 1023) + 1
        } else {
            self.value() / one_in_steps(52, 1023)
        }
    }

    /// The nearest integer, halves going up, of a number that is not negative;
    /// zero for the others.
    pub open spec fn round_int(self) -> int {
        if self.nan() || self.negative() {
            0
        } else if 2 * (self.value() % one_in_steps(52, 1023)) >= one_in_steps(52, 1023) {
            self.value() / one_in_steps(52, 1023) + 1
        } else {
            self.value() / one_in_steps(52, 1023)
        }
    }

    /// The greater of two numbers; a number rather than what is not one.
    pub open spec fn spec_max(self, other: F64) -> F64 {
        if self.nan() || self.less(other) {
            other
        } else {
            self
        }
    }

    /// The lesser of two numbers; a number rather than what is not one.
    pub open spec fn spec_min(self, other: F64) -> F64 {
        if self.nan() || other.less(self) {
            other
        } else {
            self
        }
    }

    /// The number, or the bound it lies beyond.
    pub open spec fn spec_clamp(self, low: F64, high: F64) -> F64 {
        if self.less(low) {
            low
        } else if high.less(self) {
            high
        } else {
            self
        }
    }

    /// The number with its sign cleared.
    pub open spec fn spec_abs(self) -> F64 {
        F64 { bits: self.magnitude() as u64 }
    }

    /// The number with its sign turned over.
    pub open spec fn spec_negated(self) -> F64 {
        if self.negative() {
            F64 { bits: (self.bits - 0x8000_0000_0000_0000) as u64 }
        } else {
            F64 { bits: (self.bits + 0x8000_0000_0000_0000) as u64 }
        }
    }

    fn magnitude_bits(self) -> (bits: u64)
        ensures
            bits == self.magnitude(),
            bits < 0x8000_0000_0000_0000,
    {
        if self.bits >= 0x8000_0000_0000_0000 {
            self.bits - 0x8000_0000_0000_0000
        } else {
            self.bits
        }
    }

    #[verifier::allow_in_spec]
    pub fn is_nan(self) -> bool
        returns
            self.nan(),
    {
        self.magnitude_bits() > 0x7FF0_0000_0000_0000
    }

    #[verifier::allow_in_spec]
    pub fn is_finite(self) -> bool
        returns
            self.finite(),
    {
        self.magnitude_bits() < 0x7FF0_0000_0000_0000
    }

    /// `self < other`; false if either is not a number.
    #[verifier::allow_in_spec]
    pub fn lt(self, other: F64) -> bool
        returns
            self.less(other),
    {
        if self.is_nan() || other.is_nan() {
            return false;
        }
        let a: u64 = self.magnitude_bits();
        let b: u64 = other.magnitude_bits();
        if self.bits >= 0x8000_0000_0000_0000 {
            if other.bits >= 0x8000_0000_0000_0000 {
                b < a
            } else {
                a != 0 || b != 0
            }
        } else {
            other.bits < 0x8000_0000_0000_0000 && a < b
        }
    }

    /// `self <= other`; false if either is not a number.
    #[verifier::allow_in_spec]
    pub fn le(self, other: F64) -> bool
        returns
            self.at_most(other),
    {
        !self.is_nan() && !other.is_nan() && !other.lt(self)
    }

    /// `self == other` as numbers: both zeros are equal, and nothing equals what
    /// is not a number.
    #[verifier::allow_in_spec]
    pub fn same(self, other: F64) -> bool
        returns
            (self.at_most(other) && other.at_most(self)),
    {
        self.le(other) && other.le(self)
    }

    /// Whether `self` comes strictly before `other` in the total order.
    #[verifier::allow_in_spec]
    pub fn before(self, other: F64) -> bool
        returns
            (self.total_rank() < other.total_rank()),
    {
        let a: u64 = self.magnitude_bits();
        let b: u64 = other.magnitude_bits();
        if self.bits >= 0x8000_0000_0000_0000 {
            other.bits < 0x8000_0000_0000_0000 || b < a
        } else {
            other.bits < 0x8000_0000_0000_0000 && a < b
        }
    }

    /// The place in the total order.
    pub fn total_key(self) -> (key: i64)
        ensures
            key == self.total_rank(),
    {
        let magnitude: u64 = self.magnitude_bits();
        if self.bits >= 0x8000_0000_0000_0000 {
            -(magnitude as i64) - 1
        } else {
            magnitude as i64
        }
    }

    #[verifier::allow_in_spec]
    pub fn max(self, other: F64) -> F64
        returns
            self.spec_max(other),
    {
        if self.is_nan() || self.lt(other) {
            other
        } else {
            self
        }
    }

    #[verifier::allow_in_spec]
    pub fn min(self, other: F64) -> F64
        returns
            self.spec_min(other),
    {
        if self.is_nan() || other.lt(self) {
            other
        } else {
            self
        }
    }

    #[verifier::allow_in_spec]
    pub fn clamp(self, low: F64, high: F64) -> F64
        returns
            self.spec_clamp(low, high),
    {
        if self.lt(low) {
            low
        } else if high.lt(self) {
            high
        } else {
            self
        }
    }

    #[verifier::allow_in_spec]
    pub fn abs(self) -> F64
        returns
            self.spec_abs(),
    {
        F64 { bits: self.magnitude_bits() }
    }

    /// The number with its sign turned over.
    #[verifier::allow_in_spec]
    pub fn negated(self) -> F64
        returns
            self.spec_negated(),
    {
        if self.bits >= 0x8000_0000_0000_0000 {
            F64 { bits: self.bits - 0x8000_0000_0000_0000 }
        } else {
            F64 { bits: self.bits + 0x8000_0000_0000_0000 }
        }
    }

    fn split(self) -> (parts: Parts)
        ensures
            !self.negative() ==> parts.whole == saturated(
                self.value() / one_in_steps(52, 1023),
                u64::MAX as int,
            ),
            !self.negative() ==> parts.rest == (self.value() % one_in_steps(52, 1023) != 0),
            !self.negative() ==> parts.half == (2 * (self.value() % one_in_steps(52, 1023))
                >= one_in_steps(52, 1023)),
    {
        split_magnitude(self.magnitude_bits(), 52, 1023)
    }

    /// The integer at or below, saturated in the same way.
    pub fn floor_to_u64(self) -> (n: u64)
        ensures
            n == saturated(self.floor_int(), u64::MAX as int),
    {
        if self.is_nan() || self.bits >= 0x8000_0000_0000_0000 {
            return 0;
        }
        self.split().whole
    }

    /// The integer at or below, saturated: zero for negative numbers and for what
    /// is not a number.
    pub fn floor_to_usize(self) -> (n: usize)
        ensures
            n == saturated(self.floor_int(), usize::MAX as int),
    {
        if self.is_nan() || self.bits >= 0x8000_0000_0000_0000 {
            return 0;
        }
        narrow(self.split().whole)
    }

    /// The integer at or above, saturated in the same way.
    pub fn ceil_to_usize(self) -> (n: usize)
        ensures
            n == saturated(self.ceil_int(), usize::MAX as int),
    {
        if self.is_nan() || self.bits >= 0x8000_0000_0000_0000 {
            return 0;
        }
        let parts = self.split();
        if parts.rest {
            narrow(parts.whole.saturating_add(1))
        } else {
            narrow(parts.whole)
        }
    }

    /// The nearest integer, halves going up, saturated in the same way.
    pub fn round_to_usize(self) -> (n: usize)
        ensures
            n == saturated(self.round_int(), usize::MAX as int),
    {
        if self.is_nan() || self.bits >= 0x8000_0000_0000_0000 {
            return 0;
        }
        let parts = self.split();
        if parts.half {
            narrow(parts.whole.saturating_add(1))
        } else {
            narrow(parts.whole)
        }
    }
}

/// The integer at or below a wide number is not negative.
pub proof fn lemma_wide_floor_not_negative(a: F64)
    ensures
        0 <= a.floor_int(),
{
    if !a.nan() && !a.negative() {
        lemma_pow2_pos(52);
        lemma_magnitude_order(a.magnitude(), 0, 52);
        assert(magnitude_value(0, 52) == 0);
        lemma_pow2_pos(1074);
        vstd::arithmetic::div_mod::lemma_div_pos_is_pos(a.value(), one_in_steps(52, 1023));
    }
}

/// Comparing patterns is comparing the numbers they stand for.
pub proof fn lemma_f64_order(a: F64, b: F64)
    requires
        !a.nan(),
        !b.nan(),
    ensures
        a.less(b) <==> a.value() < b.value(),
        a.at_most(b) <==> a.value() <= b.value(),
        a.rank() == b.rank() <==> a.value() == b.value(),
{
    lemma_magnitude_order(a.magnitude(), b.magnitude(), 52);
    lemma_magnitude_order(a.magnitude(), 0, 52);
    lemma_magnitude_order(b.magnitude(), 0, 52);
    lemma_pow2_pos(52);
    assert(magnitude_value(0, 52) == 0);
}

/// The total order refines the order of numbers, and tells every two patterns apart.
pub proof fn lemma_f64_total_order(a: F64, b: F64)
    ensures
        a.less(b) ==> a.total_rank() < b.total_rank(),
        a.total_rank() == b.total_rank() <==> a == b,
{
}

/// The greater and the lesser of two numbers, what is kept between two, the magnitude and
/// the negative are what they are of the numbers that patterns stand for.
pub proof fn lemma_f32_choices(a: F32, b: F32, low: F32, high: F32)
    requires
        !a.nan(),
        !b.nan(),
        low.at_most(high),
    ensures
        a.value() <= a.spec_max(b).value() && b.value() <= a.spec_max(b).value(),
        a.spec_max(b) == a || a.spec_max(b) == b,
        a.spec_min(b).value() <= a.value() && a.spec_min(b).value() <= b.value(),
        a.spec_min(b) == a || a.spec_min(b) == b,
        low.value() <= a.spec_clamp(low, high).value() <= high.value(),
        low.value() <= a.value() <= high.value() ==> a.spec_clamp(low, high) == a,
        a.value() < low.value() ==> a.spec_clamp(low, high) == low,
        a.value() > high.value() ==> a.spec_clamp(low, high) == high,
        a.spec_negated().value() == -a.value(),
        a.spec_abs().value() == if a.value() < 0 {
            -a.value()
        } else {
            a.value()
        },
{
    lemma_f32_order(a, b);
    lemma_f32_order(b, a);
    lemma_f32_order(a, low);
    lemma_f32_order(low, a);
    lemma_f32_order(a, high);
    lemma_f32_order(high, a);
    lemma_f32_order(low, high);
    lemma_pow2_pos(23);
    lemma_magnitude_order(0, a.magnitude(), 23);
    assert(magnitude_value(0, 23) == 0);
    assert(a.spec_abs().magnitude() == a.magnitude());
    assert(a.spec_negated().magnitude() == a.magnitude());
}

/// A number wins over what is none.
pub proof fn lemma_f32_choices_prefer_numbers(a: F32, b: F32)
    requires
        a.nan(),
        !b.nan(),
    ensures
        a.spec_max(b) == b,
        a.spec_min(b) == b,
        b.spec_max(a) == b,
        b.spec_min(a) == b,
{
}

} // verus!
