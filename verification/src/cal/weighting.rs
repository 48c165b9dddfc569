//! Frequency weighting curves from IEC 61672-1.
//!
//! A-weighting approximates how insensitive hearing is to bass at moderate levels;
//! C-weighting is much flatter; Z is no weighting at all.

use vstd::prelude::*;

use crate::arith::{Arith, Calc};
use crate::ieee::F32;
use crate::numbers::{num, TWENTY, TWO, ZERO};

verus! {

/// Which weighting to apply.
#[derive(Debug, Clone, Copy, PartialEq, Eq, Structural)]
pub enum Weighting {
    /// No weighting. The honest choice for measurement work.
    Z,
    /// A-weighting: rolls off hard below 500 Hz.
    A,
    /// C-weighting: nearly flat through the audio band, rolling off outside it.
    C,
}

impl Default for Weighting {
    fn default() -> (weighting: Weighting)
        ensures
            weighting == Weighting::Z,
    {
        Weighting::Z
    }
}

/// Pole frequencies in hertz: about 20.6, 107.7, 737.9 and 12194.
pub const F1: u32 = 0x41A4_CABF;

pub const F2: u32 = 0x42D7_4E28;

pub const F3: u32 = 0x4438_772F;

pub const F4: u32 = 0x463E_88DE;

/// What makes C-weighting unity at 1 kHz. For A-weighting it is two.
pub const C_OFFSET: u32 = 0x3D7D_F3B6;

/// The level at and below zero hertz.
pub const NOTHING_DB: u32 = 0xC348_0000;

/// The square of a number.
#[verifier::allow_in_spec]
pub fn squared<C: Fn(Calc) -> F32>(m: &Arith<C>, a: F32) -> F32
    returns
        m.times(a, a),
{
    m.times(a, a)
}

/// A-weighting in decibels.
#[verifier::allow_in_spec]
pub fn a_weighting_db<C: Fn(Calc) -> F32>(m: &Arith<C>, hz: F32) -> F32
    returns
        ({
            let f2 = squared(m, hz);
            let numerator = m.times(m.times(squared(m, num(F4)), f2), f2);
            let middle = m.root(
                m.times(
                    m.plus(f2, squared(m, num(F2))),
                    m.plus(f2, squared(m, num(F3))),
                ),
            );
            let denominator = m.times(
                m.times(m.plus(f2, squared(m, num(F1))), middle),
                m.plus(f2, squared(m, num(F4))),
            );
            if denominator.le(num(ZERO)) {
                num(NOTHING_DB)
            } else {
                m.plus(m.times(num(TWENTY), m.log10(m.over(numerator, denominator))), num(TWO))
            }
        }),
{
    let f2 = squared(m, hz);
    let numerator = m.times(m.times(squared(m, num(F4)), f2), f2);
    let middle = m.root(
        m.times(m.plus(f2, squared(m, num(F2))), m.plus(f2, squared(m, num(F3)))),
    );
    let denominator = m.times(
        m.times(m.plus(f2, squared(m, num(F1))), middle),
        m.plus(f2, squared(m, num(F4))),
    );
    if denominator.le(num(ZERO)) {
        num(NOTHING_DB)
    } else {
        m.plus(m.times(num(TWENTY), m.log10(m.over(numerator, denominator))), num(TWO))
    }
}

/// C-weighting in decibels.
#[verifier::allow_in_spec]
pub fn c_weighting_db<C: Fn(Calc) -> F32>(m: &Arith<C>, hz: F32) -> F32
    returns
        ({
            let f2 = squared(m, hz);
            let numerator = m.times(squared(m, num(F4)), f2);
            let denominator = m.times(
                m.plus(f2, squared(m, num(F1))),
                m.plus(f2, squared(m, num(F4))),
            );
            if denominator.le(num(ZERO)) {
                num(NOTHING_DB)
            } else {
                m.plus(
                    m.times(num(TWENTY), m.log10(m.over(numerator, denominator))),
                    num(C_OFFSET),
                )
            }
        }),
{
    let f2 = squared(m, hz);
    let numerator = m.times(squared(m, num(F4)), f2);
    let denominator = m.times(
        m.plus(f2, squared(m, num(F1))),
        m.plus(f2, squared(m, num(F4))),
    );
    if denominator.le(num(ZERO)) {
        num(NOTHING_DB)
    } else {
        m.plus(m.times(num(TWENTY), m.log10(m.over(numerator, denominator))), num(C_OFFSET))
    }
}

impl Weighting {
    /// Weighting in decibels at `hz`.
    ///
    /// A large negative value at or below zero hertz, so a caller summing weighted
    /// bins cannot poison its total with DC.
    #[verifier::allow_in_spec]
    pub fn db_at<C: Fn(Calc) -> F32>(self, m: &Arith<C>, hz: F32) -> F32
        returns
            (if hz.le(num(ZERO)) {
                num(NOTHING_DB)
            } else {
                match self {
                    Weighting::Z => num(ZERO),
                    Weighting::A => a_weighting_db(m, hz),
                    Weighting::C => c_weighting_db(m, hz),
                }
            }),
    {
        if hz.le(num(ZERO)) {
            return num(NOTHING_DB);
        }
        match self {
            Weighting::Z => num(ZERO),
            Weighting::A => a_weighting_db(m, hz),
            Weighting::C => c_weighting_db(m, hz),
        }
    }

    /// Short label for display.
    pub fn label(self) -> (label: &'static str)
        ensures
            label@ == match self {
                Weighting::Z => "Z"@,
                Weighting::A => "A"@,
                Weighting::C => "C"@,
            },
    {
        match self {
            Weighting::Z => "Z",
            Weighting::A => "A",
            Weighting::C => "C",
        }
    }
}

/// The weightings as ratios of squared frequencies to the poles: twenty times the
/// logarithm of the ratio, moved so that one kilohertz is at zero.
pub proof fn lemma_weighting_is_a_ratio<C: Fn(Calc) -> F32>(m: Arith<C>, hz: F32)
    requires
        num(ZERO).less(hz),
    ensures
        ({
            let f = m.times(hz, hz);
            let first = m.plus(f, m.times(num(F1), num(F1)));
            let second = m.plus(f, m.times(num(F2), num(F2)));
            let third = m.plus(f, m.times(num(F3), num(F3)));
            let last = m.plus(f, m.times(num(F4), num(F4)));
            let above = m.times(m.times(num(F4), num(F4)), f);
            let below_a = m.times(m.times(first, m.root(m.times(second, third))), last);
            let below_c = m.times(first, last);
            &&& Weighting::Z.db_at(&m, hz) == num(ZERO)
            &&& num(ZERO).less(below_a) ==> Weighting::A.db_at(&m, hz) == m.plus(
                m.times(num(TWENTY), m.log10(m.over(m.times(above, f), below_a))),
                num(TWO),
            )
            &&& num(ZERO).less(below_c) ==> Weighting::C.db_at(&m, hz) == m.plus(
                m.times(num(TWENTY), m.log10(m.over(above, below_c))),
                num(C_OFFSET),
            )
        }),
{
}

} // verus!
