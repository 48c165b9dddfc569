//! Numbers with names.

use vstd::prelude::*;

use crate::ieee::{F32, F64};

verus! {

/// The single-precision number of a bit pattern.
#[verifier::allow_in_spec]
pub fn num(bits: u32) -> F32
    returns
        (F32 { bits }),
{
    F32 { bits }
}

/// The double-precision number of a bit pattern.
#[verifier::allow_in_spec]
pub fn wide(bits: u64) -> F64
    returns
        (F64 { bits }),
{
    F64 { bits }
}

/// Zero.
pub const ZERO: u32 = 0;

/// One half.
pub const HALF: u32 = 0x3F00_0000;

/// One.
pub const ONE: u32 = 0x3F80_0000;

/// Two.
pub const TWO: u32 = 0x4000_0000;

/// Ten.
pub const TEN: u32 = 0x4120_0000;

/// Twenty.
pub const TWENTY: u32 = 0x41A0_0000;

/// Minus one.
pub const MINUS_ONE: u32 = 0xBF80_0000;

/// The smallest positive number with full precision.
pub const SMALLEST_NORMAL: u32 = 0x0080_0000;

/// Half a turn in radians.
pub const PI: u32 = 0x4049_0FDB;

/// A whole turn in radians.
pub const TAU: u32 = 0x40C9_0FDB;

} // verus!
