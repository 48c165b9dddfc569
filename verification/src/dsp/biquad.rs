//! Second-order sections.
//!
//! The weighting filters of the meter and the equaliser both build on the one
//! implementation here: a filter that measures differently from how it sounds is
//! the most confusing fault an audio tool can have. The equaliser shapes follow the
//! Audio EQ Cookbook.

use vstd::prelude::*;

use crate::arith::{Arith, Calc, Complex};
use crate::dsp::fft::origin;
use crate::ieee::F32;
use crate::numbers::{num, HALF, ONE, TAU, TEN, TWO, ZERO};

verus! {

/// Minus two.
pub const MINUS_TWO: u32 = 0xC000_0000;

/// Forty.
pub const FORTY: u32 = 0x4220_0000;

/// The spacing of numbers at one.
pub const EPSILON: u32 = 0x3400_0000;

/// How much of Nyquist a section can be designed for. Exactly at it the design
/// collapses.
pub const BELOW_NYQUIST: u32 = 0x3F7F_BE77;

/// The least quality factor.
pub const LEAST_Q: u32 = 0x3A83_126F;

/// The greatest angle whose tangent is taken, just under a right one.
pub const STEEPEST: u32 = 0x3FC6_6666;

/// A second-order section in transposed direct form II.
#[derive(Debug, Clone, Copy, PartialEq, Eq, Structural)]
pub struct Biquad {
    /// Feed-forward coefficients, already normalised.
    pub b0: F32,
    pub b1: F32,
    pub b2: F32,
    /// Feedback coefficients, already normalised.
    pub a1: F32,
    pub a2: F32,
    /// What the section remembers of the samples before.
    pub s1: F32,
    pub s2: F32,
}

impl Default for Biquad {
    /// A pass-through.
    fn default() -> (section: Biquad)
        ensures
            section == Biquad::identity(),
    {
        Biquad::identity()
    }
}

/// What filtering a block comes to: the section after it, and the samples.
#[verifier::ext_equal]
pub struct Filtered {
    pub section: Biquad,
    pub samples: Seq<F32>,
}

impl Biquad {
    /// A section that changes nothing.
    #[verifier::allow_in_spec]
    pub fn identity() -> Biquad
        returns
            (Biquad {
                b0: num(ONE),
                b1: num(ZERO),
                b2: num(ZERO),
                a1: num(ZERO),
                a2: num(ZERO),
                s1: num(ZERO),
                s2: num(ZERO),
            }),
    {
        Biquad {
            b0: num(ONE),
            b1: num(ZERO),
            b2: num(ZERO),
            a1: num(ZERO),
            a2: num(ZERO),
            s1: num(ZERO),
            s2: num(ZERO),
        }
    }

    /// Build from coefficients that are already normalised.
    #[verifier::allow_in_spec]
    pub fn new(b0: F32, b1: F32, b2: F32, a1: F32, a2: F32) -> Biquad
        returns
            (Biquad { b0, b1, b2, a1, a2, s1: num(ZERO), s2: num(ZERO) }),
    {
        Biquad { b0, b1, b2, a1, a2, s1: num(ZERO), s2: num(ZERO) }
    }

    /// Build from raw coefficients, dividing through by `a0`.
    ///
    /// Gives the identity for an `a0` that is zero or not finite, because a
    /// degenerate design must not become a filter full of infinities.
    #[verifier::allow_in_spec]
    pub fn normalised<C: Fn(Calc) -> F32>(
        m: &Arith<C>,
        b0: F32,
        b1: F32,
        b2: F32,
        a0: F32,
        a1: F32,
        a2: F32,
    ) -> Biquad
        returns
            (if !a0.is_finite() || a0.abs().lt(num(EPSILON)) {
                Biquad::identity()
            } else {
                Biquad::new(
                    m.over(b0, a0),
                    m.over(b1, a0),
                    m.over(b2, a0),
                    m.over(a1, a0),
                    m.over(a2, a0),
                )
            }),
    {
        if !a0.is_finite() || a0.abs().lt(num(EPSILON)) {
            Biquad::identity()
        } else {
            Biquad::new(
                m.over(b0, a0),
                m.over(b1, a0),
                m.over(b2, a0),
                m.over(a1, a0),
                m.over(a2, a0),
            )
        }
    }

    /// The sample that comes out for a sample that goes in.
    pub open spec fn output<C: Fn(Calc) -> F32>(self, m: Arith<C>, x: F32) -> F32 {
        m.plus(m.times(self.b0, x), self.s1)
    }

    /// The section once a sample has gone in.
    pub open spec fn advanced<C: Fn(Calc) -> F32>(self, m: Arith<C>, x: F32) -> Biquad {
        let y = self.output(m, x);
        Biquad {
            s1: m.plus(m.minus(m.times(self.b1, x), m.times(self.a1, y)), self.s2),
            s2: m.minus(m.times(self.b2, x), m.times(self.a2, y)),
            ..self
        }
    }

    /// Filter one sample.
    pub fn process<C: Fn(Calc) -> F32>(&mut self, m: &Arith<C>, x: F32) -> (y: F32)
        ensures
            y == old(self).output(*m, x),
            *final(self) == old(self).advanced(*m, x),
    {
        let y = m.plus(m.times(self.b0, x), self.s1);
        self.s1 = m.plus(m.minus(m.times(self.b1, x), m.times(self.a1, y)), self.s2);
        self.s2 = m.minus(m.times(self.b2, x), m.times(self.a2, y));
        y
    }

    /// What filtering samples one after the other comes to.
    pub open spec fn filtered<C: Fn(Calc) -> F32>(self, m: Arith<C>, samples: Seq<F32>) -> Filtered
        decreases samples.len(),
    {
        if samples.len() == 0 {
            Filtered { section: self, samples: Seq::empty() }
        } else {
            let before = self.filtered(m, samples.drop_last());
            Filtered {
                section: before.section.advanced(m, samples.last()),
                samples: before.samples.push(before.section.output(m, samples.last())),
            }
        }
    }

    /// Filter a block in place.
    pub fn process_block<C: Fn(Calc) -> F32>(&mut self, m: &Arith<C>, samples: &mut [F32])
        ensures
            (Filtered { section: *final(self), samples: final(samples)@ }) == old(self).filtered(
                *m,
                old(samples)@,
            ),
    {
        let ghost input = samples@;
        let n: usize = samples.len();
        let mut i: usize = 0;
        assert(samples@.take(0) =~= Seq::<F32>::empty());
        assert(input.take(0) =~= Seq::<F32>::empty());
        while i < n
            invariant
                i <= n,
                n == samples@.len(),
                n == input.len(),
                (Filtered { section: *self, samples: samples@.take(i as int) }) == old(
                    self,
                ).filtered(*m, input.take(i as int)),
                forall|k: int| i <= k < n ==> #[trigger] samples@[k] == input[k],
            decreases n - i,
        {
            let ghost earlier = samples@;
            let x = samples[i];
            let y = self.process(m, x);
            samples[i] = y;
            i = i + 1;
            proof {
                assert(input.take(i as int).drop_last() =~= input.take(i - 1));
                assert(input.take(i as int).last() == x);
                assert(samples@.take(i as int) =~= earlier.take(i - 1).push(y));
            }
        }
        assert(samples@.take(n as int) =~= samples@);
        assert(input.take(n as int) =~= input);
    }

    /// Clear the delay line without touching the coefficients.
    pub fn reset(&mut self)
        ensures
            *final(self) == (Biquad { s1: num(ZERO), s2: num(ZERO), ..*old(self) }),
    {
        self.s1 = num(ZERO);
        self.s2 = num(ZERO);
    }

    /// Whether two sections have the same coefficients, whatever they remember.
    pub open spec fn same_shape(self, other: Biquad) -> bool {
        &&& self.b0 == other.b0
        &&& self.b1 == other.b1
        &&& self.b2 == other.b2
        &&& self.a1 == other.a1
        &&& self.a2 == other.a2
    }

    /// Complex frequency response at `hz`.
    pub open spec fn spec_response_at<C: Fn(Calc) -> F32>(
        self,
        m: Arith<C>,
        hz: F32,
        sample_rate: F32,
    ) -> Complex {
        let w = m.over(m.times(num(TAU), hz), sample_rate);
        let z1 = unit_at(&m, w.spec_negated());
        let z2 = m.product(z1, z1);
        let numerator = m.sum(
            m.sum(on_axis(self.b0), m.scaled(z1, self.b1)),
            m.scaled(z2, self.b2),
        );
        let denominator = m.sum(
            m.sum(on_axis(num(ONE)), m.scaled(z1, self.a1)),
            m.scaled(z2, self.a2),
        );
        if sample_rate.le(num(ZERO)) {
            on_axis(num(ONE))
        } else if num(ZERO).lt(m.norm_sqr(denominator)) {
            m.quotient(numerator, denominator)
        } else {
            origin()
        }
    }

    /// Complex frequency response at `hz`.
    pub fn response_at<C: Fn(Calc) -> F32>(
        &self,
        m: &Arith<C>,
        hz: F32,
        sample_rate: F32,
    ) -> (response: Complex)
        ensures
            response == self.spec_response_at(*m, hz, sample_rate),
    {
        if sample_rate.le(num(ZERO)) {
            return on_axis(num(ONE));
        }
        let w = m.over(m.times(num(TAU), hz), sample_rate);
        let z1 = unit_at(m, w.negated());
        let z2 = m.product(z1, z1);
        let numerator = m.sum(
            m.sum(on_axis(self.b0), m.scaled(z1, self.b1)),
            m.scaled(z2, self.b2),
        );
        let denominator = m.sum(
            m.sum(on_axis(num(ONE)), m.scaled(z1, self.a1)),
            m.scaled(z2, self.a2),
        );
        if num(ZERO).lt(m.norm_sqr(denominator)) {
            m.quotient(numerator, denominator)
        } else {
            origin()
        }
    }

    /// Magnitude response at `hz`, as a linear ratio.
    pub fn magnitude_at<C: Fn(Calc) -> F32>(
        &self,
        m: &Arith<C>,
        hz: F32,
        sample_rate: F32,
    ) -> (magnitude: F32)
        ensures
            magnitude == m.norm(self.spec_response_at(*m, hz, sample_rate)),
    {
        m.norm(self.response_at(m, hz, sample_rate))
    }

    /// Peaking: a bump or dip centred on the frequency, flat either side.
    #[verifier::allow_in_spec]
    pub fn peaking<C: Fn(Calc) -> F32>(
        m: &Arith<C>,
        hz: F32,
        q: F32,
        gain_db: F32,
        sample_rate: F32,
    ) -> Biquad
        returns
            (match design(m, hz, q, sample_rate) {
                None => Biquad::identity(),
                Some(design) => {
                    let a = amplitude(m, gain_db);
                    Self::normalised(
                        m,
                        m.plus(num(ONE), m.times(design.alpha, a)),
                        m.times(num(MINUS_TWO), design.cos_w),
                        m.minus(num(ONE), m.times(design.alpha, a)),
                        m.plus(num(ONE), m.over(design.alpha, a)),
                        m.times(num(MINUS_TWO), design.cos_w),
                        m.minus(num(ONE), m.over(design.alpha, a)),
                    )
                },
            }),
    {
        match design(m, hz, q, sample_rate) {
            None => Biquad::identity(),
            Some(design) => {
                let a = amplitude(m, gain_db);
                Self::normalised(
                    m,
                    m.plus(num(ONE), m.times(design.alpha, a)),
                    m.times(num(MINUS_TWO), design.cos_w),
                    m.minus(num(ONE), m.times(design.alpha, a)),
                    m.plus(num(ONE), m.over(design.alpha, a)),
                    m.times(num(MINUS_TWO), design.cos_w),
                    m.minus(num(ONE), m.over(design.alpha, a)),
                )
            },
        }
    }

    /// Low shelf: everything below the frequency lifted or cut.
    #[verifier::allow_in_spec]
    pub fn low_shelf<C: Fn(Calc) -> F32>(
        m: &Arith<C>,
        hz: F32,
        q: F32,
        gain_db: F32,
        sample_rate: F32,
    ) -> Biquad
        returns
            (match design(m, hz, q, sample_rate) {
                None => Biquad::identity(),
                Some(design) => {
                    let a = amplitude(m, gain_db);
                    let reach = m.times(m.times(num(TWO), m.root(a)), design.alpha);
                    Self::normalised(
                        m,
                        m.times(
                            a,
                            m.plus(
                                m.minus(
                                    m.plus(a, num(ONE)),
                                    m.times(m.minus(a, num(ONE)), design.cos_w),
                                ),
                                reach,
                            ),
                        ),
                        m.times(
                            m.times(num(TWO), a),
                            m.minus(
                                m.minus(a, num(ONE)),
                                m.times(m.plus(a, num(ONE)), design.cos_w),
                            ),
                        ),
                        m.times(
                            a,
                            m.minus(
                                m.minus(
                                    m.plus(a, num(ONE)),
                                    m.times(m.minus(a, num(ONE)), design.cos_w),
                                ),
                                reach,
                            ),
                        ),
                        m.plus(
                            m.plus(
                                m.plus(a, num(ONE)),
                                m.times(m.minus(a, num(ONE)), design.cos_w),
                            ),
                            reach,
                        ),
                        m.times(
                            num(MINUS_TWO),
                            m.plus(
                                m.minus(a, num(ONE)),
                                m.times(m.plus(a, num(ONE)), design.cos_w),
                            ),
                        ),
                        m.minus(
                            m.plus(
                                m.plus(a, num(ONE)),
                                m.times(m.minus(a, num(ONE)), design.cos_w),
                            ),
                            reach,
                        ),
                    )
                },
            }),
    {
        match design(m, hz, q, sample_rate) {
            None => Biquad::identity(),
            Some(design) => {
                let a = amplitude(m, gain_db);
                let reach = m.times(m.times(num(TWO), m.root(a)), design.alpha);
                Self::normalised(
                    m,
                    m.times(
                        a,
                        m.plus(
                            m.minus(
                                m.plus(a, num(ONE)),
                                m.times(m.minus(a, num(ONE)), design.cos_w),
                            ),
                            reach,
                        ),
                    ),
                    m.times(
                        m.times(num(TWO), a),
                        m.minus(m.minus(a, num(ONE)), m.times(m.plus(a, num(ONE)), design.cos_w)),
                    ),
                    m.times(
                        a,
                        m.minus(
                            m.minus(
                                m.plus(a, num(ONE)),
                                m.times(m.minus(a, num(ONE)), design.cos_w),
                            ),
                            reach,
                        ),
                    ),
                    m.plus(
                        m.plus(m.plus(a, num(ONE)), m.times(m.minus(a, num(ONE)), design.cos_w)),
                        reach,
                    ),
                    m.times(
                        num(MINUS_TWO),
                        m.plus(m.minus(a, num(ONE)), m.times(m.plus(a, num(ONE)), design.cos_w)),
                    ),
                    m.minus(
                        m.plus(m.plus(a, num(ONE)), m.times(m.minus(a, num(ONE)), design.cos_w)),
                        reach,
                    ),
                )
            },
        }
    }

    /// High shelf: everything above the frequency lifted or cut.
    #[verifier::allow_in_spec]
    pub fn high_shelf<C: Fn(Calc) -> F32>(
        m: &Arith<C>,
        hz: F32,
        q: F32,
        gain_db: F32,
        sample_rate: F32,
    ) -> Biquad
        returns
            (match design(m, hz, q, sample_rate) {
                None => Biquad::identity(),
                Some(design) => {
                    let a = amplitude(m, gain_db);
                    let reach = m.times(m.times(num(TWO), m.root(a)), design.alpha);
                    Self::normalised(
                        m,
                        m.times(
                            a,
                            m.plus(
                                m.plus(
                                    m.plus(a, num(ONE)),
                                    m.times(m.minus(a, num(ONE)), design.cos_w),
                                ),
                                reach,
                            ),
                        ),
                        m.times(
                            m.times(num(MINUS_TWO), a),
                            m.plus(
                                m.minus(a, num(ONE)),
                                m.times(m.plus(a, num(ONE)), design.cos_w),
                            ),
                        ),
                        m.times(
                            a,
                            m.minus(
                                m.plus(
                                    m.plus(a, num(ONE)),
                                    m.times(m.minus(a, num(ONE)), design.cos_w),
                                ),
                                reach,
                            ),
                        ),
                        m.plus(
                            m.minus(
                                m.plus(a, num(ONE)),
                                m.times(m.minus(a, num(ONE)), design.cos_w),
                            ),
                            reach,
                        ),
                        m.times(
                            num(TWO),
                            m.minus(
                                m.minus(a, num(ONE)),
                                m.times(m.plus(a, num(ONE)), design.cos_w),
                            ),
                        ),
                        m.minus(
                            m.minus(
                                m.plus(a, num(ONE)),
                                m.times(m.minus(a, num(ONE)), design.cos_w),
                            ),
                            reach,
                        ),
                    )
                },
            }),
    {
        match design(m, hz, q, sample_rate) {
            None => Biquad::identity(),
            Some(design) => {
                let a = amplitude(m, gain_db);
                let reach = m.times(m.times(num(TWO), m.root(a)), design.alpha);
                Self::normalised(
                    m,
                    m.times(
                        a,
                        m.plus(
                            m.plus(
                                m.plus(a, num(ONE)),
                                m.times(m.minus(a, num(ONE)), design.cos_w),
                            ),
                            reach,
                        ),
                    ),
                    m.times(
                        m.times(num(MINUS_TWO), a),
                        m.plus(m.minus(a, num(ONE)), m.times(m.plus(a, num(ONE)), design.cos_w)),
                    ),
                    m.times(
                        a,
                        m.minus(
                            m.plus(
                                m.plus(a, num(ONE)),
                                m.times(m.minus(a, num(ONE)), design.cos_w),
                            ),
                            reach,
                        ),
                    ),
                    m.plus(
                        m.minus(m.plus(a, num(ONE)), m.times(m.minus(a, num(ONE)), design.cos_w)),
                        reach,
                    ),
                    m.times(
                        num(TWO),
                        m.minus(m.minus(a, num(ONE)), m.times(m.plus(a, num(ONE)), design.cos_w)),
                    ),
                    m.minus(
                        m.minus(m.plus(a, num(ONE)), m.times(m.minus(a, num(ONE)), design.cos_w)),
                        reach,
                    ),
                )
            },
        }
    }

    /// Second-order lowpass.
    #[verifier::allow_in_spec]
    pub fn low_pass<C: Fn(Calc) -> F32>(
        m: &Arith<C>,
        hz: F32,
        q: F32,
        sample_rate: F32,
    ) -> Biquad
        returns
            (match design(m, hz, q, sample_rate) {
                None => Biquad::identity(),
                Some(design) => {
                    let common = m.minus(num(ONE), design.cos_w);
                    Self::normalised(
                        m,
                        m.times(common, num(HALF)),
                        common,
                        m.times(common, num(HALF)),
                        m.plus(num(ONE), design.alpha),
                        m.times(num(MINUS_TWO), design.cos_w),
                        m.minus(num(ONE), design.alpha),
                    )
                },
            }),
    {
        match design(m, hz, q, sample_rate) {
            None => Biquad::identity(),
            Some(design) => {
                let common = m.minus(num(ONE), design.cos_w);
                Self::normalised(
                    m,
                    m.times(common, num(HALF)),
                    common,
                    m.times(common, num(HALF)),
                    m.plus(num(ONE), design.alpha),
                    m.times(num(MINUS_TWO), design.cos_w),
                    m.minus(num(ONE), design.alpha),
                )
            },
        }
    }

    /// Second-order highpass.
    #[verifier::allow_in_spec]
    pub fn high_pass<C: Fn(Calc) -> F32>(
        m: &Arith<C>,
        hz: F32,
        q: F32,
        sample_rate: F32,
    ) -> Biquad
        returns
            (match design(m, hz, q, sample_rate) {
                None => Biquad::identity(),
                Some(design) => {
                    let common = m.plus(num(ONE), design.cos_w);
                    Self::normalised(
                        m,
                        m.times(common, num(HALF)),
                        common.negated(),
                        m.times(common, num(HALF)),
                        m.plus(num(ONE), design.alpha),
                        m.times(num(MINUS_TWO), design.cos_w),
                        m.minus(num(ONE), design.alpha),
                    )
                },
            }),
    {
        match design(m, hz, q, sample_rate) {
            None => Biquad::identity(),
            Some(design) => {
                let common = m.plus(num(ONE), design.cos_w);
                Self::normalised(
                    m,
                    m.times(common, num(HALF)),
                    common.negated(),
                    m.times(common, num(HALF)),
                    m.plus(num(ONE), design.alpha),
                    m.times(num(MINUS_TWO), design.cos_w),
                    m.minus(num(ONE), design.alpha),
                )
            },
        }
    }

    /// Bandpass with unity gain at the centre.
    #[verifier::allow_in_spec]
    pub fn band_pass<C: Fn(Calc) -> F32>(
        m: &Arith<C>,
        hz: F32,
        q: F32,
        sample_rate: F32,
    ) -> Biquad
        returns
            (match design(m, hz, q, sample_rate) {
                None => Biquad::identity(),
                Some(design) => {
                    Self::normalised(
                        m,
                        design.alpha,
                        num(ZERO),
                        design.alpha.negated(),
                        m.plus(num(ONE), design.alpha),
                        m.times(num(MINUS_TWO), design.cos_w),
                        m.minus(num(ONE), design.alpha),
                    )
                },
            }),
    {
        match design(m, hz, q, sample_rate) {
            None => Biquad::identity(),
            Some(design) => {
                Self::normalised(
                    m,
                    design.alpha,
                    num(ZERO),
                    design.alpha.negated(),
                    m.plus(num(ONE), design.alpha),
                    m.times(num(MINUS_TWO), design.cos_w),
                    m.minus(num(ONE), design.alpha),
                )
            },
        }
    }

    /// Notch: a null at the frequency, unity elsewhere.
    #[verifier::allow_in_spec]
    pub fn notch<C: Fn(Calc) -> F32>(
        m: &Arith<C>,
        hz: F32,
        q: F32,
        sample_rate: F32,
    ) -> Biquad
        returns
            (match design(m, hz, q, sample_rate) {
                None => Biquad::identity(),
                Some(design) => {
                    Self::normalised(
                        m,
                        num(ONE),
                        m.times(num(MINUS_TWO), design.cos_w),
                        num(ONE),
                        m.plus(num(ONE), design.alpha),
                        m.times(num(MINUS_TWO), design.cos_w),
                        m.minus(num(ONE), design.alpha),
                    )
                },
            }),
    {
        match design(m, hz, q, sample_rate) {
            None => Biquad::identity(),
            Some(design) => {
                Self::normalised(
                    m,
                    num(ONE),
                    m.times(num(MINUS_TWO), design.cos_w),
                    num(ONE),
                    m.plus(num(ONE), design.alpha),
                    m.times(num(MINUS_TWO), design.cos_w),
                    m.minus(num(ONE), design.alpha),
                )
            },
        }
    }

    /// Allpass: flat magnitude, phase rotated about the frequency. For moving phase
    /// without touching level.
    #[verifier::allow_in_spec]
    pub fn all_pass<C: Fn(Calc) -> F32>(
        m: &Arith<C>,
        hz: F32,
        q: F32,
        sample_rate: F32,
    ) -> Biquad
        returns
            (match design(m, hz, q, sample_rate) {
                None => Biquad::identity(),
                Some(design) => {
                    Self::normalised(
                        m,
                        m.minus(num(ONE), design.alpha),
                        m.times(num(MINUS_TWO), design.cos_w),
                        m.plus(num(ONE), design.alpha),
                        m.plus(num(ONE), design.alpha),
                        m.times(num(MINUS_TWO), design.cos_w),
                        m.minus(num(ONE), design.alpha),
                    )
                },
            }),
    {
        match design(m, hz, q, sample_rate) {
            None => Biquad::identity(),
            Some(design) => {
                Self::normalised(
                    m,
                    m.minus(num(ONE), design.alpha),
                    m.times(num(MINUS_TWO), design.cos_w),
                    m.plus(num(ONE), design.alpha),
                    m.plus(num(ONE), design.alpha),
                    m.times(num(MINUS_TWO), design.cos_w),
                    m.minus(num(ONE), design.alpha),
                )
            },
        }
    }

    /// Two zeros at DC and a double pole at `omega`, bilinear-transformed: the block
    /// both weighting curves are made of.
    #[verifier::allow_in_spec]
    pub fn double_pole_highpass<C: Fn(Calc) -> F32>(
        m: &Arith<C>,
        omega: F32,
        sample_rate: F32,
    ) -> Biquad
        returns
            ({
                let c = m.times(num(TWO), sample_rate);
                let warped = prewarp(m, omega, sample_rate);
                let a = m.plus(c, warped);
                let b = m.minus(warped, c);
                let gain = m.over(m.times(c, c), m.times(a, a));
                Biquad::new(
                    gain,
                    m.times(num(MINUS_TWO), gain),
                    gain,
                    m.over(m.times(num(TWO), b), a),
                    m.over(m.times(b, b), m.times(a, a)),
                )
            }),
    {
        let c = m.times(num(TWO), sample_rate);
        let warped = prewarp(m, omega, sample_rate);
        let a = m.plus(c, warped);
        let b = m.minus(warped, c);
        let gain = m.over(m.times(c, c), m.times(a, a));
        Biquad::new(
            gain,
            m.times(num(MINUS_TWO), gain),
            gain,
            m.over(m.times(num(TWO), b), a),
            m.over(m.times(b, b), m.times(a, a)),
        )
    }

    /// Two real poles and two zeros at Nyquist, bilinear-transformed.
    #[verifier::allow_in_spec]
    pub fn two_pole_lowpass<C: Fn(Calc) -> F32>(
        m: &Arith<C>,
        omega_a: F32,
        omega_b: F32,
        sample_rate: F32,
    ) -> Biquad
        returns
            ({
                let c = m.times(num(TWO), sample_rate);
                let warped_a = prewarp(m, omega_a, sample_rate);
                let warped_b = prewarp(m, omega_b, sample_rate);
                let pa = m.plus(c, warped_a);
                let qa = m.minus(warped_a, c);
                let pb = m.plus(c, warped_b);
                let qb = m.minus(warped_b, c);
                let norm = m.times(pa, pb);
                Biquad::new(
                    m.over(num(ONE), norm),
                    m.over(num(TWO), norm),
                    m.over(num(ONE), norm),
                    m.over(m.plus(m.times(pa, qb), m.times(pb, qa)), norm),
                    m.over(m.times(qa, qb), norm),
                )
            }),
    {
        let c = m.times(num(TWO), sample_rate);
        let warped_a = prewarp(m, omega_a, sample_rate);
        let warped_b = prewarp(m, omega_b, sample_rate);
        let pa = m.plus(c, warped_a);
        let qa = m.minus(warped_a, c);
        let pb = m.plus(c, warped_b);
        let qb = m.minus(warped_b, c);
        let norm = m.times(pa, pb);
        Biquad::new(
            m.over(num(ONE), norm),
            m.over(num(TWO), norm),
            m.over(num(ONE), norm),
            m.over(m.plus(m.times(pa, qb), m.times(pb, qa)), norm),
            m.over(m.times(qa, qb), norm),
        )
    }
}

/// A real number in the complex plane.
#[verifier::allow_in_spec]
pub fn on_axis(a: F32) -> Complex
    returns
        (Complex { re: a, im: num(ZERO) }),
{
    Complex { re: a, im: num(ZERO) }
}

/// The point of the unit circle at an angle.
#[verifier::allow_in_spec]
pub fn unit_at<C: Fn(Calc) -> F32>(m: &Arith<C>, angle: F32) -> Complex
    returns
        (Complex {
            re: m.times(num(ONE), m.cosine(angle)),
            im: m.times(num(ONE), m.sine(angle)),
        }),
{
    Complex { re: m.times(num(ONE), m.cosine(angle)), im: m.times(num(ONE), m.sine(angle)) }
}

/// The quantities every cookbook formula shares.
#[derive(Debug, Clone, Copy, PartialEq, Eq, Structural)]
pub struct Design {
    pub cos_w: F32,
    pub alpha: F32,
}

/// The quantities of a design, `None` for one that cannot be realised.
///
/// A centre frequency at or above Nyquist has no meaning. A preset written at one
/// sample rate and loaded at a lower one puts its top band there.
#[verifier::allow_in_spec]
pub fn design<C: Fn(Calc) -> F32>(m: &Arith<C>, hz: F32, q: F32, sample_rate: F32) -> Option<Design>
    returns
        (if !hz.is_finite() || !q.is_finite() || sample_rate.le(num(ZERO)) || hz.le(num(ZERO))
            || m.times(m.times(sample_rate, num(HALF)), num(BELOW_NYQUIST)).le(hz) {
            None
        } else {
            Some(
                Design {
                    cos_w: m.cosine(m.over(m.times(num(TAU), hz), sample_rate)),
                    alpha: m.over(
                        m.sine(m.over(m.times(num(TAU), hz), sample_rate)),
                        m.times(num(TWO), q.max(num(LEAST_Q))),
                    ),
                },
            )
        }),
{
    if !hz.is_finite() || !q.is_finite() || sample_rate.le(num(ZERO)) {
        return None;
    }
    let nyquist = m.times(sample_rate, num(HALF));
    if hz.le(num(ZERO)) || m.times(nyquist, num(BELOW_NYQUIST)).le(hz) {
        return None;
    }
    let w = m.over(m.times(num(TAU), hz), sample_rate);
    Some(
        Design {
            cos_w: m.cosine(w),
            alpha: m.over(m.sine(w), m.times(num(TWO), q.max(num(LEAST_Q)))),
        },
    )
}

/// The square root of the linear gain, because a peaking filter applies it twice.
#[verifier::allow_in_spec]
pub fn amplitude<C: Fn(Calc) -> F32>(m: &Arith<C>, gain_db: F32) -> F32
    returns
        m.power(num(TEN), m.over(gain_db, num(FORTY))),
{
    m.power(num(TEN), m.over(gain_db, num(FORTY)))
}

/// Pre-warp an analog pole so the bilinear transform lands it on the intended
/// digital frequency.
///
/// The bilinear transform compresses the frequency axis towards Nyquist. The angle
/// is limited, because its tangent blows up for a pole at or beyond Nyquist.
#[verifier::allow_in_spec]
pub fn prewarp<C: Fn(Calc) -> F32>(m: &Arith<C>, omega: F32, sample_rate: F32) -> F32
    returns
        m.times(
            m.times(num(TWO), sample_rate),
            m.tangent(
                m.over(omega, m.times(num(TWO), sample_rate)).clamp(num(ZERO), num(STEEPEST)),
            ),
        ),
{
    let c = m.times(num(TWO), sample_rate);
    let angle = m.over(omega, c).clamp(num(ZERO), num(STEEPEST));
    m.times(c, m.tangent(angle))
}

/// Filtering samples in two blocks is filtering them in one: the section carries
/// over.
pub proof fn lemma_filter_in_blocks<C: Fn(Calc) -> F32>(
    section: Biquad,
    m: Arith<C>,
    first: Seq<F32>,
    second: Seq<F32>,
)
    ensures
        ({
            let before = section.filtered(m, first);
            let after = before.section.filtered(m, second);
            section.filtered(m, first + second) == (Filtered {
                section: after.section,
                samples: before.samples + after.samples,
            })
        }),
    decreases second.len(),
{
    let before = section.filtered(m, first);
    let after = before.section.filtered(m, second);
    if second.len() == 0 {
        assert(first + second =~= first);
        assert(before.samples + after.samples =~= before.samples);
    } else {
        assert((first + second).drop_last() =~= first + second.drop_last());
        lemma_filter_in_blocks(section, m, first, second.drop_last());
        let part = before.section.filtered(m, second.drop_last());
        assert(before.samples + after.samples =~= (before.samples + part.samples).push(
            part.section.output(m, second.last()),
        ));
    }
}

/// Filtering keeps the coefficients and the number of samples.
pub proof fn lemma_filter_keeps_shape<C: Fn(Calc) -> F32>(
    section: Biquad,
    m: Arith<C>,
    samples: Seq<F32>,
)
    ensures
        section.filtered(m, samples).section.same_shape(section),
        section.filtered(m, samples).samples.len() == samples.len(),
    decreases samples.len(),
{
    if samples.len() > 0 {
        lemma_filter_keeps_shape(section, m, samples.drop_last());
    }
}

/// The samples that come out of a section follow its difference equation: each is made
/// of the sample that goes in and the two before it, less the two that came out before.
pub proof fn lemma_difference_equation<C: Fn(Calc) -> F32>(
    section: Biquad,
    m: Arith<C>,
    x: Seq<F32>,
    i: int,
)
    requires
        2 <= i < x.len(),
    ensures
        ({
            let y = section.filtered(m, x).samples;
            &&& y.len() == x.len()
            &&& y[i] == m.plus(
                m.times(section.b0, x[i]),
                m.plus(
                    m.minus(m.times(section.b1, x[i - 1]), m.times(section.a1, y[i - 1])),
                    m.minus(m.times(section.b2, x[i - 2]), m.times(section.a2, y[i - 2])),
                ),
            )
        }),
    decreases x.len(),
{
    lemma_filter_keeps_shape(section, m, x);
    if i < x.len() - 1 {
        lemma_difference_equation(section, m, x.drop_last(), i);
        lemma_filter_keeps_shape(section, m, x.drop_last());
    } else {
        let one = x.drop_last();
        let two = one.drop_last();
        let three = two.drop_last();
        lemma_filter_keeps_shape(section, m, one);
        lemma_filter_keeps_shape(section, m, two);
        lemma_filter_keeps_shape(section, m, three);
        assert(one.last() == x[i - 1]);
        assert(two.last() == x[i - 2]);
    }
}

/// The response of a section is the ratio of its two polynomials at the point of the
/// unit circle that lies as far back as the frequency turns in a sample.
pub proof fn lemma_response_is_a_ratio<C: Fn(Calc) -> F32>(
    section: Biquad,
    m: Arith<C>,
    hz: F32,
    sample_rate: F32,
)
    requires
        num(ZERO).less(sample_rate),
    ensures
        ({
            let back = m.over(m.times(num(TAU), hz), sample_rate).spec_negated();
            let z = Complex {
                re: m.times(num(ONE), m.cosine(back)),
                im: m.times(num(ONE), m.sine(back)),
            };
            let zz = m.product(z, z);
            let zero = num(ZERO);
            let above = m.sum(
                m.sum(Complex { re: section.b0, im: zero }, m.scaled(z, section.b1)),
                m.scaled(zz, section.b2),
            );
            let below = m.sum(
                m.sum(Complex { re: num(ONE), im: zero }, m.scaled(z, section.a1)),
                m.scaled(zz, section.a2),
            );
            num(ZERO).less(m.norm_sqr(below)) ==> section.spec_response_at(m, hz, sample_rate)
                == m.quotient(above, below)
        }),
{
}

/// A design that cannot be realised leaves the signal alone, whatever its shape: one
/// without a frequency, at or next to Nyquist or beyond it, or without a quality factor.
pub proof fn lemma_impossible_designs_change_nothing<C: Fn(Calc) -> F32>(
    m: Arith<C>,
    hz: F32,
    q: F32,
    gain_db: F32,
    sample_rate: F32,
)
    requires
        !hz.finite() || !q.finite() || sample_rate.at_most(num(ZERO)) || hz.at_most(num(ZERO))
            || m.times(m.times(sample_rate, num(HALF)), num(BELOW_NYQUIST)).at_most(hz),
    ensures
        Biquad::peaking(&m, hz, q, gain_db, sample_rate) == Biquad::identity(),
        Biquad::low_shelf(&m, hz, q, gain_db, sample_rate) == Biquad::identity(),
        Biquad::high_shelf(&m, hz, q, gain_db, sample_rate) == Biquad::identity(),
        Biquad::low_pass(&m, hz, q, sample_rate) == Biquad::identity(),
        Biquad::high_pass(&m, hz, q, sample_rate) == Biquad::identity(),
        Biquad::band_pass(&m, hz, q, sample_rate) == Biquad::identity(),
        Biquad::notch(&m, hz, q, sample_rate) == Biquad::identity(),
        Biquad::all_pass(&m, hz, q, sample_rate) == Biquad::identity(),
{
}

/// What the shapes of one design have in common and where they differ. All but the
/// shelves and the peak have the same poles. A notch is as good as a pass where nothing
/// is removed; an allpass has its zeros where its poles are mirrored; lowpass, highpass
/// and notch have symmetric zeros, a bandpass opposite ones; a peak has one middle
/// coefficient above as below.
pub proof fn lemma_shapes_of_a_design<C: Fn(Calc) -> F32>(
    m: Arith<C>,
    hz: F32,
    q: F32,
    gain_db: F32,
    sample_rate: F32,
)
    requires
        hz.finite(),
        q.finite(),
        num(ZERO).less(sample_rate),
        num(ZERO).less(hz),
        !m.times(m.times(sample_rate, num(HALF)), num(BELOW_NYQUIST)).at_most(hz),
        ({
            let w = m.over(m.times(num(TAU), hz), sample_rate);
            let alpha = m.over(m.sine(w), m.times(num(TWO), q.spec_max(num(LEAST_Q))));
            let a0 = m.plus(num(ONE), alpha);
            a0.finite() && !a0.spec_abs().less(num(EPSILON))
        }),
    ensures
        ({
            let w = m.over(m.times(num(TAU), hz), sample_rate);
            let cos = m.cosine(w);
            let alpha = m.over(m.sine(w), m.times(num(TWO), q.spec_max(num(LEAST_Q))));
            let a0 = m.plus(num(ONE), alpha);
            let (a1, a2) = (
                m.over(m.times(num(MINUS_TWO), cos), a0),
                m.over(m.minus(num(ONE), alpha), a0),
            );
            let low = Biquad::low_pass(&m, hz, q, sample_rate);
            let high = Biquad::high_pass(&m, hz, q, sample_rate);
            let band = Biquad::band_pass(&m, hz, q, sample_rate);
            let notch = Biquad::notch(&m, hz, q, sample_rate);
            let all = Biquad::all_pass(&m, hz, q, sample_rate);
            let peak = Biquad::peaking(&m, hz, q, gain_db, sample_rate);
            &&& low.a1 == a1 && low.a2 == a2
            &&& high.a1 == a1 && high.a2 == a2
            &&& band.a1 == a1 && band.a2 == a2
            &&& notch.a1 == a1 && notch.a2 == a2
            &&& all.a1 == a1 && all.a2 == a2
            &&& low.b1 == m.over(m.minus(num(ONE), cos), a0)
            &&& low.b0 == m.over(m.times(m.minus(num(ONE), cos), num(HALF)), a0)
            &&& low.b2 == low.b0
            &&& high.b1 == m.over(m.plus(num(ONE), cos).spec_negated(), a0)
            &&& high.b0 == m.over(m.times(m.plus(num(ONE), cos), num(HALF)), a0)
            &&& high.b2 == high.b0
            &&& band.b0 == m.over(alpha, a0)
            &&& band.b1 == m.over(num(ZERO), a0)
            &&& band.b2 == m.over(alpha.spec_negated(), a0)
            &&& notch.b1 == a1
            &&& notch.b0 == m.over(num(ONE), a0)
            &&& notch.b2 == notch.b0
            &&& all.b0 == a2 && all.b1 == a1 && all.b2 == m.over(a0, a0)
            &&& peak != Biquad::identity() ==> peak.b1 == peak.a1
        }),
{
}

/// A cut is the boost turned over: where the two amplitudes undo one another, zeros and
/// poles of a peak change places.
pub proof fn lemma_cut_mirrors_boost<C: Fn(Calc) -> F32>(
    m: Arith<C>,
    hz: F32,
    q: F32,
    boost_db: F32,
    cut_db: F32,
    sample_rate: F32,
    d: Design,
)
    requires
        design(&m, hz, q, sample_rate) == Some(d),
        ({
            let a = m.power(num(TEN), m.over(boost_db, num(FORTY)));
            let c = m.power(num(TEN), m.over(cut_db, num(FORTY)));
            let (over, under) = (
                m.plus(num(ONE), m.times(d.alpha, a)),
                m.plus(num(ONE), m.over(d.alpha, a)),
            );
            &&& m.times(d.alpha, c) == m.over(d.alpha, a)
            &&& m.over(d.alpha, c) == m.times(d.alpha, a)
            &&& over.finite() && !over.spec_abs().less(num(EPSILON))
            &&& under.finite() && !under.spec_abs().less(num(EPSILON))
        }),
    ensures
        ({
            let a = m.power(num(TEN), m.over(boost_db, num(FORTY)));
            let (over, under) = (
                m.plus(num(ONE), m.times(d.alpha, a)),
                m.plus(num(ONE), m.over(d.alpha, a)),
            );
            let boost = Biquad::peaking(&m, hz, q, boost_db, sample_rate);
            let cut = Biquad::peaking(&m, hz, q, cut_db, sample_rate);
            let middle = m.times(num(MINUS_TWO), d.cos_w);
            &&& boost.b0 == m.over(over, under) && cut.b0 == m.over(under, over)
            &&& boost.b1 == m.over(middle, under) && cut.b1 == m.over(middle, over)
            &&& boost.b2 == m.over(m.minus(num(ONE), m.times(d.alpha, a)), under)
            &&& boost.a2 == m.over(m.minus(num(ONE), m.over(d.alpha, a)), under)
            &&& cut.b2 == m.over(m.minus(num(ONE), m.over(d.alpha, a)), over)
            &&& cut.a2 == m.over(m.minus(num(ONE), m.times(d.alpha, a)), over)
        }),
{
}

/// A low shelf and a high shelf are one another's mirror image: where one has the cosine
/// of its frequency the other has its negative, in the even coefficients.
pub proof fn lemma_shelves_mirror<C: Fn(Calc) -> F32>(
    m: Arith<C>,
    hz: F32,
    q: F32,
    gain_db: F32,
    sample_rate: F32,
    d: Design,
)
    requires
        design(&m, hz, q, sample_rate) == Some(d),
        ({
            let a = m.power(num(TEN), m.over(gain_db, num(FORTY)));
            let reach = m.times(m.times(num(TWO), m.root(a)), d.alpha);
            let tilt = m.times(m.minus(a, num(ONE)), d.cos_w);
            let (up, down) = (
                m.plus(m.plus(m.plus(a, num(ONE)), tilt), reach),
                m.plus(m.minus(m.plus(a, num(ONE)), tilt), reach),
            );
            &&& up.finite() && !up.spec_abs().less(num(EPSILON))
            &&& down.finite() && !down.spec_abs().less(num(EPSILON))
        }),
    ensures
        ({
            let a = m.power(num(TEN), m.over(gain_db, num(FORTY)));
            let (more, less) = (m.plus(a, num(ONE)), m.minus(a, num(ONE)));
            let reach = m.times(m.times(num(TWO), m.root(a)), d.alpha);
            let tilt = m.times(less, d.cos_w);
            let (up, down) = (m.plus(more, tilt), m.minus(more, tilt));
            let (below, above) = (
                Biquad::low_shelf(&m, hz, q, gain_db, sample_rate),
                Biquad::high_shelf(&m, hz, q, gain_db, sample_rate),
            );
            &&& below.b0 == m.over(m.times(a, m.plus(down, reach)), m.plus(up, reach))
            &&& above.b0 == m.over(m.times(a, m.plus(up, reach)), m.plus(down, reach))
            &&& below.b2 == m.over(m.times(a, m.minus(down, reach)), m.plus(up, reach))
            &&& above.b2 == m.over(m.times(a, m.minus(up, reach)), m.plus(down, reach))
            &&& below.a2 == m.over(m.minus(up, reach), m.plus(up, reach))
            &&& above.a2 == m.over(m.minus(down, reach), m.plus(down, reach))
            &&& below.b1 == m.over(
                m.times(m.times(num(TWO), a), m.minus(less, m.times(more, d.cos_w))),
                m.plus(up, reach),
            )
            &&& above.b1 == m.over(
                m.times(m.times(num(MINUS_TWO), a), m.plus(less, m.times(more, d.cos_w))),
                m.plus(down, reach),
            )
            &&& below.a1 == m.over(
                m.times(num(MINUS_TWO), m.plus(less, m.times(more, d.cos_w))),
                m.plus(up, reach),
            )
            &&& above.a1 == m.over(
                m.times(num(TWO), m.minus(less, m.times(more, d.cos_w))),
                m.plus(down, reach),
            )
        }),
{
}

} // verus!
