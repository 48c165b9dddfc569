//! Stimulus generation.
//!
//! To learn what a system did one has to know what went in, which means generating
//! it. The phase is accumulated in double precision: a single-precision accumulator
//! drifts within minutes.

use vstd::prelude::*;

use crate::arith::{Arith, Calc, Wide, WideArith};
use crate::ieee;
use crate::ieee::{F32, F64};
use crate::numbers::{num, wide, MINUS_ONE, ONE, ZERO};

verus! {

/// A whole turn in radians.
pub const WIDE_TAU: u64 = 0x4019_21FB_5444_2D18;

/// One.
pub const WIDE_ONE: u64 = 0x3FF0_0000_0000_0000;

/// The least frequency, frequency step and duration of a sweep, one thousandth.
pub const LEAST: u64 = 0x3F50_624D_D2F1_A9FC;

/// Half the range of a random number of twenty-four bits.
pub const HALF_RANGE: u32 = 0x4B00_0000;

/// What to generate.
#[derive(Debug, Clone, Copy, PartialEq, Eq, Structural)]
pub enum Signal {
    /// Digital silence.
    Silence,
    /// A steady sine.
    Sine {
        /// Frequency in hertz.
        hz: F32,
        /// Peak amplitude.
        amplitude: F32,
    },
    /// Equal energy per hertz.
    WhiteNoise {
        /// Peak amplitude.
        amplitude: F32,
    },
    /// Equal energy per octave.
    PinkNoise {
        /// Peak amplitude.
        amplitude: F32,
    },
    /// Exponential sine sweep, which spends equal time per octave.
    Sweep {
        /// Starting frequency in hertz.
        start_hz: F32,
        /// Ending frequency in hertz.
        end_hz: F32,
        /// Duration of one pass.
        seconds: F32,
        /// Peak amplitude.
        amplitude: F32,
        /// Whether to restart after reaching the end.
        repeat: bool,
    },
}

impl Default for Signal {
    fn default() -> (signal: Signal)
        ensures
            signal == Signal::Silence,
    {
        Signal::Silence
    }
}

/// The state of a xorshift generator after a state.
pub open spec fn next_state(x: u64) -> u64 {
    let a = x ^ (x >> 12);
    let b = a ^ (a << 25);
    b ^ (b >> 27)
}

/// The number of twenty-four bits that a state stands for: the top of its product,
/// because the low bits of xorshift are weak.
pub open spec fn drawn(state: u64) -> u64 {
    state.wrapping_mul(0x2545_F491_4F6C_DD1D) >> 40
}

/// The random sample of a state, between minus one and one.
pub open spec fn noise<C: Fn(Calc) -> F32>(m: Arith<C>, state: u64) -> F32 {
    m.minus(m.over(m.of(Calc::Count(drawn(state))), num(HALF_RANGE)), num(ONE))
}

/// Zero is a fixed point of xorshift, and no other state leads to it.
pub proof fn lemma_state_never_zero(x: u64)
    requires
        x != 0,
    ensures
        next_state(x) != 0,
{
    assert(x != 0 ==> (x ^ (x >> 12)) != 0) by (bit_vector);
    let a = x ^ (x >> 12);
    assert(a != 0 ==> (a ^ (a << 25)) != 0) by (bit_vector);
    let b = a ^ (a << 25);
    assert(b != 0 ==> (b ^ (b >> 27)) != 0) by (bit_vector);
}

/// A random number that is drawn has twenty-four bits.
pub proof fn lemma_drawn_has_24_bits(state: u64)
    ensures
        drawn(state) < 0x100_0000,
{
    let product = state.wrapping_mul(0x2545_F491_4F6C_DD1D);
    assert(product >> 40 < 0x100_0000) by (bit_vector);
}

/// A small xorshift generator. Noise needs to be fast and never block.
#[derive(Debug)]
pub struct Rng {
    state: u64,
}

/// The state that a seed stands for. Zero is a fixed point, so it must never be one.
pub open spec fn first_state(seed: u64) -> u64 {
    if seed == 0 {
        0x9E37_79B9_7F4A_7C15
    } else {
        seed
    }
}

impl View for Rng {
    type V = u64;

    closed spec fn view(&self) -> u64 {
        self.state
    }
}

impl Clone for Rng {
    fn clone(&self) -> (rng: Rng)
        ensures
            rng@ == self@,
    {
        proof {
            use_type_invariant(self);
        }
        Rng { state: self.state }
    }
}

impl Rng {
    #[verifier::type_invariant]
    spec fn alive(self) -> bool {
        self.state != 0
    }

    /// A generator that starts from a seed.
    pub fn new(seed: u64) -> (rng: Rng)
        ensures
            rng@ == first_state(seed),
            rng@ != 0,
    {
        // Zero is a fixed point, so it must never be the state.
        Rng {
            state: if seed == 0 {
                0x9E37_79B9_7F4A_7C15
            } else {
                seed
            },
        }
    }

    /// The next sample.
    pub fn next_sample<C: Fn(Calc) -> F32>(&mut self, m: &Arith<C>) -> (sample: F32)
        ensures
            final(self)@ == next_state(old(self)@),
            final(self)@ != 0,
            sample == noise(*m, final(self)@),
    {
        proof {
            use_type_invariant(&*self);
            lemma_state_never_zero(self.state);
        }
        let x: u64 = self.state;
        let a: u64 = x ^ (x >> 12);
        let b: u64 = a ^ (a << 25);
        let c: u64 = b ^ (b >> 27);
        self.state = c;
        let scrambled: u64 = c.wrapping_mul(0x2545_F491_4F6C_DD1D);
        m.minus(m.over(m.calc(Calc::Count(scrambled >> 40)), num(HALF_RANGE)), num(ONE))
    }
}

/// A filter that shapes white noise to fall by three decibels per octave: six
/// one-pole sections and a direct path.
#[derive(Debug, Clone, Copy, PartialEq, Eq, Structural)]
pub struct PinkFilter {
    pub b0: F32,
    pub b1: F32,
    pub b2: F32,
    pub b3: F32,
    pub b4: F32,
    pub b5: F32,
    pub b6: F32,
}

/// One section of the pink filter: what it keeps of itself and takes of the sample.
#[verifier::allow_in_spec]
pub fn pole<C: Fn(Calc) -> F32>(m: &Arith<C>, keep: u32, b: F32, white: F32, take: u32) -> F32
    returns
        m.plus(m.times(num(keep), b), m.times(white, num(take))),
{
    m.plus(m.times(num(keep), b), m.times(white, num(take)))
}

impl PinkFilter {
    /// A filter that has seen nothing.
    #[verifier::allow_in_spec]
    pub fn cleared() -> PinkFilter
        returns
            (PinkFilter {
                b0: num(ZERO),
                b1: num(ZERO),
                b2: num(ZERO),
                b3: num(ZERO),
                b4: num(ZERO),
                b5: num(ZERO),
                b6: num(ZERO),
            }),
    {
        PinkFilter {
            b0: num(ZERO),
            b1: num(ZERO),
            b2: num(ZERO),
            b3: num(ZERO),
            b4: num(ZERO),
            b5: num(ZERO),
            b6: num(ZERO),
        }
    }

    /// The filter once a white sample has gone in.
    #[verifier::allow_in_spec]
    pub fn advanced<C: Fn(Calc) -> F32>(&self, m: &Arith<C>, white: F32) -> PinkFilter
        returns
            (PinkFilter {
                b0: pole(m, 0x3F7F_B54A, self.b0, white, 0x3D63_66BD),
                b1: pole(m, 0x3F7E_4A38, self.b1, white, 0x3D99_C165),
                b2: pole(m, 0x3F78_1062, self.b2, white, 0x3E1D_8B61),
                b3: pole(m, 0x3F5D_D2F2, self.b3, white, 0x3E9E_F7F8),
                b4: pole(m, 0x3F0C_CCCD, self.b4, white, 0x3F08_6F8E),
                b5: m.minus(
                    m.times(num(0xBF42_F838), self.b5),
                    m.times(white, num(0x3C8A_6DAD)),
                ),
                b6: m.times(white, num(0x3DED_6A9C)),
            }),
    {
        PinkFilter {
            b0: pole(m, 0x3F7F_B54A, self.b0, white, 0x3D63_66BD),
            b1: pole(m, 0x3F7E_4A38, self.b1, white, 0x3D99_C165),
            b2: pole(m, 0x3F78_1062, self.b2, white, 0x3E1D_8B61),
            b3: pole(m, 0x3F5D_D2F2, self.b3, white, 0x3E9E_F7F8),
            b4: pole(m, 0x3F0C_CCCD, self.b4, white, 0x3F08_6F8E),
            b5: m.minus(m.times(num(0xBF42_F838), self.b5), m.times(white, num(0x3C8A_6DAD))),
            b6: m.times(white, num(0x3DED_6A9C)),
        }
    }

    /// The sample that comes out for a white sample that goes in: all sections summed
    /// and scaled back to about unity. The last section contributes what it kept of
    /// the sample before.
    #[verifier::allow_in_spec]
    pub fn output<C: Fn(Calc) -> F32>(&self, m: &Arith<C>, white: F32) -> F32
        returns
            ({
                let next = self.advanced(m, white);
                let five = m.plus(
                    m.plus(m.plus(m.plus(next.b0, next.b1), next.b2), next.b3),
                    next.b4,
                );
                let all = m.plus(m.plus(five, next.b5), self.b6);
                m.times(m.plus(all, m.times(white, num(0x3F09_4467))), num(0x3E00_0000))
            }),
    {
        let next = self.advanced(m, white);
        let five = m.plus(m.plus(m.plus(m.plus(next.b0, next.b1), next.b2), next.b3), next.b4);
        let all = m.plus(m.plus(five, next.b5), self.b6);
        m.times(m.plus(all, m.times(white, num(0x3F09_4467))), num(0x3E00_0000))
    }
}

/// What a sweep is made of, in double precision and within bounds.
pub struct SweepPlan {
    pub start: F64,
    pub duration: F64,
    /// The logarithm of the frequency ratio.
    pub ratio: F64,
    /// Samples in one pass.
    pub total: u64,
}

/// The plan of a sweep.
pub open spec fn sweep_plan<W: Fn(Wide) -> F64>(
    w: WideArith<W>,
    sample_rate: F64,
    start_hz: F32,
    end_hz: F32,
    seconds: F32,
) -> SweepPlan {
    let start = w.widen(start_hz).spec_max(wide(LEAST));
    let end = w.widen(end_hz).spec_max(w.plus(start, wide(LEAST)));
    let duration = w.widen(seconds).spec_max(wide(LEAST));
    SweepPlan {
        start,
        duration,
        ratio: w.ln(w.over(end, start)),
        total: ieee::saturated(w.times(duration, sample_rate).floor_int(), u64::MAX as int) as u64,
    }
}

/// The phase of a sweep at a sample. The frequency rises geometrically, so equal
/// time is spent in every octave.
#[verifier::allow_in_spec]
pub fn sweep_phase<W: Fn(Wide) -> F64>(
    w: &WideArith<W>,
    sample_rate: F64,
    start: F64,
    duration: F64,
    ratio: F64,
    position: u64,
) -> F64
    returns
        w.times(
            w.over(w.times(w.times(wide(WIDE_TAU), start), duration), ratio),
            w.minus(
                w.exp(w.times(w.over(w.over(w.count(position), sample_rate), duration), ratio)),
                wide(WIDE_ONE),
            ),
        ),
{
    let t = w.over(w.count(position), sample_rate);
    w.times(
        w.over(w.times(w.times(wide(WIDE_TAU), start), duration), ratio),
        w.minus(w.exp(w.times(w.over(t, duration), ratio)), wide(WIDE_ONE)),
    )
}

/// What a generator amounts to.
pub struct GeneratorModel {
    pub sample_rate: F64,
    pub signal: Signal,
    /// Radians.
    pub phase: F64,
    /// Samples into the current sweep pass.
    pub position: u64,
    /// The state of the random numbers.
    pub random: u64,
    /// The state of the random numbers at the start.
    pub seed: u64,
    pub pink: PinkFilter,
    pub finished: bool,
}

/// The amplitude of a signal as a gain.
#[verifier::allow_in_spec]
pub fn gain_of(amplitude: F32) -> F32
    returns
        amplitude.clamp(num(ZERO), num(ONE)),
{
    amplitude.clamp(num(ZERO), num(ONE))
}

/// A phase one increment further, wrapped so that its resolution never degrades.
#[verifier::allow_in_spec]
pub fn phase_after<W: Fn(Wide) -> F64>(w: &WideArith<W>, phase: F64, increment: F64) -> F64
    returns
        (if wide(WIDE_TAU).le(w.plus(phase, increment)) {
            w.minus(w.plus(phase, increment), wide(WIDE_TAU))
        } else {
            w.plus(phase, increment)
        }),
{
    let next = w.plus(phase, increment);
    if wide(WIDE_TAU).le(next) {
        w.minus(next, wide(WIDE_TAU))
    } else {
        next
    }
}

impl GeneratorModel {
    /// The plan of the sweep that is generated.
    pub open spec fn plan<W: Fn(Wide) -> F64>(self, w: WideArith<W>) -> SweepPlan {
        match self.signal {
            Signal::Sweep { start_hz, end_hz, seconds, amplitude, repeat } => sweep_plan(
                w,
                self.sample_rate,
                start_hz,
                end_hz,
                seconds,
            ),
            _ => arbitrary(),
        }
    }

    /// Where in a sweep the next sample lies: at the start again once a repeating
    /// sweep has reached its end.
    pub open spec fn sweep_position<W: Fn(Wide) -> F64>(self, w: WideArith<W>) -> u64 {
        if self.position >= self.plan(w).total {
            0
        } else {
            self.position
        }
    }

    /// The next sample.
    pub open spec fn sample<C: Fn(Calc) -> F32, W: Fn(Wide) -> F64>(
        self,
        m: Arith<C>,
        w: WideArith<W>,
    ) -> F32 {
        match self.signal {
            Signal::Silence => num(ZERO),
            Signal::Sine { hz, amplitude } => m.times(
                m.narrow(w.sine(self.phase)),
                gain_of(amplitude),
            ),
            Signal::WhiteNoise { amplitude } => m.times(
                noise(m, next_state(self.random)),
                gain_of(amplitude),
            ),
            Signal::PinkNoise { amplitude } => m.times(
                self.pink.output(&m, noise(m, next_state(self.random))),
                gain_of(amplitude),
            ).spec_clamp(num(MINUS_ONE), num(ONE)),
            Signal::Sweep { start_hz, end_hz, seconds, amplitude, repeat } => {
                let plan = self.plan(w);
                if self.position >= plan.total && !repeat {
                    num(ZERO)
                } else {
                    m.times(
                        m.narrow(
                            w.sine(
                                sweep_phase(
                                    &w,
                                    self.sample_rate,
                                    plan.start,
                                    plan.duration,
                                    plan.ratio,
                                    self.sweep_position(w),
                                ),
                            ),
                        ),
                        gain_of(amplitude),
                    )
                }
            },
        }
    }

    /// The generator once a sample has been taken.
    pub open spec fn stepped<C: Fn(Calc) -> F32, W: Fn(Wide) -> F64>(
        self,
        m: Arith<C>,
        w: WideArith<W>,
    ) -> GeneratorModel {
        match self.signal {
            Signal::Silence => self,
            Signal::Sine { hz, amplitude } => GeneratorModel {
                phase: phase_after(
                    &w,
                    self.phase,
                    w.over(w.times(wide(WIDE_TAU), w.widen(hz)), self.sample_rate),
                ),
                ..self
            },
            Signal::WhiteNoise { amplitude } => GeneratorModel {
                random: next_state(self.random),
                ..self
            },
            Signal::PinkNoise { amplitude } => GeneratorModel {
                random: next_state(self.random),
                pink: self.pink.advanced(&m, noise(m, next_state(self.random))),
                ..self
            },
            Signal::Sweep { start_hz, end_hz, seconds, amplitude, repeat } => {
                if self.position >= self.plan(w).total && !repeat {
                    GeneratorModel { finished: true, ..self }
                } else {
                    GeneratorModel {
                        position: (self.sweep_position(w) + 1) as u64,
                        ..self
                    }
                }
            },
        }
    }

    /// The generator once `n` samples have been taken.
    pub open spec fn advanced<C: Fn(Calc) -> F32, W: Fn(Wide) -> F64>(
        self,
        m: Arith<C>,
        w: WideArith<W>,
        n: nat,
    ) -> GeneratorModel
        decreases n,
    {
        if n == 0 {
            self
        } else {
            self.advanced(m, w, (n - 1) as nat).stepped(m, w)
        }
    }

    /// The next `n` samples.
    pub open spec fn generated<C: Fn(Calc) -> F32, W: Fn(Wide) -> F64>(
        self,
        m: Arith<C>,
        w: WideArith<W>,
        n: nat,
    ) -> Seq<F32> {
        Seq::new(n, |i: int| self.advanced(m, w, i as nat).sample(m, w))
    }

    /// Phase, sweep and filter back at the start. The random numbers go on.
    pub open spec fn rewound(self) -> GeneratorModel {
        GeneratorModel {
            phase: wide(0),
            position: 0,
            finished: false,
            pink: PinkFilter::cleared(),
            ..self
        }
    }

    /// Back at the start.
    pub open spec fn restarted(self) -> GeneratorModel {
        GeneratorModel { random: self.seed, ..self.rewound() }
    }
}

/// Generates a stimulus into a buffer.
#[derive(Debug)]
pub struct Generator {
    sample_rate: F64,
    signal: Signal,
    phase: F64,
    position: u64,
    rng: Rng,
    /// The random numbers as they were at the start.
    first: Rng,
    pink: PinkFilter,
    finished: bool,
}

impl View for Generator {
    type V = GeneratorModel;

    closed spec fn view(&self) -> GeneratorModel {
        GeneratorModel {
            sample_rate: self.sample_rate,
            signal: self.signal,
            phase: self.phase,
            position: self.position,
            random: self.rng@,
            seed: self.first@,
            pink: self.pink,
            finished: self.finished,
        }
    }
}

impl Clone for Generator {
    fn clone(&self) -> (generator: Generator)
        ensures
            generator@ == self@,
    {
        Generator {
            sample_rate: self.sample_rate,
            signal: self.signal,
            phase: self.phase,
            position: self.position,
            rng: self.rng.clone(),
            first: self.first.clone(),
            pink: self.pink,
            finished: self.finished,
        }
    }
}

impl Generator {
    /// Build a generator. The seed makes noise reproducible.
    pub fn new<W: Fn(Wide) -> F64>(
        w: &WideArith<W>,
        sample_rate: F32,
        signal: Signal,
        seed: u64,
    ) -> (generator: Generator)
        requires
            num(ZERO).less(sample_rate),
        ensures
            generator@ == (GeneratorModel {
                sample_rate: w.widen(sample_rate),
                signal,
                phase: wide(0),
                position: 0,
                random: first_state(seed),
                seed: first_state(seed),
                pink: PinkFilter::cleared(),
                finished: false,
            }),
    {
        Generator {
            sample_rate: w.widen(sample_rate),
            signal,
            phase: wide(0),
            position: 0,
            rng: Rng::new(seed),
            first: Rng::new(seed),
            pink: PinkFilter::cleared(),
            finished: false,
        }
    }

    /// Change what is generated, resetting phase and filter state. Noise goes on from
    /// where it is.
    pub fn set_signal(&mut self, signal: Signal)
        ensures
            final(self)@ == (GeneratorModel { signal, ..old(self)@ }).rewound(),
    {
        self.signal = signal;
        self.rewind();
    }

    fn rewind(&mut self)
        ensures
            final(self)@ == old(self)@.rewound(),
    {
        self.phase = wide(0);
        self.position = 0;
        self.finished = false;
        self.pink = PinkFilter::cleared();
    }

    /// The signal in force.
    pub fn signal(&self) -> (signal: Signal)
        ensures
            signal == self@.signal,
    {
        self.signal
    }

    /// Return to the start. Noise too is then what it was.
    pub fn reset(&mut self)
        ensures
            final(self)@ == old(self)@.restarted(),
    {
        self.rewind();
        self.rng = self.first.clone();
    }

    /// Whether a non-repeating sweep has run to its end.
    pub fn is_finished(&self) -> (finished: bool)
        ensures
            finished == self@.finished,
    {
        self.finished
    }

    /// Fill `out` with the next samples, overwriting whatever was there.
    pub fn fill<C: Fn(Calc) -> F32, W: Fn(Wide) -> F64>(
        &mut self,
        m: &Arith<C>,
        w: &WideArith<W>,
        out: &mut [F32],
    )
        ensures
            final(out)@ == old(self)@.generated(*m, *w, old(out)@.len()),
            final(self)@ == old(self)@.advanced(*m, *w, old(out)@.len()),
    {
        match self.signal {
            Signal::Silence => self.fill_silence(m, w, out),
            Signal::Sine { hz, amplitude } => self.fill_sine(m, w, out, hz, amplitude),
            Signal::WhiteNoise { amplitude } => self.fill_white(m, w, out, amplitude),
            Signal::PinkNoise { amplitude } => self.fill_pink(m, w, out, amplitude),
            Signal::Sweep { start_hz, end_hz, seconds, amplitude, repeat } => self.fill_sweep(
                m,
                w,
                out,
                start_hz,
                end_hz,
                seconds,
                amplitude,
                repeat,
            ),
        }
    }

    fn fill_silence<C: Fn(Calc) -> F32, W: Fn(Wide) -> F64>(
        &mut self,
        m: &Arith<C>,
        w: &WideArith<W>,
        out: &mut [F32],
    )
        requires
            old(self)@.signal == Signal::Silence,
        ensures
            final(out)@ == old(self)@.generated(*m, *w, old(out)@.len()),
            final(self)@ == old(self)@.advanced(*m, *w, old(out)@.len()),
    {
        let n: usize = out.len();
        let mut i: usize = 0;
        while i < n
            invariant
                i <= n,
                n == out@.len(),
                self@.signal == Signal::Silence,
                self@ == old(self)@.advanced(*m, *w, i as nat),
                forall|k: int|
                    0 <= k < i ==> #[trigger] out@[k] == old(self)@.advanced(*m, *w, k as nat).sample(
                        *m,
                        *w,
                    ),
            decreases n - i,
        {
            out[i] = num(ZERO);
            i = i + 1;
        }
        assert(out@ =~= old(self)@.generated(*m, *w, n as nat));
    }

    fn fill_sine<C: Fn(Calc) -> F32, W: Fn(Wide) -> F64>(
        &mut self,
        m: &Arith<C>,
        w: &WideArith<W>,
        out: &mut [F32],
        hz: F32,
        amplitude: F32,
    )
        requires
            old(self)@.signal == (Signal::Sine { hz, amplitude }),
        ensures
            final(out)@ == old(self)@.generated(*m, *w, old(out)@.len()),
            final(self)@ == old(self)@.advanced(*m, *w, old(out)@.len()),
    {
        let gain = gain_of(amplitude);
        let increment = w.over(w.times(wide(WIDE_TAU), w.widen(hz)), self.sample_rate);
        let n: usize = out.len();
        let mut i: usize = 0;
        while i < n
            invariant
                i <= n,
                n == out@.len(),
                gain == gain_of(amplitude),
                increment == w.over(w.times(wide(WIDE_TAU), w.widen(hz)), self.sample_rate),
                self@.signal == (Signal::Sine { hz, amplitude }),
                self@ == old(self)@.advanced(*m, *w, i as nat),
                forall|k: int|
                    0 <= k < i ==> #[trigger] out@[k] == old(self)@.advanced(*m, *w, k as nat).sample(
                        *m,
                        *w,
                    ),
            decreases n - i,
        {
            out[i] = m.times(m.narrow(w.sine(self.phase)), gain);
            self.phase = phase_after(w, self.phase, increment);
            i = i + 1;
        }
        assert(out@ =~= old(self)@.generated(*m, *w, n as nat));
    }

    fn fill_white<C: Fn(Calc) -> F32, W: Fn(Wide) -> F64>(
        &mut self,
        m: &Arith<C>,
        w: &WideArith<W>,
        out: &mut [F32],
        amplitude: F32,
    )
        requires
            old(self)@.signal == (Signal::WhiteNoise { amplitude }),
        ensures
            final(out)@ == old(self)@.generated(*m, *w, old(out)@.len()),
            final(self)@ == old(self)@.advanced(*m, *w, old(out)@.len()),
    {
        let gain = gain_of(amplitude);
        let n: usize = out.len();
        let mut i: usize = 0;
        while i < n
            invariant
                i <= n,
                n == out@.len(),
                gain == gain_of(amplitude),
                self@.signal == (Signal::WhiteNoise { amplitude }),
                self@ == old(self)@.advanced(*m, *w, i as nat),
                forall|k: int|
                    0 <= k < i ==> #[trigger] out@[k] == old(self)@.advanced(*m, *w, k as nat).sample(
                        *m,
                        *w,
                    ),
            decreases n - i,
        {
            out[i] = m.times(self.rng.next_sample(m), gain);
            i = i + 1;
        }
        assert(out@ =~= old(self)@.generated(*m, *w, n as nat));
    }

    fn fill_pink<C: Fn(Calc) -> F32, W: Fn(Wide) -> F64>(
        &mut self,
        m: &Arith<C>,
        w: &WideArith<W>,
        out: &mut [F32],
        amplitude: F32,
    )
        requires
            old(self)@.signal == (Signal::PinkNoise { amplitude }),
        ensures
            final(out)@ == old(self)@.generated(*m, *w, old(out)@.len()),
            final(self)@ == old(self)@.advanced(*m, *w, old(out)@.len()),
    {
        let gain = gain_of(amplitude);
        let n: usize = out.len();
        let mut i: usize = 0;
        while i < n
            invariant
                i <= n,
                n == out@.len(),
                gain == gain_of(amplitude),
                self@.signal == (Signal::PinkNoise { amplitude }),
                self@ == old(self)@.advanced(*m, *w, i as nat),
                forall|k: int|
                    0 <= k < i ==> #[trigger] out@[k] == old(self)@.advanced(*m, *w, k as nat).sample(
                        *m,
                        *w,
                    ),
            decreases n - i,
        {
            let white = self.rng.next_sample(m);
            // The filter's peak is statistical, not bounded, and a rare overshoot must
            // not clip the converter.
            out[i] = m.times(self.pink.output(m, white), gain).clamp(num(MINUS_ONE), num(ONE));
            self.pink = self.pink.advanced(m, white);
            i = i + 1;
        }
        assert(out@ =~= old(self)@.generated(*m, *w, n as nat));
    }

    fn fill_sweep<C: Fn(Calc) -> F32, W: Fn(Wide) -> F64>(
        &mut self,
        m: &Arith<C>,
        w: &WideArith<W>,
        out: &mut [F32],
        start_hz: F32,
        end_hz: F32,
        seconds: F32,
        amplitude: F32,
        repeat: bool,
    )
        requires
            old(self)@.signal == (Signal::Sweep { start_hz, end_hz, seconds, amplitude, repeat }),
        ensures
            final(out)@ == old(self)@.generated(*m, *w, old(out)@.len()),
            final(self)@ == old(self)@.advanced(*m, *w, old(out)@.len()),
    {
        let gain = gain_of(amplitude);
        let start = w.widen(start_hz).max(wide(LEAST));
        let end = w.widen(end_hz).max(w.plus(start, wide(LEAST)));
        let duration = w.widen(seconds).max(wide(LEAST));
        let total: u64 = w.times(duration, self.sample_rate).floor_to_u64();
        let ratio = w.ln(w.over(end, start));
        let ghost plan = sweep_plan(*w, self.sample_rate, start_hz, end_hz, seconds);
        let n: usize = out.len();
        let mut i: usize = 0;
        while i < n
            invariant
                i <= n,
                n == out@.len(),
                gain == gain_of(amplitude),
                plan == sweep_plan(*w, self.sample_rate, start_hz, end_hz, seconds),
                plan.start == start,
                plan.duration == duration,
                plan.ratio == ratio,
                plan.total == total,
                self@.signal == (Signal::Sweep { start_hz, end_hz, seconds, amplitude, repeat }),
                self@ == old(self)@.advanced(*m, *w, i as nat),
                forall|k: int|
                    0 <= k < i ==> #[trigger] out@[k] == old(self)@.advanced(*m, *w, k as nat).sample(
                        *m,
                        *w,
                    ),
            decreases n - i,
        {
            assert(self@.plan(*w) == plan);
            if self.position >= total && !repeat {
                self.finished = true;
                out[i] = num(ZERO);
            } else {
                let position: u64 = if self.position >= total {
                    0
                } else {
                    self.position
                };
                let phase = sweep_phase(w, self.sample_rate, start, duration, ratio, position);
                out[i] = m.times(m.narrow(w.sine(phase)), gain);
                self.position = position + 1;
            }
            i = i + 1;
        }
        assert(out@ =~= old(self)@.generated(*m, *w, n as nat));
    }
}

/// Samples taken in two blocks are the samples taken in one.
pub proof fn lemma_generate_in_blocks<C: Fn(Calc) -> F32, W: Fn(Wide) -> F64>(
    model: GeneratorModel,
    m: Arith<C>,
    w: WideArith<W>,
    first: nat,
    second: nat,
)
    ensures
        model.advanced(m, w, first + second) == model.advanced(m, w, first).advanced(m, w, second),
        model.generated(m, w, first + second) == model.generated(m, w, first) + model.advanced(
            m,
            w,
            first,
        ).generated(m, w, second),
    decreases second,
{
    let middle = model.advanced(m, w, first);
    let whole = model.generated(m, w, first + second);
    if second > 0 {
        let less = (second - 1) as nat;
        lemma_generate_in_blocks(model, m, w, first, less);
        assert(whole =~= model.generated(m, w, first + less).push(
            model.advanced(m, w, first + less).sample(m, w),
        ));
        assert(middle.generated(m, w, second) =~= middle.generated(m, w, less).push(
            middle.advanced(m, w, less).sample(m, w),
        ));
    }
    assert(whole =~= model.generated(m, w, first) + middle.generated(m, w, second));
}

/// A sweep that does not repeat stays silent, and finished, once it has run to its
/// end.
pub proof fn lemma_finished_sweep_is_silent<C: Fn(Calc) -> F32, W: Fn(Wide) -> F64>(
    model: GeneratorModel,
    m: Arith<C>,
    w: WideArith<W>,
    n: nat,
)
    requires
        model.signal matches Signal::Sweep { repeat, .. } && !repeat,
        model.position >= model.plan(w).total,
    ensures
        model.advanced(m, w, n).sample(m, w) == num(ZERO),
        n > 0 ==> model.advanced(m, w, n).finished,
        model.advanced(m, w, n) == (GeneratorModel {
            finished: model.advanced(m, w, n).finished,
            ..model
        }),
    decreases n,
{
    if n > 0 {
        lemma_finished_sweep_is_silent(model, m, w, (n - 1) as nat);
    }
}

/// A generator that is reset generates again what it generated from its start,
/// whatever the signal.
pub proof fn lemma_reset_returns_to_the_start<C: Fn(Calc) -> F32, W: Fn(Wide) -> F64>(
    start: GeneratorModel,
    m: Arith<C>,
    w: WideArith<W>,
    n: nat,
)
    requires
        start == start.restarted(),
    ensures
        start.advanced(m, w, n).restarted() == start,
        !start.finished,
    decreases n,
{
    if n > 0 {
        lemma_reset_returns_to_the_start(start, m, w, (n - 1) as nat);
    }
}

/// A sine is the sine of a phase that goes on by the same increment every sample, less a
/// turn wherever it would reach one, times the amplitude.
pub proof fn lemma_sine_samples<C: Fn(Calc) -> F32, W: Fn(Wide) -> F64>(
    model: GeneratorModel,
    m: Arith<C>,
    w: WideArith<W>,
    hz: F32,
    amplitude: F32,
    n: nat,
) -> (phases: Seq<F64>)
    requires
        model.signal == (Signal::Sine { hz, amplitude }),
    ensures
        phases.len() == n + 1,
        phases[0] == model.phase,
        forall|i: int|
            0 <= i < n ==> {
                let next = w.plus(
                    #[trigger] phases[i],
                    w.over(w.times(wide(WIDE_TAU), w.widen(hz)), model.sample_rate),
                );
                phases[i + 1] == if wide(WIDE_TAU).at_most(next) {
                    w.minus(next, wide(WIDE_TAU))
                } else {
                    next
                }
            },
        forall|i: int|
            0 <= i < n ==> #[trigger] model.generated(m, w, n)[i] == m.times(
                m.narrow(w.sine(phases[i])),
                amplitude.spec_clamp(num(ZERO), num(ONE)),
            ),
{
    let phases = Seq::new(n + 1, |i: int| model.advanced(m, w, i as nat).phase);
    assert forall|i: int| 0 <= i <= n implies #[trigger] model.advanced(m, w, i as nat)
        == (GeneratorModel { phase: phases[i], ..model }) by {
        lemma_sine_keeps_all_but_phase(model, m, w, i as nat);
    }
    assert forall|i: int| 0 <= i < n implies {
        let next = w.plus(
            #[trigger] phases[i],
            w.over(w.times(wide(WIDE_TAU), w.widen(hz)), model.sample_rate),
        );
        phases[i + 1] == if wide(WIDE_TAU).at_most(next) {
            w.minus(next, wide(WIDE_TAU))
        } else {
            next
        }
    } by {
        let here = model.advanced(m, w, i as nat);
        let there = model.advanced(m, w, (i + 1) as nat);
        assert(there == here.stepped(m, w));
        assert(phases[i] == here.phase);
        assert(phases[i + 1] == there.phase);
    }
    phases
}

proof fn lemma_sine_keeps_all_but_phase<C: Fn(Calc) -> F32, W: Fn(Wide) -> F64>(
    model: GeneratorModel,
    m: Arith<C>,
    w: WideArith<W>,
    n: nat,
)
    requires
        model.signal is Sine,
    ensures
        model.advanced(m, w, n) == (GeneratorModel {
            phase: model.advanced(m, w, n).phase,
            ..model
        }),
    decreases n,
{
    if n > 0 {
        lemma_sine_keeps_all_but_phase(model, m, w, (n - 1) as nat);
    }
}

/// A sweep from its start: sample by sample the sine of a phase that grows with the
/// exponential of the time, so that the frequency goes from the first to the last by
/// equal ratios. One that repeats starts again at its end; one that does not is silent
/// from there on.
pub proof fn lemma_sweep_samples<C: Fn(Calc) -> F32, W: Fn(Wide) -> F64>(
    model: GeneratorModel,
    m: Arith<C>,
    w: WideArith<W>,
    start_hz: F32,
    end_hz: F32,
    seconds: F32,
    amplitude: F32,
    repeat: bool,
    n: nat,
    i: int,
)
    requires
        model.signal == (Signal::Sweep { start_hz, end_hz, seconds, amplitude, repeat }),
        model.position == 0,
        0 <= i < n <= u64::MAX,
        model.plan(w).total > 0,
    ensures
        ({
            let start = w.widen(start_hz).spec_max(wide(LEAST));
            let end = w.widen(end_hz).spec_max(w.plus(start, wide(LEAST)));
            let duration = w.widen(seconds).spec_max(wide(LEAST));
            let total = ieee::saturated(
                w.times(duration, model.sample_rate).floor_int(),
                u64::MAX as int,
            );
            let ratio = w.ln(w.over(end, start));
            let time = w.over(w.count((i % total) as u64), model.sample_rate);
            let phase = w.times(
                w.over(w.times(w.times(wide(WIDE_TAU), start), duration), ratio),
                w.minus(w.exp(w.times(w.over(time, duration), ratio)), wide(WIDE_ONE)),
            );
            let sample = model.generated(m, w, n)[i];
            &&& i < total || repeat ==> sample == m.times(
                m.narrow(w.sine(phase)),
                amplitude.spec_clamp(num(ZERO), num(ONE)),
            )
            &&& i >= total && !repeat ==> sample == num(ZERO)
        }),
{
    let total = model.plan(w).total as int;
    lemma_sweep_position(model, m, w, repeat, i as nat);
    ieee::lemma_wide_floor_not_negative(
        w.times(w.widen(seconds).spec_max(wide(LEAST)), model.sample_rate),
    );
    let here = model.advanced(m, w, i as nat);
    if i < total {
        vstd::arithmetic::div_mod::lemma_small_mod(i as nat, total as nat);
    }
    assert(here.plan(w) == model.plan(w));
}

/// Where a sweep stands once `i` samples have been taken from its start.
proof fn lemma_sweep_position<C: Fn(Calc) -> F32, W: Fn(Wide) -> F64>(
    model: GeneratorModel,
    m: Arith<C>,
    w: WideArith<W>,
    again: bool,
    i: nat,
)
    requires
        model.signal matches Signal::Sweep { repeat, .. } && repeat == again,
        model.position == 0,
        i < u64::MAX,
        model.plan(w).total > 0,
    ensures
        ({
            let total = model.plan(w).total as int;
            let here = model.advanced(m, w, i);
            &&& here.signal == model.signal
            &&& here.sample_rate == model.sample_rate
            &&& i < total || again ==> here.sweep_position(w) == i as int % total
            &&& !again ==> here.position == if i < total {
                i as int
            } else {
                total
            }
            &&& again ==> here.position <= total
        }),
    decreases i,
{
    let total = model.plan(w).total as int;
    if i == 0 {
        vstd::arithmetic::div_mod::lemma_small_mod(0, total as nat);
    } else {
        let before = model.advanced(m, w, (i - 1) as nat);
        lemma_sweep_position(model, m, w, again, (i - 1) as nat);
        assert(before.plan(w) == model.plan(w));
        let here = model.advanced(m, w, i);
        assert(here == before.stepped(m, w));
        assert(here.plan(w) == model.plan(w));
        if i - 1 < total || again {
            let at = before.sweep_position(w) as int;
            assert(here.position == at + 1);
            vstd::arithmetic::div_mod::lemma_mod_division_less_than_divisor(i - 1, total);
            lemma_next_remainder(i - 1, total);
            if !again {
                vstd::arithmetic::div_mod::lemma_small_mod((i - 1) as nat, total as nat);
            }
        }
    }
}

proof fn lemma_next_remainder(a: int, d: int)
    requires
        0 <= a,
        0 < d,
    ensures
        (a + 1) % d == if a % d + 1 == d {
            0
        } else {
            a % d + 1
        },
{
    let (q, r) = (a / d, a % d);
    vstd::arithmetic::div_mod::lemma_fundamental_div_mod(a, d);
    vstd::arithmetic::div_mod::lemma_mod_division_less_than_divisor(a, d);
    if r + 1 == d {
        assert(a + 1 == (q + 1) * d) by (nonlinear_arith)
            requires
                a == d * q + r,
                r + 1 == d,
        ;
        vstd::arithmetic::div_mod::lemma_mod_multiples_basic(q + 1, d);
    } else {
        assert(a + 1 == q * d + (r + 1)) by (nonlinear_arith)
            requires
                a == d * q + r,
        ;
        vstd::arithmetic::div_mod::lemma_fundamental_div_mod_converse(a + 1, d, q, r + 1);
    }
}

/// White noise is drawn from one state after the other: each sample comes from the state
/// after its own, in steps of one part in half the range and centred on zero.
pub proof fn lemma_white_samples<C: Fn(Calc) -> F32, W: Fn(Wide) -> F64>(
    model: GeneratorModel,
    m: Arith<C>,
    w: WideArith<W>,
    amplitude: F32,
    n: nat,
) -> (states: Seq<u64>)
    requires
        model.signal == (Signal::WhiteNoise { amplitude }),
    ensures
        states.len() == n + 1,
        states[0] == model.random,
        forall|i: int|
            0 <= i < n ==> {
                let x = #[trigger] states[i];
                let a = x ^ (x >> 12);
                let b = a ^ (a << 25);
                states[i + 1] == b ^ (b >> 27)
            },
        forall|i: int|
            0 <= i < n ==> #[trigger] model.generated(m, w, n)[i] == m.times(
                m.minus(
                    m.over(
                        m.of(
                            Calc::Count(states[i + 1].wrapping_mul(0x2545_F491_4F6C_DD1D) >> 40),
                        ),
                        num(HALF_RANGE),
                    ),
                    num(ONE),
                ),
                amplitude.spec_clamp(num(ZERO), num(ONE)),
            ),
{
    let states = Seq::new(n + 1, |i: int| model.advanced(m, w, i as nat).random);
    assert forall|i: int| 0 <= i < n implies {
        let x = #[trigger] states[i];
        let a = x ^ (x >> 12);
        let b = a ^ (a << 25);
        states[i + 1] == b ^ (b >> 27)
    } by {
        let here = model.advanced(m, w, i as nat);
        let there = model.advanced(m, w, (i + 1) as nat);
        lemma_noise_keeps_signal(model, m, w, i as nat);
        assert(there == here.stepped(m, w));
        assert(states[i + 1] == there.random);
    }
    assert forall|i: int| 0 <= i < n implies #[trigger] model.generated(m, w, n)[i] == m.times(
        m.minus(
            m.over(
                m.of(Calc::Count(states[i + 1].wrapping_mul(0x2545_F491_4F6C_DD1D) >> 40)),
                num(HALF_RANGE),
            ),
            num(ONE),
        ),
        amplitude.spec_clamp(num(ZERO), num(ONE)),
    ) by {
        let here = model.advanced(m, w, i as nat);
        let there = model.advanced(m, w, (i + 1) as nat);
        lemma_noise_keeps_signal(model, m, w, i as nat);
        assert(there == here.stepped(m, w));
        assert(states[i + 1] == there.random);
    }
    states
}

proof fn lemma_noise_keeps_signal<C: Fn(Calc) -> F32, W: Fn(Wide) -> F64>(
    model: GeneratorModel,
    m: Arith<C>,
    w: WideArith<W>,
    n: nat,
)
    requires
        model.signal is WhiteNoise || model.signal is PinkNoise,
    ensures
        model.advanced(m, w, n).signal == model.signal,
    decreases n,
{
    if n > 0 {
        lemma_noise_keeps_signal(model, m, w, (n - 1) as nat);
    }
}

/// Pink noise is white noise, drawn from the same states, through the filter: the sum of
/// five slow sections and one of the other sign, what the last section took of the sample
/// before, and a share of the sample itself.
pub proof fn lemma_pink_sample<C: Fn(Calc) -> F32, W: Fn(Wide) -> F64>(
    model: GeneratorModel,
    m: Arith<C>,
    w: WideArith<W>,
    amplitude: F32,
)
    requires
        model.signal == (Signal::PinkNoise { amplitude }),
    ensures
        ({
            let white = noise(m, next_state(model.random));
            let (old, new) = (model.pink, model.stepped(m, w).pink);
            let kept = |keep: u32, b: F32, take: u32|
                m.plus(m.times(num(keep), b), m.times(white, num(take)));
            let sections = m.plus(
                m.plus(m.plus(m.plus(m.plus(new.b0, new.b1), new.b2), new.b3), new.b4),
                new.b5,
            );
            let all = m.plus(m.plus(sections, old.b6), m.times(white, num(0x3F09_4467)));
            &&& new.b0 == kept(0x3F7F_B54A, old.b0, 0x3D63_66BD)
            &&& new.b1 == kept(0x3F7E_4A38, old.b1, 0x3D99_C165)
            &&& new.b2 == kept(0x3F78_1062, old.b2, 0x3E1D_8B61)
            &&& new.b3 == kept(0x3F5D_D2F2, old.b3, 0x3E9E_F7F8)
            &&& new.b4 == kept(0x3F0C_CCCD, old.b4, 0x3F08_6F8E)
            &&& new.b5 == m.minus(
                m.times(num(0xBF42_F838), old.b5),
                m.times(white, num(0x3C8A_6DAD)),
            )
            &&& new.b6 == m.times(white, num(0x3DED_6A9C))
            &&& model.stepped(m, w).random == next_state(model.random)
            &&& model.sample(m, w) == m.times(
                m.times(all, num(0x3E00_0000)),
                amplitude.spec_clamp(num(ZERO), num(ONE)),
            ).spec_clamp(num(MINUS_ONE), num(ONE))
        }),
{
}

/// Every seed gives a state that is alive: its own, but for zero.
pub proof fn lemma_seeds_are_alive(seed: u64)
    ensures
        first_state(seed) != 0,
        seed != 0 ==> first_state(seed) == seed,
{
}

} // verus!
