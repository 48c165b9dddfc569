//! Broadband level metering: peak, RMS and LEQ.
//!
//! A time-domain meter forms no spectrum, so its weighting is a cascade of filters
//! and not a correction per bin. The reference for 0 dBFS is a full-scale sine,
//! whose RMS is the square root of one half, so that meter and spectrum agree about
//! the same signal.

use vstd::prelude::*;

use crate::arith::{Arith, Calc, Wide, WideArith};
use crate::dsp::biquad::Biquad;
use crate::dsp::window::WindowKind;
use crate::ieee::{F32, F64};
use crate::numbers::{num, wide, MINUS_ONE, ONE, SMALLEST_NORMAL, TWENTY, ZERO};

verus! {

/// RMS of a full-scale sine, the reference for 0 dBFS.
pub const FULL_SCALE_RMS: u32 = 0x3F35_04F3;

/// Floor for a silent input.
pub const METER_FLOOR_DB: u32 = 0xC348_0000;

/// The frequency at which every weighting is unity.
pub const UNITY_HZ: u32 = 0x447A_0000;

/// Pole frequencies of the weighting curves of IEC 61672-1, in radians per second:
/// those at about 20.6 Hz, 107.7 Hz, 737.9 Hz and 12194 Hz.
pub const W1: u32 = 0x4301_6D65;

pub const W2: u32 = 0x4429_19B3;

pub const W3: u32 = 0x4590_E101;

pub const W4: u32 = 0x4795_A543;

/// Time constants in seconds: an eighth, 35 ms, one and a half, and the shortest.
pub const FAST_SECONDS: u32 = 0x3E00_0000;

pub const IMPULSE_ATTACK_SECONDS: u32 = 0x3D0F_5C29;

pub const IMPULSE_DECAY_SECONDS: u32 = 0x3FC0_0000;

pub const LEAST_SECONDS: u32 = 0x38D1_B717;

/// Weighting applied before measuring.
#[derive(Debug, Clone, Copy, PartialEq, Eq, Structural)]
pub enum MeterWeighting {
    /// Unweighted.
    Z,
    /// A-weighting.
    A,
    /// C-weighting.
    C,
}

impl Default for MeterWeighting {
    fn default() -> (weighting: MeterWeighting)
        ensures
            weighting == MeterWeighting::Z,
    {
        MeterWeighting::Z
    }
}

/// How fast the RMS detector responds.
#[derive(Debug, Clone, Copy, PartialEq, Eq, Structural)]
pub enum Integration {
    /// An eighth of a second. The usual choice for live work.
    Fast,
    /// One second. Steadier, for noise levels.
    Slow,
    /// Catches transients quickly and releases slowly, so a brief peak stays
    /// readable.
    Impulse,
    /// An arbitrary symmetric time constant.
    Custom {
        /// Time constant in seconds.
        seconds: F32,
    },
}

impl Default for Integration {
    fn default() -> (integration: Integration)
        ensures
            integration == Integration::Fast,
    {
        Integration::Fast
    }
}

impl Integration {
    /// Attack and decay time constants in seconds.
    #[verifier::allow_in_spec]
    pub fn constants(self) -> (F32, F32)
        returns
            (match self {
                Integration::Fast => (num(FAST_SECONDS), num(FAST_SECONDS)),
                Integration::Slow => (num(ONE), num(ONE)),
                Integration::Impulse => (
                    num(IMPULSE_ATTACK_SECONDS),
                    num(IMPULSE_DECAY_SECONDS),
                ),
                Integration::Custom { seconds } => (
                    seconds.max(num(LEAST_SECONDS)),
                    seconds.max(num(LEAST_SECONDS)),
                ),
            }),
    {
        match self {
            Integration::Fast => (num(FAST_SECONDS), num(FAST_SECONDS)),
            Integration::Slow => (num(ONE), num(ONE)),
            Integration::Impulse => (num(IMPULSE_ATTACK_SECONDS), num(IMPULSE_DECAY_SECONDS)),
            Integration::Custom { seconds } => {
                let clamped = seconds.max(num(LEAST_SECONDS));
                (clamped, clamped)
            },
        }
    }
}

/// One-pole coefficient for a given time constant.
#[verifier::allow_in_spec]
pub fn coefficient<C: Fn(Calc) -> F32>(m: &Arith<C>, seconds: F32, sample_rate: F32) -> F32
    returns
        (if seconds.le(num(ZERO)) {
            num(ONE)
        } else {
            m.minus(
                num(ONE),
                m.exp(m.over(num(MINUS_ONE), m.times(seconds, sample_rate))),
            ).clamp(num(SMALLEST_NORMAL), num(ONE))
        }),
{
    if seconds.le(num(ZERO)) {
        return num(ONE);
    }
    m.minus(num(ONE), m.exp(m.over(num(MINUS_ONE), m.times(seconds, sample_rate)))).clamp(
        num(SMALLEST_NORMAL),
        num(ONE),
    )
}

/// RMS to dBFS, referenced to a full-scale sine.
#[verifier::allow_in_spec]
pub fn to_db<C: Fn(Calc) -> F32>(m: &Arith<C>, rms: F32) -> F32
    returns
        (if num(ZERO).lt(rms) {
            m.times(num(TWENTY), m.log10(m.over(rms, num(FULL_SCALE_RMS)))).max(
                num(METER_FLOOR_DB),
            )
        } else {
            num(METER_FLOOR_DB)
        }),
{
    if num(ZERO).lt(rms) {
        m.times(num(TWENTY), m.log10(m.over(rms, num(FULL_SCALE_RMS)))).max(num(METER_FLOOR_DB))
    } else {
        num(METER_FLOOR_DB)
    }
}

/// The sections of a weighting.
///
/// C has two zeros at DC and four poles, so its upper pair is a lowpass. A has four
/// zeros at DC, so both outer pairs are highpasses, with a pair between them that
/// pulls the midrange down.
pub open spec fn weighting_sections<C: Fn(Calc) -> F32>(
    m: &Arith<C>,
    weighting: MeterWeighting,
    sample_rate: F32,
) -> Seq<Biquad> {
    match weighting {
        MeterWeighting::Z => Seq::empty(),
        MeterWeighting::C => seq![
            Biquad::double_pole_highpass(m, num(W1), sample_rate),
            Biquad::two_pole_lowpass(m, num(W4), num(W4), sample_rate),
        ],
        MeterWeighting::A => seq![
            Biquad::double_pole_highpass(m, num(W1), sample_rate),
            Biquad::double_pole_highpass(m, num(W4), sample_rate),
            Biquad::two_pole_lowpass(m, num(W2), num(W3), sample_rate),
        ],
    }
}

/// The magnitude of the first `n` sections together at the frequency of unity.
pub open spec fn unity_response<C: Fn(Calc) -> F32>(
    m: Arith<C>,
    sections: Seq<Biquad>,
    sample_rate: F32,
    n: nat,
) -> F32
    decreases n,
{
    if n == 0 {
        num(ONE)
    } else {
        m.times(
            unity_response(m, sections, sample_rate, (n - 1) as nat),
            m.norm(sections[n - 1].spec_response_at(m, num(UNITY_HZ), sample_rate)),
        )
    }
}

/// What a sample becomes, and the sections with it, after the first sections of a
/// chain.
#[verifier::ext_equal]
pub struct Chain {
    pub sections: Seq<Biquad>,
    pub sample: F32,
}

/// A sample run through the first `n` sections.
pub open spec fn chained<C: Fn(Calc) -> F32>(
    m: Arith<C>,
    sections: Seq<Biquad>,
    sample: F32,
    n: nat,
) -> Chain
    decreases n,
{
    if n == 0 {
        Chain { sections, sample }
    } else {
        let before = chained(m, sections, sample, (n - 1) as nat);
        Chain {
            sections: before.sections.update(
                n - 1,
                sections[n - 1].advanced(m, before.sample),
            ),
            sample: sections[n - 1].output(m, before.sample),
        }
    }
}

/// A weighting as a cascade of sections and a gain that makes it unity at 1 kHz.
#[verifier::ext_equal]
pub struct FilterModel {
    pub sections: Seq<Biquad>,
    pub gain: F32,
}

impl FilterModel {
    /// The filter of a weighting.
    pub open spec fn of<C: Fn(Calc) -> F32>(
        m: Arith<C>,
        weighting: MeterWeighting,
        sample_rate: F32,
    ) -> FilterModel {
        let sections = weighting_sections(&m, weighting, sample_rate);
        let response = unity_response(m, sections, sample_rate, sections.len());
        FilterModel {
            sections,
            gain: if num(ZERO).lt(response) {
                m.over(num(ONE), response)
            } else {
                num(ONE)
            },
        }
    }

    /// The weighted sample.
    pub open spec fn output<C: Fn(Calc) -> F32>(self, m: Arith<C>, sample: F32) -> F32 {
        m.times(chained(m, self.sections, sample, self.sections.len()).sample, self.gain)
    }

    /// The filter once a sample has gone in.
    pub open spec fn advanced<C: Fn(Calc) -> F32>(self, m: Arith<C>, sample: F32) -> FilterModel {
        FilterModel {
            sections: chained(m, self.sections, sample, self.sections.len()).sections,
            ..self
        }
    }

    /// The filter with nothing remembered.
    pub open spec fn cleared(self) -> FilterModel {
        FilterModel {
            sections: Seq::new(
                self.sections.len(),
                |i: int| Biquad { s1: num(ZERO), s2: num(ZERO), ..self.sections[i] },
            ),
            ..self
        }
    }
}

/// A or C weighting as a cascade of sections.
#[derive(Debug, Clone)]
struct WeightingFilter {
    sections: Vec<Biquad>,
    gain: F32,
}

impl WeightingFilter {
    spec fn model(self) -> FilterModel {
        FilterModel { sections: self.sections@, gain: self.gain }
    }

    fn new<C: Fn(Calc) -> F32>(m: &Arith<C>, weighting: MeterWeighting, sample_rate: F32) -> (filter:
        WeightingFilter)
        ensures
            filter.model() == FilterModel::of(*m, weighting, sample_rate),
    {
        let sections = match weighting {
            MeterWeighting::Z => Vec::new(),
            MeterWeighting::C => vec![
                Biquad::double_pole_highpass(m, num(W1), sample_rate),
                Biquad::two_pole_lowpass(m, num(W4), num(W4), sample_rate),
            ],
            MeterWeighting::A => vec![
                Biquad::double_pole_highpass(m, num(W1), sample_rate),
                Biquad::double_pole_highpass(m, num(W4), sample_rate),
                Biquad::two_pole_lowpass(m, num(W2), num(W3), sample_rate),
            ],
        };
        assert(sections@ =~= weighting_sections(m, weighting, sample_rate));
        let mut response = num(ONE);
        let mut i: usize = 0;
        while i < sections.len()
            invariant
                i <= sections@.len(),
                response == unity_response(*m, sections@, sample_rate, i as nat),
            decreases sections@.len() - i,
        {
            let section = sections[i];
            response = m.times(response, section.magnitude_at(m, num(UNITY_HZ), sample_rate));
            i = i + 1;
        }
        let gain = if num(ZERO).lt(response) {
            m.over(num(ONE), response)
        } else {
            num(ONE)
        };
        WeightingFilter { sections, gain }
    }

    fn process<C: Fn(Calc) -> F32>(&mut self, m: &Arith<C>, x: F32) -> (y: F32)
        ensures
            y == old(self).model().output(*m, x),
            final(self).model() == old(self).model().advanced(*m, x),
    {
        let n: usize = self.sections.len();
        let mut sample = x;
        let mut i: usize = 0;
        while i < n
            invariant
                i <= n,
                n == self.sections@.len(),
                n == old(self).sections@.len(),
                self.gain == old(self).gain,
                forall|k: int|
                    i <= k < n ==> #[trigger] self.sections@[k] == old(self).sections@[k],
                (Chain { sections: self.sections@, sample }) == chained(
                    *m,
                    old(self).sections@,
                    x,
                    i as nat,
                ),
            decreases n - i,
        {
            let ghost before = self.sections@;
            let mut section = self.sections[i];
            sample = section.process(m, sample);
            self.sections.set(i, section);
            i = i + 1;
            assert(self.sections@ =~= before.update(i - 1, section));
        }
        m.times(sample, self.gain)
    }

    fn reset(&mut self)
        ensures
            final(self).model() == old(self).model().cleared(),
    {
        let n: usize = self.sections.len();
        let mut i: usize = 0;
        while i < n
            invariant
                i <= n,
                n == self.sections@.len(),
                n == old(self).sections@.len(),
                self.gain == old(self).gain,
                forall|k: int|
                    0 <= k < i ==> #[trigger] self.sections@[k] == (Biquad {
                        s1: num(ZERO),
                        s2: num(ZERO),
                        ..old(self).sections@[k]
                    }),
                forall|k: int|
                    i <= k < n ==> #[trigger] self.sections@[k] == old(self).sections@[k],
            decreases n - i,
        {
            let mut section = self.sections[i];
            section.reset();
            self.sections.set(i, section);
            i = i + 1;
        }
        assert(self.model() =~= old(self).model().cleared());
    }
}

/// What a meter amounts to.
#[verifier::ext_equal]
pub struct MeterModel {
    pub sample_rate: F32,
    pub filter: FilterModel,
    pub weighting: MeterWeighting,
    pub integration: Integration,
    pub attack: F32,
    pub decay: F32,
    pub mean_square: F32,
    pub peak: F32,
    /// In double precision, because LEQ integrates for hours.
    pub energy: F64,
    pub samples: u64,
}

impl MeterModel {
    /// One sample measured.
    pub open spec fn stepped<C: Fn(Calc) -> F32, W: Fn(Wide) -> F64>(
        self,
        m: Arith<C>,
        w: WideArith<W>,
        sample: F32,
    ) -> MeterModel {
        let weighted = self.filter.output(m, sample);
        let square = m.times(weighted, weighted);
        let coefficient = if self.mean_square.lt(square) {
            self.attack
        } else {
            self.decay
        };
        MeterModel {
            filter: self.filter.advanced(m, sample),
            mean_square: m.plus(
                self.mean_square,
                m.times(m.minus(square, self.mean_square), coefficient),
            ),
            peak: if self.peak.lt(weighted.spec_abs()) {
                weighted.spec_abs()
            } else {
                self.peak
            },
            energy: w.plus(self.energy, w.widen(square)),
            ..self
        }
    }

    /// Samples measured one after the other.
    pub open spec fn measured<C: Fn(Calc) -> F32, W: Fn(Wide) -> F64>(
        self,
        m: Arith<C>,
        w: WideArith<W>,
        samples: Seq<F32>,
    ) -> MeterModel
        decreases samples.len(),
    {
        if samples.len() == 0 {
            self
        } else {
            self.measured(m, w, samples.drop_last()).stepped(m, w, samples.last())
        }
    }

    /// Samples measured and counted.
    pub open spec fn pushed<C: Fn(Calc) -> F32, W: Fn(Wide) -> F64>(
        self,
        m: Arith<C>,
        w: WideArith<W>,
        samples: Seq<F32>,
    ) -> MeterModel {
        MeterModel {
            samples: counted(self.samples, samples.len()),
            ..self.measured(m, w, samples)
        }
    }
}

/// A count and `n` more, saturated.
pub open spec fn counted(samples: u64, n: nat) -> u64 {
    if samples + n <= u64::MAX {
        (samples + n) as u64
    } else {
        u64::MAX
    }
}

/// Broadband level meter.
#[derive(Debug, Clone)]
pub struct LevelMeter {
    sample_rate: F32,
    filter: WeightingFilter,
    weighting: MeterWeighting,
    integration: Integration,
    attack: F32,
    decay: F32,
    mean_square: F32,
    peak: F32,
    energy: F64,
    samples: u64,
}

impl View for LevelMeter {
    type V = MeterModel;

    closed spec fn view(&self) -> MeterModel {
        MeterModel {
            sample_rate: self.sample_rate,
            filter: self.filter.model(),
            weighting: self.weighting,
            integration: self.integration,
            attack: self.attack,
            decay: self.decay,
            mean_square: self.mean_square,
            peak: self.peak,
            energy: self.energy,
            samples: self.samples,
        }
    }
}

impl LevelMeter {
    /// Build a meter.
    pub fn new<C: Fn(Calc) -> F32>(
        m: &Arith<C>,
        sample_rate: F32,
        weighting: MeterWeighting,
        integration: Integration,
    ) -> (meter: LevelMeter)
        requires
            num(ZERO).less(sample_rate),
        ensures
            meter@ == (MeterModel {
                sample_rate,
                filter: FilterModel::of(*m, weighting, sample_rate),
                weighting,
                integration,
                attack: coefficient(m, integration.constants().0, sample_rate),
                decay: coefficient(m, integration.constants().1, sample_rate),
                mean_square: num(ZERO),
                peak: num(ZERO),
                energy: wide(0),
                samples: 0,
            }),
    {
        let (attack_seconds, decay_seconds) = integration.constants();
        LevelMeter {
            sample_rate,
            filter: WeightingFilter::new(m, weighting, sample_rate),
            weighting,
            integration,
            attack: coefficient(m, attack_seconds, sample_rate),
            decay: coefficient(m, decay_seconds, sample_rate),
            mean_square: num(ZERO),
            peak: num(ZERO),
            energy: wide(0),
            samples: 0,
        }
    }

    /// Feed samples.
    pub fn push<C: Fn(Calc) -> F32, W: Fn(Wide) -> F64>(
        &mut self,
        m: &Arith<C>,
        w: &WideArith<W>,
        samples: &[F32],
    )
        ensures
            final(self)@ == old(self)@.pushed(*m, *w, samples@),
    {
        let n: usize = samples.len();
        let mut i: usize = 0;
        assert(samples@.take(0) =~= Seq::<F32>::empty());
        while i < n
            invariant
                i <= n,
                n == samples@.len(),
                self@ == old(self)@.measured(*m, *w, samples@.take(i as int)),
            decreases n - i,
        {
            let weighted = self.filter.process(m, samples[i]);
            let square = m.times(weighted, weighted);
            // Asymmetric, so that a detector can rise fast and fall slowly.
            let coefficient = if self.mean_square.lt(square) {
                self.attack
            } else {
                self.decay
            };
            self.mean_square = m.plus(
                self.mean_square,
                m.times(m.minus(square, self.mean_square), coefficient),
            );
            let magnitude = weighted.abs();
            if self.peak.lt(magnitude) {
                self.peak = magnitude;
            }
            self.energy = w.plus(self.energy, w.widen(square));
            i = i + 1;
            assert(samples@.take(i as int).drop_last() =~= samples@.take(i - 1));
        }
        assert(samples@.take(n as int) =~= samples@);
        proof {
            lemma_measuring_keeps_count(old(self)@, *m, *w, samples@);
        }
        self.samples = self.samples.saturating_add(n as u64);
    }

    /// Time-weighted RMS in dBFS.
    pub fn rms_db<C: Fn(Calc) -> F32>(&self, m: &Arith<C>) -> (db: F32)
        ensures
            db == to_db(m, m.root(self@.mean_square)),
    {
        to_db(m, m.root(self.mean_square))
    }

    /// Highest sample magnitude since the last reset, in dBFS.
    ///
    /// A peak is an amplitude, and a full-scale sine peaks at one while reading
    /// 0 dBFS, so no RMS correction applies.
    pub fn peak_db<C: Fn(Calc) -> F32>(&self, m: &Arith<C>) -> (db: F32)
        ensures
            db == if num(ZERO).lt(self@.peak) {
                m.times(num(TWENTY), m.log10(self@.peak))
            } else {
                num(METER_FLOOR_DB)
            },
    {
        if num(ZERO).lt(self.peak) {
            m.times(num(TWENTY), m.log10(self.peak))
        } else {
            num(METER_FLOOR_DB)
        }
    }

    /// Equivalent continuous level: the total energy since reset, expressed as the
    /// steady level that would carry the same energy.
    pub fn leq_db<C: Fn(Calc) -> F32, W: Fn(Wide) -> F64>(&self, m: &Arith<C>, w: &WideArith<W>) -> (db:
        F32)
        ensures
            db == if self@.samples == 0 {
                num(METER_FLOOR_DB)
            } else {
                to_db(m, m.root(m.narrow(w.over(self@.energy, w.count(self@.samples)))))
            },
    {
        if self.samples == 0 {
            return num(METER_FLOOR_DB);
        }
        let mean = w.over(self.energy, w.count(self.samples));
        to_db(m, m.root(m.narrow(mean)))
    }

    /// Seconds of audio integrated since reset.
    pub fn elapsed_seconds<C: Fn(Calc) -> F32>(&self, m: &Arith<C>) -> (seconds: F32)
        ensures
            seconds == m.over(m.of(Calc::Count(self@.samples)), self@.sample_rate),
    {
        m.over(m.calc(Calc::Count(self.samples)), self.sample_rate)
    }

    /// Clear all state, including the filter's history.
    pub fn reset(&mut self)
        ensures
            final(self)@ == (MeterModel {
                filter: old(self)@.filter.cleared(),
                mean_square: num(ZERO),
                peak: num(ZERO),
                energy: wide(0),
                samples: 0,
                ..old(self)@
            }),
    {
        self.filter.reset();
        self.mean_square = num(ZERO);
        self.peak = num(ZERO);
        self.energy = wide(0);
        self.samples = 0;
    }

    /// Clear only the peak hold.
    pub fn reset_peak(&mut self)
        ensures
            final(self)@ == (MeterModel { peak: num(ZERO), ..old(self)@ }),
    {
        self.peak = num(ZERO);
    }

    /// The weighting in force.
    pub fn weighting(&self) -> (weighting: MeterWeighting)
        ensures
            weighting == self@.weighting,
    {
        self.weighting
    }

    /// The integration in force.
    pub fn integration(&self) -> (integration: Integration)
        ensures
            integration == self@.integration,
    {
        self.integration
    }

    /// Window recommended for taking a calibration reading with this meter. Its main
    /// lobe is flat, so the level is right wherever the tone falls between bins.
    pub fn calibration_window() -> (kind: WindowKind)
        ensures
            kind == WindowKind::FlatTop,
    {
        WindowKind::FlatTop
    }
}

proof fn lemma_measuring_keeps_count<C: Fn(Calc) -> F32, W: Fn(Wide) -> F64>(
    meter: MeterModel,
    m: Arith<C>,
    w: WideArith<W>,
    samples: Seq<F32>,
)
    ensures
        meter.measured(m, w, samples).samples == meter.samples,
    decreases samples.len(),
{
    if samples.len() > 0 {
        lemma_measuring_keeps_count(meter, m, w, samples.drop_last());
    }
}

proof fn lemma_measuring_ignores_count<C: Fn(Calc) -> F32, W: Fn(Wide) -> F64>(
    meter: MeterModel,
    m: Arith<C>,
    w: WideArith<W>,
    samples: Seq<F32>,
    count: u64,
)
    ensures
        (MeterModel { samples: count, ..meter }).measured(m, w, samples) == (MeterModel {
            samples: count,
            ..meter.measured(m, w, samples)
        }),
    decreases samples.len(),
{
    if samples.len() > 0 {
        lemma_measuring_ignores_count(meter, m, w, samples.drop_last(), count);
    }
}

proof fn lemma_measure_in_blocks<C: Fn(Calc) -> F32, W: Fn(Wide) -> F64>(
    meter: MeterModel,
    m: Arith<C>,
    w: WideArith<W>,
    first: Seq<F32>,
    second: Seq<F32>,
)
    ensures
        meter.measured(m, w, first + second) == meter.measured(m, w, first).measured(m, w, second),
    decreases second.len(),
{
    if second.len() == 0 {
        assert(first + second =~= first);
    } else {
        assert((first + second).drop_last() =~= first + second.drop_last());
        lemma_measure_in_blocks(meter, m, w, first, second.drop_last());
    }
}

/// A reading is the same whether samples arrive in one block or in two.
pub proof fn lemma_push_in_blocks<C: Fn(Calc) -> F32, W: Fn(Wide) -> F64>(
    meter: MeterModel,
    m: Arith<C>,
    w: WideArith<W>,
    first: Seq<F32>,
    second: Seq<F32>,
)
    ensures
        meter.pushed(m, w, first).pushed(m, w, second) == meter.pushed(m, w, first + second),
{
    let count = counted(meter.samples, first.len());
    lemma_measure_in_blocks(meter, m, w, first, second);
    lemma_measuring_ignores_count(meter.measured(m, w, first), m, w, second, count);
}

/// A peak is held: it never falls until it is reset.
pub proof fn lemma_peak_holds<C: Fn(Calc) -> F32, W: Fn(Wide) -> F64>(
    meter: MeterModel,
    m: Arith<C>,
    w: WideArith<W>,
    samples: Seq<F32>,
)
    requires
        !meter.peak.nan(),
    ensures
        meter.peak.at_most(meter.pushed(m, w, samples).peak),
    decreases samples.len(),
{
    if samples.len() > 0 {
        lemma_peak_holds(meter, m, w, samples.drop_last());
        assert(meter.pushed(m, w, samples.drop_last()).peak == meter.measured(
            m,
            w,
            samples.drop_last(),
        ).peak);
    }
}

proof fn lemma_chain_keeps_shapes<C: Fn(Calc) -> F32>(
    m: Arith<C>,
    sections: Seq<Biquad>,
    sample: F32,
    n: nat,
)
    requires
        n <= sections.len(),
    ensures
        chained(m, sections, sample, n).sections.len() == sections.len(),
        forall|i: int|
            0 <= i < sections.len() ==> (#[trigger] chained(
                m,
                sections,
                sample,
                n,
            ).sections[i]).same_shape(sections[i]),
    decreases n,
{
    if n > 0 {
        lemma_chain_keeps_shapes(m, sections, sample, (n - 1) as nat);
    }
}

/// Resetting forgets all that was measured: whatever went in, the filter is as it was
/// with nothing remembered.
pub proof fn lemma_reset_forgets<C: Fn(Calc) -> F32, W: Fn(Wide) -> F64>(
    meter: MeterModel,
    m: Arith<C>,
    w: WideArith<W>,
    samples: Seq<F32>,
)
    ensures
        meter.pushed(m, w, samples).filter.cleared() == meter.filter.cleared(),
    decreases samples.len(),
{
    if samples.len() > 0 {
        lemma_reset_forgets(meter, m, w, samples.drop_last());
        let before = meter.measured(m, w, samples.drop_last()).filter;
        assert(before == meter.pushed(m, w, samples.drop_last()).filter);
        let after = before.advanced(m, samples.last());
        lemma_chain_keeps_shapes(m, before.sections, samples.last(), before.sections.len());
        assert(after.cleared().sections =~= before.cleared().sections);
        assert(meter.pushed(m, w, samples).filter == after);
    }
}

/// A filter as it is made remembers nothing, so that a meter that is reset measures
/// as a new one does.
pub proof fn lemma_new_filter_is_clear<C: Fn(Calc) -> F32>(
    m: Arith<C>,
    weighting: MeterWeighting,
    sample_rate: F32,
)
    ensures
        FilterModel::of(m, weighting, sample_rate).cleared() == FilterModel::of(
            m,
            weighting,
            sample_rate,
        ),
{
    let filter = FilterModel::of(m, weighting, sample_rate);
    assert(filter.cleared() =~= filter);
}

/// What a sample does to a meter: its weighted square moves the mean towards it, by the
/// attack where it is above the mean and by the decay where not, and adds to the energy;
/// its weighted magnitude becomes the peak where it is higher.
pub proof fn lemma_what_a_sample_does<C: Fn(Calc) -> F32, W: Fn(Wide) -> F64>(
    meter: MeterModel,
    m: Arith<C>,
    w: WideArith<W>,
    sample: F32,
)
    ensures
        ({
            let after = meter.pushed(m, w, seq![sample]);
            let weighted = meter.filter.output(m, sample);
            let square = m.times(weighted, weighted);
            let way = m.minus(square, meter.mean_square);
            &&& meter.mean_square.less(square) ==> after.mean_square == m.plus(
                meter.mean_square,
                m.times(way, meter.attack),
            )
            &&& !meter.mean_square.less(square) ==> after.mean_square == m.plus(
                meter.mean_square,
                m.times(way, meter.decay),
            )
            &&& meter.peak.less(weighted.spec_abs()) ==> after.peak == weighted.spec_abs()
            &&& !meter.peak.less(weighted.spec_abs()) ==> after.peak == meter.peak
            &&& after.energy == w.plus(meter.energy, w.widen(square))
            &&& meter.samples < u64::MAX ==> after.samples == meter.samples + 1
            &&& after.filter == meter.filter.advanced(m, sample)
            &&& after.attack == meter.attack && after.decay == meter.decay
        }),
{
    assert(seq![sample].drop_last() =~= Seq::empty());
    reveal_with_fuel(MeterModel::measured, 2);
}

/// No weighting leaves a sample to the gain alone. C-weighting runs it through a highpass
/// at the lowest pole and a lowpass at the highest; A-weighting through highpasses at
/// both, and a lowpass at the poles between. The gain undoes what the sections do at the
/// frequency of unity.
pub proof fn lemma_what_a_weighting_does<C: Fn(Calc) -> F32>(
    m: Arith<C>,
    weighting: MeterWeighting,
    sample_rate: F32,
    x: F32,
)
    ensures
        ({
            let filter = FilterModel::of(m, weighting, sample_rate);
            let first = Biquad::double_pole_highpass(&m, num(W1), sample_rate);
            let high = Biquad::double_pole_highpass(&m, num(W4), sample_rate);
            let low = Biquad::two_pole_lowpass(&m, num(W4), num(W4), sample_rate);
            let middle = Biquad::two_pole_lowpass(&m, num(W2), num(W3), sample_rate);
            let (a, b, c, d) = (
                m.norm(first.spec_response_at(m, num(UNITY_HZ), sample_rate)),
                m.norm(high.spec_response_at(m, num(UNITY_HZ), sample_rate)),
                m.norm(low.spec_response_at(m, num(UNITY_HZ), sample_rate)),
                m.norm(middle.spec_response_at(m, num(UNITY_HZ), sample_rate)),
            );
            let (run, unity) = match weighting {
                MeterWeighting::Z => (x, num(ONE)),
                MeterWeighting::C => (
                    low.output(m, first.output(m, x)),
                    m.times(m.times(num(ONE), a), c),
                ),
                MeterWeighting::A => (
                    middle.output(m, high.output(m, first.output(m, x))),
                    m.times(m.times(m.times(num(ONE), a), b), d),
                ),
            };
            num(ZERO).less(unity) ==> filter.output(m, x) == m.times(run, m.over(num(ONE), unity))
        }),
{
    reveal_with_fuel(chained, 4);
    reveal_with_fuel(unity_response, 4);
}

/// Impulse integration rises with one time constant and falls with another; the others
/// do both with one.
pub proof fn lemma_rise_and_fall(integration: Integration)
    ensures
        !(integration is Impulse) ==> integration.constants().0 == integration.constants().1,
        integration is Impulse ==> integration.constants().0.bits == 0x3D0F_5C29
            && integration.constants().1.bits == 0x3FC0_0000,
        integration is Fast ==> integration.constants().0.bits == 0x3E00_0000,
        integration is Slow ==> integration.constants().0.bits == 0x3F80_0000,
        integration matches Integration::Custom { seconds } ==> integration.constants().0
            == seconds.spec_max(num(LEAST_SECONDS)),
{
}

/// A time constant as the share of the way that is gone in a sample.
pub proof fn lemma_share_of_the_way<C: Fn(Calc) -> F32>(m: Arith<C>, seconds: F32, sample_rate: F32)
    requires
        num(ZERO).less(seconds),
    ensures
        coefficient(&m, seconds, sample_rate) == m.minus(
            num(ONE),
            m.exp(m.over(num(MINUS_ONE), m.times(seconds, sample_rate))),
        ).spec_clamp(num(SMALLEST_NORMAL), num(ONE)),
{
}

} // verus!
