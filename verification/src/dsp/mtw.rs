//! Multi-time-window transfer function analysis.
//!
//! A single transform forces one choice of resolution for the whole spectrum.
//! Several estimators run at once, each with its own transform size, and their
//! outputs are spliced: a long window where frequencies are close together and
//! change slowly, a short one where they are far apart and change fast. Shifting a
//! window shifts both channels alike and cancels in their ratio, so the splices
//! line up.

use vstd::arithmetic::power2;
use vstd::prelude::*;

use crate::arith::{Arith, Calc, Complex};
use crate::dsp::fft::{origin, Forward};
use crate::dsp::spectrum::Overlap;
use crate::dsp::transfer;
use crate::dsp::transfer::{
    TransferAveraging, TransferConfig, TransferFunction, TransferModel, HALF_TURN, WHOLE_TURN,
};
use crate::dsp::window::WindowKind;
use crate::ieee;
use crate::ieee::F32;
use crate::numbers::{num, ONE, TWENTY, TWO, ZERO};
use crate::powers;
use crate::powers::is_power_of_two;

verus! {

/// Floor for a point with no usable reference energy.
pub const MTW_FLOOR_DB: u32 = 0xC348_0000;

/// One spliced output point.
#[derive(Debug, Clone, Copy, PartialEq, Eq, Structural)]
pub struct MtwPoint {
    /// Frequency in hertz.
    pub hz: F32,
    /// Magnitude in decibels.
    pub magnitude_db: F32,
    /// Phase in degrees, wrapped.
    pub phase_degrees: F32,
    /// Coherence. Comparable within a band, only roughly across bands.
    pub coherence: F32,
    /// Transform size of the band this point came from.
    pub fft_size: usize,
}

impl Default for MtwPoint {
    fn default() -> (point: MtwPoint)
        ensures
            point == (MtwPoint {
                hz: num(ZERO),
                magnitude_db: num(ZERO),
                phase_degrees: num(ZERO),
                coherence: num(ZERO),
                fft_size: 0,
            }),
    {
        MtwPoint {
            hz: num(ZERO),
            magnitude_db: num(ZERO),
            phase_degrees: num(ZERO),
            coherence: num(ZERO),
            fft_size: 0,
        }
    }
}

/// Setup for a [`MultiTimeWindow`].
#[derive(Debug, Clone, Copy, PartialEq, Eq, Structural)]
pub struct MtwConfig {
    /// Sample rate in hertz.
    pub sample_rate: F32,
    /// Transform size for the lowest band. Larger means finer bass resolution and
    /// more latency.
    pub largest_fft: usize,
    /// Transform size for the highest band.
    pub smallest_fft: usize,
    /// Analysis window, used by every band.
    pub window: WindowKind,
    /// Frame overlap, used by every band.
    pub overlap: Overlap,
    /// Averaging mode, used by every band.
    pub averaging: TransferAveraging,
    /// Output points per octave.
    pub points_per_octave: usize,
    /// Lowest output frequency.
    pub min_hz: F32,
}

impl Default for MtwConfig {
    fn default() -> (config: MtwConfig)
        ensures
            config == (MtwConfig {
                sample_rate: num(0x473B_8000),
                largest_fft: 32_768,
                smallest_fft: 256,
                window: WindowKind::Hann,
                overlap: Overlap::Half,
                averaging: TransferAveraging::Exponential { alpha: num(0x3E4C_CCCD) },
                points_per_octave: 48,
                min_hz: num(TWENTY),
            }),
    {
        // 48 kHz, and a smoothing coefficient of one fifth.
        MtwConfig {
            sample_rate: num(0x473B_8000),
            largest_fft: 32_768,
            smallest_fft: 256,
            window: WindowKind::Hann,
            overlap: Overlap::Half,
            averaging: TransferAveraging::Exponential { alpha: num(0x3E4C_CCCD) },
            points_per_octave: 48,
            min_hz: num(TWENTY),
        }
    }
}

impl MtwConfig {
    /// Whether the bands can be built: sizes that are powers of two, in order, and a
    /// positive rate, grid density and lowest frequency.
    pub open spec fn valid(self) -> bool {
        &&& num(ZERO).less(self.sample_rate)
        &&& powers::is_power(self.smallest_fft as int)
        &&& powers::is_power(self.largest_fft as int)
        &&& 64 <= self.smallest_fft <= self.largest_fft
        &&& self.points_per_octave > 0
        &&& num(ZERO).less(self.min_hz)
    }

    pub fn is_valid(&self) -> (valid: bool)
        ensures
            valid == self.valid(),
    {
        num(ZERO).lt(self.sample_rate) && is_power_of_two(self.smallest_fft) && is_power_of_two(
            self.largest_fft,
        ) && 64 <= self.smallest_fft && self.smallest_fft <= self.largest_fft
            && self.points_per_octave > 0 && num(ZERO).lt(self.min_hz)
    }

    /// Half the sample rate.
    pub open spec fn nyquist<C: Fn(Calc) -> F32>(self, m: Arith<C>) -> F32 {
        m.over(self.sample_rate, num(TWO))
    }

    /// The setup of the band with a transform of `size`.
    pub open spec fn band_config(self, size: usize) -> TransferConfig {
        TransferConfig {
            sample_rate: self.sample_rate,
            size,
            window: self.window,
            overlap: self.overlap,
            averaging: self.averaging,
        }
    }

    /// The transform size of band `i`, the highest band being the first.
    pub open spec fn band_size(self, i: nat) -> nat {
        self.smallest_fft as nat * power2::pow2(i)
    }

    /// Upper end of band `i`: Nyquist, halved once for every band above.
    pub open spec fn edge<C: Fn(Calc) -> F32>(self, m: Arith<C>, i: nat) -> F32
        decreases i,
    {
        if i == 0 {
            self.nyquist(m)
        } else {
            m.over(self.edge(m, (i - 1) as nat), num(TWO))
        }
    }

    /// Band `i` of `count` as it is built. The lowest band runs all the way down to
    /// DC; it has the resolution to, and nothing below it would otherwise be covered.
    pub open spec fn band<C: Fn(Calc) -> F32>(self, m: Arith<C>, i: nat, count: nat) -> BandModel {
        let size = self.band_size(i) as usize;
        BandModel {
            transfer: transfer::fresh(m, self.band_config(size)),
            lower_hz: if i + 1 == count {
                num(ZERO)
            } else {
                self.edge(m, i + 1)
            },
            upper_hz: self.edge(m, i),
        }
    }

    /// The ratio between two neighbouring points of the grid.
    pub open spec fn grid_step<C: Fn(Calc) -> F32>(self, m: Arith<C>) -> F32 {
        m.power(num(TWO), m.over(num(ONE), m.count(self.points_per_octave)))
    }

    /// Frequency `i` of the grid.
    pub open spec fn grid<C: Fn(Calc) -> F32>(self, m: Arith<C>, i: nat) -> F32
        decreases i,
    {
        if i == 0 {
            self.min_hz
        } else {
            m.times(self.grid(m, (i - 1) as nat), self.grid_step(m))
        }
    }

    /// How many points cover the octaves up to Nyquist.
    pub open spec fn grid_points<C: Fn(Calc) -> F32>(self, m: Arith<C>) -> int {
        ieee::saturated(
            m.times(
                m.log2(m.over(self.nyquist(m), self.min_hz)),
                m.count(self.points_per_octave),
            ).ceil_int(),
            usize::MAX as int,
        )
    }

    /// Whether the grid has a point `i`.
    pub open spec fn grid_goes_on<C: Fn(Calc) -> F32>(self, m: Arith<C>, i: nat) -> bool {
        self.grid(m, i).le(self.nyquist(m)) && i <= self.grid_points(m) + 1
    }
}

/// What a band amounts to.
#[verifier::ext_equal]
pub struct BandModel {
    pub transfer: TransferModel,
    pub lower_hz: F32,
    pub upper_hz: F32,
}

impl BandModel {
    /// Whether the band is responsible for a frequency. Where two bands meet, the
    /// upper one is; above the top band there is none, so it holds its upper edge too.
    pub open spec fn holds(self, hz: F32, top: bool) -> bool {
        self.lower_hz.le(hz) && (hz.lt(self.upper_hz) || (top && hz.le(self.upper_hz)))
    }

    /// The response in a bin, zero beyond the last.
    pub open spec fn response_at<C: Fn(Calc) -> F32>(self, m: Arith<C>, bin: int) -> Complex {
        if bin < self.transfer.products.len() {
            transfer::response(&m, self.transfer.products[bin])
        } else {
            origin()
        }
    }

    /// The coherence in a bin, zero beyond the last.
    pub open spec fn coherence_at<C: Fn(Calc) -> F32>(self, m: Arith<C>, bin: int) -> F32 {
        if bin < self.transfer.products.len() {
            transfer::coherence(&m, self.transfer.products[bin])
        } else {
            num(ZERO)
        }
    }

    /// What the band says at a frequency.
    pub open spec fn read<C: Fn(Calc) -> F32>(
        self,
        m: Arith<C>,
        sample_rate: F32,
        point: MtwPoint,
    ) -> MtwPoint {
        let bins = self.transfer.products.len() as int;
        let spacing = m.over(sample_rate, m.count(self.transfer.size as usize));
        let exact = m.over(point.hz, spacing);
        let lower = ieee::saturated(exact.floor_int(), usize::MAX as int);
        let next = if lower + 1 < bins {
            lower + 1
        } else {
            lower
        };
        if spacing.le(num(ZERO)) {
            point
        } else {
            between(
                &m,
                point.hz,
                m.minus(exact, m.count(lower as usize)),
                self.response_at(m, lower),
                self.response_at(m, next),
                self.coherence_at(m, lower),
                self.coherence_at(m, next),
                self.transfer.size as usize,
            )
        }
    }
}

/// The point at `fraction` of the way from one bin to the next.
///
/// Magnitude and angle are interpolated separately, the angle along the shortest
/// path. Blending phase as a plain number breaks across a wrap, and blending complex
/// values chords across the arc, so magnitude sags wherever phase rotates fast.
#[verifier::allow_in_spec]
pub fn between<C: Fn(Calc) -> F32>(
    m: &Arith<C>,
    hz: F32,
    fraction: F32,
    a: Complex,
    b: Complex,
    ca: F32,
    cb: F32,
    fft_size: usize,
) -> MtwPoint
    returns
        (MtwPoint {
            hz,
            magnitude_db: if num(ZERO).lt(
                m.plus(m.norm(a), m.times(m.minus(m.norm(b), m.norm(a)), fraction)),
            ) {
                m.times(
                    num(TWENTY),
                    m.log10(m.plus(m.norm(a), m.times(m.minus(m.norm(b), m.norm(a)), fraction))),
                ).max(num(MTW_FLOOR_DB))
            } else {
                num(MTW_FLOOR_DB)
            },
            phase_degrees: m.minus(
                m.remainder(
                    m.plus(
                        m.degrees(
                            m.plus(m.arg(a), m.times(m.arg(m.product(b, a.conj())), fraction)),
                        ),
                        num(HALF_TURN),
                    ),
                    num(WHOLE_TURN),
                ),
                num(HALF_TURN),
            ),
            coherence: m.plus(ca, m.times(m.minus(cb, ca), fraction)).clamp(num(ZERO), num(ONE)),
            fft_size,
        }),
{
    let magnitude_a = m.norm(a);
    let magnitude_b = m.norm(b);
    let magnitude = m.plus(magnitude_a, m.times(m.minus(magnitude_b, magnitude_a), fraction));
    // The signed angle from one to the other, already wrapped.
    let step = m.arg(m.product(b, a.conj()));
    let angle = m.plus(m.arg(a), m.times(step, fraction));
    let magnitude_db = if num(ZERO).lt(magnitude) {
        m.times(num(TWENTY), m.log10(magnitude)).max(num(MTW_FLOOR_DB))
    } else {
        num(MTW_FLOOR_DB)
    };
    // The sum can leave the principal range.
    let phase_degrees = m.minus(
        m.remainder(m.plus(m.degrees(angle), num(HALF_TURN)), num(WHOLE_TURN)),
        num(HALF_TURN),
    );
    let coherence = m.plus(ca, m.times(m.minus(cb, ca), fraction)).clamp(num(ZERO), num(ONE));
    MtwPoint { hz, magnitude_db, phase_degrees, coherence, fft_size }
}

/// A point about which nothing is known.
#[verifier::allow_in_spec]
pub fn blank(hz: F32, fft_size: usize) -> MtwPoint
    returns
        (MtwPoint {
            hz,
            magnitude_db: num(MTW_FLOOR_DB),
            phase_degrees: num(ZERO),
            coherence: num(ZERO),
            fft_size,
        }),
{
    MtwPoint {
        hz,
        magnitude_db: num(MTW_FLOOR_DB),
        phase_degrees: num(ZERO),
        coherence: num(ZERO),
        fft_size,
    }
}

/// What a multi-resolution estimator amounts to.
#[verifier::ext_equal]
pub struct MtwModel {
    pub sample_rate: F32,
    /// The bands, from the highest down.
    pub bands: Seq<BandModel>,
    pub points: Seq<MtwPoint>,
    /// Frames the lowest band had averaged after the last samples came in.
    pub frames: u32,
}

/// Where the first band that holds a frequency stands, at `from` or after it.
pub open spec fn first_holding(bands: Seq<BandModel>, hz: F32, from: int) -> Option<int>
    decreases bands.len() - from,
{
    if from < 0 || from >= bands.len() {
        None
    } else if bands[from].holds(hz, from == 0) {
        Some(from)
    } else {
        first_holding(bands, hz, from + 1)
    }
}

impl MtwModel {
    /// What a point says once the bands are spliced. A point that no band holds
    /// stays as it is.
    pub open spec fn spliced<C: Fn(Calc) -> F32>(self, m: Arith<C>, point: MtwPoint) -> MtwPoint {
        match first_holding(self.bands, point.hz, 0) {
            None => point,
            Some(band) => self.bands[band].read(m, self.sample_rate, point),
        }
    }

    /// The spliced output recomputed.
    pub open spec fn resolved<C: Fn(Calc) -> F32>(self, m: Arith<C>) -> MtwModel {
        MtwModel {
            points: Seq::new(self.points.len(), |i: int| self.spliced(m, self.points[i])),
            ..self
        }
    }

    /// Matched samples fed to every band.
    pub open spec fn pushed<C: Fn(Calc) -> F32, F: Fn(&[F32]) -> Vec<Complex>>(
        self,
        m: Arith<C>,
        fft: Forward<F>,
        reference: Seq<F32>,
        measurement: Seq<F32>,
    ) -> MtwModel {
        let bands = Seq::new(
            self.bands.len(),
            |i: int|
                BandModel {
                    transfer: self.bands[i].transfer.pushed(m, fft, reference, measurement),
                    ..self.bands[i]
                },
        );
        MtwModel { bands, frames: bands.last().transfer.frames, ..self }
    }

    /// All averages discarded.
    pub open spec fn emptied(self) -> MtwModel {
        MtwModel {
            bands: Seq::new(
                self.bands.len(),
                |i: int|
                    BandModel { transfer: self.bands[i].transfer.emptied(), ..self.bands[i] },
            ),
            points: Seq::new(
                self.points.len(),
                |i: int| blank(self.points[i].hz, self.points[i].fft_size),
            ),
            frames: 0,
            ..self
        }
    }

    /// Whether both channels stand at the same sample in every band.
    pub open spec fn matched(self) -> bool {
        forall|i: int|
            0 <= i < self.bands.len() ==> (#[trigger] self.bands[i]).transfer.reference.len()
                == self.bands[i].transfer.measurement.len() && 0 < self.bands[i].transfer.hop
                <= self.bands[i].transfer.size
    }
}

/// One band: an estimator and the frequency range it is responsible for.
#[derive(Debug)]
struct BandEngine {
    engine: TransferFunction,
    response: Vec<Complex>,
    coherence: Vec<F32>,
    lower_hz: F32,
    upper_hz: F32,
}

impl BandEngine {
    spec fn model(self) -> BandModel {
        BandModel { transfer: self.engine@, lower_hz: self.lower_hz, upper_hz: self.upper_hz }
    }

    spec fn wf(self) -> bool {
        &&& self.engine.wf()
        &&& self.response@.len() == self.engine@.products.len()
        &&& self.coherence@.len() == self.engine@.products.len()
    }

    /// Whether the band is responsible for a frequency.
    fn covers(&self, hz: F32, top: bool) -> (yes: bool)
        ensures
            yes == self.model().holds(hz, top),
    {
        self.lower_hz.le(hz) && (hz.lt(self.upper_hz) || (top && hz.le(self.upper_hz)))
    }

    /// Whether the curves say what the average says.
    spec fn resolved<C: Fn(Calc) -> F32>(self, m: Arith<C>) -> bool {
        &&& self.response@ == Seq::new(
            self.engine@.products.len(),
            |k: int| transfer::response(&m, self.engine@.products[k]),
        )
        &&& self.coherence@ == Seq::new(
            self.engine@.products.len(),
            |k: int| transfer::coherence(&m, self.engine@.products[k]),
        )
    }
}

/// Spliced multi-resolution transfer function.
#[derive(Debug)]
pub struct MultiTimeWindow {
    sample_rate: F32,
    bands: Vec<BandEngine>,
    points: Vec<MtwPoint>,
    frames: u32,
}

impl View for MultiTimeWindow {
    type V = MtwModel;

    closed spec fn view(&self) -> MtwModel {
        MtwModel {
            sample_rate: self.sample_rate,
            bands: Seq::new(self.bands@.len(), |i: int| self.bands@[i].model()),
            points: self.points@,
            frames: self.frames,
        }
    }
}

impl MultiTimeWindow {
    pub closed spec fn bands_fit(self) -> bool {
        forall|i: int|
            0 <= i < self.bands@.len() ==> (#[trigger] self.bands@[i]).wf()
                && self.bands@[i].engine.spec_sample_rate() == self.sample_rate
    }

    pub open spec fn wf(self) -> bool {
        self.bands_fit() && self@.bands.len() >= 1
    }

    /// Build the band estimators and the output grid.
    ///
    /// The top band takes the top octave with the shortest window; each octave down
    /// doubles the transform, which keeps the number of bins per octave roughly
    /// constant instead of piling them up at the top.
    pub fn new<C: Fn(Calc) -> F32>(m: &Arith<C>, config: MtwConfig) -> (mtw: MultiTimeWindow)
        requires
            config.valid(),
        ensures
            mtw.wf(),
            mtw@.sample_rate == config.sample_rate,
            mtw@.frames == 0,
            config.band_size((mtw@.bands.len() - 1) as nat) == config.largest_fft,
            forall|i: int|
                0 <= i < mtw@.bands.len() ==> #[trigger] mtw@.bands[i] == config.band(
                    *m,
                    i as nat,
                    mtw@.bands.len(),
                ),
            forall|i: int|
                0 <= i < mtw@.points.len() ==> #[trigger] mtw@.points[i] == blank(
                    config.grid(*m, i as nat),
                    0,
                ) && config.grid_goes_on(*m, i as nat),
            !config.grid_goes_on(*m, mtw@.points.len()),
    {
        let nyquist = m.over(config.sample_rate, num(TWO));
        let mut bands: Vec<BandEngine> = Vec::new();
        let mut size: usize = config.smallest_fft;
        let mut upper = nyquist;
        let ghost top = choose|k: nat| #[trigger] power2::pow2(k) == config.smallest_fft;
        let ghost bottom = choose|k: nat| #[trigger] power2::pow2(k) == config.largest_fft;
        let ghost last = (bottom - top) as nat;
        proof {
            if bottom < top {
                power2::lemma_pow2_strictly_increases(bottom, top);
            }
            power2::lemma_pow2_adds(top, last);
            power2::lemma2_to64();
            lemma_band_size_even(config, 0, top);
        }
        while size < config.largest_fft
            invariant
                config.valid(),
                power2::pow2(top) == config.smallest_fft,
                power2::pow2(bottom) == config.largest_fft,
                bottom == top + last,
                config.band_size(last) == config.largest_fft,
                bands@.len() <= last,
                size == config.band_size(bands@.len()),
                upper == config.edge(*m, bands@.len()),
                forall|i: int|
                    0 <= i < bands@.len() ==> (#[trigger] bands@[i]).wf()
                        && bands@[i].engine.spec_sample_rate() == config.sample_rate
                        && bands@[i].model() == config.band(*m, i as nat, last + 1),
            decreases last - bands@.len(),
        {
            let ghost here = bands@.len();
            proof {
                if here == last {
                    assert(false);
                }
                lemma_band_size_even(config, here, top);
                power2::lemma_pow2_adds(top, here);
                power2::lemma_pow2_adds(top, here + 1);
                power2::lemma_pow2_unfold(top + here + 1);
                if here + 1 < last {
                    power2::lemma_pow2_strictly_increases(top + here + 1, bottom);
                }
            }
            let lower = m.over(upper, num(TWO));
            let engine = TransferFunction::new(
                m,
                TransferConfig {
                    sample_rate: config.sample_rate,
                    size,
                    window: config.window,
                    overlap: config.overlap,
                    averaging: config.averaging,
                },
            );
            let bins: usize = size / 2 + 1;
            let band = BandEngine {
                engine,
                response: vec![origin(); bins],
                coherence: vec![num(ZERO); bins],
                lower_hz: lower,
                upper_hz: upper,
            };
            assert(band.model() =~= config.band(*m, here, last + 1));
            bands.push(band);
            upper = lower;
            size = size * 2;
        }
        proof {
            // Sizes only grow, so the largest is reached with the last band.
            let here = bands@.len();
            if here < last {
                power2::lemma_pow2_adds(top, here);
                power2::lemma_pow2_strictly_increases(top + here, bottom);
            }
            lemma_band_size_even(config, here, top);
        }
        let engine = TransferFunction::new(
            m,
            TransferConfig {
                sample_rate: config.sample_rate,
                size,
                window: config.window,
                overlap: config.overlap,
                averaging: config.averaging,
            },
        );
        let bins: usize = size / 2 + 1;
        let band = BandEngine {
            engine,
            response: vec![origin(); bins],
            coherence: vec![num(ZERO); bins],
            lower_hz: num(ZERO),
            upper_hz: upper,
        };
        assert(band.model() =~= config.band(*m, last, last + 1));
        bands.push(band);

        // A grid with even steps per octave: a long transform has thousands of bins, a
        // few dozen points per octave across the audio band are a few hundred.
        let octaves = m.log2(m.over(nyquist, config.min_hz));
        let count: usize = m.times(octaves, m.count(config.points_per_octave)).ceil_to_usize();
        let step = m.power(num(TWO), m.over(num(ONE), m.count(config.points_per_octave)));
        let mut points: Vec<MtwPoint> = Vec::new();
        let mut hz = config.min_hz;
        while hz.le(nyquist) && (points.len() < 2 || points.len() - 2 < count)
            invariant
                nyquist == config.nyquist(*m),
                count == config.grid_points(*m),
                step == config.grid_step(*m),
                hz == config.grid(*m, points@.len()),
                points@.len() <= count + 2,
                forall|i: int|
                    0 <= i < points@.len() ==> #[trigger] points@[i] == blank(
                        config.grid(*m, i as nat),
                        0,
                    ) && config.grid_goes_on(*m, i as nat),
            decreases count + 2 - points@.len(),
        {
            points.push(blank(hz, 0));
            hz = m.times(hz, step);
        }
        let mtw = MultiTimeWindow { sample_rate: config.sample_rate, bands, points, frames: 0 };
        assert(mtw@.bands.len() == last + 1);
        mtw
    }

    /// Feed matched samples to every band.
    ///
    /// Returns the number of frames the lowest band completed, since that is the one
    /// that gates a full-bandwidth result.
    pub fn push<C: Fn(Calc) -> F32, F: Fn(&[F32]) -> Vec<Complex>>(
        &mut self,
        m: &Arith<C>,
        fft: &Forward<F>,
        reference: &[F32],
        measurement: &[F32],
    ) -> (slowest: usize)
        requires
            old(self).wf(),
            reference@.len() == measurement@.len(),
        ensures
            final(self).wf(),
            final(self)@ == old(self)@.pushed(*m, *fft, reference@, measurement@),
            slowest == old(self)@.bands.last().transfer.reference_frames(reference@).len(),
    {
        let n: usize = self.bands.len();
        let mut slowest: usize = 0;
        let mut i: usize = 0;
        while i < n
            invariant
                i <= n,
                n == self.bands@.len(),
                n == old(self).bands@.len(),
                reference@.len() == measurement@.len(),
                self.bands_fit(),
                self.sample_rate == old(self).sample_rate,
                self.points == old(self).points,
                forall|k: int| i <= k < n ==> self.bands@[k] == old(self).bands@[k],
                forall|k: int|
                    0 <= k < i ==> (#[trigger] self.bands@[k]).model() == (BandModel {
                        transfer: old(self).bands@[k].model().transfer.pushed(
                            *m,
                            *fft,
                            reference@,
                            measurement@,
                        ),
                        ..old(self).bands@[k].model()
                    }),
                i > 0 ==> slowest == old(self).bands@[i - 1].engine@.reference_frames(
                    reference@,
                ).len(),
            decreases n - i,
        {
            assert(self.bands@[i as int].wf());
            let ghost before = self.bands@;
            slowest = self.bands[i].engine.push(m, fft, reference, measurement);
            proof {
                transfer::lemma_pushing_keeps_setup(
                    before[i as int].engine@,
                    *m,
                    *fft,
                    reference@,
                    measurement@,
                );
            }
            i = i + 1;
        }
        self.frames = self.bands[n - 1].engine.frames();
        assert(self@.bands =~= old(self)@.pushed(*m, *fft, reference@, measurement@).bands);
        slowest
    }

    /// Recompute the spliced output.
    ///
    /// It is separate from `push`, so that a fast display does not force a splice on
    /// every audio block.
    pub fn resolve<C: Fn(Calc) -> F32>(&mut self, m: &Arith<C>)
        requires
            old(self).wf(),
        ensures
            final(self).wf(),
            final(self)@ == old(self)@.resolved(*m),
    {
        let n: usize = self.bands.len();
        let mut i: usize = 0;
        while i < n
            invariant
                i <= n,
                n == self.bands@.len(),
                n == old(self).bands@.len(),
                self.bands_fit(),
                self.sample_rate == old(self).sample_rate,
                self.points == old(self).points,
                self.frames == old(self).frames,
                forall|k: int|
                    0 <= k < n ==> (#[trigger] self.bands@[k]).model() == old(
                        self,
                    ).bands@[k].model(),
                forall|k: int| 0 <= k < i ==> (#[trigger] self.bands@[k]).resolved(*m),
            decreases n - i,
        {
            assert(self.bands@[i as int].wf());
            let bins: usize = self.bands[i].engine.bins();
            let mut response: Vec<Complex> = vec![origin(); bins];
            self.bands[i].engine.write_response(m, response.as_mut_slice());
            let mut coherence: Vec<F32> = vec![num(ZERO); bins];
            self.bands[i].engine.write_coherence(m, coherence.as_mut_slice());
            self.bands[i].response = response;
            self.bands[i].coherence = coherence;
            i = i + 1;
        }
        assert(self@.bands =~= old(self)@.bands);
        let count: usize = self.points.len();
        let mut p: usize = 0;
        while p < count
            invariant
                p <= count,
                count == self.points@.len(),
                count == old(self).points@.len(),
                self.bands_fit(),
                self.sample_rate == old(self).sample_rate,
                self.frames == old(self).frames,
                self@.bands == old(self)@.bands,
                forall|k: int|
                    0 <= k < self.bands@.len() ==> (#[trigger] self.bands@[k]).resolved(*m),
                forall|k: int| p <= k < count ==> #[trigger] self.points@[k] == old(self).points@[k],
                forall|k: int|
                    0 <= k < p ==> #[trigger] self.points@[k] == old(self)@.spliced(
                        *m,
                        old(self).points@[k],
                    ),
            decreases count - p,
        {
            let point = self.points[p];
            let spliced = self.read(m, point);
            self.points.set(p, spliced);
            p = p + 1;
        }
        assert(self@ =~= old(self)@.resolved(*m));
    }

    /// What the bands say at a point.
    fn read<C: Fn(Calc) -> F32>(&self, m: &Arith<C>, point: MtwPoint) -> (spliced: MtwPoint)
        requires
            self.bands_fit(),
            forall|k: int| 0 <= k < self.bands@.len() ==> (#[trigger] self.bands@[k]).resolved(*m),
        ensures
            spliced == self@.spliced(*m, point),
    {
        let n: usize = self.bands.len();
        let mut i: usize = 0;
        while i < n && !self.bands[i].covers(point.hz, i == 0)
            invariant
                i <= n,
                n == self.bands@.len(),
                first_holding(self@.bands, point.hz, 0) == first_holding(
                    self@.bands,
                    point.hz,
                    i as int,
                ),
            decreases n - i,
        {
            assert(self@.bands[i as int] == self.bands@[i as int].model());
            i = i + 1;
        }
        if i == n {
            return point;
        }
        assert(self@.bands[i as int] == self.bands@[i as int].model());
        let band = &self.bands[i];
        assert(band.wf() && band.resolved(*m));
        let spacing = band.engine.bin_spacing_hz(m);
        if spacing.le(num(ZERO)) {
            return point;
        }
        let exact = m.over(point.hz, spacing);
        let lower: usize = exact.floor_to_usize();
        let fraction = m.minus(exact, m.count(lower));
        let bins: usize = band.response.len();
        let a = if lower < bins {
            band.response[lower]
        } else {
            origin()
        };
        let b = if lower < bins - 1 {
            band.response[lower + 1]
        } else {
            a
        };
        let ca = if lower < bins {
            band.coherence[lower]
        } else {
            num(ZERO)
        };
        let cb = if lower < bins - 1 {
            band.coherence[lower + 1]
        } else {
            ca
        };
        between(m, point.hz, fraction, a, b, ca, cb, band.engine.size())
    }

    /// The spliced result. Call [`MultiTimeWindow::resolve`] first.
    pub fn points(&self) -> (points: &[MtwPoint])
        ensures
            points@ == self@.points,
    {
        self.points.as_slice()
    }

    /// Frames the lowest band has averaged, which gates a trustworthy bass reading.
    pub fn frames(&self) -> (frames: u32)
        ensures
            frames == self@.frames,
    {
        self.frames
    }

    /// Transform sizes in use, from the highest band down to the lowest.
    pub fn fft_sizes(&self) -> (sizes: Vec<usize>)
        ensures
            sizes@.len() == self@.bands.len(),
            forall|i: int|
                0 <= i < sizes@.len() ==> #[trigger] sizes@[i] == self@.bands[i].transfer.size,
    {
        let mut sizes: Vec<usize> = Vec::new();
        let mut i: usize = 0;
        while i < self.bands.len()
            invariant
                i <= self.bands@.len(),
                sizes@.len() == i,
                forall|k: int|
                    0 <= k < i ==> #[trigger] sizes@[k] == self.bands@[k].engine@.size,
            decreases self.bands@.len() - i,
        {
            sizes.push(self.bands[i].engine.size());
            i = i + 1;
        }
        sizes
    }

    /// Bin spacing of the lowest band, the finest resolution available.
    pub fn finest_resolution_hz<C: Fn(Calc) -> F32>(&self, m: &Arith<C>) -> (spacing: F32)
        requires
            self.wf(),
        ensures
            spacing == m.over(
                self@.sample_rate,
                m.count(self@.bands.last().transfer.size as usize),
            ),
    {
        let last: usize = self.bands.len() - 1;
        assert(self.bands@[last as int].wf());
        self.bands[last].engine.bin_spacing_hz(m)
    }

    /// Seconds of audio the lowest band's window spans, which is the latency before
    /// the bass reading settles.
    pub fn longest_window_seconds<C: Fn(Calc) -> F32>(&self, m: &Arith<C>) -> (seconds: F32)
        requires
            self.wf(),
        ensures
            seconds == m.over(
                m.count(self@.bands.last().transfer.size as usize),
                self@.sample_rate,
            ),
    {
        let last: usize = self.bands.len() - 1;
        m.over(m.count(self.bands[last].engine.size()), self.sample_rate)
    }

    /// Discard all averages.
    pub fn reset(&mut self)
        requires
            old(self).wf(),
        ensures
            final(self).wf(),
            final(self)@ == old(self)@.emptied(),
    {
        let n: usize = self.bands.len();
        let mut i: usize = 0;
        while i < n
            invariant
                i <= n,
                n == self.bands@.len(),
                n == old(self).bands@.len(),
                self.bands_fit(),
                self.sample_rate == old(self).sample_rate,
                self.points == old(self).points,
                forall|k: int| i <= k < n ==> self.bands@[k] == old(self).bands@[k],
                forall|k: int|
                    0 <= k < i ==> (#[trigger] self.bands@[k]).model() == (BandModel {
                        transfer: old(self).bands@[k].model().transfer.emptied(),
                        ..old(self).bands@[k].model()
                    }),
            decreases n - i,
        {
            assert(self.bands@[i as int].wf());
            self.bands[i].engine.reset();
            i = i + 1;
        }
        self.frames = 0;
        let count: usize = self.points.len();
        let mut p: usize = 0;
        while p < count
            invariant
                p <= count,
                count == self.points@.len(),
                count == old(self).points@.len(),
                self.bands_fit(),
                self.sample_rate == old(self).sample_rate,
                self.frames == 0,
                self@.bands == old(self)@.emptied().bands,
                forall|k: int| p <= k < count ==> #[trigger] self.points@[k] == old(self).points@[k],
                forall|k: int|
                    0 <= k < p ==> #[trigger] self.points@[k] == blank(
                        old(self).points@[k].hz,
                        old(self).points@[k].fft_size,
                    ),
            decreases count - p,
        {
            let point = self.points[p];
            self.points.set(p, blank(point.hz, point.fft_size));
            p = p + 1;
        }
        assert(self@ =~= old(self)@.emptied());
    }
}

/// Band sizes are even.
proof fn lemma_band_size_even(config: MtwConfig, i: nat, top: nat)
    requires
        config.valid(),
        power2::pow2(top) == config.smallest_fft,
    ensures
        config.band_size(i) == power2::pow2(top + i),
        config.band_size(i) % 2 == 0,
        config.band_size(i) >= 64,
{
    power2::lemma_pow2_adds(top, i);
    power2::lemma2_to64();
    if top == 0 {
        assert(false);
    }
    power2::lemma_pow2_unfold(top + i);
    if i > 0 {
        power2::lemma_pow2_strictly_increases(top, top + i);
    }
}

/// The result is identical whether matched samples arrive in one block or in two.
pub proof fn lemma_push_in_chunks<C: Fn(Calc) -> F32, F: Fn(&[F32]) -> Vec<Complex>>(
    model: MtwModel,
    m: Arith<C>,
    fft: Forward<F>,
    x1: Seq<F32>,
    y1: Seq<F32>,
    x2: Seq<F32>,
    y2: Seq<F32>,
)
    requires
        model.bands.len() >= 1,
        model.matched(),
        x1.len() == y1.len(),
        x2.len() == y2.len(),
    ensures
        model.pushed(m, fft, x1, y1).pushed(m, fft, x2, y2) == model.pushed(
            m,
            fft,
            x1 + x2,
            y1 + y2,
        ),
{
    let twice = model.pushed(m, fft, x1, y1).pushed(m, fft, x2, y2);
    let once = model.pushed(m, fft, x1 + x2, y1 + y2);
    assert forall|i: int| 0 <= i < model.bands.len() implies #[trigger] twice.bands[i]
        == once.bands[i] by {
        assert(model.bands[i].transfer.reference.len()
            == model.bands[i].transfer.measurement.len());
        transfer::lemma_push_in_chunks(model.bands[i].transfer, m, fft, x1, y1, x2, y2);
    }
    assert(twice =~= once);
}

proof fn lemma_first_holding_exists(bands: Seq<BandModel>, hz: F32, from: int, at: int)
    requires
        0 <= from <= at < bands.len(),
        bands[at].holds(hz, at == 0),
    ensures
        first_holding(bands, hz, from) is Some,
    decreases at - from,
{
    if from < at {
        lemma_first_holding_exists(bands, hz, from + 1, at);
    }
}

/// The points of the grid ascend strictly from the lowest frequency, and none lies
/// beyond Nyquist: wherever a step up the grid is a step at all.
pub proof fn lemma_points_ascend<C: Fn(Calc) -> F32>(config: MtwConfig, m: Arith<C>, i: nat, j: nat)
    requires
        config.valid(),
        config.nyquist(m).finite(),
        forall|x: F32|
            config.min_hz.at_most(x) && x.finite() ==> x.less(
                #[trigger] m.times(x, config.grid_step(m)),
            ),
        i <= j,
        forall|k: nat| k <= j ==> #[trigger] config.grid_goes_on(m, k),
    ensures
        i < j ==> config.grid(m, i).less(config.grid(m, j)),
        config.min_hz.at_most(config.grid(m, i)),
        config.grid(m, j).at_most(config.nyquist(m)),
    decreases j,
{
    assert(config.grid_goes_on(m, j));
    if j > 0 {
        let before = (j - 1) as nat;
        assert(config.grid_goes_on(m, before));
        if i < j {
            lemma_points_ascend(config, m, i, before);
        }
        lemma_points_ascend(config, m, before, before);
        assert(config.grid(m, before).finite());
        assert(config.grid(m, before).less(m.times(config.grid(m, before), config.grid_step(m))));
    }
}

/// From DC to Nyquist there is no gap: wherever the band edges are numbers, every
/// frequency has a band that holds it, Nyquist itself not excepted.
pub proof fn lemma_bands_leave_no_gap<C: Fn(Calc) -> F32>(
    config: MtwConfig,
    m: Arith<C>,
    bands: Seq<BandModel>,
    hz: F32,
)
    requires
        bands.len() >= 1,
        forall|i: int|
            0 <= i < bands.len() ==> #[trigger] bands[i] == config.band(m, i as nat, bands.len()),
        forall|i: nat| i < bands.len() ==> !(#[trigger] config.edge(m, i)).nan(),
        num(ZERO).at_most(hz),
        hz.at_most(config.nyquist(m)),
    ensures
        first_holding(bands, hz, 0) is Some,
{
    lemma_some_band_holds(config, m, bands, hz, 0);
}

proof fn lemma_some_band_holds<C: Fn(Calc) -> F32>(
    config: MtwConfig,
    m: Arith<C>,
    bands: Seq<BandModel>,
    hz: F32,
    i: nat,
)
    requires
        i < bands.len(),
        forall|i: int|
            0 <= i < bands.len() ==> #[trigger] bands[i] == config.band(m, i as nat, bands.len()),
        forall|i: nat| i < bands.len() ==> !(#[trigger] config.edge(m, i)).nan(),
        num(ZERO).at_most(hz),
        hz.less(config.edge(m, i)) || (i == 0 && hz.at_most(config.edge(m, 0))),
    ensures
        first_holding(bands, hz, 0) is Some,
    decreases bands.len() - i,
{
    assert(bands[i as int] == config.band(m, i, bands.len()));
    if i + 1 == bands.len() || !hz.less(config.edge(m, i + 1)) {
        assert(!config.edge(m, i).nan());
        assert(i + 1 < bands.len() ==> !config.edge(m, i + 1).nan());
        assert(bands[i as int].holds(hz, i == 0));
        lemma_first_holding_exists(bands, hz, 0, i as int);
    } else {
        lemma_some_band_holds(config, m, bands, hz, i + 1);
    }
}

/// Whether a band is the one that a frequency is read from: the first that reaches from
/// its lower end up to its upper end, which only the top band includes.
pub open spec fn is_read_from(bands: Seq<BandModel>, hz: F32, band: int) -> bool {
    &&& 0 <= band < bands.len()
    &&& bands[band].lower_hz.at_most(hz)
    &&& hz.less(bands[band].upper_hz) || (band == 0 && hz.at_most(bands[band].upper_hz))
    &&& forall|i: int|
        0 <= i < band ==> !((#[trigger] bands[i]).lower_hz.at_most(hz) && (hz.less(
            bands[i].upper_hz,
        ) || (i == 0 && hz.at_most(bands[i].upper_hz))))
}

proof fn lemma_first_holding(bands: Seq<BandModel>, hz: F32, from: int)
    requires
        0 <= from <= bands.len(),
    ensures
        (match first_holding(bands, hz, from) {
            Some(band) => from <= band < bands.len() && bands[band].holds(hz, band == 0) && forall|
                i: int,
            |
                from <= i < band ==> !(#[trigger] bands[i]).holds(hz, i == 0),
            None => forall|i: int|
                from <= i < bands.len() ==> !(#[trigger] bands[i]).holds(hz, i == 0),
        }),
    decreases bands.len() - from,
{
    if from < bands.len() && !bands[from].holds(hz, from == 0) {
        lemma_first_holding(bands, hz, from + 1);
    }
}

/// Whether `k` is the bin at or below a frequency, in a transform of a length, and the
/// next one lies above it.
pub open spec fn encloses<C: Fn(Calc) -> F32>(
    m: Arith<C>,
    sample_rate: F32,
    size: usize,
    hz: F32,
    k: int,
) -> bool {
    let place = m.over(hz, m.over(sample_rate, m.count(size)));
    &&& 0 <= k < usize::MAX
    &&& !place.nan() && !place.negative()
    &&& ieee::whole_value(k) <= place.value() < ieee::whole_value(k + 1)
}

/// The bin after `k`; the last one has none after it.
pub open spec fn above(bins: int, k: int) -> int {
    if k + 1 < bins {
        k + 1
    } else {
        k
    }
}

/// How far a frequency lies above bin `k`, in bins.
pub open spec fn way_up<C: Fn(Calc) -> F32>(
    m: Arith<C>,
    sample_rate: F32,
    size: usize,
    hz: F32,
    k: int,
) -> F32 {
    m.minus(m.over(hz, m.over(sample_rate, m.count(size))), m.count(k as usize))
}

/// A point is read from the band that its frequency lies in, and there from the two bins
/// that enclose it: magnitude, phase and coherence alike are those of the lower bin, taken
/// as far towards the upper one as the frequency lies between them.
pub proof fn lemma_point_is_read_between_its_bins<C: Fn(Calc) -> F32>(
    model: MtwModel,
    m: Arith<C>,
    i: int,
    band: int,
    k: int,
)
    requires
        0 <= i < model.points.len(),
        is_read_from(model.bands, model.points[i].hz, band),
        num(ZERO).less(
            m.over(model.sample_rate, m.count(model.bands[band].transfer.size as usize)),
        ),
        encloses(
            m,
            model.sample_rate,
            model.bands[band].transfer.size as usize,
            model.points[i].hz,
            k,
        ),
        k < model.bands[band].transfer.products.len(),
    ensures
        ({
            let size = model.bands[band].transfer.size as usize;
            let products = model.bands[band].transfer.products;
            let next = above(products.len() as int, k);
            let (a, b) = (transfer::response(&m, products[k]), transfer::response(&m, products[next]));
            let (ca, cb) = (
                transfer::coherence(&m, products[k]),
                transfer::coherence(&m, products[next]),
            );
            let hz = model.points[i].hz;
            let point = model.resolved(m).points[i];
            let part = way_up(m, model.sample_rate, size, hz, k);
            let magnitude = m.plus(m.norm(a), m.times(m.minus(m.norm(b), m.norm(a)), part));
            let angle = m.plus(m.arg(a), m.times(m.arg(m.product(b, a.conj())), part));
            &&& point.hz == hz
            &&& point.fft_size == size
            &&& point.coherence == m.plus(ca, m.times(m.minus(cb, ca), part)).spec_clamp(
                num(ZERO),
                num(ONE),
            )
            &&& point.magnitude_db == if num(ZERO).less(magnitude) {
                m.times(num(TWENTY), m.log10(magnitude)).spec_max(num(MTW_FLOOR_DB))
            } else {
                num(MTW_FLOOR_DB)
            }
            &&& point.phase_degrees == m.minus(
                m.remainder(m.plus(m.degrees(angle), num(HALF_TURN)), num(WHOLE_TURN)),
                num(HALF_TURN),
            )
        }),
{
    let hz = model.points[i].hz;
    lemma_first_holding(model.bands, hz, 0);
    let size = model.bands[band].transfer.size as usize;
    let place = m.over(hz, m.over(model.sample_rate, m.count(size)));
    lemma_enclosing_bin(place, k);
    assert(model.bands[band].holds(hz, band == 0));
    assert(first_holding(model.bands, hz, 0) == Some(band));
}

proof fn lemma_enclosing_bin(place: F32, k: int)
    requires
        0 <= k,
        !place.nan(),
        !place.negative(),
        ieee::whole_value(k) <= place.value() < ieee::whole_value(k + 1),
    ensures
        place.floor_int() == k,
{
    ieee::lemma_floor_not_negative(place);
    ieee::lemma_rounded(place, k);
    ieee::lemma_rounded(place, k + 1);
}

/// At the frequency of a bin, where there is no way up to go and so nothing of the next
/// bin to add, a point has that bin's response and coherence.
pub proof fn lemma_point_at_a_bin<C: Fn(Calc) -> F32>(
    model: MtwModel,
    m: Arith<C>,
    i: int,
    band: int,
    k: int,
)
    requires
        0 <= i < model.points.len(),
        is_read_from(model.bands, model.points[i].hz, band),
        num(ZERO).less(
            m.over(model.sample_rate, m.count(model.bands[band].transfer.size as usize)),
        ),
        encloses(
            m,
            model.sample_rate,
            model.bands[band].transfer.size as usize,
            model.points[i].hz,
            k,
        ),
        k < model.bands[band].transfer.products.len(),
        ({
            let size = model.bands[band].transfer.size as usize;
            let products = model.bands[band].transfer.products;
            let next = above(products.len() as int, k);
            let (a, b) = (transfer::response(&m, products[k]), transfer::response(&m, products[next]));
            let (ca, cb) = (
                transfer::coherence(&m, products[k]),
                transfer::coherence(&m, products[next]),
            );
            let part = way_up(m, model.sample_rate, size, model.points[i].hz, k);
            &&& m.plus(ca, m.times(m.minus(cb, ca), part)) == ca
            &&& m.plus(m.norm(a), m.times(m.minus(m.norm(b), m.norm(a)), part)) == m.norm(a)
            &&& m.plus(m.arg(a), m.times(m.arg(m.product(b, a.conj())), part)) == m.arg(a)
        }),
    ensures
        ({
            let product = model.bands[band].transfer.products[k];
            let response = transfer::response(&m, product);
            let point = model.resolved(m).points[i];
            &&& point.coherence == transfer::coherence(&m, product).spec_clamp(num(ZERO), num(ONE))
            &&& num(ZERO).less(m.norm(response)) ==> point.magnitude_db == m.times(
                num(TWENTY),
                m.log10(m.norm(response)),
            ).spec_max(num(MTW_FLOOR_DB))
            &&& point.phase_degrees == m.minus(
                m.remainder(
                    m.plus(m.degrees(m.arg(response)), num(HALF_TURN)),
                    num(WHOLE_TURN),
                ),
                num(HALF_TURN),
            )
        }),
{
    lemma_point_is_read_between_its_bins(model, m, i, band, k);
}

/// Between two bins, coherence lies between theirs, wherever a mix of the two does.
pub proof fn lemma_coherence_lies_between<C: Fn(Calc) -> F32>(
    model: MtwModel,
    m: Arith<C>,
    i: int,
    band: int,
    k: int,
)
    requires
        0 <= i < model.points.len(),
        is_read_from(model.bands, model.points[i].hz, band),
        num(ZERO).less(
            m.over(model.sample_rate, m.count(model.bands[band].transfer.size as usize)),
        ),
        encloses(
            m,
            model.sample_rate,
            model.bands[band].transfer.size as usize,
            model.points[i].hz,
            k,
        ),
        k < model.bands[band].transfer.products.len(),
        ({
            let size = model.bands[band].transfer.size as usize;
            let products = model.bands[band].transfer.products;
            let next = above(products.len() as int, k);
            let (ca, cb) = (
                transfer::coherence(&m, products[k]),
                transfer::coherence(&m, products[next]),
            );
            let part = way_up(m, model.sample_rate, size, model.points[i].hz, k);
            let mixed = m.plus(ca, m.times(m.minus(cb, ca), part));
            &&& ca.at_most(cb) ==> ca.at_most(mixed) && mixed.at_most(cb)
            &&& cb.at_most(ca) ==> cb.at_most(mixed) && mixed.at_most(ca)
        }),
    ensures
        ({
            let products = model.bands[band].transfer.products;
            let next = above(products.len() as int, k);
            let (ca, cb) = (
                transfer::coherence(&m, products[k]),
                transfer::coherence(&m, products[next]),
            );
            let point = model.resolved(m).points[i];
            &&& num(ZERO).at_most(ca) && ca.at_most(cb) && cb.at_most(num(ONE)) ==> ca.at_most(
                point.coherence,
            ) && point.coherence.at_most(cb)
            &&& num(ZERO).at_most(cb) && cb.at_most(ca) && ca.at_most(num(ONE)) ==> cb.at_most(
                point.coherence,
            ) && point.coherence.at_most(ca)
        }),
{
    lemma_point_is_read_between_its_bins(model, m, i, band, k);
}

/// A point depends on the two bins that enclose its frequency in the band that holds it,
/// and on no other bin of any band.
pub proof fn lemma_point_depends_on_its_bins<C: Fn(Calc) -> F32>(
    model: MtwModel,
    other: MtwModel,
    m: Arith<C>,
    i: int,
    band: int,
    k: int,
)
    requires
        0 <= i < model.points.len(),
        other.points == model.points,
        other.sample_rate == model.sample_rate,
        other.bands.len() == model.bands.len(),
        forall|j: int|
            0 <= j < model.bands.len() ==> (#[trigger] other.bands[j]).lower_hz
                == model.bands[j].lower_hz && other.bands[j].upper_hz == model.bands[j].upper_hz,
        is_read_from(model.bands, model.points[i].hz, band),
        other.bands[band].transfer.size == model.bands[band].transfer.size,
        encloses(
            m,
            model.sample_rate,
            model.bands[band].transfer.size as usize,
            model.points[i].hz,
            k,
        ),
        k < model.bands[band].transfer.products.len(),
        other.bands[band].transfer.products.len() == model.bands[band].transfer.products.len(),
        other.bands[band].transfer.products[k] == model.bands[band].transfer.products[k],
        k + 1 < model.bands[band].transfer.products.len() ==> other.bands[band].transfer.products[k
            + 1] == model.bands[band].transfer.products[k + 1],
    ensures
        other.resolved(m).points[i] == model.resolved(m).points[i],
{
    let hz = model.points[i].hz;
    lemma_first_holding(model.bands, hz, 0);
    lemma_first_holding(other.bands, hz, 0);
    assert(model.bands[band].holds(hz, band == 0));
    assert(other.bands[band].holds(hz, band == 0));
    assert forall|j: int| 0 <= j < band implies !(#[trigger] other.bands[j]).holds(hz, j == 0) by {
        assert(!model.bands[j].holds(hz, j == 0));
    }
    let size = model.bands[band].transfer.size as usize;
    let place = m.over(hz, m.over(model.sample_rate, m.count(size)));
    lemma_enclosing_bin(place, k);
}

/// A frequency that no band holds keeps the point that it had.
pub proof fn lemma_point_outside_stays<C: Fn(Calc) -> F32>(model: MtwModel, m: Arith<C>, i: int)
    requires
        0 <= i < model.points.len(),
        forall|j: int|
            0 <= j < model.bands.len() ==> !((#[trigger] model.bands[j]).lower_hz.at_most(
                model.points[i].hz,
            ) && model.points[i].hz.at_most(model.bands[j].upper_hz)),
    ensures
        model.resolved(m).points[i] == model.points[i],
{
    lemma_first_holding(model.bands, model.points[i].hz, 0);
    match first_holding(model.bands, model.points[i].hz, 0) {
        Some(band) => {
            assert(model.bands[band].holds(model.points[i].hz, band == 0));
        },
        None => {},
    }
}

/// Bands are built from the top down: each has twice the transform of the one above, and
/// reaches from half of where that one reaches from, which is where it ends. The first
/// ends at half the sample rate; the last goes all the way down.
pub proof fn lemma_bands_halve<C: Fn(Calc) -> F32>(config: MtwConfig, m: Arith<C>, i: nat, count: nat)
    requires
        i < count,
    ensures
        config.band(m, 0, count).upper_hz == m.over(config.sample_rate, num(TWO)),
        config.band_size(0) == config.smallest_fft,
        i + 1 < count ==> config.band_size(i + 1) == 2 * config.band_size(i),
        i + 1 < count ==> config.band(m, i + 1, count).upper_hz == m.over(
            config.band(m, i, count).upper_hz,
            num(TWO),
        ),
        i + 1 < count ==> config.band(m, i, count).lower_hz == config.band(
            m,
            i + 1,
            count,
        ).upper_hz,
        i + 1 == count ==> config.band(m, i, count).lower_hz == num(ZERO),
        config.band(m, i, count).transfer.size == config.band_size(i) as usize,
        config.band(m, i, count).transfer.averaging == config.averaging,
{
    power2::lemma2_to64();
    power2::lemma_pow2_unfold(i + 1);
    let (size, one, two) = (
        config.smallest_fft as int,
        power2::pow2(i) as int,
        power2::pow2(i + 1) as int,
    );
    assert(size * two == 2 * (size * one)) by (nonlinear_arith)
        requires
            two == 2 * one,
    ;
}

/// The grid begins at the lowest frequency, and each point is one step above the one
/// before it: as many steps to the octave as it has points.
pub proof fn lemma_grid_steps<C: Fn(Calc) -> F32>(config: MtwConfig, m: Arith<C>, i: nat)
    ensures
        config.grid(m, 0) == config.min_hz,
        config.grid(m, i + 1) == m.times(
            config.grid(m, i),
            m.power(num(TWO), m.over(num(ONE), m.count(config.points_per_octave))),
        ),
{
}

/// Samples go to every band alike, and the bands keep to their ranges.
pub proof fn lemma_every_band_is_fed<C: Fn(Calc) -> F32, F: Fn(&[F32]) -> Vec<Complex>>(
    model: MtwModel,
    m: Arith<C>,
    fft: Forward<F>,
    reference: Seq<F32>,
    measurement: Seq<F32>,
    i: int,
)
    requires
        0 <= i < model.bands.len(),
    ensures
        ({
            let after = model.pushed(m, fft, reference, measurement);
            &&& after.bands.len() == model.bands.len()
            &&& after.bands[i].transfer == model.bands[i].transfer.pushed(
                m,
                fft,
                reference,
                measurement,
            )
            &&& after.bands[i].lower_hz == model.bands[i].lower_hz
            &&& after.bands[i].upper_hz == model.bands[i].upper_hz
            &&& after.points == model.points
            &&& after.frames == after.bands[model.bands.len() - 1].transfer.frames
        }),
{
}

/// After a reset nothing of what was fed is left: every point stands where it did, at the
/// floor and without phase or coherence.
pub proof fn lemma_reset_forgets<C: Fn(Calc) -> F32, F: Fn(&[F32]) -> Vec<Complex>>(
    model: MtwModel,
    m: Arith<C>,
    fft: Forward<F>,
    reference: Seq<F32>,
    measurement: Seq<F32>,
)
    ensures
        model.pushed(m, fft, reference, measurement).emptied() == model.emptied(),
        model.emptied().frames == 0,
        model.emptied().points.len() == model.points.len(),
        forall|i: int|
            0 <= i < model.points.len() ==> {
                let point = #[trigger] model.emptied().points[i];
                &&& point.hz == model.points[i].hz
                &&& point.fft_size == model.points[i].fft_size
                &&& point.magnitude_db == num(MTW_FLOOR_DB)
                &&& point.phase_degrees == num(ZERO)
                &&& point.coherence == num(ZERO)
            },
        forall|i: int|
            0 <= i < model.bands.len() ==> (#[trigger] model.emptied().bands[i]).transfer.frames
                == 0 && model.emptied().bands[i].lower_hz == model.bands[i].lower_hz
                && model.emptied().bands[i].upper_hz == model.bands[i].upper_hz,
{
    let fed = model.pushed(m, fft, reference, measurement);
    assert forall|i: int| 0 <= i < model.bands.len() implies #[trigger] fed.emptied().bands[i]
        == model.emptied().bands[i] by {
        transfer::lemma_pushing_keeps_setup(
            model.bands[i].transfer,
            m,
            fft,
            reference,
            measurement,
        );
        assert(fed.bands[i].transfer.emptied() =~= model.bands[i].transfer.emptied());
    }
    assert(fed.emptied().bands =~= model.emptied().bands);
    assert(fed.emptied().points =~= model.emptied().points);
}

} // verus!
