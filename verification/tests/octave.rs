//! Fractional-octave bands, through the single-precision numbers they stand for.

use analyzer::arith::{Arith, Calc, Complex, Wide, WideArith};
use analyzer::dsp::fft::Forward;
use analyzer::dsp::octave::BAND_FLOOR_DB as FLOOR;
use analyzer::dsp::octave::OCTAVE_RATIO as RATIO;
use analyzer::dsp::{generator, octave, spectrum, window};
use analyzer::ieee::{F32, F64};
use realfft::RealFftPlanner;
use std::cell::RefCell;

/// The bit pattern of `x`.
pub fn number(x: f32) -> F32 {
    F32 { bits: x.to_bits() }
}

/// The number with the bit pattern `x`.
pub fn float(x: F32) -> f32 {
    f32::from_bits(x.bits)
}

/// The bit patterns of `xs`.
pub fn numbers(xs: &[f32]) -> Vec<F32> {
    xs.iter().copied().map(number).collect()
}

/// The numbers with the bit patterns `xs`.
pub fn floats(xs: &[F32]) -> Vec<f32> {
    xs.iter().copied().map(float).collect()
}

/// One step of single-precision arithmetic, by the machine's own operations.
pub fn calculate(step: Calc) -> F32 {
    number(match step {
        Calc::Plus(a, b) => float(a) + float(b),
        Calc::Minus(a, b) => float(a) - float(b),
        Calc::Times(a, b) => float(a) * float(b),
        Calc::Over(a, b) => float(a) / float(b),
        Calc::Root(a) => float(a).sqrt(),
        Calc::Sine(a) => float(a).sin(),
        Calc::Cosine(a) => float(a).cos(),
        Calc::Tangent(a) => float(a).tan(),
        Calc::Exp(a) => float(a).exp(),
        Calc::Ln(a) => float(a).ln(),
        Calc::Log2(a) => float(a).log2(),
        Calc::Log10(a) => float(a).log10(),
        Calc::Power(a, b) => float(a).powf(float(b)),
        Calc::Hypot(a, b) => float(a).hypot(float(b)),
        Calc::Angle(a, b) => float(a).atan2(float(b)),
        Calc::Degrees(a) => float(a).to_degrees(),
        Calc::Remainder(a, b) => float(a).rem_euclid(float(b)),
        Calc::Floor(a) => float(a).floor(),
        Calc::Count(n) => n as f32,
        Calc::Whole(n) => n as f32,
        Calc::Narrow(a) => double(a) as f32,
    })
}

/// The number with the bit pattern `x`.
pub fn double(x: F64) -> f64 {
    f64::from_bits(x.bits)
}

/// Single-precision arithmetic.
pub type Single = Arith<fn(Calc) -> F32>;

/// The machine's single-precision arithmetic.
pub fn single() -> Single {
    Arith::new(calculate)
}

/// The bit pattern of `x`.
pub fn wide_number(x: f64) -> F64 {
    F64 { bits: x.to_bits() }
}

/// One step of double-precision arithmetic, by the machine's own operations.
pub fn calculate_wide(step: Wide) -> F64 {
    wide_number(match step {
        Wide::Plus(a, b) => double(a) + double(b),
        Wide::Minus(a, b) => double(a) - double(b),
        Wide::Times(a, b) => double(a) * double(b),
        Wide::Over(a, b) => double(a) / double(b),
        Wide::Root(a) => double(a).sqrt(),
        Wide::Sine(a) => double(a).sin(),
        Wide::Exp(a) => double(a).exp(),
        Wide::Ln(a) => double(a).ln(),
        Wide::Count(n) => n as f64,
        Wide::Widen(a) => f64::from(float(a)),
    })
}

/// Double-precision arithmetic.
pub type Precise = WideArith<fn(Wide) -> F64>;

/// The machine's double-precision arithmetic.
pub fn precise() -> Precise {
    WideArith::new(calculate_wide)
}

/// A forward transform of real frames.
pub type ForwardFft = Forward<Box<dyn Fn(&[F32]) -> Vec<Complex> + Send>>;

/// The forward transform of `realfft`, which keeps the plans it has made.
pub fn forward() -> ForwardFft {
    let planner = RefCell::new(RealFftPlanner::<f32>::new());
    Forward::new(Box::new(move |frame: &[F32]| {
        let plan = planner.borrow_mut().plan_fft_forward(frame.len());
        let mut input = floats(frame);
        let mut output = plan.make_output_vec();
        plan.process(&mut input, &mut output).expect("buffers match the plan");
        output.iter().map(|z| Complex { re: number(z.re), im: number(z.im) }).collect()
    }))
}

/// A window shape.
#[derive(Debug, Clone, Copy, PartialEq)]
pub enum WindowKind {
    Rectangular,
    Hann,
    BlackmanHarris,
    FlatTop,
    Tukey { alpha: f32 },
}

impl From<WindowKind> for window::WindowKind {
    fn from(kind: WindowKind) -> Self {
        match kind {
            WindowKind::Rectangular => Self::Rectangular,
            WindowKind::Hann => Self::Hann,
            WindowKind::BlackmanHarris => Self::BlackmanHarris,
            WindowKind::FlatTop => Self::FlatTop,
            WindowKind::Tukey { alpha } => Self::Tukey { alpha: number(alpha) },
        }
    }
}

impl From<window::WindowKind> for WindowKind {
    fn from(kind: window::WindowKind) -> Self {
        match kind {
            window::WindowKind::Rectangular => Self::Rectangular,
            window::WindowKind::Hann => Self::Hann,
            window::WindowKind::BlackmanHarris => Self::BlackmanHarris,
            window::WindowKind::FlatTop => Self::FlatTop,
            window::WindowKind::Tukey { alpha } => Self::Tukey { alpha: float(alpha) },
        }
    }
}

/// How much consecutive frames overlap.
#[derive(Debug, Clone, Copy, PartialEq, Eq)]
pub enum Overlap {
    Off,
    Half,
    ThreeQuarters,
    SevenEighths,
}

impl From<Overlap> for spectrum::Overlap {
    fn from(overlap: Overlap) -> Self {
        match overlap {
            Overlap::Off => Self::Off,
            Overlap::Half => Self::Half,
            Overlap::ThreeQuarters => Self::ThreeQuarters,
            Overlap::SevenEighths => Self::SevenEighths,
        }
    }
}

impl Overlap {
    pub fn hop(self, size: usize) -> usize {
        spectrum::Overlap::from(self).hop(size)
    }

    pub fn fraction(self) -> f32 {
        float(spectrum::Overlap::from(self).fraction())
    }
}

/// How successive frames are combined.
#[derive(Debug, Clone, Copy, PartialEq)]
pub enum Averaging {
    Off,
    Exponential { alpha: f32 },
    Linear { frames: u32 },
    Infinite,
    PeakHold,
}

impl From<Averaging> for spectrum::Averaging {
    fn from(averaging: Averaging) -> Self {
        match averaging {
            Averaging::Off => Self::Off,
            Averaging::Exponential { alpha } => Self::Exponential { alpha: number(alpha) },
            Averaging::Linear { frames } => Self::Linear { frames },
            Averaging::Infinite => Self::Infinite,
            Averaging::PeakHold => Self::PeakHold,
        }
    }
}

impl From<spectrum::Averaging> for Averaging {
    fn from(averaging: spectrum::Averaging) -> Self {
        match averaging {
            spectrum::Averaging::Off => Self::Off,
            spectrum::Averaging::Exponential { alpha } => Self::Exponential { alpha: float(alpha) },
            spectrum::Averaging::Linear { frames } => Self::Linear { frames },
            spectrum::Averaging::Infinite => Self::Infinite,
            spectrum::Averaging::PeakHold => Self::PeakHold,
        }
    }
}

impl Averaging {
    pub fn exponential_over(seconds: f32, frames_per_second: f32) -> Self {
        spectrum::Averaging::exponential_over(
            &single(),
            number(seconds),
            number(frames_per_second),
        )
        .into()
    }
}

/// How a spectrum is measured.
#[derive(Debug, Clone, Copy, PartialEq)]
pub struct SpectrumConfig {
    pub sample_rate: f32,
    pub size: usize,
    pub window: WindowKind,
    pub overlap: Overlap,
    pub averaging: Averaging,
}

impl From<SpectrumConfig> for spectrum::SpectrumConfig {
    fn from(config: SpectrumConfig) -> Self {
        Self {
            sample_rate: number(config.sample_rate),
            size: config.size,
            window: config.window.into(),
            overlap: config.overlap.into(),
            averaging: config.averaging.into(),
        }
    }
}

/// A running spectrum of one channel.
pub struct SpectrumAnalyzer {
    inner: spectrum::SpectrumAnalyzer,
    fft: ForwardFft,
    power: Vec<f32>,
}

impl SpectrumAnalyzer {
    pub fn new(config: SpectrumConfig) -> Self {
        let config = spectrum::SpectrumConfig::from(config);
        assert!(config.is_valid(), "FFT size must be even, sample rate positive");
        let inner = spectrum::SpectrumAnalyzer::new(&single(), config);
        let power = floats(inner.power());
        Self { inner, fft: forward(), power }
    }

    pub fn push(&mut self, samples: &[f32]) -> usize {
        let produced = self.inner.push(&single(), &self.fft, &numbers(samples));
        self.power = floats(self.inner.power());
        produced
    }

    pub fn power(&self) -> &[f32] {
        &self.power
    }

    pub fn write_db_fs(&self, out: &mut [f32]) {
        assert_eq!(out.len(), self.bins(), "output length must equal the bin count");
        let mut levels = numbers(out);
        self.inner.write_db_fs(&single(), &mut levels);
        out.copy_from_slice(&floats(&levels));
    }

    pub fn reset(&mut self) {
        self.inner.reset();
        self.power = floats(self.inner.power());
    }

    pub fn set_averaging(&mut self, averaging: Averaging) {
        self.inner.set_averaging(averaging.into());
        self.power = floats(self.inner.power());
    }

    pub fn frames(&self) -> u32 {
        self.inner.frames()
    }

    pub fn bins(&self) -> usize {
        self.inner.bins()
    }

    pub fn size(&self) -> usize {
        self.inner.size()
    }

    pub fn hop(&self) -> usize {
        self.inner.hop()
    }

    pub fn frame_rate(&self) -> f32 {
        float(self.inner.frame_rate(&single()))
    }

    pub fn bin_spacing_hz(&self) -> f32 {
        float(self.inner.bin_spacing_hz(&single()))
    }

    pub fn bin_frequency(&self, k: usize) -> f32 {
        float(self.inner.bin_frequency(&single(), k))
    }

    pub fn enbw_hz(&self) -> f32 {
        float(self.inner.enbw_hz(&single()))
    }
}

/// One frequency band.
#[derive(Debug, Clone, Copy, PartialEq)]
pub struct Band {
    pub centre_hz: f32,
    pub lower_hz: f32,
    pub upper_hz: f32,
}

impl From<&octave::Band> for Band {
    fn from(band: &octave::Band) -> Self {
        Self {
            centre_hz: float(band.centre_hz),
            lower_hz: float(band.lower_hz),
            upper_hz: float(band.upper_hz),
        }
    }
}

impl From<&Band> for octave::Band {
    fn from(band: &Band) -> Self {
        Self {
            centre_hz: number(band.centre_hz),
            lower_hz: number(band.lower_hz),
            upper_hz: number(band.upper_hz),
        }
    }
}

impl Band {
    pub fn width_hz(&self) -> f32 {
        float(octave::Band::from(self).width_hz(&single()))
    }

    pub fn nominal_hz(&self) -> f32 {
        float(octave::Band::from(self).nominal_hz(&single()))
    }
}

/// A bank of fractional-octave bands.
#[derive(Debug)]
pub struct OctaveBands {
    inner: octave::OctaveBands,
    bands: Vec<Band>,
}

impl OctaveBands {
    fn over(inner: octave::OctaveBands) -> Self {
        let bands = inner.bands().iter().map(Band::from).collect();
        Self { inner, bands }
    }

    pub fn new(fraction: u32, min_hz: f32, max_hz: f32) -> Self {
        assert!(fraction > 0, "fraction must be at least 1");
        assert!(
            min_hz > 0.0 && max_hz > min_hz,
            "need 0 < min_hz < max_hz, got {min_hz}..{max_hz}"
        );
        let (low, high) = (number(min_hz), number(max_hz));
        Self::over(octave::OctaveBands::new(&single(), fraction, low, high))
    }

    pub fn third_octave() -> Self {
        Self::over(octave::OctaveBands::third_octave(&single()))
    }

    pub fn bands(&self) -> &[Band] {
        &self.bands
    }

    pub fn len(&self) -> usize {
        self.inner.len()
    }

    pub fn is_empty(&self) -> bool {
        self.inner.is_empty()
    }

    pub fn fraction(&self) -> u32 {
        self.inner.fraction()
    }

    pub fn is_resolvable(&self, index: usize, bin_spacing_hz: f32) -> bool {
        self.inner.is_resolvable(&single(), index, number(bin_spacing_hz))
    }

    pub fn first_resolvable(&self, bin_spacing_hz: f32) -> Option<usize> {
        self.inner.first_resolvable(&single(), number(bin_spacing_hz))
    }

    pub fn apply(&self, bins_db: &[f32], bin_spacing_hz: f32, out: &mut [f32]) {
        assert_eq!(out.len(), self.len(), "output length must equal the band count");
        let mut levels = numbers(out);
        self.inner.apply(&single(), &numbers(bins_db), number(bin_spacing_hz), &mut levels);
        out.copy_from_slice(&floats(&levels));
    }
}

/// What a generator plays.
#[derive(Debug, Clone, Copy, PartialEq)]
pub enum Signal {
    Silence,
    Sine { hz: f32, amplitude: f32 },
    WhiteNoise { amplitude: f32 },
    PinkNoise { amplitude: f32 },
    Sweep { start_hz: f32, end_hz: f32, seconds: f32, amplitude: f32, repeat: bool },
}

impl From<Signal> for generator::Signal {
    fn from(signal: Signal) -> Self {
        match signal {
            Signal::Silence => Self::Silence,
            Signal::Sine { hz, amplitude } => {
                Self::Sine { hz: number(hz), amplitude: number(amplitude) }
            }
            Signal::WhiteNoise { amplitude } => Self::WhiteNoise { amplitude: number(amplitude) },
            Signal::PinkNoise { amplitude } => Self::PinkNoise { amplitude: number(amplitude) },
            Signal::Sweep { start_hz, end_hz, seconds, amplitude, repeat } => Self::Sweep {
                start_hz: number(start_hz),
                end_hz: number(end_hz),
                seconds: number(seconds),
                amplitude: number(amplitude),
                repeat,
            },
        }
    }
}

impl From<generator::Signal> for Signal {
    fn from(signal: generator::Signal) -> Self {
        match signal {
            generator::Signal::Silence => Self::Silence,
            generator::Signal::Sine { hz, amplitude } => {
                Self::Sine { hz: float(hz), amplitude: float(amplitude) }
            }
            generator::Signal::WhiteNoise { amplitude } => {
                Self::WhiteNoise { amplitude: float(amplitude) }
            }
            generator::Signal::PinkNoise { amplitude } => {
                Self::PinkNoise { amplitude: float(amplitude) }
            }
            generator::Signal::Sweep { start_hz, end_hz, seconds, amplitude, repeat } => {
                Self::Sweep {
                    start_hz: float(start_hz),
                    end_hz: float(end_hz),
                    seconds: float(seconds),
                    amplitude: float(amplitude),
                    repeat,
                }
            }
        }
    }
}

/// A source of test signals.
pub struct Generator {
    inner: generator::Generator,
    samples: Vec<F32>,
}

impl Generator {
    pub fn new(sample_rate: f32, signal: Signal, seed: u64) -> Self {
        assert!(sample_rate > 0.0, "sample rate must be positive, got {sample_rate}");
        Self {
            inner: generator::Generator::new(&precise(), number(sample_rate), signal.into(), seed),
            samples: Vec::new(),
        }
    }

    pub fn set_signal(&mut self, signal: Signal) {
        self.inner.set_signal(signal.into());
    }

    pub fn signal(&self) -> Signal {
        self.inner.signal().into()
    }

    pub fn reset(&mut self) {
        self.inner.reset();
    }

    pub fn is_finished(&self) -> bool {
        self.inner.is_finished()
    }

    pub fn fill(&mut self, out: &mut [f32]) {
        self.samples.clear();
        self.samples.resize(out.len(), number(0.0));
        self.inner.fill(&single(), &precise(), &mut self.samples);
        for (slot, sample) in out.iter_mut().zip(&self.samples) {
            *slot = float(*sample);
        }
    }
}

const BAND_FLOOR_DB: f32 = f32::from_bits(FLOOR);

const OCTAVE_RATIO: f32 = f32::from_bits(RATIO);

const RATE: f32 = 48_000.0;
const SIZE: usize = 8192;

#[test]
fn full_octave_centres_match_the_published_series() {
    let bands = OctaveBands::new(1, 20.0, 20_000.0);
    let nominal: Vec<f32> = bands.bands().iter().map(Band::nominal_hz).collect();
    assert_eq!(
        nominal,
        vec![
            31.5, 63.0, 125.0, 250.0, 500.0, 1000.0, 2000.0, 4000.0, 8000.0, 16_000.0
        ]
    );
}

#[test]
fn third_octave_centres_match_the_published_series() {
    let bands = OctaveBands::third_octave();
    let nominal: Vec<f32> = bands.bands().iter().map(Band::nominal_hz).collect();
    assert_eq!(
        nominal,
        vec![
            20.0, 25.0, 31.5, 40.0, 50.0, 63.0, 80.0, 100.0, 125.0, 160.0, 200.0, 250.0, 315.0,
            400.0, 500.0, 630.0, 800.0, 1000.0, 1250.0, 1600.0, 2000.0, 2500.0, 3150.0, 4000.0,
            5000.0, 6300.0, 8000.0, 10_000.0, 12_500.0, 16_000.0, 20_000.0
        ]
    );
}

#[test]
fn odd_fractions_centre_a_band_on_one_kilohertz() {
    for fraction in [1_u32, 3, 5] {
        let bands = OctaveBands::new(fraction, 900.0, 1100.0);
        assert!(
            bands
                .bands()
                .iter()
                .any(|b| (b.centre_hz - 1000.0).abs() < 0.1),
            "1/{fraction} octave should have a band at 1 kHz"
        );
    }
}

#[test]
fn even_fractions_straddle_one_kilohertz() {
    let bands = OctaveBands::new(6, 900.0, 1100.0);
    assert!(
        !bands
            .bands()
            .iter()
            .any(|b| (b.centre_hz - 1000.0).abs() < 1.0),
        "1/6 octave should straddle 1 kHz, not centre on it"
    );
    assert!(
        bands
            .bands()
            .iter()
            .any(|b| (b.lower_hz - 1000.0).abs() < 5.0 || (b.upper_hz - 1000.0).abs() < 5.0)
    );
}

#[test]
fn adjacent_bands_meet_without_gaps_or_overlap() {
    for fraction in [1_u32, 3, 6, 12, 24] {
        let bands = OctaveBands::new(fraction, 50.0, 10_000.0);
        for pair in bands.bands().windows(2) {
            let gap = (pair[1].lower_hz - pair[0].upper_hz).abs();
            assert!(
                gap < pair[0].upper_hz * 1e-4,
                "1/{fraction}: gap of {gap} Hz between {} and {}",
                pair[0].centre_hz,
                pair[1].centre_hz
            );
        }
    }
}

#[test]
fn band_width_follows_the_fraction() {
    for fraction in [1_u32, 3, 6, 12] {
        let bands = OctaveBands::new(fraction, 900.0, 1200.0);
        let band = bands.bands().first().unwrap();
        let ratio = band.upper_hz / band.lower_hz;
        let expected = OCTAVE_RATIO.powf(1.0 / fraction as f32);
        assert!(
            (ratio - expected).abs() < 1e-4,
            "1/{fraction}: ratio {ratio}, expected {expected}"
        );
    }
}

#[test]
fn pink_noise_is_flat_across_octave_bands() {
    let mut generator = Generator::new(RATE, Signal::PinkNoise { amplitude: 0.5 }, 1);
    let mut samples = vec![0.0; SIZE * 32];
    generator.fill(&mut samples);

    let mut analyzer = SpectrumAnalyzer::new(SpectrumConfig {
        sample_rate: RATE,
        size: SIZE,
        window: WindowKind::Hann,
        overlap: Overlap::Half,
        averaging: Averaging::Infinite,
    });
    analyzer.push(&samples);
    let mut bins = vec![0.0; analyzer.bins()];
    analyzer.write_db_fs(&mut bins);

    let bands = OctaveBands::new(1, 63.0, 8000.0);
    let mut levels = vec![0.0; bands.len()];
    bands.apply(&bins, analyzer.bin_spacing_hz(), &mut levels);

    let mean: f32 = levels.iter().sum::<f32>() / levels.len() as f32;
    for (index, level) in levels.iter().enumerate() {
        assert!(
            (level - mean).abs() < 1.5,
            "band {index} at {:.0} Hz read {level:.1}, mean {mean:.1}",
            bands.bands()[index].nominal_hz()
        );
    }
}

#[test]
fn white_noise_rises_three_decibels_per_octave_band() {
    let mut generator = Generator::new(RATE, Signal::WhiteNoise { amplitude: 0.5 }, 2);
    let mut samples = vec![0.0; SIZE * 32];
    generator.fill(&mut samples);

    let mut analyzer = SpectrumAnalyzer::new(SpectrumConfig {
        sample_rate: RATE,
        size: SIZE,
        window: WindowKind::Hann,
        overlap: Overlap::Half,
        averaging: Averaging::Infinite,
    });
    analyzer.push(&samples);
    let mut bins = vec![0.0; analyzer.bins()];
    analyzer.write_db_fs(&mut bins);

    let bands = OctaveBands::new(1, 125.0, 8000.0);
    let mut levels = vec![0.0; bands.len()];
    bands.apply(&bins, analyzer.bin_spacing_hz(), &mut levels);

    for pair in levels.windows(2) {
        let step = pair[1] - pair[0];
        assert!(
            (step - 3.0).abs() < 0.7,
            "expected +3 dB per octave, got {step:.2}"
        );
    }
}

#[test]
fn band_power_sums_rather_than_averaging_decibels() {
    let spacing = 10.0_f32;
    let mut bins = vec![BAND_FLOOR_DB; 50];
    bins[10] = -20.0;
    bins[11] = -20.0;

    let bands = OctaveBands::new(1, 90.0, 130.0);
    let mut levels = vec![0.0; bands.len()];
    bands.apply(&bins, spacing, &mut levels);

    assert!(
        (levels[0] - -16.9897).abs() < 0.01,
        "two equal bins should sum to +3 dB, got {}",
        levels[0]
    );
}

#[test]
fn narrow_bands_are_reported_as_unresolvable() {
    let bands = OctaveBands::third_octave();
    let spacing = 48_000.0 / 4096.0;

    assert!(
        !bands.is_resolvable(0, spacing),
        "20 Hz third-octave is 4.6 Hz wide"
    );
    assert!(
        !bands.is_resolvable(1, spacing),
        "25 Hz third-octave is 5.8 Hz wide"
    );

    let first = bands.first_resolvable(spacing).unwrap();
    assert!(
        first > 0,
        "some low bands must be unresolvable at this spacing"
    );
    for index in first..bands.len() {
        assert!(
            bands.is_resolvable(index, spacing),
            "band {index} should be resolvable once the first one is"
        );
    }
    assert!(bands.is_resolvable(0, 48_000.0 / 65_536.0));
}

#[test]
fn unresolvable_bands_still_produce_a_finite_number() {
    let bands = OctaveBands::third_octave();
    let spacing = 48_000.0 / 4096.0;
    let bins = vec![-40.0_f32; 2049];
    let mut levels = vec![0.0; bands.len()];
    bands.apply(&bins, spacing, &mut levels);
    assert!(levels.iter().all(|l| l.is_finite()));
    assert!(
        (levels[0] - -40.0).abs() < 0.1,
        "nearest bin should be used"
    );
}

#[test]
fn dc_is_excluded_from_the_lowest_band() {
    let mut bins = vec![-90.0_f32; 100];
    bins[0] = 40.0;
    let bands = OctaveBands::new(1, 20.0, 200.0);
    let mut levels = vec![0.0; bands.len()];
    bands.apply(&bins, 10.0, &mut levels);
    assert!(
        levels.iter().all(|l| *l < -60.0),
        "DC leaked into a band: {levels:?}"
    );
}

#[test]
fn degenerate_input_floors_rather_than_panicking() {
    let bands = OctaveBands::third_octave();
    let mut levels = vec![0.0; bands.len()];

    bands.apply(&[], 11.7, &mut levels);
    assert!(levels.iter().all(|l| *l <= BAND_FLOOR_DB + 1e-3));

    bands.apply(&vec![-40.0; 100], 0.0, &mut levels);
    assert!(levels.iter().all(|l| *l <= BAND_FLOOR_DB + 1e-3));
}

#[test]
fn finer_fractions_produce_more_bands() {
    let mut previous = 0;
    for fraction in [1_u32, 3, 6, 12, 24, 48] {
        let count = OctaveBands::new(fraction, 20.0, 20_000.0).len();
        assert!(count > previous, "1/{fraction} gave {count} bands");
        previous = count;
    }
}

#[test]
fn bands_ascend_and_are_exact() {
    let bands = OctaveBands::new(3, 20.0, 20_000.0);
    assert!(bands.bands().windows(2).all(|pair| pair[0].centre_hz < pair[1].centre_hz));
    let half = OCTAVE_RATIO.powf(1.0 / 6.0);
    for band in bands.bands() {
        assert_eq!(band.lower_hz.to_bits(), (band.centre_hz / half).to_bits());
        assert_eq!(band.upper_hz.to_bits(), (band.centre_hz * half).to_bits());
        assert_eq!(band.width_hz(), band.upper_hz - band.lower_hz);
    }
    assert_eq!(bands.fraction(), 3);
}

#[test]
fn levels_sum_as_power() {
    let bands = OctaveBands::new(1, 900.0, 1100.0);
    assert_eq!(bands.len(), 1);
    let mut levels = [0.0_f32];
    let mut bins = vec![-300.0_f32; 41];
    bins[10] = -20.0;
    bins[11] = -20.0;
    bands.apply(&bins, 100.0, &mut levels);
    assert!((levels[0] - (-20.0 + 10.0 * 2.0_f32.log10())).abs() < 1e-3, "{}", levels[0]);
    bands.apply(&[], 100.0, &mut levels);
    assert_eq!(levels[0], BAND_FLOOR_DB);
}

#[test]
fn a_centre_that_is_not_positive_is_its_own_name() {
    let band = Band { centre_hz: -3.0, lower_hz: -4.0, upper_hz: -2.0 };
    assert_eq!(band.nominal_hz(), -3.0);
}

#[test]
fn a_fine_fraction_covers_its_range() {
    let bands = OctaveBands::new(1000, 2000.0, 3000.0);
    let centres: Vec<f32> = bands.bands().iter().map(|band| band.centre_hz).collect();
    assert!(centres.windows(2).all(|pair| pair[0] < pair[1]));
    assert!(centres[0] <= 2000.0 && centres[centres.len() - 1] >= 3000.0);
    // One thousandth of an octave, base ten, from end to end.
    let step = 10.0_f32.powf(0.0003);
    for pair in bands.bands().windows(2) {
        assert!((pair[1].centre_hz / pair[0].centre_hz - step).abs() < 1e-5);
        assert!((pair[1].lower_hz / pair[0].upper_hz - 1.0).abs() < 1e-4);
    }
}

#[test]
fn ranges_on_one_side_of_the_reference_are_covered() {
    let low = OctaveBands::new(48, 20.0, 40.0);
    assert!(low.bands()[0].centre_hz <= 20.0 && low.bands()[low.len() - 1].centre_hz >= 40.0);
    let high = OctaveBands::new(48, 10_000.0, 20_000.0);
    assert!(high.bands()[0].centre_hz <= 10_000.0);
    assert!(high.bands()[high.len() - 1].centre_hz >= 20_000.0);
    assert!(OctaveBands::new(1, 1.0, f32::MAX).bands().iter().all(|b| b.centre_hz.is_finite()));
}

#[test]
fn nominal_frequencies_reach_into_the_next_decade() {
    let band = |centre_hz: f32| Band { centre_hz, lower_hz: 0.0, upper_hz: 0.0 };
    assert_eq!(band(9800.0).nominal_hz(), 10_000.0);
    assert_eq!(band(8900.0).nominal_hz(), 8000.0);
    assert_eq!(band(96.0).nominal_hz(), 100.0);
}

#[test]
fn a_spectrum_of_dc_alone_gives_the_floor() {
    let bands = OctaveBands::third_octave();
    let mut levels = vec![0.0; bands.len()];
    bands.apply(&[-3.0], 100.0, &mut levels);
    assert!(levels.iter().all(|level| *level == -200.0));
}
