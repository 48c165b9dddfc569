//! Distortion, through the single-precision numbers it stands for.

use analyzer::arith::{Arith, Calc, Complex};
use analyzer::dsp::distortion::DISTORTION_FLOOR_DB as FLOOR;
use analyzer::dsp::fft::Forward;
use analyzer::dsp::{distortion, spectrum, window};
use analyzer::ieee::{F32, F64};
use realfft::RealFftPlanner;
use std::cell::RefCell;
use std::f32::consts::TAU;

/// The bit pattern of `x`.
pub fn number(x: f32) -> F32 {
    F32 { bits: x.to_bits() }
}

/// The number with the bit pattern `x`.
pub fn float(x: F32) -> f32 {
    f32::from_bits(x.bits)
}

/// The bit patterns of `xs`.
pub fn numbers(xs: &[f32]) -> Vec<F32> {
    xs.iter().copied().map(number).collect()
}

/// The numbers with the bit patterns `xs`.
pub fn floats(xs: &[F32]) -> Vec<f32> {
    xs.iter().copied().map(float).collect()
}

/// One step of single-precision arithmetic, by the machine's own operations.
pub fn calculate(step: Calc) -> F32 {
    number(match step {
        Calc::Plus(a, b) => float(a) + float(b),
        Calc::Minus(a, b) => float(a) - float(b),
        Calc::Times(a, b) => float(a) * float(b),
        Calc::Over(a, b) => float(a) / float(b),
        Calc::Root(a) => float(a).sqrt(),
        Calc::Sine(a) => float(a).sin(),
        Calc::Cosine(a) => float(a).cos(),
        Calc::Tangent(a) => float(a).tan(),
        Calc::Exp(a) => float(a).exp(),
        Calc::Ln(a) => float(a).ln(),
        Calc::Log2(a) => float(a).log2(),
        Calc::Log10(a) => float(a).log10(),
        Calc::Power(a, b) => float(a).powf(float(b)),
        Calc::Hypot(a, b) => float(a).hypot(float(b)),
        Calc::Angle(a, b) => float(a).atan2(float(b)),
        Calc::Degrees(a) => float(a).to_degrees(),
        Calc::Remainder(a, b) => float(a).rem_euclid(float(b)),
        Calc::Floor(a) => float(a).floor(),
        Calc::Count(n) => n as f32,
        Calc::Whole(n) => n as f32,
        Calc::Narrow(a) => double(a) as f32,
    })
}

/// The number with the bit pattern `x`.
pub fn double(x: F64) -> f64 {
    f64::from_bits(x.bits)
}

/// Single-precision arithmetic.
pub type Single = Arith<fn(Calc) -> F32>;

/// The machine's single-precision arithmetic.
pub fn single() -> Single {
    Arith::new(calculate)
}

/// A forward transform of real frames.
pub type ForwardFft = Forward<Box<dyn Fn(&[F32]) -> Vec<Complex> + Send>>;

/// The forward transform of `realfft`, which keeps the plans it has made.
pub fn forward() -> ForwardFft {
    let planner = RefCell::new(RealFftPlanner::<f32>::new());
    Forward::new(Box::new(move |frame: &[F32]| {
        let plan = planner.borrow_mut().plan_fft_forward(frame.len());
        let mut input = floats(frame);
        let mut output = plan.make_output_vec();
        plan.process(&mut input, &mut output).expect("buffers match the plan");
        output.iter().map(|z| Complex { re: number(z.re), im: number(z.im) }).collect()
    }))
}

/// A window shape.
#[derive(Debug, Clone, Copy, PartialEq)]
pub enum WindowKind {
    Rectangular,
    Hann,
    BlackmanHarris,
    FlatTop,
    Tukey { alpha: f32 },
}

impl From<WindowKind> for window::WindowKind {
    fn from(kind: WindowKind) -> Self {
        match kind {
            WindowKind::Rectangular => Self::Rectangular,
            WindowKind::Hann => Self::Hann,
            WindowKind::BlackmanHarris => Self::BlackmanHarris,
            WindowKind::FlatTop => Self::FlatTop,
            WindowKind::Tukey { alpha } => Self::Tukey { alpha: number(alpha) },
        }
    }
}

impl From<window::WindowKind> for WindowKind {
    fn from(kind: window::WindowKind) -> Self {
        match kind {
            window::WindowKind::Rectangular => Self::Rectangular,
            window::WindowKind::Hann => Self::Hann,
            window::WindowKind::BlackmanHarris => Self::BlackmanHarris,
            window::WindowKind::FlatTop => Self::FlatTop,
            window::WindowKind::Tukey { alpha } => Self::Tukey { alpha: float(alpha) },
        }
    }
}

/// How much consecutive frames overlap.
#[derive(Debug, Clone, Copy, PartialEq, Eq)]
pub enum Overlap {
    Off,
    Half,
    ThreeQuarters,
    SevenEighths,
}

impl From<Overlap> for spectrum::Overlap {
    fn from(overlap: Overlap) -> Self {
        match overlap {
            Overlap::Off => Self::Off,
            Overlap::Half => Self::Half,
            Overlap::ThreeQuarters => Self::ThreeQuarters,
            Overlap::SevenEighths => Self::SevenEighths,
        }
    }
}

impl Overlap {
    pub fn hop(self, size: usize) -> usize {
        spectrum::Overlap::from(self).hop(size)
    }

    pub fn fraction(self) -> f32 {
        float(spectrum::Overlap::from(self).fraction())
    }
}

/// How successive frames are combined.
#[derive(Debug, Clone, Copy, PartialEq)]
pub enum Averaging {
    Off,
    Exponential { alpha: f32 },
    Linear { frames: u32 },
    Infinite,
    PeakHold,
}

impl From<Averaging> for spectrum::Averaging {
    fn from(averaging: Averaging) -> Self {
        match averaging {
            Averaging::Off => Self::Off,
            Averaging::Exponential { alpha } => Self::Exponential { alpha: number(alpha) },
            Averaging::Linear { frames } => Self::Linear { frames },
            Averaging::Infinite => Self::Infinite,
            Averaging::PeakHold => Self::PeakHold,
        }
    }
}

impl From<spectrum::Averaging> for Averaging {
    fn from(averaging: spectrum::Averaging) -> Self {
        match averaging {
            spectrum::Averaging::Off => Self::Off,
            spectrum::Averaging::Exponential { alpha } => Self::Exponential { alpha: float(alpha) },
            spectrum::Averaging::Linear { frames } => Self::Linear { frames },
            spectrum::Averaging::Infinite => Self::Infinite,
            spectrum::Averaging::PeakHold => Self::PeakHold,
        }
    }
}

impl Averaging {
    pub fn exponential_over(seconds: f32, frames_per_second: f32) -> Self {
        spectrum::Averaging::exponential_over(
            &single(),
            number(seconds),
            number(frames_per_second),
        )
        .into()
    }
}

/// How a spectrum is measured.
#[derive(Debug, Clone, Copy, PartialEq)]
pub struct SpectrumConfig {
    pub sample_rate: f32,
    pub size: usize,
    pub window: WindowKind,
    pub overlap: Overlap,
    pub averaging: Averaging,
}

impl From<SpectrumConfig> for spectrum::SpectrumConfig {
    fn from(config: SpectrumConfig) -> Self {
        Self {
            sample_rate: number(config.sample_rate),
            size: config.size,
            window: config.window.into(),
            overlap: config.overlap.into(),
            averaging: config.averaging.into(),
        }
    }
}

/// A running spectrum of one channel.
pub struct SpectrumAnalyzer {
    inner: spectrum::SpectrumAnalyzer,
    fft: ForwardFft,
    power: Vec<f32>,
}

impl SpectrumAnalyzer {
    pub fn new(config: SpectrumConfig) -> Self {
        let config = spectrum::SpectrumConfig::from(config);
        assert!(config.is_valid(), "FFT size must be even, sample rate positive");
        let inner = spectrum::SpectrumAnalyzer::new(&single(), config);
        let power = floats(inner.power());
        Self { inner, fft: forward(), power }
    }

    pub fn push(&mut self, samples: &[f32]) -> usize {
        let produced = self.inner.push(&single(), &self.fft, &numbers(samples));
        self.power = floats(self.inner.power());
        produced
    }

    pub fn power(&self) -> &[f32] {
        &self.power
    }

    pub fn write_db_fs(&self, out: &mut [f32]) {
        assert_eq!(out.len(), self.bins(), "output length must equal the bin count");
        let mut levels = numbers(out);
        self.inner.write_db_fs(&single(), &mut levels);
        out.copy_from_slice(&floats(&levels));
    }

    pub fn reset(&mut self) {
        self.inner.reset();
        self.power = floats(self.inner.power());
    }

    pub fn set_averaging(&mut self, averaging: Averaging) {
        self.inner.set_averaging(averaging.into());
        self.power = floats(self.inner.power());
    }

    pub fn frames(&self) -> u32 {
        self.inner.frames()
    }

    pub fn bins(&self) -> usize {
        self.inner.bins()
    }

    pub fn size(&self) -> usize {
        self.inner.size()
    }

    pub fn hop(&self) -> usize {
        self.inner.hop()
    }

    pub fn frame_rate(&self) -> f32 {
        float(self.inner.frame_rate(&single()))
    }

    pub fn bin_spacing_hz(&self) -> f32 {
        float(self.inner.bin_spacing_hz(&single()))
    }

    pub fn bin_frequency(&self, k: usize) -> f32 {
        float(self.inner.bin_frequency(&single(), k))
    }

    pub fn enbw_hz(&self) -> f32 {
        float(self.inner.enbw_hz(&single()))
    }
}

/// One harmonic of a tone.
#[derive(Debug, Clone, Copy, PartialEq)]
pub struct Harmonic {
    pub order: u32,
    pub hz: f32,
    pub level_db: f32,
    pub relative_db: f32,
    pub percent: f32,
}

/// A distortion measurement.
#[derive(Debug, Clone, PartialEq)]
pub struct Distortion {
    pub fundamental_hz: f32,
    pub fundamental_db: f32,
    pub harmonics: Vec<Harmonic>,
    pub thd_percent: f32,
    pub thd_db: f32,
    pub thd_n_percent: f32,
    pub thd_n_db: f32,
    pub noise_floor_db: f32,
    pub orders_above_nyquist: u32,
}

impl From<&Distortion> for distortion::Distortion {
    fn from(d: &Distortion) -> Self {
        Self {
            fundamental_hz: number(d.fundamental_hz),
            fundamental_db: number(d.fundamental_db),
            harmonics: d
                .harmonics
                .iter()
                .map(|h| distortion::Harmonic {
                    order: h.order,
                    hz: number(h.hz),
                    level_db: number(h.level_db),
                    relative_db: number(h.relative_db),
                    percent: number(h.percent),
                })
                .collect(),
            thd_percent: number(d.thd_percent),
            thd_db: number(d.thd_db),
            thd_n_percent: number(d.thd_n_percent),
            thd_n_db: number(d.thd_n_db),
            noise_floor_db: number(d.noise_floor_db),
            orders_above_nyquist: d.orders_above_nyquist,
        }
    }
}

impl From<&distortion::Distortion> for Distortion {
    fn from(d: &distortion::Distortion) -> Self {
        Self {
            fundamental_hz: float(d.fundamental_hz),
            fundamental_db: float(d.fundamental_db),
            harmonics: d.harmonics.iter().copied().map(harmonic).collect(),
            thd_percent: float(d.thd_percent),
            thd_db: float(d.thd_db),
            thd_n_percent: float(d.thd_n_percent),
            thd_n_db: float(d.thd_n_db),
            noise_floor_db: float(d.noise_floor_db),
            orders_above_nyquist: d.orders_above_nyquist,
        }
    }
}

fn harmonic(h: distortion::Harmonic) -> Harmonic {
    Harmonic {
        order: h.order,
        hz: float(h.hz),
        level_db: float(h.level_db),
        relative_db: float(h.relative_db),
        percent: float(h.percent),
    }
}

impl Distortion {
    pub fn highest_order(&self) -> u32 {
        distortion::Distortion::from(self).highest_order()
    }

    pub fn harmonic(&self, order: u32) -> Option<Harmonic> {
        distortion::Distortion::from(self).harmonic(order).map(harmonic)
    }

    pub fn thd_label(&self) -> String {
        distortion::Distortion::from(self).thd_label(&format!("{:.4}", self.thd_percent))
    }
}

/// What counts as a harmonic.
#[derive(Debug, Clone, Copy, PartialEq)]
pub struct DistortionConfig {
    pub max_order: u32,
    pub search_bins: usize,
    pub lobe_bins: usize,
}

impl Default for DistortionConfig {
    fn default() -> Self {
        let usual = distortion::DistortionConfig::default();
        Self {
            max_order: usual.max_order,
            search_bins: usual.search_bins,
            lobe_bins: usual.lobe_bins,
        }
    }
}

/// Measure the distortion of a tone from its power spectrum.
pub fn analyse(
    power_bins: &[f32],
    bin_spacing_hz: f32,
    fundamental_hz: Option<f32>,
    config: &DistortionConfig,
) -> Option<Distortion> {
    let config = distortion::DistortionConfig {
        max_order: config.max_order,
        search_bins: config.search_bins,
        lobe_bins: config.lobe_bins,
    };
    distortion::analyse(
        &single(),
        &numbers(power_bins),
        number(bin_spacing_hz),
        fundamental_hz.map(number),
        &config,
    )
    .as_ref()
    .map(Distortion::from)
}

const DISTORTION_FLOOR_DB: f32 = f32::from_bits(FLOOR);

const RATE: f32 = 48_000.0;
const SIZE: usize = 8192;

fn spectrum_of(fundamental_hz: f32, harmonics: &[(u32, f32)], noise: f32) -> (Vec<f32>, f32) {
    let count = SIZE * 8;
    let mut samples = vec![0.0_f32; count];
    let mut rng = 0x1234_5678_u64;

    for (index, sample) in samples.iter_mut().enumerate() {
        let t = index as f32 / RATE;
        let mut value = 0.5 * (TAU * fundamental_hz * t).sin();
        for (order, amplitude) in harmonics {
            value += 0.5 * amplitude * (TAU * fundamental_hz * *order as f32 * t).sin();
        }
        if noise > 0.0 {
            rng ^= rng >> 12;
            rng ^= rng << 25;
            rng ^= rng >> 27;
            let r =
                ((rng.wrapping_mul(0x2545_F491_4F6C_DD1D) >> 40) as f32 / 8_388_608.0) - 1.0;
            value += r * noise;
        }
        *sample = value;
    }

    let mut analyzer = SpectrumAnalyzer::new(SpectrumConfig {
        sample_rate: RATE,
        size: SIZE,
        window: WindowKind::BlackmanHarris,
        overlap: Overlap::Half,
        averaging: Averaging::Infinite,
    });
    analyzer.push(&samples);
    (analyzer.power().to_vec(), analyzer.bin_spacing_hz())
}

#[test]
fn a_clean_sine_measures_near_zero_distortion() {
    let (power, spacing) = spectrum_of(1000.0, &[], 0.0);
    let d = analyse(&power, spacing, None, &DistortionConfig::default()).unwrap();

    assert!(
        d.thd_percent < 0.01,
        "clean sine measured {:.4}% THD",
        d.thd_percent
    );
    assert!(
        (d.fundamental_hz - 1000.0).abs() < 5.0,
        "{}",
        d.fundamental_hz
    );
}

#[test]
fn a_single_harmonic_gives_the_expected_percentage() {
    let (power, spacing) = spectrum_of(1000.0, &[(2, 0.01)], 0.0);
    let d = analyse(&power, spacing, None, &DistortionConfig::default()).unwrap();

    assert!(
        (d.thd_percent - 1.0).abs() < 0.05,
        "expected 1% THD, got {:.4}%",
        d.thd_percent
    );
    assert!(
        (d.thd_db - -40.0).abs() < 0.5,
        "expected -40 dB, got {:.2}",
        d.thd_db
    );

    let h2 = d.harmonic(2).unwrap();
    assert!((h2.percent - 1.0).abs() < 0.05);
    assert!((h2.hz - 2000.0).abs() < 10.0, "H2 at {}", h2.hz);
}

#[test]
fn harmonics_combine_as_the_root_sum_of_squares() {
    let (power, spacing) = spectrum_of(1000.0, &[(2, 0.01), (3, 0.01)], 0.0);
    let d = analyse(&power, spacing, None, &DistortionConfig::default()).unwrap();

    let expected = (0.01_f32 * 0.01 + 0.01 * 0.01).sqrt() * 100.0;
    assert!(
        (d.thd_percent - expected).abs() < 0.1,
        "expected {expected:.4}%, got {:.4}%",
        d.thd_percent
    );
}

#[test]
fn each_harmonic_is_reported_at_its_own_level() {
    let (power, spacing) = spectrum_of(1000.0, &[(2, 0.01), (3, 0.003), (5, 0.001)], 0.0);
    let d = analyse(&power, spacing, None, &DistortionConfig::default()).unwrap();

    for (order, amplitude) in [(2_u32, 0.01_f32), (3, 0.003), (5, 0.001)] {
        let h = d
            .harmonic(order)
            .unwrap_or_else(|| panic!("H{order} should have been found"));
        let expected = amplitude * 100.0;
        assert!(
            (h.percent - expected).abs() < expected * 0.15,
            "H{order}: got {:.4}%, expected {expected:.4}%",
            h.percent
        );
        assert!(
            (h.hz - 1000.0 * order as f32).abs() < 15.0,
            "H{order} at {}",
            h.hz
        );
    }
}

#[test]
fn absent_orders_are_not_invented() {
    let (power, spacing) = spectrum_of(1000.0, &[(3, 0.02), (5, 0.01)], 0.0);
    let d = analyse(&power, spacing, None, &DistortionConfig::default()).unwrap();

    let h2 = d.harmonic(2).unwrap();
    assert!(
        h2.percent < 0.05,
        "H2 should be negligible, got {:.4}%",
        h2.percent
    );
    assert!(d.harmonic(3).unwrap().percent > 1.0);
    assert!(d.harmonic(5).unwrap().percent > 0.5);
}

#[test]
fn thd_plus_noise_exceeds_thd_when_noise_is_present() {
    let quiet = analyse(
        &spectrum_of(1000.0, &[(2, 0.01)], 0.0).0,
        RATE / SIZE as f32,
        None,
        &DistortionConfig::default(),
    )
    .unwrap();

    let (power, spacing) = spectrum_of(1000.0, &[(2, 0.01)], 0.02);
    let noisy = analyse(&power, spacing, None, &DistortionConfig::default()).unwrap();

    assert!(
        (noisy.thd_percent - quiet.thd_percent).abs() < 0.1,
        "noise must not change THD: {:.4}% vs {:.4}%",
        quiet.thd_percent,
        noisy.thd_percent
    );
    assert!(
        noisy.thd_n_percent > noisy.thd_percent * 1.5,
        "THD+N {:.4}% should clearly exceed THD {:.4}%",
        noisy.thd_n_percent,
        noisy.thd_percent
    );
    assert!(noisy.noise_floor_db > DISTORTION_FLOOR_DB);
    assert!(
        noisy.noise_floor_db > quiet.noise_floor_db + 6.0,
        "the measured floor should rise with the noise"
    );
}

#[test]
fn the_two_figures_converge_without_noise() {
    let (power, spacing) = spectrum_of(1000.0, &[(2, 0.02)], 0.0);
    let d = analyse(&power, spacing, None, &DistortionConfig::default()).unwrap();

    assert!(
        (d.thd_n_percent - d.thd_percent).abs() < d.thd_percent * 0.5,
        "without noise they should be close: {:.4}% vs {:.4}%",
        d.thd_percent,
        d.thd_n_percent
    );
}

#[test]
fn harmonics_above_nyquist_are_excluded_and_counted() {
    let (power, spacing) = spectrum_of(5000.0, &[(2, 0.01)], 0.0);
    let d = analyse(&power, spacing, None, &DistortionConfig::default()).unwrap();

    assert_eq!(d.orders_above_nyquist, 6, "H5..H10 should be excluded");
    assert_eq!(d.highest_order(), 4);
    assert!(d.harmonics.iter().all(|h| h.hz < 24_000.0));
    assert!(d.thd_label().contains("to H4"));
}

#[test]
fn a_low_fundamental_keeps_every_order() {
    let (power, spacing) = spectrum_of(200.0, &[(2, 0.01)], 0.0);
    let d = analyse(&power, spacing, None, &DistortionConfig::default()).unwrap();
    assert_eq!(d.orders_above_nyquist, 0);
    assert_eq!(d.highest_order(), 10);
    assert!(!d.thd_label().contains("to H"));
}

#[test]
fn the_reading_is_stable_across_bin_boundaries() {
    let spacing = RATE / SIZE as f32;
    let mut readings = Vec::new();
    for step in 0..5 {
        let hz = 1000.0 + spacing * step as f32 / 5.0;
        let (power, bin_spacing) = spectrum_of(hz, &[(2, 0.01)], 0.0);
        let d = analyse(&power, bin_spacing, None, &DistortionConfig::default()).unwrap();
        readings.push(d.thd_percent);
    }
    let max = readings.iter().copied().fold(f32::MIN, f32::max);
    let min = readings.iter().copied().fold(f32::MAX, f32::min);
    assert!(
        max - min < 0.15,
        "THD swung from {min:.4}% to {max:.4}% across one bin: {readings:?}"
    );
}

#[test]
fn an_explicit_fundamental_overrides_the_loudest_bin() {
    let (power, spacing) = spectrum_of(1000.0, &[(2, 2.0)], 0.0);

    let guessed = analyse(&power, spacing, None, &DistortionConfig::default()).unwrap();
    assert!(
        (guessed.fundamental_hz - 2000.0).abs() < 20.0,
        "without a hint it should latch onto the loudest peak, got {}",
        guessed.fundamental_hz
    );

    let told = analyse(&power, spacing, Some(1000.0), &DistortionConfig::default()).unwrap();
    assert!(
        (told.fundamental_hz - 1000.0).abs() < 20.0,
        "with a hint it should use it, got {}",
        told.fundamental_hz
    );
    assert!(
        told.thd_percent > 100.0,
        "H2 above the fundamental is >100% THD"
    );
}

#[test]
fn max_order_is_respected() {
    let config = DistortionConfig {
        max_order: 3,
        ..DistortionConfig::default()
    };
    let (power, spacing) = spectrum_of(1000.0, &[(2, 0.01), (3, 0.01), (4, 0.01)], 0.0);
    let d = analyse(&power, spacing, None, &config).unwrap();

    assert_eq!(d.highest_order(), 3);
    assert!(d.harmonic(4).is_none(), "H4 was not asked for");
}

#[test]
fn power_recovered_from_decibels_gives_the_same_answer() {
    let (power, spacing) = spectrum_of(1000.0, &[(2, 0.01), (3, 0.003)], 0.0);

    let round_tripped: Vec<f32> = power
        .iter()
        .map(|p| {
            let db = if *p > 0.0 {
                (10.0 * (2.0 * p).log10()).max(-200.0)
            } else {
                -200.0
            };
            10.0_f32.powf(db / 10.0) / 2.0
        })
        .collect();

    let config = DistortionConfig::default();
    let direct = analyse(&power, spacing, None, &config).unwrap();
    let via_db = analyse(&round_tripped, spacing, None, &config).unwrap();

    assert!(
        (direct.thd_percent - via_db.thd_percent).abs() < 0.01,
        "THD moved through the round trip: {:.4}% vs {:.4}%",
        direct.thd_percent,
        via_db.thd_percent
    );
    assert!((direct.fundamental_hz - via_db.fundamental_hz).abs() < 1.0);
    assert_eq!(direct.harmonics.len(), via_db.harmonics.len());
}

#[test]
fn degenerate_input_is_refused() {
    let config = DistortionConfig::default();
    assert!(analyse(&[], 5.86, None, &config).is_none());
    assert!(analyse(&[1.0; 100], 0.0, None, &config).is_none());
    assert!(analyse(&[0.0; 100], 5.86, None, &config).is_none());
}

#[test]
fn silence_produces_no_measurement() {
    let power = vec![0.0_f32; 1024];
    assert!(analyse(&power, 5.86, None, &DistortionConfig::default()).is_none());
}

#[test]
fn every_reported_number_is_finite() {
    let (power, spacing) = spectrum_of(1000.0, &[(2, 0.01), (3, 0.001)], 0.0001);
    let d = analyse(&power, spacing, None, &DistortionConfig::default()).unwrap();

    assert!(d.thd_percent.is_finite() && d.thd_db.is_finite());
    assert!(d.thd_n_percent.is_finite() && d.thd_n_db.is_finite());
    assert!(d.fundamental_db.is_finite() && d.noise_floor_db.is_finite());
    for h in &d.harmonics {
        assert!(h.level_db.is_finite() && h.relative_db.is_finite() && h.percent.is_finite());
    }
}

#[test]
fn harmonics_ascend_and_absent_orders_are_counted() {
    let (power, spacing) = spectrum_of(4000.0, &[(2, 0.1), (3, 0.05), (5, 0.02)], 0.0);
    let d = analyse(&power, spacing, Some(4000.0), &DistortionConfig::default()).unwrap();
    assert!(d.harmonics.windows(2).all(|pair| pair[0].order < pair[1].order));
    assert!(d.harmonics.iter().all(|h| h.hz < RATE / 2.0));
    assert_eq!(d.harmonics.len() as u32 + d.orders_above_nyquist, 9);
    assert!(d.harmonic(1).is_none());
}

#[test]
fn a_spectrum_without_a_fundamental_gives_nothing() {
    let config = DistortionConfig::default();
    assert!(analyse(&[], 10.0, None, &config).is_none());
    assert!(analyse(&[0.0, 1.0, 0.0], 0.0, None, &config).is_none());
    assert!(analyse(&[0.0; 64], 10.0, None, &config).is_none());
}

#[test]
fn decibels_are_exact() {
    let m = single();
    let power = 0.0123_f32;
    assert_eq!(float(distortion::to_db(&m, number(0.0))), DISTORTION_FLOOR_DB);
    assert_eq!(float(distortion::amplitude_db(&m, number(0.0))), DISTORTION_FLOOR_DB);
    let ratio = float(distortion::amplitude_db(&m, number(power)));
    assert_eq!(ratio, (20.0 * power.log10()).max(DISTORTION_FLOOR_DB));
}

#[test]
fn marking_a_lobe_stops_at_the_ends() {
    let mut claimed = [false; 6];
    distortion::mark(&mut claimed, 1, 2);
    assert_eq!(claimed, [true, true, true, true, false, false]);
    distortion::mark(&mut claimed, 6, 1);
    assert_eq!(claimed, [true, true, true, true, false, true]);
}

#[test]
fn power_at_dc_only_is_no_tone() {
    let config = DistortionConfig::default();
    let mut power = vec![0.0; 64];
    power[0] = 1.0;
    assert!(analyse(&power, 10.0, None, &config).is_none());
    assert!(analyse(&power, 10.0, Some(20.0), &config).is_none());
}

#[test]
fn the_spectrum_ends_at_its_last_bin() {
    let power = [0.0, 0.0, 0.0, 0.0, 3.0, 1.0, 0.0, 0.0, 0.0];
    let config = DistortionConfig { max_order: 2, search_bins: 1, lobe_bins: 1 };
    let found = analyse(&power, 1.0, None, &config).unwrap();
    assert_eq!(found.fundamental_hz, 4.25);
    assert_eq!(found.orders_above_nyquist, 1);
    assert!(found.harmonics.is_empty());
}
