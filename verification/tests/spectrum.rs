//! The running spectrum, through the single-precision numbers it stands for.

use analyzer::arith::{Arith, Calc, Complex};
use analyzer::dsp::fft::Forward;
use analyzer::dsp::spectrum::DB_FLOOR as FLOOR;
use analyzer::dsp::spectrum::{update_for, Update};
use analyzer::dsp::{spectrum, window};
use analyzer::ieee::{F32, F64};
use realfft::RealFftPlanner;
use std::cell::RefCell;
use std::f32::consts::TAU;

/// The bit pattern of `x`.
pub fn number(x: f32) -> F32 {
    F32 { bits: x.to_bits() }
}

/// The number with the bit pattern `x`.
pub fn float(x: F32) -> f32 {
    f32::from_bits(x.bits)
}

/// The bit patterns of `xs`.
pub fn numbers(xs: &[f32]) -> Vec<F32> {
    xs.iter().copied().map(number).collect()
}

/// The numbers with the bit patterns `xs`.
pub fn floats(xs: &[F32]) -> Vec<f32> {
    xs.iter().copied().map(float).collect()
}

/// One step of single-precision arithmetic, by the machine's own operations.
pub fn calculate(step: Calc) -> F32 {
    number(match step {
        Calc::Plus(a, b) => float(a) + float(b),
        Calc::Minus(a, b) => float(a) - float(b),
        Calc::Times(a, b) => float(a) * float(b),
        Calc::Over(a, b) => float(a) / float(b),
        Calc::Root(a) => float(a).sqrt(),
        Calc::Sine(a) => float(a).sin(),
        Calc::Cosine(a) => float(a).cos(),
        Calc::Tangent(a) => float(a).tan(),
        Calc::Exp(a) => float(a).exp(),
        Calc::Ln(a) => float(a).ln(),
        Calc::Log2(a) => float(a).log2(),
        Calc::Log10(a) => float(a).log10(),
        Calc::Power(a, b) => float(a).powf(float(b)),
        Calc::Hypot(a, b) => float(a).hypot(float(b)),
        Calc::Angle(a, b) => float(a).atan2(float(b)),
        Calc::Degrees(a) => float(a).to_degrees(),
        Calc::Remainder(a, b) => float(a).rem_euclid(float(b)),
        Calc::Floor(a) => float(a).floor(),
        Calc::Count(n) => n as f32,
        Calc::Whole(n) => n as f32,
        Calc::Narrow(a) => double(a) as f32,
    })
}

/// The number with the bit pattern `x`.
pub fn double(x: F64) -> f64 {
    f64::from_bits(x.bits)
}

/// Single-precision arithmetic.
pub type Single = Arith<fn(Calc) -> F32>;

/// The machine's single-precision arithmetic.
pub fn single() -> Single {
    Arith::new(calculate)
}

/// A forward transform of real frames.
pub type ForwardFft = Forward<Box<dyn Fn(&[F32]) -> Vec<Complex> + Send>>;

/// The forward transform of `realfft`, which keeps the plans it has made.
pub fn forward() -> ForwardFft {
    let planner = RefCell::new(RealFftPlanner::<f32>::new());
    Forward::new(Box::new(move |frame: &[F32]| {
        let plan = planner.borrow_mut().plan_fft_forward(frame.len());
        let mut input = floats(frame);
        let mut output = plan.make_output_vec();
        plan.process(&mut input, &mut output).expect("buffers match the plan");
        output.iter().map(|z| Complex { re: number(z.re), im: number(z.im) }).collect()
    }))
}

/// A window shape.
#[derive(Debug, Clone, Copy, PartialEq)]
pub enum WindowKind {
    Rectangular,
    Hann,
    BlackmanHarris,
    FlatTop,
    Tukey { alpha: f32 },
}

impl From<WindowKind> for window::WindowKind {
    fn from(kind: WindowKind) -> Self {
        match kind {
            WindowKind::Rectangular => Self::Rectangular,
            WindowKind::Hann => Self::Hann,
            WindowKind::BlackmanHarris => Self::BlackmanHarris,
            WindowKind::FlatTop => Self::FlatTop,
            WindowKind::Tukey { alpha } => Self::Tukey { alpha: number(alpha) },
        }
    }
}

impl From<window::WindowKind> for WindowKind {
    fn from(kind: window::WindowKind) -> Self {
        match kind {
            window::WindowKind::Rectangular => Self::Rectangular,
            window::WindowKind::Hann => Self::Hann,
            window::WindowKind::BlackmanHarris => Self::BlackmanHarris,
            window::WindowKind::FlatTop => Self::FlatTop,
            window::WindowKind::Tukey { alpha } => Self::Tukey { alpha: float(alpha) },
        }
    }
}

/// How much consecutive frames overlap.
#[derive(Debug, Clone, Copy, PartialEq, Eq)]
pub enum Overlap {
    Off,
    Half,
    ThreeQuarters,
    SevenEighths,
}

impl From<Overlap> for spectrum::Overlap {
    fn from(overlap: Overlap) -> Self {
        match overlap {
            Overlap::Off => Self::Off,
            Overlap::Half => Self::Half,
            Overlap::ThreeQuarters => Self::ThreeQuarters,
            Overlap::SevenEighths => Self::SevenEighths,
        }
    }
}

impl Overlap {
    pub fn hop(self, size: usize) -> usize {
        spectrum::Overlap::from(self).hop(size)
    }

    pub fn fraction(self) -> f32 {
        float(spectrum::Overlap::from(self).fraction())
    }
}

/// How successive frames are combined.
#[derive(Debug, Clone, Copy, PartialEq)]
pub enum Averaging {
    Off,
    Exponential { alpha: f32 },
    Linear { frames: u32 },
    Infinite,
    PeakHold,
}

impl From<Averaging> for spectrum::Averaging {
    fn from(averaging: Averaging) -> Self {
        match averaging {
            Averaging::Off => Self::Off,
            Averaging::Exponential { alpha } => Self::Exponential { alpha: number(alpha) },
            Averaging::Linear { frames } => Self::Linear { frames },
            Averaging::Infinite => Self::Infinite,
            Averaging::PeakHold => Self::PeakHold,
        }
    }
}

impl From<spectrum::Averaging> for Averaging {
    fn from(averaging: spectrum::Averaging) -> Self {
        match averaging {
            spectrum::Averaging::Off => Self::Off,
            spectrum::Averaging::Exponential { alpha } => Self::Exponential { alpha: float(alpha) },
            spectrum::Averaging::Linear { frames } => Self::Linear { frames },
            spectrum::Averaging::Infinite => Self::Infinite,
            spectrum::Averaging::PeakHold => Self::PeakHold,
        }
    }
}

impl Averaging {
    pub fn exponential_over(seconds: f32, frames_per_second: f32) -> Self {
        spectrum::Averaging::exponential_over(
            &single(),
            number(seconds),
            number(frames_per_second),
        )
        .into()
    }
}

/// How a spectrum is measured.
#[derive(Debug, Clone, Copy, PartialEq)]
pub struct SpectrumConfig {
    pub sample_rate: f32,
    pub size: usize,
    pub window: WindowKind,
    pub overlap: Overlap,
    pub averaging: Averaging,
}

impl From<SpectrumConfig> for spectrum::SpectrumConfig {
    fn from(config: SpectrumConfig) -> Self {
        Self {
            sample_rate: number(config.sample_rate),
            size: config.size,
            window: config.window.into(),
            overlap: config.overlap.into(),
            averaging: config.averaging.into(),
        }
    }
}

/// A running spectrum of one channel.
pub struct SpectrumAnalyzer {
    inner: spectrum::SpectrumAnalyzer,
    fft: ForwardFft,
    power: Vec<f32>,
}

impl SpectrumAnalyzer {
    pub fn new(config: SpectrumConfig) -> Self {
        let config = spectrum::SpectrumConfig::from(config);
        assert!(config.is_valid(), "FFT size must be even, sample rate positive");
        let inner = spectrum::SpectrumAnalyzer::new(&single(), config);
        let power = floats(inner.power());
        Self { inner, fft: forward(), power }
    }

    pub fn push(&mut self, samples: &[f32]) -> usize {
        let produced = self.inner.push(&single(), &self.fft, &numbers(samples));
        self.power = floats(self.inner.power());
        produced
    }

    pub fn power(&self) -> &[f32] {
        &self.power
    }

    pub fn write_db_fs(&self, out: &mut [f32]) {
        assert_eq!(out.len(), self.bins(), "output length must equal the bin count");
        let mut levels = numbers(out);
        self.inner.write_db_fs(&single(), &mut levels);
        out.copy_from_slice(&floats(&levels));
    }

    pub fn reset(&mut self) {
        self.inner.reset();
        self.power = floats(self.inner.power());
    }

    pub fn set_averaging(&mut self, averaging: Averaging) {
        self.inner.set_averaging(averaging.into());
        self.power = floats(self.inner.power());
    }

    pub fn frames(&self) -> u32 {
        self.inner.frames()
    }

    pub fn bins(&self) -> usize {
        self.inner.bins()
    }

    pub fn size(&self) -> usize {
        self.inner.size()
    }

    pub fn hop(&self) -> usize {
        self.inner.hop()
    }

    pub fn frame_rate(&self) -> f32 {
        float(self.inner.frame_rate(&single()))
    }

    pub fn bin_spacing_hz(&self) -> f32 {
        float(self.inner.bin_spacing_hz(&single()))
    }

    pub fn bin_frequency(&self, k: usize) -> f32 {
        float(self.inner.bin_frequency(&single(), k))
    }

    pub fn enbw_hz(&self) -> f32 {
        float(self.inner.enbw_hz(&single()))
    }
}

const DB_FLOOR: f32 = f32::from_bits(FLOOR);

const RATE: f32 = 48_000.0;
const SIZE: usize = 4096;

fn sine(bin: usize, amplitude: f32, len: usize) -> Vec<f32> {
    (0..len)
        .map(|n| amplitude * (TAU * bin as f32 * n as f32 / SIZE as f32).sin())
        .collect()
}

fn analyzer(window: WindowKind, averaging: Averaging) -> SpectrumAnalyzer {
    SpectrumAnalyzer::new(SpectrumConfig {
        sample_rate: RATE,
        size: SIZE,
        window,
        overlap: Overlap::Off,
        averaging,
    })
}

fn peak_bin(power: &[f32]) -> usize {
    power
        .iter()
        .enumerate()
        .max_by(|a, b| a.1.total_cmp(b.1))
        .map(|(k, _)| k)
        .unwrap()
}

#[test]
fn hop_follows_overlap() {
    assert_eq!(Overlap::Off.hop(4096), 4096);
    assert_eq!(Overlap::Half.hop(4096), 2048);
    assert_eq!(Overlap::ThreeQuarters.hop(4096), 1024);
    assert_eq!(Overlap::SevenEighths.hop(4096), 512);
    assert_eq!(Overlap::SevenEighths.hop(4), 1);
}

#[test]
fn full_scale_sine_reads_zero_db_fs() {
    let mut a = analyzer(WindowKind::Hann, Averaging::Off);
    a.push(&sine(64, 1.0, SIZE));

    let mut db = vec![0.0; a.bins()];
    a.write_db_fs(&mut db);

    let peak = peak_bin(a.power());
    assert_eq!(peak, 64);
    assert!(
        db.get(peak).unwrap().abs() < 0.01,
        "expected 0 dBFS, got {}",
        db[peak]
    );
}

#[test]
fn half_amplitude_sine_reads_minus_six_db() {
    let mut a = analyzer(WindowKind::Hann, Averaging::Off);
    a.push(&sine(64, 0.5, SIZE));

    let mut db = vec![0.0; a.bins()];
    a.write_db_fs(&mut db);

    let level = *db.get(peak_bin(a.power())).unwrap();
    assert!(
        (level + 6.0206).abs() < 0.01,
        "expected -6.02 dBFS, got {level}"
    );
}

#[test]
fn measured_level_is_independent_of_window() {
    for window in [
        WindowKind::Rectangular,
        WindowKind::Hann,
        WindowKind::BlackmanHarris,
        WindowKind::FlatTop,
        WindowKind::Tukey { alpha: 0.25 },
    ] {
        let mut a = analyzer(window, Averaging::Off);
        a.push(&sine(64, 0.5, SIZE));

        let mut db = vec![0.0; a.bins()];
        a.write_db_fs(&mut db);
        let level = *db.get(64).unwrap();

        assert!(
            (level + 6.0206).abs() < 0.05,
            "{window:?} read {level} dBFS, expected -6.02"
        );
    }
}

#[test]
fn unwindowed_power_sums_to_mean_square() {
    let mut a = analyzer(WindowKind::Rectangular, Averaging::Off);
    let input: Vec<f32> = (0..SIZE)
        .map(|n| {
            let t = n as f32 / SIZE as f32;
            0.1 + 0.3 * (TAU * 37.0 * t).sin() + 0.2 * (TAU * 211.0 * t).cos()
        })
        .collect();

    a.push(&input);

    let mean_square: f32 = input.iter().map(|x| x * x).sum::<f32>() / SIZE as f32;
    let total: f32 = a.power().iter().sum();
    let error = (mean_square - total).abs() / mean_square;
    assert!(
        error < 1e-4,
        "mean square {mean_square}, spectral total {total}, error {error}"
    );
}

#[test]
fn frames_are_counted_per_hop() {
    let mut a = SpectrumAnalyzer::new(SpectrumConfig {
        sample_rate: RATE,
        size: SIZE,
        window: WindowKind::Hann,
        overlap: Overlap::ThreeQuarters,
        averaging: Averaging::Off,
    });
    assert_eq!(a.hop(), SIZE / 4);

    assert_eq!(a.push(&vec![0.0; SIZE]), 1);
    assert_eq!(a.push(&vec![0.0; SIZE / 4]), 1);
    assert_eq!(a.push(&vec![0.0; SIZE]), 4);
}

#[test]
fn streaming_in_chunks_matches_one_block() {
    let input = sine(97, 0.3, SIZE * 4);

    let mut whole = analyzer(WindowKind::Hann, Averaging::Infinite);
    whole.push(&input);

    let mut chunked = analyzer(WindowKind::Hann, Averaging::Infinite);
    for chunk in input.chunks(113) {
        chunked.push(chunk);
    }

    assert_eq!(whole.frames(), chunked.frames());
    for (k, (a, b)) in whole.power().iter().zip(chunked.power()).enumerate() {
        assert!((a - b).abs() < 1e-9, "bin {k}: {a} vs {b}");
    }
}

#[test]
fn peak_hold_retains_the_maximum() {
    let mut a = analyzer(WindowKind::Hann, Averaging::PeakHold);
    a.push(&sine(64, 1.0, SIZE));
    let loud = *a.power().get(64).unwrap();

    a.push(&sine(64, 0.01, SIZE));
    assert!(
        (a.power().get(64).unwrap() - loud).abs() < 1e-9,
        "peak hold must not decay"
    );
}

#[test]
fn linear_averaging_holds_after_its_frame_count() {
    let mut a = analyzer(WindowKind::Hann, Averaging::Linear { frames: 2 });
    a.push(&sine(64, 1.0, SIZE));
    a.push(&sine(64, 1.0, SIZE));
    let held = *a.power().get(64).unwrap();
    assert_eq!(a.frames(), 2);

    a.push(&sine(64, 0.001, SIZE));
    assert!((a.power().get(64).unwrap() - held).abs() < 1e-9);
}

#[test]
fn exponential_averaging_converges_towards_the_input() {
    let mut a = analyzer(WindowKind::Hann, Averaging::Exponential { alpha: 0.5 });
    a.push(&sine(64, 1.0, SIZE));
    let start = *a.power().get(64).unwrap();

    a.push(&vec![0.0; SIZE]);
    let after = *a.power().get(64).unwrap();
    assert!(after < start, "should decay: {start} -> {after}");
    assert!(after > 0.0, "should not snap to zero: {after}");
}

#[test]
fn exponential_from_time_constant_is_in_range() {
    let Averaging::Exponential { alpha } = Averaging::exponential_over(1.0, 46.875) else {
        panic!("expected exponential");
    };
    assert!(alpha > 0.0 && alpha < 1.0, "alpha {alpha}");

    assert_eq!(Averaging::exponential_over(0.0, 100.0), Averaging::Off);
    assert_eq!(Averaging::exponential_over(1.0, 0.0), Averaging::Off);
}

#[test]
fn reset_clears_average_and_partial_frame() {
    let mut a = analyzer(WindowKind::Hann, Averaging::Infinite);
    a.push(&sine(64, 1.0, SIZE * 2));
    assert!(a.frames() > 0);

    a.reset();
    assert_eq!(a.frames(), 0);
    assert!(a.power().iter().all(|p| *p == 0.0));
}

#[test]
fn bin_geometry_matches_sample_rate() {
    let a = analyzer(WindowKind::Hann, Averaging::Off);
    assert_eq!(a.bins(), SIZE / 2 + 1);
    assert!((a.bin_spacing_hz() - RATE / SIZE as f32).abs() < 1e-6);
    assert!((a.bin_frequency(100) - 100.0 * RATE / SIZE as f32).abs() < 1e-3);

    assert!((a.enbw_hz() - 1.5 * a.bin_spacing_hz()).abs() < 1e-3);
}

#[test]
fn empty_push_is_a_no_op() {
    let mut a = analyzer(WindowKind::Hann, Averaging::Off);
    assert_eq!(a.push(&[]), 0);
    assert_eq!(a.frames(), 0);
}

#[test]
fn silent_input_reads_at_the_floor() {
    let mut a = analyzer(WindowKind::Hann, Averaging::Off);
    a.push(&vec![0.0; SIZE]);

    let mut db = vec![0.0; a.bins()];
    a.write_db_fs(&mut db);
    assert!(db.iter().all(|d| *d <= DB_FLOOR + 1e-3));
    assert!(db.iter().all(|d| d.is_finite()), "floor must be finite");
}

#[test]
fn invalid_settings_are_told_from_valid_ones() {
    let good = SpectrumConfig {
        sample_rate: RATE,
        size: SIZE,
        window: WindowKind::Hann,
        overlap: Overlap::Half,
        averaging: Averaging::Off,
    };
    let valid = |config: SpectrumConfig| spectrum::SpectrumConfig::from(config).is_valid();
    assert!(valid(good));
    assert!(valid(SpectrumConfig { size: 2, ..good }));
    assert!(!valid(SpectrumConfig { size: 0, ..good }));
    assert!(!valid(SpectrumConfig { size: 1023, ..good }));
    assert!(!valid(SpectrumConfig { sample_rate: 0.0, ..good }));
    assert!(!valid(SpectrumConfig { sample_rate: f32::NAN, ..good }));
}

#[test]
fn the_default_settings_are_the_documented_ones() {
    let usual = spectrum::SpectrumConfig::default();
    assert_eq!(float(usual.sample_rate), 48_000.0);
    assert_eq!(usual.size, 4096);
    assert_eq!(usual.window, window::WindowKind::Hann);
    assert_eq!(usual.overlap, spectrum::Overlap::ThreeQuarters);
    assert_eq!(usual.averaging, spectrum::Averaging::Off);
    assert_eq!(Overlap::ThreeQuarters.fraction(), 0.75);
    assert_eq!(Overlap::SevenEighths.fraction(), 0.875);
}

#[test]
fn each_averaging_mode_has_its_own_update() {
    let alpha = number(0.25);
    let toward = spectrum::Averaging::Exponential { alpha };
    assert_eq!(update_for(spectrum::Averaging::Off, 7), Update::Replace);
    assert_eq!(update_for(toward, 0), Update::Replace);
    assert_eq!(update_for(toward, 1), Update::Toward { alpha });
    assert_eq!(update_for(spectrum::Averaging::Linear { frames: 3 }, 2), Update::Mean { earlier: 2 });
    assert_eq!(update_for(spectrum::Averaging::Linear { frames: 3 }, 3), Update::Hold);
    assert_eq!(update_for(spectrum::Averaging::Infinite, 9), Update::Mean { earlier: 9 });
    assert_eq!(update_for(spectrum::Averaging::PeakHold, 0), Update::Replace);
    assert_eq!(update_for(spectrum::Averaging::PeakHold, 1), Update::Peak);
}

#[test]
fn an_exponential_weight_is_exact() {
    let expected = (1.0 - (-1.0 / (0.5_f32 * 100.0)).exp()).clamp(f32::MIN_POSITIVE, 1.0);
    let Averaging::Exponential { alpha } = Averaging::exponential_over(0.5, 100.0) else {
        panic!("expected exponential");
    };
    assert_eq!(alpha.to_bits(), expected.to_bits());
}

#[test]
fn a_peak_never_falls_and_a_finished_average_never_moves() {
    let mut held = analyzer(WindowKind::Hann, Averaging::PeakHold);
    let mut done = analyzer(WindowKind::Hann, Averaging::Linear { frames: 1 });
    held.push(&sine(64, 0.5, SIZE));
    done.push(&sine(64, 0.5, SIZE));
    let (peaks, mean) = (held.power().to_vec(), done.power().to_vec());
    for (bin, amplitude) in [(10, 0.1), (64, 1.0), (200, 0.7)] {
        held.push(&sine(bin, amplitude, SIZE));
        done.push(&sine(bin, amplitude, SIZE));
    }
    assert!(held.power().iter().zip(&peaks).all(|(now, before)| now >= before));
    assert_eq!(done.power(), mean);
}

#[test]
fn a_level_is_exact() {
    let power = 0.03125_f32;
    let level = float(spectrum::level(&single(), number(power)));
    let expected = (10.0 * (power * 2.0).log10()).max(DB_FLOOR);
    assert_eq!(level.to_bits(), expected.to_bits());
    assert_eq!(float(spectrum::level(&single(), number(0.0))), DB_FLOOR);
}

#[test]
fn a_finished_linear_average_counts_no_further_frames() {
    let mut analyzer = SpectrumAnalyzer::new(SpectrumConfig {
        sample_rate: 48_000.0,
        size: 4096,
        window: WindowKind::Hann,
        overlap: Overlap::Off,
        averaging: Averaging::Linear { frames: 2 },
    });
    assert_eq!(analyzer.push(&[0.0; 12_288]), 3);
    assert_eq!(analyzer.frames(), 2);
}
