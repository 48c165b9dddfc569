//! The spliced response, through the single-precision numbers it stands for.

use analyzer::arith::{Arith, Calc, Complex, Wide, WideArith};
use analyzer::dsp::fft::Forward;
use analyzer::dsp::{generator, mtw, spectrum, transfer, window};
use analyzer::ieee::{F32, F64};
use realfft::RealFftPlanner;
use std::cell::RefCell;

/// The bit pattern of `x`.
pub fn number(x: f32) -> F32 {
    F32 { bits: x.to_bits() }
}

/// The number with the bit pattern `x`.
pub fn float(x: F32) -> f32 {
    f32::from_bits(x.bits)
}

/// The bit patterns of `xs`.
pub fn numbers(xs: &[f32]) -> Vec<F32> {
    xs.iter().copied().map(number).collect()
}

/// The numbers with the bit patterns `xs`.
pub fn floats(xs: &[F32]) -> Vec<f32> {
    xs.iter().copied().map(float).collect()
}

/// One step of single-precision arithmetic, by the machine's own operations.
pub fn calculate(step: Calc) -> F32 {
    number(match step {
        Calc::Plus(a, b) => float(a) + float(b),
        Calc::Minus(a, b) => float(a) - float(b),
        Calc::Times(a, b) => float(a) * float(b),
        Calc::Over(a, b) => float(a) / float(b),
        Calc::Root(a) => float(a).sqrt(),
        Calc::Sine(a) => float(a).sin(),
        Calc::Cosine(a) => float(a).cos(),
        Calc::Tangent(a) => float(a).tan(),
        Calc::Exp(a) => float(a).exp(),
        Calc::Ln(a) => float(a).ln(),
        Calc::Log2(a) => float(a).log2(),
        Calc::Log10(a) => float(a).log10(),
        Calc::Power(a, b) => float(a).powf(float(b)),
        Calc::Hypot(a, b) => float(a).hypot(float(b)),
        Calc::Angle(a, b) => float(a).atan2(float(b)),
        Calc::Degrees(a) => float(a).to_degrees(),
        Calc::Remainder(a, b) => float(a).rem_euclid(float(b)),
        Calc::Floor(a) => float(a).floor(),
        Calc::Count(n) => n as f32,
        Calc::Whole(n) => n as f32,
        Calc::Narrow(a) => double(a) as f32,
    })
}

/// The number with the bit pattern `x`.
pub fn double(x: F64) -> f64 {
    f64::from_bits(x.bits)
}

/// Single-precision arithmetic.
pub type Single = Arith<fn(Calc) -> F32>;

/// The machine's single-precision arithmetic.
pub fn single() -> Single {
    Arith::new(calculate)
}

/// The bit pattern of `x`.
pub fn wide_number(x: f64) -> F64 {
    F64 { bits: x.to_bits() }
}

/// One step of double-precision arithmetic, by the machine's own operations.
pub fn calculate_wide(step: Wide) -> F64 {
    wide_number(match step {
        Wide::Plus(a, b) => double(a) + double(b),
        Wide::Minus(a, b) => double(a) - double(b),
        Wide::Times(a, b) => double(a) * double(b),
        Wide::Over(a, b) => double(a) / double(b),
        Wide::Root(a) => double(a).sqrt(),
        Wide::Sine(a) => double(a).sin(),
        Wide::Exp(a) => double(a).exp(),
        Wide::Ln(a) => double(a).ln(),
        Wide::Count(n) => n as f64,
        Wide::Widen(a) => f64::from(float(a)),
    })
}

/// Double-precision arithmetic.
pub type Precise = WideArith<fn(Wide) -> F64>;

/// The machine's double-precision arithmetic.
pub fn precise() -> Precise {
    WideArith::new(calculate_wide)
}

/// A forward transform of real frames.
pub type ForwardFft = Forward<Box<dyn Fn(&[F32]) -> Vec<Complex> + Send>>;

/// The forward transform of `realfft`, which keeps the plans it has made.
pub fn forward() -> ForwardFft {
    let planner = RefCell::new(RealFftPlanner::<f32>::new());
    Forward::new(Box::new(move |frame: &[F32]| {
        let plan = planner.borrow_mut().plan_fft_forward(frame.len());
        let mut input = floats(frame);
        let mut output = plan.make_output_vec();
        plan.process(&mut input, &mut output).expect("buffers match the plan");
        output.iter().map(|z| Complex { re: number(z.re), im: number(z.im) }).collect()
    }))
}

/// A window shape.
#[derive(Debug, Clone, Copy, PartialEq)]
pub enum WindowKind {
    Rectangular,
    Hann,
    BlackmanHarris,
    FlatTop,
    Tukey { alpha: f32 },
}

impl From<WindowKind> for window::WindowKind {
    fn from(kind: WindowKind) -> Self {
        match kind {
            WindowKind::Rectangular => Self::Rectangular,
            WindowKind::Hann => Self::Hann,
            WindowKind::BlackmanHarris => Self::BlackmanHarris,
            WindowKind::FlatTop => Self::FlatTop,
            WindowKind::Tukey { alpha } => Self::Tukey { alpha: number(alpha) },
        }
    }
}

impl From<window::WindowKind> for WindowKind {
    fn from(kind: window::WindowKind) -> Self {
        match kind {
            window::WindowKind::Rectangular => Self::Rectangular,
            window::WindowKind::Hann => Self::Hann,
            window::WindowKind::BlackmanHarris => Self::BlackmanHarris,
            window::WindowKind::FlatTop => Self::FlatTop,
            window::WindowKind::Tukey { alpha } => Self::Tukey { alpha: float(alpha) },
        }
    }
}

/// How much consecutive frames overlap.
#[derive(Debug, Clone, Copy, PartialEq, Eq)]
pub enum Overlap {
    Off,
    Half,
    ThreeQuarters,
    SevenEighths,
}

impl From<Overlap> for spectrum::Overlap {
    fn from(overlap: Overlap) -> Self {
        match overlap {
            Overlap::Off => Self::Off,
            Overlap::Half => Self::Half,
            Overlap::ThreeQuarters => Self::ThreeQuarters,
            Overlap::SevenEighths => Self::SevenEighths,
        }
    }
}

impl Overlap {
    pub fn hop(self, size: usize) -> usize {
        spectrum::Overlap::from(self).hop(size)
    }

    pub fn fraction(self) -> f32 {
        float(spectrum::Overlap::from(self).fraction())
    }
}

/// How frame products are combined.
#[derive(Debug, Clone, Copy, PartialEq)]
pub enum TransferAveraging {
    Infinite,
    Exponential { alpha: f32 },
}

impl From<TransferAveraging> for transfer::TransferAveraging {
    fn from(averaging: TransferAveraging) -> Self {
        match averaging {
            TransferAveraging::Infinite => Self::Infinite,
            TransferAveraging::Exponential { alpha } => Self::Exponential { alpha: number(alpha) },
        }
    }
}

/// One point of the spliced response.
#[derive(Debug, Clone, Copy, PartialEq, Default)]
pub struct MtwPoint {
    pub hz: f32,
    pub magnitude_db: f32,
    pub phase_degrees: f32,
    pub coherence: f32,
    pub fft_size: usize,
}

/// How the bands are laid out and measured.
#[derive(Debug, Clone, Copy, PartialEq)]
pub struct MtwConfig {
    pub sample_rate: f32,
    pub largest_fft: usize,
    pub smallest_fft: usize,
    pub window: WindowKind,
    pub overlap: Overlap,
    pub averaging: TransferAveraging,
    pub points_per_octave: usize,
    pub min_hz: f32,
}

impl Default for MtwConfig {
    fn default() -> Self {
        Self {
            sample_rate: 48_000.0,
            largest_fft: 32_768,
            smallest_fft: 256,
            window: WindowKind::Hann,
            overlap: Overlap::Half,
            averaging: TransferAveraging::Exponential { alpha: 0.2 },
            points_per_octave: 48,
            min_hz: 20.0,
        }
    }
}

impl From<MtwConfig> for mtw::MtwConfig {
    fn from(config: MtwConfig) -> Self {
        Self {
            sample_rate: number(config.sample_rate),
            largest_fft: config.largest_fft,
            smallest_fft: config.smallest_fft,
            window: config.window.into(),
            overlap: config.overlap.into(),
            averaging: config.averaging.into(),
            points_per_octave: config.points_per_octave,
            min_hz: number(config.min_hz),
        }
    }
}

/// A transfer function spliced from several window lengths.
pub struct MultiTimeWindow {
    inner: mtw::MultiTimeWindow,
    fft: ForwardFft,
    points: Vec<MtwPoint>,
}

impl MultiTimeWindow {
    pub fn new(config: MtwConfig) -> Self {
        let config = mtw::MtwConfig::from(config);
        assert!(
            config.is_valid(),
            "FFT sizes must be powers of two, ascending, with a positive rate and grid"
        );
        let mut built = Self {
            inner: mtw::MultiTimeWindow::new(&single(), config),
            fft: forward(),
            points: Vec::new(),
        };
        built.refresh();
        built
    }

    fn refresh(&mut self) {
        self.points = self
            .inner
            .points()
            .iter()
            .map(|p| MtwPoint {
                hz: float(p.hz),
                magnitude_db: float(p.magnitude_db),
                phase_degrees: float(p.phase_degrees),
                coherence: float(p.coherence),
                fft_size: p.fft_size,
            })
            .collect();
    }

    pub fn push(&mut self, reference: &[f32], measurement: &[f32]) -> usize {
        assert_eq!(
            reference.len(),
            measurement.len(),
            "reference and measurement must be sample aligned"
        );
        self.inner.push(&single(), &self.fft, &numbers(reference), &numbers(measurement))
    }

    pub fn resolve(&mut self) {
        self.inner.resolve(&single());
        self.refresh();
    }

    pub fn points(&self) -> &[MtwPoint] {
        &self.points
    }

    pub fn frames(&self) -> u32 {
        self.inner.frames()
    }

    pub fn fft_sizes(&self) -> Vec<usize> {
        self.inner.fft_sizes()
    }

    pub fn finest_resolution_hz(&self) -> f32 {
        float(self.inner.finest_resolution_hz(&single()))
    }

    pub fn longest_window_seconds(&self) -> f32 {
        float(self.inner.longest_window_seconds(&single()))
    }

    pub fn reset(&mut self) {
        self.inner.reset();
        self.refresh();
    }
}

/// What a generator plays.
#[derive(Debug, Clone, Copy, PartialEq)]
pub enum Signal {
    Silence,
    Sine { hz: f32, amplitude: f32 },
    WhiteNoise { amplitude: f32 },
    PinkNoise { amplitude: f32 },
    Sweep { start_hz: f32, end_hz: f32, seconds: f32, amplitude: f32, repeat: bool },
}

impl From<Signal> for generator::Signal {
    fn from(signal: Signal) -> Self {
        match signal {
            Signal::Silence => Self::Silence,
            Signal::Sine { hz, amplitude } => {
                Self::Sine { hz: number(hz), amplitude: number(amplitude) }
            }
            Signal::WhiteNoise { amplitude } => Self::WhiteNoise { amplitude: number(amplitude) },
            Signal::PinkNoise { amplitude } => Self::PinkNoise { amplitude: number(amplitude) },
            Signal::Sweep { start_hz, end_hz, seconds, amplitude, repeat } => Self::Sweep {
                start_hz: number(start_hz),
                end_hz: number(end_hz),
                seconds: number(seconds),
                amplitude: number(amplitude),
                repeat,
            },
        }
    }
}

impl From<generator::Signal> for Signal {
    fn from(signal: generator::Signal) -> Self {
        match signal {
            generator::Signal::Silence => Self::Silence,
            generator::Signal::Sine { hz, amplitude } => {
                Self::Sine { hz: float(hz), amplitude: float(amplitude) }
            }
            generator::Signal::WhiteNoise { amplitude } => {
                Self::WhiteNoise { amplitude: float(amplitude) }
            }
            generator::Signal::PinkNoise { amplitude } => {
                Self::PinkNoise { amplitude: float(amplitude) }
            }
            generator::Signal::Sweep { start_hz, end_hz, seconds, amplitude, repeat } => {
                Self::Sweep {
                    start_hz: float(start_hz),
                    end_hz: float(end_hz),
                    seconds: float(seconds),
                    amplitude: float(amplitude),
                    repeat,
                }
            }
        }
    }
}

/// A source of test signals.
pub struct Generator {
    inner: generator::Generator,
    samples: Vec<F32>,
}

impl Generator {
    pub fn new(sample_rate: f32, signal: Signal, seed: u64) -> Self {
        assert!(sample_rate > 0.0, "sample rate must be positive, got {sample_rate}");
        Self {
            inner: generator::Generator::new(&precise(), number(sample_rate), signal.into(), seed),
            samples: Vec::new(),
        }
    }

    pub fn set_signal(&mut self, signal: Signal) {
        self.inner.set_signal(signal.into());
    }

    pub fn signal(&self) -> Signal {
        self.inner.signal().into()
    }

    pub fn reset(&mut self) {
        self.inner.reset();
    }

    pub fn is_finished(&self) -> bool {
        self.inner.is_finished()
    }

    pub fn fill(&mut self, out: &mut [f32]) {
        self.samples.clear();
        self.samples.resize(out.len(), number(0.0));
        self.inner.fill(&single(), &precise(), &mut self.samples);
        for (slot, sample) in out.iter_mut().zip(&self.samples) {
            *slot = float(*sample);
        }
    }
}

const RATE: f32 = 48_000.0;

fn config() -> MtwConfig {
    MtwConfig {
        sample_rate: RATE,
        largest_fft: 16_384,
        smallest_fft: 256,
        averaging: TransferAveraging::Infinite,
        ..MtwConfig::default()
    }
}

fn pink(samples: usize, seed: u64) -> Vec<f32> {
    let mut generator = Generator::new(RATE, Signal::PinkNoise { amplitude: 0.5 }, seed);
    let mut out = vec![0.0; samples];
    generator.fill(&mut out);
    out
}

fn usable(points: &[MtwPoint]) -> Vec<&MtwPoint> {
    points
        .iter()
        .filter(|p| p.hz >= 100.0 && p.hz <= 10_000.0 && p.fft_size > 0)
        .collect()
}

#[test]
fn bands_double_in_size_and_cover_the_whole_spectrum() {
    let mtw = MultiTimeWindow::new(config());
    let sizes = mtw.fft_sizes();
    assert_eq!(sizes, vec![256, 512, 1024, 2048, 4096, 8192, 16_384]);
    assert!((mtw.finest_resolution_hz() - RATE / 16_384.0).abs() < 1e-3);
}

#[test]
fn the_point_count_collapses_against_a_single_large_fft() {
    let mtw = MultiTimeWindow::new(config());
    let single_fft_bins = 16_384 / 2 + 1;
    assert!(
        mtw.points().len() < single_fft_bins / 10,
        "{} points vs {single_fft_bins} bins",
        mtw.points().len()
    );
    assert!(mtw.finest_resolution_hz() < 3.0);
}

#[test]
fn a_wire_measures_flat_across_every_band() {
    let signal = pink(16_384 * 8, 1);
    let mut mtw = MultiTimeWindow::new(config());
    mtw.push(&signal, &signal);
    mtw.resolve();

    for point in usable(mtw.points()) {
        assert!(
            point.magnitude_db.abs() < 0.2,
            "{:.0} Hz (fft {}): {} dB",
            point.hz,
            point.fft_size,
            point.magnitude_db
        );
        assert!(
            point.phase_degrees.abs() < 2.0,
            "{:.0} Hz: {}°",
            point.hz,
            point.phase_degrees
        );
        assert!(
            point.coherence > 0.98,
            "{:.0} Hz: γ² {}",
            point.hz,
            point.coherence
        );
    }
}

#[test]
fn a_gain_is_continuous_across_the_splices() {
    let reference = pink(16_384 * 8, 2);
    let measurement: Vec<f32> = reference.iter().map(|s| s * 2.0).collect();

    let mut mtw = MultiTimeWindow::new(config());
    mtw.push(&reference, &measurement);
    mtw.resolve();

    let points = usable(mtw.points());
    for point in &points {
        assert!(
            (point.magnitude_db - 6.0206).abs() < 0.3,
            "{:.0} Hz (fft {}): {} dB",
            point.hz,
            point.fft_size,
            point.magnitude_db
        );
    }

    for pair in points.windows(2) {
        if pair[0].fft_size != pair[1].fft_size {
            let step = (pair[1].magnitude_db - pair[0].magnitude_db).abs();
            assert!(
                step < 0.3,
                "discontinuity of {step:.2} dB at the {}/{} crossover near {:.0} Hz",
                pair[0].fft_size,
                pair[1].fft_size,
                pair[0].hz
            );
        }
    }
}

#[test]
fn phase_from_a_delay_is_continuous_across_the_splices() {
    let delay = 24_usize;
    let reference = pink(16_384 * 8, 3);
    let mut measurement = vec![0.0; reference.len()];
    measurement[delay..].copy_from_slice(&reference[..reference.len() - delay]);

    let mut mtw = MultiTimeWindow::new(config());
    mtw.push(&reference, &measurement);
    mtw.resolve();

    let expected_at = |hz: f32| -> f32 {
        let raw = -360.0 * hz * delay as f32 / RATE;
        let wrapped = raw.rem_euclid(360.0);
        if wrapped > 180.0 {
            wrapped - 360.0
        } else {
            wrapped
        }
    };

    for point in usable(mtw.points()) {
        let want = expected_at(point.hz);
        let mut error = (point.phase_degrees - want).abs();
        if error > 180.0 {
            error = 360.0 - error;
        }
        assert!(
            error < 6.0,
            "{:.0} Hz (fft {}): phase {:.1}°, expected {:.1}°",
            point.hz,
            point.fft_size,
            point.phase_degrees,
            want
        );
    }
}

#[test]
fn interpolation_survives_phase_wrapping_between_bins() {
    let delay = 64_usize;
    let reference = pink(16_384 * 8, 4);
    let mut measurement = vec![0.0; reference.len()];
    measurement[delay..].copy_from_slice(&reference[..reference.len() - delay]);

    let mut mtw = MultiTimeWindow::new(MtwConfig {
        smallest_fft: 1024,
        ..config()
    });
    mtw.push(&reference, &measurement);
    mtw.resolve();

    for point in usable(mtw.points()) {
        assert!(
            point.magnitude_db.abs() < 0.3,
            "{:.0} Hz (fft {}): magnitude {} dB - interpolation should not \
             lose level to a wrap",
            point.hz,
            point.fft_size,
            point.magnitude_db
        );
    }
}

#[test]
fn uncompensated_delay_costs_magnitude_and_coherence() {
    let reference = pink(16_384 * 8, 20);

    let measure = |delay: usize| -> (f32, f32) {
        let mut measurement = vec![0.0; reference.len()];
        measurement[delay..].copy_from_slice(&reference[..reference.len() - delay]);
        let mut mtw = MultiTimeWindow::new(config());
        mtw.push(&reference, &measurement);
        mtw.resolve();
        let points: Vec<&MtwPoint> = mtw
            .points()
            .iter()
            .filter(|p| p.hz >= 13_000.0 && p.hz <= 20_000.0)
            .collect();
        let magnitude =
            points.iter().map(|p| p.magnitude_db).sum::<f32>() / points.len() as f32;
        let coherence = points.iter().map(|p| p.coherence).sum::<f32>() / points.len() as f32;
        (magnitude, coherence)
    };

    let (aligned_db, aligned_coherence) = measure(4);
    let (delayed_db, delayed_coherence) = measure(200);

    assert!(
        aligned_db.abs() < 0.3,
        "a nearly aligned measurement should read flat, got {aligned_db}"
    );
    assert!(
        delayed_db < aligned_db - 0.3,
        "200 samples against a 256-point window should cost level: \
         {aligned_db:.2} -> {delayed_db:.2} dB"
    );
    assert!(
        delayed_coherence < aligned_coherence - 0.05,
        "and coherence: {aligned_coherence:.3} -> {delayed_coherence:.3}"
    );
}

#[test]
fn uncorrelated_input_gives_low_coherence_in_every_band() {
    let reference = pink(16_384 * 8, 5);
    let measurement = pink(16_384 * 8, 6);

    let mut mtw = MultiTimeWindow::new(config());
    mtw.push(&reference, &measurement);
    mtw.resolve();

    let points = usable(mtw.points());
    let mean: f32 = points.iter().map(|p| p.coherence).sum::<f32>() / points.len() as f32;
    assert!(mean < 0.4, "mean coherence {mean} for uncorrelated signals");
}

#[test]
fn every_point_is_assigned_to_exactly_one_band() {
    let signal = pink(16_384 * 4, 7);
    let mut mtw = MultiTimeWindow::new(config());
    mtw.push(&signal, &signal);
    mtw.resolve();

    for point in mtw.points() {
        assert!(
            point.fft_size > 0,
            "{:.1} Hz was covered by no band",
            point.hz
        );
    }
}

#[test]
fn low_frequencies_use_the_longest_window() {
    let signal = pink(16_384 * 4, 8);
    let mut mtw = MultiTimeWindow::new(config());
    mtw.push(&signal, &signal);
    mtw.resolve();

    let lowest = mtw.points().first().unwrap();
    let highest = mtw.points().last().unwrap();
    assert!(
        lowest.fft_size > highest.fft_size,
        "bass used fft {} and treble used {}",
        lowest.fft_size,
        highest.fft_size
    );
    assert_eq!(lowest.fft_size, 16_384);
}

#[test]
fn the_grid_is_logarithmic() {
    let mtw = MultiTimeWindow::new(config());
    let points = mtw.points();
    let first_ratio = points[1].hz / points[0].hz;
    for pair in points.windows(2) {
        let ratio = pair[1].hz / pair[0].hz;
        assert!(
            (ratio - first_ratio).abs() < 1e-4,
            "ratio drifted: {ratio} vs {first_ratio}"
        );
    }
    assert!((first_ratio - 2.0_f32.powf(1.0 / 48.0)).abs() < 1e-5);
}

#[test]
fn reset_clears_every_band() {
    let signal = pink(16_384 * 4, 9);
    let mut mtw = MultiTimeWindow::new(config());
    mtw.push(&signal, &signal);
    mtw.resolve();
    assert!(mtw.frames() > 0);

    mtw.reset();
    assert_eq!(mtw.frames(), 0);
    assert!(mtw.points().iter().all(|p| p.coherence == 0.0));
}

#[test]
fn window_length_and_resolution_are_reported_honestly() {
    let mtw = MultiTimeWindow::new(MtwConfig {
        largest_fft: 32_768,
        ..config()
    });
    assert!((mtw.finest_resolution_hz() - 1.4648).abs() < 0.01);
    assert!((mtw.longest_window_seconds() - 0.6827).abs() < 0.01);
}

#[test]
fn invalid_bands_are_told_from_valid_ones() {
    let valid = |config: MtwConfig| mtw::MtwConfig::from(config).is_valid();
    assert!(valid(config()));
    assert!(!valid(MtwConfig { largest_fft: 12_000, ..config() }));
    assert!(!valid(MtwConfig { smallest_fft: 32_768, ..config() }));
    assert!(!valid(MtwConfig { sample_rate: 0.0, ..config() }));
    assert!(!valid(MtwConfig { points_per_octave: 0, ..config() }));
}

#[test]
fn pushing_in_chunks_is_pushing_at_once() {
    let (reference, measurement) = (pink(20_000, 41), pink(20_000, 42));
    let small = MtwConfig { largest_fft: 2048, ..config() };
    let mut whole = MultiTimeWindow::new(small);
    whole.push(&reference, &measurement);
    whole.resolve();
    let mut chunked = MultiTimeWindow::new(small);
    for (r, m) in reference.chunks(777).zip(measurement.chunks(777)) {
        chunked.push(r, m);
    }
    chunked.resolve();
    assert_eq!(whole.points(), chunked.points());
    assert_eq!(whole.frames(), chunked.frames());
}

#[test]
fn the_top_band_holds_nyquist() {
    let mut mtw = MultiTimeWindow::new(MtwConfig {
        min_hz: 12_000.0,
        points_per_octave: 1,
        ..MtwConfig::default()
    });
    mtw.resolve();
    let places: Vec<(f32, usize)> =
        mtw.points().iter().map(|point| (point.hz, point.fft_size)).collect();
    assert_eq!(places, [(12_000.0, 256), (24_000.0, 256)]);
}

#[test]
fn the_points_ascend_from_the_lowest_frequency_to_nyquist() {
    let mtw = MultiTimeWindow::new(config());
    let points = mtw.points();
    assert_eq!(points[0].hz, config().min_hz);
    assert!(points.windows(2).all(|pair| pair[0].hz < pair[1].hz));
    assert!(points.last().unwrap().hz <= config().sample_rate / 2.0);
}
