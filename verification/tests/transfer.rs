//! The two-channel measurement, through the single-precision numbers it stands for.

use analyzer::arith::{Arith, Calc, Complex, Wide, WideArith};
use analyzer::dsp::fft::Forward;
use analyzer::dsp::transfer::MAGNITUDE_FLOOR_DB as FLOOR;
use analyzer::dsp::{generator, spectrum, transfer, window};
use analyzer::ieee::{F32, F64};
use realfft::RealFftPlanner;
use std::cell::RefCell;

/// The bit pattern of `x`.
pub fn number(x: f32) -> F32 {
    F32 { bits: x.to_bits() }
}

/// The number with the bit pattern `x`.
pub fn float(x: F32) -> f32 {
    f32::from_bits(x.bits)
}

/// The bit patterns of `xs`.
pub fn numbers(xs: &[f32]) -> Vec<F32> {
    xs.iter().copied().map(number).collect()
}

/// The numbers with the bit patterns `xs`.
pub fn floats(xs: &[F32]) -> Vec<f32> {
    xs.iter().copied().map(float).collect()
}

/// One step of single-precision arithmetic, by the machine's own operations.
pub fn calculate(step: Calc) -> F32 {
    number(match step {
        Calc::Plus(a, b) => float(a) + float(b),
        Calc::Minus(a, b) => float(a) - float(b),
        Calc::Times(a, b) => float(a) * float(b),
        Calc::Over(a, b) => float(a) / float(b),
        Calc::Root(a) => float(a).sqrt(),
        Calc::Sine(a) => float(a).sin(),
        Calc::Cosine(a) => float(a).cos(),
        Calc::Tangent(a) => float(a).tan(),
        Calc::Exp(a) => float(a).exp(),
        Calc::Ln(a) => float(a).ln(),
        Calc::Log2(a) => float(a).log2(),
        Calc::Log10(a) => float(a).log10(),
        Calc::Power(a, b) => float(a).powf(float(b)),
        Calc::Hypot(a, b) => float(a).hypot(float(b)),
        Calc::Angle(a, b) => float(a).atan2(float(b)),
        Calc::Degrees(a) => float(a).to_degrees(),
        Calc::Remainder(a, b) => float(a).rem_euclid(float(b)),
        Calc::Floor(a) => float(a).floor(),
        Calc::Count(n) => n as f32,
        Calc::Whole(n) => n as f32,
        Calc::Narrow(a) => double(a) as f32,
    })
}

/// The number with the bit pattern `x`.
pub fn double(x: F64) -> f64 {
    f64::from_bits(x.bits)
}

/// Single-precision arithmetic.
pub type Single = Arith<fn(Calc) -> F32>;

/// The machine's single-precision arithmetic.
pub fn single() -> Single {
    Arith::new(calculate)
}

/// The bit pattern of `x`.
pub fn wide_number(x: f64) -> F64 {
    F64 { bits: x.to_bits() }
}

/// One step of double-precision arithmetic, by the machine's own operations.
pub fn calculate_wide(step: Wide) -> F64 {
    wide_number(match step {
        Wide::Plus(a, b) => double(a) + double(b),
        Wide::Minus(a, b) => double(a) - double(b),
        Wide::Times(a, b) => double(a) * double(b),
        Wide::Over(a, b) => double(a) / double(b),
        Wide::Root(a) => double(a).sqrt(),
        Wide::Sine(a) => double(a).sin(),
        Wide::Exp(a) => double(a).exp(),
        Wide::Ln(a) => double(a).ln(),
        Wide::Count(n) => n as f64,
        Wide::Widen(a) => f64::from(float(a)),
    })
}

/// Double-precision arithmetic.
pub type Precise = WideArith<fn(Wide) -> F64>;

/// The machine's double-precision arithmetic.
pub fn precise() -> Precise {
    WideArith::new(calculate_wide)
}

/// A forward transform of real frames.
pub type ForwardFft = Forward<Box<dyn Fn(&[F32]) -> Vec<Complex> + Send>>;

/// The forward transform of `realfft`, which keeps the plans it has made.
pub fn forward() -> ForwardFft {
    let planner = RefCell::new(RealFftPlanner::<f32>::new());
    Forward::new(Box::new(move |frame: &[F32]| {
        let plan = planner.borrow_mut().plan_fft_forward(frame.len());
        let mut input = floats(frame);
        let mut output = plan.make_output_vec();
        plan.process(&mut input, &mut output).expect("buffers match the plan");
        output.iter().map(|z| Complex { re: number(z.re), im: number(z.im) }).collect()
    }))
}

/// A window shape.
#[derive(Debug, Clone, Copy, PartialEq)]
pub enum WindowKind {
    Rectangular,
    Hann,
    BlackmanHarris,
    FlatTop,
    Tukey { alpha: f32 },
}

impl From<WindowKind> for window::WindowKind {
    fn from(kind: WindowKind) -> Self {
        match kind {
            WindowKind::Rectangular => Self::Rectangular,
            WindowKind::Hann => Self::Hann,
            WindowKind::BlackmanHarris => Self::BlackmanHarris,
            WindowKind::FlatTop => Self::FlatTop,
            WindowKind::Tukey { alpha } => Self::Tukey { alpha: number(alpha) },
        }
    }
}

impl From<window::WindowKind> for WindowKind {
    fn from(kind: window::WindowKind) -> Self {
        match kind {
            window::WindowKind::Rectangular => Self::Rectangular,
            window::WindowKind::Hann => Self::Hann,
            window::WindowKind::BlackmanHarris => Self::BlackmanHarris,
            window::WindowKind::FlatTop => Self::FlatTop,
            window::WindowKind::Tukey { alpha } => Self::Tukey { alpha: float(alpha) },
        }
    }
}

/// How much consecutive frames overlap.
#[derive(Debug, Clone, Copy, PartialEq, Eq)]
pub enum Overlap {
    Off,
    Half,
    ThreeQuarters,
    SevenEighths,
}

impl From<Overlap> for spectrum::Overlap {
    fn from(overlap: Overlap) -> Self {
        match overlap {
            Overlap::Off => Self::Off,
            Overlap::Half => Self::Half,
            Overlap::ThreeQuarters => Self::ThreeQuarters,
            Overlap::SevenEighths => Self::SevenEighths,
        }
    }
}

impl Overlap {
    pub fn hop(self, size: usize) -> usize {
        spectrum::Overlap::from(self).hop(size)
    }

    pub fn fraction(self) -> f32 {
        float(spectrum::Overlap::from(self).fraction())
    }
}

/// How frame products are combined.
#[derive(Debug, Clone, Copy, PartialEq)]
pub enum TransferAveraging {
    Infinite,
    Exponential { alpha: f32 },
}

impl From<TransferAveraging> for transfer::TransferAveraging {
    fn from(averaging: TransferAveraging) -> Self {
        match averaging {
            TransferAveraging::Infinite => Self::Infinite,
            TransferAveraging::Exponential { alpha } => Self::Exponential { alpha: number(alpha) },
        }
    }
}

/// How a transfer function is measured.
#[derive(Debug, Clone, Copy, PartialEq)]
pub struct TransferConfig {
    pub sample_rate: f32,
    pub size: usize,
    pub window: WindowKind,
    pub overlap: Overlap,
    pub averaging: TransferAveraging,
}

impl From<TransferConfig> for transfer::TransferConfig {
    fn from(config: TransferConfig) -> Self {
        Self {
            sample_rate: number(config.sample_rate),
            size: config.size,
            window: config.window.into(),
            overlap: config.overlap.into(),
            averaging: config.averaging.into(),
        }
    }
}

/// A running two-channel measurement.
pub struct TransferFunction {
    inner: transfer::TransferFunction,
    fft: ForwardFft,
}

impl TransferFunction {
    pub fn new(config: TransferConfig) -> Self {
        let config = transfer::TransferConfig::from(config);
        assert!(config.is_valid(), "FFT size must be even, sample rate positive");
        Self { inner: transfer::TransferFunction::new(&single(), config), fft: forward() }
    }

    pub fn push(&mut self, reference: &[f32], measurement: &[f32]) -> usize {
        assert_eq!(
            reference.len(),
            measurement.len(),
            "reference and measurement must be sample aligned"
        );
        self.inner.push(&single(), &self.fft, &numbers(reference), &numbers(measurement))
    }

    fn write(&self, out: &mut [f32], fill: impl Fn(&Single, &mut [F32])) {
        assert_eq!(out.len(), self.bins(), "output length must equal the bin count");
        let mut values = numbers(out);
        fill(&single(), &mut values);
        out.copy_from_slice(&floats(&values));
    }

    pub fn write_magnitude_db(&self, out: &mut [f32]) {
        self.write(out, |m, values| self.inner.write_magnitude_db(m, values));
    }

    pub fn write_phase_degrees(&self, out: &mut [f32]) {
        self.write(out, |m, values| self.inner.write_phase_degrees(m, values));
    }

    pub fn write_coherence(&self, out: &mut [f32]) {
        self.write(out, |m, values| self.inner.write_coherence(m, values));
    }

    pub fn frames(&self) -> u32 {
        self.inner.frames()
    }

    pub fn bins(&self) -> usize {
        self.inner.bins()
    }

    pub fn size(&self) -> usize {
        self.inner.size()
    }

    pub fn hop(&self) -> usize {
        self.inner.hop()
    }

    pub fn bin_spacing_hz(&self) -> f32 {
        float(self.inner.bin_spacing_hz(&single()))
    }

    pub fn bin_frequency(&self, index: usize) -> f32 {
        float(self.inner.bin_frequency(&single(), index))
    }

    pub fn reset(&mut self) {
        self.inner.reset();
    }
}

/// Remove the jumps of a whole turn from a phase curve.
pub fn unwrap_phase_degrees(phase: &mut [f32]) {
    let mut values = numbers(phase);
    transfer::unwrap_phase_degrees(&single(), &mut values);
    phase.copy_from_slice(&floats(&values));
}

/// What a generator plays.
#[derive(Debug, Clone, Copy, PartialEq)]
pub enum Signal {
    Silence,
    Sine { hz: f32, amplitude: f32 },
    WhiteNoise { amplitude: f32 },
    PinkNoise { amplitude: f32 },
    Sweep { start_hz: f32, end_hz: f32, seconds: f32, amplitude: f32, repeat: bool },
}

impl From<Signal> for generator::Signal {
    fn from(signal: Signal) -> Self {
        match signal {
            Signal::Silence => Self::Silence,
            Signal::Sine { hz, amplitude } => {
                Self::Sine { hz: number(hz), amplitude: number(amplitude) }
            }
            Signal::WhiteNoise { amplitude } => Self::WhiteNoise { amplitude: number(amplitude) },
            Signal::PinkNoise { amplitude } => Self::PinkNoise { amplitude: number(amplitude) },
            Signal::Sweep { start_hz, end_hz, seconds, amplitude, repeat } => Self::Sweep {
                start_hz: number(start_hz),
                end_hz: number(end_hz),
                seconds: number(seconds),
                amplitude: number(amplitude),
                repeat,
            },
        }
    }
}

impl From<generator::Signal> for Signal {
    fn from(signal: generator::Signal) -> Self {
        match signal {
            generator::Signal::Silence => Self::Silence,
            generator::Signal::Sine { hz, amplitude } => {
                Self::Sine { hz: float(hz), amplitude: float(amplitude) }
            }
            generator::Signal::WhiteNoise { amplitude } => {
                Self::WhiteNoise { amplitude: float(amplitude) }
            }
            generator::Signal::PinkNoise { amplitude } => {
                Self::PinkNoise { amplitude: float(amplitude) }
            }
            generator::Signal::Sweep { start_hz, end_hz, seconds, amplitude, repeat } => {
                Self::Sweep {
                    start_hz: float(start_hz),
                    end_hz: float(end_hz),
                    seconds: float(seconds),
                    amplitude: float(amplitude),
                    repeat,
                }
            }
        }
    }
}

/// A source of test signals.
pub struct Generator {
    inner: generator::Generator,
    samples: Vec<F32>,
}

impl Generator {
    pub fn new(sample_rate: f32, signal: Signal, seed: u64) -> Self {
        assert!(sample_rate > 0.0, "sample rate must be positive, got {sample_rate}");
        Self {
            inner: generator::Generator::new(&precise(), number(sample_rate), signal.into(), seed),
            samples: Vec::new(),
        }
    }

    pub fn set_signal(&mut self, signal: Signal) {
        self.inner.set_signal(signal.into());
    }

    pub fn signal(&self) -> Signal {
        self.inner.signal().into()
    }

    pub fn reset(&mut self) {
        self.inner.reset();
    }

    pub fn is_finished(&self) -> bool {
        self.inner.is_finished()
    }

    pub fn fill(&mut self, out: &mut [f32]) {
        self.samples.clear();
        self.samples.resize(out.len(), number(0.0));
        self.inner.fill(&single(), &precise(), &mut self.samples);
        for (slot, sample) in out.iter_mut().zip(&self.samples) {
            *slot = float(*sample);
        }
    }
}

const MAGNITUDE_FLOOR_DB: f32 = f32::from_bits(FLOOR);

const RATE: f32 = 48_000.0;
const SIZE: usize = 4096;

fn estimator(averaging: TransferAveraging) -> TransferFunction {
    TransferFunction::new(TransferConfig {
        sample_rate: RATE,
        size: SIZE,
        window: WindowKind::Hann,
        overlap: Overlap::Half,
        averaging,
    })
}

fn pink(samples: usize, seed: u64) -> Vec<f32> {
    let mut generator = Generator::new(RATE, Signal::PinkNoise { amplitude: 0.5 }, seed);
    let mut out = vec![0.0; samples];
    generator.fill(&mut out);
    out
}

fn usable(tf: &TransferFunction) -> std::ops::Range<usize> {
    let low = (200.0 / tf.bin_spacing_hz()) as usize;
    let high = (8000.0 / tf.bin_spacing_hz()) as usize;
    low..high.min(tf.bins())
}

#[test]
fn an_identical_signal_measures_as_a_perfect_wire() {
    let signal = pink(SIZE * 32, 1);
    let mut tf = estimator(TransferAveraging::Infinite);
    tf.push(&signal, &signal);
    assert!(tf.frames() > 8);

    let mut magnitude = vec![0.0; tf.bins()];
    let mut phase = vec![0.0; tf.bins()];
    let mut coherence = vec![0.0; tf.bins()];
    tf.write_magnitude_db(&mut magnitude);
    tf.write_phase_degrees(&mut phase);
    tf.write_coherence(&mut coherence);

    for bin in usable(&tf) {
        assert!(
            magnitude[bin].abs() < 0.01,
            "bin {bin}: {} dB",
            magnitude[bin]
        );
        assert!(phase[bin].abs() < 0.1, "bin {bin}: {}°", phase[bin]);
        assert!(coherence[bin] > 0.999, "bin {bin}: γ² {}", coherence[bin]);
    }
}

#[test]
fn a_gain_shows_up_as_a_flat_offset() {
    let reference = pink(SIZE * 32, 2);
    let measurement: Vec<f32> = reference.iter().map(|s| s * 2.0).collect();

    let mut tf = estimator(TransferAveraging::Infinite);
    tf.push(&reference, &measurement);

    let mut magnitude = vec![0.0; tf.bins()];
    tf.write_magnitude_db(&mut magnitude);
    for bin in usable(&tf) {
        assert!(
            (magnitude[bin] - 6.0206).abs() < 0.01,
            "bin {bin}: {} dB, expected +6.02",
            magnitude[bin]
        );
    }
}

#[test]
fn an_attenuation_shows_up_as_a_negative_offset() {
    let reference = pink(SIZE * 32, 3);
    let measurement: Vec<f32> = reference.iter().map(|s| s * 0.5).collect();

    let mut tf = estimator(TransferAveraging::Infinite);
    tf.push(&reference, &measurement);

    let mut magnitude = vec![0.0; tf.bins()];
    tf.write_magnitude_db(&mut magnitude);
    for bin in usable(&tf) {
        assert!((magnitude[bin] + 6.0206).abs() < 0.01, "bin {bin}");
    }
}

#[test]
fn a_pure_delay_gives_flat_magnitude_and_linear_phase() {
    let delay = 32_usize;
    let reference = pink(SIZE * 32, 4);
    let mut measurement = vec![0.0; reference.len()];
    measurement[delay..].copy_from_slice(&reference[..reference.len() - delay]);

    let mut tf = estimator(TransferAveraging::Infinite);
    tf.push(&reference, &measurement);

    let mut magnitude = vec![0.0; tf.bins()];
    let mut phase = vec![0.0; tf.bins()];
    tf.write_magnitude_db(&mut magnitude);
    tf.write_phase_degrees(&mut phase);
    unwrap_phase_degrees(&mut phase);

    let band = usable(&tf);
    for bin in band.clone() {
        assert!(
            magnitude[bin].abs() < 0.2,
            "delay must not change magnitude: bin {bin} = {} dB",
            magnitude[bin]
        );
    }

    let low = band.start;
    let high = band.end - 1;
    let measured_slope =
        (phase[high] - phase[low]) / (tf.bin_frequency(high) - tf.bin_frequency(low));
    let expected_slope = -360.0 * delay as f32 / RATE;
    assert!(
        (measured_slope - expected_slope).abs() < 0.001,
        "slope {measured_slope} deg/Hz, expected {expected_slope}"
    );
}

#[test]
fn uncorrelated_signals_have_low_coherence() {
    let reference = pink(SIZE * 64, 5);
    let measurement = pink(SIZE * 64, 6);

    let mut tf = estimator(TransferAveraging::Infinite);
    tf.push(&reference, &measurement);

    let mut coherence = vec![0.0; tf.bins()];
    tf.write_coherence(&mut coherence);

    let band = usable(&tf);
    let mean: f32 = coherence[band.clone()].iter().sum::<f32>() / band.len() as f32;
    assert!(mean < 0.2, "uncorrelated mean coherence was {mean}");
}

#[test]
fn coherence_falls_as_noise_is_added() {
    let reference = pink(SIZE * 64, 7);
    let noise = pink(SIZE * 64, 8);

    let mean_coherence = |noise_gain: f32| -> f32 {
        let measurement: Vec<f32> = reference
            .iter()
            .zip(&noise)
            .map(|(s, n)| s + n * noise_gain)
            .collect();
        let mut tf = estimator(TransferAveraging::Infinite);
        tf.push(&reference, &measurement);
        let mut coherence = vec![0.0; tf.bins()];
        tf.write_coherence(&mut coherence);
        let band = usable(&tf);
        coherence[band.clone()].iter().sum::<f32>() / band.len() as f32
    };

    let clean = mean_coherence(0.05);
    let noisy = mean_coherence(1.0);
    assert!(clean > 0.9, "nearly clean should be coherent, got {clean}");
    assert!(
        noisy < clean - 0.2,
        "noise must reduce coherence: {clean} -> {noisy}"
    );
}

#[test]
fn a_single_frame_reports_coherence_of_one_even_for_noise() {
    let reference = pink(SIZE, 9);
    let measurement = pink(SIZE, 10);

    let mut tf = estimator(TransferAveraging::Infinite);
    tf.push(&reference, &measurement);
    assert_eq!(tf.frames(), 1);

    let mut coherence = vec![0.0; tf.bins()];
    tf.write_coherence(&mut coherence);
    for bin in usable(&tf) {
        assert!(
            coherence[bin] > 0.99,
            "single-frame coherence should be 1, got {}",
            coherence[bin]
        );
    }
}

#[test]
fn coherence_always_lies_between_zero_and_one() {
    let reference = pink(SIZE * 16, 11);
    let measurement = pink(SIZE * 16, 12);
    let mut tf = estimator(TransferAveraging::Infinite);
    tf.push(&reference, &measurement);

    let mut coherence = vec![0.0; tf.bins()];
    tf.write_coherence(&mut coherence);
    for (bin, value) in coherence.iter().enumerate() {
        assert!(
            (0.0..=1.0).contains(value),
            "bin {bin} coherence out of range: {value}"
        );
    }
}

#[test]
fn silent_reference_bins_floor_rather_than_reading_flat() {
    let mut tf = estimator(TransferAveraging::Infinite);
    let silence = vec![0.0; SIZE * 4];
    tf.push(&silence, &silence);

    let mut magnitude = vec![0.0; tf.bins()];
    tf.write_magnitude_db(&mut magnitude);
    assert!(magnitude.iter().all(|m| *m <= MAGNITUDE_FLOOR_DB + 1e-3));
    assert!(magnitude.iter().all(|m| m.is_finite()));
}

#[test]
fn chunking_does_not_change_the_result() {
    let reference = pink(SIZE * 8, 13);
    let measurement: Vec<f32> = reference.iter().map(|s| s * 0.7).collect();

    let mut whole = estimator(TransferAveraging::Infinite);
    whole.push(&reference, &measurement);

    let mut chunked = estimator(TransferAveraging::Infinite);
    for (r, m) in reference.chunks(97).zip(measurement.chunks(97)) {
        chunked.push(r, m);
    }

    assert_eq!(whole.frames(), chunked.frames());
    let mut a = vec![0.0; whole.bins()];
    let mut b = vec![0.0; chunked.bins()];
    whole.write_magnitude_db(&mut a);
    chunked.write_magnitude_db(&mut b);
    for (bin, (x, y)) in a.iter().zip(&b).enumerate() {
        assert!((x - y).abs() < 1e-3, "bin {bin}: {x} vs {y}");
    }
}

#[test]
fn reset_clears_everything() {
    let signal = pink(SIZE * 4, 14);
    let mut tf = estimator(TransferAveraging::Infinite);
    tf.push(&signal, &signal);
    assert!(tf.frames() > 0);

    tf.reset();
    assert_eq!(tf.frames(), 0);
    let mut coherence = vec![1.0; tf.bins()];
    tf.write_coherence(&mut coherence);
    assert!(coherence.iter().all(|c| *c == 0.0));
}

#[test]
fn phase_unwrapping_removes_the_jumps() {
    let mut phase = vec![170.0, 179.0, -179.0, -170.0, -179.0, 179.0, 170.0];
    unwrap_phase_degrees(&mut phase);
    for pair in phase.windows(2) {
        assert!(
            (pair[1] - pair[0]).abs() < 180.0,
            "unwrap left a jump: {pair:?}"
        );
    }
    assert!((phase[2] - 181.0).abs() < 1e-3, "got {}", phase[2]);
}

#[test]
fn unwrapping_an_empty_or_single_value_is_harmless() {
    let mut empty: Vec<f32> = Vec::new();
    unwrap_phase_degrees(&mut empty);
    let mut single = vec![42.0];
    unwrap_phase_degrees(&mut single);
    assert_eq!(single, vec![42.0]);
}

#[test]
fn exponential_averaging_follows_a_change() {
    let reference = pink(SIZE * 32, 15);
    let quiet: Vec<f32> = reference.iter().map(|s| s * 0.1).collect();
    let loud: Vec<f32> = reference.iter().map(|s| s * 2.0).collect();

    let mut tf = estimator(TransferAveraging::Exponential { alpha: 0.3 });
    tf.push(&reference, &quiet);
    let mut magnitude = vec![0.0; tf.bins()];
    tf.write_magnitude_db(&mut magnitude);
    let before = magnitude[usable(&tf).start];

    tf.push(&reference, &loud);
    tf.write_magnitude_db(&mut magnitude);
    let after = magnitude[usable(&tf).start];

    assert!(before < -15.0, "expected about -20 dB, got {before}");
    assert!(
        after > before + 10.0,
        "should have tracked upward: {before} -> {after}"
    );
}

#[test]
fn one_bin_is_exact() {
    let (x, y) = ((0.75_f32, -0.5_f32), (0.25_f32, 1.5_f32));
    let share = 0.3_f32;
    let complex = |z: (f32, f32)| Complex { re: number(z.0), im: number(z.1) };
    let m = single();
    let first = transfer::moved(&m, transfer::no_products(), complex(x), complex(y), number(1.0));
    let bin = transfer::moved(&m, first, complex(y), complex(x), number(share));

    let toward = |before: f32, new: f32, weight: f32| before + (new - before) * weight;
    let (auto_x, auto_y) = (x.0 * x.0 + x.1 * x.1, y.0 * y.0 + y.1 * y.1);
    let (xx, yy) = (toward(0.0, auto_x, 1.0), toward(0.0, auto_y, 1.0));
    assert_eq!(float(first.xx), xx);
    assert_eq!(float(first.yy), yy);
    assert_eq!(float(bin.xx), toward(xx, auto_y, share));
    assert_eq!(float(bin.yy), toward(yy, auto_x, share));

    let magnitude = float(bin.xy.re).hypot(float(bin.xy.im)) / float(bin.xx);
    let level = float(transfer::magnitude_db(&m, bin));
    assert_eq!(level.to_bits(), (20.0 * magnitude.log10()).to_bits());
    let phase = float(bin.xy.im).atan2(float(bin.xy.re)).to_degrees();
    assert_eq!(float(transfer::phase_degrees(&m, bin)), phase);
}

#[test]
fn an_empty_bin_says_nothing() {
    let (m, none) = (single(), transfer::no_products());
    assert_eq!(float(transfer::magnitude_db(&m, none)), MAGNITUDE_FLOOR_DB);
    assert_eq!(float(transfer::coherence(&m, none)), 0.0);
    assert_eq!(float(transfer::phase_degrees(&m, none)), 0.0);
    assert_eq!(transfer::response(&m, none), Complex { re: number(0.0), im: number(0.0) });
}

#[test]
fn coherence_stays_a_fraction_where_the_products_overflow() {
    let huge = number(f32::MAX);
    let bin = transfer::Products { xx: huge, yy: huge, xy: Complex { re: huge, im: huge } };
    let value = float(transfer::coherence(&single(), bin));
    assert!((0.0..=1.0).contains(&value) || value.is_nan(), "coherence {value}");
}

#[test]
fn pushing_keeps_the_geometry() {
    let mut tf = estimator(TransferAveraging::Infinite);
    let before = (tf.size(), tf.hop(), tf.bins(), tf.bin_spacing_hz());
    tf.push(&pink(SIZE * 3, 1), &pink(SIZE * 3, 2));
    tf.reset();
    assert_eq!((tf.size(), tf.hop(), tf.bins(), tf.bin_spacing_hz()), before);
}

#[test]
fn unwrapping_keeps_the_first_value_and_smooth_curves() {
    let mut phase = [170.0, -170.0, -150.0, 179.0];
    unwrap_phase_degrees(&mut phase);
    assert_eq!(phase, [170.0, 190.0, 210.0, 179.0]);
    unwrap_phase_degrees(&mut phase);
    assert_eq!(phase, [170.0, 190.0, 210.0, 179.0]);
}
