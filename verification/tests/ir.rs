//! Impulse response analysis, through the single-precision numbers it stands for.

use analyzer::arith::{Arith, Calc, Complex, Wide, WideArith};
use analyzer::dsp::fft::Forward;
use analyzer::dsp::{deconv, generator, ir, window};
use analyzer::ieee::{F32, F64};
use realfft::RealFftPlanner;
use std::cell::RefCell;

/// The bit pattern of `x`.
pub fn number(x: f32) -> F32 {
    F32 { bits: x.to_bits() }
}

/// The number with the bit pattern `x`.
pub fn float(x: F32) -> f32 {
    f32::from_bits(x.bits)
}

/// The bit patterns of `xs`.
pub fn numbers(xs: &[f32]) -> Vec<F32> {
    xs.iter().copied().map(number).collect()
}

/// The numbers with the bit patterns `xs`.
pub fn floats(xs: &[F32]) -> Vec<f32> {
    xs.iter().copied().map(float).collect()
}

/// One step of single-precision arithmetic, by the machine's own operations.
pub fn calculate(step: Calc) -> F32 {
    number(match step {
        Calc::Plus(a, b) => float(a) + float(b),
        Calc::Minus(a, b) => float(a) - float(b),
        Calc::Times(a, b) => float(a) * float(b),
        Calc::Over(a, b) => float(a) / float(b),
        Calc::Root(a) => float(a).sqrt(),
        Calc::Sine(a) => float(a).sin(),
        Calc::Cosine(a) => float(a).cos(),
        Calc::Tangent(a) => float(a).tan(),
        Calc::Exp(a) => float(a).exp(),
        Calc::Ln(a) => float(a).ln(),
        Calc::Log2(a) => float(a).log2(),
        Calc::Log10(a) => float(a).log10(),
        Calc::Power(a, b) => float(a).powf(float(b)),
        Calc::Hypot(a, b) => float(a).hypot(float(b)),
        Calc::Angle(a, b) => float(a).atan2(float(b)),
        Calc::Degrees(a) => float(a).to_degrees(),
        Calc::Remainder(a, b) => float(a).rem_euclid(float(b)),
        Calc::Floor(a) => float(a).floor(),
        Calc::Count(n) => n as f32,
        Calc::Whole(n) => n as f32,
        Calc::Narrow(a) => double(a) as f32,
    })
}

/// The number with the bit pattern `x`.
pub fn double(x: F64) -> f64 {
    f64::from_bits(x.bits)
}

/// Single-precision arithmetic.
pub type Single = Arith<fn(Calc) -> F32>;

/// The machine's single-precision arithmetic.
pub fn single() -> Single {
    Arith::new(calculate)
}

/// The bit pattern of `x`.
pub fn wide_number(x: f64) -> F64 {
    F64 { bits: x.to_bits() }
}

/// One step of double-precision arithmetic, by the machine's own operations.
pub fn calculate_wide(step: Wide) -> F64 {
    wide_number(match step {
        Wide::Plus(a, b) => double(a) + double(b),
        Wide::Minus(a, b) => double(a) - double(b),
        Wide::Times(a, b) => double(a) * double(b),
        Wide::Over(a, b) => double(a) / double(b),
        Wide::Root(a) => double(a).sqrt(),
        Wide::Sine(a) => double(a).sin(),
        Wide::Exp(a) => double(a).exp(),
        Wide::Ln(a) => double(a).ln(),
        Wide::Count(n) => n as f64,
        Wide::Widen(a) => f64::from(float(a)),
    })
}

/// Double-precision arithmetic.
pub type Precise = WideArith<fn(Wide) -> F64>;

/// The machine's double-precision arithmetic.
pub fn precise() -> Precise {
    WideArith::new(calculate_wide)
}

/// A forward transform of real frames.
pub type ForwardFft = Forward<Box<dyn Fn(&[F32]) -> Vec<Complex> + Send>>;

/// The forward transform of `realfft`, which keeps the plans it has made.
pub fn forward() -> ForwardFft {
    let planner = RefCell::new(RealFftPlanner::<f32>::new());
    Forward::new(Box::new(move |frame: &[F32]| {
        let plan = planner.borrow_mut().plan_fft_forward(frame.len());
        let mut input = floats(frame);
        let mut output = plan.make_output_vec();
        plan.process(&mut input, &mut output).expect("buffers match the plan");
        output.iter().map(|z| Complex { re: number(z.re), im: number(z.im) }).collect()
    }))
}

/// A window shape.
#[derive(Debug, Clone, Copy, PartialEq)]
pub enum WindowKind {
    Rectangular,
    Hann,
    BlackmanHarris,
    FlatTop,
    Tukey { alpha: f32 },
}

impl From<WindowKind> for window::WindowKind {
    fn from(kind: WindowKind) -> Self {
        match kind {
            WindowKind::Rectangular => Self::Rectangular,
            WindowKind::Hann => Self::Hann,
            WindowKind::BlackmanHarris => Self::BlackmanHarris,
            WindowKind::FlatTop => Self::FlatTop,
            WindowKind::Tukey { alpha } => Self::Tukey { alpha: number(alpha) },
        }
    }
}

impl From<window::WindowKind> for WindowKind {
    fn from(kind: window::WindowKind) -> Self {
        match kind {
            window::WindowKind::Rectangular => Self::Rectangular,
            window::WindowKind::Hann => Self::Hann,
            window::WindowKind::BlackmanHarris => Self::BlackmanHarris,
            window::WindowKind::FlatTop => Self::FlatTop,
            window::WindowKind::Tukey { alpha } => Self::Tukey { alpha: float(alpha) },
        }
    }
}

/// A window of samples with its correction factors.
#[derive(Debug)]
pub struct Window {
    inner: window::Window,
    samples: Vec<f32>,
}

impl From<window::Window> for Window {
    fn from(inner: window::Window) -> Self {
        let samples = floats(inner.samples());
        Self { inner, samples }
    }
}

impl Window {
    pub fn new(kind: WindowKind, size: usize) -> Self {
        assert!(size > 0, "window size must be non-zero");
        Self::from(window::Window::new(&single(), kind.into(), size))
    }

    pub fn kind(&self) -> WindowKind {
        self.inner.kind().into()
    }

    pub fn size(&self) -> usize {
        self.inner.size()
    }

    pub fn samples(&self) -> &[f32] {
        &self.samples
    }

    pub fn coherent_gain(&self) -> f32 {
        float(self.inner.coherent_gain())
    }

    pub fn amplitude_correction(&self) -> f32 {
        float(self.inner.amplitude_correction(&single()))
    }

    pub fn enbw_bins(&self) -> f32 {
        float(self.inner.enbw_bins())
    }

    pub fn apply(&self, frame: &mut [f32]) {
        assert_eq!(frame.len(), self.size(), "frame length must equal the window size");
        let mut numbered = numbers(frame);
        self.inner.apply(&single(), &mut numbered);
        frame.copy_from_slice(&floats(&numbered));
    }

    pub fn apply_to(&self, input: &[f32], output: &mut [f32]) {
        assert_eq!(input.len(), self.size(), "input length must equal the window size");
        assert_eq!(output.len(), self.size(), "output length must equal the window size");
        let mut values = numbers(output);
        self.inner.apply_to(&single(), &numbers(input), &mut values);
        output.copy_from_slice(&floats(&values));
    }
}

/// A measured impulse response.
#[derive(Debug, Clone, PartialEq)]
pub struct ImpulseResponse {
    pub samples: Vec<f32>,
    pub peak_samples: f32,
    pub sample_rate: f32,
}

impl From<&ImpulseResponse> for deconv::ImpulseResponse {
    fn from(ir: &ImpulseResponse) -> Self {
        Self {
            samples: numbers(&ir.samples),
            peak_samples: number(ir.peak_samples),
            sample_rate: number(ir.sample_rate),
        }
    }
}

impl ImpulseResponse {
    pub fn time_at(&self, index: usize) -> f32 {
        float(deconv::ImpulseResponse::from(self).time_at(&single(), index))
    }

    pub fn peak_amplitude(&self) -> f32 {
        float(deconv::ImpulseResponse::from(self).peak_amplitude())
    }

    pub fn duration_seconds(&self) -> f32 {
        float(deconv::ImpulseResponse::from(self).duration_seconds(&single()))
    }
}

/// A span of an impulse response around its arrival.
#[derive(Debug, Clone, Copy, PartialEq)]
pub struct Gate {
    pub start_seconds: f32,
    pub end_seconds: f32,
    pub fade_seconds: f32,
}

impl From<&Gate> for ir::Gate {
    fn from(gate: &Gate) -> Self {
        Self {
            start_seconds: number(gate.start_seconds),
            end_seconds: number(gate.end_seconds),
            fade_seconds: number(gate.fade_seconds),
        }
    }
}

impl Gate {
    pub fn anechoic(end_seconds: f32) -> Self {
        let gate = ir::Gate::anechoic(&single(), number(end_seconds));
        Self {
            start_seconds: float(gate.start_seconds),
            end_seconds: float(gate.end_seconds),
            fade_seconds: float(gate.fade_seconds),
        }
    }

    pub fn length_seconds(&self) -> f32 {
        float(ir::Gate::from(self).length_seconds(&single()))
    }

    pub fn resolution_hz(&self) -> f32 {
        float(ir::Gate::from(self).resolution_hz(&single()))
    }
}

/// The frequency response of a gated impulse response.
#[derive(Debug)]
pub struct GatedResponse {
    inner: ir::GatedResponse,
    pub magnitude_db: Vec<f32>,
    pub phase_degrees: Vec<f32>,
    pub bin_spacing_hz: f32,
    pub resolution_hz: f32,
}

impl GatedResponse {
    pub fn bin_frequency(&self, index: usize) -> f32 {
        float(self.inner.bin_frequency(&single(), index))
    }

    pub fn is_trustworthy(&self, hz: f32) -> bool {
        self.inner.is_trustworthy(number(hz))
    }
}

/// The samples a gate keeps, faded at its end.
pub fn apply_gate(response: &ImpulseResponse, gate: &Gate) -> Vec<f32> {
    floats(&ir::apply_gate(&single(), &response.into(), &gate.into()))
}

/// The frequency response of what a gate keeps.
pub fn gated_response(
    response: &ImpulseResponse,
    gate: &Gate,
    fft_size: usize,
) -> Option<GatedResponse> {
    let inner =
        ir::gated_response(&single(), &forward(), &response.into(), &gate.into(), fft_size)?;
    Some(GatedResponse {
        magnitude_db: floats(&inner.magnitude_db),
        phase_degrees: floats(&inner.phase_degrees),
        bin_spacing_hz: float(inner.bin_spacing_hz),
        resolution_hz: float(inner.resolution_hz),
        inner,
    })
}

/// The backward-integrated decay curve, in decibels.
pub fn schroeder_decay(response: &ImpulseResponse) -> Vec<f32> {
    floats(&ir::schroeder_decay(&single(), &precise(), &response.into()))
}

/// Reverberation times by three measures.
#[derive(Debug, Clone, Copy, PartialEq)]
pub struct ReverbTime {
    pub edt: Option<f32>,
    pub t20: Option<f32>,
    pub t30: Option<f32>,
}

impl From<ReverbTime> for ir::ReverbTime {
    fn from(time: ReverbTime) -> Self {
        Self {
            edt: time.edt.map(number),
            t20: time.t20.map(number),
            t30: time.t30.map(number),
        }
    }
}

impl ReverbTime {
    pub fn best(&self) -> Option<f32> {
        ir::ReverbTime::from(*self).best().map(float)
    }

    pub fn spread(&self) -> Option<f32> {
        ir::ReverbTime::from(*self).spread(&single()).map(float)
    }
}

/// Reverberation times read off a decay curve.
pub fn reverb_time(decay_db: &[f32], sample_rate: f32) -> ReverbTime {
    let time = ir::reverb_time(&single(), &precise(), &numbers(decay_db), number(sample_rate));
    ReverbTime { edt: time.edt.map(float), t20: time.t20.map(float), t30: time.t30.map(float) }
}

/// The window to analyse a gated response with.
pub fn recommended_gate_window() -> WindowKind {
    ir::recommended_gate_window().into()
}

/// A window as long as a gate.
pub fn gate_window(gate: &Gate, sample_rate: f32) -> Option<Window> {
    ir::gate_window(&single(), &gate.into(), number(sample_rate)).map(Window::from)
}

/// What a generator plays.
#[derive(Debug, Clone, Copy, PartialEq)]
pub enum Signal {
    Silence,
    Sine { hz: f32, amplitude: f32 },
    WhiteNoise { amplitude: f32 },
    PinkNoise { amplitude: f32 },
    Sweep { start_hz: f32, end_hz: f32, seconds: f32, amplitude: f32, repeat: bool },
}

impl From<Signal> for generator::Signal {
    fn from(signal: Signal) -> Self {
        match signal {
            Signal::Silence => Self::Silence,
            Signal::Sine { hz, amplitude } => {
                Self::Sine { hz: number(hz), amplitude: number(amplitude) }
            }
            Signal::WhiteNoise { amplitude } => Self::WhiteNoise { amplitude: number(amplitude) },
            Signal::PinkNoise { amplitude } => Self::PinkNoise { amplitude: number(amplitude) },
            Signal::Sweep { start_hz, end_hz, seconds, amplitude, repeat } => Self::Sweep {
                start_hz: number(start_hz),
                end_hz: number(end_hz),
                seconds: number(seconds),
                amplitude: number(amplitude),
                repeat,
            },
        }
    }
}

impl From<generator::Signal> for Signal {
    fn from(signal: generator::Signal) -> Self {
        match signal {
            generator::Signal::Silence => Self::Silence,
            generator::Signal::Sine { hz, amplitude } => {
                Self::Sine { hz: float(hz), amplitude: float(amplitude) }
            }
            generator::Signal::WhiteNoise { amplitude } => {
                Self::WhiteNoise { amplitude: float(amplitude) }
            }
            generator::Signal::PinkNoise { amplitude } => {
                Self::PinkNoise { amplitude: float(amplitude) }
            }
            generator::Signal::Sweep { start_hz, end_hz, seconds, amplitude, repeat } => {
                Self::Sweep {
                    start_hz: float(start_hz),
                    end_hz: float(end_hz),
                    seconds: float(seconds),
                    amplitude: float(amplitude),
                    repeat,
                }
            }
        }
    }
}

/// A source of test signals.
pub struct Generator {
    inner: generator::Generator,
    samples: Vec<F32>,
}

impl Generator {
    pub fn new(sample_rate: f32, signal: Signal, seed: u64) -> Self {
        assert!(sample_rate > 0.0, "sample rate must be positive, got {sample_rate}");
        Self {
            inner: generator::Generator::new(&precise(), number(sample_rate), signal.into(), seed),
            samples: Vec::new(),
        }
    }

    pub fn set_signal(&mut self, signal: Signal) {
        self.inner.set_signal(signal.into());
    }

    pub fn signal(&self) -> Signal {
        self.inner.signal().into()
    }

    pub fn reset(&mut self) {
        self.inner.reset();
    }

    pub fn is_finished(&self) -> bool {
        self.inner.is_finished()
    }

    pub fn fill(&mut self, out: &mut [f32]) {
        self.samples.clear();
        self.samples.resize(out.len(), number(0.0));
        self.inner.fill(&single(), &precise(), &mut self.samples);
        for (slot, sample) in out.iter_mut().zip(&self.samples) {
            *slot = float(*sample);
        }
    }
}

const RATE: f32 = 48_000.0;

fn decaying_noise(rt60: f32, seconds: f32, seed: u64) -> ImpulseResponse {
    let tau = rt60 / 6.908;
    let count = (RATE * seconds) as usize;

    let mut generator = Generator::new(RATE, Signal::WhiteNoise { amplitude: 1.0 }, seed);
    let mut samples = vec![0.0; count];
    generator.fill(&mut samples);

    for (index, sample) in samples.iter_mut().enumerate() {
        let t = index as f32 / RATE;
        *sample *= (-t / tau).exp();
    }

    ImpulseResponse {
        samples,
        peak_samples: 0.0,
        sample_rate: RATE,
    }
}

fn spike_at(delay: usize, length: usize) -> ImpulseResponse {
    let mut samples = vec![0.0; length];
    samples[delay] = 1.0;
    ImpulseResponse {
        samples,
        peak_samples: delay as f32,
        sample_rate: RATE,
    }
}

#[test]
fn a_known_decay_measures_its_reverberation_time() {
    for target in [0.3_f32, 0.6, 1.2] {
        let ir = decaying_noise(target, target * 3.0, 1);
        let decay = schroeder_decay(&ir);
        let rt = reverb_time(&decay, RATE);

        let t20 = rt.t20.unwrap_or(0.0);
        let t30 = rt.t30.unwrap_or(0.0);
        assert!(
            (t20 - target).abs() / target < 0.08,
            "T20 read {t20:.3} for a {target:.3} s decay"
        );
        assert!(
            (t30 - target).abs() / target < 0.08,
            "T30 read {t30:.3} for a {target:.3} s decay"
        );
    }
}

#[test]
fn the_estimates_agree_for_a_straight_decay() {
    let ir = decaying_noise(0.8, 3.0, 2);
    let rt = reverb_time(&schroeder_decay(&ir), RATE);

    assert!(rt.edt.is_some() && rt.t20.is_some() && rt.t30.is_some());
    let spread = rt.spread().unwrap();
    assert!(spread < 0.1, "estimates spread by {spread:.3}: {rt:?}");
    assert!((rt.best().unwrap() - 0.8).abs() < 0.08);
}

#[test]
fn the_decay_curve_starts_at_zero_and_falls_monotonically() {
    let ir = decaying_noise(0.5, 2.0, 3);
    let decay = schroeder_decay(&ir);

    assert!(decay[0].abs() < 1e-4, "curve should start at 0 dB");
    for pair in decay.windows(2) {
        assert!(
            pair[1] <= pair[0] + 1e-4,
            "backward integration cannot increase: {} -> {}",
            pair[0],
            pair[1]
        );
    }
}

#[test]
fn silence_produces_no_reverberation_estimate() {
    let ir = ImpulseResponse {
        samples: vec![0.0; 4096],
        peak_samples: 0.0,
        sample_rate: RATE,
    };
    let rt = reverb_time(&schroeder_decay(&ir), RATE);
    assert!(rt.best().is_none());
    assert!(rt.spread().is_none());
}

#[test]
fn a_truncated_decay_does_not_report_the_cliff_as_reverberation() {
    let ir = decaying_noise(2.0, 0.35, 4);
    let decay = schroeder_decay(&ir);

    assert!(
        decay.iter().any(|db| *db <= -35.0),
        "the terminal plunge should be present in the raw curve"
    );

    let rt = reverb_time(&decay, RATE);
    assert!(
        rt.t30.is_none(),
        "T30 must not be taken from the truncation cliff, got {:?}",
        rt.t30
    );
}

#[test]
fn gating_keeps_only_the_requested_span() {
    let ir = spike_at(1000, 8192);
    let gate = Gate {
        start_seconds: -0.001,
        end_seconds: 0.005,
        fade_seconds: 0.001,
    };
    let gated = apply_gate(&ir, &gate);

    let expected = ((0.005 + 0.001) * RATE) as usize;
    assert!(
        (gated.len() as isize - expected as isize).abs() < 4,
        "kept {} samples, expected about {expected}",
        gated.len()
    );
}

#[test]
fn gating_excludes_a_late_reflection() {
    let mut ir = spike_at(1000, 8192);
    ir.samples[1000 + (0.010 * RATE) as usize] = 0.8;

    let tight = Gate::anechoic(0.005);
    let wide = Gate::anechoic(0.020);

    let inside: f32 = apply_gate(&ir, &tight).iter().map(|s| s.abs()).sum();
    let outside: f32 = apply_gate(&ir, &wide).iter().map(|s| s.abs()).sum();
    assert!(
        outside > inside + 0.5,
        "the wider gate should include the reflection: {inside} vs {outside}"
    );
}

#[test]
fn a_gate_reports_the_resolution_it_costs() {
    let gate = Gate {
        start_seconds: 0.0,
        end_seconds: 0.005,
        fade_seconds: 0.001,
    };
    assert!((gate.length_seconds() - 0.005).abs() < 1e-6);
    assert!((gate.resolution_hz() - 200.0).abs() < 0.1);

    let long = Gate {
        start_seconds: 0.0,
        end_seconds: 0.5,
        fade_seconds: 0.01,
    };
    assert!((long.resolution_hz() - 2.0).abs() < 0.01);
}

#[test]
fn a_spike_has_a_flat_gated_response() {
    let ir = spike_at(500, 8192);
    let response = gated_response(&ir, &Gate::anechoic(0.010), 4096).unwrap();

    let first = (response.resolution_hz * 2.0 / response.bin_spacing_hz) as usize;
    let levels = &response.magnitude_db[first..response.magnitude_db.len() / 2];
    let mean: f32 = levels.iter().sum::<f32>() / levels.len() as f32;
    for (index, level) in levels.iter().enumerate() {
        assert!(
            (level - mean).abs() < 0.5,
            "bin {index} deviates: {level} vs mean {mean}"
        );
    }
}

#[test]
fn the_response_reports_which_frequencies_to_believe() {
    let ir = spike_at(500, 8192);
    let response = gated_response(&ir, &Gate::anechoic(0.005), 4096).unwrap();

    assert!(!response.is_trustworthy(50.0), "below a 5 ms gate's limit");
    assert!(response.is_trustworthy(1000.0));
    assert!((response.bin_spacing_hz - RATE / 4096.0).abs() < 1e-3);
}

#[test]
fn degenerate_gates_and_sizes_are_refused() {
    let ir = spike_at(500, 8192);

    let backwards = Gate {
        start_seconds: 0.010,
        end_seconds: 0.001,
        fade_seconds: 0.0,
    };
    assert!(apply_gate(&ir, &backwards).is_empty());
    assert!(gated_response(&ir, &backwards, 4096).is_none());

    assert!(gated_response(&ir, &Gate::anechoic(0.005), 4095).is_none());
}

#[test]
fn an_empty_impulse_response_gates_to_nothing() {
    let ir = ImpulseResponse {
        samples: Vec::new(),
        peak_samples: 0.0,
        sample_rate: RATE,
    };
    assert!(apply_gate(&ir, &Gate::anechoic(0.005)).is_empty());
    assert!(schroeder_decay(&ir).is_empty());
}

#[test]
fn the_gate_tapers_its_closing_edge() {
    let ir = ImpulseResponse {
        samples: vec![1.0; 8192],
        peak_samples: 0.0,
        sample_rate: RATE,
    };
    let gate = Gate {
        start_seconds: 0.0,
        end_seconds: 0.010,
        fade_seconds: 0.004,
    };
    let gated = apply_gate(&ir, &gate);

    assert!((gated[0] - 1.0).abs() < 1e-6, "the open edge is untouched");
    assert!(
        gated.last().unwrap().abs() < 0.01,
        "the closing edge should reach zero, got {}",
        gated.last().unwrap()
    );
    let middle = gated[gated.len() - gated.len() / 8];
    assert!(middle > 0.0 && middle < 1.0, "mid-fade was {middle}");
}

#[test]
fn a_gate_window_matches_the_gate_length() {
    let gate = Gate {
        start_seconds: 0.0,
        end_seconds: 0.010,
        fade_seconds: 0.002,
    };
    let window = gate_window(&gate, RATE).unwrap();
    assert_eq!(window.size(), (0.010 * RATE) as usize);
    assert_eq!(recommended_gate_window(), WindowKind::Rectangular);
}

#[test]
fn a_decay_never_goes_below_its_floor() {
    let decay = schroeder_decay(&spike_at(10, 64));
    assert_eq!(decay.len(), 54);
    assert!(decay.iter().all(|db| *db >= -200.0));
    assert_eq!(decay[0], 0.0);
    assert_eq!(decay[53], -200.0);
}

#[test]
fn a_straight_line_is_fitted_exactly() {
    let decay: Vec<f32> = (0..48_000).map(|n| -60.0 * n as f32 / 24_000.0).collect();
    let time = reverb_time(&decay, RATE);
    for seconds in [time.edt, time.t20, time.t30] {
        assert!((seconds.unwrap() - 0.5).abs() < 1e-4, "{seconds:?}");
    }
    assert_eq!(time.best(), time.t30);
    let only = ReverbTime { edt: Some(0.4), t20: None, t30: None };
    assert_eq!(only.best(), Some(0.4));
    assert!(reverb_time(&[], RATE).best().is_none());
}

/// A bin that is all but silent reads the floor, as a silent one does.
#[test]
fn a_gated_response_never_reads_below_the_floor() {
    let mut ir = spike_at(200, 4096);
    for sample in ir.samples.iter_mut() {
        *sample *= 1e-15;
    }
    let response = gated_response(&ir, &Gate::anechoic(0.010), 4096).unwrap();
    assert!(response.magnitude_db.iter().all(|db| *db == -200.0));
    for sample in ir.samples.iter_mut() {
        *sample *= 1e10;
    }
    let louder = gated_response(&ir, &Gate::anechoic(0.010), 4096).unwrap();
    assert!(louder.magnitude_db.iter().all(|db| (*db + 100.0).abs() < 0.1));
}
