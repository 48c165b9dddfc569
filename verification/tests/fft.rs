//! The transforms the library is handed.

use analyzer::arith::{Arith, Calc, Complex};
use analyzer::dsp::fft::{make_ends_real, pad, Forward, Inverse};
use analyzer::ieee::{F32, F64};
use realfft::RealFftPlanner;
use rustfft::num_complex::Complex32;
use std::cell::RefCell;
use std::f32::consts::TAU;

/// The bit pattern of `x`.
pub fn number(x: f32) -> F32 {
    F32 { bits: x.to_bits() }
}

/// The number with the bit pattern `x`.
pub fn float(x: F32) -> f32 {
    f32::from_bits(x.bits)
}

/// The bit patterns of `xs`.
pub fn numbers(xs: &[f32]) -> Vec<F32> {
    xs.iter().copied().map(number).collect()
}

/// The numbers with the bit patterns `xs`.
pub fn floats(xs: &[F32]) -> Vec<f32> {
    xs.iter().copied().map(float).collect()
}

/// One step of single-precision arithmetic, by the machine's own operations.
pub fn calculate(step: Calc) -> F32 {
    number(match step {
        Calc::Plus(a, b) => float(a) + float(b),
        Calc::Minus(a, b) => float(a) - float(b),
        Calc::Times(a, b) => float(a) * float(b),
        Calc::Over(a, b) => float(a) / float(b),
        Calc::Root(a) => float(a).sqrt(),
        Calc::Sine(a) => float(a).sin(),
        Calc::Cosine(a) => float(a).cos(),
        Calc::Tangent(a) => float(a).tan(),
        Calc::Exp(a) => float(a).exp(),
        Calc::Ln(a) => float(a).ln(),
        Calc::Log2(a) => float(a).log2(),
        Calc::Log10(a) => float(a).log10(),
        Calc::Power(a, b) => float(a).powf(float(b)),
        Calc::Hypot(a, b) => float(a).hypot(float(b)),
        Calc::Angle(a, b) => float(a).atan2(float(b)),
        Calc::Degrees(a) => float(a).to_degrees(),
        Calc::Remainder(a, b) => float(a).rem_euclid(float(b)),
        Calc::Floor(a) => float(a).floor(),
        Calc::Count(n) => n as f32,
        Calc::Whole(n) => n as f32,
        Calc::Narrow(a) => double(a) as f32,
    })
}

/// The number with the bit pattern `x`.
pub fn double(x: F64) -> f64 {
    f64::from_bits(x.bits)
}

/// Single-precision arithmetic.
pub type Single = Arith<fn(Calc) -> F32>;

/// The machine's single-precision arithmetic.
pub fn single() -> Single {
    Arith::new(calculate)
}

/// A forward transform of real frames.
pub type ForwardFft = Forward<Box<dyn Fn(&[F32]) -> Vec<Complex> + Send>>;

/// The forward transform of `realfft`, which keeps the plans it has made.
pub fn forward() -> ForwardFft {
    let planner = RefCell::new(RealFftPlanner::<f32>::new());
    Forward::new(Box::new(move |frame: &[F32]| {
        let plan = planner.borrow_mut().plan_fft_forward(frame.len());
        let mut input = floats(frame);
        let mut output = plan.make_output_vec();
        plan.process(&mut input, &mut output).expect("buffers match the plan");
        output.iter().map(|z| Complex { re: number(z.re), im: number(z.im) }).collect()
    }))
}

/// An inverse transform to real frames.
pub type InverseFft = Inverse<Box<dyn Fn(&[Complex]) -> Vec<F32> + Send>>;

/// The inverse transform of `realfft`, which keeps the plans it has made.
pub fn inverse() -> InverseFft {
    let planner = RefCell::new(RealFftPlanner::<f32>::new());
    Inverse::new(Box::new(move |spectrum: &[Complex]| {
        let plan = planner.borrow_mut().plan_fft_inverse(2 * (spectrum.len() - 1));
        let mut input = plan.make_input_vec();
        for (slot, bin) in input.iter_mut().zip(spectrum) {
            slot.re = float(bin.re);
            slot.im = float(bin.im);
        }
        let mut output = plan.make_output_vec();
        plan.process(&mut input, &mut output).expect("buffers match the plan");
        numbers(&output)
    }))
}

/// A forward transform of a fixed size.
pub struct RealFft {
    transform: ForwardFft,
    size: usize,
}

impl RealFft {
    pub fn new(size: usize) -> Self {
        assert!(size >= 2 && size % 2 == 0, "FFT size must be even and at least two, got {size}");
        Self { transform: forward(), size }
    }

    pub fn size(&self) -> usize {
        self.size
    }

    pub fn bins(&self) -> usize {
        self.size / 2 + 1
    }

    pub fn forward(&mut self, input: &[f32], output: &mut [Complex32]) {
        assert_eq!(input.len(), self.size, "input length must equal the transform size");
        assert_eq!(output.len(), self.bins(), "output length must equal the bin count");
        let spectrum = self.transform.transform(&numbers(input));
        for (slot, bin) in output.iter_mut().zip(&spectrum) {
            *slot = Complex32::new(float(bin.re), float(bin.im));
        }
    }
}

const SIZE: usize = 4096;

fn plan() -> (RealFft, Vec<Complex32>) {
    let fft = RealFft::new(SIZE);
    let out = vec![Complex32::default(); fft.bins()];
    (fft, out)
}

#[test]
fn bins_is_half_size_plus_one() {
    let fft = RealFft::new(1024);
    assert_eq!(fft.size(), 1024);
    assert_eq!(fft.bins(), 513);
}

#[test]
fn dc_input_lands_entirely_in_bin_zero() {
    let (mut fft, mut out) = plan();
    let input = vec![1.0_f32; SIZE];

    fft.forward(&input, &mut out);

    assert!((out[0].re - SIZE as f32).abs() < 1e-2, "bin 0 = {}", out[0]);
    assert!(out[0].im.abs() < 1e-3);
    for (k, bin) in out.iter().enumerate().skip(1) {
        assert!(bin.norm() < 1e-2, "bin {k} should be empty, got {bin}");
    }
}

#[test]
fn bin_centred_sine_recovers_its_amplitude() {
    let (mut fft, mut out) = plan();
    let bin = 64_usize;
    let amplitude = 0.5_f32;

    let input: Vec<f32> = (0..SIZE)
        .map(|n| amplitude * (TAU * bin as f32 * n as f32 / SIZE as f32).sin())
        .collect();

    fft.forward(&input, &mut out);

    let peak = out
        .iter()
        .enumerate()
        .max_by(|a, b| a.1.norm().total_cmp(&b.1.norm()))
        .map(|(k, _)| k)
        .unwrap();
    assert_eq!(peak, bin);

    let recovered = 2.0 * out[bin].norm() / SIZE as f32;
    assert!(
        (recovered - amplitude).abs() < 1e-3,
        "recovered {recovered}, expected {amplitude}"
    );
}

#[test]
fn parseval_energy_is_conserved() {
    let (mut fft, mut out) = plan();
    let input: Vec<f32> = (0..SIZE)
        .map(|n| {
            let t = n as f32 / SIZE as f32;
            0.1 + 0.3 * (TAU * 37.0 * t).sin() + 0.2 * (TAU * 211.0 * t).cos()
        })
        .collect();

    fft.forward(&input, &mut out);

    let time_energy: f32 = input.iter().map(|x| x * x).sum();

    let last = out.len() - 1;
    let mut spectral = out[0].norm_sqr() + out[last].norm_sqr();
    spectral += 2.0 * out[1..last].iter().map(Complex32::norm_sqr).sum::<f32>();
    spectral /= SIZE as f32;

    let error = (time_energy - spectral).abs() / time_energy;
    assert!(
        error < 1e-4,
        "time {time_energy}, spectral {spectral}, relative error {error}"
    );
}

#[test]
fn input_slice_is_not_modified() {
    let (mut fft, mut out) = plan();
    let input: Vec<f32> = (0..SIZE).map(|n| (n as f32 * 0.01).sin()).collect();
    let before = input.clone();

    fft.forward(&input, &mut out);

    assert_eq!(input, before, "forward must not consume the caller's input");
}

#[test]
fn an_inverse_undoes_a_forward_up_to_its_length() {
    let frame: Vec<f32> = (0..SIZE).map(|n| (n as f32 * 0.013).sin()).collect();
    let spectrum = forward().transform(&numbers(&frame));
    let back = floats(&inverse().transform(&spectrum));
    for (x, y) in frame.iter().zip(&back) {
        assert!((x - y / SIZE as f32).abs() < 1e-5);
    }
}

#[test]
fn padding_and_real_ends() {
    let frame = pad(&numbers(&[1.0, 2.0, 3.0]), 2, 4);
    assert_eq!(floats(&frame), [1.0, 2.0, 0.0, 0.0]);
    let bin = Complex { re: number(1.0), im: number(2.0) };
    let mut spectrum = vec![bin; 3];
    make_ends_real(&mut spectrum);
    let imaginary: Vec<f32> = spectrum.iter().map(|z| float(z.im)).collect();
    assert_eq!(imaginary, [0.0, 2.0, 0.0]);
}
