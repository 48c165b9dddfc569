//! Stream configuration and buffers.

use analyzer::arith::{Wide, WideArith};
use analyzer::audio::device::DeviceId;
use analyzer::audio::error::AudioError;
use analyzer::audio::stream::{check_channels, AudioBuffers, AudioCallback, StreamConfig, StreamLatency};
use analyzer::ieee::F64;

/// The bit pattern of `x`.
pub fn wide_number(x: f64) -> F64 {
    F64 { bits: x.to_bits() }
}

/// The number with the bit pattern `x`.
pub fn double(x: F64) -> f64 {
    f64::from_bits(x.bits)
}

/// One step of double-precision arithmetic, by the machine's own operations.
pub fn calculate_wide(step: Wide) -> F64 {
    wide_number(match step {
        Wide::Plus(a, b) => double(a) + double(b),
        Wide::Minus(a, b) => double(a) - double(b),
        Wide::Times(a, b) => double(a) * double(b),
        Wide::Over(a, b) => double(a) / double(b),
        Wide::Root(a) => double(a).sqrt(),
        Wide::Sine(a) => double(a).sin(),
        Wide::Exp(a) => double(a).exp(),
        Wide::Ln(a) => double(a).ln(),
        Wide::Count(n) => n as f64,
        Wide::Widen(a) => f64::from(f32::from_bits(a.bits)),
    })
}

/// The machine's double-precision arithmetic.
pub fn precise() -> WideArith<fn(Wide) -> F64> {
    WideArith::new(calculate_wide)
}

/// A closure as a callback.
pub struct Call<F>(pub F);

impl<F: FnMut(&mut AudioBuffers<'_, f32>)> AudioCallback<f32> for Call<F> {
    fn process(&mut self, buffers: &mut AudioBuffers<'_, f32>) {
        (self.0)(buffers);
    }
}

fn round_trip_seconds(latency: &StreamLatency, sample_rate: f64) -> f64 {
    double(latency.round_trip_seconds(&precise(), wide_number(sample_rate)))
}

fn takes_callback(mut callback: impl AudioCallback<f32>) {
    let input: [f32; 0] = [];
    let mut output = [1.0, 1.0];
    let mut buffers = AudioBuffers::new(&input, &mut output, 0, 1, 2);
    callback.process(&mut buffers);
    assert!(output.iter().all(|s| *s == 0.0));
}

#[test]
fn validate_rejects_empty_channel_sets() {
    let config = StreamConfig {
        sample_rate: wide_number(48_000.0),
        ..Default::default()
    };
    assert!(matches!(config.validate(), Err(AudioError::NothingToDo)));
}

#[test]
fn validate_rejects_non_positive_rate() {
    let config = StreamConfig {
        sample_rate: wide_number(0.0),
        input_channels: vec![0],
        ..Default::default()
    };
    assert!(matches!(
        config.validate(),
        Err(AudioError::UnsupportedSampleRate { .. })
    ));
}

#[test]
fn validate_accepts_input_only() {
    let config = StreamConfig {
        sample_rate: wide_number(48_000.0),
        buffer_frames: 128,
        input_channels: vec![0, 1],
        ..Default::default()
    };
    assert!(config.validate().is_ok());
}

#[test]
fn round_trip_latency_sums_all_three_parts() {
    let latency = StreamLatency {
        input_frames: 100,
        output_frames: 200,
        safety_offset_frames: 33,
    };
    assert_eq!(latency.round_trip_frames(), 333);
    let seconds = round_trip_seconds(&latency, 48_000.0);
    assert!((seconds - 333.0 / 48_000.0).abs() < 1e-12);
    assert_eq!(round_trip_seconds(&latency, 0.0), 0.0);
}

#[test]
fn input_channel_deinterleaves() {
    let input = [1.0, -1.0, 2.0, -2.0, 3.0, -3.0];
    let mut output = [0.0; 3];
    let buffers = AudioBuffers::new(&input, &mut output, 2, 1, 3);

    let left: Vec<f32> = buffers.input_channel(0);
    let right: Vec<f32> = buffers.input_channel(1);
    assert_eq!(left, vec![1.0, 2.0, 3.0]);
    assert_eq!(right, vec![-1.0, -2.0, -3.0]);
}

#[test]
fn out_of_range_channel_yields_nothing_rather_than_panicking() {
    let input = [1.0, 2.0];
    let mut output = [0.0; 2];
    let buffers = AudioBuffers::new(&input, &mut output, 1, 1, 2);
    assert_eq!(buffers.input_channel(5).len(), 0);
}

#[test]
fn silence_output_zeroes_everything() {
    let input: [f32; 0] = [];
    let mut output = [0.5, -0.5, 0.25, -0.25];
    let mut buffers = AudioBuffers::new(&input, &mut output, 0, 2, 2);
    buffers.silence_output(0.0);
    assert!(buffers.output_mut().iter().all(|s| *s == 0.0));
}

#[test]
fn closures_are_callbacks() {
    takes_callback(Call(|buffers: &mut AudioBuffers<'_, f32>| buffers.silence_output(0.0)));
}

#[test]
fn a_refused_rate_is_passed_on() {
    let config = StreamConfig {
        sample_rate: wide_number(-1.0),
        output_channels: vec![3],
        ..Default::default()
    };
    assert_eq!(
        config.validate(),
        Err(AudioError::UnsupportedSampleRate {
            device: "stream".to_string(),
            requested: wide_number(-1.0),
        })
    );
}

#[test]
fn the_first_missing_channel_is_reported() {
    assert_eq!(check_channels("desk", &[0, 1], 2), Ok(()));
    assert_eq!(check_channels("desk", &[], 0), Ok(()));
    assert_eq!(
        check_channels("desk", &[1, 5, 9], 4),
        Err(AudioError::ChannelOutOfRange { device: "desk".to_string(), channel: 5, available: 4 })
    );
}

#[test]
fn latencies_saturate() {
    let latency = StreamLatency {
        input_frames: u32::MAX,
        output_frames: 7,
        safety_offset_frames: 9,
    };
    assert_eq!(latency.round_trip_frames(), u32::MAX);
    assert_eq!(StreamLatency::default().round_trip_frames(), 0);
    assert_eq!(round_trip_seconds(&latency, -48_000.0), 0.0);
}

#[test]
fn a_configuration_clones_whole() {
    let config = StreamConfig {
        input: Some(DeviceId::new("mic")),
        output: None,
        sample_rate: wide_number(44_100.0),
        buffer_frames: 256,
        input_channels: vec![1, 0],
        output_channels: vec![],
    };
    assert_eq!(config.clone(), config);
}

#[test]
fn a_sample_is_found_by_channel_and_frame() {
    let input = [1.0, -1.0, 2.0, -2.0, 3.0, -3.0];
    let mut output = [0.0; 3];
    let buffers = AudioBuffers::new(&input, &mut output, 2, 1, 3);
    assert_eq!(buffers.input_sample(0, 2), Some(3.0));
    assert_eq!(buffers.input_sample(1, 1), Some(-2.0));
    assert_eq!(buffers.input_sample(2, 0), None);
    assert_eq!(buffers.input_sample(0, 3), None);
}
