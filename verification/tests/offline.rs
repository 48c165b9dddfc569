//! The offline backend.

use analyzer::arith::{Wide, WideArith};
use analyzer::audio::device::{default_input, default_output, DeviceId};
use analyzer::audio::error::AudioError;
use analyzer::audio::offline::{offline_device_id, OfflineBackend, Source};
use analyzer::audio::stream::{AudioBuffers, AudioCallback, AudioStream, StreamConfig};
use analyzer::ieee::F64;

/// The bit pattern of `x`.
pub fn wide_number(x: f64) -> F64 {
    F64 { bits: x.to_bits() }
}

/// The number with the bit pattern `x`.
pub fn double(x: F64) -> f64 {
    f64::from_bits(x.bits)
}

/// One step of double-precision arithmetic, by the machine's own operations.
pub fn calculate_wide(step: Wide) -> F64 {
    wide_number(match step {
        Wide::Plus(a, b) => double(a) + double(b),
        Wide::Minus(a, b) => double(a) - double(b),
        Wide::Times(a, b) => double(a) * double(b),
        Wide::Over(a, b) => double(a) / double(b),
        Wide::Root(a) => double(a).sqrt(),
        Wide::Sine(a) => double(a).sin(),
        Wide::Exp(a) => double(a).exp(),
        Wide::Ln(a) => double(a).ln(),
        Wide::Count(n) => n as f64,
        Wide::Widen(a) => f64::from(f32::from_bits(a.bits)),
    })
}

/// The machine's double-precision arithmetic.
pub fn precise() -> WideArith<fn(Wide) -> F64> {
    WideArith::new(calculate_wide)
}

/// A closure as a callback.
pub struct Call<F>(pub F);

impl<F: FnMut(&mut AudioBuffers<'_, f32>)> AudioCallback<f32> for Call<F> {
    fn process(&mut self, buffers: &mut AudioBuffers<'_, f32>) {
        (self.0)(buffers);
    }
}

fn ramp(frames: usize, channels: usize) -> Source<f32> {
    let samples = (0..frames)
        .flat_map(|n| (0..channels).map(move |c| n as f32 + c as f32 / 10.0))
        .collect();
    Source::new(samples, channels, wide_number(48_000.0))
}

fn config(inputs: Vec<u32>, outputs: Vec<u32>) -> StreamConfig {
    StreamConfig {
        input: Some(DeviceId::new(offline_device_id())),
        output: Some(DeviceId::new(offline_device_id())),
        sample_rate: wide_number(48_000.0),
        buffer_frames: 4,
        input_channels: inputs,
        output_channels: outputs,
    }
}

#[test]
fn source_reports_frames() {
    assert_eq!(ramp(10, 2).frames(), 10);
    assert_eq!(Source::mono(vec![0.0; 7], wide_number(48_000.0)).frames(), 7);
}

#[test]
fn enumerates_one_device() {
    let backend = OfflineBackend::new(ramp(4, 2), 2);
    let devices = vec![backend.device()];
    assert_eq!(devices.len(), 1);
    assert!(devices[0].has_input() && devices[0].has_output());
    assert!(default_input(&devices).is_some());
    assert!(default_output(&devices).is_some());
}

#[test]
fn rejects_out_of_range_input_channel() {
    let backend = OfflineBackend::new(ramp(4, 2), 2);
    let result = backend.open_offline(
        &config(vec![7], vec![]),
        Call(|_: &mut AudioBuffers<'_, f32>| {}),
        0.0,
    );
    assert!(matches!(
        result,
        Err(AudioError::ChannelOutOfRange { channel: 7, .. })
    ));
}

#[test]
fn delivers_selected_channels_in_requested_order() {
    let backend = OfflineBackend::new(ramp(3, 2), 3);
    let mut stream = backend
        .open_offline(
            &config(vec![1, 0], vec![]),
            Call(|buffers: &mut AudioBuffers<'_, f32>| {
                let slot0 = buffers.input_channel(0).first().copied().unwrap_or_default();
                let slot1 = buffers.input_channel(1).first().copied().unwrap_or_default();
                assert!(
                    slot0 > slot1,
                    "slot 0 should carry device channel 1: {slot0} vs {slot1}"
                );
            }),
            0.0,
        )
        .unwrap();

    assert!(stream.start().is_ok());
    assert_eq!(stream.run_to_end(), 3);
}

#[test]
fn blocks_split_the_source_and_stop_at_the_end() {
    let backend = OfflineBackend::new(ramp(10, 1), 4);
    let mut blocks = 0_usize;
    let mut stream = backend
        .open_offline(
            &config(vec![0], vec![]),
            Call(move |_: &mut AudioBuffers<'_, f32>| {}),
            0.0,
        )
        .unwrap();

    loop {
        let frames = stream.pump();
        if frames == 0 {
            break;
        }
        blocks += 1;
    }
    assert_eq!(blocks, 3);
    assert_eq!(stream.position(), 10);
    assert_eq!(stream.pump(), 0, "exhausted stream stays exhausted");
}

#[test]
fn captures_what_the_callback_writes() {
    let backend = OfflineBackend::new(ramp(4, 1), 2);
    let mut stream = backend
        .open_offline(
            &config(vec![0], vec![0, 1]),
            Call(|buffers: &mut AudioBuffers<'_, f32>| {
                buffers.output_mut().fill(0.25);
            }),
            0.0,
        )
        .unwrap();

    stream.run_to_end();
    assert_eq!(stream.captured_output().len(), 8);
    assert!(stream.captured_output().iter().all(|s| *s == 0.25));
}

#[test]
fn output_buffer_is_cleared_between_blocks() {
    let backend = OfflineBackend::new(ramp(4, 1), 2);
    let mut first = true;
    let mut stream = backend
        .open_offline(
            &config(vec![0], vec![0]),
            Call(move |buffers: &mut AudioBuffers<'_, f32>| {
                if first {
                    buffers.output_mut().fill(1.0);
                    first = false;
                } else {
                    assert!(buffers.output_mut().iter().all(|s| *s == 0.0));
                }
            }),
            0.0,
        )
        .unwrap();
    assert_eq!(stream.run_to_end(), 4);
}

#[test]
fn rewind_replays_from_the_start() {
    let backend = OfflineBackend::new(ramp(4, 1), 4);
    let mut stream = backend
        .open_offline(
            &config(vec![0], vec![0]),
            Call(|buffers: &mut AudioBuffers<'_, f32>| buffers.output_mut().fill(1.0)),
            0.0,
        )
        .unwrap();

    stream.run_to_end();
    assert_eq!(stream.captured_output().len(), 4);

    stream.rewind();
    assert_eq!(stream.position(), 0);
    assert!(stream.captured_output().is_empty());
    assert_eq!(stream.run_to_end(), 4);
}

#[test]
fn double_start_is_an_error_and_stop_is_idempotent() {
    let backend = OfflineBackend::new(ramp(2, 1), 2);
    let mut stream = backend
        .open_offline(
            &config(vec![0], vec![]),
            Call(|_: &mut AudioBuffers<'_, f32>| {}),
            0.0,
        )
        .unwrap();

    assert!(stream.start().is_ok());
    assert!(matches!(stream.start(), Err(AudioError::AlreadyRunning)));
    assert!(stream.stop().is_ok());
    assert!(stream.stop().is_ok());
    assert!(!stream.is_running());
}

#[test]
fn the_device_describes_the_source() {
    let device = OfflineBackend::new(ramp(4, 3), 2).device();
    assert_eq!(device.id.as_str(), "offline");
    assert_eq!((device.input_channels, device.output_channels), (3, 2));
    assert_eq!(device.default_sample_rate, wide_number(48_000.0));
    assert_eq!(device.supported_sample_rates, [wide_number(48_000.0)]);
    assert!(device.is_default_input && device.is_default_output);
}

#[test]
fn a_rate_within_half_a_hertz_is_supported() {
    let mut device = OfflineBackend::new(ramp(4, 1), 2).device();
    assert!(device.supports_sample_rate(&precise(), wide_number(48_000.4)));
    assert!(!device.supports_sample_rate(&precise(), wide_number(48_000.5)));
    assert!(!device.supports_sample_rate(&precise(), wide_number(44_100.0)));
    device.supported_sample_rates.clear();
    assert!(device.supports_sample_rate(&precise(), wide_number(44_100.0)));
}

#[test]
fn defaults_are_the_first_marked_ones() {
    let device = || OfflineBackend::new(ramp(1, 1), 1).device();
    let (mut first, second) = (device(), device());
    first.is_default_input = false;
    let devices = vec![first, second];
    assert_eq!(default_input(&devices), Some(1));
    assert_eq!(default_output(&devices), Some(0));
    assert_eq!(default_input(&[]), None);
}

#[test]
fn an_idle_request_and_a_missing_output_are_refused() {
    let backend = OfflineBackend::new(ramp(4, 2), 2);
    let idle = backend.open_offline(
        &config(vec![], vec![]),
        Call(|_: &mut AudioBuffers<'_, f32>| {}),
        0.0,
    );
    assert!(matches!(idle, Err(AudioError::NothingToDo)));
    let missing = backend.open_offline(
        &config(vec![0], vec![2]),
        Call(|_: &mut AudioBuffers<'_, f32>| {}),
        0.0,
    );
    assert!(matches!(
        missing,
        Err(AudioError::ChannelOutOfRange { channel: 2, available: 2, .. })
    ));
}

#[test]
fn blocks_of_any_size_deliver_the_same_samples() {
    let heard = |block: usize| {
        let backend = OfflineBackend::new(ramp(10, 2), block);
        let mut stream = backend
            .open_offline(
                &config(vec![1, 0], vec![0, 1]),
                Call(|buffers: &mut AudioBuffers<'_, f32>| {
                    let input = buffers.input().to_vec();
                    buffers.output_mut().copy_from_slice(&input);
                }),
                0.0,
            )
            .unwrap();
        stream.run_to_end();
        stream.captured_output().to_vec()
    };
    let expected: Vec<f32> = (0..10).flat_map(|n| [n as f32 + 0.1, n as f32]).collect();
    assert_eq!(heard(1), expected);
    assert_eq!(heard(3), expected);
    assert_eq!(heard(64), expected);
}

#[test]
fn a_callback_keeps_its_state_from_block_to_block() {
    let backend = OfflineBackend::new(ramp(5, 1), 2);
    let mut total = 0.0;
    let mut stream = backend
        .open_offline(
            &config(vec![0], vec![0]),
            Call(move |buffers: &mut AudioBuffers<'_, f32>| {
                let input = buffers.input().to_vec();
                for (slot, sample) in buffers.output_mut().iter_mut().zip(input) {
                    total += sample;
                    *slot = total;
                }
            }),
            0.0,
        )
        .unwrap();
    assert_eq!(stream.pump(), 2);
    assert_eq!(stream.captured_output(), [0.0, 1.0]);
    assert_eq!(stream.run_to_end(), 3);
    assert_eq!(stream.captured_output(), [0.0, 1.0, 3.0, 6.0, 10.0]);
}

#[test]
fn a_callback_is_told_the_shape_of_its_block() {
    let backend = OfflineBackend::new(ramp(5, 2), 2);
    let mut stream = backend
        .open_offline(
            &config(vec![0, 1], vec![1]),
            Call(|buffers: &mut AudioBuffers<'_, f32>| {
                let code = 100 * buffers.frames()
                    + 10 * buffers.input_channels()
                    + buffers.output_channels();
                buffers.output_mut().fill(code as f32);
            }),
            0.0,
        )
        .unwrap();
    assert_eq!(stream.run_to_end(), 5);
    assert_eq!(stream.captured_output(), [221.0, 221.0, 221.0, 221.0, 121.0]);
}
