//! What the CoreAudio backend decides.

use analyzer::arith::{Wide, WideArith};
use analyzer::audio::coreaudio::{
    available_rates, channel_count, check_callback, check_rate, default_device, describe,
    describe_status, gather_input, granted_buffer_frames, locate_channel, must_set_rate,
    read_latency, resolve_uid, wanted_buffer_frames, CoreAudioBackend, DeviceFacts, InputBuffer,
    RunState, HAL_NOT_PERMITTED,
};
use analyzer::audio::device::DeviceId;
use analyzer::audio::error::AudioError;
use analyzer::audio::stream::{StreamConfig, StreamLatency};
use analyzer::ieee::F64;

/// The bit pattern of `x`.
pub fn wide_number(x: f64) -> F64 {
    F64 { bits: x.to_bits() }
}

/// The number with the bit pattern `x`.
pub fn double(x: F64) -> f64 {
    f64::from_bits(x.bits)
}

/// One step of double-precision arithmetic, by the machine's own operations.
pub fn calculate_wide(step: Wide) -> F64 {
    wide_number(match step {
        Wide::Plus(a, b) => double(a) + double(b),
        Wide::Minus(a, b) => double(a) - double(b),
        Wide::Times(a, b) => double(a) * double(b),
        Wide::Over(a, b) => double(a) / double(b),
        Wide::Root(a) => double(a).sqrt(),
        Wide::Sine(a) => double(a).sin(),
        Wide::Exp(a) => double(a).exp(),
        Wide::Ln(a) => double(a).ln(),
        Wide::Count(n) => n as f64,
        Wide::Widen(a) => f64::from(f32::from_bits(a.bits)),
    })
}

/// The machine's double-precision arithmetic.
pub fn precise() -> WideArith<fn(Wide) -> F64> {
    WideArith::new(calculate_wide)
}

/// What opening the input comes to on a machine that has no such device.
fn open_input(backend: &CoreAudioBackend, config: &StreamConfig) -> Result<String, AudioError> {
    let device = backend.requested_input(config)?;
    backend.accepted_device(device, false, None, 0, &config.input_channels)
}

#[test]
fn unknown_uid_is_reported_not_panicked() {
    let backend = CoreAudioBackend::new();
    let config = StreamConfig {
        input: Some(DeviceId::new("no-such-device-uid")),
        output: None,
        sample_rate: wide_number(48_000.0),
        buffer_frames: 512,
        input_channels: vec![0],
        output_channels: Vec::new(),
    };
    let result = open_input(&backend, &config);
    assert!(matches!(result, Err(AudioError::DeviceNotFound(_))));
}

#[test]
fn output_channels_are_rejected_while_the_backend_is_input_only() {
    let backend = CoreAudioBackend::new();
    let config = StreamConfig {
        input: Some(DeviceId::new("whatever")),
        output: None,
        sample_rate: wide_number(48_000.0),
        buffer_frames: 512,
        input_channels: vec![0],
        output_channels: vec![0],
    };
    let result = open_input(&backend, &config);
    assert!(matches!(result, Err(AudioError::Backend(_))));
}

fn capture(input: Option<&str>, channels: Vec<u32>) -> StreamConfig {
    StreamConfig {
        input: input.map(DeviceId::new),
        output: None,
        sample_rate: wide_number(48_000.0),
        buffer_frames: 512,
        input_channels: channels,
        output_channels: Vec::new(),
    }
}

#[test]
fn a_request_is_checked_before_the_hardware_is() {
    let backend = CoreAudioBackend::new();
    assert_eq!(
        backend.requested_input(&capture(None, vec![])),
        Err(AudioError::NothingToDo)
    );
    assert_eq!(
        backend.requested_input(&capture(None, vec![0])),
        Err(AudioError::DeviceNotFound("no input device selected".to_string()))
    );
    let config = capture(Some("mic"), vec![0]);
    assert_eq!(backend.requested_input(&config), Ok(&DeviceId::new("mic")));
}

#[test]
fn a_device_is_accepted_by_its_channels() {
    let backend = CoreAudioBackend::default();
    let uid = DeviceId::new("uid");
    let accepted = |name: Option<&str>, available: u32, channels: &[u32]| {
        backend.accepted_device(&uid, true, name.map(str::to_string), available, channels)
    };
    assert_eq!(accepted(Some("Desk"), 2, &[1, 0]), Ok("Desk".to_string()));
    assert_eq!(accepted(None, 2, &[1]), Ok("uid".to_string()));
    let lacks = |channel: u32, available: u32| {
        Err(AudioError::ChannelOutOfRange { device: "Desk".to_string(), channel, available })
    };
    assert_eq!(accepted(Some("Desk"), 0, &[0]), lacks(0, 0));
    assert_eq!(accepted(Some("Desk"), 2, &[0, 2]), lacks(2, 2));
}

fn failed(message: &str) -> AudioError {
    AudioError::Backend(message.to_string())
}

#[test]
fn statuses_have_meanings() {
    assert_eq!(describe_status(-50, "Op"), failed("Op failed with OSStatus -50"));
    assert_eq!(describe_status(560947818, "Op"), failed("Op failed with OSStatus 560947818"));
    assert_eq!(
        describe_status(i32::MIN, "Op"),
        failed("Op failed with OSStatus -2147483648")
    );
    let denied = format!(
        "Op was refused by CoreAudio (status {HAL_NOT_PERMITTED}). This is macOS \
         microphone permission being denied. Grant access under System Settings > \
         Privacy & Security > Microphone for the application running this code. \
         Note that TCC will not raise a prompt for a process launched in a \
         non-interactive background session - it refuses outright - so this must \
         be run from a foreground terminal or a bundled app at least once."
    );
    assert_eq!(describe_status(HAL_NOT_PERMITTED, "Op"), failed(&denied));
}

#[test]
fn answers_of_the_hardware_are_checked() {
    let unregistered = |status: i32| {
        failed(&format!("AudioDeviceCreateIOProcID failed with OSStatus {status}"))
    };
    assert_eq!(check_callback(0, true), Ok(()));
    assert_eq!(check_callback(0, false), Err(unregistered(0)));
    assert_eq!(check_callback(-1, true), Err(unregistered(-1)));
    let rate = wide_number(96_000.0);
    assert_eq!(check_rate(0, "Desk", rate), Ok(()));
    let refused = AudioError::UnsupportedSampleRate { device: "Desk".to_string(), requested: rate };
    assert_eq!(check_rate(7, "Desk", rate), Err(refused));
}

#[test]
fn a_stream_runs_from_start_to_stop() {
    let mut run = RunState::new();
    assert!(!run.must_stop());
    assert_eq!(run.may_start(), Ok(()));
    assert_eq!(run.started(-50), Err(failed("AudioDeviceStart failed with OSStatus -50")));
    assert!(!run.running);
    assert_eq!(run.started(0), Ok(()));
    assert!(run.running && run.must_stop());
    assert_eq!(run.may_start(), Err(AudioError::AlreadyRunning));
    assert_eq!(run.stopped(-50), Err(failed("AudioDeviceStop failed with OSStatus -50")));
    assert!(!run.running);
    assert_eq!(run.started(0), Ok(()));
    assert_eq!(run.stopped(0), Ok(()));
    assert_eq!(run, RunState::new());
}

fn facts(uid: Option<&str>, name: Option<&str>) -> DeviceFacts {
    DeviceFacts {
        number: 42,
        uid: uid.map(str::to_string),
        name: name.map(str::to_string),
        input_streams: vec![2, 6],
        output_streams: Vec::new(),
        nominal_rate: Some(wide_number(48_000.0)),
        rate_ranges: vec![(wide_number(44_100.0), wide_number(48_000.0))],
    }
}

#[test]
fn a_device_is_described_by_what_it_reports() {
    let info = describe(&precise(), &facts(Some("uid"), Some("Desk")), Some(42), None).unwrap();
    assert_eq!(info.id, DeviceId::new("uid"));
    assert_eq!(info.name, "Desk");
    assert_eq!((info.input_channels, info.output_channels), (8, 0));
    assert_eq!(double(info.default_sample_rate), 48_000.0);
    let rates: Vec<f64> = info.supported_sample_rates.into_iter().map(double).collect();
    assert_eq!(rates, [44_100.0, 48_000.0]);
    assert!(info.is_default_input && !info.is_default_output);

    let mut unnamed = facts(Some("uid"), None);
    unnamed.nominal_rate = None;
    let info = describe(&precise(), &unnamed, Some(1), Some(42)).unwrap();
    assert_eq!(info.name, "Audio device 42");
    assert_eq!(double(info.default_sample_rate), 0.0);
    assert!(!info.is_default_input && info.is_default_output);

    assert_eq!(describe(&precise(), &facts(None, Some("Desk")), None, None), None);
}

#[test]
fn device_uids_resolve_back_to_numeric_ids() {
    let reported = [facts(Some("mic"), Some("Desk")), facts(Some("line"), None)];
    let devices: Vec<_> =
        (10..).zip(&reported).map(|(number, device)| (number, device.uid.clone())).collect();
    for (number, device) in (10..).zip(&reported) {
        let info = describe(&precise(), device, None, None).unwrap();
        assert_eq!(resolve_uid(info.id.as_str(), &devices), Some(number));
    }
}

#[test]
fn uids_resolve_to_the_first_device_that_has_them() {
    let devices =
        [(3, None), (4, Some("a".to_string())), (5, Some("b".to_string())), (6, Some("b".to_string()))];
    assert_eq!(resolve_uid("a", &devices), Some(4));
    assert_eq!(resolve_uid("b", &devices), Some(5));
    assert_eq!(resolve_uid("c", &devices), None);
    assert_eq!(default_device(Some(5)), Some(5));
    assert_eq!(default_device(Some(0)), None);
    assert_eq!(default_device(None), None);
    assert_eq!(channel_count(&[2, 0, 3]), 5);
    assert_eq!(channel_count(&[]), 0);
}

#[test]
fn buffer_sizes_are_clamped_and_then_believed() {
    assert_eq!(wanted_buffer_frames(1), 16);
    assert_eq!(wanted_buffer_frames(512), 512);
    assert_eq!(wanted_buffer_frames(100_000), 8192);
    assert_eq!(granted_buffer_frames(512, Some(480)), Ok(480));
    assert_eq!(granted_buffer_frames(1, None), Ok(16));
    let oversized =
        failed("device insists on 8193-frame buffers, more than the 8192 preallocated");
    assert_eq!(granted_buffer_frames(512, Some(8193)), Err(oversized));
}

#[test]
fn the_granted_configuration_keeps_the_rest() {
    let config = capture(Some("mic"), vec![2, 0]);
    let granted =
        CoreAudioBackend::new().granted_config(&config, 480, Some(wide_number(44_100.0)));
    let expected = StreamConfig {
        buffer_frames: 480,
        sample_rate: wide_number(44_100.0),
        ..config.clone()
    };
    assert_eq!(granted, expected);
    let same = CoreAudioBackend::new().granted_config(&config, 512, None);
    assert_eq!(same, config);
}

#[test]
fn rates_are_listed_once_in_ascending_order() {
    let ranges: Vec<_> = [(96_000.0, 96_000.0), (8_000.0, 48_000.0), (48_000.2, 48_000.3)]
        .into_iter()
        .map(|(low, high)| (wide_number(low), wide_number(high)))
        .collect();
    let rates: Vec<f64> = available_rates(&precise(), &ranges).into_iter().map(double).collect();
    assert_eq!(rates, [8_000.0, 48_000.0, 96_000.0]);
    assert!(available_rates(&precise(), &[]).is_empty());
    assert!(!must_set_rate(&precise(), Some(wide_number(47_999.6)), wide_number(48_000.0)));
    assert!(must_set_rate(&precise(), Some(wide_number(44_100.0)), wide_number(48_000.0)));
    assert!(must_set_rate(&precise(), None, wide_number(48_000.0)));
}

#[test]
fn an_unreported_latency_is_zero() {
    let expected = StreamLatency { input_frames: 33, output_frames: 0, safety_offset_frames: 0 };
    assert_eq!(read_latency(Some(33), None), expected);
    assert_eq!(read_latency(None, None), StreamLatency::default());
}

#[test]
fn channels_are_gathered_from_both_shapes_of_buffer_list() {
    let interleaved = [1.0_f32, -1.0, 2.0, -2.0];
    let separate = [10.0_f32, 20.0];
    let list = [
        InputBuffer { channels: 2, samples: 4, data: Some(&interleaved[..]) },
        InputBuffer { channels: 1, samples: 2, data: Some(&separate[..]) },
    ];
    assert_eq!(locate_channel(&list, 1), Some((0, 1)));
    assert_eq!(locate_channel(&list, 2), Some((1, 0)));
    assert_eq!(locate_channel(&list, 3), None);
    let mut out = [0.0_f32; 6];
    assert_eq!(gather_input(&list, &[2, 0, 7], &mut out), 2);
    assert_eq!(out, [10.0, 1.0, 0.0, 20.0, 2.0, 0.0]);
    let mut small = [0.0_f32; 1];
    assert_eq!(gather_input(&list, &[1], &mut small), 1);
    assert_eq!(small, [-1.0]);
    assert_eq!(gather_input::<f32>(&[], &[0], &mut out), 0);
}
