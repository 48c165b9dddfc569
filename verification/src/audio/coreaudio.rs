//! What the CoreAudio backend decides, apart from talking to the hardware.
//!
//! [`DeviceId`] carries the device's UID, not its number: the number is only
//! stable within a boot.

use vstd::prelude::*;
use vstd::string::StringExecFns;

use crate::arith::{Wide, WideArith};
use crate::audio::device::{same_rate, DeviceId, DeviceInfo, HALF_HERTZ_BITS};
use crate::audio::error::AudioError;
use crate::audio::stream::{check_channels, StreamConfig, StreamLatency};
use crate::ieee::F64;
use crate::order;
use crate::order::arrange;
use crate::text;
use crate::text::{decimal_text, signed_text};

verus! {

/// Largest callback that is preallocated for.
pub const MAX_BUFFER_FRAMES: u32 = 8192;

/// Smallest callback that is asked for.
pub const MIN_BUFFER_FRAMES: u32 = 16;

/// The status the platform answers with when microphone access is denied.
pub const HAL_NOT_PERMITTED: i32 = 0x1000_4003;

/// What a user is told when the platform denies microphone access.
pub const DENIED_ADVICE: &'static str = "). This is macOS \
     microphone permission being denied. Grant access under System Settings > \
     Privacy & Security > Microphone for the application running this code. \
     Note that TCC will not raise a prompt for a process launched in a \
     non-interactive background session - it refuses outright - so this must \
     be run from a foreground terminal or a bundled app at least once.";

/// What is said of a status other than zero.
pub open spec fn status_message(status: i32, operation: Seq<char>) -> Seq<char> {
    if status == HAL_NOT_PERMITTED {
        operation + " was refused by CoreAudio (status "@ + text::signed_decimal(status as int)
            + DENIED_ADVICE@
    } else {
        failure_message(status, operation)
    }
}

/// What is said of an operation that failed for a reason that only its status tells.
pub open spec fn failure_message(status: i32, operation: Seq<char>) -> Seq<char> {
    operation + " failed with OSStatus "@ + text::signed_decimal(status as int)
}

fn failure(status: i32, operation: &str) -> (error: AudioError)
    ensures
        error.says(failure_message(status, operation@)),
{
    let mut message = operation.to_owned();
    message.append(" failed with OSStatus ");
    message.append(signed_text(status).as_str());
    AudioError::Backend(message)
}

/// Turn a status from start or stop into something a user can act on.
pub fn describe_status(status: i32, operation: &str) -> (error: AudioError)
    ensures
        error.says(status_message(status, operation@)),
{
    if status == HAL_NOT_PERMITTED {
        let mut message = operation.to_owned();
        message.append(" was refused by CoreAudio (status ");
        message.append(signed_text(status).as_str());
        message.append(DENIED_ADVICE);
        return AudioError::Backend(message);
    }
    failure(status, operation)
}

/// Whether a callback was registered: the status says so and there is one.
pub fn check_callback(status: i32, registered: bool) -> (checked: Result<(), AudioError>)
    ensures
        checked is Ok <==> status == 0 && registered,
        checked matches Err(e) ==> e.says(failure_message(status, "AudioDeviceCreateIOProcID"@)),
{
    if status != 0 || !registered {
        return Err(failure(status, "AudioDeviceCreateIOProcID"));
    }
    Ok(())
}

/// Whether a device took the rate it was told, `status` being its answer.
pub fn check_rate(status: i32, name: &str, requested: F64) -> (checked: Result<(), AudioError>)
    ensures
        checked is Ok <==> status == 0,
        checked matches Err(e) ==> e.refuses_rate(name@, requested),
{
    if status != 0 {
        return Err(AudioError::UnsupportedSampleRate { device: name.to_owned(), requested });
    }
    Ok(())
}

/// Whether a capture stream runs, and what its hardware answers make of that.
#[derive(Debug, Clone, Copy, PartialEq, Eq, Structural)]
pub struct RunState {
    /// Whether the device was started and not stopped since.
    pub running: bool,
}

impl RunState {
    /// A stream that was opened and not started yet.
    pub fn new() -> (state: RunState)
        ensures
            state == (RunState { running: false }),
    {
        RunState { running: false }
    }

    /// Whether the device is to be told to start: a running one must not be.
    pub fn may_start(&self) -> (may: Result<(), AudioError>)
        ensures
            may == if self.running {
                Err::<(), AudioError>(AudioError::AlreadyRunning)
            } else {
                Ok::<(), AudioError>(())
            },
    {
        if self.running {
            return Err(AudioError::AlreadyRunning);
        }
        Ok(())
    }

    /// Take the device's answer to being told to start.
    pub fn started(&mut self, status: i32) -> (outcome: Result<(), AudioError>)
        requires
            !old(self).running,
        ensures
            final(self).running == (status == 0),
            outcome is Ok <==> status == 0,
            outcome matches Err(e) ==> e.says(status_message(status, "AudioDeviceStart"@)),
    {
        if status != 0 {
            return Err(describe_status(status, "AudioDeviceStart"));
        }
        self.running = true;
        Ok(())
    }

    /// Whether the device is to be told to stop. Stopping an idle stream does
    /// nothing.
    pub fn must_stop(&self) -> (must: bool)
        ensures
            must == self.running,
    {
        self.running
    }

    /// Take the device's answer to being told to stop. Whatever it says, the stream
    /// counts as stopped.
    pub fn stopped(&mut self, status: i32) -> (outcome: Result<(), AudioError>)
        ensures
            !final(self).running,
            outcome is Ok <==> status == 0,
            outcome matches Err(e) ==> e.says(status_message(status, "AudioDeviceStop"@)),
    {
        self.running = false;
        if status != 0 {
            return Err(describe_status(status, "AudioDeviceStop"));
        }
        Ok(())
    }
}

/// The macOS CoreAudio backend.
#[derive(Debug, Clone, Copy, PartialEq, Eq, Structural)]
pub struct CoreAudioBackend {}

impl Default for CoreAudioBackend {
    fn default() -> (backend: CoreAudioBackend)
        ensures
            backend == CoreAudioBackend::spec_new(),
    {
        CoreAudioBackend {  }
    }
}

impl CoreAudioBackend {
    pub open spec fn spec_new() -> CoreAudioBackend {
        CoreAudioBackend {  }
    }

    /// Create the backend. Enumeration is done lazily, per call.
    pub fn new() -> (backend: CoreAudioBackend)
        ensures
            backend == CoreAudioBackend::spec_new(),
    {
        CoreAudioBackend {  }
    }

    /// The device a capture stream is to be opened on.
    ///
    /// The backend is input-only, so a request for playback is refused, and so is
    /// one that names no capture device.
    pub fn requested_input<'a>(&self, config: &'a StreamConfig) -> (device: Result<
        &'a DeviceId,
        AudioError,
    >)
        ensures
            device is Ok <==> !config.idle() && !config.rateless() && config.output_channels@.len()
                == 0 && config.input is Some,
            device matches Ok(id) ==> config.input == Some(*id),
            device matches Err(e) ==> {
                if config.idle() {
                    e == AudioError::NothingToDo
                } else if config.rateless() {
                    e.refuses_rate("stream"@, config.sample_rate)
                } else if config.output_channels@.len() > 0 {
                    e.says("the CoreAudio backend is input-only for now"@)
                } else {
                    e.misses_device("no input device selected"@)
                }
            },
    {
        match config.validate() {
            Err(error) => {
                return Err(error);
            },
            Ok(_) => {},
        }
        if config.output_channels.len() > 0 {
            return Err(
                AudioError::Backend("the CoreAudio backend is input-only for now".to_owned()),
            );
        }
        match &config.input {
            Some(id) => Ok(id),
            None => Err(AudioError::DeviceNotFound("no input device selected".to_owned())),
        }
    }

    /// The name of the device, once it is known that it is there and has every
    /// channel that was asked for. `found` says whether the UID `uid` resolved,
    /// `name` what the platform calls the device, and `available` how many capture
    /// channels it has.
    pub fn accepted_device(
        &self,
        uid: &DeviceId,
        found: bool,
        name: Option<String>,
        available: u32,
        channels: &[u32],
    ) -> (accepted: Result<String, AudioError>)
        ensures
            accepted is Ok <==> found && available > 0 && forall|i: int|
                0 <= i < channels@.len() ==> #[trigger] channels@[i] < available,
            accepted matches Ok(shown) ==> shown@ == shown_name(*uid, name),
            accepted matches Err(e) ==> {
                if !found {
                    e.misses_device(uid@)
                } else if available == 0 {
                    e.lacks_channel(shown_name(*uid, name), 0, 0)
                } else {
                    exists|i: int|
                        0 <= i < channels@.len() && channels@[i] >= available && e.lacks_channel(
                            shown_name(*uid, name),
                            #[trigger] channels@[i],
                            available,
                        ) && forall|k: int| 0 <= k < i ==> #[trigger] channels@[k] < available
                }
            },
    {
        if !found {
            return Err(AudioError::DeviceNotFound(uid.as_str().to_owned()));
        }
        let shown = match name {
            Some(shown) => shown,
            None => uid.as_str().to_owned(),
        };
        if available == 0 {
            return Err(
                AudioError::ChannelOutOfRange { device: shown, channel: 0, available: 0 },
            );
        }
        match check_channels(shown.as_str(), channels, available) {
            Err(error) => Err(error),
            Ok(_) => Ok(shown),
        }
    }

    /// The configuration in force: what was asked for, with what the device granted.
    pub fn granted_config(
        &self,
        config: &StreamConfig,
        granted_frames: u32,
        reported_rate: Option<F64>,
    ) -> (granted: StreamConfig)
        ensures
            granted.same(
                StreamConfig {
                    buffer_frames: granted_frames,
                    sample_rate: match reported_rate {
                        Some(rate) => rate,
                        None => config.sample_rate,
                    },
                    ..*config
                },
            ),
    {
        let mut granted = config.clone();
        granted.buffer_frames = granted_frames;
        granted.sample_rate = match reported_rate {
            Some(rate) => rate,
            None => config.sample_rate,
        };
        granted
    }
}

/// The name shown for a device: its own, or else its UID.
pub open spec fn shown_name(uid: DeviceId, name: Option<String>) -> Seq<char> {
    match name {
        Some(shown) => shown@,
        None => uid@,
    }
}

/// Whether a device has to be told the rate: not when it already runs within half
/// a hertz of it. An unreported rate counts as zero.
pub fn must_set_rate<W: Fn(Wide) -> F64>(
    w: &WideArith<W>,
    current: Option<F64>,
    requested: F64,
) -> (must: bool)
    ensures
        must == !same_rate(w, known_rate(current), requested),
{
    let rate = match current {
        Some(rate) => rate,
        None => F64 { bits: 0 },
    };
    !same_rate(w, rate, requested)
}

/// The rate a device runs at, or zero where it reports none.
pub open spec fn known_rate(current: Option<F64>) -> F64 {
    match current {
        Some(rate) => rate,
        None => F64 { bits: 0 },
    }
}

/// The buffer size to ask a device for.
pub fn wanted_buffer_frames(requested: u32) -> (wanted: u32)
    ensures
        MIN_BUFFER_FRAMES <= wanted <= MAX_BUFFER_FRAMES,
        MIN_BUFFER_FRAMES <= requested <= MAX_BUFFER_FRAMES ==> wanted == requested,
        requested < MIN_BUFFER_FRAMES ==> wanted == MIN_BUFFER_FRAMES,
        requested > MAX_BUFFER_FRAMES ==> wanted == MAX_BUFFER_FRAMES,
{
    if requested < MIN_BUFFER_FRAMES {
        MIN_BUFFER_FRAMES
    } else if requested > MAX_BUFFER_FRAMES {
        MAX_BUFFER_FRAMES
    } else {
        requested
    }
}

/// What is said of a device whose buffers are larger than is preallocated.
pub open spec fn oversize_message(frames: u32) -> Seq<char> {
    "device insists on "@ + text::decimal(frames as nat) + "-frame buffers, more than the "@
        + text::decimal(MAX_BUFFER_FRAMES as nat) + " preallocated"@
}

/// The buffer size in force. The device may refuse or round, so only what it
/// reports back is trusted, and it is refused where it is more than is preallocated.
pub fn granted_buffer_frames(requested: u32, reported: Option<u32>) -> (granted: Result<
    u32,
    AudioError,
>)
    ensures
        match granted {
            Ok(frames) => frames == frames_in_force(requested, reported) && frames
                <= MAX_BUFFER_FRAMES,
            Err(e) => frames_in_force(requested, reported) > MAX_BUFFER_FRAMES && e.says(
                oversize_message(frames_in_force(requested, reported)),
            ),
        },
{
    let frames: u32 = match reported {
        Some(frames) => frames,
        None => wanted_buffer_frames(requested),
    };
    if frames > MAX_BUFFER_FRAMES {
        let mut message = "device insists on ".to_owned();
        message.append(decimal_text(frames as u64).as_str());
        message.append("-frame buffers, more than the ");
        message.append(decimal_text(MAX_BUFFER_FRAMES as u64).as_str());
        message.append(" preallocated");
        return Err(AudioError::Backend(message));
    }
    Ok(frames)
}

/// The buffer size that a device runs with: the one it reports, or else the one it
/// was asked for.
pub open spec fn frames_in_force(requested: u32, reported: Option<u32>) -> u32 {
    match reported {
        Some(frames) => frames,
        None => clamped_frames(requested),
    }
}

/// The nearest buffer size that is asked for.
pub open spec fn clamped_frames(requested: u32) -> u32 {
    if requested < MIN_BUFFER_FRAMES {
        MIN_BUFFER_FRAMES
    } else if requested > MAX_BUFFER_FRAMES {
        MAX_BUFFER_FRAMES
    } else {
        requested
    }
}

/// The latency of a capture stream, as far as the device reported it.
pub fn read_latency(input: Option<u32>, safety_offset: Option<u32>) -> (latency: StreamLatency)
    ensures
        latency == (StreamLatency {
            input_frames: match input {
                Some(frames) => frames,
                None => 0,
            },
            output_frames: 0,
            safety_offset_frames: match safety_offset {
                Some(frames) => frames,
                None => 0,
            },
        }),
{
    StreamLatency {
        input_frames: match input {
            Some(frames) => frames,
            None => 0,
        },
        output_frames: 0,
        safety_offset_frames: match safety_offset {
            Some(frames) => frames,
            None => 0,
        },
    }
}

/// Whether a range spans more than half a hertz, so that both its ends are rates.
#[verifier::allow_in_spec]
pub fn is_wide<W: Fn(Wide) -> F64>(w: &WideArith<W>, range: (F64, F64)) -> bool
    returns
        (F64 { bits: HALF_HERTZ_BITS }).lt(w.minus(range.1, range.0).abs()),
{
    (F64 { bits: HALF_HERTZ_BITS }).lt(w.minus(range.1, range.0).abs())
}

/// The ends of rate ranges one after the other: the lower end of each, and the
/// upper end too of each that is wide.
pub open spec fn range_ends<W: Fn(Wide) -> F64>(w: WideArith<W>, ranges: Seq<(F64, F64)>) -> Seq<F64>
    decreases ranges.len(),
{
    if ranges.len() == 0 {
        Seq::empty()
    } else {
        let before = range_ends(w, ranges.drop_last()).push(ranges.last().0);
        if is_wide(&w, ranges.last()) {
            before.push(ranges.last().1)
        } else {
            before
        }
    }
}

/// The rates that ranges stand for, as the device reported them.
fn list_rates<W: Fn(Wide) -> F64>(w: &WideArith<W>, ranges: &[(F64, F64)]) -> (rates: Vec<F64>)
    ensures
        rates@ == range_ends(*w, ranges@),
{
    let mut rates: Vec<F64> = Vec::new();
    let mut i: usize = 0;
    assert(rates@ =~= range_ends(*w, ranges@.take(0)));
    while i < ranges.len()
        invariant
            i <= ranges@.len(),
            rates@ == range_ends(*w, ranges@.take(i as int)),
        decreases ranges@.len() - i,
    {
        let range = ranges[i];
        rates.push(range.0);
        if is_wide(w, range) {
            rates.push(range.1);
        }
        i = i + 1;
        assert(ranges@.take(i as int).drop_last() =~= ranges@.take(i - 1));
    }
    assert(ranges@.take(i as int) =~= ranges@);
    rates
}

/// The places of rates in the total order of numbers.
pub open spec fn total_ranks(rates: Seq<F64>) -> Seq<i64> {
    Seq::new(rates.len(), |i: int| rates[i].total_rank() as i64)
}

/// The rates in ascending order.
fn sort_rates(rates: &[F64]) -> (sorted: Vec<F64>)
    ensures
        order::arranged(rates@, total_ranks(rates@), sorted@),
{
    let mut keys: Vec<i64> = Vec::new();
    let mut i: usize = 0;
    while i < rates.len()
        invariant
            i <= rates@.len(),
            keys@.len() == i,
            forall|k: int| 0 <= k < i ==> #[trigger] keys@[k] == rates@[k].total_rank(),
        decreases rates@.len() - i,
    {
        keys.push(rates[i].total_key());
        i = i + 1;
    }
    assert(keys@ =~= total_ranks(rates@));
    arrange(rates, keys.as_slice())
}

/// The rates without those that are the same as the last one kept before them.
pub open spec fn distinct<W: Fn(Wide) -> F64>(w: WideArith<W>, rates: Seq<F64>) -> Seq<F64>
    decreases rates.len(),
{
    if rates.len() == 0 {
        Seq::empty()
    } else {
        let before = distinct(w, rates.drop_last());
        if before.len() > 0 && same_rate(&w, rates.last(), before.last()) {
            before
        } else {
            before.push(rates.last())
        }
    }
}

/// Whether `rates` are the ends of `ranges` in ascending order, each rate once.
pub open spec fn rates_listed<W: Fn(Wide) -> F64>(
    w: WideArith<W>,
    ranges: Seq<(F64, F64)>,
    rates: Seq<F64>,
) -> bool {
    exists|sorted: Seq<F64>|
        order::arranged(range_ends(w, ranges), total_ranks(range_ends(w, ranges)), sorted) && rates
            == #[trigger] distinct(w, sorted)
}

/// The distinct rates of a device in ascending order, `ranges` being what it
/// reported.
pub fn available_rates<W: Fn(Wide) -> F64>(w: &WideArith<W>, ranges: &[(F64, F64)]) -> (rates: Vec<
    F64,
>)
    ensures
        rates_listed(*w, ranges@, rates@),
{
    let listed = list_rates(w, ranges);
    let sorted = sort_rates(listed.as_slice());
    let mut rates: Vec<F64> = Vec::new();
    let mut n: usize = 0;
    assert(rates@ =~= distinct(*w, sorted@.take(0)));
    while n < sorted.len()
        invariant
            n <= sorted@.len(),
            rates@ == distinct(*w, sorted@.take(n as int)),
        decreases sorted@.len() - n,
    {
        let rate = sorted[n];
        let count: usize = rates.len();
        if count == 0 || !same_rate(w, rate, rates[count - 1]) {
            rates.push(rate);
        }
        n = n + 1;
        assert(sorted@.take(n as int).drop_last() =~= sorted@.take(n - 1));
    }
    assert(sorted@.take(n as int) =~= sorted@);
    assert(rates@ == distinct(*w, sorted@));
    rates
}

/// The rates that are left ascend, and none is above the last that was listed.
proof fn lemma_distinct_ascend<W: Fn(Wide) -> F64>(w: WideArith<W>, sorted: Seq<F64>)
    requires
        forall|i: int, j: int|
            0 <= i < j < sorted.len() ==> (#[trigger] sorted[i]).total_rank() <= (
            #[trigger] sorted[j]).total_rank(),
    ensures
        forall|i: int, j: int|
            0 <= i < j < distinct(w, sorted).len() ==> (#[trigger] distinct(
                w,
                sorted,
            )[i]).total_rank() <= (#[trigger] distinct(w, sorted)[j]).total_rank(),
        forall|i: int|
            0 <= i < distinct(w, sorted).len() ==> sorted.len() > 0 && (#[trigger] distinct(
                w,
                sorted,
            )[i]).total_rank() <= sorted.last().total_rank(),
    decreases sorted.len(),
{
    if sorted.len() > 0 {
        let before = sorted.drop_last();
        assert forall|i: int, j: int| 0 <= i < j < before.len() implies (
        #[trigger] before[i]).total_rank() <= (#[trigger] before[j]).total_rank() by {
            assert(before[i] == sorted[i] && before[j] == sorted[j]);
        }
        lemma_distinct_ascend(w, before);
        if before.len() > 0 {
            assert(sorted[sorted.len() - 2].total_rank() <= sorted[sorted.len() - 1].total_rank());
            assert(before.last() == sorted[sorted.len() - 2]);
        }
        let (kept, left) = (distinct(w, before), distinct(w, sorted));
        assert(left == kept || left == kept.push(sorted.last()));
        assert forall|i: int| 0 <= i < left.len() implies (#[trigger] left[i]).total_rank()
            <= sorted.last().total_rank() by {
            if i < kept.len() {
                assert(left[i] == kept[i]);
            }
        }
        assert forall|i: int, j: int| 0 <= i < j < left.len() implies (
        #[trigger] left[i]).total_rank() <= (#[trigger] left[j]).total_rank() by {
            assert(left[i] == kept[i]);
            if j < kept.len() {
                assert(left[j] == kept[j]);
            }
        }
    }
}

/// The rates of a device come out in ascending order.
pub proof fn lemma_rates_ascend<W: Fn(Wide) -> F64>(
    w: WideArith<W>,
    ranges: Seq<(F64, F64)>,
    rates: Seq<F64>,
)
    requires
        rates_listed(w, ranges, rates),
    ensures
        forall|i: int, j: int|
            0 <= i < j < rates.len() ==> (#[trigger] rates[i]).total_rank() <= (
            #[trigger] rates[j]).total_rank(),
{
    let listed = range_ends(w, ranges);
    let sorted = choose|sorted: Seq<F64>|
        order::arranged(listed, total_ranks(listed), sorted) && rates == #[trigger] distinct(
            w,
            sorted,
        );
    let places = order::lemma_arranged_ascends(listed, total_ranks(listed), sorted);
    assert forall|i: int, j: int| 0 <= i < j < sorted.len() implies (
    #[trigger] sorted[i]).total_rank() <= (#[trigger] sorted[j]).total_rank() by {
        let (a, b) = (places[i] as int, places[j] as int);
        assert(total_ranks(listed)[a] <= total_ranks(listed)[b]);
    }
    lemma_distinct_ascend(w, sorted);
}

/// Channels of the first `count` streams together.
pub open spec fn channel_sum(streams: Seq<u32>, count: int) -> int
    decreases count,
{
    if count <= 0 {
        0
    } else {
        channel_sum(streams, count - 1) + streams[count - 1]
    }
}

proof fn lemma_sum_grows(streams: Seq<u32>, a: int, b: int)
    requires
        0 <= a <= b <= streams.len(),
    ensures
        0 <= channel_sum(streams, a) <= channel_sum(streams, b),
    decreases b,
{
    if b > 0 {
        lemma_sum_grows(streams, if a < b {
            a
        } else {
            a - 1
        }, b - 1);
    }
}

/// Total channels of a device in one direction, `streams` being how many each of its
/// streams has.
pub fn channel_count(streams: &[u32]) -> (total: u32)
    requires
        channel_sum(streams@, streams@.len() as int) <= u32::MAX,
    ensures
        total == channel_sum(streams@, streams@.len() as int),
{
    let mut total: u32 = 0;
    let mut i: usize = 0;
    while i < streams.len()
        invariant
            i <= streams@.len(),
            total == channel_sum(streams@, i as int),
            channel_sum(streams@, streams@.len() as int) <= u32::MAX,
        decreases streams@.len() - i,
    {
        proof {
            lemma_sum_grows(streams@, i + 1, streams@.len() as int);
        }
        total = total + streams[i];
        i = i + 1;
    }
    total
}

/// The default device, if the system names one: number zero stands for none.
pub fn default_device(reported: Option<u32>) -> (device: Option<u32>)
    ensures
        device == if reported == Some(0u32) {
            None::<u32>
        } else {
            reported
        },
{
    match reported {
        Some(0) => None,
        other => other,
    }
}

/// What the platform reports of a device.
#[derive(Debug)]
pub struct DeviceFacts {
    /// Its number, stable within a boot.
    pub number: u32,
    /// Its stable identity, if it has one.
    pub uid: Option<String>,
    /// Its name, if it has one.
    pub name: Option<String>,
    /// Channels of each of its capture streams.
    pub input_streams: Vec<u32>,
    /// Channels of each of its playback streams.
    pub output_streams: Vec<u32>,
    /// The rate it is set to.
    pub nominal_rate: Option<F64>,
    /// The ranges of rates it offers.
    pub rate_ranges: Vec<(F64, F64)>,
}

impl DeviceFacts {
    /// The channels of each direction can be counted.
    pub open spec fn countable(self) -> bool {
        &&& channel_sum(self.input_streams@, self.input_streams@.len() as int) <= u32::MAX
        &&& channel_sum(self.output_streams@, self.output_streams@.len() as int) <= u32::MAX
    }

    /// Its name, or one made up from its number.
    pub open spec fn title(self) -> Seq<char> {
        match self.name {
            Some(name) => name@,
            None => "Audio device "@ + text::decimal(self.number as nat),
        }
    }
}

/// A device as it is offered to a user.
///
/// The UID is the stable identity; a device without one is not addressable across
/// restarts and is not worth offering.
pub fn describe<W: Fn(Wide) -> F64>(
    w: &WideArith<W>,
    facts: &DeviceFacts,
    default_in: Option<u32>,
    default_out: Option<u32>,
) -> (described: Option<DeviceInfo>)
    requires
        facts.countable(),
    ensures
        described is Some <==> facts.uid is Some,
        described matches Some(info) ==> {
            &&& info.id@ == facts.uid->0@
            &&& info.name@ == facts.title()
            &&& info.input_channels == channel_sum(
                facts.input_streams@,
                facts.input_streams@.len() as int,
            )
            &&& info.output_channels == channel_sum(
                facts.output_streams@,
                facts.output_streams@.len() as int,
            )
            &&& info.default_sample_rate == known_rate(facts.nominal_rate)
            &&& rates_listed(*w, facts.rate_ranges@, info.supported_sample_rates@)
            &&& info.is_default_input == (default_in == Some(facts.number))
            &&& info.is_default_output == (default_out == Some(facts.number))
        },
{
    let uid = match &facts.uid {
        Some(uid) => uid,
        None => {
            return None;
        },
    };
    let name = match &facts.name {
        Some(name) => name.clone(),
        None => {
            let mut name = "Audio device ".to_owned();
            name.append(decimal_text(facts.number as u64).as_str());
            name
        },
    };
    Some(
        DeviceInfo {
            id: DeviceId::new(uid.as_str()),
            name,
            input_channels: channel_count(facts.input_streams.as_slice()),
            output_channels: channel_count(facts.output_streams.as_slice()),
            default_sample_rate: match facts.nominal_rate {
                Some(rate) => rate,
                None => F64 { bits: 0 },
            },
            supported_sample_rates: available_rates(w, facts.rate_ranges.as_slice()),
            is_default_input: names(default_in, facts.number),
            is_default_output: names(default_out, facts.number),
        },
    )
}

fn names(default: Option<u32>, number: u32) -> (yes: bool)
    ensures
        yes == (default == Some(number)),
{
    match default {
        Some(device) => device == number,
        None => false,
    }
}

/// Whether a device reports the UID `uid`.
pub open spec fn has_uid(device: (u32, Option<String>), uid: Seq<char>) -> bool {
    device.1 is Some && device.1->0@ == uid
}

/// Whether `number` is that of the first device that has the UID `uid`, or none where
/// no device has it.
pub open spec fn resolves(
    uid: Seq<char>,
    devices: Seq<(u32, Option<String>)>,
    number: Option<u32>,
) -> bool {
    match number {
        Some(found) => exists|i: int|
            0 <= i < devices.len() && #[trigger] has_uid(devices[i], uid) && devices[i].0 == found
                && forall|k: int| 0 <= k < i ==> !#[trigger] has_uid(devices[k], uid),
        None => forall|k: int| 0 <= k < devices.len() ==> !#[trigger] has_uid(devices[k], uid),
    }
}

/// The number of the first device that has the UID `uid`.
pub fn resolve_uid(uid: &str, devices: &[(u32, Option<String>)]) -> (number: Option<u32>)
    ensures
        resolves(uid@, devices@, number),
{
    let wanted = uid.to_owned();
    let mut i: usize = 0;
    while i < devices.len()
        invariant
            i <= devices@.len(),
            wanted@ == uid@,
            forall|k: int| 0 <= k < i ==> !#[trigger] has_uid(devices@[k], uid@),
        decreases devices@.len() - i,
    {
        match &devices[i].1 {
            Some(own) => {
                if *own == wanted {
                    assert(has_uid(devices@[i as int], uid@));
                    return Some(devices[i].0);
                }
            },
            None => {},
        }
        i = i + 1;
    }
    None
}

/// The UID of every listed device resolves to a number, and where no other device
/// has that UID, to its own.
pub proof fn lemma_uid_resolves_back(
    devices: Seq<(u32, Option<String>)>,
    at: int,
    number: Option<u32>,
)
    requires
        0 <= at < devices.len(),
        devices[at].1 is Some,
        resolves(devices[at].1->0@, devices, number),
    ensures
        number is Some,
        (forall|k: int|
            0 <= k < devices.len() && k != at ==> !#[trigger] has_uid(
                devices[k],
                devices[at].1->0@,
            )) ==> number == Some(devices[at].0),
{
    assert(has_uid(devices[at], devices[at].1->0@));
}

/// One stream's buffer as the hardware presents it.
#[derive(Debug)]
pub struct InputBuffer<'a, T> {
    /// Channels interleaved in it.
    pub channels: u32,
    /// Samples it is said to hold.
    pub samples: usize,
    /// What it holds, if anything was delivered.
    pub data: Option<&'a [T]>,
}

/// Channels in the first `count` buffers together.
pub open spec fn channels_before<T>(list: Seq<InputBuffer<T>>, count: int) -> int
    decreases count,
{
    if count <= 0 {
        0
    } else {
        channels_before(list, count - 1) + list[count - 1].channels
    }
}

/// The buffer that holds device channel `wanted`: the first whose channels reach
/// beyond it.
pub open spec fn holds_channel<T>(list: Seq<InputBuffer<T>>, wanted: u32, index: int) -> bool {
    &&& 0 <= index < list.len()
    &&& channels_before(list, index) <= wanted < channels_before(list, index + 1)
}

/// Frames that are gathered: what the first buffer holds, as far as they fit.
pub open spec fn frames_gathered<T>(
    list: Seq<InputBuffer<T>>,
    selected: nat,
    room: nat,
) -> nat {
    if list.len() == 0 || selected == 0 {
        0
    } else {
        let stride = if list[0].channels == 0 {
            1nat
        } else {
            list[0].channels as nat
        };
        let held = list[0].samples as nat / stride;
        if held <= room / selected {
            held
        } else {
            room / selected
        }
    }
}

/// What a slot holds after gathering: the sample of its channel in that frame if it
/// was delivered, and otherwise what it held before.
pub open spec fn gathered_sample<T>(
    list: Seq<InputBuffer<T>>,
    wanted: u32,
    frame: int,
    before: T,
    after: T,
) -> bool {
    if exists|index: int| holds_channel(list, wanted, index) {
        let index = choose|index: int| holds_channel(list, wanted, index);
        let buffer = list[index];
        let at = frame * buffer.channels + (wanted - channels_before(list, index));
        match buffer.data {
            Some(data) => if at < data@.len() {
                after == data@[at]
            } else {
                after == before
            },
            None => after == before,
        }
    } else {
        after == before
    }
}

proof fn lemma_channels_grow<T>(list: Seq<InputBuffer<T>>, a: int, b: int)
    requires
        0 <= a <= b <= list.len(),
    ensures
        0 <= channels_before(list, a) <= channels_before(list, b),
    decreases b,
{
    if b > 0 {
        if a < b {
            lemma_channels_grow(list, a, b - 1);
        } else {
            lemma_channels_grow(list, a - 1, b - 1);
        }
    }
}

/// A device channel lies in one buffer only.
proof fn lemma_one_holder<T>(list: Seq<InputBuffer<T>>, wanted: u32, a: int, b: int)
    requires
        holds_channel(list, wanted, a),
        holds_channel(list, wanted, b),
    ensures
        a == b,
{
    if a < b {
        lemma_channels_grow(list, a + 1, b);
    } else if b < a {
        lemma_channels_grow(list, b + 1, a);
    }
}

/// Which buffer holds a device channel, and at which place in its frames.
pub fn locate_channel<T>(list: &[InputBuffer<T>], wanted: u32) -> (place: Option<(usize, u32)>)
    requires
        channels_before(list@, list@.len() as int) <= u32::MAX,
    ensures
        match place {
            Some((index, offset)) => holds_channel(list@, wanted, index as int) && offset == wanted
                - channels_before(list@, index as int) && offset < list@[index as int].channels,
            None => forall|index: int| !holds_channel(list@, wanted, index),
        },
{
    let mut base: u32 = 0;
    let mut index: usize = 0;
    while index < list.len()
        invariant
            index <= list@.len(),
            base == channels_before(list@, index as int),
            base <= wanted,
            channels_before(list@, list@.len() as int) <= u32::MAX,
        decreases list@.len() - index,
    {
        proof {
            lemma_channels_grow(list@, index + 1, list@.len() as int);
            assert(channels_before(list@, index + 1) == base + list@[index as int].channels);
        }
        let channels: u32 = list[index].channels;
        if wanted < base + channels {
            return Some((index, wanted - base));
        }
        base = base + channels;
        index = index + 1;
    }
    proof {
        assert forall|i: int| !holds_channel(list@, wanted, i) by {
            if holds_channel(list@, wanted, i) {
                lemma_channels_grow(list@, i + 1, list@.len() as int);
            }
        }
    }
    None
}

/// Copy the selected channels out of a list of buffers into one interleaved slice,
/// and return how many frames that is.
///
/// A device may hand over a single interleaved buffer or several. Both shapes are
/// flattened here so the rest of the system only ever sees interleaved frames.
pub fn gather_input<T: Copy>(
    list: &[InputBuffer<T>],
    selected_channels: &[u32],
    interleaved: &mut [T],
) -> (frames: usize)
    requires
        channels_before(list@, list@.len() as int) <= u32::MAX,
    ensures
        frames == frames_gathered(list@, selected_channels@.len(), old(interleaved)@.len()),
        final(interleaved)@.len() == old(interleaved)@.len(),
        forall|frame: int, slot: int|
            0 <= frame < frames && 0 <= slot < selected_channels@.len() ==> gathered_sample(
                list@,
                selected_channels@[slot],
                frame,
                old(interleaved)@[frame * selected_channels@.len() + slot],
                #[trigger] final(interleaved)@[frame * selected_channels@.len() + slot],
            ),
        forall|i: int|
            frames * selected_channels@.len() <= i < old(interleaved)@.len()
                ==> #[trigger] final(interleaved)@[i] == old(interleaved)@[i],
{
    let selected: usize = selected_channels.len();
    if list.len() == 0 || selected == 0 {
        return 0;
    }
    let stride: usize = if list[0].channels == 0 {
        1
    } else {
        list[0].channels as usize
    };
    let held: usize = list[0].samples / stride;
    let fits: usize = interleaved.len() / selected;
    let frames: usize = if held <= fits {
        held
    } else {
        fits
    };
    let room: usize = interleaved.len();
    proof {
        lemma_rows_fit(frames as int, selected as int, room as int);
    }
    let mut slot: usize = 0;
    while slot < selected
        invariant
            selected == selected_channels@.len(),
            room == interleaved@.len(),
            room == old(interleaved)@.len(),
            frames * selected <= room,
            slot <= selected,
            channels_before(list@, list@.len() as int) <= u32::MAX,
            forall|f: int, s: int|
                0 <= f < frames && 0 <= s < slot ==> gathered_sample(
                    list@,
                    selected_channels@[s],
                    f,
                    old(interleaved)@[f * selected + s],
                    #[trigger] interleaved@[f * selected + s],
                ),
            forall|f: int, s: int|
                0 <= f < frames && slot <= s < selected ==> #[trigger] interleaved@[f * selected
                    + s] == old(interleaved)@[f * selected + s],
            forall|i: int|
                frames * selected <= i < room ==> #[trigger] interleaved@[i] == old(
                    interleaved)@[i],
        decreases selected - slot,
    {
        let ghost before = interleaved@;
        gather_channel(list, selected_channels[slot], slot, selected, frames, interleaved);
        proof {
            assert forall|f: int, s: int| 0 <= f < frames && 0 <= s < slot + 1 implies gathered_sample(
                list@,
                selected_channels@[s],
                f,
                old(interleaved)@[f * selected + s],
                #[trigger] interleaved@[f * selected + s],
            ) by {
                lemma_cell(f, frames as int, s, selected as int, room as int);
                if s < slot {
                    assert(before[f * selected + s] == interleaved@[f * selected + s]);
                }
            }
            assert forall|f: int, s: int|
                0 <= f < frames && slot + 1 <= s < selected implies #[trigger] interleaved@[f
                * selected + s] == old(interleaved)@[f * selected + s] by {
                lemma_cell(f, frames as int, s, selected as int, room as int);
                assert(before[f * selected + s] == interleaved@[f * selected + s]);
            }
        }
        slot = slot + 1;
    }
    frames
}

proof fn lemma_rows_fit(rows: int, width: int, room: int)
    requires
        0 <= rows <= room / width,
        0 < width,
        0 <= room,
    ensures
        0 <= rows * width <= room,
{
    vstd::arithmetic::div_mod::lemma_fundamental_div_mod(room, width);
    assert(0 <= rows * width <= room) by (nonlinear_arith)
        requires
            0 <= rows <= room / width,
            0 < width,
            room == width * (room / width) + room % width,
            0 <= room % width,
    ;
}

/// A cell of a table lies inside it, and its place tells its column.
proof fn lemma_cell(row: int, rows: int, column: int, width: int, room: int)
    requires
        0 <= row < rows,
        0 <= column < width,
        rows * width <= room,
    ensures
        0 <= row * width + column < rows * width,
        (row * width + column) % width == column,
        (row * width + column) / width == row,
{
    assert(0 <= row * width + column < rows * width) by (nonlinear_arith)
        requires
            0 <= row < rows,
            0 <= column < width,
    ;
    vstd::arithmetic::div_mod::lemma_fundamental_div_mod_converse(
        row * width + column,
        width,
        row,
        column,
    );
}

/// Copy one device channel into its slot of every frame.
fn gather_channel<T: Copy>(
    list: &[InputBuffer<T>],
    wanted: u32,
    slot: usize,
    selected: usize,
    frames: usize,
    interleaved: &mut [T],
)
    requires
        channels_before(list@, list@.len() as int) <= u32::MAX,
        slot < selected,
        frames * selected <= old(interleaved)@.len(),
    ensures
        final(interleaved)@.len() == old(interleaved)@.len(),
        forall|f: int|
            0 <= f < frames ==> gathered_sample(
                list@,
                wanted,
                f,
                old(interleaved)@[f * selected + slot],
                #[trigger] final(interleaved)@[f * selected + slot],
            ),
        forall|i: int|
            0 <= i < old(interleaved)@.len() && (i % (selected as int) != slot || i >= frames
                * selected) ==> #[trigger] final(interleaved)@[i] == old(interleaved)@[i],
{
    let place = locate_channel(list, wanted);
    let (index, offset): (usize, u32) = match place {
        Some(found) => found,
        None => {
            return ;
        },
    };
    let data = match list[index].data {
        Some(data) => data,
        None => {
            proof {
                assert forall|i: int| holds_channel(list@, wanted, i) implies i == index by {
                    lemma_one_holder(list@, wanted, i, index as int);
                }
            }
            return ;
        },
    };
    let channels: usize = list[index].channels as usize;
    let room: usize = interleaved.len();
    let mut frame: usize = 0;
    while frame < frames
        invariant
            holds_channel(list@, wanted, index as int),
            offset == wanted - channels_before(list@, index as int),
            offset < channels,
            channels == list@[index as int].channels,
            list@[index as int].data == Some(data),
            slot < selected,
            room == interleaved@.len(),
            room == old(interleaved)@.len(),
            frames * selected <= room,
            frame <= frames,
            forall|f: int|
                0 <= f < frame ==> gathered_sample(
                    list@,
                    wanted,
                    f,
                    old(interleaved)@[f * selected + slot],
                    #[trigger] interleaved@[f * selected + slot],
                ),
            forall|i: int|
                0 <= i < room && (i % (selected as int) != slot || i >= frame * selected)
                    ==> #[trigger] interleaved@[i] == old(interleaved)@[i],
        decreases frames - frame,
    {
        let ghost before = interleaved@;
        proof {
            lemma_cell(
                frame as int,
                frames as int,
                slot as int,
                selected as int,
                room as int,
            );
            assert forall|i: int| holds_channel(list@, wanted, i) implies i == index by {
                lemma_one_holder(list@, wanted, i, index as int);
            }
            assert(frame * selected <= frame * selected + slot);
            assert(0 <= frame * selected) by (nonlinear_arith);
            lemma_before_end(frame as int, channels as int, offset as int, data@.len() as int);
        }
        let at: usize = frame * selected + slot;
        // Beyond what was delivered there is nothing to copy.
        if (offset as usize) < data.len() && frame <= (data.len() - 1 - offset as usize) / channels {
            interleaved[at] = data[frame * channels + offset as usize];
        }
        proof {
            assert forall|f: int| 0 <= f < frame + 1 implies gathered_sample(
                list@,
                wanted,
                f,
                old(interleaved)@[f * selected + slot],
                #[trigger] interleaved@[f * selected + slot],
            ) by {
                lemma_cell(f, frames as int, slot as int, selected as int, room as int);
                if f < frame {
                    assert(f * selected + slot != at) by (nonlinear_arith)
                        requires
                            f < frame,
                            at == frame * selected + slot,
                            selected > 0,
                    ;
                    assert(before[f * selected + slot] == interleaved@[f * selected + slot]);
                }
            }
            assert forall|i: int|
                0 <= i < room && (i % (selected as int) != slot || i >= (frame + 1)
                    * selected) implies #[trigger] interleaved@[i] == old(interleaved)@[i] by {
                assert((frame + 1) * selected == frame * selected + selected) by (nonlinear_arith);
                assert(i != at);
            }
        }
        frame = frame + 1;
    }
}

/// A sample lies inside `len` samples just when its frame is one of those that
/// reach no further than the last of them.
proof fn lemma_before_end(frame: int, channels: int, offset: int, len: int)
    requires
        0 <= frame,
        0 < channels,
        0 <= offset < channels,
        0 <= len,
    ensures
        frame * channels + offset < len <==> offset < len && frame <= (len - 1 - offset) / channels,
        0 <= frame * channels,
{
    assert(0 <= frame * channels) by (nonlinear_arith)
        requires
            0 <= frame,
            0 < channels,
    ;
    if frame * channels + offset < len {
        assert(channels * frame == frame * channels) by (nonlinear_arith);
        vstd::arithmetic::div_mod::lemma_div_multiples_vanish(frame, channels);
        vstd::arithmetic::div_mod::lemma_div_is_ordered(
            frame * channels,
            len - 1 - offset,
            channels,
        );
    }
    if offset < len && frame <= (len - 1 - offset) / channels {
        lemma_rows_fit(frame, channels, len - 1 - offset);
    }
}

/// The channels of streams are counted one after the other: those of some streams and
/// those of more are those of all.
pub proof fn lemma_channels_add_up(first: Seq<u32>, second: Seq<u32>)
    ensures
        channel_sum(first + second, (first + second).len() as int) == channel_sum(
            first,
            first.len() as int,
        ) + channel_sum(second, second.len() as int),
        forall|n: u32| #[trigger] channel_sum(seq![n], 1) == n,
    decreases second.len(),
{
    let all = first + second;
    if second.len() == 0 {
        assert(all =~= first);
    } else {
        let less = second.drop_last();
        lemma_channels_add_up(first, less);
        lemma_sum_of_the_first(first + less, all, (first + less).len() as int);
        lemma_sum_of_the_first(less, second, less.len() as int);
        assert(all.last() == second.last());
    }
    assert forall|n: u32| #[trigger] channel_sum(seq![n], 1) == n by {
        reveal_with_fuel(channel_sum, 2);
    }
}

proof fn lemma_sum_of_the_first(part: Seq<u32>, whole: Seq<u32>, count: int)
    requires
        0 <= count <= part.len() <= whole.len(),
        forall|i: int| 0 <= i < part.len() ==> #[trigger] whole[i] == part[i],
    ensures
        channel_sum(whole, count) == channel_sum(part, count),
    decreases count,
{
    if count > 0 {
        lemma_sum_of_the_first(part, whole, count - 1);
        assert(whole[count - 1] == part[count - 1]);
    }
}

/// Device channels are numbered through the buffers one after the other. A slot for a
/// channel gets, in each frame, the sample at that channel's place in its own buffer, if
/// that was delivered, and keeps what it held if not, or if no buffer has the channel.
pub proof fn lemma_where_a_channel_is_gathered_from<T>(
    list: Seq<InputBuffer<T>>,
    firsts: Seq<int>,
    wanted: u32,
    index: int,
    frame: int,
    before: T,
    after: T,
)
    requires
        firsts.len() == list.len() + 1,
        firsts[0] == 0,
        forall|i: int|
            0 <= i < list.len() ==> firsts[i + 1] == firsts[i] + (#[trigger] list[i]).channels,
        0 <= index < list.len(),
    ensures
        firsts[index] <= wanted < firsts[index + 1] ==> gathered_sample(
            list,
            wanted,
            frame,
            before,
            after,
        ) == (after == match list[index].data {
            Some(data) => if frame * list[index].channels + (wanted - firsts[index]) < data@.len() {
                data@[frame * list[index].channels + (wanted - firsts[index])]
            } else {
                before
            },
            None => before,
        }),
        wanted >= firsts[list.len() as int] ==> gathered_sample(list, wanted, frame, before, after)
            == (after == before),
{
    lemma_firsts_are_channels_before(list, firsts, index);
    lemma_firsts_are_channels_before(list, firsts, index + 1);
    lemma_firsts_are_channels_before(list, firsts, list.len() as int);
    if firsts[index] <= wanted < firsts[index + 1] {
        assert(holds_channel(list, wanted, index));
        let other = choose|other: int| holds_channel(list, wanted, other);
        lemma_one_holder(list, wanted, index, other);
    }
    if wanted >= firsts[list.len() as int] {
        assert forall|i: int| !holds_channel(list, wanted, i) by {
            if holds_channel(list, wanted, i) {
                lemma_channels_grow(list, i + 1, list.len() as int);
            }
        }
    }
}

proof fn lemma_firsts_are_channels_before<T>(
    list: Seq<InputBuffer<T>>,
    firsts: Seq<int>,
    count: int,
)
    requires
        firsts.len() == list.len() + 1,
        firsts[0] == 0,
        forall|i: int|
            0 <= i < list.len() ==> firsts[i + 1] == firsts[i] + (#[trigger] list[i]).channels,
        0 <= count <= list.len(),
    ensures
        channels_before(list, count) == firsts[count],
    decreases count,
{
    if count > 0 {
        lemma_firsts_are_channels_before(list, firsts, count - 1);
        assert(firsts[count - 1 + 1] == firsts[count - 1] + list[count - 1].channels);
    }
}

/// As many whole frames are gathered as the first buffer holds and there is room for, and
/// no fewer.
pub proof fn lemma_frames_gathered_are_the_most<T>(
    list: Seq<InputBuffer<T>>,
    selected: nat,
    room: nat,
    more: nat,
)
    requires
        list.len() > 0,
        selected > 0,
        list[0].channels > 0,
    ensures
        frames_gathered(list, selected, room) * selected <= room,
        frames_gathered(list, selected, room) * list[0].channels <= list[0].samples,
        more * selected <= room && more * list[0].channels <= list[0].samples ==> more
            <= frames_gathered(list, selected, room),
{
    let frames = frames_gathered(list, selected, room) as int;
    let (held, stride) = (list[0].samples as int, list[0].channels as int);
    lemma_rows_fit(frames, selected as int, room as int);
    lemma_rows_fit(frames, stride, held);
    if more * selected <= room && more * list[0].channels <= list[0].samples {
        vstd::arithmetic::div_mod::lemma_div_multiples_vanish(more as int, selected as int);
        vstd::arithmetic::div_mod::lemma_div_multiples_vanish(more as int, stride);
        assert(selected * more == more * selected) by (nonlinear_arith);
        assert(stride * more == more * stride) by (nonlinear_arith);
        vstd::arithmetic::div_mod::lemma_div_is_ordered(
            (more * selected) as int,
            room as int,
            selected as int,
        );
        vstd::arithmetic::div_mod::lemma_div_is_ordered(more * stride, held, stride);
    }
}

/// The ends of ranges are the lower end of each and the upper end of each that spans more
/// than half a hertz, and no other.
proof fn lemma_ends_of_ranges<W: Fn(Wide) -> F64>(w: WideArith<W>, ranges: Seq<(F64, F64)>)
    ensures
        forall|i: int|
            0 <= i < ranges.len() ==> range_ends(w, ranges).contains((#[trigger] ranges[i]).0),
        forall|i: int|
            0 <= i < ranges.len() && is_wide(&w, #[trigger] ranges[i]) ==> range_ends(
                w,
                ranges,
            ).contains(ranges[i].1),
        forall|k: int|
            0 <= k < range_ends(w, ranges).len() ==> exists|i: int|
                0 <= i < ranges.len() && (#[trigger] range_ends(w, ranges)[k] == (
                #[trigger] ranges[i]).0 || (is_wide(&w, ranges[i]) && range_ends(w, ranges)[k]
                    == ranges[i].1)),
    decreases ranges.len(),
{
    if ranges.len() > 0 {
        let rest = ranges.drop_last();
        let last = ranges.len() - 1;
        lemma_ends_of_ranges(w, rest);
        let (before, here) = (range_ends(w, rest), range_ends(w, ranges));
        assert forall|i: int| 0 <= i < ranges.len() implies here.contains(
            (#[trigger] ranges[i]).0,
        ) by {
            if i < last {
                assert(rest[i] == ranges[i]);
                let k = choose|k: int| 0 <= k < before.len() && before[k] == rest[i].0;
                assert(here[k] == before[k]);
            } else {
                assert(here[before.len() as int] == ranges[i].0);
            }
        }
        assert forall|i: int| 0 <= i < ranges.len() && is_wide(&w, #[trigger] ranges[i]) implies
            here.contains(ranges[i].1) by {
            if i < last {
                assert(rest[i] == ranges[i]);
                let k = choose|k: int| 0 <= k < before.len() && before[k] == rest[i].1;
                assert(here[k] == before[k]);
            } else {
                assert(here[before.len() as int + 1] == ranges[i].1);
            }
        }
        assert forall|k: int| 0 <= k < here.len() implies exists|i: int|
            0 <= i < ranges.len() && (#[trigger] here[k] == (#[trigger] ranges[i]).0 || (is_wide(
                &w,
                ranges[i],
            ) && here[k] == ranges[i].1)) by {
            if k < before.len() {
                assert(here[k] == before[k]);
                let i = choose|i: int|
                    0 <= i < rest.len() && (before[k] == (#[trigger] rest[i]).0 || (is_wide(
                        &w,
                        rest[i],
                    ) && before[k] == rest[i].1));
                assert(ranges[i] == rest[i]);
            } else {
                assert(here[k] == ranges[last].0 || here[k] == ranges[last].1);
            }
        }
    }
}

proof fn lemma_each_rate_is_kept<W: Fn(Wide) -> F64>(w: WideArith<W>, sorted: Seq<F64>, k: int)
    requires
        0 <= k < sorted.len(),
    ensures
        exists|i: int|
            0 <= i < distinct(w, sorted).len() && (#[trigger] distinct(w, sorted)[i] == sorted[k]
                || same_rate(&w, sorted[k], distinct(w, sorted)[i])),
    decreases sorted.len(),
{
    let rest = sorted.drop_last();
    let before = distinct(w, rest);
    let here = distinct(w, sorted);
    if k < rest.len() {
        lemma_each_rate_is_kept(w, rest, k);
        let i = choose|i: int|
            0 <= i < before.len() && (#[trigger] before[i] == rest[k] || same_rate(
                &w,
                rest[k],
                before[i],
            ));
        assert(here[i] == before[i]);
    } else {
        assert(here[here.len() - 1] == here.last());
    }
}

/// No rate of a device is lost: the lower end of every range, and the upper end of every
/// one that spans more than half a hertz, is listed or the same rate as one that is.
pub proof fn lemma_every_rate_is_listed<W: Fn(Wide) -> F64>(
    w: WideArith<W>,
    ranges: Seq<(F64, F64)>,
    rates: Seq<F64>,
    at: int,
)
    requires
        rates_listed(w, ranges, rates),
        0 <= at < ranges.len(),
    ensures
        exists|i: int|
            0 <= i < rates.len() && (#[trigger] rates[i] == ranges[at].0 || same_rate(
                &w,
                ranges[at].0,
                rates[i],
            )),
        (F64 { bits: HALF_HERTZ_BITS }).less(w.minus(ranges[at].1, ranges[at].0).spec_abs())
            ==> exists|i: int|
            0 <= i < rates.len() && (#[trigger] rates[i] == ranges[at].1 || same_rate(
                &w,
                ranges[at].1,
                rates[i],
            )),
{
    let ends = range_ends(w, ranges);
    let sorted = choose|sorted: Seq<F64>|
        order::arranged(ends, total_ranks(ends), sorted) && rates == #[trigger] distinct(w, sorted);
    lemma_ends_of_ranges(w, ranges);
    assert(ends.contains(ranges[at].0));
    let low = choose|k: int| 0 <= k < ends.len() && ends[k] == ranges[at].0;
    let place = order::lemma_arranged_has_all(ends, total_ranks(ends), sorted, low);
    lemma_each_rate_is_kept(w, sorted, place);
    if is_wide(&w, ranges[at]) {
        assert(ends.contains(ranges[at].1));
        let high = choose|k: int| 0 <= k < ends.len() && ends[k] == ranges[at].1;
        let other = order::lemma_arranged_has_all(ends, total_ranks(ends), sorted, high);
        lemma_each_rate_is_kept(w, sorted, other);
    }
}

/// The buffer size in force is what the device reports; where it reports none, it is what
/// was asked for, from sixteen frames up to as many as are preallocated.
pub proof fn lemma_buffer_size_in_force(requested: u32, reported: Option<u32>)
    ensures
        reported matches Some(frames) ==> frames_in_force(requested, reported) == frames,
        reported is None ==> 16 <= frames_in_force(requested, reported) <= 8192,
        reported is None && 16 <= requested <= 8192 ==> frames_in_force(requested, reported)
            == requested,
        reported is None && requested < 16 ==> frames_in_force(requested, reported) == 16,
        reported is None && requested > 8192 ==> frames_in_force(requested, reported) == 8192,
{
}

/// What is said of a status names the operation first and the status, and only a denied
/// permission is followed by what to do about it.
pub proof fn lemma_messages_name_the_operation(status: i32, operation: Seq<char>)
    ensures
        operation.is_prefix_of(status_message(status, operation)),
        status != HAL_NOT_PERMITTED ==> status_message(status, operation) == operation
            + " failed with OSStatus "@ + text::signed_decimal(status as int),
        status == HAL_NOT_PERMITTED ==> status_message(status, operation) == operation
            + " was refused by CoreAudio (status "@ + text::signed_decimal(status as int)
            + DENIED_ADVICE@,
{
    let message = status_message(status, operation);
    assert(message.take(operation.len() as int) =~= operation);
    assert(message.subrange(0, operation.len() as int) =~= operation);
}

/// A device is shown by its own name, or else by its identity; one without a name is
/// titled by its number.
pub proof fn lemma_names_of_devices(uid: DeviceId, name: Option<String>, facts: DeviceFacts)
    ensures
        name matches Some(own) ==> shown_name(uid, name) == own@,
        name is None ==> shown_name(uid, name) == uid@,
        facts.name matches Some(own) ==> facts.title() == own@,
        facts.name is None ==> facts.title() == "Audio device "@ + text::decimal(
            facts.number as nat,
        ),
{
}

} // verus!
