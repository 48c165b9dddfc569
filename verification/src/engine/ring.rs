//! The lock-free crossing from the audio thread to the analysis thread.
//!
//! One ring carries interleaved frames, so that frame alignment is structural:
//! channels cannot drift apart. For the same reason writes are all-or-nothing.
//! A block that does not fit is dropped whole and counted as an overrun.
//!
//! A sample crosses the ring as its 32-bit pattern; the ring only moves it.

use std::sync::atomic::{AtomicU64, Ordering};
use std::sync::Arc;

use vstd::prelude::*;

verus! {

/// The writing end of an `rtrb` ring.
#[verifier::external_type_specification]
#[verifier::external_body]
#[verifier::reject_recursive_types(T)]
pub struct ExProducer<T>(rtrb::Producer<T>);

/// The reading end of an `rtrb` ring.
#[verifier::external_type_specification]
#[verifier::external_body]
#[verifier::reject_recursive_types(T)]
pub struct ExConsumer<T>(rtrb::Consumer<T>);

/// Everything written through this end so far, oldest first.
pub uninterp spec fn written(producer: rtrb::Producer<u32>) -> Seq<u32>;

/// Everything taken through this end so far, oldest first.
pub uninterp spec fn taken(consumer: rtrb::Consumer<u32>) -> Seq<u32>;

/// Everything that is ever written through this end, now and later.
pub uninterp spec fn outgoing(producer: rtrb::Producer<u32>) -> Seq<u32>;

/// Everything that is ever written to the ring this end reads.
pub uninterp spec fn incoming(consumer: rtrb::Consumer<u32>) -> Seq<u32>;

/// How many samples there are when this end next reads: at least what any look has
/// reported since the last read, and what that read left behind.
pub uninterp spec fn seen(consumer: rtrb::Consumer<u32>) -> nat;

/// How many samples are known to be left for this end since it last read.
pub uninterp spec fn left(consumer: rtrb::Consumer<u32>) -> nat;

/// How many samples there is room for when this end next writes.
pub uninterp spec fn spare(producer: rtrb::Producer<u32>) -> nat;

/// How many samples the ring of this end was made to hold.
pub uninterp spec fn ring_capacity(producer: rtrb::Producer<u32>) -> nat;

/// Which of all rings this end writes to.
pub uninterp spec fn writes_to(producer: rtrb::Producer<u32>) -> int;

/// Which of all rings this end reads from.
pub uninterp spec fn reads_from(consumer: rtrb::Consumer<u32>) -> int;

/// `rtrb::RingBuffer::new`: two ends of one empty ring of the given capacity.
/// Whatever the writing end is ever given is what the reading end can ever see. Nothing
/// can be taken before it is written, so the first write finds all of it free.
/// The allocation is bounded as `Vec::with_capacity` bounds it.
#[verifier::external_body]
fn new_ring(capacity: usize) -> (ends: (rtrb::Producer<u32>, rtrb::Consumer<u32>))
    requires
        capacity * 4 <= isize::MAX,
    ensures
        written(ends.0) == Seq::<u32>::empty(),
        taken(ends.1) == Seq::<u32>::empty(),
        outgoing(ends.0) == incoming(ends.1),
        writes_to(ends.0) == reads_from(ends.1),
        ring_capacity(ends.0) == capacity,
        spare(ends.0) == capacity,
        left(ends.1) == 0,
        seen(ends.1) <= incoming(ends.1).len(),
{
    rtrb::RingBuffer::new(capacity)
}

/// `rtrb::Producer::push_entire_slice`: appends all of `samples`, or nothing when
/// fewer slots are free. Only this end fills slots, so there is at least the room that
/// the write leaves of what there was. At most what was ever written can still be in
/// the ring, so a write that fits beside all of that is accepted.
#[verifier::external_body]
fn push_all(producer: &mut rtrb::Producer<u32>, samples: &[u32]) -> (accepted: bool)
    ensures
        outgoing(*final(producer)) == outgoing(*old(producer)),
        writes_to(*final(producer)) == writes_to(*old(producer)),
        ring_capacity(*final(producer)) == ring_capacity(*old(producer)),
        accepted ==> written(*final(producer)) == written(*old(producer)) + samples@,
        accepted ==> written(*final(producer)).is_prefix_of(outgoing(*final(producer))),
        accepted ==> samples@.len() <= ring_capacity(*old(producer)),
        !accepted ==> written(*final(producer)) == written(*old(producer)),
        accepted == (samples@.len() <= spare(*old(producer))),
        accepted ==> spare(*final(producer)) + samples@.len() >= spare(*old(producer)),
        !accepted ==> spare(*final(producer)) >= spare(*old(producer)),
        spare(*final(producer)) <= ring_capacity(*final(producer)),
        written(*old(producer)).len() + samples@.len() <= ring_capacity(*old(producer))
            ==> accepted,
{
    producer.push_entire_slice(samples).is_ok()
}

/// `rtrb::Producer::slots`: how many samples can be written now. Never more than
/// the capacity, and never less than what all earlier writes leave of it. Only this end
/// fills slots, so there is as much room at its next write.
#[verifier::external_body]
fn free_slots(producer: &rtrb::Producer<u32>) -> (slots: usize)
    ensures
        slots <= ring_capacity(*producer),
        slots + written(*producer).len() >= ring_capacity(*producer),
        slots <= spare(*producer),
{
    producer.slots()
}

/// `rtrb::Consumer::pop_entire_slice`: fills all of `samples` with the oldest
/// samples not yet taken, in order, or takes none and says how many there are when
/// that is fewer. Only this end takes samples out, so those left behind stay, and
/// nothing is there that was never written.
#[verifier::external_body]
fn pop_all(consumer: &mut rtrb::Consumer<u32>, samples: &mut [u32]) -> (filled: Result<(), usize>)
    ensures
        incoming(*final(consumer)) == incoming(*old(consumer)),
        reads_from(*final(consumer)) == reads_from(*old(consumer)),
        final(samples)@.len() == old(samples)@.len(),
        filled is Ok ==> taken(*final(consumer)) == taken(*old(consumer)) + final(samples)@,
        filled is Ok ==> taken(*final(consumer)).is_prefix_of(incoming(*final(consumer))),
        taken(*final(consumer)).len() + seen(*final(consumer)) <= incoming(
            *final(consumer),
        ).len(),
        filled is Ok ==> seen(*final(consumer)) + old(samples)@.len() >= seen(*old(consumer)),
        filled is Err ==> taken(*final(consumer)) == taken(*old(consumer)),
        filled is Err ==> final(samples)@ == old(samples)@,
        filled is Ok <==> old(samples)@.len() <= seen(*old(consumer)),
        filled matches Err(there) ==> there == seen(*old(consumer)),
        filled matches Err(there) ==> seen(*final(consumer)) >= there,
        filled is Ok ==> left(*final(consumer)) + old(samples)@.len() >= left(*old(consumer)),
        filled matches Err(there) ==> left(*old(consumer)) <= there <= left(*final(consumer)),
{
    match consumer.pop_entire_slice(samples) {
        Ok(()) => Ok(()),
        Err(rtrb::chunks::ChunkError::TooFewSlots(there)) => Err(there),
    }
}

/// `rtrb::Consumer::slots`: how many samples can be taken now. They lie in the
/// ring's traffic behind what was already taken, and only this end takes them, so
/// what its last read left is among them, and they are still there at its next read.
#[verifier::external_body]
fn filled_slots(consumer: &rtrb::Consumer<u32>) -> (slots: usize)
    ensures
        taken(*consumer).is_prefix_of(incoming(*consumer)) ==> taken(*consumer).len() + slots
            <= incoming(*consumer).len(),
        slots <= seen(*consumer),
        slots >= left(*consumer),
{
    consumer.slots()
}

/// `rtrb::Producer::slots`, while the reading end of the same ring is held: nothing is
/// taken meanwhile, so all is free but what was written and not taken.
#[verifier::external_body]
fn free_between(producer: &rtrb::Producer<u32>, consumer: &rtrb::Consumer<u32>) -> (slots: usize)
    ensures
        writes_to(*producer) == reads_from(*consumer) ==> slots + written(*producer).len()
            == ring_capacity(*producer) + taken(*consumer).len(),
        slots <= spare(*producer),
{
    let _ = consumer;
    producer.slots()
}

/// `rtrb::Consumer::slots`, while the writing end of the same ring is held: nothing is
/// written meanwhile, so what was written and not taken is there.
#[verifier::external_body]
fn filled_between(producer: &rtrb::Producer<u32>, consumer: &rtrb::Consumer<u32>) -> (slots: usize)
    ensures
        writes_to(*producer) == reads_from(*consumer) ==> slots + taken(*consumer).len()
            == written(*producer).len(),
        slots <= seen(*consumer),
{
    let _ = producer;
    consumer.slots()
}

/// The end of a counter that stores counts in it. There is one only, and it cannot be
/// copied.
#[verifier::external_body]
#[derive(Debug)]
pub struct CountWriter {
    counter: Arc<AtomicU64>,
}

/// The end of a counter that loads counts from it, and nothing else.
#[verifier::external_body]
#[derive(Debug)]
pub struct CountReader {
    counter: Arc<AtomicU64>,
}

/// The first count and every count stored through this end since, oldest first.
pub uninterp spec fn stored(writer: CountWriter) -> Seq<u64>;

/// The first count and every count that is ever stored through this end.
pub uninterp spec fn storing(writer: CountWriter) -> Seq<u64>;

/// The first count and every count that is ever stored in the counter of this end.
pub uninterp spec fn shown(reader: CountReader) -> Seq<u64>;

/// `AtomicU64::new`, and `Arc` to share it: both ends of a counter that holds `first`.
/// Whatever the writing end ever stores is what the reading end can ever load.
#[verifier::external_body]
fn new_counter(first: u64) -> (ends: (CountWriter, CountReader))
    ensures
        stored(ends.0) == seq![first],
        stored(ends.0).is_prefix_of(storing(ends.0)),
        storing(ends.0) == shown(ends.1),
{
    let counter = Arc::new(AtomicU64::new(first));
    (CountWriter { counter: Arc::clone(&counter) }, CountReader { counter })
}

/// `AtomicU64::store`: the counter holds `count` next. No other end stores in it.
#[verifier::external_body]
fn show(writer: &mut CountWriter, count: u64)
    ensures
        stored(*final(writer)) == stored(*old(writer)).push(count),
        storing(*final(writer)) == storing(*old(writer)),
        stored(*final(writer)).is_prefix_of(storing(*final(writer))),
{
    writer.counter.store(count, Ordering::Relaxed);
}

/// `AtomicU64::load`: one of the counts that are ever stored. Which one rests with the
/// thread that stores them.
#[verifier::external_body]
fn last_shown(reader: &CountReader) -> (count: u64)
    ensures
        shown(*reader).contains(count),
{
    reader.counter.load(Ordering::Relaxed)
}

/// The counts of a counter that goes from nothing to `drops` drops, one by one, and
/// wraps around where the type does.
pub open spec fn counts_to(drops: nat) -> Seq<u64> {
    Seq::new(drops + 1, |i: int| (i % 0x1_0000_0000_0000_0000) as u64)
}

/// Whether a block of `len` samples may enter a ring of `channels` channels with
/// `free` free samples: an empty block always, any other only whole frames that fit.
pub open spec fn block_fits(len: nat, channels: nat, free: nat) -> bool {
    len == 0 || (len % channels == 0 && len <= free)
}

/// How many whole frames come out of `available` samples into room for `room` samples.
pub open spec fn whole_frames(available: nat, room: nat, channels: nat) -> nat {
    if available / channels <= room / channels {
        available / channels
    } else {
        room / channels
    }
}

/// Audio-thread end of the ring. It holds the only producer.
#[derive(Debug)]
pub struct CaptureSink {
    producer: rtrb::Producer<u32>,
    channels: usize,
    dropped: u64,
    overruns: CountWriter,
}

impl CaptureSink {
    /// Every sample accepted so far, interleaved, oldest first.
    pub closed spec fn sent(self) -> Seq<u32> {
        written(self.producer)
    }

    /// Every sample that is ever accepted.
    pub closed spec fn stream(self) -> Seq<u32> {
        outgoing(self.producer)
    }

    /// Samples the ring was made to hold.
    pub closed spec fn capacity(self) -> nat {
        ring_capacity(self.producer)
    }

    /// Samples there is room for when this end next writes.
    pub closed spec fn room_left(self) -> nat {
        spare(self.producer)
    }

    /// Which of all rings this end writes to.
    pub closed spec fn ring(self) -> int {
        writes_to(self.producer)
    }

    pub closed spec fn spec_channels(self) -> nat {
        self.channels as nat
    }

    /// Blocks dropped so far.
    pub closed spec fn spec_overruns(self) -> u64 {
        self.dropped
    }

    /// The counts of dropped blocks shown to the other end so far, oldest first.
    pub closed spec fn counts(self) -> Seq<u64> {
        stored(self.overruns)
    }

    /// Every count of dropped blocks that is ever shown to the other end.
    pub closed spec fn tally(self) -> Seq<u64> {
        storing(self.overruns)
    }

    /// Only whole frames were ever accepted, there is no more room than was made, and
    /// the counts shown run from nothing to what was dropped, with none left out.
    pub open spec fn wf(self) -> bool {
        &&& self.spec_channels() > 0
        &&& self.sent().len() % self.spec_channels() == 0
        &&& self.sent().is_prefix_of(self.stream())
        &&& self.room_left() <= self.capacity()
        &&& self.counts().len() > 0
        &&& self.counts() == counts_to((self.counts().len() - 1) as nat)
        &&& self.counts().last() == self.spec_overruns()
        &&& self.counts().is_prefix_of(self.tally())
    }

    /// Push one block of interleaved frames.
    ///
    /// Returns `true` if the block was accepted. On `false` the block was dropped
    /// whole and [`CaptureSink::overruns`] has advanced. How much is free at the moment
    /// rests with the reading thread, but what was reported free stays so until it is
    /// written to.
    pub fn write_interleaved(&mut self, samples: &[u32]) -> (accepted: bool)
        requires
            old(self).wf(),
        ensures
            final(self).wf(),
            final(self).spec_channels() == old(self).spec_channels(),
            final(self).capacity() == old(self).capacity(),
            final(self).ring() == old(self).ring(),
            final(self).stream() == old(self).stream(),
            final(self).tally() == old(self).tally(),
            accepted ==> final(self).counts() == old(self).counts(),
            !accepted ==> final(self).counts() == old(self).counts().push(
                final(self).spec_overruns(),
            ),
            accepted ==> final(self).sent() == old(self).sent() + samples@
                && final(self).spec_overruns() == old(self).spec_overruns(),
            !accepted ==> final(self).sent() == old(self).sent() && final(self).spec_overruns()
                == (old(self).spec_overruns() + 1) % 0x1_0000_0000_0000_0000,
            accepted ==> block_fits(
                samples@.len(),
                old(self).spec_channels(),
                old(self).capacity(),
            ),
            samples@.len() == 0 ==> accepted,
            accepted == block_fits(
                samples@.len(),
                old(self).spec_channels(),
                old(self).room_left(),
            ),
            accepted ==> final(self).room_left() + samples@.len() >= old(self).room_left(),
            !accepted ==> final(self).room_left() >= old(self).room_left(),
            samples@.len() % old(self).spec_channels() == 0 && old(self).sent().len()
                + samples@.len() <= old(self).capacity() ==> accepted,
    {
        if samples.len() == 0 {
            assert(self.sent() + samples@ =~= self.sent());
            return true;
        }
        // A partial frame would shift every channel after it.
        if samples.len() % self.channels != 0 {
            self.count_overrun();
            return false;
        }
        let ghost before = self.sent();
        if push_all(&mut self.producer, samples) {
            proof {
                vstd::arithmetic::div_mod::lemma_mod_adds(
                    before.len() as int,
                    samples@.len() as int,
                    self.channels as int,
                );
                assert((before + samples@).len() == before.len() + samples@.len());
            }
            true
        } else {
            self.count_overrun();
            false
        }
    }

    /// Counts one dropped block and shows the count to the other end.
    fn count_overrun(&mut self)
        requires
            old(self).counts().len() > 0,
            old(self).counts() == counts_to((old(self).counts().len() - 1) as nat),
            old(self).counts().last() == old(self).dropped,
        ensures
            final(self).producer == old(self).producer,
            final(self).channels == old(self).channels,
            final(self).dropped == (old(self).dropped + 1) % 0x1_0000_0000_0000_0000,
            final(self).tally() == old(self).tally(),
            final(self).counts() == old(self).counts().push(final(self).dropped),
            final(self).counts() == counts_to(old(self).counts().len()),
            final(self).counts().is_prefix_of(final(self).tally()),
    {
        self.dropped = self.dropped.wrapping_add(1);
        show(&mut self.overruns, self.dropped);
        proof {
            let drops = old(self).counts().len() as int;
            let whole: int = 0x1_0000_0000_0000_0000;
            assert(old(self).dropped == (drops - 1) % whole);
            vstd::arithmetic::div_mod::lemma_add_mod_noop(drops - 1, 1, whole);
            assert(self.counts() =~= counts_to(drops as nat));
        }
    }

    /// Blocks dropped because the analysis thread fell behind.
    pub fn overruns(&self) -> (count: u64)
        ensures
            count == self.spec_overruns(),
    {
        self.dropped
    }

    /// Channels per frame.
    pub fn channels(&self) -> (count: usize)
        ensures
            count == self.spec_channels(),
    {
        self.channels
    }

    /// Frames that would currently fit. The next write of no more is accepted.
    pub fn frames_free(&self) -> (frames: usize)
        requires
            self.wf(),
        ensures
            frames <= self.capacity() / self.spec_channels(),
            self.sent().len() <= self.capacity() ==> frames >= (self.capacity()
                - self.sent().len()) as nat / self.spec_channels(),
            frames * self.spec_channels() <= self.room_left(),
    {
        let slots: usize = free_slots(&self.producer);
        proof {
            let channels: int = self.channels as int;
            vstd::arithmetic::div_mod::lemma_fundamental_div_mod(slots as int, channels);
            assert(slots / self.channels * channels <= slots) by (nonlinear_arith)
                requires
                    slots == channels * (slots / self.channels) + slots % self.channels,
                    slots % self.channels >= 0,
            ;
            vstd::arithmetic::div_mod::lemma_div_is_ordered(
                slots as int,
                self.capacity() as int,
                self.channels as int,
            );
            vstd::arithmetic::div_mod::lemma_div_is_ordered(
                self.capacity() - self.sent().len(),
                slots as int,
                self.channels as int,
            );
        }
        slots / self.channels
    }
}

/// Analysis-thread end of the ring.
#[derive(Debug)]
pub struct CaptureSource {
    consumer: rtrb::Consumer<u32>,
    channels: usize,
    overruns: CountReader,
}

impl CaptureSource {
    /// Every sample taken so far, interleaved, oldest first.
    pub closed spec fn received(self) -> Seq<u32> {
        taken(self.consumer)
    }

    /// Every sample that is ever written to the ring.
    pub closed spec fn stream(self) -> Seq<u32> {
        incoming(self.consumer)
    }

    /// Samples that are there when this end next reads.
    pub closed spec fn waiting(self) -> nat {
        seen(self.consumer)
    }

    /// Samples known to be left since the last read.
    pub closed spec fn left_behind(self) -> nat {
        left(self.consumer)
    }

    /// Which of all rings this end reads from.
    pub closed spec fn ring(self) -> int {
        reads_from(self.consumer)
    }

    pub closed spec fn spec_channels(self) -> nat {
        self.channels as nat
    }

    /// Every count of dropped blocks that this end can ever see.
    pub closed spec fn tally(self) -> Seq<u64> {
        shown(self.overruns)
    }

    /// Only whole frames were ever taken, and nothing waits that was never written.
    pub open spec fn wf(self) -> bool {
        &&& self.spec_channels() > 0
        &&& self.received().len() % self.spec_channels() == 0
        &&& self.received().is_prefix_of(self.stream())
        &&& self.received().len() + self.waiting() <= self.stream().len()
    }

    /// Frames that come out when `available` samples are there and the
    /// destination has room for `room` samples.
    pub fn frames_to_take(&self, available: usize, room: usize) -> (frames: usize)
        requires
            self.wf(),
        ensures
            frames == whole_frames(available as nat, room as nat, self.spec_channels()),
    {
        let there: usize = available / self.channels;
        let fits: usize = room / self.channels;
        if there <= fits {
            there
        } else {
            fits
        }
    }

    /// Read whole frames into `dst`, interleaved.
    ///
    /// Reads as many frames as are there and fit, and returns that count. Never
    /// partial frames; the rest of `dst` is left untouched. How many are there rests
    /// with the writing thread, but those that were reported available are among them.
    pub fn read_interleaved(&mut self, dst: &mut [u32]) -> (frames: usize)
        requires
            old(self).wf(),
        ensures
            final(self).wf(),
            final(self).spec_channels() == old(self).spec_channels(),
            final(self).stream() == old(self).stream(),
            final(self).ring() == old(self).ring(),
            final(self).tally() == old(self).tally(),
            final(dst)@.len() == old(dst)@.len(),
            frames <= old(dst)@.len() / old(self).spec_channels(),
            frames * old(self).spec_channels() <= old(dst)@.len(),
            frames == whole_frames(
                old(self).waiting(),
                old(dst)@.len(),
                old(self).spec_channels(),
            ),
            final(self).waiting() + frames * old(self).spec_channels() >= old(self).waiting(),
            final(self).left_behind() + frames * old(self).spec_channels() >= old(
                self,
            ).left_behind(),
            final(self).received() == old(self).received() + final(dst)@.take(
                frames * old(self).spec_channels(),
            ),
            final(dst)@.skip(frames * old(self).spec_channels()) == old(dst)@.skip(
                frames * old(self).spec_channels(),
            ),
    {
        let room: usize = dst.len();
        let fits: usize = room / self.channels;
        match self.take_frames(fits, dst) {
            Ok(()) => {
                proof {
                    lemma_whole_frames_fit(
                        old(self).waiting() as int,
                        fits as int,
                        self.channels as int,
                    );
                }
                fits
            },
            Err(there) => {
                let frames: usize = self.frames_to_take(there, room);
                proof {
                    lemma_frames_within(there as int, self.channels as int, room as int);
                }
                let taken_now = self.take_frames(frames, dst);
                assert(taken_now is Ok);
                frames
            },
        }
    }

    /// Fill the front of `dst` with the next `frames` frames, or take none and say how
    /// many samples there are when that is fewer.
    fn take_frames(&mut self, frames: usize, dst: &mut [u32]) -> (filled: Result<(), usize>)
        requires
            old(self).wf(),
            frames <= old(dst)@.len() / old(self).spec_channels(),
        ensures
            final(self).wf(),
            final(self).spec_channels() == old(self).spec_channels(),
            final(self).stream() == old(self).stream(),
            final(self).ring() == old(self).ring(),
            final(self).tally() == old(self).tally(),
            final(dst)@.len() == old(dst)@.len(),
            frames * old(self).spec_channels() <= old(dst)@.len(),
            filled is Ok <==> frames * old(self).spec_channels() <= old(self).waiting(),
            filled is Ok ==> {
                let samples = frames * old(self).spec_channels();
                &&& final(self).received() == old(self).received() + final(dst)@.take(samples)
                &&& final(dst)@.skip(samples) == old(dst)@.skip(samples)
                &&& final(self).waiting() + samples >= old(self).waiting()
                &&& final(self).left_behind() + samples >= old(self).left_behind()
            },
            filled matches Err(there) ==> {
                &&& final(self).received() == old(self).received()
                &&& final(dst)@ == old(dst)@
                &&& there == old(self).waiting()
                &&& final(self).waiting() >= there
                &&& final(self).left_behind() >= there
                &&& there >= old(self).left_behind()
            },
    {
        let room: usize = dst.len();
        proof {
            let (space, channels) = (room as int, self.channels as int);
            vstd::arithmetic::div_mod::lemma_fundamental_div_mod(space, channels);
            assert(0 <= frames * channels <= space) by (nonlinear_arith)
                requires
                    0 <= frames <= space / channels,
                    space == channels * (space / channels) + space % channels,
                    space % channels >= 0,
                    channels > 0,
            ;
        }
        let samples: usize = frames * self.channels;
        let ghost before = dst@;
        let ghost received = self.received();
        let ghost channels = self.channels as int;
        let (head, rest) = dst.split_at_mut(samples);
        let ghost kept = rest@;
        let filled = pop_all(&mut self.consumer, head);
        proof {
            if filled is Ok {
                assert(received.len() + samples == self.received().len());
                vstd::arithmetic::div_mod::lemma_mod_multiples_basic(frames as int, channels);
                vstd::arithmetic::div_mod::lemma_mod_adds(
                    received.len() as int,
                    samples as int,
                    channels,
                );
                assert(dst@.take(samples as int) =~= head@);
                assert(dst@.skip(samples as int) =~= kept);
                assert(before.skip(samples as int) =~= kept);
            } else {
                assert(dst@ =~= before);
            }
        }
        filled
    }

    /// Whole frames currently readable: at least those that the last read left, and
    /// what came since rests with the writing thread. The next read gets at least these.
    pub fn frames_available(&self) -> (frames: usize)
        requires
            self.wf(),
        ensures
            self.received().len() + frames * self.spec_channels() <= self.stream().len(),
            frames * self.spec_channels() <= self.waiting(),
            frames >= self.left_behind() / self.spec_channels(),
    {
        let slots: usize = filled_slots(&self.consumer);
        proof {
            let channels: int = self.channels as int;
            vstd::arithmetic::div_mod::lemma_div_is_ordered(
                self.left_behind() as int,
                slots as int,
                channels,
            );
            vstd::arithmetic::div_mod::lemma_fundamental_div_mod(slots as int, channels);
            assert(slots / self.channels * channels <= slots) by (nonlinear_arith)
                requires
                    slots == channels * (slots / self.channels) + slots % self.channels,
                    slots % self.channels >= 0,
            ;
        }
        slots / self.channels
    }

    /// Blocks the producer had to drop, as last shown by the other thread.
    pub fn overruns(&self) -> (count: u64)
        ensures
            self.tally().contains(count),
    {
        last_shown(&self.overruns)
    }

    /// Channels per frame.
    pub fn channels(&self) -> (count: usize)
        ensures
            count == self.spec_channels(),
    {
        self.channels
    }
}

/// Where the samples of so many frames are there, so are the frames.
proof fn lemma_whole_frames_fit(there: int, frames: int, channels: int)
    requires
        0 < channels,
        0 <= frames,
        frames * channels <= there,
    ensures
        frames <= there / channels,
{
    vstd::arithmetic::div_mod::lemma_div_is_ordered(frames * channels, there, channels);
    vstd::arithmetic::div_mod::lemma_div_by_multiple(frames, channels);
}

/// Where fewer samples are there than fit, the whole frames among them fit too.
proof fn lemma_frames_within(there: int, channels: int, room: int)
    requires
        0 < channels,
        0 <= there < room / channels * channels,
        0 <= room,
    ensures
        there / channels <= room / channels,
        0 <= there / channels * channels <= there,
{
    vstd::arithmetic::div_mod::lemma_fundamental_div_mod(there, channels);
    vstd::arithmetic::div_mod::lemma_fundamental_div_mod(room, channels);
    assert(there / channels * channels == channels * (there / channels)) by (nonlinear_arith);
    assert(room / channels * channels == channels * (room / channels)) by (nonlinear_arith);
    vstd::arithmetic::div_mod::lemma_div_pos_is_pos(there, channels);
    assert(0 <= there / channels * channels) by (nonlinear_arith)
        requires
            0 <= there / channels,
            0 < channels,
    ;
    vstd::arithmetic::div_mod::lemma_div_is_ordered(there, room, channels);
}

/// Create a capture ring sized for `capacity_frames`.
///
/// Capacity is dictated by worst-case scheduling latency: the only reason to be
/// large is to absorb the analysis thread being descheduled.
pub fn capture_ring(channels: usize, capacity_frames: usize) -> (ends: (
    CaptureSink,
    CaptureSource,
))
    requires
        channels > 0,
        capacity_frames > 0,
        channels * capacity_frames * 4 <= isize::MAX,
    ensures
        ends.0.wf(),
        ends.1.wf(),
        ends.0.spec_channels() == channels,
        ends.1.spec_channels() == channels,
        ends.0.capacity() == channels * capacity_frames,
        ends.0.capacity() / channels as nat == capacity_frames,
        ends.0.capacity() % channels as nat == 0,
        ends.0.stream() == ends.1.stream(),
        ends.0.ring() == ends.1.ring(),
        ends.0.tally() == ends.1.tally(),
        ends.0.sent() == Seq::<u32>::empty(),
        ends.1.received() == Seq::<u32>::empty(),
        ends.0.spec_overruns() == 0,
        ends.0.counts() == seq![0u64],
        ends.0.room_left() == ends.0.capacity(),
        ends.1.left_behind() == 0,
{
    let (producer, consumer) = new_ring(channels * capacity_frames);
    let (shows, sees) = new_counter(0);
    proof {
        assert(seq![0u64] =~= counts_to(0));
        vstd::arithmetic::div_mod::lemma_div_multiples_vanish(
            capacity_frames as int,
            channels as int,
        );
        vstd::arithmetic::div_mod::lemma_mod_multiples_vanish(
            capacity_frames as int,
            0,
            channels as int,
        );
        assert(Seq::<u32>::empty() =~= outgoing(producer).subrange(0, 0));
        assert(0nat % channels as nat == 0);
    }
    (
        CaptureSink { producer, channels, dropped: 0, overruns: shows },
        CaptureSource { consumer, channels, overruns: sees },
    )
}

/// Frames free and frames available, while both ends are held. Neither moves meanwhile,
/// so the two make up what the ring was made for: every frame that went in and did not
/// come out is available, and there is room for all others.
pub fn settled_frames(sink: &CaptureSink, source: &CaptureSource) -> (frames: (usize, usize))
    requires
        sink.wf(),
        source.wf(),
        sink.ring() == source.ring(),
        sink.stream() == source.stream(),
        sink.spec_channels() == source.spec_channels(),
        sink.capacity() % sink.spec_channels() == 0,
    ensures
        source.received().is_prefix_of(sink.sent()),
        source.received().len() + frames.1 * source.spec_channels() == sink.sent().len(),
        frames.0 + frames.1 == sink.capacity() / sink.spec_channels(),
        frames.0 * sink.spec_channels() <= sink.room_left(),
        frames.1 * source.spec_channels() <= source.waiting(),
{
    let free: usize = free_between(&sink.producer, &source.consumer);
    let filled: usize = filled_between(&sink.producer, &source.consumer);
    proof {
        let channels: int = sink.channels as int;
        let (sent, received) = (sink.sent().len() as int, source.received().len() as int);
        lemma_ring_keeps_order(*sink, *source);
        vstd::arithmetic::div_mod::lemma_sub_mod_noop(sent, received, channels);
        assert(filled as int % channels == 0);
        lemma_parts_of_whole(free as int, filled as int, sink.capacity() as int, channels);
    }
    (free / sink.channels, filled / source.channels)
}

/// Two parts of a whole number of frames, one of which is one, are both.
proof fn lemma_parts_of_whole(a: int, b: int, whole: int, channels: int)
    requires
        0 < channels,
        0 <= a,
        0 <= b,
        a + b == whole,
        b % channels == 0,
        whole % channels == 0,
    ensures
        a / channels + b / channels == whole / channels,
        a / channels * channels == a,
        b / channels * channels == b,
{
    vstd::arithmetic::div_mod::lemma_sub_mod_noop(whole, b, channels);
    vstd::arithmetic::div_mod::lemma_small_mod(0, channels as nat);
    assert(a == whole - b);
    assert(a % channels == 0);
    vstd::arithmetic::div_mod::lemma_fundamental_div_mod(a, channels);
    vstd::arithmetic::div_mod::lemma_fundamental_div_mod(b, channels);
    vstd::arithmetic::div_mod::lemma_fundamental_div_mod(whole, channels);
    assert(a / channels * channels == a && b / channels * channels == b && a / channels + b
        / channels == whole / channels) by (nonlinear_arith)
        requires
            0 < channels,
            a == channels * (a / channels),
            b == channels * (b / channels),
            whole == channels * (whole / channels),
            a + b == whole,
    ;
}

/// What one end has dropped, the other end can see, and nothing else: as far as the
/// counts were shown, count `i` is that of `i` drops, and the last is all there were.
pub proof fn lemma_drops_are_shown(sink: CaptureSink, source: CaptureSource, i: int)
    requires
        sink.wf(),
        sink.tally() == source.tally(),
        0 <= i < sink.counts().len(),
    ensures
        source.tally()[i] == i % 0x1_0000_0000_0000_0000,
        source.tally()[sink.counts().len() - 1] == sink.spec_overruns(),
        source.tally().contains(sink.spec_overruns()),
{
    let last = sink.counts().len() - 1;
    assert(sink.counts()[i] == sink.tally()[i]);
    assert(sink.counts()[last] == sink.tally()[last]);
    assert(sink.counts()[i] == counts_to(last as nat)[i]);
}

/// A block of whole frames is accepted where that many were reported free before it,
/// and so is an empty one; and what it leaves of them is free for the next.
pub proof fn lemma_free_frames_are_accepted(sink: CaptureSink, free: nat, frames: nat)
    requires
        sink.wf(),
        free * sink.spec_channels() <= sink.room_left(),
        frames <= free,
    ensures
        block_fits(frames * sink.spec_channels(), sink.spec_channels(), sink.room_left()),
{
    let channels = sink.spec_channels() as int;
    vstd::arithmetic::div_mod::lemma_mod_multiples_basic(frames as int, channels);
    assert(frames * channels <= free * channels) by (nonlinear_arith)
        requires
            frames <= free,
            channels > 0,
    ;
}

/// A read gets every frame that was reported available before it, as far as they fit,
/// and no other where no whole frame came in between.
pub proof fn lemma_available_frames_are_read(source: CaptureSource, available: nat, room: nat)
    requires
        source.wf(),
        available * source.spec_channels() <= source.waiting(),
    ensures
        ({
            let channels = source.spec_channels();
            let read = whole_frames(source.waiting(), room, channels);
            let owed = if available <= room / channels {
                available
            } else {
                room / channels
            };
            &&& read >= owed
            &&& source.waiting() < (available + 1) * channels ==> read == owed
        }),
{
    let (a, w, c) = (available as int, source.waiting() as int, source.spec_channels() as int);
    lemma_whole_frames_fit(w, a, c);
    if w < (a + 1) * c {
        vstd::arithmetic::div_mod::lemma_fundamental_div_mod(w, c);
        assert(w / c < a + 1) by (nonlinear_arith)
            requires
                w < (a + 1) * c,
                w == c * (w / c) + w % c,
                0 <= w % c,
                0 < c,
        ;
    }
}

/// What a read leaves is what is available after it: of the frames that went in and did
/// not come out, those that it took are gone, and no others.
pub proof fn lemma_read_leaves_the_rest(
    sink: CaptureSink,
    before: CaptureSource,
    after: CaptureSource,
    available: nat,
    frames: nat,
)
    requires
        before.spec_channels() == after.spec_channels(),
        before.received().len() + available * before.spec_channels() == sink.sent().len(),
        after.received().len() == before.received().len() + frames * before.spec_channels(),
        frames <= available,
    ensures
        after.received().len() + (available - frames) * after.spec_channels()
            == sink.sent().len(),
{
    let channels = before.spec_channels() as int;
    assert((available - frames) * channels == available * channels - frames * channels)
        by (nonlinear_arith);
}

/// What has come out of a ring is, sample for sample, what went in: neither end
/// can be ahead of the other by anything but a tail.
pub proof fn lemma_ring_keeps_order(sink: CaptureSink, source: CaptureSource)
    requires
        sink.wf(),
        source.wf(),
        sink.stream() == source.stream(),
    ensures
        forall|i: int|
            0 <= i < sink.sent().len() && i < source.received().len()
                ==> #[trigger] source.received()[i] == sink.sent()[i],
        source.received().len() <= sink.sent().len() ==> source.received().is_prefix_of(
            sink.sent(),
        ),
{
    assert forall|i: int|
        0 <= i < sink.sent().len() && i < source.received().len() implies #[trigger] source.received()[i]
        == sink.sent()[i] by {
        assert(sink.sent()[i] == sink.stream()[i]);
        assert(source.received()[i] == source.stream()[i]);
    }
    if source.received().len() <= sink.sent().len() {
        assert(source.received() =~= sink.sent().subrange(0, source.received().len() as int));
    }
}

/// Channels never slip: the sample of channel `c` in received frame `f` is the
/// sample of channel `c` in sent frame `f`.
pub proof fn lemma_ring_keeps_channels(
    sink: CaptureSink,
    source: CaptureSource,
    frame: int,
    channel: int,
)
    requires
        sink.wf(),
        source.wf(),
        sink.stream() == source.stream(),
        sink.spec_channels() == source.spec_channels(),
        0 <= frame,
        0 <= channel < sink.spec_channels(),
        (frame + 1) * sink.spec_channels() <= sink.sent().len(),
        (frame + 1) * sink.spec_channels() <= source.received().len(),
    ensures
        source.received()[frame * source.spec_channels() + channel] == sink.sent()[frame
            * sink.spec_channels() + channel],
{
    lemma_ring_keeps_order(sink, source);
    let channels = sink.spec_channels();
    assert(0 <= frame * channels + channel < (frame + 1) * channels) by (nonlinear_arith)
        requires
            0 <= frame,
            0 <= channel < channels,
    ;
    assert(source.received()[frame * channels + channel] == sink.sent()[frame * channels
        + channel]);
}

/// One channel of an interleaved block: sample `frame` of channel `channel`.
pub open spec fn channel_sample<T>(src: Seq<T>, channels: int, channel: int, frame: int) -> T {
    src[frame * channels + channel]
}

/// What a destination holds after channel `channel` of `src` was split into it:
/// its leading samples come from `src`, as many as both hold, the rest stays.
pub open spec fn split_channel<T>(before: Seq<T>, src: Seq<T>, channels: int, channel: int) -> Seq<
    T,
> {
    Seq::new(
        before.len(),
        |frame: int|
            if frame < src.len() / channels as nat {
                channel_sample(src, channels, channel, frame)
            } else {
                before[frame]
            },
    )
}

/// Split interleaved frames into per-channel slices, each of which stays the slice that
/// it is.
///
/// Samples in `dst` beyond the available frames are left untouched.
pub fn deinterleave<T: Copy>(src: &[T], dst: &mut [&mut [T]])
    requires
        old(dst)@.len() > 0,
        src@.len() % old(dst)@.len() == 0,
    ensures
        final(dst)@.len() == old(dst)@.len(),
        forall|channel: int|
            0 <= channel < old(dst)@.len() ==> final(dst)@[channel]@ == split_channel(
                old(dst)@[channel]@,
                src@,
                old(dst)@.len() as int,
                channel,
            ),
        forall|channel: int|
            0 <= channel < old(dst)@.len() ==> final(#[trigger] final(dst)@[channel])@
                == final(old(dst)@[channel])@,
{
    let count: usize = dst.len();
    let len: usize = src.len();
    let frames: usize = len / count;
    let mut channel: usize = 0;
    while channel < count
        invariant
            count == dst@.len(),
            dst@.len() == old(dst)@.len(),
            count > 0,
            len == src@.len(),
            frames == src@.len() / count as nat,
            src@.len() % count as nat == 0,
            channel <= count,
            forall|c: int|
                0 <= c < channel ==> dst@[c]@ == split_channel(
                    old(dst)@[c]@,
                    src@,
                    count as int,
                    c,
                ),
            forall|c: int| channel <= c < count ==> dst@[c]@ == old(dst)@[c]@,
            forall|c: int|
                0 <= c < count ==> final(#[trigger] dst@[c])@ == final(old(dst)@[c])@,
        decreases count - channel,
    {
        let room: usize = dst[channel].len();
        let take: usize = if frames <= room {
            frames
        } else {
            room
        };
        let mut frame: usize = 0;
        while frame < take
            invariant
                count == dst@.len(),
                dst@.len() == old(dst)@.len(),
                count > 0,
                len == src@.len(),
                frames == src@.len() / count as nat,
                src@.len() % count as nat == 0,
                channel < count,
                take <= frames,
                take <= room,
                frame <= take,
                room == dst@[channel as int]@.len(),
                room == old(dst)@[channel as int]@.len(),
                forall|c: int|
                    0 <= c < channel ==> dst@[c]@ == split_channel(
                        old(dst)@[c]@,
                        src@,
                        count as int,
                        c,
                    ),
                forall|c: int| channel < c < count ==> dst@[c]@ == old(dst)@[c]@,
                forall|c: int|
                    0 <= c < count ==> final(#[trigger] dst@[c])@ == final(old(dst)@[c])@,
                forall|f: int|
                    0 <= f < frame ==> dst@[channel as int]@[f] == channel_sample(
                        src@,
                        count as int,
                        channel as int,
                        f,
                    ),
                forall|f: int|
                    frame <= f < room ==> dst@[channel as int]@[f] == old(
                        dst,
                    )@[channel as int]@[f],
            decreases take - frame,
        {
            proof {
                lemma_frame_index(src@.len() as int, count as int, frame as int, channel as int);
            }
            dst[channel][frame] = src[frame * count + channel];
            frame = frame + 1;
        }
        assert(dst@[channel as int]@ =~= split_channel(
            old(dst)@[channel as int]@,
            src@,
            count as int,
            channel as int,
        ));
        channel = channel + 1;
    }
}

/// A frame's sample lies inside a block that holds that many whole frames.
pub proof fn lemma_frame_index(len: int, channels: int, frame: int, channel: int)
    requires
        0 < channels,
        0 <= channel < channels,
        0 <= frame < len / channels,
        0 <= len,
    ensures
        0 <= frame * channels,
        0 <= frame * channels + channel < len,
{
    vstd::arithmetic::div_mod::lemma_fundamental_div_mod(len, channels);
    assert(frame * channels + channel < len && 0 <= frame * channels) by (nonlinear_arith)
        requires
            0 < channels,
            0 <= channel < channels,
            0 <= frame < len / channels,
            len == channels * (len / channels) + len % channels,
            len % channels >= 0,
    ;
}

/// A destination gets, frame by frame, the samples of its own channel, as many as the
/// block has and it has room for; what lies beyond stays as it was.
pub proof fn lemma_split_sample<T>(
    before: Seq<T>,
    src: Seq<T>,
    channels: int,
    channel: int,
    frame: int,
)
    requires
        0 < channels,
        0 <= frame < before.len(),
    ensures
        split_channel(before, src, channels, channel).len() == before.len(),
        (frame + 1) * channels <= src.len() ==> split_channel(
            before,
            src,
            channels,
            channel,
        )[frame] == src[frame * channels + channel],
        (frame + 1) * channels > src.len() ==> split_channel(
            before,
            src,
            channels,
            channel,
        )[frame] == before[frame],
{
    let len = src.len() as int;
    vstd::arithmetic::div_mod::lemma_fundamental_div_mod(len, channels);
    vstd::arithmetic::div_mod::lemma_mod_division_less_than_divisor(len, channels);
    let (q, r) = (len / channels, len % channels);
    if frame < q {
        assert((frame + 1) * channels <= len) by (nonlinear_arith)
            requires
                frame + 1 <= q,
                len == channels * q + r,
                r >= 0,
                channels > 0,
        ;
    } else {
        assert((frame + 1) * channels > len) by (nonlinear_arith)
            requires
                frame >= q,
                len == channels * q + r,
                r < channels,
                channels > 0,
        ;
    }
}

/// Only whole frames that there is room for enter a ring, and a block of them does.
pub proof fn lemma_what_fits(len: nat, channels: nat, free: nat)
    requires
        channels > 0,
    ensures
        block_fits(0, channels, free),
        block_fits(len, channels, free) && len > 0 ==> len <= free && exists|frames: nat|
            len == #[trigger] (frames * channels),
        len > 0 && len <= free && (exists|frames: nat| len == #[trigger] (frames * channels))
            ==> block_fits(len, channels, free),
{
    if block_fits(len, channels, free) && len > 0 {
        vstd::arithmetic::div_mod::lemma_fundamental_div_mod(len as int, channels as int);
        let frames = len / channels;
        assert(channels * frames == frames * channels) by (nonlinear_arith);
        assert(len == frames * channels);
    }
    if exists|frames: nat| len == #[trigger] (frames * channels) {
        let frames = choose|frames: nat| len == #[trigger] (frames * channels);
        vstd::arithmetic::div_mod::lemma_mod_multiples_basic(frames as int, channels as int);
    }
}

/// As many whole frames come out as there are and as there is room for, and no fewer.
pub proof fn lemma_whole_frames_are_the_most(available: nat, room: nat, channels: nat, more: nat)
    requires
        channels > 0,
    ensures
        whole_frames(available, room, channels) * channels <= available,
        whole_frames(available, room, channels) * channels <= room,
        more * channels <= available && more * channels <= room ==> more <= whole_frames(
            available,
            room,
            channels,
        ),
{
    let (a, r, c, n) = (available as int, room as int, channels as int, more as int);
    let f = whole_frames(available, room, channels) as int;
    vstd::arithmetic::div_mod::lemma_fundamental_div_mod(a, c);
    vstd::arithmetic::div_mod::lemma_fundamental_div_mod(r, c);
    vstd::arithmetic::div_mod::lemma_mod_division_less_than_divisor(a, c);
    vstd::arithmetic::div_mod::lemma_mod_division_less_than_divisor(r, c);
    let (qa, ra, qr, rr) = (a / c, a % c, r / c, r % c);
    assert(f * c <= a && f * c <= r) by (nonlinear_arith)
        requires
            f <= qa,
            f <= qr,
            a == c * qa + ra,
            r == c * qr + rr,
            ra >= 0,
            rr >= 0,
            c > 0,
    ;
    if n * c <= a && n * c <= r {
        assert(n <= qa && n <= qr) by (nonlinear_arith)
            requires
                n * c <= a,
                n * c <= r,
                a == c * qa + ra,
                r == c * qr + rr,
                ra < c,
                rr < c,
                c > 0,
        ;
    }
}

} // verus!
