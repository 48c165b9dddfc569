//! Publishing finished analysis results to the UI without blocking either side.
//!
//! Three buffers. The publisher always writes into one nobody is reading and then
//! publishes it; the reader takes the most recent. Neither ever waits, and frames
//! nobody looked at are overwritten.

use vstd::prelude::*;

use crate::engine::engine::SpectrumFrame;

verus! {

/// The writing end of a triple buffer.
#[verifier::external_type_specification]
#[verifier::external_body]
#[verifier::reject_recursive_types(T)]
pub struct ExInput<T: Send>(triple_buffer::Input<T>);

/// The reading end of a triple buffer.
#[verifier::external_type_specification]
#[verifier::external_body]
#[verifier::reject_recursive_types(T)]
pub struct ExOutput<T: Send>(triple_buffer::Output<T>);

/// The buffer that is written next, before it is published.
pub uninterp spec fn pending(input: triple_buffer::Input<SpectrumFrame>) -> SpectrumFrame;

/// The first value and every value published since, oldest first.
pub uninterp spec fn published(input: triple_buffer::Input<SpectrumFrame>) -> Seq<SpectrumFrame>;

/// The first value and every value that is ever published through this end.
pub uninterp spec fn publications(input: triple_buffer::Input<SpectrumFrame>) -> Seq<SpectrumFrame>;

/// The first value and every value that is ever published to this end.
pub uninterp spec fn arrivals(output: triple_buffer::Output<SpectrumFrame>) -> Seq<SpectrumFrame>;

/// Which of the arrivals was read last.
pub uninterp spec fn position(output: triple_buffer::Output<SpectrumFrame>) -> nat;

/// Whether a look at this end, since it was last read, saw a newer value waiting.
pub uninterp spec fn due(output: triple_buffer::Output<SpectrumFrame>) -> bool;

/// What the looks at this end, since it was last read, report.
pub uninterp spec fn looks(output: triple_buffer::Output<SpectrumFrame>) -> Set<bool>;

/// `triple_buffer::Input::input_buffer_mut`: the buffer to write next. Writing it
/// publishes nothing.
#[verifier::external_body]
fn pending_mut(input: &mut triple_buffer::Input<SpectrumFrame>) -> (buffer: &mut SpectrumFrame)
    ensures
        *buffer == pending(*old(input)),
        pending(*final(input)) == *final(buffer),
        published(*final(input)) == published(*old(input)),
        publications(*final(input)) == publications(*old(input)),
{
    input.input_buffer_mut()
}

/// `triple_buffer::Input::publish`: the written buffer becomes the newest value.
/// What the next pending buffer holds is not said: it is a recycled one.
#[verifier::external_body]
fn publish(input: &mut triple_buffer::Input<SpectrumFrame>)
    ensures
        published(*final(input)) == published(*old(input)).push(pending(*old(input))),
        publications(*final(input)) == publications(*old(input)),
        published(*final(input)).is_prefix_of(publications(*final(input))),
{
    input.publish();
}

/// `triple_buffer::Output::read`: the newest value published, which is never older
/// than the one read before, and is a newer one if one was seen waiting: only this end
/// takes it.
#[verifier::external_body]
fn read_newest(output: &mut triple_buffer::Output<SpectrumFrame>) -> (newest: &SpectrumFrame)
    ensures
        arrivals(*final(output)) == arrivals(*old(output)),
        position(*old(output)) <= position(*final(output)) < arrivals(*final(output)).len(),
        due(*old(output)) ==> position(*old(output)) < position(*final(output)),
        *newest == arrivals(*final(output))[position(*final(output)) as int],
{
    output.read()
}

/// `triple_buffer::Output::updated`: whether a value newer than the one last read
/// is waiting. It waits until this end is read. When it arrives rests with the other
/// thread, so looks between two reads may differ.
#[verifier::external_body]
fn newer_waiting(output: &triple_buffer::Output<SpectrumFrame>) -> (waiting: bool)
    ensures
        waiting ==> position(*output) + 1 < arrivals(*output).len(),
        waiting ==> due(*output),
        looks(*output).contains(waiting),
{
    output.updated()
}

/// `triple_buffer::triple_buffer`: both ends of a channel whose three buffers are
/// clones of `initial`, so that is what is read before anything is published.
#[verifier::external_body]
fn new_channel(initial: &SpectrumFrame) -> (ends: (
    triple_buffer::Input<SpectrumFrame>,
    triple_buffer::Output<SpectrumFrame>,
))
    ensures
        published(ends.0).len() == 1,
        cloned(*initial, published(ends.0)[0]),
        published(ends.0).is_prefix_of(publications(ends.0)),
        arrivals(ends.1) == publications(ends.0),
        position(ends.1) == 0,
{
    triple_buffer::triple_buffer(initial)
}

/// Publishing end. Lives on the analysis thread.
#[derive(Debug)]
pub struct SnapshotPublisher {
    input: triple_buffer::Input<SpectrumFrame>,
}

impl SnapshotPublisher {
    /// The first value and every value published since, oldest first.
    pub closed spec fn history(self) -> Seq<SpectrumFrame> {
        published(self.input)
    }

    /// Every value this end ever publishes, the first one in front.
    pub closed spec fn stream(self) -> Seq<SpectrumFrame> {
        publications(self.input)
    }

    /// What the closure of the next publication finds.
    pub closed spec fn recycled(self) -> SpectrumFrame {
        pending(self.input)
    }

    pub open spec fn wf(self) -> bool {
        self.history().is_prefix_of(self.stream())
    }

    /// Mutate the pending buffer in place, then publish it.
    ///
    /// The buffer holds some earlier value, so `f` must overwrite every field it
    /// cares about.
    pub fn publish_with<F: FnOnce(&mut SpectrumFrame)>(&mut self, f: F)
        requires
            old(self).wf(),
            forall|buffer: &mut SpectrumFrame| #[trigger] f.requires((buffer,)),
        ensures
            final(self).wf(),
            final(self).stream() == old(self).stream(),
            exists|buffer: &mut SpectrumFrame| #[trigger]
                f.ensures((buffer,), ()) && *buffer == old(self).recycled() && final(self).history()
                    == old(self).history().push(*final(buffer)),
    {
        let buffer = pending_mut(&mut self.input);
        f(buffer);
        publish(&mut self.input);
    }
}

/// Reading end. Lives on the UI thread.
#[derive(Debug)]
pub struct SnapshotReader {
    output: triple_buffer::Output<SpectrumFrame>,
}

impl SnapshotReader {
    /// Every value that is ever published, the first one in front.
    pub closed spec fn stream(self) -> Seq<SpectrumFrame> {
        arrivals(self.output)
    }

    /// Which of them was read last.
    pub closed spec fn at(self) -> nat {
        position(self.output)
    }

    /// Whether a newer value was seen waiting.
    pub closed spec fn expects(self) -> bool {
        due(self.output)
    }

    /// What is reported of a newer value until the next read.
    pub closed spec fn reports(self) -> Set<bool> {
        looks(self.output)
    }

    pub open spec fn wf(self) -> bool {
        self.at() < self.stream().len()
    }

    /// The most recently published value, or the previous one if nothing new
    /// arrived. Never blocks, never goes back, and goes on where a new one was seen
    /// waiting.
    pub fn read(&mut self) -> (newest: &SpectrumFrame)
        ensures
            final(self).wf(),
            final(self).stream() == old(self).stream(),
            old(self).at() <= final(self).at(),
            old(self).expects() ==> old(self).at() < final(self).at(),
            *newest == final(self).stream()[final(self).at() as int],
    {
        read_newest(&mut self.output)
    }

    /// Whether a new value is waiting, without consuming it. If so, the next read gets
    /// it or one newer still.
    pub fn has_update(&self) -> (waiting: bool)
        ensures
            waiting ==> self.at() + 1 < self.stream().len(),
            waiting ==> self.expects(),
            self.reports().contains(waiting),
    {
        newer_waiting(&self.output)
    }
}

/// Create a publisher/reader pair, with all three buffers initialised from
/// `initial`.
pub fn snapshot_channel(initial: SpectrumFrame) -> (ends: (SnapshotPublisher, SnapshotReader))
    ensures
        ends.0.wf(),
        ends.1.wf(),
        ends.0.stream() == ends.1.stream(),
        ends.0.history().len() == 1,
        ends.0.history()[0].same(initial),
        ends.1.at() == 0,
{
    let (input, output) = new_channel(&initial);
    (SnapshotPublisher { input }, SnapshotReader { output })
}

/// What is read is, as far as it was published already, what was published: whole,
/// and in its place.
pub proof fn lemma_reader_sees_whole_frames(publisher: SnapshotPublisher, reader: SnapshotReader)
    requires
        publisher.wf(),
        reader.wf(),
        publisher.stream() == reader.stream(),
        reader.at() < publisher.history().len(),
    ensures
        reader.stream()[reader.at() as int] == publisher.history()[reader.at() as int],
{
    assert(publisher.history()[reader.at() as int] == publisher.stream()[reader.at() as int]);
}

/// Where sequence numbers only grow from one publication to the next, they never go
/// back from one read to a later one.
pub proof fn lemma_sequence_never_goes_back(earlier: SnapshotReader, later: SnapshotReader)
    requires
        earlier.wf(),
        later.wf(),
        earlier.stream() == later.stream(),
        earlier.at() <= later.at(),
        forall|i: int, j: int|
            0 <= i <= j < earlier.stream().len() ==> (#[trigger] earlier.stream()[i]).sequence <= (
            #[trigger] earlier.stream()[j]).sequence,
    ensures
        earlier.stream()[earlier.at() as int].sequence <= later.stream()[later.at() as int].sequence,
{
}

} // verus!
