//! One turn of the analysis thread, from the ring to a published frame.

use vstd::prelude::*;

use crate::arith::{Arith, Calc, Complex};
use crate::dsp::delay;
use crate::dsp::delay::{DelayFinder, DelayModel};
use crate::dsp::fft::{Forward, Inverse};
use crate::dsp::spectrum;
use crate::dsp::spectrum::{SpectrumAnalyzer, SpectrumConfig, SpectrumModel};
use crate::dsp::transfer;
use crate::dsp::transfer::{TransferFunction, TransferModel};
use crate::engine::alignment;
use crate::engine::alignment::{held_delay, longest_delay, DelayLine, DelayWatch, Estimate, WatchModel};
use crate::engine::engine;
use crate::engine::engine::{
    lift_channel, AnalysisMode, ConfigProblem, Controls, EngineConfig, Pass, SpectrumFrame,
    DRAIN_FRAMES,
};
use crate::engine::ring;
use crate::engine::ring::{capture_ring, CaptureSink, CaptureSource};
use crate::engine::snapshot::{snapshot_channel, SnapshotPublisher, SnapshotReader};
use crate::ieee::F32;
use crate::numbers::{num, ZERO};

verus! {

/// What the analysis thread holds between two turns.
pub struct Worker {
    source: CaptureSource,
    config: EngineConfig,
    interleaved: Vec<u32>,
    delay_line: DelayLine,
    watch: DelayWatch,
    analyzer: SpectrumAnalyzer,
    average: SpectrumAnalyzer,
    transfer: Option<TransferFunction>,
    publisher: SnapshotPublisher,
    sequence: u64,
}

/// What a worker amounts to.
#[verifier::ext_equal]
pub struct WorkerModel {
    pub config: EngineConfig,
    /// The reference samples the delay line remembers, oldest first.
    pub line: Seq<F32>,
    pub watch: WatchModel,
    /// The live trace.
    pub analyzer: SpectrumModel,
    /// The long-term average.
    pub average: SpectrumModel,
    pub transfer: Option<TransferModel>,
    /// Frames published so far.
    pub sequence: u64,
}

impl WorkerModel {
    /// Frames in an interleaved block.
    pub open spec fn frames_in(self, block: Seq<u32>) -> nat {
        block.len() / self.config.channels as nat
    }

    /// One channel of a block. Both channels of a transfer function are lifted out of
    /// the same block, so nothing can slide one against the other.
    pub open spec fn channel(self, block: Seq<u32>, channel: usize) -> Seq<F32> {
        engine::lifted(
            block,
            self.config.channels as nat,
            channel as nat,
            self.frames_in(block),
        )
    }

    /// The channel whose spectrum is shown.
    pub open spec fn heard(self, block: Seq<u32>) -> Seq<F32> {
        self.channel(block, self.config.spec_analysed())
    }

    /// The longest delay that can be applied.
    pub open spec fn capacity(self) -> nat {
        (self.line.len() - 1) as nat
    }

    /// Whether the parts are as large as the configuration says: the analyzers and the
    /// transfer function of its size, and the delay line of a second.
    pub open spec fn fits(self) -> bool {
        let size = self.config.spectrum.size as nat;
        &&& self.analyzer.size == size
        &&& self.analyzer.power.len() == size / 2 + 1
        &&& self.average.size == size
        &&& self.average.power.len() == size / 2 + 1
        &&& self.transfer matches Some(t) ==> t.size == size && t.products.len() == size / 2 + 1
        &&& self.transfer is Some <==> self.config.mode is Transfer
        &&& self.line.len() == alignment::second_of(self.config.spectrum.sample_rate) + 1
        &&& self.line.len() > 0
    }

    /// What becomes of a request to estimate the delay.
    pub open spec fn estimate<
        C: Fn(Calc) -> F32,
        F: Fn(&[F32]) -> Vec<Complex>,
        I: Fn(&[Complex]) -> Vec<F32>,
    >(
        self,
        m: Arith<C>,
        forward: Forward<F>,
        inverse: Inverse<I>,
        controls: Controls,
        block: Seq<u32>,
    ) -> Estimate {
        match self.config.mode {
            AnalysisMode::Spectrum => Estimate::Idle,
            AnalysisMode::Transfer { reference_channel, .. } => self.watch.estimated(
                m,
                forward,
                inverse,
                controls.estimate_delay,
                self.channel(block, reference_channel),
                self.heard(block),
                self.capacity(),
            ),
        }
    }

    /// The delay that is applied to the reference: a fresh estimate where there is
    /// one, or else what is asked for, as far as the line reaches.
    pub open spec fn delay<
        C: Fn(Calc) -> F32,
        F: Fn(&[F32]) -> Vec<Complex>,
        I: Fn(&[Complex]) -> Vec<F32>,
    >(
        self,
        m: Arith<C>,
        forward: Forward<F>,
        inverse: Inverse<I>,
        controls: Controls,
        block: Seq<u32>,
    ) -> u32 {
        let asked = match self.estimate(m, forward, inverse, controls, block) {
            Estimate::Found { delay } => delay,
            _ => controls.reference_delay,
        };
        alignment::applied_delay(asked as nat, self.capacity()) as u32
    }

    /// The long-term average forgotten, if that is asked for.
    pub open spec fn prepared(self, controls: Controls) -> WorkerModel {
        if controls.reset_average {
            WorkerModel {
                average: SpectrumModel { waiting: Seq::empty(), ..self.average.emptied() },
                ..self
            }
        } else {
            self
        }
    }

    /// What a block makes of a worker. Both analyzers see the same samples. In
    /// transfer mode the reference, which is the early one, is held back by the delay
    /// and paired with the measurement.
    pub open spec fn passed<
        C: Fn(Calc) -> F32,
        F: Fn(&[F32]) -> Vec<Complex>,
        I: Fn(&[Complex]) -> Vec<F32>,
    >(
        self,
        m: Arith<C>,
        forward: Forward<F>,
        inverse: Inverse<I>,
        controls: Controls,
        block: Seq<u32>,
    ) -> WorkerModel {
        let heard = self.heard(block);
        let ready = self.prepared(controls);
        let analysed = WorkerModel {
            analyzer: ready.analyzer.pushed(m, forward, heard),
            average: ready.average.pushed(m, forward, heard),
            ..ready
        };
        match self.config.mode {
            AnalysisMode::Spectrum => analysed,
            AnalysisMode::Transfer { reference_channel, .. } => {
                let raw = self.channel(block, reference_channel);
                let held = self.delay(m, forward, inverse, controls, block) as nat;
                WorkerModel {
                    line: (self.line + raw).skip(raw.len() as int),
                    watch: self.watch.observed(controls.estimate_delay, raw, heard),
                    transfer: Some(
                        self.transfer->0.pushed(
                            m,
                            forward,
                            alignment::held_back(self.line, raw, held),
                            heard,
                        ),
                    ),
                    ..analysed
                }
            },
        }
    }

    /// What is said of a pass.
    pub open spec fn reported<
        C: Fn(Calc) -> F32,
        F: Fn(&[F32]) -> Vec<Complex>,
        I: Fn(&[Complex]) -> Vec<F32>,
    >(
        self,
        m: Arith<C>,
        forward: Forward<F>,
        inverse: Inverse<I>,
        controls: Controls,
        block: Seq<u32>,
    ) -> Pass {
        Pass {
            frames: self.frames_in(block) as usize,
            produced: self.analyzer.completed(self.heard(block)).len() as usize,
            estimate: self.estimate(m, forward, inverse, controls, block),
            reference_delay: self.delay(m, forward, inverse, controls, block),
        }
    }

    /// Whether a frame shows what the worker holds, with the delay that is applied where
    /// `reference_delay` is asked for.
    /// Without a transfer function there is no curve of one, stale or not.
    pub open spec fn shown<C: Fn(Calc) -> F32>(
        self,
        m: Arith<C>,
        frame: SpectrumFrame,
        reference_delay: u32,
    ) -> bool {
        let spacing = m.over(
            self.config.spectrum.sample_rate,
            m.count(self.analyzer.size as usize),
        );
        &&& frame.bins@ == spectrum::levels(m, self.analyzer.power)
        &&& frame.average_bins@ == spectrum::levels(m, self.average.power)
        &&& frame.average_frames == self.average.frames
        &&& frame.frames_averaged == self.analyzer.frames
        &&& frame.bin_spacing_hz == spacing
        &&& frame.sample_rate == m.times(spacing, m.count(self.analyzer.size as usize))
        &&& match self.transfer {
            Some(t) => {
                &&& frame.transfer_magnitude_db@ == Seq::new(
                    t.products.len(),
                    |k: int| transfer::magnitude_db(&m, t.products[k]),
                )
                &&& frame.transfer_phase_degrees@ == Seq::new(
                    t.products.len(),
                    |k: int| transfer::phase_degrees(&m, t.products[k]),
                )
                &&& frame.transfer_coherence@ == Seq::new(
                    t.products.len(),
                    |k: int| transfer::coherence(&m, t.products[k]),
                )
                &&& frame.transfer_delay_frames == alignment::applied_delay(
                    reference_delay as nat,
                    self.capacity(),
                )
                &&& frame.transfer_frames == t.frames
            },
            None => {
                &&& frame.transfer_magnitude_db@.len() == 0
                &&& frame.transfer_phase_degrees@.len() == 0
                &&& frame.transfer_coherence@.len() == 0
                &&& frame.transfer_delay_frames == 0
                &&& frame.transfer_frames == 0
            },
        }
    }
}

/// A worker as it is made.
pub open spec fn fresh<C: Fn(Calc) -> F32>(m: Arith<C>, config: EngineConfig) -> WorkerModel {
    WorkerModel {
        config,
        line: Seq::new(
            (alignment::second_of(config.spectrum.sample_rate) + 1) as nat,
            |i: int| num(ZERO),
        ),
        watch: WatchModel {
            finder: match config.mode {
                AnalysisMode::Spectrum => None,
                AnalysisMode::Transfer { .. } => Some(
                    DelayModel {
                        sample_rate: config.spectrum.sample_rate,
                        size: delay::ACOUSTIC_WINDOW as nat,
                        weighting: delay::Weighting::Phat,
                    },
                ),
            },
            reference: Seq::empty(),
            measurement: Seq::empty(),
        },
        analyzer: spectrum::fresh(m, config.spectrum),
        average: spectrum::fresh(m, config.spec_average_settings()),
        transfer: match config.mode {
            AnalysisMode::Spectrum => None,
            AnalysisMode::Transfer { .. } => Some(
                transfer::fresh(m, config.spec_transfer_settings()),
            ),
        },
        sequence: 0,
    }
}

impl View for Worker {
    type V = WorkerModel;

    closed spec fn view(&self) -> WorkerModel {
        WorkerModel {
            config: self.config,
            line: self.delay_line.memory(),
            watch: self.watch@,
            analyzer: self.analyzer@,
            average: self.average@,
            transfer: match self.transfer {
                Some(t) => Some(t@),
                None => None,
            },
            sequence: self.sequence,
        }
    }
}

impl Worker {
    pub closed spec fn spec_source(self) -> CaptureSource {
        self.source
    }

    pub closed spec fn spec_publisher(self) -> SnapshotPublisher {
        self.publisher
    }

    pub closed spec fn parts_match(self) -> bool {
        &&& self.interleaved@.len() == DRAIN_FRAMES * self.config.channels
        &&& self.delay_line.wf()
        &&& self.watch.wf()
        &&& self.analyzer.wf()
        &&& self.analyzer.spec_sample_rate() == self.config.spectrum.sample_rate
        &&& self.average.wf()
        &&& self.transfer matches Some(t) ==> t.wf()
    }

    /// Frames are numbered as they are published, the first one shown being zero.
    pub open spec fn wf(self) -> bool {
        &&& self.parts_match()
        &&& self@.config.spec_problem() is None
        &&& self@.fits()
        &&& self.spec_source().wf()
        &&& self.spec_source().spec_channels() == self@.config.channels
        &&& self.spec_publisher().wf()
        &&& self.spec_publisher().history().len() == self@.sequence + 1
        &&& forall|i: int|
            0 <= i <= self@.sequence ==> (
            #[trigger] self.spec_publisher().history()[i]).sequence == i
    }

    /// Build a worker between the two ends of a ring and of a snapshot.
    pub fn new<C: Fn(Calc) -> F32>(
        m: &Arith<C>,
        config: EngineConfig,
        source: CaptureSource,
        publisher: SnapshotPublisher,
    ) -> (worker: Worker)
        requires
            config.spec_problem() is None,
            source.wf(),
            source.spec_channels() == config.channels,
            publisher.wf(),
            publisher.history().len() == 1,
            publisher.history()[0].sequence == 0,
        ensures
            worker.wf(),
            worker@ == fresh(*m, config),
            worker.spec_source() == source,
            worker.spec_publisher() == publisher,
    {
        let capacity: usize = longest_delay(config.spectrum.sample_rate);
        let settings = SpectrumConfig { averaging: config.average, ..config.spectrum };
        // Only built when needed: a transfer function is two more transforms per
        // frame, and a spectrum-only session should not pay for them.
        let (transfer, finder): (Option<TransferFunction>, Option<DelayFinder>) =
            match config.mode {
            AnalysisMode::Spectrum => (None, None),
            AnalysisMode::Transfer { .. } => (
                Some(TransferFunction::new(m, config.transfer_settings())),
                Some(DelayFinder::acoustic(config.spectrum.sample_rate)),
            ),
        };
        let worker = Worker {
            source,
            config,
            interleaved: vec![0u32; DRAIN_FRAMES * config.channels],
            delay_line: DelayLine::new(capacity + 1),
            watch: DelayWatch::new(finder),
            analyzer: SpectrumAnalyzer::new(m, config.spectrum),
            average: SpectrumAnalyzer::new(m, settings),
            transfer,
            publisher,
            sequence: 0,
        };
        assert(worker@ =~= fresh(*m, config));
        worker
    }

    /// Take one bounded read from the ring through the whole graph.
    ///
    /// Nothing comes back when the ring was empty; only the long-term average may
    /// then have been reset.
    pub fn pass<
        C: Fn(Calc) -> F32,
        F: Fn(&[F32]) -> Vec<Complex>,
        I: Fn(&[Complex]) -> Vec<F32>,
    >(
        &mut self,
        m: &Arith<C>,
        forward: &Forward<F>,
        inverse: &Inverse<I>,
        controls: Controls,
    ) -> (pass: Option<Pass>)
        requires
            old(self).wf(),
        ensures
            final(self).wf(),
            final(self).spec_publisher() == old(self).spec_publisher(),
            final(self).spec_source().stream() == old(self).spec_source().stream(),
            final(self).spec_source().tally() == old(self).spec_source().tally(),
            final(self).spec_source().ring() == old(self).spec_source().ring(),
            old(self).spec_source().waiting() >= old(self)@.config.channels <==> pass is Some,
            pass is None ==> {
                &&& final(self).spec_source().received() == old(self).spec_source().received()
                &&& final(self)@ == old(self)@.prepared(controls)
            },
            pass matches Some(done) ==> {
                let earlier = old(self).spec_source().received();
                let block = final(self).spec_source().received().skip(earlier.len() as int);
                &&& final(self).spec_source().received() == earlier + block
                &&& 0 < done.frames <= DRAIN_FRAMES
                &&& done.frames == ring::whole_frames(
                    old(self).spec_source().waiting(),
                    (DRAIN_FRAMES * old(self)@.config.channels) as nat,
                    old(self)@.config.channels as nat,
                )
                &&& block.len() == done.frames * old(self)@.config.channels
                &&& final(self)@ == old(self)@.passed(*m, *forward, *inverse, controls, block)
                &&& done == old(self)@.reported(*m, *forward, *inverse, controls, block)
            },
    {
        if controls.reset_average {
            self.average.reset();
        }
        let ghost start = old(self)@;
        assert(self@ =~= start.prepared(controls));

        // Exactly one bounded read per pass.
        let frames: usize = self.source.read_interleaved(self.interleaved.as_mut_slice());
        if frames == 0 {
            proof {
                let count = self.config.channels as int;
                vstd::arithmetic::div_mod::lemma_div_multiples_vanish(DRAIN_FRAMES as int, count);
                assert(DRAIN_FRAMES * count == count * DRAIN_FRAMES) by (nonlinear_arith);
                if old(self).source.waiting() >= count {
                    vstd::arithmetic::div_mod::lemma_div_non_zero(
                        old(self).source.waiting() as int,
                        count,
                    );
                }
            }
            assert(self.source.received() =~= old(self).source.received());
            return None;
        }
        let channels: usize = self.config.channels;
        proof {
            let (waiting, count) = (old(self).source.waiting() as int, channels as int);
            if waiting < count {
                vstd::arithmetic::div_mod::lemma_basic_div(waiting, count);
            }
        }
        let ghost block = self.interleaved@.take((frames * channels) as int);
        proof {
            vstd::arithmetic::div_mod::lemma_div_multiples_vanish(
                DRAIN_FRAMES as int,
                channels as int,
            );
            vstd::arithmetic::div_mod::lemma_div_multiples_vanish(frames as int, channels as int);
            assert(DRAIN_FRAMES * channels == channels * DRAIN_FRAMES) by (nonlinear_arith);
            assert(frames * channels == channels * frames) by (nonlinear_arith);
            assert(frames <= DRAIN_FRAMES);
            assert(start.frames_in(block) == frames);
            assert(self.source.received().skip(old(self).source.received().len() as int)
                =~= block);
        }
        let analysed: usize = self.config.analysed_channel();
        let heard = lift_channel(self.interleaved.as_slice(), channels, analysed, frames);
        proof {
            lemma_lifted_from_block(
                self.interleaved@,
                channels as nat,
                analysed as nat,
                frames as nat,
            );
            assert(heard@ == start.heard(block));
        }

        let mut estimate = Estimate::Idle;
        let mut delay: u32 = held_delay(controls.reference_delay, self.delay_line.capacity());
        match self.config.mode {
            AnalysisMode::Spectrum => {},
            AnalysisMode::Transfer { reference_channel, .. } => {
                let raw = lift_channel(
                    self.interleaved.as_slice(),
                    channels,
                    reference_channel,
                    frames,
                );
                proof {
                    lemma_lifted_from_block(
                        self.interleaved@,
                        channels as nat,
                        reference_channel as nat,
                        frames as nat,
                    );
                }
                let capacity: usize = self.delay_line.capacity();
                estimate =
                self.watch.observe(
                    m,
                    forward,
                    inverse,
                    controls.estimate_delay,
                    raw.as_slice(),
                    heard.as_slice(),
                    capacity,
                );
                match estimate {
                    Estimate::Found { delay: found } => {
                        delay = held_delay(found, capacity);
                    },
                    _ => {},
                }
                // The reference is the early one, so it is the one held back.
                let mut late: Vec<F32> = vec![num(ZERO); frames];
                self.delay_line.process(raw.as_slice(), late.as_mut_slice(), delay as usize);
                assert(raw@.take(frames as int) =~= raw@);
                assert(late@ =~= alignment::held_back(
                    start.line,
                    raw@,
                    alignment::applied_delay(delay as nat, capacity as nat),
                ));
                match self.transfer.as_mut() {
                    Some(transfer) => {
                        transfer.push(m, forward, late.as_slice(), heard.as_slice());
                    },
                    None => {},
                }
            },
        }

        let produced: usize = self.analyzer.push(m, forward, heard.as_slice());
        // Both see the same samples, so any difference between the two traces is
        // averaging alone.
        self.average.push(m, forward, heard.as_slice());
        let done = Pass { frames, produced, estimate, reference_delay: delay };
        assert(self@ =~= start.passed(*m, *forward, *inverse, controls, block));
        proof {
            lemma_passing_keeps_sizes(start, *m, *forward, *inverse, controls, block);
        }
        assert(done == start.reported(*m, *forward, *inverse, controls, block));
        Some(done)
    }
}

/// Overwrite the spectrum side of a recycled frame, and nothing else of it.
fn fill_spectrum<C: Fn(Calc) -> F32>(
    m: &Arith<C>,
    frame: &mut SpectrumFrame,
    analyzer: &SpectrumAnalyzer,
    average: &SpectrumAnalyzer,
)
    ensures
        ({
            let spacing = m.over(analyzer.spec_sample_rate(), m.count(analyzer@.size as usize));
            &&& final(frame).bins@ == spectrum::levels(*m, analyzer@.power)
            &&& final(frame).average_bins@ == spectrum::levels(*m, average@.power)
            &&& final(frame).average_frames == average@.frames
            &&& final(frame).frames_averaged == analyzer@.frames
            &&& final(frame).bin_spacing_hz == spacing
            &&& final(frame).sample_rate == m.times(spacing, m.count(analyzer@.size as usize))
        }),
{
    frame.bins.resize(analyzer.bins(), num(ZERO));
    analyzer.write_db_fs(m, frame.bins.as_mut_slice());
    frame.average_bins.resize(average.bins(), num(ZERO));
    average.write_db_fs(m, frame.average_bins.as_mut_slice());
    frame.average_frames = average.frames();
    frame.bin_spacing_hz = analyzer.bin_spacing_hz(m);
    frame.sample_rate = m.times(analyzer.bin_spacing_hz(m), m.count(analyzer.size()));
    frame.frames_averaged = analyzer.frames();
}

/// Overwrite the transfer side of a recycled frame, and nothing else of it.
fn fill_transfer<C: Fn(Calc) -> F32>(
    m: &Arith<C>,
    frame: &mut SpectrumFrame,
    transfer: &Option<TransferFunction>,
    reference_delay: u32,
)
    ensures
        (match transfer {
            Some(t) => {
                &&& final(frame).transfer_magnitude_db@ == Seq::new(
                    t@.products.len(),
                    |k: int| transfer::magnitude_db(m, t@.products[k]),
                )
                &&& final(frame).transfer_phase_degrees@ == Seq::new(
                    t@.products.len(),
                    |k: int| transfer::phase_degrees(m, t@.products[k]),
                )
                &&& final(frame).transfer_coherence@ == Seq::new(
                    t@.products.len(),
                    |k: int| transfer::coherence(m, t@.products[k]),
                )
                &&& final(frame).transfer_delay_frames == reference_delay
                &&& final(frame).transfer_frames == t@.frames
            },
            None => {
                &&& final(frame).transfer_magnitude_db@.len() == 0
                &&& final(frame).transfer_phase_degrees@.len() == 0
                &&& final(frame).transfer_coherence@.len() == 0
                &&& final(frame).transfer_delay_frames == 0
                &&& final(frame).transfer_frames == 0
            },
        }),
        final(frame).sequence == old(frame).sequence,
        final(frame).overruns == old(frame).overruns,
        final(frame).bins == old(frame).bins,
        final(frame).average_bins == old(frame).average_bins,
        final(frame).average_frames == old(frame).average_frames,
        final(frame).frames_averaged == old(frame).frames_averaged,
        final(frame).bin_spacing_hz == old(frame).bin_spacing_hz,
        final(frame).sample_rate == old(frame).sample_rate,
{
    match transfer {
        Some(transfer) => {
            let bins: usize = transfer.bins();
            frame.transfer_magnitude_db.resize(bins, num(ZERO));
            frame.transfer_phase_degrees.resize(bins, num(ZERO));
            frame.transfer_coherence.resize(bins, num(ZERO));
            transfer.write_magnitude_db(m, frame.transfer_magnitude_db.as_mut_slice());
            transfer.write_phase_degrees(m, frame.transfer_phase_degrees.as_mut_slice());
            transfer.write_coherence(m, frame.transfer_coherence.as_mut_slice());
            frame.transfer_delay_frames = reference_delay;
            frame.transfer_frames = transfer.frames();
        },
        None => {
            frame.transfer_magnitude_db.clear();
            frame.transfer_phase_degrees.clear();
            frame.transfer_coherence.clear();
            frame.transfer_frames = 0;
            frame.transfer_delay_frames = 0;
        },
    }
}

impl Worker {
    /// Publish what the analyzers hold. Returns the number of the frame, and the
    /// overruns that it reports.
    ///
    /// The pending frame is recycled, so every field of it is overwritten.
    pub fn publish<C: Fn(Calc) -> F32>(&mut self, m: &Arith<C>, reference_delay: u32) -> (published: (
        u64,
        u64,
    ))
        requires
            old(self).wf(),
            old(self)@.sequence < u64::MAX,
        ensures
            final(self).wf(),
            final(self).spec_source() == old(self).spec_source(),
            final(self)@ == (WorkerModel { sequence: published.0, ..old(self)@ }),
            published.0 == old(self)@.sequence + 1,
            final(self).spec_publisher().stream() == old(self).spec_publisher().stream(),
            final(self).spec_publisher().history().drop_last() == old(
                self,
            ).spec_publisher().history(),
            final(self).spec_publisher().history().last().sequence == published.0,
            final(self).spec_publisher().history().last().overruns == published.1,
            old(self).spec_source().tally().contains(published.1),
            old(self)@.shown(
                *m,
                final(self).spec_publisher().history().last(),
                reference_delay,
            ),
    {
        let sequence: u64 = self.sequence + 1;
        let overruns: u64 = self.source.overruns();
        let analyzer = &self.analyzer;
        let average = &self.average;
        let transfer = &self.transfer;
        let held: u32 = held_delay(reference_delay, self.delay_line.capacity());
        let ghost model = self@;
        let write = |frame: &mut SpectrumFrame|
            ensures
                final(frame).sequence == sequence,
                final(frame).overruns == overruns,
                model.shown(*m, *final(frame), reference_delay),
            {
                fill_spectrum(m, frame, analyzer, average);
                frame.sequence = sequence;
                frame.overruns = overruns;
                fill_transfer(m, frame, transfer, held);
            };
        self.publisher.publish_with(write);
        self.sequence = sequence;
        proof {
            let before = old(self).publisher.history();
            let after = self.publisher.history();
            assert(after.drop_last() =~= before);
            assert forall|i: int| 0 <= i <= self.sequence implies (
            #[trigger] after[i]).sequence == i by {
                if i < before.len() {
                    assert(after[i] == before[i]);
                }
            }
        }
        (sequence, overruns)
    }

    /// One turn of the analysis thread: a bounded read through the whole graph, and a
    /// publication if frames completed. Nothing comes back when the ring was empty;
    /// otherwise the pass, and of the frame that was published its number and the
    /// overruns that it reports.
    pub fn turn<
        C: Fn(Calc) -> F32,
        F: Fn(&[F32]) -> Vec<Complex>,
        I: Fn(&[Complex]) -> Vec<F32>,
    >(
        &mut self,
        m: &Arith<C>,
        forward: &Forward<F>,
        inverse: &Inverse<I>,
        controls: Controls,
    ) -> (turn: Option<(Pass, Option<(u64, u64)>)>)
        requires
            old(self).wf(),
            old(self)@.sequence < u64::MAX,
        ensures
            final(self).wf(),
            final(self).spec_publisher().stream() == old(self).spec_publisher().stream(),
            final(self).spec_source().stream() == old(self).spec_source().stream(),
            final(self).spec_source().tally() == old(self).spec_source().tally(),
            final(self).spec_source().ring() == old(self).spec_source().ring(),
            old(self).spec_source().waiting() >= old(self)@.config.channels <==> turn is Some,
            turn is None ==> {
                &&& final(self).spec_source().received() == old(self).spec_source().received()
                &&& final(self).spec_publisher() == old(self).spec_publisher()
                &&& final(self)@ == old(self)@.prepared(controls)
            },
            turn matches Some((done, published)) ==> {
                let earlier = old(self).spec_source().received();
                let block = final(self).spec_source().received().skip(earlier.len() as int);
                let passed = old(self)@.passed(*m, *forward, *inverse, controls, block);
                &&& final(self).spec_source().received() == earlier + block
                &&& 0 < done.frames <= DRAIN_FRAMES
                &&& done.frames == ring::whole_frames(
                    old(self).spec_source().waiting(),
                    (DRAIN_FRAMES * old(self)@.config.channels) as nat,
                    old(self)@.config.channels as nat,
                )
                &&& block.len() == done.frames * old(self)@.config.channels
                &&& done == old(self)@.reported(*m, *forward, *inverse, controls, block)
                &&& published is Some <==> done.produced > 0
                &&& published is None ==> final(self)@ == passed && final(self).spec_publisher()
                    == old(self).spec_publisher()
                &&& published matches Some((sequence, overruns)) ==> {
                    &&& sequence == old(self)@.sequence + 1
                    &&& final(self)@ == (WorkerModel { sequence, ..passed })
                    &&& final(self).spec_publisher().history().drop_last() == old(
                        self,
                    ).spec_publisher().history()
                    &&& final(self).spec_publisher().history().last().sequence == sequence
                    &&& final(self).spec_publisher().history().last().overruns == overruns
                    &&& old(self).spec_source().tally().contains(overruns)
                    &&& passed.shown(
                        *m,
                        final(self).spec_publisher().history().last(),
                        done.reference_delay,
                    )
                }
            },
    {
        match self.pass(m, forward, inverse, controls) {
            None => None,
            Some(done) => {
                let published = if done.produced > 0 {
                    Some(self.publish(m, done.reference_delay))
                } else {
                    None
                };
                Some((done, published))
            },
        }
    }
}

/// Everything that starting up makes: what the audio callback writes to, what the
/// analysis thread runs, and what the UI reads from.
pub struct Started {
    pub sink: CaptureSink,
    pub worker: Worker,
    pub reader: SnapshotReader,
}

/// Make a worker and the ends that belong to it, or say what is inconsistent.
///
/// The sink is separate because it is the only part that crosses onto the real-time
/// thread, and there is one producer only.
pub fn start<C: Fn(Calc) -> F32>(m: &Arith<C>, config: EngineConfig) -> (started: Result<
    Started,
    ConfigProblem,
>)
    ensures
        (match config.spec_problem() {
            Some(problem) => started == Err::<Started, ConfigProblem>(problem),
            None => started matches Ok(s) && {
                &&& s.sink.wf()
                &&& s.worker.wf()
                &&& s.reader.wf()
                &&& s.worker@ == fresh(*m, config)
                &&& s.sink.spec_channels() == config.channels
                &&& s.sink.capacity() == config.channels * config.ring_capacity_frames
                &&& s.sink.sent() == Seq::<u32>::empty()
                &&& s.sink.room_left() == s.sink.capacity()
                &&& s.sink.spec_overruns() == 0
                &&& s.sink.counts() == seq![0u64]
                &&& s.worker.spec_source().left_behind() == 0
                &&& s.worker.spec_source().received() == Seq::<u32>::empty()
                &&& s.worker.spec_source().stream() == s.sink.stream()
                &&& s.worker.spec_source().tally() == s.sink.tally()
                &&& s.worker.spec_source().ring() == s.sink.ring()
                &&& s.worker.spec_publisher().stream() == s.reader.stream()
                &&& s.reader.at() == 0
                &&& engine::blank(
                    s.worker.spec_publisher().history()[0],
                    (config.spectrum.size / 2 + 1) as nat,
                    m.over(config.spectrum.sample_rate, m.count(config.spectrum.size)),
                    config.spectrum.sample_rate,
                )
            },
        }),
{
    match config.problem() {
        Some(problem) => {
            return Err(problem);
        },
        None => {},
    }
    let (sink, source) = capture_ring(config.channels, config.ring_capacity_frames);
    let spacing = m.over(config.spectrum.sample_rate, m.count(config.spectrum.size));
    let initial = SpectrumFrame::initial(
        config.spectrum.size / 2 + 1,
        spacing,
        config.spectrum.sample_rate,
    );
    let (publisher, reader) = snapshot_channel(initial);
    let worker = Worker::new(m, config, source, publisher);
    Ok(Started { sink, worker, reader })
}

proof fn lemma_lifted_from_block(all: Seq<u32>, channels: nat, channel: nat, frames: nat)
    requires
        channel < channels,
        frames * channels <= all.len(),
    ensures
        engine::lifted(all, channels, channel, frames) == engine::lifted(
            all.take((frames * channels) as int),
            channels,
            channel,
            frames,
        ),
{
    let block = all.take((frames * channels) as int);
    assert forall|f: int| 0 <= f < frames implies all[f * channels + channel] == #[trigger] block[f
        * channels + channel] by {
        assert(0 <= f * channels + channel < frames * channels) by (nonlinear_arith)
            requires
                0 <= f < frames,
                0 <= channel < channels,
        ;
    }
    assert(engine::lifted(all, channels, channel, frames) =~= engine::lifted(
        block,
        channels,
        channel,
        frames,
    ));
}

/// A reader that has caught up with what is published tells frames apart by their
/// number: it is the place of the frame among all that were published.
pub proof fn lemma_sequence_tells_frames_apart(worker: Worker, reader: SnapshotReader)
    requires
        worker.wf(),
        reader.wf(),
        worker.spec_publisher().stream() == reader.stream(),
        reader.at() <= worker@.sequence,
    ensures
        reader.stream()[reader.at() as int].sequence == reader.at(),
{
    let publisher = worker.spec_publisher();
    assert(publisher.history()[reader.at() as int] == publisher.stream()[reader.at() as int]);
}

/// Restarting the long-term average leaves the live trace, the delay line and the
/// transfer function alone.
pub proof fn lemma_reset_leaves_live_trace(worker: WorkerModel, controls: Controls)
    ensures
        ({
            let ready = worker.prepared(controls);
            &&& ready.analyzer == worker.analyzer
            &&& ready.line == worker.line
            &&& ready.watch == worker.watch
            &&& ready.transfer == worker.transfer
            &&& controls.reset_average ==> ready.average.frames == 0
        }),
{
}

/// A pass leaves every part as large as it was.
pub proof fn lemma_passing_keeps_sizes<
    C: Fn(Calc) -> F32,
    F: Fn(&[F32]) -> Vec<Complex>,
    I: Fn(&[Complex]) -> Vec<F32>,
>(
    worker: WorkerModel,
    m: Arith<C>,
    forward: Forward<F>,
    inverse: Inverse<I>,
    controls: Controls,
    block: Seq<u32>,
)
    requires
        worker.fits(),
    ensures
        worker.prepared(controls).fits(),
        worker.passed(m, forward, inverse, controls, block).fits(),
{
    let heard = worker.heard(block);
    let ready = worker.prepared(controls);
    spectrum::lemma_folding_keeps_setup(
        ready.analyzer,
        m,
        forward,
        ready.analyzer.completed(heard),
    );
    spectrum::lemma_folding_keeps_setup(ready.average, m, forward, ready.average.completed(heard));
    match worker.config.mode {
        AnalysisMode::Spectrum => {},
        AnalysisMode::Transfer { reference_channel, .. } => {
            let raw = worker.channel(block, reference_channel);
            let held = worker.delay(m, forward, inverse, controls, block) as nat;
            let late = alignment::held_back(worker.line, raw, held);
            let transfer = worker.transfer->0;
            transfer::lemma_folding_keeps_setup(
                transfer,
                m,
                forward,
                transfer.reference_frames(late),
                transfer.measurement_frames(heard),
            );
        },
    }
}

/// A frame that shows a worker has a level for every bin, and in transfer mode a
/// magnitude, a phase and a coherence for every bin; otherwise it has none of these.
pub proof fn lemma_frames_have_every_bin<C: Fn(Calc) -> F32>(
    worker: WorkerModel,
    m: Arith<C>,
    frame: SpectrumFrame,
    reference_delay: u32,
)
    requires
        worker.fits(),
        worker.shown(m, frame, reference_delay),
    ensures
        ({
            let bins = worker.config.spectrum.size as nat / 2 + 1;
            &&& frame.bins@.len() == bins
            &&& frame.average_bins@.len() == bins
            &&& worker.config.mode is Spectrum ==> frame.transfer_magnitude_db@.len() == 0
                && frame.transfer_phase_degrees@.len() == 0 && frame.transfer_coherence@.len() == 0
                && frame.transfer_frames == 0 && frame.transfer_delay_frames == 0
            &&& worker.config.mode is Transfer ==> frame.transfer_magnitude_db@.len() == bins
                && frame.transfer_phase_degrees@.len() == bins && frame.transfer_coherence@.len()
                == bins && frame.transfer_delay_frames <= alignment::second_of(
                worker.config.spectrum.sample_rate,
            )
        }),
{
}

/// The delay that a pass reports is one that the line can hold.
pub proof fn lemma_reported_delay_is_applied<
    C: Fn(Calc) -> F32,
    F: Fn(&[F32]) -> Vec<Complex>,
    I: Fn(&[Complex]) -> Vec<F32>,
>(
    worker: WorkerModel,
    m: Arith<C>,
    forward: Forward<F>,
    inverse: Inverse<I>,
    controls: Controls,
    block: Seq<u32>,
)
    requires
        worker.line.len() > 0,
    ensures
        worker.reported(m, forward, inverse, controls, block).reference_delay <= worker.capacity(),
{
}

/// What a block does in spectrum mode: the live trace and the long-term average are both
/// fed the channel that is analysed, frame by frame, and nothing else is touched.
pub proof fn lemma_what_a_spectrum_pass_does<
    C: Fn(Calc) -> F32,
    F: Fn(&[F32]) -> Vec<Complex>,
    I: Fn(&[Complex]) -> Vec<F32>,
>(
    worker: WorkerModel,
    m: Arith<C>,
    forward: Forward<F>,
    inverse: Inverse<I>,
    controls: Controls,
    block: Seq<u32>,
    heard: Seq<F32>,
)
    requires
        worker.config.mode is Spectrum,
        worker.config.channels > 0,
        heard.len() == block.len() / worker.config.channels as nat,
        forall|f: int|
            0 <= f < heard.len() ==> #[trigger] heard[f] == num(
                block[f * worker.config.channels + worker.config.analysis_channel],
            ),
    ensures
        ({
            let after = worker.passed(m, forward, inverse, controls, block);
            let average = if controls.reset_average {
                SpectrumModel {
                    power: Seq::new(worker.average.power.len(), |k: int| num(ZERO)),
                    frames: 0,
                    waiting: Seq::empty(),
                    ..worker.average
                }
            } else {
                worker.average
            };
            &&& after.analyzer == worker.analyzer.pushed(m, forward, heard)
            &&& after.average == average.pushed(m, forward, heard)
            &&& after.line == worker.line
            &&& after.watch == worker.watch
            &&& after.transfer == worker.transfer
            &&& after.sequence == worker.sequence
            &&& worker.reported(m, forward, inverse, controls, block).estimate == Estimate::Idle
        }),
{
    assert(worker.heard(block) =~= heard);
}

/// What a block does in transfer mode: the spectra are fed the measurement channel, and
/// the transfer function is fed it together with the reference channel held back. It is
/// held back by the delay just estimated, or else by the one that is asked for, and never
/// by more than the line can hold.
pub proof fn lemma_what_a_transfer_pass_does<
    C: Fn(Calc) -> F32,
    F: Fn(&[F32]) -> Vec<Complex>,
    I: Fn(&[Complex]) -> Vec<F32>,
>(
    worker: WorkerModel,
    m: Arith<C>,
    forward: Forward<F>,
    inverse: Inverse<I>,
    controls: Controls,
    block: Seq<u32>,
    reference: usize,
    measurement: usize,
    heard: Seq<F32>,
    sent: Seq<F32>,
    late: Seq<F32>,
    held: int,
)
    requires
        worker.config.mode == (AnalysisMode::Transfer {
            reference_channel: reference,
            measurement_channel: measurement,
        }),
        worker.transfer is Some,
        worker.config.channels > 0,
        worker.line.len() > 0,
        heard.len() == block.len() / worker.config.channels as nat,
        sent.len() == heard.len(),
        late.len() == heard.len(),
        forall|f: int|
            0 <= f < heard.len() ==> #[trigger] heard[f] == num(
                block[f * worker.config.channels + measurement],
            ),
        forall|f: int|
            0 <= f < sent.len() ==> #[trigger] sent[f] == num(
                block[f * worker.config.channels + reference],
            ),
        ({
            let asked = match worker.watch.estimated(
                m,
                forward,
                inverse,
                controls.estimate_delay,
                sent,
                heard,
                (worker.line.len() - 1) as nat,
            ) {
                Estimate::Found { delay } => delay as int,
                _ => controls.reference_delay as int,
            };
            held == if asked < worker.line.len() {
                asked
            } else {
                worker.line.len() - 1
            }
        }),
        forall|f: int|
            0 <= f < late.len() ==> #[trigger] late[f] == if f >= held {
                sent[f - held]
            } else {
                worker.line[worker.line.len() - held + f]
            },
    ensures
        ({
            let after = worker.passed(m, forward, inverse, controls, block);
            let report = worker.reported(m, forward, inverse, controls, block);
            &&& after.transfer == Some(worker.transfer->0.pushed(m, forward, late, heard))
            &&& after.analyzer == worker.analyzer.pushed(m, forward, heard)
            &&& after.line == (worker.line + sent).skip(sent.len() as int)
            &&& after.watch == worker.watch.observed(controls.estimate_delay, sent, heard)
            &&& report.reference_delay == held
            &&& report.frames == heard.len() as usize
        }),
{
    assert(worker.heard(block) =~= heard);
    assert(worker.channel(block, reference) =~= sent);
    assert(worker.delay(m, forward, inverse, controls, block) == held);
    assert forall|f: int| 0 <= f < late.len() implies #[trigger] late[f] == alignment::held_back(
        worker.line,
        sent,
        held as nat,
    )[f] by {
        alignment::lemma_held_back_by_so_many(worker.line, sent, held as nat, f);
    }
    assert(alignment::held_back(worker.line, sent, held as nat) =~= late);
}

/// A frame shows in every bin the level of the live power and of the average power
/// there, and in transfer mode what the averages of that bin say.
pub proof fn lemma_what_a_frame_shows<C: Fn(Calc) -> F32>(
    worker: WorkerModel,
    m: Arith<C>,
    frame: SpectrumFrame,
    reference_delay: u32,
    k: int,
)
    requires
        worker.shown(m, frame, reference_delay),
        0 <= k,
    ensures
        k < worker.analyzer.power.len() ==> frame.bins@[k] == spectrum::level(
            &m,
            worker.analyzer.power[k],
        ),
        k < worker.average.power.len() ==> frame.average_bins@[k] == spectrum::level(
            &m,
            worker.average.power[k],
        ),
        worker.transfer matches Some(t) ==> k < t.products.len() ==> frame.transfer_magnitude_db@[k]
            == transfer::magnitude_db(&m, t.products[k]) && frame.transfer_phase_degrees@[k]
            == transfer::phase_degrees(&m, t.products[k]) && frame.transfer_coherence@[k]
            == transfer::coherence(&m, t.products[k]),
        worker.transfer matches Some(t) ==> frame.transfer_frames == t.frames,
        frame.average_frames == worker.average.frames,
        frame.frames_averaged == worker.analyzer.frames,
        frame.bin_spacing_hz == m.over(
            worker.config.spectrum.sample_rate,
            m.count(worker.analyzer.size as usize),
        ),
{
}

/// A worker begins with a silent line of a second, with the live trace averaged as the
/// spectrum is set and the long-term trace as the average is, and otherwise alike.
pub proof fn lemma_how_a_worker_begins<C: Fn(Calc) -> F32>(m: Arith<C>, config: EngineConfig)
    ensures
        ({
            let worker = fresh(m, config);
            &&& worker.analyzer.averaging == config.spectrum.averaging
            &&& worker.average == (SpectrumModel {
                averaging: config.average,
                ..worker.analyzer
            })
            &&& forall|i: int| 0 <= i < worker.line.len() ==> #[trigger] worker.line[i] == num(ZERO)
            &&& worker.transfer matches Some(t) ==> t.size == worker.analyzer.size && t.hop
                == worker.analyzer.hop && t.taper == worker.analyzer.taper
            &&& worker.transfer is Some <==> config.mode is Transfer
            &&& worker.watch.finder is Some <==> config.mode is Transfer
        }),
{
    let worker = fresh(m, config);
    assert(worker.average =~= (SpectrumModel { averaging: config.average, ..worker.analyzer }));
    if let Some(t) = worker.transfer {
        assert(t.taper =~= worker.analyzer.taper);
    }
}

} // verus!
