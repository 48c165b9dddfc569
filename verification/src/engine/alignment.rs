//! Holding the reference back until it describes the same instant as the measurement.

use vstd::prelude::*;

use crate::arith::{Arith, Calc, Complex};
use crate::dsp::delay::{DelayEstimate, DelayFinder, DelayModel};
use crate::dsp::fft::{Forward, Inverse};
use crate::ieee;
use crate::ieee::F32;
use crate::numbers::{num, ONE, ZERO};

verus! {

/// A fixed-capacity delay line.
///
/// Circular, so a delay change costs nothing. The line starts out silent.
#[derive(Debug)]
pub struct DelayLine {
    buffer: Vec<F32>,
    write: usize,
}

/// The place `i` samples after `write` in a ring of `len`.
spec fn ring_place(write: int, i: int, len: int) -> int {
    if write + i < len {
        write + i
    } else {
        write + i - len
    }
}

/// The delay that a line of the given capacity applies.
pub open spec fn applied_delay(delay: nat, capacity: nat) -> nat {
    if delay <= capacity {
        delay
    } else {
        capacity
    }
}

/// The delay that a line of the given capacity applies.
pub fn held_delay(delay: u32, capacity: usize) -> (held: u32)
    ensures
        held == applied_delay(delay as nat, capacity as nat),
{
    if delay as usize <= capacity {
        delay
    } else {
        capacity as u32
    }
}

/// What comes out of a line for a block, when it holds every sample back by `held`
/// samples.
pub open spec fn held_back(memory: Seq<F32>, block: Seq<F32>, held: nat) -> Seq<F32> {
    Seq::new(block.len(), |i: int| (memory + block)[memory.len() + i - held])
}

/// How many samples go through when so many come in and there is room for so many.
pub open spec fn shorter(a: nat, b: nat) -> nat {
    if a <= b {
        a
    } else {
        b
    }
}

impl DelayLine {
    /// The samples the line remembers, oldest first.
    pub closed spec fn memory(self) -> Seq<F32> {
        Seq::new(
            self.buffer@.len(),
            |i: int| self.buffer@[ring_place(self.write as int, i, self.buffer@.len() as int)],
        )
    }

    pub closed spec fn write_in_bounds(self) -> bool {
        self.write < self.buffer@.len()
    }

    pub open spec fn wf(self) -> bool {
        self.write_in_bounds() && self.memory().len() >= 1
    }

    /// The longest delay this line can hold.
    pub open spec fn spec_capacity(self) -> nat {
        (self.memory().len() - 1) as nat
    }

    /// A silent line that remembers `capacity` samples, at least one.
    pub fn new(capacity: usize) -> (line: DelayLine)
        ensures
            line.wf(),
            line.memory() == Seq::new(
                if capacity == 0 {
                    1nat
                } else {
                    capacity as nat
                },
                |i: int| num(ZERO),
            ),
    {
        let len: usize = if capacity < 1 {
            1
        } else {
            capacity
        };
        let line = DelayLine { buffer: vec![num(ZERO); len], write: 0 };
        assert(line.memory() =~= Seq::new(len as nat, |i: int| num(ZERO)));
        line
    }

    /// The longest delay this line can hold.
    pub fn capacity(&self) -> (capacity: usize)
        requires
            self.wf(),
        ensures
            capacity == self.spec_capacity(),
    {
        self.buffer.len() - 1
    }

    /// Write `input` and read it back `delay` samples later.
    ///
    /// As many samples go through as `input` and `out` both hold. A delay beyond
    /// the capacity is held at the capacity.
    pub fn process(&mut self, input: &[F32], out: &mut [F32], delay: usize)
        requires
            old(self).wf(),
        ensures
            final(self).wf(),
            final(self).memory().len() == old(self).memory().len(),
            final(self).memory() == (old(self).memory() + input@.take(
                shorter(input@.len(), old(out)@.len()) as int,
            )).skip(shorter(input@.len(), old(out)@.len()) as int),
            final(out)@.len() == old(out)@.len(),
            forall|i: int|
                0 <= i < shorter(input@.len(), old(out)@.len()) ==> #[trigger] final(out)@[i] == (
                old(self).memory() + input@)[old(self).memory().len() + i - applied_delay(
                    delay as nat,
                    old(self).spec_capacity(),
                )],
            forall|i: int|
                shorter(input@.len(), old(out)@.len()) <= i < old(out)@.len() ==> #[trigger] final(
                    out)@[i] == old(out)@[i],
    {
        let len: usize = self.buffer.len();
        let held: usize = if delay <= len - 1 {
            delay
        } else {
            len - 1
        };
        let ghost start = self.memory();
        let count: usize = if input.len() <= out.len() {
            input.len()
        } else {
            out.len()
        };
        let mut n: usize = 0;
        assert((start + input@.take(0)).skip(0) =~= start);
        while n < count
            invariant
                self.wf(),
                len == self.buffer@.len(),
                len == start.len(),
                start == old(self).memory(),
                held < len,
                held == applied_delay(delay as nat, (len - 1) as nat),
                n <= count,
                count == shorter(input@.len(), old(out)@.len()),
                out@.len() == old(out)@.len(),
                self.memory() == (start + input@.take(n as int)).skip(n as int),
                forall|i: int|
                    0 <= i < n ==> #[trigger] out@[i] == (start + input@)[len + i - held],
                forall|i: int| n <= i < out@.len() ==> #[trigger] out@[i] == old(out)@[i],
            decreases count - n,
        {
            let ghost before = self.memory();
            let sample: F32 = input[n];
            self.buffer.set(self.write, sample);
            self.write = if self.write + 1 < len {
                self.write + 1
            } else {
                0
            };
            assert(self.memory() =~= before.skip(1).push(sample));
            assert(input@.take(n + 1) =~= input@.take(n as int).push(sample));
            assert(self.memory() =~= (start + input@.take(n + 1)).skip(n + 1));
            let back: usize = held + 1;
            let from: usize = if self.write >= back {
                self.write - back
            } else {
                self.write + (len - back)
            };
            assert(self.buffer@[from as int] == self.memory()[len - 1 - held]);
            assert(self.memory()[len - 1 - held] == (start + input@)[len + n - held]);
            out[n] = self.buffer[from];
            n = n + 1;
        }
    }
}

/// What a line still remembers after `first` and then `second` went through is what
/// it remembers after both went through at once, and so is what comes out: where a
/// block ends makes no difference to the delay.
pub proof fn lemma_delay_across_blocks(
    memory: Seq<F32>,
    first: Seq<F32>,
    second: Seq<F32>,
    held: nat,
)
    requires
        held < memory.len(),
    ensures
        ((memory + first).skip(first.len() as int) + second).skip(second.len() as int) == (memory + (
        first + second)).skip((first + second).len() as int),
        forall|i: int|
            0 <= i < second.len() ==> #[trigger] ((memory + first).skip(first.len() as int)
                + second)[memory.len() + i - held] == (memory + (first + second))[memory.len()
                + first.len() + i - held],
{
    assert(((memory + first).skip(first.len() as int) + second).skip(second.len() as int) =~= (memory
        + (first + second)).skip((first + second).len() as int));
}

/// The longest delay that is allowed for at a sample rate: one second.
pub open spec fn second_of(sample_rate: F32) -> int {
    ieee::saturated(sample_rate.spec_max(num(ONE)).floor_int(), usize::MAX as int)
}

/// The longest delay that is allowed for at a sample rate: one second.
pub fn longest_delay(sample_rate: F32) -> (frames: usize)
    ensures
        frames == second_of(sample_rate),
{
    sample_rate.max(num(ONE)).floor_to_usize()
}

/// The delay to apply for an estimate in samples.
///
/// A negative estimate means the measurement arrived first, which is impossible
/// for an acoustic path. Holding it at zero plainly shows the problem.
pub open spec fn delay_of_estimate(samples: F32, capacity: nat) -> u32 {
    let nearest = ieee::saturated(samples.spec_max(num(ZERO)).round_int(), u32::MAX as int);
    if nearest <= capacity {
        nearest as u32
    } else {
        capacity as u32
    }
}

fn estimated_delay(samples: F32, capacity: usize) -> (delay: u32)
    ensures
        delay == delay_of_estimate(samples, capacity as nat),
{
    let rounded: usize = samples.max(num(ZERO)).round_to_usize();
    let nearest: u32 = if rounded as u64 > u32::MAX as u64 {
        u32::MAX
    } else {
        rounded as u32
    };
    held_delay(nearest, capacity)
}

/// The delay applied never exceeds what the line can hold.
pub proof fn lemma_estimate_within_capacity(samples: F32, capacity: nat)
    ensures
        delay_of_estimate(samples, capacity) <= capacity,
{
    ieee::lemma_round_not_negative(samples.spec_max(num(ZERO)));
}

/// What became of a request to estimate the delay.
#[derive(Debug, Clone, Copy, PartialEq, Eq, Structural)]
pub enum Estimate {
    /// Nobody asks.
    Idle,
    /// There is nothing to estimate with; the request is over.
    Impossible,
    /// More signal is needed; the request stands.
    Waiting,
    /// The delay to apply; the request is over.
    Found { delay: u32 },
}

/// What a watch amounts to.
#[verifier::ext_equal]
pub struct WatchModel {
    /// What estimates the delay, if anything does.
    pub finder: Option<DelayModel>,
    /// The reference samples collected so far.
    pub reference: Seq<F32>,
    /// The measurement samples collected so far.
    pub measurement: Seq<F32>,
}

/// What a finder says, and what it means for the request: silence keeps it standing.
pub open spec fn answered(found: Option<DelayEstimate>, capacity: nat) -> Estimate {
    match found {
        Some(estimate) => Estimate::Found { delay: delay_of_estimate(estimate.samples, capacity) },
        None => Estimate::Waiting,
    }
}

impl WatchModel {
    /// Whether a block brings what is still wanted.
    pub open spec fn completes(self, block: Seq<F32>) -> bool {
        self.reference.len() + block.len() >= self.finder->0.size
    }

    /// The watch once a block of both channels has come.
    pub open spec fn observed(
        self,
        requested: bool,
        reference: Seq<F32>,
        measurement: Seq<F32>,
    ) -> WatchModel {
        if requested && self.finder is None {
            self
        } else if !requested || self.completes(reference) {
            WatchModel { reference: Seq::empty(), measurement: Seq::empty(), ..self }
        } else {
            WatchModel {
                reference: self.reference + reference,
                measurement: self.measurement + measurement,
                ..self
            }
        }
    }

    /// What becomes of the request with a block of both channels. `capacity` is the
    /// longest delay that can be applied.
    pub open spec fn estimated<
        C: Fn(Calc) -> F32,
        F: Fn(&[F32]) -> Vec<Complex>,
        I: Fn(&[Complex]) -> Vec<F32>,
    >(
        self,
        m: Arith<C>,
        forward: Forward<F>,
        inverse: Inverse<I>,
        requested: bool,
        reference: Seq<F32>,
        measurement: Seq<F32>,
        capacity: nat,
    ) -> Estimate {
        if !requested {
            Estimate::Idle
        } else {
            match self.finder {
                None => Estimate::Impossible,
                Some(finder) => if self.completes(reference) {
                    let wanted = finder.size - self.reference.len();
                    answered(
                        finder.found(
                            m,
                            forward,
                            inverse,
                            self.reference + reference.take(wanted),
                            self.measurement + measurement.take(wanted),
                        ),
                        capacity,
                    )
                } else {
                    Estimate::Waiting
                },
            }
        }
    }
}

/// Collects the long view of both channels that a delay estimate needs.
#[derive(Debug)]
pub struct DelayWatch {
    finder: Option<DelayFinder>,
    reference: Vec<F32>,
    measurement: Vec<F32>,
    filled: usize,
}

impl View for DelayWatch {
    type V = WatchModel;

    closed spec fn view(&self) -> WatchModel {
        WatchModel {
            finder: match self.finder {
                Some(finder) => Some(finder@),
                None => None,
            },
            reference: self.reference@.take(self.filled as int),
            measurement: self.measurement@.take(self.filled as int),
        }
    }
}

impl DelayWatch {
    pub closed spec fn buffers_match(self) -> bool {
        &&& self.filled <= self.reference@.len()
        &&& self.filled <= self.measurement@.len()
        &&& self.finder matches Some(finder) ==> finder.wf() && self.reference@.len()
            == finder@.size && self.measurement@.len() == finder@.size
    }

    pub open spec fn wf(self) -> bool {
        &&& self.buffers_match()
        &&& self@.finder matches Some(finder) ==> self@.reference.len() < finder.size
        &&& self@.reference.len() == self@.measurement.len()
    }

    /// A watch that asks a finder, or none at all.
    pub fn new(finder: Option<DelayFinder>) -> (watch: DelayWatch)
        requires
            finder matches Some(f) ==> f.wf(),
        ensures
            watch.wf(),
            watch@ == (WatchModel {
                finder: match finder {
                    Some(f) => Some(f@),
                    None => None,
                },
                reference: Seq::empty(),
                measurement: Seq::empty(),
            }),
    {
        let len: usize = match &finder {
            Some(f) => f.size(),
            None => 0,
        };
        let watch = DelayWatch {
            finder,
            reference: vec![num(ZERO); len],
            measurement: vec![num(ZERO); len],
            filled: 0,
        };
        assert(watch@.reference =~= Seq::<F32>::empty());
        assert(watch@.measurement =~= Seq::<F32>::empty());
        watch
    }

    /// Take a block of both channels into account.
    ///
    /// Blocks are collected until the finder has enough. The request is only over
    /// once an answer came, so asking during silence waits for signal rather than
    /// answering zero.
    pub fn observe<
        C: Fn(Calc) -> F32,
        F: Fn(&[F32]) -> Vec<Complex>,
        I: Fn(&[Complex]) -> Vec<F32>,
    >(
        &mut self,
        m: &Arith<C>,
        forward: &Forward<F>,
        inverse: &Inverse<I>,
        requested: bool,
        reference: &[F32],
        measurement: &[F32],
        capacity: usize,
    ) -> (estimate: Estimate)
        requires
            old(self).wf(),
            reference@.len() == measurement@.len(),
        ensures
            final(self).wf(),
            final(self)@ == old(self)@.observed(requested, reference@, measurement@),
            estimate == old(self)@.estimated(
                *m,
                *forward,
                *inverse,
                requested,
                reference@,
                measurement@,
                capacity as nat,
            ),
    {
        if !requested {
            self.filled = 0;
            assert(self@ =~= old(self)@.observed(requested, reference@, measurement@));
            return Estimate::Idle;
        }
        if self.finder.is_none() {
            return Estimate::Impossible;
        }
        let size: usize = self.reference.len();
        let frames: usize = reference.len();
        let wanted: usize = size - self.filled;
        let take: usize = if wanted <= frames {
            wanted
        } else {
            frames
        };
        let ghost before = self@;
        let at: usize = self.filled;
        let mut k: usize = 0;
        assert(self.reference@.take(at as int) =~= before.reference + reference@.take(0));
        assert(self.measurement@.take(at as int) =~= before.measurement + measurement@.take(0));
        while k < take
            invariant
                k <= take,
                at + take <= size,
                size == self.reference@.len(),
                size == self.measurement@.len(),
                take <= reference@.len(),
                take <= measurement@.len(),
                self.finder == old(self).finder,
                self.filled == at,
                before.reference.len() == at,
                before.measurement.len() == at,
                self.reference@.take(at + k) == before.reference + reference@.take(k as int),
                self.measurement@.take(at + k) == before.measurement + measurement@.take(k as int),
            decreases take - k,
        {
            let x = reference[k];
            let y = measurement[k];
            let ghost ref_here = self.reference@;
            let ghost mea_here = self.measurement@;
            self.reference.set(at + k, x);
            self.measurement.set(at + k, y);
            assert(self.reference@.take(at + k + 1) =~= ref_here.take(at + k).push(x));
            assert(self.measurement@.take(at + k + 1) =~= mea_here.take(at + k).push(y));
            assert(reference@.take(k + 1) =~= reference@.take(k as int).push(x));
            assert(measurement@.take(k + 1) =~= measurement@.take(k as int).push(y));
            k = k + 1;
        }
        self.filled = at + take;
        if self.filled < size {
            assert(reference@.take(take as int) =~= reference@);
            assert(measurement@.take(take as int) =~= measurement@);
            return Estimate::Waiting;
        }
        self.filled = 0;
        assert(self.reference@.take(size as int) =~= self.reference@);
        assert(self.measurement@.take(size as int) =~= self.measurement@);
        assert(self@ =~= old(self)@.observed(requested, reference@, measurement@));
        match &self.finder {
            Some(finder) => {
                let found = finder.find(
                    m,
                    forward,
                    inverse,
                    self.reference.as_slice(),
                    self.measurement.as_slice(),
                );
                match found {
                    Some(estimate) => Estimate::Found {
                        delay: estimated_delay(estimate.samples, capacity),
                    },
                    None => Estimate::Waiting,
                }
            },
            None => Estimate::Impossible,
        }
    }
}

/// The delay that is applied for an estimate is the nearest whole number of samples, the
/// higher one of two, as far as the line can hold it; none for a measurement that came
/// first.
pub proof fn lemma_delay_is_the_nearest(samples: F32, capacity: nat, k: int)
    requires
        !samples.nan(),
        0 <= k <= capacity <= u32::MAX,
    ensures
        ({
            let delay = delay_of_estimate(samples, capacity) as int;
            let near = ieee::whole_value(delay) - samples.value();
            let other = ieee::whole_value(k) - samples.value();
            let (far, further) = (
                if near < 0 {
                    -near
                } else {
                    near
                },
                if other < 0 {
                    -other
                } else {
                    other
                },
            );
            &&& delay <= capacity
            &&& samples.at_most(num(ZERO)) ==> delay == 0
            &&& !samples.negative() ==> far <= further && (far == further ==> k <= delay)
        }),
{
    let zero = num(ZERO);
    let held = samples.spec_max(zero);
    ieee::lemma_round_not_negative(held);
    if samples.at_most(zero) {
        assert(held.rank() == 0);
        ieee::lemma_round_ascends(held, zero);
        ieee::lemma_round_not_negative(zero);
        ieee::lemma_zero_rounds_to_zero();
    }
    if !samples.negative() {
        let rounded = samples.round_int();
        let delay = delay_of_estimate(samples, capacity) as int;
        assert(held == samples || (samples.rank() == 0 && held.rank() == 0));
        assert(held == samples);
        ieee::lemma_rounded(samples, k);
        ieee::lemma_rounded(samples, delay);
        ieee::lemma_whole_values_ascend(rounded, delay);
        ieee::lemma_whole_values_ascend(delay, rounded);
        ieee::lemma_whole_values_ascend(delay, k);
        ieee::lemma_whole_values_ascend(k, delay);
        ieee::lemma_whole_values_ascend(rounded, k);
        ieee::lemma_whole_values_ascend(k, rounded);
    }
}

/// A sample comes out as many samples after it went in as it is held back: from the
/// block itself, or from what the line remembers of those before.
pub proof fn lemma_held_back_by_so_many(memory: Seq<F32>, block: Seq<F32>, held: nat, i: int)
    requires
        held <= memory.len(),
        0 <= i < block.len(),
    ensures
        i >= held ==> held_back(memory, block, held)[i] == block[i - held],
        i < held ==> held_back(memory, block, held)[i] == memory[memory.len() - held + i],
{
}

/// A delay is estimated from the first samples since it was asked for, as many as the
/// finder takes and however they arrive: what a block leaves waiting is completed by the
/// next. Until there are enough, the request waits; once it is dropped, what was
/// collected for it is forgotten.
pub proof fn lemma_estimate_over_blocks<
    C: Fn(Calc) -> F32,
    F: Fn(&[F32]) -> Vec<Complex>,
    I: Fn(&[Complex]) -> Vec<F32>,
>(
    watch: WatchModel,
    finder: DelayModel,
    m: Arith<C>,
    forward: Forward<F>,
    inverse: Inverse<I>,
    x1: Seq<F32>,
    y1: Seq<F32>,
    x2: Seq<F32>,
    y2: Seq<F32>,
    capacity: nat,
)
    requires
        watch.finder == Some(finder),
        watch.reference.len() == 0,
        watch.measurement.len() == 0,
        x1.len() == y1.len() < finder.size,
        x2.len() == y2.len(),
    ensures
        watch.estimated(m, forward, inverse, true, x1, y1, capacity) == Estimate::Waiting,
        x1.len() + x2.len() < finder.size ==> watch.observed(true, x1, y1).estimated(
            m,
            forward,
            inverse,
            true,
            x2,
            y2,
            capacity,
        ) == Estimate::Waiting,
        x1.len() + x2.len() >= finder.size ==> watch.observed(true, x1, y1).estimated(
            m,
            forward,
            inverse,
            true,
            x2,
            y2,
            capacity,
        ) == match finder.found(
            m,
            forward,
            inverse,
            (x1 + x2).take(finder.size as int),
            (y1 + y2).take(finder.size as int),
        ) {
            Some(found) => Estimate::Found { delay: delay_of_estimate(found.samples, capacity) },
            None => Estimate::Waiting,
        },
        watch.observed(true, x1, y1).observed(false, x2, y2) == watch,
        watch.estimated(m, forward, inverse, false, x1, y1, capacity) == Estimate::Idle,
{
    let after = watch.observed(true, x1, y1);
    assert(after.reference =~= x1);
    assert(after.measurement =~= y1);
    if x1.len() + x2.len() >= finder.size {
        let wanted = finder.size - x1.len();
        assert(x1 + x2.take(wanted) =~= (x1 + x2).take(finder.size as int));
        assert(y1 + y2.take(wanted) =~= (y1 + y2).take(finder.size as int));
    }
    assert(after.observed(false, x2, y2) =~= watch);
}

/// The longest delay is a second: as many whole samples as the rate has, one at least.
pub proof fn lemma_a_second_of_samples(sample_rate: F32, k: int)
    requires
        num(ONE).at_most(sample_rate),
        0 < k <= usize::MAX,
    ensures
        k <= second_of(sample_rate) <==> ieee::whole_value(k) <= sample_rate.value(),
{
    ieee::lemma_rounded(sample_rate, k);
    ieee::lemma_floor_not_negative(sample_rate);
}

} // verus!
