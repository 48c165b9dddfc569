//! Overlapped framing of a sample stream.

use vstd::prelude::*;

verus! {

/// The complete frames of `data`, each `size` long and `hop` after the one before.
pub open spec fn frames_of<T>(data: Seq<T>, size: nat, hop: nat) -> Seq<Seq<T>>
    decreases data.len(),
{
    if 0 < hop <= size && size <= data.len() {
        seq![data.take(size as int)] + frames_of(data.skip(hop as int), size, hop)
    } else {
        Seq::empty()
    }
}

/// What the last complete frame leaves of `data` for the next one.
pub open spec fn left_over<T>(data: Seq<T>, size: nat, hop: nat) -> Seq<T>
    decreases data.len(),
{
    if 0 < hop <= size && size <= data.len() {
        left_over(data.skip(hop as int), size, hop)
    } else {
        data
    }
}

/// Whether samples arrive in one block or in two makes no difference to the frames.
pub proof fn lemma_frames_in_chunks<T>(first: Seq<T>, second: Seq<T>, size: nat, hop: nat)
    requires
        0 < hop <= size,
    ensures
        frames_of(first + second, size, hop) == frames_of(first, size, hop) + frames_of(
            left_over(first, size, hop) + second,
            size,
            hop,
        ),
        left_over(first + second, size, hop) == left_over(
            left_over(first, size, hop) + second,
            size,
            hop,
        ),
    decreases first.len(),
{
    if size <= first.len() {
        let rest = first.skip(hop as int);
        lemma_frames_in_chunks(rest, second, size, hop);
        assert((first + second).take(size as int) =~= first.take(size as int));
        assert((first + second).skip(hop as int) =~= rest + second);
        assert(frames_of(first, size, hop) == seq![first.take(size as int)] + frames_of(
            rest,
            size,
            hop,
        ));
        assert(frames_of(first + second, size, hop) =~= frames_of(first, size, hop) + frames_of(
            left_over(first, size, hop) + second,
            size,
            hop,
        ));
    } else {
        assert(frames_of(first, size, hop) =~= Seq::<Seq<T>>::empty());
        assert(frames_of(first + second, size, hop) =~= frames_of(first, size, hop) + frames_of(
            left_over(first, size, hop) + second,
            size,
            hop,
        ));
    }
}

/// How many complete frames `len` samples hold.
pub open spec fn frame_count(len: int, size: int, hop: int) -> int {
    if len < size {
        0
    } else {
        (len - size) / hop + 1
    }
}

/// Whether `frame` is the stretch of `data` that begins `k` hops in.
pub open spec fn frame_at<T>(data: Seq<T>, size: nat, hop: nat, k: int, frame: Seq<T>) -> bool {
    &&& 0 <= k * hop
    &&& k * hop + size <= data.len()
    &&& frame == data.subrange(k * hop, k * hop + size)
}

/// Frames are counted per hop, and each starts one hop after the one before.
pub proof fn lemma_frames_per_hop<T>(data: Seq<T>, size: nat, hop: nat)
    requires
        0 < hop <= size,
    ensures
        frames_of(data, size, hop).len() == frame_count(data.len() as int, size as int, hop as int),
        left_over(data, size, hop).len() < size,
        forall|k: int|
            0 <= k < frames_of(data, size, hop).len() ==> frame_at(
                data,
                size,
                hop,
                k,
                #[trigger] frames_of(data, size, hop)[k],
            ),
    decreases data.len(),
{
    let frames = frames_of(data, size, hop);
    if size <= data.len() {
        let rest = data.skip(hop as int);
        let later = frames_of(rest, size, hop);
        lemma_frames_per_hop(rest, size, hop);
        assert(frames == seq![data.take(size as int)] + later);
        let n = data.len() - size;
        if rest.len() < size {
            vstd::arithmetic::div_mod::lemma_fundamental_div_mod_converse(n, hop as int, 0, n);
        } else {
            vstd::arithmetic::div_mod::lemma_div_minus_one(n, hop as int);
        }
        assert forall|k: int| 0 <= k < frames.len() implies frame_at(
            data,
            size,
            hop,
            k,
            #[trigger] frames[k],
        ) by {
            if k == 0 {
                assert(0 * hop == 0) by (nonlinear_arith);
                assert(data.take(size as int) =~= data.subrange(0, size as int));
            } else {
                assert(frames[k] == later[k - 1]);
                assert(k * hop == (k - 1) * hop + hop) by (nonlinear_arith);
                assert(rest.subrange((k - 1) * hop, (k - 1) * hop + size) =~= data.subrange(
                    k * hop,
                    k * hop + size,
                ));
            }
        }
    } else {
        assert(frames =~= Seq::<Seq<T>>::empty());
    }
}

/// Two streams of one length leave the same number of samples over.
pub proof fn lemma_left_over_length<A, B>(a: Seq<A>, b: Seq<B>, size: nat, hop: nat)
    requires
        0 < hop <= size,
        a.len() == b.len(),
    ensures
        left_over(a, size, hop).len() == left_over(b, size, hop).len(),
    decreases a.len(),
{
    if size <= a.len() {
        lemma_left_over_length(a.skip(hop as int), b.skip(hop as int), size, hop);
    }
}

/// The next of all frames is the complete one, and the rest follow it.
pub proof fn lemma_next_frame<T>(
    here: Seq<T>,
    frame: Seq<T>,
    rest: Seq<T>,
    all: Seq<Seq<T>>,
    produced: int,
    size: nat,
    hop: nat,
)
    requires
        0 < hop <= size,
        frame.len() == size,
        here == frame + rest,
        0 <= produced <= all.len(),
        frames_of(here, size, hop) == all.skip(produced),
    ensures
        produced < all.len(),
        all[produced] == frame,
        frames_of(frame.skip(hop as int) + rest, size, hop) == all.skip(produced + 1),
        left_over(frame.skip(hop as int) + rest, size, hop) == left_over(
            here,
            size,
            hop,
        ),
{
    assert(here.take(size as int) =~= frame);
    assert(here.skip(hop as int) =~= frame.skip(hop as int) + rest);
    assert(all.skip(produced) == seq![frame] + frames_of(
        frame.skip(hop as int) + rest,
        size,
        hop,
    ));
    assert(all.skip(produced)[0] == all[produced]);
    assert(all.skip(produced).skip(1) =~= frames_of(
        frame.skip(hop as int) + rest,
        size,
        hop,
    ));
    assert(all.skip(produced).skip(1) =~= all.skip(produced + 1));
}

/// A frame that slides along a stream of samples.
#[derive(Debug)]
pub struct SlidingFrame<T> {
    frame: Vec<T>,
    filled: usize,
    hop: usize,
}

impl<T: Copy> SlidingFrame<T> {
    pub closed spec fn spec_size(self) -> nat {
        self.frame@.len()
    }

    pub closed spec fn spec_hop(self) -> nat {
        self.hop as nat
    }

    /// The samples waiting for the frame to complete, oldest first.
    pub closed spec fn waiting(self) -> Seq<T> {
        self.frame@.take(self.filled as int)
    }

    pub closed spec fn filled_in_bounds(self) -> bool {
        self.filled <= self.frame@.len()
    }

    pub open spec fn wf(self) -> bool {
        &&& self.filled_in_bounds()
        &&& 0 < self.spec_hop() <= self.spec_size()
        &&& self.waiting().len() <= self.spec_size()
    }

    /// An empty frame of `size` samples.
    pub fn new(size: usize, hop: usize, silence: T) -> (frame: SlidingFrame<T>)
        requires
            0 < hop <= size,
        ensures
            frame.wf(),
            frame.spec_size() == size,
            frame.spec_hop() == hop,
            frame.waiting() == Seq::<T>::empty(),
    {
        let frame = SlidingFrame { frame: vec![silence; size], filled: 0, hop };
        assert(frame.waiting() =~= Seq::<T>::empty());
        frame
    }

    pub fn size(&self) -> (size: usize)
        ensures
            size == self.spec_size(),
    {
        self.frame.len()
    }

    pub fn hop(&self) -> (hop: usize)
        ensures
            hop == self.spec_hop(),
    {
        self.hop
    }

    /// Take samples from `samples`, beginning at `from`, until they run out or
    /// the frame is complete. Returns how many were taken.
    pub fn fill(&mut self, samples: &[T], from: usize) -> (taken: usize)
        requires
            old(self).wf(),
            from <= samples@.len(),
        ensures
            final(self).wf(),
            final(self).spec_size() == old(self).spec_size(),
            final(self).spec_hop() == old(self).spec_hop(),
            from + taken <= samples@.len(),
            final(self).waiting() == old(self).waiting() + samples@.subrange(
                from as int,
                from + taken,
            ),
            from + taken == samples@.len() || final(self).waiting().len() == old(self).spec_size(),
    {
        let mut taken: usize = 0;
        let ghost before = self.waiting();
        while self.filled < self.frame.len() && taken < samples.len() - from
            invariant
                self.wf(),
                self.spec_size() == old(self).spec_size(),
                self.spec_hop() == old(self).spec_hop(),
                from + taken <= samples@.len(),
                self.waiting() == before + samples@.subrange(from as int, from + taken),
                before == old(self).waiting(),
            decreases samples@.len() - from - taken,
        {
            let ghost earlier = self.waiting();
            let sample = samples[from + taken];
            self.frame.set(self.filled, sample);
            self.filled = self.filled + 1;
            taken = taken + 1;
            assert(self.waiting() =~= earlier.push(sample));
            assert(samples@.subrange(from as int, from + taken) =~= samples@.subrange(
                from as int,
                from + taken - 1,
            ).push(sample));
        }
        taken
    }

    /// Whether the frame is complete.
    pub fn is_complete(&self) -> (complete: bool)
        requires
            self.wf(),
        ensures
            complete == (self.waiting().len() == self.spec_size()),
    {
        self.filled == self.frame.len()
    }

    /// The samples of a complete frame.
    pub fn samples(&self) -> (samples: &[T])
        requires
            self.wf(),
            self.waiting().len() == self.spec_size(),
        ensures
            samples@ == self.waiting(),
    {
        assert(self.frame@.take(self.filled as int) =~= self.frame@);
        self.frame.as_slice()
    }

    /// Slide by one hop, keeping the overlapping tail.
    pub fn slide(&mut self)
        requires
            old(self).wf(),
            old(self).waiting().len() == old(self).spec_size(),
        ensures
            final(self).wf(),
            final(self).spec_size() == old(self).spec_size(),
            final(self).spec_hop() == old(self).spec_hop(),
            final(self).waiting() == old(self).waiting().skip(old(self).spec_hop() as int),
    {
        let size: usize = self.frame.len();
        let keep: usize = size - self.hop;
        let mut k: usize = 0;
        while k < keep
            invariant
                self.frame@.len() == size,
                old(self).frame@.len() == size,
                self.hop == old(self).hop,
                self.filled == old(self).filled,
                0 < self.hop <= size,
                keep == size - self.hop,
                k <= keep,
                forall|i: int| 0 <= i < k ==> self.frame@[i] == old(self).frame@[i + self.hop],
                forall|i: int| k <= i < size ==> self.frame@[i] == old(self).frame@[i],
            decreases keep - k,
        {
            let sample = self.frame[k + self.hop];
            self.frame.set(k, sample);
            k = k + 1;
        }
        self.filled = keep;
        assert(self.waiting() =~= old(self).waiting().skip(self.hop as int));
    }

    /// Forget the samples waiting.
    pub fn clear(&mut self)
        requires
            old(self).wf(),
        ensures
            final(self).wf(),
            final(self).spec_size() == old(self).spec_size(),
            final(self).spec_hop() == old(self).spec_hop(),
            final(self).waiting() == Seq::<T>::empty(),
    {
        self.filled = 0;
        assert(self.waiting() =~= Seq::<T>::empty());
    }
}

} // verus!
