//! Transforms between samples and spectra.
//!
//! A spectrum is one-sided: its first bin is DC and its last is Nyquist. Both
//! directions are unnormalised.

use vstd::prelude::*;

use crate::arith::Complex;
use crate::ieee::F32;
use crate::numbers::{num, ZERO};

verus! {

/// Whether a function gives every frame one spectrum, of one bin more than half its
/// samples.
pub open spec fn settled_forward<F: Fn(&[F32]) -> Vec<Complex>>(forward: F) -> bool {
    &&& forall|frame: &[F32]| #[trigger] forward.requires((frame,))
    &&& forall|frame: &[F32], bins: Vec<Complex>| #[trigger]
        forward.ensures((frame,), bins) ==> bins@.len() == frame@.len() / 2 + 1
    &&& forall|a: &[F32], b: &[F32], x: Vec<Complex>, y: Vec<Complex>| #[trigger]
        forward.ensures((a,), x) && #[trigger] forward.ensures((b,), y) && a@ == b@ ==> x@ == y@
}

/// A transform from samples to a spectrum.
pub struct Forward<F: Fn(&[F32]) -> Vec<Complex>> {
    forward: F,
}

impl<F: Fn(&[F32]) -> Vec<Complex>> Forward<F> {
    #[verifier::type_invariant]
    spec fn is_settled(self) -> bool {
        settled_forward(self.forward)
    }

    spec fn gives(self, frame: Seq<F32>, spectrum: Seq<Complex>) -> bool {
        exists|samples: &[F32], bins: Vec<Complex>| #[trigger]
            self.forward.ensures((samples,), bins) && samples@ == frame && bins@ == spectrum
    }

    /// The spectrum of a frame.
    pub closed spec fn of(self, frame: Seq<F32>) -> Seq<Complex> {
        choose|spectrum: Seq<Complex>| self.gives(frame, spectrum)
    }

    /// A transform that goes by `forward`.
    pub fn new(forward: F) -> (transform: Forward<F>)
        requires
            settled_forward(forward),
        ensures
            forall|frame: &[F32], bins: Vec<Complex>| #[trigger]
                forward.ensures((frame,), bins) ==> transform.of(frame@) == bins@,
    {
        let transform = Forward { forward };
        proof {
            assert forall|frame: &[F32], bins: Vec<Complex>| #[trigger]
                forward.ensures((frame,), bins) implies transform.of(frame@) == bins@ by {
                assert(transform.gives(frame@, bins@));
                assert(transform.gives(frame@, transform.of(frame@)));
            }
        }
        transform
    }

    /// The spectrum of a frame.
    pub fn transform(&self, frame: &[F32]) -> (spectrum: Vec<Complex>)
        ensures
            spectrum@ == self.of(frame@),
            spectrum@.len() == frame@.len() / 2 + 1,
    {
        proof {
            use_type_invariant(self);
        }
        let spectrum = (self.forward)(frame);
        proof {
            assert(self.gives(frame@, spectrum@));
            assert(self.gives(frame@, self.of(frame@)));
        }
        spectrum
    }
}

/// Whether a function gives every spectrum one frame, of two samples for every bin
/// but the first, if there can be as many.
pub open spec fn settled_inverse<I: Fn(&[Complex]) -> Vec<F32>>(inverse: I) -> bool {
    &&& forall|spectrum: &[Complex]| #[trigger] inverse.requires((spectrum,))
    &&& forall|spectrum: &[Complex], frame: Vec<F32>| #[trigger]
        inverse.ensures((spectrum,), frame) && spectrum@.len() > 0 && 2 * (spectrum@.len() - 1)
            <= usize::MAX ==> frame@.len() == 2 * (spectrum@.len() - 1)
    &&& forall|a: &[Complex], b: &[Complex], x: Vec<F32>, y: Vec<F32>| #[trigger]
        inverse.ensures((a,), x) && #[trigger] inverse.ensures((b,), y) && a@ == b@ ==> x@ == y@
}

/// A transform from a spectrum back to samples.
pub struct Inverse<I: Fn(&[Complex]) -> Vec<F32>> {
    inverse: I,
}

impl<I: Fn(&[Complex]) -> Vec<F32>> Inverse<I> {
    #[verifier::type_invariant]
    spec fn is_settled(self) -> bool {
        settled_inverse(self.inverse)
    }

    spec fn gives(self, spectrum: Seq<Complex>, frame: Seq<F32>) -> bool {
        exists|bins: &[Complex], samples: Vec<F32>| #[trigger]
            self.inverse.ensures((bins,), samples) && bins@ == spectrum && samples@ == frame
    }

    /// The frame of a spectrum.
    pub closed spec fn of(self, spectrum: Seq<Complex>) -> Seq<F32> {
        choose|frame: Seq<F32>| self.gives(spectrum, frame)
    }

    /// A transform that goes by `inverse`.
    pub fn new(inverse: I) -> (transform: Inverse<I>)
        requires
            settled_inverse(inverse),
        ensures
            forall|spectrum: &[Complex], frame: Vec<F32>| #[trigger]
                inverse.ensures((spectrum,), frame) ==> transform.of(spectrum@) == frame@,
    {
        let transform = Inverse { inverse };
        proof {
            assert forall|spectrum: &[Complex], frame: Vec<F32>| #[trigger]
                inverse.ensures((spectrum,), frame) implies transform.of(spectrum@) == frame@ by {
                assert(transform.gives(spectrum@, frame@));
                assert(transform.gives(spectrum@, transform.of(spectrum@)));
            }
        }
        transform
    }

    /// The frame of a spectrum.
    pub fn transform(&self, spectrum: &[Complex]) -> (frame: Vec<F32>)
        requires
            spectrum@.len() > 0,
            2 * (spectrum@.len() - 1) <= usize::MAX,
        ensures
            frame@ == self.of(spectrum@),
            frame@.len() == 2 * (spectrum@.len() - 1),
    {
        proof {
            use_type_invariant(self);
        }
        let frame = (self.inverse)(spectrum);
        proof {
            assert(self.gives(spectrum@, frame@));
            assert(self.gives(spectrum@, self.of(spectrum@)));
        }
        frame
    }
}

/// The number zero in the complex plane.
#[verifier::allow_in_spec]
pub fn origin() -> Complex
    returns
        (Complex { re: num(ZERO), im: num(ZERO) }),
{
    Complex { re: num(ZERO), im: num(ZERO) }
}

/// A signal followed by zeros up to a length.
pub open spec fn padded(signal: Seq<F32>, size: nat) -> Seq<F32> {
    Seq::new(
        size,
        |i: int|
            if i < signal.len() {
                signal[i]
            } else {
                num(ZERO)
            },
    )
}

/// The first `take` samples of a signal, followed by zeros up to a length.
pub fn pad(signal: &[F32], take: usize, size: usize) -> (frame: Vec<F32>)
    requires
        take <= signal@.len(),
        take <= size,
    ensures
        frame@ == padded(signal@.take(take as int), size as nat),
{
    let mut frame: Vec<F32> = vec![num(ZERO); size];
    let mut i: usize = 0;
    while i < take
        invariant
            i <= take,
            take <= signal@.len(),
            take <= size,
            frame@.len() == size,
            forall|k: int| 0 <= k < i ==> #[trigger] frame@[k] == signal@[k],
            forall|k: int| i <= k < size ==> #[trigger] frame@[k] == num(ZERO),
        decreases take - i,
    {
        frame.set(i, signal[i]);
        i = i + 1;
    }
    assert(frame@ =~= padded(signal@.take(take as int), size as nat));
    frame
}

/// A spectrum whose first and last bins are purely real, as those of a real signal
/// are.
pub open spec fn real_ended(spectrum: Seq<Complex>) -> Seq<Complex> {
    Seq::new(
        spectrum.len(),
        |k: int|
            if k == 0 || k == spectrum.len() - 1 {
                Complex { re: spectrum[k].re, im: num(ZERO) }
            } else {
                spectrum[k]
            },
    )
}

/// Make the first and last bins purely real. Rounding can leave them a tiny
/// imaginary part.
pub fn make_ends_real(spectrum: &mut Vec<Complex>)
    ensures
        final(spectrum)@ == real_ended(old(spectrum)@),
{
    let bins: usize = spectrum.len();
    if bins > 0 {
        let dc = spectrum[0];
        spectrum.set(0, Complex { re: dc.re, im: num(ZERO) });
        let nyquist = spectrum[bins - 1];
        spectrum.set(bins - 1, Complex { re: nyquist.re, im: num(ZERO) });
    }
    assert(spectrum@ =~= real_ended(old(spectrum)@));
}

} // verus!
