//! Sections in which the audio path must not allocate.
//!
//! Only a binary can register the tracking allocator. Without it a section
//! simply calls its closure.

use vstd::prelude::*;

verus! {

/// `assert_no_alloc::assert_no_alloc` calls `func` once and hands back what it
/// returned. A process whose tracking allocator sees an allocation in between
/// does not come back.
pub assume_specification<T, F: FnOnce() -> T>[ assert_no_alloc::assert_no_alloc::<T, F> ](
    func: F,
) -> (value: T)
    requires
        func.requires(()),
    ensures
        func.ensures((), value),
;

/// `assert_no_alloc::permit_alloc` calls `func` once and hands back what it returned.
pub assume_specification<T, F: FnOnce() -> T>[ assert_no_alloc::permit_alloc::<T, F> ](
    func: F,
) -> (value: T)
    requires
        func.requires(()),
    ensures
        func.ensures((), value),
;

/// Run `f` with allocation forbidden. Wrap the body of an audio callback in this.
pub fn rt_section<R, F: FnOnce() -> R>(f: F) -> (value: R)
    requires
        f.requires(()),
    ensures
        f.ensures((), value),
{
    assert_no_alloc::assert_no_alloc(f)
}

/// Permit allocation inside an [`rt_section`].
pub fn permit_alloc<R, F: FnOnce() -> R>(f: F) -> (value: R)
    requires
        f.requires(()),
    ensures
        f.ensures((), value),
{
    assert_no_alloc::permit_alloc(f)
}

} // verus!
