use core::marker::PhantomData;
use vstd::prelude::*;

use crate::ring::Ring;
use crate::schedule::Step;

verus! {

/// The right to publish values of type `T` on a ring.
pub struct Writer<T> {
    item: PhantomData<T>,
}

impl<T: Clone + core::fmt::Debug> Writer<T> {
    /// A writer for a ring of `T`.
    pub fn new() -> (writer: Self) {
        Writer { item: PhantomData }
    }

    /// Publishes `item` on `ring` unless the writer has to wait for the
    /// slowest reader; then the item comes back and the ring is as it was.
    pub fn write(&self, ring: &mut Ring<T>, item: T) -> (outcome: Result<(), T>)
        requires
            old(ring).wf(),
            old(ring)@.written < usize::MAX,
        ensures
            final(ring).wf(),
            final(ring)@ == old(ring)@.step(Step::Write(item)),
            old(ring)@.readers() == 0 ==> outcome is Ok,
            old(ring)@.writer_waits() ==> outcome == Err::<(), T>(item) && *final(ring) == *old(
                ring,
            ),
            !old(ring)@.writer_waits() ==> outcome == Ok::<(), T>(()) && final(ring)@ == old(
                ring,
            )@.insert(item),
            old(ring)@.within_reach() ==> final(ring)@.within_reach(),
    {
        ring.insert(item)
    }
}

} // verus!
