use core::marker::PhantomData;
use vstd::prelude::*;

use crate::ring::Ring;
use crate::schedule::Step;

verus! {

/// The right to consume the values of type `T` that a ring publishes, through
/// one of its reader slots.
#[derive(Debug)]
pub struct Reader<T> {
    idx: usize,
    item: PhantomData<T>,
}

impl<T: Clone + core::fmt::Debug> Reader<T> {
    /// The number of the slot that this reader consumes through.
    pub closed spec fn spec_slot(&self) -> usize {
        self.idx
    }

    /// The number of the slot that this reader consumes through.
    #[verifier::when_used_as_spec(spec_slot)]
    pub fn slot(&self) -> (slot: usize)
        ensures
            slot == self.spec_slot(),
    {
        self.idx
    }

    /// A reader for the slot `idx` of a ring of `T`.
    pub fn new(idx: usize) -> (reader: Self)
        ensures
            reader.slot() == idx,
    {
        Reader { idx, item: PhantomData }
    }

    /// Hands out a copy of the next value of `ring` that this reader has
    /// not consumed, unless it has consumed all that was published; then
    /// there is nothing to hand out and the ring is as it was.
    pub fn read(&self, ring: &mut Ring<T>) -> (value: Option<T>)
        requires
            old(ring).wf(),
            self.slot() < old(ring)@.readers(),
        ensures
            final(ring).wf(),
            final(ring)@ == old(ring)@.step(Step::Read(self.slot() as int)),
            old(ring)@.reader_waits(self.slot() as int) ==> value is None && *final(ring) == *old(
                ring,
            ),
            !old(ring)@.reader_waits(self.slot() as int) ==> final(ring)@ == old(ring)@.advance(
                self.slot() as int,
            ),
            !old(ring)@.reader_waits(self.slot() as int) ==> (value matches Some(v) && cloned(
                old(ring)@.front(self.slot() as int),
                v,
            )),
            old(ring)@.within_reach() ==> final(ring)@.within_reach(),
    {
        ring.get(self.idx)
    }
}

} // verus!
