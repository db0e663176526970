use vstd::prelude::*;

use crate::errors::BondiError;
use crate::model::MAX_CONSUMERS;
use crate::model::RingState;
use crate::schedule::Step;

verus! {

/// A fixed number of slots that one writer fills in a circle, with a counter
/// for the writer and one for each reader.
///
/// A step that cannot take effect yet says so and leaves the ring as it was:
/// the caller waits and tries again.
#[derive(Debug)]
pub struct Ring<T> {
    capacity: usize,
    buffer: Vec<T>,
    writer_idx: usize,
    consumer_idx: Vec<usize>,
    num_consumers: usize,
}

impl<T> View for Ring<T> {
    type V = RingState<T>;

    closed spec fn view(&self) -> RingState<T> {
        RingState {
            capacity: self.capacity as nat,
            slots: self.buffer@,
            written: self.writer_idx as nat,
            progress: Seq::new(
                self.num_consumers as nat,
                |i: int| self.consumer_idx@[i] as nat,
            ),
        }
    }
}

impl<T: Clone + core::fmt::Debug> Ring<T> {
    /// Every reader slot is there from the start, and those that no reader
    /// has taken yet stand at zero.
    pub closed spec fn slots_reserved(&self) -> bool {
        &&& self.consumer_idx@.len() == MAX_CONSUMERS
        &&& self.num_consumers <= MAX_CONSUMERS
        &&& forall|i: int|
            self.num_consumers <= i < MAX_CONSUMERS ==> self.consumer_idx@[i] == 0
    }

    /// The ring is in a state that its own steps can have led to.
    pub open spec fn wf(&self) -> bool {
        &&& self@.wf()
        &&& self.slots_reserved()
    }

    /// A ring of `capacity` slots with nothing written and no reader.
    /// A ring without slots cannot be made.
    pub fn new(capacity: usize) -> (made: Result<Self, BondiError>)
        ensures
            capacity == 0 ==> made == Err::<Self, BondiError>(BondiError::InvalidInput),
            capacity > 0 ==> made is Ok,
            made matches Ok(ring) ==> ring.wf() && ring@ == RingState::<T>::fresh(capacity as nat),
    {
        if capacity == 0 {
            return Err(BondiError::InvalidInput);
        }
        let mut consumer_idx: Vec<usize> = Vec::with_capacity(MAX_CONSUMERS);
        while consumer_idx.len() < MAX_CONSUMERS
            invariant
                consumer_idx@.len() <= MAX_CONSUMERS,
                forall|i: int| 0 <= i < consumer_idx@.len() ==> consumer_idx@[i] == 0,
            decreases MAX_CONSUMERS - consumer_idx@.len(),
        {
            consumer_idx.push(0);
        }
        let ring = Ring {
            capacity,
            buffer: Vec::with_capacity(capacity),
            writer_idx: 0,
            consumer_idx,
            num_consumers: 0,
        };
        assert(ring@ =~= RingState::<T>::fresh(capacity as nat));
        Ok(ring)
    }

    /// Registers one more reader and gives the number of its slot: the
    /// number of readers registered before it. Once every slot is taken
    /// the call fails and changes nothing.
    pub fn new_consumer(&mut self) -> (slot: Result<usize, BondiError>)
        requires
            old(self).wf(),
        ensures
            final(self).wf(),
            final(self)@ == old(self)@.step(Step::Register),
            old(self)@.readers() < MAX_CONSUMERS ==> slot == Ok::<usize, BondiError>(
                old(self)@.readers() as usize,
            ) && final(self)@ == old(self)@.register(),
            old(self)@.readers() >= MAX_CONSUMERS ==> slot == Err::<usize, BondiError>(
                BondiError::NoReaderAvailable,
            ) && *final(self) == *old(self),
            old(self)@.within_reach() && old(self)@.written <= old(self)@.capacity
                ==> final(self)@.within_reach(),
    {
        proof {
            if self@.within_reach() && self@.written <= self@.capacity {
                self@.lemma_step_keeps_reach(Step::Register);
            }
        }
        if self.num_consumers == MAX_CONSUMERS {
            return Err(BondiError::NoReaderAvailable);
        }
        let num_consumers = self.num_consumers;
        self.num_consumers = num_consumers + 1;
        assert(self@ =~= old(self)@.register());
        Ok(num_consumers)
    }

    /// The progress of the slowest registered reader. Without a reader
    /// there is none.
    pub fn get_slowest_reader(&self) -> (slowest: Result<usize, BondiError>)
        requires
            self.wf(),
        ensures
            self@.readers() == 0 ==> slowest == Err::<usize, BondiError>(
                BondiError::NoReaderAvailable,
            ),
            self@.readers() > 0 ==> slowest == Ok::<usize, BondiError>(self@.slowest() as usize),
            self@.readers() > 0 ==> self@.is_slowest(self@.slowest()),
    {
        if self.num_consumers == 0 {
            return Err(BondiError::NoReaderAvailable);
        }
        let mut least: usize = self.consumer_idx[0];
        let mut i: usize = 1;
        while i < self.num_consumers
            invariant
                self.wf(),
                1 <= i <= self.num_consumers,
                exists|j: int| 0 <= j < i && self.consumer_idx@[j] == least,
                forall|j: int| 0 <= j < i ==> least <= self.consumer_idx@[j],
            decreases self.num_consumers - i,
        {
            if self.consumer_idx[i] < least {
                least = self.consumer_idx[i];
            }
            i = i + 1;
        }
        proof {
            let j = choose|j: int| 0 <= j < i && self.consumer_idx@[j] == least;
            assert(self@.progress[j] == least as nat);
            assert(self@.is_slowest(least as nat));
            self@.lemma_slowest_unique(least as nat);
        }
        Ok(least)
    }

    /// Publishes `item` unless the writer has to wait for the slowest
    /// reader; then the item comes back and the ring is as it was.
    pub fn insert(&mut self, item: T) -> (outcome: Result<(), T>)
        requires
            old(self).wf(),
            old(self)@.written < usize::MAX,
        ensures
            final(self).wf(),
            final(self)@ == old(self)@.step(Step::Write(item)),
            old(self)@.readers() == 0 ==> outcome is Ok,
            old(self)@.writer_waits() ==> outcome == Err::<(), T>(item) && *final(self) == *old(
                self,
            ),
            !old(self)@.writer_waits() ==> outcome == Ok::<(), T>(()) && final(self)@ == old(
                self,
            )@.insert(item),
            old(self)@.within_reach() ==> final(self)@.within_reach(),
    {
        proof {
            if self@.within_reach() {
                self@.lemma_step_keeps_reach(Step::Write(item));
            }
        }
        let slot = self.writer_idx % self.capacity;
        if self.num_consumers > 0 {
            let slowest_reader = self.get_slowest_reader().unwrap();
            proof {
                self@.lemma_slowest_bounds();
            }
            if self.writer_idx - slowest_reader >= self.capacity {
                return Err(item);
            }
        }
        if self.writer_idx < self.capacity {
            self.buffer.push(item);
        } else {
            self.buffer.set(slot, item);
        }
        self.writer_idx = self.writer_idx + 1;
        assert(self@ =~= old(self)@.insert(item));
        Ok(())
    }

    /// Hands the reader in slot `idx` a copy of the next value that it has
    /// not consumed, unless it has consumed all that was published; then
    /// there is nothing to hand out and the ring is as it was.
    pub fn get(&mut self, idx: usize) -> (value: Option<T>)
        requires
            old(self).wf(),
            idx < old(self)@.readers(),
        ensures
            final(self).wf(),
            final(self)@ == old(self)@.step(Step::Read(idx as int)),
            old(self)@.reader_waits(idx as int) ==> value is None && *final(self) == *old(self),
            !old(self)@.reader_waits(idx as int) ==> final(self)@ == old(self)@.advance(
                idx as int,
            ),
            !old(self)@.reader_waits(idx as int) ==> (value matches Some(v) && cloned(
                old(self)@.front(idx as int),
                v,
            )),
            old(self)@.within_reach() ==> final(self)@.within_reach(),
    {
        proof {
            if self@.within_reach() {
                self@.lemma_step_keeps_reach(Step::Read(idx as int));
            }
        }
        let consumer_idx = self.consumer_idx[idx];
        assert(self@.progress[idx as int] == consumer_idx as nat);
        if self.writer_idx == consumer_idx {
            return None;
        }
        let slot = consumer_idx % self.capacity;
        proof {
            if consumer_idx < self.capacity {
                vstd::arithmetic::div_mod::lemma_small_mod(
                    consumer_idx as nat,
                    self.capacity as nat,
                );
            }
        }
        let result = self.buffer[slot].clone();
        self.consumer_idx.set(idx, consumer_idx + 1);
        assert(self@ =~= old(self)@.advance(idx as int));
        Some(result)
    }

    /// The number of slots.
    pub fn capacity(&self) -> (capacity: usize)
        ensures
            capacity == self@.capacity,
    {
        self.capacity
    }

    /// The number of values published so far.
    pub fn written(&self) -> (written: usize)
        ensures
            written == self@.written,
    {
        self.writer_idx
    }

    /// The number of registered readers.
    pub fn readers(&self) -> (readers: usize)
        ensures
            readers == self@.readers(),
    {
        self.num_consumers
    }
}

} // verus!
