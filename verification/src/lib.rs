//! A single-producer, multi-consumer broadcast ring.
//!
//! One writer appends values to a fixed number of slots; every registered
//! reader consumes the whole stream at its own pace. The ring is a state
//! machine whose steps either take effect or report that the caller has to
//! wait for the other side: whoever shares a channel between threads takes
//! one step at a time and does the waiting.

use vstd::prelude::*;

use crate::errors::BondiError;
use crate::model::ChannelState;
use crate::model::MAX_CONSUMERS;
use crate::reader::Reader;
use crate::ring::Ring;
use crate::schedule::Call;
use crate::schedule::Step;
use crate::writer::Writer;

pub mod errors;
pub mod guarantees;
pub mod model;
pub mod reader;
pub mod ring;
pub mod schedule;
pub mod writer;

verus! {

/// A channel: one ring, at most one writer for it, and a bounded number of
/// readers.
pub struct Bondi<T> {
    ring: Ring<T>,
    writer_created: bool,
}

impl<T> Bondi<T> {
    /// The ring inside the channel.
    pub closed spec fn spec_ring(&self) -> Ring<T> {
        self.ring
    }

    /// Whether the channel has handed out its writer.
    pub closed spec fn writer_issued(&self) -> bool {
        self.writer_created
    }
}

impl<T> View for Bondi<T> {
    type V = ChannelState<T>;

    open spec fn view(&self) -> ChannelState<T> {
        ChannelState { ring: self.spec_ring()@, writer_issued: self.writer_issued() }
    }
}

impl<T: Clone + core::fmt::Debug> Bondi<T> {
    /// The channel's ring is in a state that its own steps can have led to.
    pub open spec fn wf(&self) -> bool {
        self.spec_ring().wf()
    }

    /// A channel over a ring of `capacity` slots, with no writer handed out
    /// and no reader. A channel without slots cannot be made.
    pub fn new(capacity: usize) -> (made: Result<Self, BondiError>)
        ensures
            capacity == 0 ==> made == Err::<Self, BondiError>(BondiError::InvalidInput),
            capacity > 0 ==> made is Ok,
            made matches Ok(channel) ==> channel.wf() && channel@ == ChannelState::<T>::fresh(
                capacity as nat,
            ),
    {
        match Ring::new(capacity) {
            Ok(ring) => Ok(Bondi { ring, writer_created: false }),
            Err(e) => Err(e),
        }
    }

    /// Hands out the channel's writer. It does so once: every later call
    /// fails and changes nothing.
    pub fn get_tx(&mut self) -> (writer: Result<Writer<T>, BondiError>)
        requires
            old(self).wf(),
        ensures
            final(self).wf(),
            final(self)@ == old(self)@.step(Call::TakeWriter),
            old(self)@.writer_issued ==> writer == Err::<Writer<T>, BondiError>(
                BondiError::WriterAlreadyExists,
            ) && *final(self) == *old(self),
            !old(self)@.writer_issued ==> writer is Ok && final(self)@ == (ChannelState {
                writer_issued: true,
                ..old(self)@
            }),
    {
        if self.writer_created {
            return Err(BondiError::WriterAlreadyExists);
        }
        self.writer_created = true;
        Ok(Writer::new())
    }

    /// Registers one more reader with the ring and hands out its handle.
    /// Once every reader slot is taken the call fails and changes nothing.
    pub fn get_rx(&mut self) -> (reader: Result<Reader<T>, BondiError>)
        requires
            old(self).wf(),
        ensures
            final(self).wf(),
            final(self)@ == old(self)@.step(Call::OnRing(Step::Register)),
            old(self)@.ring.readers() < MAX_CONSUMERS ==> (reader matches Ok(r) && r.slot()
                == old(self)@.ring.readers()) && final(self)@ == (ChannelState {
                ring: old(self)@.ring.register(),
                ..old(self)@
            }),
            old(self)@.ring.readers() >= MAX_CONSUMERS ==> reader == Err::<Reader<T>, BondiError>(
                BondiError::NoReaderAvailable,
            ) && *final(self) == *old(self),
            old(self)@.ring.within_reach() && old(self)@.ring.written <= old(self)@.ring.capacity
                ==> final(self)@.ring.within_reach(),
    {
        match self.ring.new_consumer() {
            Ok(num_consumers) => Ok(Reader::new(num_consumers)),
            Err(e) => Err(e),
        }
    }

    /// The channel's ring, to look at.
    pub fn ring(&self) -> (ring: &Ring<T>)
        ensures
            *ring == self.spec_ring(),
    {
        &self.ring
    }

    /// Publishes `item` on the channel's ring on behalf of `writer`, unless
    /// the writer has to wait for the slowest reader; then the item comes
    /// back and the channel is as it was.
    pub fn write(&mut self, writer: &Writer<T>, item: T) -> (outcome: Result<(), T>)
        requires
            old(self).wf(),
            old(self)@.ring.written < usize::MAX,
        ensures
            final(self).wf(),
            final(self)@ == old(self)@.step(Call::OnRing(Step::Write(item))),
            old(self)@.ring.readers() == 0 ==> outcome is Ok,
            old(self)@.ring.writer_waits() ==> outcome == Err::<(), T>(item) && *final(self)
                == *old(self),
            !old(self)@.ring.writer_waits() ==> outcome == Ok::<(), T>(()) && final(self)@.ring
                == old(self)@.ring.insert(item),
            old(self)@.ring.within_reach() ==> final(self)@.ring.within_reach(),
    {
        writer.write(&mut self.ring, item)
    }

    /// Hands `reader` a copy of the next value of the channel's ring that it
    /// has not consumed, unless it has consumed all that was published; then
    /// there is nothing to hand out and the channel is as it was.
    pub fn read(&mut self, reader: &Reader<T>) -> (value: Option<T>)
        requires
            old(self).wf(),
            reader.slot() < old(self)@.ring.readers(),
        ensures
            final(self).wf(),
            final(self)@ == old(self)@.step(Call::OnRing(Step::Read(reader.slot() as int))),
            old(self)@.ring.reader_waits(reader.slot() as int) ==> value is None && *final(self)
                == *old(self),
            !old(self)@.ring.reader_waits(reader.slot() as int) ==> final(self)@.ring == old(
                self,
            )@.ring.advance(reader.slot() as int),
            !old(self)@.ring.reader_waits(reader.slot() as int) ==> (value matches Some(v)
                && cloned(old(self)@.ring.front(reader.slot() as int), v)),
            old(self)@.ring.within_reach() ==> final(self)@.ring.within_reach(),
    {
        reader.read(&mut self.ring)
    }
}

} // verus!
