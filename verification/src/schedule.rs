use vstd::prelude::*;

use crate::model::ChannelState;
use crate::model::RingState;
use crate::model::MAX_CONSUMERS;

verus! {

/// One call on a ring.
pub enum Step<T> {
    /// A reader is registered.
    Register,
    /// The writer offers a value.
    Write(T),
    /// The reader of a slot asks for its next value.
    Read(int),
}

/// One call on a channel.
pub enum Call<T> {
    /// The writer is asked for.
    TakeWriter,
    /// A call that goes on to the channel's ring.
    OnRing(Step<T>),
}

impl<T> RingState<T> {
    /// Whether `step` takes effect in this state. A step that does not is a
    /// call that fails or has to wait: it leaves the state as it is.
    pub open spec fn accepts(self, step: Step<T>) -> bool {
        match step {
            Step::Register => self.readers() < MAX_CONSUMERS,
            Step::Write(_) => !self.writer_waits(),
            Step::Read(reader) => 0 <= reader < self.readers() && !self.reader_waits(reader),
        }
    }

    /// The state after `step`.
    pub open spec fn step(self, step: Step<T>) -> Self {
        if !self.accepts(step) {
            self
        } else {
            match step {
                Step::Register => self.register(),
                Step::Write(value) => self.insert(value),
                Step::Read(reader) => self.advance(reader),
            }
        }
    }

    /// The state after the steps of `steps`, taken one after the other.
    pub open spec fn run(self, steps: Seq<Step<T>>) -> Self
        decreases steps.len(),
    {
        if steps.len() == 0 {
            self
        } else {
            self.run(steps.drop_last()).step(steps.last())
        }
    }

    /// The values that the writer published in the course of `steps`, in
    /// the order in which it published them.
    pub open spec fn sent(self, steps: Seq<Step<T>>) -> Seq<T>
        decreases steps.len(),
    {
        if steps.len() == 0 {
            Seq::empty()
        } else {
            let before = self.run(steps.drop_last());
            let earlier = self.sent(steps.drop_last());
            match steps.last() {
                Step::Write(value) => if before.accepts(steps.last()) {
                    earlier.push(value)
                } else {
                    earlier
                },
                _ => earlier,
            }
        }
    }

    /// The values that were handed to the reader of slot `reader` in the
    /// course of `steps`, in the order in which it got them.
    pub open spec fn received(self, steps: Seq<Step<T>>, reader: int) -> Seq<T>
        decreases steps.len(),
    {
        if steps.len() == 0 {
            Seq::empty()
        } else {
            let before = self.run(steps.drop_last());
            let earlier = self.received(steps.drop_last(), reader);
            match steps.last() {
                Step::Read(r) => if r == reader && before.accepts(steps.last()) {
                    earlier.push(before.front(reader))
                } else {
                    earlier
                },
                _ => earlier,
            }
        }
    }

    /// The slot that step number `k` of `steps` handed to a new reader, if
    /// it handed one out.
    pub open spec fn granted(self, steps: Seq<Step<T>>, k: int) -> Option<nat> {
        let before = self.run(steps.take(k));
        if 0 <= k < steps.len() && steps[k] is Register && before.accepts(steps[k]) {
            Some(before.readers())
        } else {
            None
        }
    }

    /// Every step leads from a well-formed state to a well-formed state. It
    /// keeps the capacity, and takes neither a reader nor a published value
    /// away.
    pub proof fn lemma_step_wf(self, step: Step<T>)
        requires
            self.wf(),
        ensures
            self.step(step).wf(),
            self.step(step).capacity == self.capacity,
            self.step(step).readers() >= self.readers(),
            self.step(step).written >= self.written,
    {
    }

    /// No step puts a reader more than a lap behind the writer, as long as
    /// no reader joins after the first lap: the writer waits rather than
    /// write over a value that a reader has yet to consume.
    pub proof fn lemma_step_keeps_reach(self, step: Step<T>)
        requires
            self.wf(),
            self.within_reach(),
            step is Register ==> self.written <= self.capacity,
        ensures
            self.step(step).within_reach(),
    {
        let after = self.step(step);
        if step is Write && self.accepts(step) && self.readers() > 0 {
            self.lemma_slowest_bounds();
        }
        assert forall|r: int| 0 <= r < after.readers() implies after.written
            <= #[trigger] after.progress[r] + after.capacity by {
            if r < self.readers() {
                assert(self.written <= self.progress[r] + self.capacity);
            }
        }
    }

    /// Every run leads from a well-formed state to a well-formed state. It
    /// keeps the capacity, and takes neither a reader nor a published value
    /// away.
    pub proof fn lemma_run_wf(self, steps: Seq<Step<T>>)
        requires
            self.wf(),
        ensures
            self.run(steps).wf(),
            self.run(steps).capacity == self.capacity,
            self.run(steps).readers() >= self.readers(),
            self.run(steps).written >= self.written,
        decreases steps.len(),
    {
        if steps.len() > 0 {
            self.lemma_run_wf(steps.drop_last());
            self.run(steps.drop_last()).lemma_step_wf(steps.last());
        }
    }

    /// A run can be taken in two parts.
    pub proof fn lemma_run_split(self, first: Seq<Step<T>>, second: Seq<Step<T>>)
        ensures
            self.run(first + second) == self.run(first).run(second),
        decreases second.len(),
    {
        if second.len() == 0 {
            assert(first + second =~= first);
        } else {
            assert((first + second).drop_last() =~= first + second.drop_last());
            assert((first + second).last() == second.last());
            self.lemma_run_split(first, second.drop_last());
        }
    }
}

impl<T> ChannelState<T> {
    /// Whether `call` takes effect in this state.
    pub open spec fn accepts(self, call: Call<T>) -> bool {
        match call {
            Call::TakeWriter => !self.writer_issued,
            Call::OnRing(step) => self.ring.accepts(step),
        }
    }

    /// The state after `call`.
    pub open spec fn step(self, call: Call<T>) -> Self {
        match call {
            Call::TakeWriter => ChannelState { writer_issued: true, ..self },
            Call::OnRing(step) => ChannelState { ring: self.ring.step(step), ..self },
        }
    }

    /// The state after the calls of `calls`, made one after the other.
    pub open spec fn run(self, calls: Seq<Call<T>>) -> Self
        decreases calls.len(),
    {
        if calls.len() == 0 {
            self
        } else {
            self.run(calls.drop_last()).step(calls.last())
        }
    }

    /// How many times the writer was handed out in the course of `calls`.
    pub open spec fn writers_issued(self, calls: Seq<Call<T>>) -> nat
        decreases calls.len(),
    {
        if calls.len() == 0 {
            0
        } else {
            let before = self.run(calls.drop_last());
            let earlier = self.writers_issued(calls.drop_last());
            if calls.last() is TakeWriter && before.accepts(calls.last()) {
                earlier + 1
            } else {
                earlier
            }
        }
    }
}

} // verus!
