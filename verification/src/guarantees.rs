use vstd::prelude::*;

use crate::model::ChannelState;
use crate::model::RingState;
use crate::model::MAX_CONSUMERS;
use crate::schedule::Call;
use crate::schedule::Step;

verus! {

/// The values that the Write steps of `steps` offer, in their order.
pub open spec fn offered<T>(steps: Seq<Step<T>>) -> Seq<T>
    decreases steps.len(),
{
    if steps.len() == 0 {
        Seq::empty()
    } else {
        match steps.last() {
            Step::Write(value) => offered(steps.drop_last()).push(value),
            _ => offered(steps.drop_last()),
        }
    }
}

/// The number of Register steps in `steps`.
pub open spec fn registrations<T>(steps: Seq<Step<T>>) -> nat
    decreases steps.len(),
{
    if steps.len() == 0 {
        0
    } else if steps.last() is Register {
        registrations(steps.drop_last()) + 1
    } else {
        registrations(steps.drop_last())
    }
}

/// A channel hands out its writer at most once, whatever is called on it and
/// in whatever order: from a channel that has not handed it out, the first
/// call that asks for the writer gets it and no later one does; from a
/// channel that has, none does.
pub proof fn lemma_writer_handed_out_once<T>(c: ChannelState<T>, calls: Seq<Call<T>>)
    ensures
        c.writers_issued(calls) <= 1,
        c.writer_issued ==> c.writers_issued(calls) == 0,
        !c.writer_issued ==> (c.writers_issued(calls) == 1 <==> exists|k: int|
            0 <= k < calls.len() && calls[k] is TakeWriter),
        c.run(calls).writer_issued <==> c.writer_issued || c.writers_issued(calls) == 1,
    decreases calls.len(),
{
    if calls.len() > 0 {
        let earlier = calls.drop_last();
        lemma_writer_handed_out_once(c, earlier);
        if exists|k: int| 0 <= k < earlier.len() && earlier[k] is TakeWriter {
            let k = choose|k: int| 0 <= k < earlier.len() && earlier[k] is TakeWriter;
            assert(calls[k] is TakeWriter);
        }
        if calls.last() is TakeWriter {
            assert(calls[calls.len() - 1] is TakeWriter);
        } else if exists|k: int| 0 <= k < calls.len() && calls[k] is TakeWriter {
            let k = choose|k: int| 0 <= k < calls.len() && calls[k] is TakeWriter;
            assert(earlier[k] is TakeWriter);
        }
    }
}

/// Two steps of one run that each hand a slot to a new reader hand out
/// different slots, and every slot handed out lies below the bound.
pub proof fn lemma_reader_slots_distinct<T>(
    ring: RingState<T>,
    steps: Seq<Step<T>>,
    j: int,
    k: int,
)
    requires
        ring.wf(),
        j < k,
        ring.granted(steps, j) is Some,
        ring.granted(steps, k) is Some,
    ensures
        ring.granted(steps, j)->0 < ring.granted(steps, k)->0 < MAX_CONSUMERS,
{
    let upto = steps.take(j + 1);
    let rest = steps.subrange(j + 1, k);
    assert(steps.take(k) =~= upto + rest);
    assert(upto.drop_last() =~= steps.take(j));
    assert(upto.last() == steps[j]);
    ring.lemma_run_wf(steps.take(j));
    ring.lemma_run_wf(upto);
    ring.lemma_run_split(upto, rest);
    ring.run(upto).lemma_run_wf(rest);
}

/// From a fresh ring, the registrations succeed up to the bound and no
/// further: after any run the number of readers is the number of
/// registrations that were asked for, or the bound where more were asked for.
pub proof fn lemma_registrations_up_to_bound<T>(capacity: nat, steps: Seq<Step<T>>)
    ensures
        RingState::<T>::fresh(capacity).run(steps).readers() == if registrations(steps)
            < MAX_CONSUMERS {
            registrations(steps)
        } else {
            MAX_CONSUMERS as nat
        },
    decreases steps.len(),
{
    if steps.len() > 0 {
        lemma_registrations_up_to_bound(capacity, steps.drop_last());
    }
}

/// Without a registered reader the writer never waits: in a run that
/// registers none, every value that is offered is published.
pub proof fn lemma_writer_free_without_readers<T>(ring: RingState<T>, steps: Seq<Step<T>>)
    requires
        ring.readers() == 0,
        forall|k: int| 0 <= k < steps.len() ==> !(steps[k] is Register),
    ensures
        ring.run(steps).readers() == 0,
        !ring.run(steps).writer_waits(),
        ring.sent(steps) == offered(steps),
    decreases steps.len(),
{
    if steps.len() > 0 {
        let earlier = steps.drop_last();
        assert forall|k: int| 0 <= k < earlier.len() implies !(earlier[k] is Register) by {
            assert(earlier[k] == steps[k]);
        }
        lemma_writer_free_without_readers(ring, earlier);
        assert(!(steps[steps.len() - 1] is Register));
    }
}

/// In a ring in which no reader is more than a lap behind, the writer waits
/// exactly when it is one whole lap ahead of the slowest reader. While that
/// reader is in its first lap, this is to say that the writer is ahead of it
/// and that the slot to be written next bears the reader's count as its
/// number.
pub proof fn lemma_wait_by_slot_number<T>(ring: RingState<T>)
    requires
        ring.wf(),
        ring.readers() > 0,
        ring.within_reach(),
    ensures
        ring.writer_waits() <==> ring.written == ring.slowest() + ring.capacity,
        ring.slowest() < ring.capacity ==> (ring.writer_waits() <==> ring.written > 0
            && ring.write_slot() == ring.slowest() && ring.written > ring.slowest()),
{
    ring.lemma_slowest_exists();
    let slowest = ring.slowest();
    let capacity = ring.capacity;
    let i = choose|i: int| 0 <= i < ring.progress.len() && ring.progress[i] == slowest;
    assert(ring.written <= ring.progress[i] + capacity);
    if slowest < capacity {
        vstd::arithmetic::div_mod::lemma_small_mod(slowest, capacity);
        if ring.written == slowest + capacity {
            vstd::arithmetic::div_mod::lemma_mod_add_multiples_vanish(
                slowest as int,
                capacity as int,
            );
        } else if ring.written > slowest {
            vstd::arithmetic::div_mod::lemma_mod_equivalence(
                ring.written as int,
                slowest as int,
                capacity as int,
            );
            vstd::arithmetic::div_mod::lemma_small_mod(
                (ring.written - slowest) as nat,
                capacity,
            );
        }
    }
}

/// The steps that offer the values of `values` one after the other.
pub open spec fn writes<T>(values: Seq<T>) -> Seq<Step<T>> {
    Seq::new(values.len(), |k: int| Step::Write(values[k]))
}

/// One reader that never reads stalls the writer after one lap. With a
/// single reader registered on a fresh ring and nothing consumed, the
/// writer publishes as many values as there are slots and then waits, however
/// often it tries; as soon as the reader has consumed one value the writer
/// is free again.
pub proof fn lemma_idle_reader_stalls_writer<T>(capacity: nat, values: Seq<T>)
    requires
        capacity > 0,
    ensures
        ({
            let start = RingState::<T>::fresh(capacity).step(Step::Register);
            let end = start.run(writes(values));
            let room = if values.len() <= capacity {
                values.len()
            } else {
                capacity
            };
            &&& start.sent(writes(values)) == values.take(room as int)
            &&& end.written == room
            &&& end.progress == seq![0nat]
            &&& end.writer_waits() <==> values.len() >= capacity
            &&& values.len() >= capacity ==> end.accepts(Step::Read(0)) && !end.step(
                Step::Read(0),
            ).writer_waits()
        }),
    decreases values.len(),
{
    let start = RingState::<T>::fresh(capacity).step(Step::Register);
    let steps = writes(values);
    let end = start.run(steps);
    assert(start.progress =~= seq![0nat]);
    if values.len() == 0 {
        assert(start.sent(steps) =~= values.take(0));
    } else {
        let fewer = values.drop_last();
        lemma_idle_reader_stalls_writer(capacity, fewer);
        assert(steps.drop_last() =~= writes(fewer));
        assert(steps.last() == Step::Write(values.last()));
        let before = start.run(writes(fewer));
        assert(before.progress[0] == 0);
        if fewer.len() >= capacity {
            assert(values.take(capacity as int) =~= fewer.take(capacity as int));
        } else {
            assert(values.take(values.len() as int) =~= fewer.take(fewer.len() as int).push(
                values.last(),
            ));
        }
    }
    start.lemma_run_wf(steps);
    assert(end.progress[0] == 0);
    assert(end.is_slowest(0));
    end.lemma_slowest_unique(0);
    if end.written >= capacity {
        let after = end.step(Step::Read(0));
        assert(after.progress[0] == 1);
        assert(after.is_slowest(1));
        after.lemma_slowest_unique(1);
    }
}

impl<T> RingState<T> {
    /// Every reader that joins in the course of `steps` joins during the
    /// writer's first lap: while no more values have been published than
    /// there are slots.
    pub open spec fn joins_early(self, steps: Seq<Step<T>>) -> bool {
        forall|k: int|
            0 <= k < steps.len() && steps[k] is Register ==> self.run(
                #[trigger] steps.take(k),
            ).written <= self.capacity
    }

    /// Every value of `history` that is less than a lap old stands in the
    /// slot of its number.
    pub open spec fn holds_latest(self, history: Seq<T>) -> bool {
        &&& self.wf()
        &&& self.written == history.len()
        &&& forall|k: int|
            0 <= k < self.written && self.written <= k + self.capacity ==> self.slots[k % (
            self.capacity as int)] == #[trigger] history[k]
    }
}

/// Two counts less than a lap apart belong to different slots.
proof fn lemma_slots_differ(k: int, w: int, capacity: int)
    requires
        0 <= k < w < k + capacity,
    ensures
        k % capacity != w % capacity,
{
    vstd::arithmetic::div_mod::lemma_mod_equivalence(w, k, capacity);
    vstd::arithmetic::div_mod::lemma_small_mod((w - k) as nat, capacity as nat);
}

/// Publishing a value keeps the latest values in their slots.
proof fn lemma_insert_holds_latest<T>(ring: RingState<T>, history: Seq<T>, value: T)
    requires
        ring.holds_latest(history),
    ensures
        ring.insert(value).holds_latest(history.push(value)),
{
    let w = ring.written as int;
    let cap = ring.capacity as int;
    let after = ring.insert(value);
    let longer = history.push(value);
    ring.lemma_insert_fills_slot(value);
    assert forall|k: int| 0 <= k < after.written && after.written <= k + cap implies after.slots[k
        % cap] == #[trigger] longer[k] by {
        vstd::arithmetic::div_mod::lemma_mod_bound(k, cap);
        if k < w {
            lemma_slots_differ(k, w, cap);
            if w < cap {
                vstd::arithmetic::div_mod::lemma_small_mod(k as nat, cap as nat);
            }
            assert(ring.slots[k % cap] == history[k]);
        }
    }
}

/// The slots hold what was published last. From a fresh ring, after any
/// run, every published value that is less than a lap old stands in the slot
/// of its number.
pub proof fn lemma_run_holds_latest<T>(capacity: nat, steps: Seq<Step<T>>)
    requires
        capacity > 0,
    ensures
        ({
            let ring = RingState::<T>::fresh(capacity);
            &&& ring.run(steps).holds_latest(ring.sent(steps))
            &&& ring.run(steps).capacity == capacity
        }),
    decreases steps.len(),
{
    let ring = RingState::<T>::fresh(capacity);
    if steps.len() > 0 {
        lemma_run_holds_latest(capacity, steps.drop_last());
        let before = ring.run(steps.drop_last());
        before.lemma_step_wf(steps.last());
        match steps.last() {
            Step::Write(value) => {
                if before.accepts(steps.last()) {
                    lemma_insert_holds_latest(before, ring.sent(steps.drop_last()), value);
                }
            },
            _ => {},
        }
    }
}

/// What holds of a run holds of its beginning: the readers of the shorter
/// run join early too.
proof fn lemma_joins_early_before<T>(ring: RingState<T>, steps: Seq<Step<T>>)
    requires
        steps.len() > 0,
        ring.joins_early(steps),
    ensures
        ring.joins_early(steps.drop_last()),
        steps.last() is Register ==> ring.run(steps.drop_last()).written <= ring.capacity,
{
    let earlier = steps.drop_last();
    assert forall|k: int| 0 <= k < earlier.len() && earlier[k] is Register implies ring.run(
        #[trigger] earlier.take(k),
    ).written <= ring.capacity by {
        assert(earlier.take(k) =~= steps.take(k));
        assert(earlier[k] == steps[k]);
    }
    assert(steps.take(steps.len() - 1) =~= earlier);
}

/// The writer never laps a reader. From a fresh ring, after any run in
/// which the readers join during the writer's first lap, no reader is more
/// than a lap behind the writer: whatever a reader has yet to consume is
/// still in its slot.
pub proof fn lemma_writer_never_laps<T>(capacity: nat, steps: Seq<Step<T>>)
    requires
        capacity > 0,
        RingState::<T>::fresh(capacity).joins_early(steps),
    ensures
        RingState::<T>::fresh(capacity).run(steps).wf(),
        RingState::<T>::fresh(capacity).run(steps).within_reach(),
    decreases steps.len(),
{
    let ring = RingState::<T>::fresh(capacity);
    ring.lemma_run_wf(steps);
    if steps.len() > 0 {
        let earlier = steps.drop_last();
        lemma_joins_early_before(ring, steps);
        lemma_writer_never_laps(capacity, earlier);
        ring.lemma_run_wf(earlier);
        ring.run(earlier).lemma_step_keeps_reach(steps.last());
    }
}

/// From a fresh ring, in a run in which the readers join during the
/// writer's first lap, every reader has received the values that the writer
/// published, in the order in which it published them, as far as the reader
/// has come; a slot that no reader has taken has received nothing.
proof fn lemma_all_receive_in_order<T>(capacity: nat, steps: Seq<Step<T>>)
    requires
        capacity > 0,
        RingState::<T>::fresh(capacity).joins_early(steps),
    ensures
        ({
            let ring = RingState::<T>::fresh(capacity);
            let end = ring.run(steps);
            &&& forall|r: int|
                0 <= r < end.readers() ==> #[trigger] ring.received(steps, r) == ring.sent(
                    steps,
                ).take(end.progress[r] as int)
            &&& forall|r: int|
                !(0 <= r < end.readers()) ==> #[trigger] ring.received(steps, r) == Seq::<
                    T,
                >::empty()
        }),
    decreases steps.len(),
{
    let ring = RingState::<T>::fresh(capacity);
    let end = ring.run(steps);
    if steps.len() > 0 {
        let earlier = steps.drop_last();
        let before = ring.run(earlier);
        let history = ring.sent(earlier);
        lemma_joins_early_before(ring, steps);
        lemma_all_receive_in_order(capacity, earlier);
        lemma_writer_never_laps(capacity, earlier);
        lemma_run_holds_latest(capacity, earlier);
        lemma_run_holds_latest(capacity, steps);
        assert forall|r: int| 0 <= r < end.readers() implies #[trigger] ring.received(steps, r)
            == ring.sent(steps).take(end.progress[r] as int) by {
            if 0 <= r < before.readers() {
                assert(ring.received(earlier, r) == history.take(before.progress[r] as int));
            } else {
                assert(ring.received(earlier, r) == Seq::<T>::empty());
            }
            match steps.last() {
                Step::Write(value) => {
                    if before.accepts(steps.last()) {
                        assert(history.push(value).take(before.progress[r] as int)
                            =~= history.take(before.progress[r] as int));
                    }
                },
                Step::Read(reader) => {
                    if reader == r && before.accepts(steps.last()) {
                        let p = before.progress[r] as int;
                        assert(before.written <= before.progress[r] + before.capacity);
                        assert(before.front(r) == history[p]);
                        assert(history.take(p).push(history[p]) =~= history.take(p + 1));
                    }
                },
                Step::Register => {
                    if before.accepts(steps.last()) && r == before.readers() {
                        assert(ring.sent(steps).take(0) =~= Seq::<T>::empty());
                    }
                },
            }
        }
        assert forall|r: int| !(0 <= r < end.readers()) implies #[trigger] ring.received(
            steps,
            r,
        ) == Seq::<T>::empty() by {
            before.lemma_step_wf(steps.last());
            assert(ring.received(earlier, r) == Seq::<T>::empty());
        }
    }
}

/// Every reader receives every value that the writer published, in the
/// order in which it published them, none left out and none twice. From a
/// fresh ring, after any run in which the readers join during the writer's
/// first lap, what a reader has received is the front of what was published,
/// as long as the number of values that it has consumed; a reader that has
/// consumed as many values as were published has received them all.
pub proof fn lemma_readers_receive_in_order<T>(capacity: nat, steps: Seq<Step<T>>, reader: int)
    requires
        capacity > 0,
        RingState::<T>::fresh(capacity).joins_early(steps),
        0 <= reader < RingState::<T>::fresh(capacity).run(steps).readers(),
    ensures
        ({
            let ring = RingState::<T>::fresh(capacity);
            let consumed = ring.run(steps).progress[reader];
            &&& consumed <= ring.sent(steps).len()
            &&& ring.received(steps, reader) == ring.sent(steps).take(consumed as int)
            &&& consumed == ring.sent(steps).len() ==> ring.received(steps, reader) == ring.sent(
                steps,
            )
        }),
{
    let ring = RingState::<T>::fresh(capacity);
    lemma_all_receive_in_order(capacity, steps);
    lemma_run_holds_latest(capacity, steps);
    assert(ring.sent(steps).take(ring.sent(steps).len() as int) =~= ring.sent(steps));
}

} // verus!
