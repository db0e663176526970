use vstd::prelude::*;

verus! {

/// The number of reader slots that every ring holds.
pub const MAX_CONSUMERS: usize = 100;

/// What a ring is, as mathematics: how many slots it has, what they hold, how
/// many values the writer has published and how many each reader has consumed.
///
/// The counters never wrap. A counter is turned into a slot number by taking
/// it modulo the capacity.
#[verifier::ext_equal]
pub struct RingState<T> {
    /// The number of slots.
    pub capacity: nat,
    /// The contents of the slots that have been written at least once.
    pub slots: Seq<T>,
    /// The number of values ever published.
    pub written: nat,
    /// For each registered reader, the number of values it has consumed.
    pub progress: Seq<nat>,
}

impl<T> RingState<T> {
    /// The ring of `capacity` slots before anything has happened to it.
    pub open spec fn fresh(capacity: nat) -> Self {
        RingState { capacity, slots: Seq::empty(), written: 0, progress: Seq::empty() }
    }

    /// The number of slots that hold a value: all of them from the end of
    /// the first lap on.
    pub open spec fn filled(self) -> nat {
        if self.written < self.capacity {
            self.written
        } else {
            self.capacity
        }
    }

    /// The shape that every reachable state has.
    pub open spec fn wf(self) -> bool {
        &&& self.capacity > 0
        &&& self.slots.len() == self.filled()
        &&& self.progress.len() <= MAX_CONSUMERS
        &&& forall|i: int| 0 <= i < self.progress.len() ==> self.progress[i] <= self.written
    }

    /// The number of registered readers.
    pub open spec fn readers(self) -> nat {
        self.progress.len()
    }

    /// `p` is the progress of a reader that no other reader is behind.
    pub open spec fn is_slowest(self, p: nat) -> bool {
        &&& exists|i: int| 0 <= i < self.progress.len() && self.progress[i] == p
        &&& forall|i: int| 0 <= i < self.progress.len() ==> p <= self.progress[i]
    }

    /// The progress of the slowest reader. It means something only while a
    /// reader is registered.
    pub open spec fn slowest(self) -> nat {
        choose|p: nat| self.is_slowest(p)
    }

    /// The slot that the next value goes to.
    pub open spec fn write_slot(self) -> int {
        (self.written % self.capacity) as int
    }

    /// No reader is more than a lap behind the writer: every value that a
    /// reader has yet to consume is still in its slot.
    pub open spec fn within_reach(self) -> bool {
        forall|r: int|
            0 <= r < self.readers() ==> self.written <= #[trigger] self.progress[r]
                + self.capacity
    }

    /// The writer has to wait: it is a whole lap ahead of the slowest
    /// reader, so that the slot it would write next holds a value that this
    /// reader has not consumed yet.
    pub open spec fn writer_waits(self) -> bool {
        &&& self.readers() > 0
        &&& self.written >= self.slowest() + self.capacity
    }

    /// The state after the writer has published `value`.
    pub open spec fn insert(self, value: T) -> Self {
        RingState {
            slots: if self.written < self.capacity {
                self.slots.push(value)
            } else {
                self.slots.update(self.write_slot(), value)
            },
            written: self.written + 1,
            ..self
        }
    }

    /// The reader has consumed everything published so far and has to wait.
    pub open spec fn reader_waits(self, reader: int) -> bool {
        self.progress[reader] == self.written
    }

    /// The slot that `reader` consumes next.
    pub open spec fn read_slot(self, reader: int) -> int {
        (self.progress[reader] % self.capacity) as int
    }

    /// The value that `reader` consumes next.
    pub open spec fn front(self, reader: int) -> T {
        self.slots[self.read_slot(reader)]
    }

    /// The state after `reader` has consumed one value.
    pub open spec fn advance(self, reader: int) -> Self {
        RingState { progress: self.progress.update(reader, self.progress[reader] + 1), ..self }
    }

    /// The state after one more reader has registered. It starts with
    /// nothing consumed.
    pub open spec fn register(self) -> Self {
        RingState { progress: self.progress.push(0), ..self }
    }

    /// While a reader is registered, one of the readers is the slowest.
    pub proof fn lemma_slowest_exists(self)
        requires
            self.readers() > 0,
        ensures
            self.is_slowest(self.slowest()),
    {
        let least = least_of(self.progress);
        lemma_least_of(self.progress);
        assert(self.is_slowest(least));
    }

    /// There is one slowest progress only.
    pub proof fn lemma_slowest_unique(self, p: nat)
        requires
            self.is_slowest(p),
        ensures
            self.slowest() == p,
    {
        let q = self.slowest();
        assert(self.is_slowest(q));
    }

    /// No reader is behind the slowest, and the slowest is not ahead of the
    /// writer.
    pub proof fn lemma_slowest_bounds(self)
        requires
            self.wf(),
            self.readers() > 0,
        ensures
            self.slowest() <= self.written,
            forall|i: int| 0 <= i < self.progress.len() ==> self.slowest() <= self.progress[i],
    {
        self.lemma_slowest_exists();
    }

    /// Publishing a value puts it into the slot of its number and leaves
    /// every other slot as it is.
    pub proof fn lemma_insert_fills_slot(self, value: T)
        requires
            self.wf(),
        ensures
            self.insert(value).wf(),
            0 <= self.write_slot() < self.insert(value).slots.len(),
            self.insert(value).slots[self.write_slot()] == value,
            forall|j: int|
                0 <= j < self.slots.len() && j != self.write_slot() ==> self.insert(
                    value,
                ).slots[j] == self.slots[j],
    {
        vstd::arithmetic::div_mod::lemma_mod_bound(self.written as int, self.capacity as int);
        if self.written < self.capacity {
            vstd::arithmetic::div_mod::lemma_small_mod(self.written, self.capacity);
        }
    }
}

/// What a channel is, as mathematics: its ring, and whether its one writer
/// has been handed out.
#[verifier::ext_equal]
pub struct ChannelState<T> {
    /// The ring that the channel's handles work on.
    pub ring: RingState<T>,
    /// Whether the writer has been handed out.
    pub writer_issued: bool,
}

impl<T> ChannelState<T> {
    /// The channel of `capacity` slots before anything has happened to it.
    pub open spec fn fresh(capacity: nat) -> Self {
        ChannelState { ring: RingState::fresh(capacity), writer_issued: false }
    }

    /// The shape that every reachable state has.
    pub open spec fn wf(self) -> bool {
        self.ring.wf()
    }
}

/// The least element of a sequence, found from the front; 0 where there is
/// none.
spec fn least_of(s: Seq<nat>) -> nat
    decreases s.len(),
{
    if s.len() == 0 {
        0
    } else if s.len() == 1 {
        s[0]
    } else {
        let rest = least_of(s.drop_last());
        if s.last() < rest {
            s.last()
        } else {
            rest
        }
    }
}

/// `least_of` gives an element of the sequence, and none is less.
proof fn lemma_least_of(s: Seq<nat>)
    requires
        s.len() > 0,
    ensures
        exists|i: int| 0 <= i < s.len() && s[i] == least_of(s),
        forall|i: int| 0 <= i < s.len() ==> least_of(s) <= s[i],
    decreases s.len(),
{
    if s.len() == 1 {
        assert(s[0] == least_of(s));
    } else {
        let front = s.drop_last();
        lemma_least_of(front);
        let w = choose|i: int| 0 <= i < front.len() && front[i] == least_of(front);
        if s.last() < least_of(front) {
            assert(s[s.len() - 1] == least_of(s));
        } else {
            assert(s[w] == least_of(s));
        }
        assert forall|i: int| 0 <= i < s.len() implies least_of(s) <= s[i] by {
            if i < front.len() {
                assert(front[i] == s[i]);
            }
        }
    }
}

} // verus!
