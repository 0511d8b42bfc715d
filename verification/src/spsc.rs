//! Single-producer, single-consumer ring buffer.
//!
//! The consumer alone moves the head and the producer alone moves the tail. An
//! index is a slot together with the parity of the laps made so far, so that a
//! full ring (`N` items apart) and an empty one (no items apart) never look
//! alike and no index can overflow, whatever the capacity.
use vstd::prelude::*;

verus! {

/// Marks a value as one that another thread writes.
#[derive(Debug)]
pub struct CachePadded<T> {
    pub value: T,
}

impl<T> CachePadded<T> {
    pub fn new(value: T) -> (padded: Self)
        ensures
            padded.value == value,
    {
        Self { value }
    }
}

/// Why a ring operation did not go through.
#[derive(Debug, Clone, Copy, PartialEq, Eq, Structural)]
pub enum SpscError {
    /// The ring is full (producer side).
    Full,
    /// The ring is empty (consumer side).
    Empty,
    /// A batch read asked for more items than the ring holds.
    InsufficientData,
}

/// A position in a ring: the slot, and whether the number of completed laps is
/// odd.
#[derive(Debug, Clone, Copy, PartialEq, Eq, Structural)]
pub struct RingIndex {
    pub slot: usize,
    pub lap: bool,
}

impl RingIndex {
    /// The position after `count` steps from the start of a ring of `capacity`
    /// slots.
    pub open spec fn at(count: nat, capacity: nat) -> RingIndex {
        RingIndex {
            slot: (count as int % capacity as int) as usize,
            lap: (count as int / capacity as int) % 2 == 1,
        }
    }

    /// The position names a slot of a ring of `capacity` slots.
    pub open spec fn in_range(self, capacity: nat) -> bool {
        self.slot < capacity || capacity == 0 && self.slot == 0 && !self.lap
    }

    /// How many items lie between `self`, the head, and `tail`.
    pub open spec fn items_to(self, tail: RingIndex, capacity: nat) -> int {
        if self.lap == tail.lap {
            tail.slot - self.slot
        } else {
            capacity - self.slot + tail.slot
        }
    }

    /// The slot `offset` steps on, for an `offset` below the capacity.
    pub open spec fn slot_after(self, offset: int, capacity: nat) -> int {
        if self.slot + offset >= capacity {
            self.slot + offset - capacity
        } else {
            self.slot + offset
        }
    }

    /// The position one step on.
    pub open spec fn next(self, capacity: nat) -> RingIndex {
        if self.slot + 1 == capacity {
            RingIndex { slot: 0, lap: !self.lap }
        } else {
            RingIndex { slot: (self.slot + 1) as usize, lap: self.lap }
        }
    }

    /// The first position of every ring.
    pub fn start() -> (index: RingIndex)
        ensures
            index == (RingIndex { slot: 0, lap: false }),
    {
        RingIndex { slot: 0, lap: false }
    }

    /// Counts the items between `self`, the head, and `tail`.
    pub fn distance(self, tail: RingIndex, capacity: usize) -> (items: usize)
        requires
            self.in_range(capacity as nat),
            tail.in_range(capacity as nat),
            0 <= self.items_to(tail, capacity as nat) <= capacity,
        ensures
            items == self.items_to(tail, capacity as nat),
            self.lap == tail.lap ==> items == tail.slot - self.slot,
            self.lap != tail.lap ==> items == tail.slot + capacity - self.slot,
    {
        if self.lap == tail.lap {
            tail.slot - self.slot
        } else {
            capacity - self.slot + tail.slot
        }
    }

    /// Moves one step on.
    pub fn advance(self, capacity: usize) -> (index: RingIndex)
        requires
            self.slot < capacity,
        ensures
            index == self.next(capacity as nat),
            index.in_range(capacity as nat),
            self.slot + 1 < capacity ==> index.slot == self.slot + 1 && index.lap == self.lap,
            self.slot + 1 == capacity ==> index.slot == 0 && index.lap != self.lap,
    {
        if self.slot + 1 == capacity {
            RingIndex { slot: 0, lap: !self.lap }
        } else {
            RingIndex { slot: self.slot + 1, lap: self.lap }
        }
    }
}

/// A ring of `N` slots between one producer and one consumer.
///
/// The view of a ring is the sequence of the items in it, oldest first.
pub struct SpscRing<T, const N: usize> {
    /// Where the consumer reads next.
    head: CachePadded<RingIndex>,
    /// Where the producer writes next.
    tail: CachePadded<RingIndex>,
    buf: Vec<Option<T>>,
}

impl<T, const N: usize> View for SpscRing<T, N> {
    type V = Seq<T>;

    closed spec fn view(&self) -> Seq<T> {
        Seq::new(
            self.head.value.items_to(self.tail.value, N as nat) as nat,
            |i: int| self.buf@[self.head.value.slot_after(i, N as nat)]->0,
        )
    }
}

impl<T, const N: usize> SpscRing<T, N> {
    /// The indices are in range and at most `N` items apart, and every slot
    /// between them holds an item.
    pub closed spec fn wf(&self) -> bool {
        &&& self.buf@.len() == N
        &&& self.head.value.in_range(N as nat)
        &&& self.tail.value.in_range(N as nat)
        &&& 0 <= self.head.value.items_to(self.tail.value, N as nat) <= N
        &&& forall|i: int|
            #![trigger self.buf@[self.head.value.slot_after(i, N as nat)]]
            0 <= i < self.head.value.items_to(self.tail.value, N as nat)
                ==> self.buf@[self.head.value.slot_after(i, N as nat)] is Some
    }

    /// An empty ring.
    pub fn new() -> (ring: Self)
        ensures
            ring.wf(),
            ring@ == Seq::<T>::empty(),
    {
        let mut buf: Vec<Option<T>> = Vec::with_capacity(N);
        while buf.len() < N
            invariant
                buf@.len() <= N,
            decreases N - buf@.len(),
        {
            buf.push(None);
        }
        Self {
            head: CachePadded::new(RingIndex::start()),
            tail: CachePadded::new(RingIndex::start()),
            buf,
        }
    }

    pub fn capacity(&self) -> (capacity: usize)
        ensures
            capacity == N,
    {
        N
    }

    pub fn len(&self) -> (len: usize)
        requires
            self.wf(),
        ensures
            len == self@.len(),
            len <= N,
    {
        self.head.value.distance(self.tail.value, N)
    }

    pub fn is_empty(&self) -> (empty: bool)
        requires
            self.wf(),
        ensures
            empty == (self@.len() == 0),
    {
        self.len() == 0
    }

    /// The number of items that can still be pushed.
    pub fn capacity_left(&self) -> (left: usize)
        requires
            self.wf(),
        ensures
            left == N - self@.len(),
    {
        N - self.len()
    }

    /// The end that writes.
    pub fn producer(&mut self) -> (producer: Producer<'_, T, N>)
        ensures
            *producer.ring == *old(self),
            *final(producer.ring) == *final(self),
    {
        Producer { ring: self }
    }

    /// The end that reads.
    pub fn consumer(&mut self) -> (consumer: Consumer<'_, T, N>)
        ensures
            *consumer.ring == *old(self),
            *final(consumer.ring) == *final(self),
    {
        Consumer { ring: self }
    }
}

impl<T, const N: usize> Default for SpscRing<T, N> {
    fn default() -> (ring: Self)
        ensures
            ring.wf(),
            ring@ == Seq::<T>::empty(),
    {
        Self::new()
    }
}

/// The items of a ring of `capacity` slots after `value` has been pushed.
pub open spec fn pushed<T>(items: Seq<T>, value: T, capacity: nat) -> Seq<T> {
    if items.len() < capacity {
        items.push(value)
    } else {
        items
    }
}

/// The items of a ring after one has been popped.
pub open spec fn popped<T>(items: Seq<T>) -> Seq<T> {
    if items.len() > 0 {
        items.skip(1)
    } else {
        items
    }
}

/// The writing end of a ring.
pub struct Producer<'a, T, const N: usize> {
    pub ring: &'a mut SpscRing<T, N>,
}

impl<'a, T, const N: usize> Producer<'a, T, N> {
    /// Appends `value`, or hands it back when the ring is full.
    pub fn push(&mut self, value: T) -> (result: Result<(), T>)
        requires
            old(self).ring.wf(),
        ensures
            final(self).ring.wf(),
            *final(final(self).ring) == *final(old(self).ring),
            result == if old(self).ring@.len() < N {
                Ok(())
            } else {
                Err(value)
            },
            final(self).ring@ == pushed(old(self).ring@, value, N as nat),
            old(self).ring@.len() < N ==> final(self).ring@ == old(self).ring@.push(value),
            old(self).ring@.len() >= N ==> final(self).ring@ == old(self).ring@,
    {
        let tail = self.ring.tail.value;
        let head = self.ring.head.value;
        if head.distance(tail, N) == N {
            return Err(value);
        }
        self.ring.buf[tail.slot] = Some(value);
        self.ring.tail.value = tail.advance(N);
        assert(self.ring@ =~= old(self).ring@.push(value));
        Ok(())
    }
}

/// The reading end of a ring.
pub struct Consumer<'a, T, const N: usize> {
    pub ring: &'a mut SpscRing<T, N>,
}

impl<'a, T, const N: usize> Consumer<'a, T, N> {
    /// Takes the oldest item.
    pub fn pop(&mut self) -> (result: Option<T>)
        requires
            old(self).ring.wf(),
        ensures
            final(self).ring.wf(),
            *final(final(self).ring) == *final(old(self).ring),
            result == if old(self).ring@.len() > 0 {
                Some(old(self).ring@[0])
            } else {
                None
            },
            final(self).ring@ == popped(old(self).ring@),
            result matches Some(item) ==> seq![item] + final(self).ring@ == old(self).ring@,
            result is None ==> final(self).ring@ == old(self).ring@,
    {
        let head = self.ring.head.value;
        let tail = self.ring.tail.value;
        if head == tail {
            return None;
        }
        let value = self.ring.buf[head.slot].take();
        self.ring.head.value = head.advance(N);
        proof {
            let ring = *self.ring;
            assert forall|i: int|
                #![trigger ring.buf@[ring.head.value.slot_after(i, N as nat)]]
                0 <= i < ring.head.value.items_to(ring.tail.value, N as nat) implies
                ring.buf@[ring.head.value.slot_after(i, N as nat)] is Some by {
                assert(old(self).ring.buf@[head.slot_after(i + 1, N as nat)] is Some);
            }
            assert(self.ring@ =~= old(self).ring@.skip(1));
        }
        value
    }

    /// Takes all items, oldest first.
    pub fn drain(&mut self) -> (items: Vec<T>)
        requires
            old(self).ring.wf(),
        ensures
            final(self).ring.wf(),
            *final(final(self).ring) == *final(old(self).ring),
            items@ == old(self).ring@,
            final(self).ring@ == Seq::<T>::empty(),
    {
        let mut items: Vec<T> = Vec::with_capacity(self.ring.len());
        while self.ring.len() > 0
            invariant
                self.ring.wf(),
                *final(self.ring) == *final(old(self).ring),
                items@ + self.ring@ == old(self).ring@,
            decreases self.ring@.len(),
        {
            if let Some(item) = self.pop() {
                items.push(item);
            }
        }
        items
    }

    /// Copies the oldest `M` items into `dst` and takes them off the ring. When
    /// there are fewer, neither is touched.
    pub fn pop_slice_copy<const M: usize>(&mut self, dst: &mut [T; M]) -> (result: Result<
        (),
        SpscError,
    >) where T: Copy
        requires
            old(self).ring.wf(),
        ensures
            final(self).ring.wf(),
            *final(final(self).ring) == *final(old(self).ring),
            old(self).ring@.len() < M ==> result == Err::<(), SpscError>(
                SpscError::InsufficientData,
            ) && final(self).ring@ == old(self).ring@ && final(dst)@ == old(dst)@,
            old(self).ring@.len() >= M ==> result == Ok::<(), SpscError>(()) && final(self).ring@
                == old(self).ring@.skip(M as int) && final(dst)@ == old(self).ring@.take(M as int),
    {
        if self.ring.len() < M {
            return Err(SpscError::InsufficientData);
        }
        let mut i: usize = 0;
        while i < M
            invariant
                i <= M,
                M <= old(self).ring@.len(),
                self.ring.wf(),
                *final(self.ring) == *final(old(self).ring),
                self.ring@ == old(self).ring@.skip(i as int),
                dst@.len() == M,
                forall|j: int| 0 <= j < i ==> dst@[j] == old(self).ring@[j],
            decreases M - i,
        {
            if let Some(value) = self.pop() {
                dst[i] = value;
            }
            i = i + 1;
        }
        assert(dst@ =~= old(self).ring@.take(M as int));
        Ok(())
    }
}

/// What one end does to a ring.
pub enum RingStep<T> {
    Push(T),
    Pop,
}

/// A ring, and what has gone through it so far.
pub struct RingHistory<T> {
    pub items: Seq<T>,
    /// The values that were pushed and found room.
    pub taken: Seq<T>,
    /// The values that were popped.
    pub given: Seq<T>,
}

impl<T> RingHistory<T> {
    /// Nothing has come or gone.
    pub open spec fn start() -> RingHistory<T> {
        RingHistory { items: Seq::empty(), taken: Seq::empty(), given: Seq::empty() }
    }

    pub open spec fn after(self, step: RingStep<T>, capacity: nat) -> RingHistory<T> {
        match step {
            RingStep::Push(value) => RingHistory {
                items: pushed(self.items, value, capacity),
                taken: if self.items.len() < capacity {
                    self.taken.push(value)
                } else {
                    self.taken
                },
                given: self.given,
            },
            RingStep::Pop => RingHistory {
                items: popped(self.items),
                taken: self.taken,
                given: if self.items.len() > 0 {
                    self.given.push(self.items[0])
                } else {
                    self.given
                },
            },
        }
    }

    pub open spec fn after_all(self, steps: Seq<RingStep<T>>, capacity: nat) -> RingHistory<T>
        decreases steps.len(),
    {
        if steps.len() == 0 {
            self
        } else {
            self.after_all(steps.drop_last(), capacity).after(steps.last(), capacity)
        }
    }
}

/// First in, first out: however the two ends take turns, what was popped and what is still
/// there are the values that found room, each once and in order, and there are never more
/// items than slots.
pub proof fn law_ring_keeps_order<T>(steps: Seq<RingStep<T>>, capacity: nat)
    ensures
        ({
            let history = RingHistory::start().after_all(steps, capacity);
            &&& history.given + history.items == history.taken
            &&& history.items.len() <= capacity
        }),
    decreases steps.len(),
{
    let history = RingHistory::start().after_all(steps, capacity);
    if steps.len() > 0 {
        law_ring_keeps_order(steps.drop_last(), capacity);
    }
    assert(history.given + history.items =~= history.taken);
}

/// A counter of items that found no room, after one more; it starts again at zero when it
/// is exhausted.
pub open spec fn counted_once_more(count: u32) -> u32 {
    if count == u32::MAX {
        0
    } else {
        (count + 1) as u32
    }
}

/// Stepping an index counts: the index after `count` steps moves to the one after
/// `count + 1` steps.
pub proof fn law_index_steps_count(count: nat, capacity: nat)
    requires
        0 < capacity <= usize::MAX,
    ensures
        RingIndex::at(0, capacity) == (RingIndex { slot: 0, lap: false }),
        RingIndex::at(count, capacity).in_range(capacity),
        RingIndex::at(count, capacity).next(capacity) == RingIndex::at(count + 1, capacity),
{
    let c = capacity as int;
    let laps = count as int / c;
    let slot = count as int % c;
    vstd::arithmetic::div_mod::lemma_fundamental_div_mod(count as int, c);
    if slot + 1 < c {
        vstd::arithmetic::div_mod::lemma_fundamental_div_mod_converse(
            count as int + 1,
            c,
            laps,
            slot + 1,
        );
    } else {
        assert((laps + 1) * c == laps * c + c) by (nonlinear_arith);
        assert(c * laps == laps * c) by (nonlinear_arith);
        vstd::arithmetic::div_mod::lemma_fundamental_div_mod_converse(
            count as int + 1,
            c,
            laps + 1,
            0,
        );
    }
    vstd::arithmetic::div_mod::lemma_fundamental_div_mod_converse(0, c, 0, 0);
}

/// Two indices that are at most one capacity apart tell exactly how many steps lie
/// between them.
pub proof fn law_indices_measure_distance(head: nat, tail: nat, capacity: nat)
    requires
        0 < capacity <= usize::MAX,
        head <= tail <= head + capacity,
    ensures
        RingIndex::at(head, capacity).items_to(RingIndex::at(tail, capacity), capacity) == tail
            - head,
{
    let c = capacity as int;
    let head_laps = head as int / c;
    let tail_laps = tail as int / c;
    let head_slot = head as int % c;
    let tail_slot = tail as int % c;
    vstd::arithmetic::div_mod::lemma_fundamental_div_mod(head as int, c);
    vstd::arithmetic::div_mod::lemma_fundamental_div_mod(tail as int, c);
    assert(tail_laps == head_laps || tail_laps == head_laps + 1) by (nonlinear_arith)
        requires
            c > 0,
            head == c * head_laps + head_slot,
            tail == c * tail_laps + tail_slot,
            0 <= head_slot < c,
            0 <= tail_slot < c,
            head <= tail <= head + c,
    ;
    if tail_laps == head_laps + 1 {
        assert(c * (head_laps + 1) == c * head_laps + c) by (nonlinear_arith);
    }
}

/// A producer that goes by an out-of-date head never writes over an item that the
/// consumer has yet to read: `observed` is the head it saw, `head` the head by now,
/// and `unread` any item in between that head and the tail.
pub proof fn law_producer_never_overwrites(
    observed: nat,
    head: nat,
    unread: nat,
    tail: nat,
    capacity: nat,
)
    requires
        0 < capacity <= usize::MAX,
        observed <= head <= unread < tail <= observed + capacity,
        RingIndex::at(observed, capacity).items_to(RingIndex::at(tail, capacity), capacity)
            != capacity,
    ensures
        RingIndex::at(unread, capacity).slot != RingIndex::at(tail, capacity).slot,
{
    law_indices_measure_distance(observed, tail, capacity);
    law_indices_measure_distance(unread, tail, capacity);
}

/// A consumer that goes by an out-of-date tail only ever reads an item that has been
/// published: `observed` is the tail it saw and `tail` the tail by now.
pub proof fn law_consumer_reads_published(head: nat, observed: nat, tail: nat, capacity: nat)
    requires
        0 < capacity <= usize::MAX,
        head <= observed <= tail <= head + capacity,
        RingIndex::at(head, capacity) != RingIndex::at(observed, capacity),
    ensures
        head < observed,
        RingIndex::at(head, capacity).items_to(RingIndex::at(tail, capacity), capacity) > 0,
{
    law_indices_measure_distance(head, observed, capacity);
    law_indices_measure_distance(head, tail, capacity);
}

/// A pushed value comes out unchanged behind all that were there before it, if there is room;
/// a pop takes away the first item and leaves the others as they were.
pub proof fn law_push_and_pop<T>(items: Seq<T>, value: T, capacity: nat)
    ensures
        items.len() < capacity ==> pushed(items, value, capacity) == items.push(value),
        items.len() >= capacity ==> pushed(items, value, capacity) == items,
        items.len() > 0 ==> seq![items[0]] + popped(items) == items,
        items.len() == 0 ==> popped(items) == items,
        items.len() == 0 && capacity > 0 ==> popped(pushed(items, value, capacity)) == items,
{
}

/// After any turns of the two ends, one more push that finds room is taken, one more that
/// finds none is not, and one more pop gives the oldest item.
pub proof fn law_one_more_step<T>(steps: Seq<RingStep<T>>, value: T, capacity: nat)
    ensures
        ({
            let before = RingHistory::start().after_all(steps, capacity);
            let pushed_to = RingHistory::start().after_all(
                steps.push(RingStep::Push(value)),
                capacity,
            );
            let popped_from = RingHistory::start().after_all(steps.push(RingStep::Pop), capacity);
            &&& pushed_to.given == before.given
            &&& before.items.len() < capacity ==> pushed_to.taken == before.taken.push(value)
                && pushed_to.items == before.items.push(value)
            &&& before.items.len() >= capacity ==> pushed_to == before
            &&& popped_from.taken == before.taken
            &&& before.items.len() > 0 ==> popped_from.given == before.given.push(before.items[0])
                && popped_from.items.len() == before.items.len() - 1
            &&& before.items.len() == 0 ==> popped_from == before
        }),
{
    assert(steps.push(RingStep::Push(value)).drop_last() =~= steps);
    assert(steps.push(RingStep::<T>::Pop).drop_last() =~= steps);
}

/// A counter counts one at a time, and starts again at zero after its greatest value.
pub proof fn law_counter_counts(count: u32)
    ensures
        count < u32::MAX ==> counted_once_more(count) == count + 1,
        count == u32::MAX ==> counted_once_more(count) == 0,
{
}

} // verus!
