//! The bus that carries kernel events from one producer to the monitoring plane.
//!
//! The bus is for monitoring, not for audio: when it is full, a new event is dropped and
//! counted. The last [`RESERVED_SLOTS`] slots take fatal events only, so that a flood of
//! ordinary events never crowds them out.
use vstd::prelude::*;

use crate::spsc::SpscRing;

verus! {

/// How many slots are kept for fatal events.
pub const RESERVED_SLOTS: usize = 8;

#[derive(Debug, Clone, Copy, PartialEq, Eq, Structural)]
pub enum StopReason {
    Requested,
    HostError,
    Panic,
}

#[derive(Debug, Clone, Copy)]
pub struct SpscBackpressureEvent {
    /// How full the queue is, in percent.
    pub occupancy_pct: u8,
}

#[derive(Debug, Clone, Copy)]
pub struct GcBackpressureEvent {
    /// How strongly reclamation has been stepped up (0, 1 or 2).
    pub level: u8,
}

/// What happened in the kernel.
#[derive(Debug, Clone, Copy)]
pub enum KernelEvent {
    SpscBackpressure(SpscBackpressureEvent),
    SpscOverflow { dropped_commands: u32 },
    GcBackpressure(GcBackpressureEvent),
    GcEmergencySlotUsed { slot_index: u8 },
    GcOrphanReclaimed { count: u32 },
    LogQueueOverflow { dropped_records: u32 },
    LogFlushComplete { records_flushed: u32 },
    FpuSubnormalDetected { count: u32 },
    AudioThreadStarted,
    AudioThreadStopped { reason: StopReason },
    ShutdownProgress { step: u8, total: u8 },
    HostAdapterBlockSizeChanged { old: usize, new: usize },
    ThreadProvisionerFallback { requested: i32, granted: i32 },
    PerformanceProbeOverload { node_id: u32, elapsed_us: u32, budget_us: u32 },
}

impl KernelEvent {
    /// The event may use the reserved slots.
    pub open spec fn fatal(self) -> bool {
        ||| self is AudioThreadStopped
        ||| self is HostAdapterBlockSizeChanged
        ||| self is SpscOverflow
    }

    /// Whether the event may use the reserved slots.
    pub fn is_fatal(&self) -> (fatal: bool)
        ensures
            fatal == self.fatal(),
            fatal == (match *self {
                KernelEvent::AudioThreadStopped { reason } => true,
                KernelEvent::HostAdapterBlockSizeChanged { old: before, new: after } => true,
                KernelEvent::SpscOverflow { dropped_commands } => true,
                _ => false,
            }),
    {
        matches!(
            self,
            KernelEvent::AudioThreadStopped { .. }
                | KernelEvent::HostAdapterBlockSizeChanged { .. }
                | KernelEvent::SpscOverflow { .. }
        )
    }
}

/// An event may enter a bus that has `left` free slots: a fatal one as long as there is
/// any, another only if the reserved slots stay free.
pub open spec fn admitted(left: int, event: KernelEvent) -> bool {
    left > RESERVED_SLOTS || left > 0 && event.fatal()
}

/// Decides whether an event may enter a bus that has `capacity_left` free slots.
pub fn admits(capacity_left: usize, event: &KernelEvent) -> (admits: bool)
    ensures
        admits == admitted(capacity_left as int, *event),
        capacity_left == 0 ==> !admits,
        capacity_left > 8 ==> admits,
        0 < capacity_left <= 8 ==> admits == (event is AudioThreadStopped
            || event is HostAdapterBlockSizeChanged || event is SpscOverflow),
{
    if capacity_left <= RESERVED_SLOTS && !event.is_fatal() {
        return false;
    }
    capacity_left > 0
}

/// How many of the events are fatal.
pub open spec fn fatal_count(events: Seq<KernelEvent>) -> nat
    decreases events.len(),
{
    if events.len() == 0 {
        0
    } else {
        fatal_count(events.drop_last()) + if events.last().fatal() {
            1nat
        } else {
            0
        }
    }
}

/// The queue of a bus of `capacity` slots after `event` has been emitted.
pub open spec fn queue_after(queue: Seq<KernelEvent>, event: KernelEvent, capacity: nat) -> Seq<
    KernelEvent,
> {
    if admitted(capacity - queue.len(), event) {
        queue.push(event)
    } else {
        queue
    }
}

/// The queue of a bus of `capacity` slots after all of `events` have been emitted.
pub open spec fn queue_after_all(
    queue: Seq<KernelEvent>,
    events: Seq<KernelEvent>,
    capacity: nat,
) -> Seq<KernelEvent>
    decreases events.len(),
{
    if events.len() == 0 {
        queue
    } else {
        queue_after(queue_after_all(queue, events.drop_last(), capacity), events.last(), capacity)
    }
}

/// How many of `events` are dropped when they are emitted into `queue`.
pub open spec fn dropped_of(queue: Seq<KernelEvent>, events: Seq<KernelEvent>, capacity: nat) -> nat
    decreases events.len(),
{
    if events.len() == 0 {
        0
    } else {
        let before = queue_after_all(queue, events.drop_last(), capacity);
        dropped_of(queue, events.drop_last(), capacity) + if admitted(
            capacity - before.len(),
            events.last(),
        ) {
            0nat
        } else {
            1
        }
    }
}

/// Only fatal events have gone into the reserved slots.
pub open spec fn reserve_kept(queue: Seq<KernelEvent>, capacity: nat) -> bool {
    queue.len() <= capacity && queue.len() + RESERVED_SLOTS <= capacity + fatal_count(queue)
}

/// A bus with `N` slots.
///
/// The view of a bus is the sequence of the events in it, oldest first.
pub struct EventBus<const N: usize> {
    ring: SpscRing<KernelEvent, N>,
    overflow: u32,
}

impl<const N: usize> View for EventBus<N> {
    type V = Seq<KernelEvent>;

    closed spec fn view(&self) -> Seq<KernelEvent> {
        self.ring@
    }
}

impl<const N: usize> EventBus<N> {
    pub closed spec fn wf(&self) -> bool {
        &&& N > RESERVED_SLOTS
        &&& self.ring.wf()
        &&& reserve_kept(self.ring@, N as nat)
    }

    /// How many events have been dropped, modulo the range of the counter.
    pub closed spec fn overflows(&self) -> u32 {
        self.overflow
    }

    /// What a bus keeps at any time: no more events than slots, and only fatal ones in
    /// the reserved slots.
    pub proof fn lemma_wf(&self)
        requires
            self.wf(),
        ensures
            N > RESERVED_SLOTS,
            reserve_kept(self@, N as nat),
            N > 8,
            self@.len() <= N,
            self@.len() + 8 <= N + fatal_count(self@),
    {
    }

    /// An empty bus.
    pub fn new() -> (bus: Self)
        requires
            N > RESERVED_SLOTS,
        ensures
            bus.wf(),
            bus@ == Seq::<KernelEvent>::empty(),
            bus.overflows() == 0,
    {
        Self { ring: SpscRing::new(), overflow: 0 }
    }

    /// Appends the event, or drops and counts it when there is no room for it. A fatal
    /// event finds room as long as fewer fatal events wait than slots are reserved.
    pub fn emit(&mut self, event: KernelEvent)
        requires
            old(self).wf(),
        ensures
            final(self).wf(),
            final(self)@ == queue_after(old(self)@, event, N as nat),
            final(self).overflows() == if admitted(N - old(self)@.len(), event) {
                old(self).overflows()
            } else {
                crate::spsc::counted_once_more(old(self).overflows())
            },
            event.fatal() && fatal_count(old(self)@) < RESERVED_SLOTS ==> final(self)@ == old(
                self,
            )@.push(event),
            old(self)@.len() + 8 < N ==> final(self)@ == old(self)@.push(event)
                && final(self).overflows() == old(self).overflows(),
            old(self)@.len() < N <= old(self)@.len() + 8 && (event is AudioThreadStopped
                || event is HostAdapterBlockSizeChanged || event is SpscOverflow)
                ==> final(self)@ == old(self)@.push(event) && final(self).overflows() == old(
                self,
            ).overflows(),
            old(self)@.len() >= N || N <= old(self)@.len() + 8 && !(event is AudioThreadStopped
                || event is HostAdapterBlockSizeChanged || event is SpscOverflow)
                ==> final(self)@ == old(self)@ && final(self).overflows() == (if old(
                self,
            ).overflows() == u32::MAX {
                0
            } else {
                old(self).overflows() + 1
            }),
    {
        proof {
            lemma_reserve_kept(self.ring@, event, N as nat);
        }
        if !admits(self.ring.capacity_left(), &event) {
            self.overflow = self.overflow.wrapping_add(1);
            return;
        }
        let mut producer = self.ring.producer();
        if producer.push(event).is_err() {
            self.overflow = self.overflow.wrapping_add(1);
        }
    }

    /// Takes all events out of the bus, oldest first.
    pub fn drain(&mut self) -> (events: Vec<KernelEvent>)
        requires
            old(self).wf(),
        ensures
            final(self).wf(),
            events@ == old(self)@,
            final(self)@ == Seq::<KernelEvent>::empty(),
            final(self).overflows() == old(self).overflows(),
    {
        let events = self.ring.consumer().drain();
        events
    }

    /// The number of events that were dropped.
    pub fn overflow_count(&self) -> (count: u32)
        ensures
            count == self.overflows(),
    {
        self.overflow
    }

    pub fn len(&self) -> (len: usize)
        requires
            self.wf(),
        ensures
            len == self@.len(),
    {
        self.ring.len()
    }

    pub fn is_empty(&self) -> (empty: bool)
        requires
            self.wf(),
        ensures
            empty == (self@.len() == 0),
    {
        self.ring.is_empty()
    }
}

proof fn lemma_reserve_kept(queue: Seq<KernelEvent>, event: KernelEvent, capacity: nat)
    requires
        reserve_kept(queue, capacity),
    ensures
        reserve_kept(queue_after(queue, event, capacity), capacity),
        event.fatal() && fatal_count(queue) < RESERVED_SLOTS ==> admitted(
            capacity - queue.len(),
            event,
        ),
{
    assert(queue.push(event).drop_last() =~= queue);
}

/// The reserved slots do what they are for: into whatever mix of events, up to as many
/// fatal events as there are reserved slots go in without loss. `queue` is what waited
/// before.
pub proof fn law_fatal_events_survive(
    queue: Seq<KernelEvent>,
    events: Seq<KernelEvent>,
    capacity: nat,
)
    requires
        reserve_kept(queue, capacity),
        fatal_count(queue) + fatal_count(events) <= RESERVED_SLOTS,
    ensures
        reserve_kept(queue_after_all(queue, events, capacity), capacity),
        fatal_count(queue_after_all(queue, events, capacity)) == fatal_count(queue) + fatal_count(
            events,
        ),
        forall|i: int|
            0 <= i < events.len() && (#[trigger] events[i]).fatal() ==> queue_after_all(
                queue,
                events,
                capacity,
            ).contains(events[i]),
    decreases events.len(),
{
    if events.len() > 0 {
        let earlier = events.drop_last();
        law_fatal_events_survive(queue, earlier, capacity);
        let before = queue_after_all(queue, earlier, capacity);
        lemma_reserve_kept(before, events.last(), capacity);
        assert(before.push(events.last()).drop_last() =~= before);
        let after = queue_after_all(queue, events, capacity);
        assert forall|i: int|
            0 <= i < events.len() && (#[trigger] events[i]).fatal() implies after.contains(
            events[i],
        ) by {
            if i < earlier.len() {
                assert(earlier[i] == events[i]);
                let at = choose|j: int| 0 <= j < before.len() && before[j] == events[i];
                assert(after[at] == events[i]);
            } else {
                assert(after[after.len() - 1] == events[i]);
            }
        }
    }
}

/// Every event is accounted for: it waits in the bus or it was dropped. The events that
/// waited before stay where they were.
pub proof fn law_every_event_counts(
    queue: Seq<KernelEvent>,
    events: Seq<KernelEvent>,
    capacity: nat,
)
    ensures
        queue_after_all(queue, events, capacity).len() + dropped_of(queue, events, capacity)
            == queue.len() + events.len(),
        queue.is_prefix_of(queue_after_all(queue, events, capacity)),
    decreases events.len(),
{
    if events.len() > 0 {
        law_every_event_counts(queue, events.drop_last(), capacity);
    }
}

/// Ordinary events leave the reserved slots free.
pub proof fn law_ordinary_events_leave_reserve(
    queue: Seq<KernelEvent>,
    event: KernelEvent,
    capacity: nat,
)
    requires
        queue.len() + RESERVED_SLOTS <= capacity,
        !event.fatal(),
    ensures
        queue_after(queue, event, capacity).len() + RESERVED_SLOTS <= capacity,
{
}

/// An event that is let in becomes the last one in the bus, just as it was emitted, and one
/// that is not changes nothing. Any event is let in while more than the reserved slots are
/// free, and a fatal one while any slot is.
pub proof fn law_event_enters_as_it_is(
    queue: Seq<KernelEvent>,
    event: KernelEvent,
    capacity: nat,
)
    ensures
        queue.len() + 8 < capacity ==> queue_after(queue, event, capacity) == queue.push(event),
        queue.len() < capacity && (event is AudioThreadStopped
            || event is HostAdapterBlockSizeChanged || event is SpscOverflow) ==> queue_after(
            queue,
            event,
            capacity,
        ) == queue.push(event),
        queue.len() >= capacity ==> queue_after(queue, event, capacity) == queue,
        queue.len() + 8 >= capacity && !(event is AudioThreadStopped
            || event is HostAdapterBlockSizeChanged || event is SpscOverflow) ==> queue_after(
            queue,
            event,
            capacity,
        ) == queue,
{
}

/// After a run of emits the bus holds what it held before, followed by some of the emitted
/// events, unchanged and in the order in which they were emitted: `at` says which. Those that
/// are missing were dropped.
pub proof fn law_queue_is_a_selection_of_the_events(
    queue: Seq<KernelEvent>,
    events: Seq<KernelEvent>,
    capacity: nat,
) -> (at: Seq<int>)
    ensures
        queue_after_all(queue, events, capacity).len() == queue.len() + at.len(),
        forall|i: int|
            0 <= i < queue.len() ==> #[trigger] queue_after_all(queue, events, capacity)[i]
                == queue[i],
        forall|i: int, j: int| 0 <= i < j < at.len() ==> at[i] < at[j],
        forall|i: int|
            0 <= i < at.len() ==> 0 <= #[trigger] at[i] < events.len() && queue_after_all(
                queue,
                events,
                capacity,
            )[queue.len() + i] == events[at[i]],
        at.len() + dropped_of(queue, events, capacity) == events.len(),
    decreases events.len(),
{
    if events.len() == 0 {
        Seq::empty()
    } else {
        let earlier = events.drop_last();
        let some = law_queue_is_a_selection_of_the_events(queue, earlier, capacity);
        let before = queue_after_all(queue, earlier, capacity);
        let after = queue_after_all(queue, events, capacity);
        let at = if admitted(capacity - before.len(), events.last()) {
            some.push(events.len() - 1)
        } else {
            some
        };
        assert forall|i: int| 0 <= i < queue.len() implies #[trigger] after[i] == queue[i] by {
            assert(before[i] == queue[i]);
        }
        assert forall|i: int| 0 <= i < at.len() implies 0 <= #[trigger] at[i] < events.len()
            && after[queue.len() + i] == events[at[i]] by {
            if i < some.len() {
                assert(some[i] == at[i]);
                assert(earlier[some[i]] == events[some[i]]);
            }
        }
        at
    }
}

/// The number of fatal events is that of the three kinds that are fatal.
pub proof fn law_fatal_count_counts(events: Seq<KernelEvent>, event: KernelEvent)
    ensures
        fatal_count(Seq::<KernelEvent>::empty()) == 0,
        fatal_count(events.push(event)) == fatal_count(events) + if event is AudioThreadStopped
            || event is HostAdapterBlockSizeChanged || event is SpscOverflow {
            1int
        } else {
            0
        },
{
    assert(events.push(event).drop_last() =~= events);
}

} // verus!
