//! A probe that records how long the nodes of a graph take.
//!
//! Only the outermost of nested measurements is recorded, and a record that finds the
//! queue full is dropped and counted, so that the audio thread never waits.
use vstd::prelude::*;

use crate::spsc::SpscRing;

verus! {

/// One measurement.
#[derive(Debug, Clone, Copy)]
pub struct ProbeRecord {
    pub node_id: u32,
    pub start_tick: u64,
    pub end_tick: u64,
}

/// What tells the time, in ticks.
pub trait Clock {
    /// The clock can be read.
    spec fn ready(&self) -> bool;

    /// What the clock has said so far, in the order of the readings.
    spec fn readings(&self) -> Seq<u64>;

    /// Reads the clock.
    fn read(&mut self) -> (tick: u64)
        requires
            old(self).ready(),
        ensures
            final(self).ready(),
            final(self).readings() == old(self).readings().push(tick),
    ;
}

/// A clock that asks `source` for the time.
pub struct SourceClock<C> {
    source: C,
    readings: Ghost<Seq<u64>>,
}

impl<C: Fn() -> u64> SourceClock<C> {
    /// Where the clock has the time from.
    pub closed spec fn source(&self) -> C {
        self.source
    }

    /// A clock that has not been read yet.
    pub fn new(source: C) -> (clock: Self)
        ensures
            clock.source() == source,
            clock.ready() == call_requires(source, ()),
            clock.readings() == Seq::<u64>::empty(),
    {
        Self { source, readings: Ghost(Seq::empty()) }
    }
}

impl<C: Fn() -> u64> Clock for SourceClock<C> {
    open spec fn ready(&self) -> bool {
        call_requires(self.source(), ())
    }

    closed spec fn readings(&self) -> Seq<u64> {
        self.readings@
    }

    fn read(&mut self) -> (tick: u64)
        ensures
            final(self).source() == old(self).source(),
            call_ensures(old(self).source(), (), tick),
    {
        let tick: u64 = (self.source)();
        self.readings = Ghost(self.readings@.push(tick));
        tick
    }
}

/// A clock with these readings never went back.
pub open spec fn never_goes_back(readings: Seq<u64>) -> bool {
    forall|i: int, j: int| 0 <= i <= j < readings.len() ==> readings[i] <= readings[j]
}

/// How many records wait at most.
pub const PROBE_RING_CAP: usize = 1024;

/// What a measurement that has begun will do when it ends.
#[derive(Debug, Clone, Copy, PartialEq, Eq, Structural)]
pub enum Measurement {
    /// The probe was off: nothing.
    Off,
    /// Another measurement was under way: leave it at that one.
    Nested,
    /// Leave a record.
    Outermost,
}

/// What the probe holds at one moment.
pub struct ProbeState {
    /// The records that wait, oldest first.
    pub records: Seq<ProbeRecord>,
    pub enabled: bool,
    /// How many measurements are under way, modulo the range of the counter.
    pub depth: u32,
    /// How many records were dropped, modulo the range of the counter.
    pub overflows: u32,
}

impl Measurement {
    /// What a measurement will do that begins while the probe is on or off and `depth`
    /// others are under way.
    pub open spec fn beginning(enabled: bool, depth: u32) -> Measurement {
        if !enabled {
            Measurement::Off
        } else if depth > 0 {
            Measurement::Nested
        } else {
            Measurement::Outermost
        }
    }

    /// Decides what a measurement will do that begins while the probe is on or off and
    /// `depth` others are under way.
    pub fn decide(enabled: bool, depth: u32) -> (measurement: Self)
        ensures
            measurement == Measurement::beginning(enabled, depth),
            measurement == Measurement::Off <==> !enabled,
            measurement == Measurement::Nested <==> enabled && depth > 0,
            measurement == Measurement::Outermost <==> enabled && depth == 0,
    {
        if !enabled {
            return Measurement::Off;
        }
        if depth > 0 {
            Measurement::Nested
        } else {
            Measurement::Outermost
        }
    }
}

impl ProbeState {
    /// What a measurement that begins now will do.
    pub open spec fn begins(self) -> Measurement {
        Measurement::beginning(self.enabled, self.depth)
    }

    /// No record ends before it starts.
    pub open spec fn in_order(self) -> bool {
        forall|i: int|
            0 <= i < self.records.len() ==> (#[trigger] self.records[i]).start_tick
                <= self.records[i].end_tick
    }

    /// The probe after a measurement has begun.
    pub open spec fn begun(self) -> ProbeState {
        if self.begins() == Measurement::Off {
            self
        } else {
            ProbeState { depth: crate::spsc::counted_once_more(self.depth), ..self }
        }
    }

    /// The probe after a measurement has ended.
    pub open spec fn ended(self, measurement: Measurement, record: ProbeRecord) -> ProbeState {
        let recorded = if measurement != Measurement::Outermost {
            self
        } else if self.records.len() < PROBE_RING_CAP {
            ProbeState { records: self.records.push(record), ..self }
        } else {
            ProbeState { overflows: crate::spsc::counted_once_more(self.overflows), ..self }
        };
        if measurement == Measurement::Off {
            self
        } else {
            ProbeState {
                depth: if self.depth == 0 {
                    u32::MAX
                } else {
                    (self.depth - 1) as u32
                },
                ..recorded
            }
        }
    }
}

/// The probe.
pub struct PerformanceProbe {
    ring: SpscRing<ProbeRecord, PROBE_RING_CAP>,
    enabled: bool,
    nesting_depth: u32,
    overflow: u32,
}

impl View for PerformanceProbe {
    type V = ProbeState;

    closed spec fn view(&self) -> ProbeState {
        ProbeState {
            records: self.ring@,
            enabled: self.enabled,
            depth: self.nesting_depth,
            overflows: self.overflow,
        }
    }
}

impl PerformanceProbe {
    pub closed spec fn wf(&self) -> bool {
        self.ring.wf()
    }

    /// A probe that is off.
    pub fn new() -> (probe: Self)
        ensures
            probe.wf(),
            probe@ == (ProbeState {
                records: Seq::empty(),
                enabled: false,
                depth: 0,
                overflows: 0,
            }),
    {
        Self { ring: SpscRing::new(), enabled: false, nesting_depth: 0, overflow: 0 }
    }

    /// Switches the probe on or off.
    pub fn set_enabled(&mut self, on: bool)
        requires
            old(self).wf(),
        ensures
            final(self).wf(),
            final(self)@ == (ProbeState { enabled: on, ..old(self)@ }),
    {
        self.enabled = on;
    }

    /// The number of records that were dropped.
    pub fn overflow_count(&self) -> (count: u32)
        ensures
            count == self@.overflows,
    {
        self.overflow
    }

    /// Begins a measurement.
    pub fn begin(&mut self) -> (measurement: Measurement)
        requires
            old(self).wf(),
        ensures
            final(self).wf(),
            measurement == old(self)@.begins(),
            final(self)@ == old(self)@.begun(),
            measurement == Measurement::Off <==> !old(self)@.enabled,
            measurement == Measurement::Outermost <==> old(self)@.enabled && old(self)@.depth == 0,
            final(self)@.records == old(self)@.records,
            final(self)@.enabled == old(self)@.enabled,
            final(self)@.overflows == old(self)@.overflows,
            final(self)@.depth == (if !old(self)@.enabled {
                old(self)@.depth as int
            } else if old(self)@.depth == u32::MAX {
                0
            } else {
                old(self)@.depth + 1
            }),
    {
        let measurement = Measurement::decide(self.enabled, self.nesting_depth);
        if measurement != Measurement::Off {
            self.nesting_depth = self.nesting_depth.wrapping_add(1);
        }
        measurement
    }

    /// Ends a measurement.
    pub fn finish(&mut self, measurement: Measurement, record: ProbeRecord)
        requires
            old(self).wf(),
        ensures
            final(self).wf(),
            final(self)@ == old(self)@.ended(measurement, record),
            final(self)@.enabled == old(self)@.enabled,
            final(self)@.records == (if measurement == Measurement::Outermost
                && old(self)@.records.len() < 1024 {
                old(self)@.records.push(record)
            } else {
                old(self)@.records
            }),
            final(self)@.overflows == (if measurement != Measurement::Outermost
                || old(self)@.records.len() < 1024 {
                old(self)@.overflows as int
            } else if old(self)@.overflows == u32::MAX {
                0
            } else {
                old(self)@.overflows + 1
            }),
            final(self)@.depth == (if measurement == Measurement::Off {
                old(self)@.depth as int
            } else if old(self)@.depth == 0 {
                u32::MAX as int
            } else {
                old(self)@.depth - 1
            }),
    {
        match measurement {
            Measurement::Off => {},
            Measurement::Nested => {
                self.nesting_depth = self.nesting_depth.wrapping_sub(1);
            },
            Measurement::Outermost => {
                let mut producer = self.ring.producer();
                if producer.push(record).is_err() {
                    self.overflow = self.overflow.wrapping_add(1);
                }
                self.nesting_depth = self.nesting_depth.wrapping_sub(1);
            },
        }
    }

    /// Reads `clock`, runs `f`, reads `clock` again, and leaves a record of the two readings.
    /// A probe that is off, or that is measuring already, just runs `f`.
    pub fn measure<F: FnOnce() -> R, R, C: Clock>(
        &mut self,
        node_id: u32,
        f: F,
        clock: &mut C,
    ) -> (result: R)
        requires
            old(self).wf(),
            call_requires(f, ()),
            old(clock).ready(),
        ensures
            final(self).wf(),
            final(clock).ready(),
            call_ensures(f, (), result),
            old(self)@.begins() != Measurement::Outermost ==> final(self)@ == old(self)@
                && *final(clock) == *old(clock),
            old(self)@.begins() == Measurement::Outermost ==> ({
                let before = old(clock).readings();
                let readings = final(clock).readings();
                let n = before.len() as int;
                &&& readings.len() == n + 2
                &&& before.is_prefix_of(readings)
                &&& final(self)@ == old(self)@.begun().ended(
                    Measurement::Outermost,
                    ProbeRecord { node_id, start_tick: readings[n], end_tick: readings[n + 1] },
                )
            }),
            old(self)@.in_order() && never_goes_back(final(clock).readings())
                ==> final(self)@.in_order(),
            !old(self)@.enabled || old(self)@.depth > 0 ==> final(self)@ == old(self)@
                && *final(clock) == *old(clock),
            old(self)@.enabled && old(self)@.depth == 0 ==> ({
                let before = old(clock).readings();
                let readings = final(clock).readings();
                let n = before.len() as int;
                let record = ProbeRecord {
                    node_id,
                    start_tick: readings[n],
                    end_tick: readings[n + 1],
                };
                &&& readings.len() == n + 2
                &&& readings.take(n) == before
                &&& final(self)@.enabled
                &&& final(self)@.depth == 0
                &&& old(self)@.records.len() < 1024 ==> final(self)@.records
                    == old(self)@.records.push(record) && final(self)@.overflows
                    == old(self)@.overflows
                &&& old(self)@.records.len() >= 1024 ==> final(self)@.records
                    == old(self)@.records && final(self)@.overflows == (if old(self)@.overflows
                    == u32::MAX {
                    0
                } else {
                    old(self)@.overflows + 1
                })
            }),
            (forall|i: int|
                0 <= i < old(self)@.records.len() ==> (
                #[trigger] old(self)@.records[i]).start_tick <= old(self)@.records[i].end_tick) && (
            forall|i: int, j: int|
                0 <= i <= j < final(clock).readings().len() ==> #[trigger] final(clock).readings()[i]
                    <= #[trigger] final(clock).readings()[j]) ==> forall|i: int|
                0 <= i < final(self)@.records.len() ==> (
                #[trigger] final(self)@.records[i]).start_tick <= final(self)@.records[i].end_tick,
    {
        let measurement = self.begin();
        match measurement {
            Measurement::Outermost => {
                let start_tick: u64 = clock.read();
                let result = f();
                let end_tick: u64 = clock.read();
                self.finish(measurement, ProbeRecord { node_id, start_tick, end_tick });
                result
            },
            _ => {
                let result = f();
                let record = ProbeRecord { node_id, start_tick: 0, end_tick: 0 };
                proof {
                    law_measurement_restores_depth(old(self)@, record);
                }
                self.finish(measurement, record);
                result
            },
        }
    }

    /// Takes all records, oldest first.
    pub fn drain(&mut self) -> (records: Vec<ProbeRecord>)
        requires
            old(self).wf(),
        ensures
            final(self).wf(),
            records@ == old(self)@.records,
            final(self)@ == (ProbeState { records: Seq::empty(), ..old(self)@ }),
    {
        let records = self.ring.consumer().drain();
        records
    }

    /// Takes the oldest `M` records, or none when there are fewer.
    pub fn drain_batch<const M: usize>(&mut self) -> (batch: Option<[ProbeRecord; M]>)
        requires
            old(self).wf(),
        ensures
            final(self).wf(),
            batch is Some <==> old(self)@.records.len() >= M,
            batch is Some ==> batch->0@ == old(self)@.records.take(M as int) && final(self)@ == (
            ProbeState { records: old(self)@.records.skip(M as int), ..old(self)@ }),
            batch is None ==> final(self)@ == old(self)@,
    {
        let mut batch = [ProbeRecord { node_id: 0, start_tick: 0, end_tick: 0 };M];
        let mut consumer = self.ring.consumer();
        if consumer.pop_slice_copy(&mut batch).is_err() {
            return None;
        }
        Some(batch)
    }
}

impl Default for PerformanceProbe {
    fn default() -> (probe: Self)
        ensures
            probe.wf(),
            probe@ == (ProbeState {
                records: Seq::empty(),
                enabled: false,
                depth: 0,
                overflows: 0,
            }),
    {
        Self::new()
    }
}

/// A measurement that ends leaves the nesting as it was when it began, and one that is
/// not the outermost leaves nothing else behind either.
pub proof fn law_measurement_restores_depth(probe: ProbeState, record: ProbeRecord)
    ensures
        probe.begun().ended(probe.begins(), record).depth == probe.depth,
        probe.begins() != Measurement::Outermost ==> probe.begun().ended(probe.begins(), record)
            == probe,
{
}

/// Whatever is measured while a measurement is under way leaves no record of its own.
pub proof fn law_nested_measurement_is_silent(probe: ProbeState, record: ProbeRecord)
    requires
        probe.enabled,
        probe.depth < u32::MAX,
    ensures
        probe.begun().begins() == Measurement::Nested,
        probe.begun().begun().ended(probe.begun().begins(), record) == probe.begun(),
{
}

impl ProbeState {
    /// The probe after the nodes `ids` have been measured one after the other by a clock with
    /// these `readings`, two for each.
    pub open spec fn measured(self, ids: Seq<u32>, readings: Seq<u64>) -> ProbeState
        decreases ids.len(),
    {
        if ids.len() == 0 {
            self
        } else {
            let n = ids.len() - 1;
            self.measured(ids.drop_last(), readings).begun().ended(
                Measurement::Outermost,
                record_of(ids, readings, n),
            )
        }
    }
}

/// The record of measurement number `index`.
pub open spec fn record_of(ids: Seq<u32>, readings: Seq<u64>, index: int) -> ProbeRecord {
    ProbeRecord {
        node_id: ids[index],
        start_tick: readings[2 * index],
        end_tick: readings[2 * index + 1],
    }
}

/// Measurements with room for their records each leave one, in order, and none of them ends
/// before it starts if the clock never goes back.
pub proof fn law_measurements_leave_records(
    probe: ProbeState,
    ids: Seq<u32>,
    readings: Seq<u64>,
)
    requires
        probe.begins() == Measurement::Outermost,
        probe.records.len() + ids.len() <= PROBE_RING_CAP,
        readings.len() == 2 * ids.len(),
    ensures
        probe.measured(ids, readings) == (ProbeState {
            records: probe.records + Seq::new(ids.len(), |i: int| record_of(ids, readings, i)),
            ..probe
        }),
        probe.in_order() && never_goes_back(readings) ==> probe.measured(ids, readings).in_order(),
    decreases ids.len(),
{
    let all = Seq::new(ids.len(), |i: int| record_of(ids, readings, i));
    if ids.len() == 0 {
        assert(probe.records + all =~= probe.records);
    } else {
        let n = (ids.len() - 1) as nat;
        let fewer = ids.drop_last();
        let before = Seq::new(n, |i: int| record_of(fewer, readings.take(2 * n as int), i));
        law_measurements_leave_records(probe, fewer, readings.take(2 * n as int));
        lemma_measured_prefix(probe, fewer, readings, readings.take(2 * n as int));
        assert(before =~= Seq::new(n, |i: int| record_of(ids, readings, i)));
        assert((probe.records + before).push(record_of(ids, readings, n as int)) =~= probe.records
            + all);
    }
    let after = probe.measured(ids, readings);
    if probe.in_order() && never_goes_back(readings) {
        assert forall|i: int| 0 <= i < after.records.len() implies (
        #[trigger] after.records[i]).start_tick <= after.records[i].end_tick by {
            if i >= probe.records.len() {
                let k = i - probe.records.len();
                assert(after.records[i] == record_of(ids, readings, k));
            } else {
                assert(after.records[i] == probe.records[i]);
            }
        }
    }
}

proof fn lemma_measured_prefix(
    probe: ProbeState,
    ids: Seq<u32>,
    readings: Seq<u64>,
    others: Seq<u64>,
)
    requires
        2 * ids.len() <= readings.len(),
        2 * ids.len() <= others.len(),
        forall|i: int| 0 <= i < 2 * ids.len() ==> readings[i] == others[i],
    ensures
        probe.measured(ids, readings) == probe.measured(ids, others),
    decreases ids.len(),
{
    if ids.len() > 0 {
        lemma_measured_prefix(probe, ids.drop_last(), readings, others);
    }
}

/// A measurement that begins does nothing while the probe is off, leaves it at the one under
/// way if there is one, and leaves a record otherwise. It counts towards the nesting unless the
/// probe is off, and changes nothing else.
pub proof fn law_beginning(probe: ProbeState)
    ensures
        probe.begins() == Measurement::Off <==> !probe.enabled,
        probe.begins() == Measurement::Nested <==> probe.enabled && probe.depth > 0,
        probe.begins() == Measurement::Outermost <==> probe.enabled && probe.depth == 0,
        probe.begun().records == probe.records,
        probe.begun().enabled == probe.enabled,
        probe.begun().overflows == probe.overflows,
        !probe.enabled ==> probe.begun().depth == probe.depth,
        probe.enabled && probe.depth < u32::MAX ==> probe.begun().depth == probe.depth + 1,
        probe.enabled && probe.depth == u32::MAX ==> probe.begun().depth == 0,
{
}

/// Only the outermost measurement touches the records: its record becomes the last one, just as
/// it is, while fewer than 1024 wait, and is dropped and counted otherwise.
pub proof fn law_ending(probe: ProbeState, measurement: Measurement, record: ProbeRecord)
    ensures
        ({
            let after = probe.ended(measurement, record);
            &&& after.enabled == probe.enabled
            &&& measurement != Measurement::Outermost ==> after.records == probe.records
                && after.overflows == probe.overflows
            &&& measurement == Measurement::Outermost && probe.records.len() < 1024
                ==> after.records == probe.records.push(record) && after.overflows
                == probe.overflows
            &&& measurement == Measurement::Outermost && probe.records.len() >= 1024
                ==> after.records == probe.records
            &&& measurement == Measurement::Outermost && probe.records.len() >= 1024
                && probe.overflows < u32::MAX ==> after.overflows == probe.overflows + 1
            &&& measurement == Measurement::Outermost && probe.records.len() >= 1024
                && probe.overflows == u32::MAX ==> after.overflows == 0
            &&& measurement == Measurement::Off ==> after.depth == probe.depth
            &&& measurement != Measurement::Off && probe.depth > 0 ==> after.depth == probe.depth
                - 1
            &&& measurement != Measurement::Off && probe.depth == 0 ==> after.depth == u32::MAX
        }),
{
}

/// With room for their records, the nodes that are measured one after the other leave one record
/// each behind those that waited: record number `k` is that of node number `k`, and its ticks are
/// readings number `2 * k` and `2 * k + 1`. Nothing is dropped, and the nesting is as before.
pub proof fn law_record_of_each_measurement(
    probe: ProbeState,
    ids: Seq<u32>,
    readings: Seq<u64>,
    k: int,
)
    requires
        probe.enabled,
        probe.depth == 0,
        probe.records.len() + ids.len() <= 1024,
        readings.len() == 2 * ids.len(),
        0 <= k < ids.len(),
    ensures
        ({
            let after = probe.measured(ids, readings);
            let record = after.records[probe.records.len() + k];
            &&& after.records.len() == probe.records.len() + ids.len()
            &&& after.records.take(probe.records.len() as int) == probe.records
            &&& record.node_id == ids[k]
            &&& record.start_tick == readings[2 * k]
            &&& record.end_tick == readings[2 * k + 1]
            &&& after.depth == 0
            &&& after.enabled
            &&& after.overflows == probe.overflows
        }),
{
    law_measurements_leave_records(probe, ids, readings);
    let after = probe.measured(ids, readings);
    assert(after.records.take(probe.records.len() as int) =~= probe.records);
}

} // verus!
