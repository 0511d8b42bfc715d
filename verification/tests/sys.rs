use riaps::fpu::{ControlRegister, FpuGuard};
use riaps::probe::{Clock, Measurement, PerformanceProbe, ProbeRecord, SourceClock, PROBE_RING_CAP};
use riaps::thread::{
    current_schedule, qos_request, scheduler_request, Attempt, ProvisionError, ProvisionStrategy,
    SchedParam, Schedule, StrictAction, ThreadProvisioner, ThreadProvisioning,
};
use std::cell::Cell;

#[test]
fn fpu_guard_raii_roundtrip() {
    let registers = [
        ControlRegister::Mxcsr(0x1f80),
        ControlRegister::Fpcr(0),
        ControlRegister::Absent,
    ];
    for before in registers {
        let mut register = before;
        let guard = FpuGuard::new(&mut register);
        let mut acc = 1.0e-30f32;
        for _ in 0..64 {
            acc *= 0.5;
        }
        assert!(acc.abs() < 1.0e-30);
        guard.restore(&mut register);
        assert_eq!(register, before);
        let _guard2 = FpuGuard::new(&mut register);
    }
}

#[test]
fn fpu_guard_sets_only_its_bits() {
    let mut mxcsr = ControlRegister::Mxcsr(0x1f80);
    FpuGuard::new(&mut mxcsr);
    assert_eq!(mxcsr, ControlRegister::Mxcsr(0x9fc0));
    FpuGuard::new(&mut mxcsr);
    assert_eq!(mxcsr, ControlRegister::Mxcsr(0x9fc0));

    let mut fpcr = ControlRegister::Fpcr(0x400_0000);
    FpuGuard::new(&mut fpcr);
    assert_eq!(fpcr, ControlRegister::Fpcr(0x500_0000));

    let mut absent = ControlRegister::Absent;
    FpuGuard::new(&mut absent);
    assert_eq!(absent, ControlRegister::Absent);
}

#[test]
fn fpu_guards_nest() {
    let mut register = ControlRegister::Mxcsr(0x1f80);
    let outer = FpuGuard::new(&mut register);
    let inner = FpuGuard::new(&mut register);
    inner.restore(&mut register);
    assert_eq!(register, ControlRegister::Mxcsr(0x9fc0));
    outer.restore(&mut register);
    assert_eq!(register, ControlRegister::Mxcsr(0x1f80));
}

fn ticking() -> SourceClock<impl Fn() -> u64> {
    let now = Cell::new(100u64);
    SourceClock::new(move || {
        now.set(now.get() + 1);
        now.get()
    })
}

#[test]
fn probe_disabled_is_passthrough() {
    let mut probe = PerformanceProbe::new();
    let v = probe.measure(1, || 42, &mut ticking());
    assert_eq!(v, 42);
    let n = probe.drain().len();
    assert_eq!(n, 0);
}

#[test]
fn probe_records_and_drains() {
    let mut probe = PerformanceProbe::new();
    probe.set_enabled(true);
    let mut clock = ticking();
    for id in 0..8u32 {
        assert_eq!(probe.measure(id, || std::hint::black_box(id * 2), &mut clock), id * 2);
    }
    let mut ids = Vec::new();
    for r in probe.drain() {
        assert!(r.end_tick >= r.start_tick);
        ids.push(r.node_id);
    }
    assert_eq!(ids, (0..8).collect::<Vec<_>>());
    assert_eq!(probe.overflow_count(), 0);
}

#[test]
fn probe_reads_the_clock_around_the_work() {
    let mut probe = PerformanceProbe::default();
    probe.set_enabled(true);
    let mut clock = ticking();
    probe.measure(3, || (), &mut clock);
    assert_eq!(clock.read(), 103);
    let records = probe.drain();
    assert_eq!(records.len(), 1);
    assert_eq!((records[0].node_id, records[0].start_tick, records[0].end_tick), (3, 101, 102));
}

#[test]
fn probe_records_the_outermost_only() {
    let mut probe = PerformanceProbe::new();
    probe.set_enabled(true);
    let outer = probe.begin();
    assert_eq!(outer, Measurement::Outermost);
    let inner = probe.begin();
    assert_eq!(inner, Measurement::Nested);
    probe.measure(8, || (), &mut SourceClock::new(|| panic!("the clock is left alone")));
    probe.finish(inner, ProbeRecord { node_id: 2, start_tick: 2, end_tick: 3 });
    probe.finish(outer, ProbeRecord { node_id: 1, start_tick: 1, end_tick: 4 });
    let ids: Vec<u32> = probe.drain().iter().map(|r| r.node_id).collect();
    assert_eq!(ids, vec![1]);
    assert_eq!(probe.begin(), Measurement::Outermost);
}

#[test]
fn probe_switched_off_in_between_ends_as_it_began() {
    let mut probe = PerformanceProbe::new();
    probe.set_enabled(true);
    let measurement = probe.begin();
    probe.set_enabled(false);
    assert_eq!(probe.begin(), Measurement::Off);
    probe.finish(measurement, ProbeRecord { node_id: 1, start_tick: 1, end_tick: 4 });
    assert_eq!(probe.drain().len(), 1);
    probe.set_enabled(true);
    assert_eq!(probe.begin(), Measurement::Outermost);
}

#[test]
fn probe_counts_what_finds_no_room() {
    let mut probe = PerformanceProbe::new();
    probe.set_enabled(true);
    let mut clock = ticking();
    for id in 0..PROBE_RING_CAP as u32 + 3 {
        probe.measure(id, || (), &mut clock);
    }
    assert_eq!(probe.overflow_count(), 3);
    let batch = probe.drain_batch::<4>().unwrap();
    assert_eq!(batch.map(|r| r.node_id), [0, 1, 2, 3]);
    assert_eq!(probe.drain().len(), PROBE_RING_CAP - 4);
    assert!(probe.drain_batch::<1>().is_none());
    assert!(probe.drain_batch::<0>().is_some());
}

const ORDINARY: Schedule = Schedule { policy: 0, param: SchedParam { sched_priority: 0 } };

const ATTEMPTS: [Attempt; 6] = [
    Attempt::Linux { original: Some(ORDINARY), status: 0 },
    Attempt::Linux { original: Some(ORDINARY), status: -1 },
    Attempt::Linux { original: None, status: 0 },
    Attempt::MacOs { status: 0 },
    Attempt::MacOs { status: 1 },
    Attempt::Other,
];

#[test]
fn best_effort_never_fails() {
    for attempt in ATTEMPTS {
        let mut p = ThreadProvisioner::new();
        let granted = p
            .provision(95, ThreadProvisioning::BestEffort, attempt)
            .expect("best effort does not fail");
        assert!(granted >= 0);
        assert_ne!(p.strategy(), ProvisionStrategy::Unprovisioned);
    }
}

#[test]
fn strict_mode_refuses_silent_downgrade() {
    for attempt in ATTEMPTS {
        let mut p = ThreadProvisioner::new();
        let r = p.provision(95, ThreadProvisioning::Strict(StrictAction::FatalError), attempt);
        if let Err(e) = r {
            assert_eq!(e, ProvisionError::StrictModeRefused);
        }
    }
}

#[test]
fn strict_refusal_leaves_everything_as_it_was() {
    let mut p = ThreadProvisioner::new();
    p.provision(40, ThreadProvisioning::BestEffort, ATTEMPTS[0]).unwrap();
    let mode = ThreadProvisioning::Strict(StrictAction::RetryWithBackoff { max_ms: 5 });
    assert_eq!(p.provision(50, mode, ATTEMPTS[1]), Err(ProvisionError::StrictModeRefused));
    assert_eq!(p.strategy(), ProvisionStrategy::Direct);
    assert_eq!(p.granted_prio(), 40);
    assert!(!p.fallback_active());
}

#[test]
fn granted_scheduling_is_reported() {
    let strict = ThreadProvisioning::Strict(StrictAction::FatalError);
    let mut p = ThreadProvisioner::new();
    assert_eq!(p.provision(95, strict, ATTEMPTS[0]), Ok(95));
    assert_eq!(p.strategy(), ProvisionStrategy::Direct);
    assert!(!p.fallback_active());

    assert_eq!(p.provision(120, strict, ATTEMPTS[0]), Ok(99));
    assert!(p.fallback_active());
    assert_eq!(p.provision(-4, strict, ATTEMPTS[0]), Ok(1));
    assert!(!p.fallback_active());

    assert_eq!(p.provision(120, strict, ATTEMPTS[3]), Ok(120));
    assert_eq!(p.strategy(), ProvisionStrategy::MacOsPolicy);
}

#[test]
fn fallback_is_marked() {
    let mut p = ThreadProvisioner::default();
    assert_eq!(p.provision(95, ThreadProvisioning::BestEffort, Attempt::Other), Ok(0));
    assert_eq!(p.strategy(), ProvisionStrategy::Fallback);
    assert_eq!(p.granted_prio(), 0);
    assert!(p.fallback_active());
    assert_eq!(p.release(), None);
}

#[test]
fn replaced_schedule_is_released_once() {
    let mut p = ThreadProvisioner::new();
    p.provision(95, ThreadProvisioning::BestEffort, ATTEMPTS[0]).unwrap();
    assert_eq!(p.release(), Some(ORDINARY));
    assert_eq!(p.release(), None);
}

#[test]
fn first_schedule_is_released_after_several_grants() {
    let fifo = Schedule { policy: 1, param: SchedParam { sched_priority: 80 } };
    let strict = ThreadProvisioning::Strict(StrictAction::FatalError);
    let mut p = ThreadProvisioner::new();
    let first = Attempt::Linux { original: Some(ORDINARY), status: 0 };
    let second = Attempt::Linux { original: Some(fifo), status: 0 };
    assert_eq!(p.provision(80, strict, first), Ok(80));
    assert_eq!(p.provision(90, strict, second), Ok(90));
    assert_eq!(p.release(), Some(ORDINARY));
    assert_eq!(p.provision(90, strict, second), Ok(90));
    assert_eq!(p.release(), Some(fifo));
}

#[test]
fn refused_requests_leave_nothing_to_release() {
    let mut p = ThreadProvisioner::new();
    p.provision(80, ThreadProvisioning::BestEffort, ATTEMPTS[1]).unwrap();
    p.provision(80, ThreadProvisioning::BestEffort, ATTEMPTS[3]).unwrap();
    assert_eq!(p.release(), None);
}

#[test]
fn requests_to_the_platform() {
    let param = SchedParam { sched_priority: 7 };
    assert_eq!(current_schedule(2, 0, param), Some(Schedule { policy: 2, param }));
    assert_eq!(current_schedule(-1, 0, param), None);
    assert_eq!(current_schedule(2, -1, param), None);
    let fifo = |sched_priority| Schedule { policy: 1, param: SchedParam { sched_priority } };
    assert_eq!(scheduler_request(Some(ORDINARY), 95), Some(fifo(95)));
    assert_eq!(scheduler_request(Some(ORDINARY), 0), Some(fifo(1)));
    assert_eq!(scheduler_request(Some(ORDINARY), 100), Some(fifo(99)));
    assert_eq!(scheduler_request(None, 95), None);
    assert_eq!(qos_request(), (0x21, 0));
}
