use riaps::event_bus::{
    admits, EventBus, GcBackpressureEvent, KernelEvent, SpscBackpressureEvent, StopReason,
    RESERVED_SLOTS,
};
use riaps::graph::{DspGraphHandle, DynamicGraphBuilder, GraphError, NodeId, ProcessStats};
use riaps::node::{
    DspNode, GainNode, ParameterQueue, PassThrough, ProcessContext, SumMixer,
};
use riaps::topology::{sink_list, source_lists, target_lists, topological_order};
use std::sync::Arc;

fn ctx() -> ProcessContext {
    ProcessContext { sample_rate: 96_000, block_size: 512 }
}

fn db_to_linear(db: f32) -> f32 {
    10.0f32.powf(db / 20.0)
}

fn gain(db: f32) -> GainNode<f32, fn(f32) -> f32> {
    GainNode::new(db, db_to_linear as fn(f32) -> f32)
}

fn gains(max_block: usize, dbs: &[f32]) -> DynamicGraphBuilder<f32> {
    let mut builder = DynamicGraphBuilder::new(max_block);
    for &db in dbs {
        builder.add_node(Box::new(gain(db)));
    }
    builder
}

#[test]
fn parameter_queue_keeps_latest_only() {
    let mut q = ParameterQueue::<f32, 8>::new();
    assert!(q.try_push(1.0));
    assert!(q.try_push(2.0));
    assert!(q.try_push(3.0));
    let mut v = 0.0;
    assert!(q.drain_to(&mut v));
    assert_eq!(v, 3.0);
    assert!(!q.drain_to(&mut v));
    assert_eq!(v, 3.0);
}

#[test]
fn full_parameter_queue_drops_the_change() {
    let mut q = ParameterQueue::<u8, 2>::default();
    assert!(q.try_push(1));
    assert!(q.try_push(2));
    assert!(!q.try_push(3));
    let mut v = 0;
    assert!(q.drain_to(&mut v));
    assert_eq!(v, 2);
    assert!(q.try_push(4));
}

#[test]
fn gain_node_applies_pushed_param() {
    let mut node = gain(0.0);
    let ctx = ProcessContext { sample_rate: 96_000, block_size: 4 };
    let input = [1.0f32; 4];
    let mut output = [0.0f32; 4];

    node.process(&input, &mut output, &ctx);
    assert_eq!(output, [1.0; 4]);

    node.param_db.try_push(-6.0);
    node.process(&input, &mut output, &ctx);
    let expected = 10.0f32.powf(-6.0 / 20.0);
    for &o in &output {
        assert!((o - expected).abs() < 1e-6);
    }
    assert_eq!(node.gain_db(), -6.0);
}

#[test]
fn gain_node_scales_as_far_as_both_reach() {
    let mut node = GainNode::new(3.0f32, |factor: f32| factor);
    let mut output = [9.0f32; 4];
    node.process(&[1.0, 2.0], &mut output, &ctx());
    assert_eq!(output, [3.0, 6.0, 9.0, 9.0]);
    let mut short = [0.0f32; 1];
    node.process(&[5.0, 6.0], &mut short, &ctx());
    assert_eq!(short, [15.0]);
    node.reset();
    assert_eq!(node.gain_db(), 3.0);
    assert_eq!(DspNode::<f32>::cpu_budget_us(&node), 50);
    assert_eq!(DspNode::<f32>::latency_samples(&node), 0);
}

#[test]
fn default_budget() {
    assert_eq!(DspNode::<f32>::cpu_budget_us(&PassThrough), 1000);
    assert_eq!(DspNode::<f32>::cpu_budget_us(&SumMixer), 1000);
}

#[test]
fn graph_chain_compiles_and_processes() {
    let mut builder = DynamicGraphBuilder::new(512);
    let a = builder.add_node(Box::new(gain(-6.0)));
    let b = builder.add_node(Box::new(gain(-6.0)));
    builder.connect(a, b).unwrap();

    let mut graph = builder.compile().expect("a graph without cycle compiles");
    assert_eq!(graph.node_count(), 2);

    let inner = Arc::get_mut(&mut graph).unwrap();
    let input = vec![1.0f32; 512];
    let mut output = vec![0.0f32; 512];
    inner.process(&input, &mut output, &ctx());

    let expected = 10.0f32.powf(-12.0 / 20.0);
    assert!((output[0] - expected).abs() < 1e-4, "got {} expected {}", output[0], expected);
    assert_eq!(inner.stats().blocks_processed, 1);
    assert_eq!(inner.stats().samples_processed, 512);
}

#[test]
fn diamond_dag_multi_input_mixing() {
    let mut b = DynamicGraphBuilder::new(64);
    let a = b.add_node(Box::new(PassThrough));
    let left = b.add_node(Box::new(gain(-6.0)));
    let right = b.add_node(Box::new(gain(-6.0)));
    let sink = b.add_node(Box::new(PassThrough));

    b.connect(a, left).unwrap();
    b.connect(a, right).unwrap();
    b.connect(left, sink).unwrap();
    b.connect(right, sink).unwrap();

    let mut graph = b.compile().unwrap();
    let inner = Arc::get_mut(&mut graph).unwrap();

    let input = vec![1.0f32; 64];
    let mut output = vec![0.0f32; 64];
    inner.process(&input, &mut output, &ctx());

    let half = 10.0f32.powf(-6.0 / 20.0);
    let expected = half * 2.0;
    assert!((output[0] - expected).abs() < 1e-3, "got {} expected {}", output[0], expected);
}

#[test]
fn three_way_merge() {
    let mut b = DynamicGraphBuilder::new(16);
    let a = b.add_node(Box::new(gain(0.0)));
    let b_node = b.add_node(Box::new(gain(0.0)));
    let c = b.add_node(Box::new(gain(0.0)));
    let d = b.add_node(Box::new(SumMixer));

    b.connect(a, d).unwrap();
    b.connect(b_node, d).unwrap();
    b.connect(c, d).unwrap();

    let mut graph = b.compile().unwrap();
    let inner = Arc::get_mut(&mut graph).unwrap();

    let input = vec![2.0f32; 16];
    let mut output = vec![0.0f32; 16];
    inner.process(&input, &mut output, &ctx());

    assert!((output[0] - 6.0).abs() < 1e-5, "got {}", output[0]);
}

#[test]
fn graph_cycle_is_rejected() {
    let mut builder = DynamicGraphBuilder::new(64);
    let a = builder.add_node(Box::new(gain(0.0)));
    let b = builder.add_node(Box::new(gain(0.0)));
    builder.connect(a, b).unwrap();
    builder.connect(b, a).unwrap();
    assert_eq!(builder.compile().err(), Some(GraphError::CycleDetected));
}

#[test]
fn self_loop_rejected() {
    let mut builder = DynamicGraphBuilder::new(64);
    let a = builder.add_node(Box::new(gain(0.0)));
    assert_eq!(builder.connect(a, a), Err(GraphError::SelfLoop));
}

#[test]
fn graph_invalid_edge_and_duplicate_rejected() {
    let mut builder = DynamicGraphBuilder::new(64);
    let a = builder.add_node(Box::new(gain(0.0)));
    assert_eq!(builder.connect(a, NodeId(9)), Err(GraphError::InvalidNode(9)));
    let b = builder.add_node(Box::new(gain(0.0)));
    builder.connect(a, b).unwrap();
    assert_eq!(builder.connect(a, b), Err(GraphError::DuplicateEdge));
}

#[test]
fn graph_rcu_swap_protocol() {
    let g1 = gains(64, &[0.0]).compile().unwrap();
    let mut handle = DspGraphHandle::new(g1.clone());
    assert_eq!(handle.version(), 1);

    let mut b2 = DynamicGraphBuilder::new(64);
    b2.add_node(Box::new(gain(-3.0)));
    let g2 = b2.compile().unwrap();

    let old = handle.swap(g2.clone()).unwrap();
    assert_eq!(handle.version(), 2);
    assert!(Arc::ptr_eq(handle.load().unwrap(), &g2));
    assert!(Arc::ptr_eq(&old, &g1));
    drop(old);
    assert_eq!(Arc::strong_count(&g1), 1);
}

#[test]
fn empty_handle() {
    let mut handle = DspGraphHandle::<f32>::empty();
    assert!(handle.is_null());
    assert_eq!(handle.version(), 0);
    assert!(handle.load().is_none());
    assert!(handle.swap(gains(8, &[0.0]).compile().unwrap()).is_none());
    assert!(!handle.is_null());
    assert_eq!(handle.version(), 1);
}

#[test]
fn reset_clears_stats() {
    let mut builder = DynamicGraphBuilder::new(16);
    builder.add_node(Box::new(PassThrough));
    let mut g = builder.compile().unwrap();
    let inner = Arc::get_mut(&mut g).unwrap();
    let input = [1.0f32; 16];
    let mut out = [0.0f32; 16];
    inner.process(&input, &mut out, &ctx());
    inner.process(&input, &mut out, &ctx());
    assert_eq!(inner.stats().blocks_processed, 2);
    inner.reset();
    assert_eq!(inner.stats().blocks_processed, 0);
    assert_eq!(inner.stats().samples_processed, 0);
}

#[test]
fn graph_without_nodes_is_rejected() {
    let builder = DynamicGraphBuilder::<f32>::new(8);
    assert_eq!(builder.node_count(), 0);
    assert_eq!(builder.compile().err(), Some(GraphError::Empty));
}

#[test]
fn connect_names_the_first_invalid_node() {
    let mut builder = gains(8, &[0.0]);
    assert_eq!(builder.connect(NodeId(4), NodeId(4)), Err(GraphError::InvalidNode(4)));
    assert_eq!(builder.connect(NodeId(5), NodeId(0)), Err(GraphError::InvalidNode(5)));
    assert_eq!(builder.connect(NodeId(0), NodeId(6)), Err(GraphError::InvalidNode(6)));
}

#[test]
fn disconnect_undoes_connect() {
    let mut builder = gains(8, &[0.0, 0.0]);
    builder.connect(NodeId(0), NodeId(1)).unwrap();
    builder.connect(NodeId(1), NodeId(0)).unwrap();
    builder.disconnect(NodeId(1), NodeId(0));
    builder.disconnect(NodeId(7), NodeId(0));
    builder.connect(NodeId(1), NodeId(0)).unwrap();
    builder.disconnect(NodeId(1), NodeId(0));
    assert_eq!(builder.connect(NodeId(0), NodeId(1)), Err(GraphError::DuplicateEdge));
    assert!(builder.compile().is_ok());
}

#[test]
fn longer_cycle_behind_a_source_is_rejected() {
    let mut builder = gains(8, &[0.0; 5]);
    for (from, to) in [(0, 1), (1, 2), (2, 3), (3, 1), (3, 4)] {
        builder.connect(NodeId(from), NodeId(to)).unwrap();
    }
    assert_eq!(builder.compile().err(), Some(GraphError::CycleDetected));
}

#[test]
fn run_order_is_breadth_first() {
    let edges = vec![(3, 0), (3, 2), (2, 1), (0, 1), (4, 2)];
    assert_eq!(topological_order(5, &edges), Some(vec![3, 4, 0, 2, 1]));
    assert_eq!(target_lists(5, &edges), vec![vec![1], vec![], vec![1], vec![0, 2], vec![2]]);
    assert_eq!(source_lists(5, &edges), vec![vec![3], vec![2, 0], vec![3, 4], vec![], vec![]]);
    assert_eq!(sink_list(5, &edges), vec![1]);
    assert_eq!(sink_list(3, &vec![(1, 0)]), vec![0, 2]);
    assert_eq!(topological_order(2, &vec![(0, 1), (1, 0)]), None);
    assert_eq!(topological_order(0, &vec![]), Some(vec![]));
}

fn factor(factor: f32) -> GainNode<f32, fn(f32) -> f32> {
    GainNode::new(factor, (|factor| factor) as fn(f32) -> f32)
}

#[test]
fn graph_output_is_the_sum_of_the_sinks() {
    let mut builder = DynamicGraphBuilder::<f32>::new(4);
    let source = builder.add_node(Box::new(factor(2.0)));
    let early = builder.add_node(Box::new(factor(5.0)));
    let late = builder.add_node(Box::new(factor(7.0)));
    builder.connect(source, early).unwrap();
    builder.connect(source, late).unwrap();
    let mut graph = builder.compile().unwrap();
    let inner = Arc::get_mut(&mut graph).unwrap();
    assert_eq!(inner.max_block(), 4);
    let mut output = [9.0f32; 6];
    inner.process(&[1.0, 2.0, 3.0, 4.0, 5.0], &mut output, &ctx());
    assert_eq!(output, [24.0, 48.0, 72.0, 96.0, 0.0, 0.0]);
    assert_eq!(inner.stats().samples_processed, 4);
    let mut short = [0.0f32; 2];
    inner.process(&[1.0, 2.0, 3.0], &mut short, &ctx());
    assert_eq!(short, [24.0, 48.0]);
    assert_eq!(inner.stats().blocks_processed, 2);
    assert_eq!(inner.stats().samples_processed, 6);
}

#[test]
fn graph_output_of_a_chain_is_that_of_its_end() {
    let mut builder = DynamicGraphBuilder::<f32>::new(4);
    let end = builder.add_node(Box::new(factor(7.0)));
    let source = builder.add_node(Box::new(factor(2.0)));
    builder.connect(source, end).unwrap();
    let mut graph = builder.compile().unwrap();
    let mut output = [0.0f32; 2];
    Arc::get_mut(&mut graph).unwrap().process(&[1.0, 2.0], &mut output, &ctx());
    assert_eq!(output, [14.0, 28.0]);
}

#[test]
fn nodes_without_delay_add_none() {
    let mut builder = DynamicGraphBuilder::<f32>::new(4);
    builder.add_node(Box::new(gain(0.0)));
    builder.add_node(Box::new(PassThrough));
    builder.add_node(Box::new(SumMixer));
    let graph = builder.compile().unwrap();
    assert_eq!(graph.total_latency_samples(), 0);
}

#[test]
fn default_stats_are_zero() {
    let stats = ProcessStats::default();
    assert_eq!((stats.blocks_processed, stats.samples_processed), (0, 0));
}

#[test]
fn reserved_slots_protect_fatal_events() {
    let mut bus = EventBus::<16>::new();

    for i in 0..8 {
        bus.emit(KernelEvent::PerformanceProbeOverload {
            node_id: i,
            elapsed_us: 2000,
            budget_us: 1000,
        });
    }
    assert_eq!(bus.len(), 8);
    assert_eq!(bus.overflow_count(), 0);

    bus.emit(KernelEvent::GcOrphanReclaimed { count: 1 });
    assert_eq!(bus.len(), 8);
    assert_eq!(bus.overflow_count(), 1);

    bus.emit(KernelEvent::AudioThreadStopped { reason: StopReason::HostError });
    assert_eq!(bus.len(), 9);

    let mut fatal_seen = false;
    for e in bus.drain() {
        if matches!(e, KernelEvent::AudioThreadStopped { .. }) {
            fatal_seen = true;
        }
    }
    assert!(fatal_seen);
    assert!(bus.is_empty());
}

#[test]
fn fatal_events() {
    let fatal = [
        KernelEvent::AudioThreadStopped { reason: StopReason::Requested },
        KernelEvent::AudioThreadStopped { reason: StopReason::Panic },
        KernelEvent::HostAdapterBlockSizeChanged { old: 64, new: 128 },
        KernelEvent::SpscOverflow { dropped_commands: 1 },
    ];
    let ordinary = [
        KernelEvent::SpscBackpressure(SpscBackpressureEvent { occupancy_pct: 90 }),
        KernelEvent::GcBackpressure(GcBackpressureEvent { level: 2 }),
        KernelEvent::GcEmergencySlotUsed { slot_index: 1 },
        KernelEvent::GcOrphanReclaimed { count: 1 },
        KernelEvent::LogQueueOverflow { dropped_records: 1 },
        KernelEvent::LogFlushComplete { records_flushed: 1 },
        KernelEvent::FpuSubnormalDetected { count: 1 },
        KernelEvent::AudioThreadStarted,
        KernelEvent::ShutdownProgress { step: 1, total: 2 },
        KernelEvent::ThreadProvisionerFallback { requested: 95, granted: 0 },
        KernelEvent::PerformanceProbeOverload { node_id: 1, elapsed_us: 2, budget_us: 1 },
    ];
    for event in fatal {
        assert!(event.is_fatal());
        assert!(admits(1, &event));
        assert!(!admits(0, &event));
    }
    for event in ordinary {
        assert!(!event.is_fatal());
        assert!(admits(RESERVED_SLOTS + 1, &event));
        assert!(!admits(RESERVED_SLOTS, &event));
    }
}

#[test]
fn bus_full_of_fatal_events_drops_and_counts() {
    let mut bus = EventBus::<10>::new();
    for step in 0..4 {
        bus.emit(KernelEvent::ShutdownProgress { step, total: 4 });
    }
    for dropped_commands in 0..10 {
        bus.emit(KernelEvent::SpscOverflow { dropped_commands });
    }
    assert_eq!(bus.len(), 10);
    assert_eq!(bus.overflow_count(), 4);
    let events = bus.drain();
    assert!(matches!(events[0], KernelEvent::ShutdownProgress { step: 0, total: 4 }));
    assert!(matches!(events[1], KernelEvent::ShutdownProgress { step: 1, total: 4 }));
    for (i, event) in events[2..].iter().enumerate() {
        assert!(
            matches!(event, KernelEvent::SpscOverflow { dropped_commands } if *dropped_commands == i as u32)
        );
    }
    assert_eq!(bus.overflow_count(), 4);
    bus.emit(KernelEvent::AudioThreadStarted);
    assert_eq!(bus.len(), 1);
}
