//! RIAPS: the verified core of a realtime audio microkernel.
//!
//! - [`spsc`], [`rcu`] and [`memory`]: a ring between one producer and one consumer,
//!   publication of whole versions, and deferred reclamation.
//! - [`fpu`], [`thread`] and [`probe`]: what is decided about the floating-point unit, the
//!   scheduling of a thread and the recording of measurements.
//! - [`node`], [`topology`], [`graph`] and [`event_bus`]: processing nodes, the graphs they
//!   form, and the bus on which events are reported.
//! - [`adapter_buf`], [`adapter_flow`], [`adapter_stream`], [`host`], [`alsa`] and
//!   [`coreaudio`]: between the blocks of a host and those of a graph, and the backends.
//!
//! Samples are of any type, so that everything holds for floating-point samples as well.
use vstd::prelude::*;

pub mod adapter_buf;
pub mod adapter_flow;
pub mod adapter_stream;
pub mod alsa;
pub mod coreaudio;
pub mod event_bus;
pub mod fpu;
pub mod graph;
pub mod host;
pub mod memory;
pub mod node;
pub mod probe;
pub mod rcu;
pub mod spsc;
pub mod thread;
pub mod topology;

pub use adapter_buf::AdapterBuffer;
pub use event_bus::{EventBus, KernelEvent, StopReason};
pub use fpu::FpuGuard;
pub use graph::{DspGraphHandle, DspGraphInner, DynamicGraphBuilder, GraphError, NodeId};
pub use host::{HostAdapter, HostConfig, HostError, HostHandle, NullAdapter};
pub use memory::{DropVTable, EmergencySlot, GcContext};
pub use node::{DspNode, GainNode, ParameterQueue, ProcessContext};
pub use probe::{PerformanceProbe, ProbeRecord};
pub use rcu::RcuHandle;
pub use spsc::{CachePadded, Consumer, Producer, SpscError, SpscRing};
pub use thread::{
    ProvisionError, ProvisionStrategy, StrictAction, ThreadProvisioner, ThreadProvisioning,
};

verus! {

} // verus!
