# RIAPS

The core of a realtime audio microkernel, verified with Verus.

- `src/` is the library. Every function in it is proved against its contract: the ring
  between one producer and one consumer, the publication of whole versions, deferred
  reclamation, processing graphs and the order in which their nodes run, the adapter between
  the blocks of a host and those of a graph, the event bus with its reserved slots, the
  performance probe, the decisions about scheduling and the floating-point unit, and the
  host backends. Samples are generic.
- `tests/` runs the library on concrete values, with floating-point samples where samples
  are concerned.
- `app/` carries the decisions of the library out: memory that threads share, control
  registers, the processor's clock and the system's scheduler.

The laws that hold across several functions are the public proof functions whose names begin
with `law_`.
