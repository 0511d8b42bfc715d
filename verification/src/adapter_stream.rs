//! Which samples pass through an adapter, over as many calls of the host as there are, when
//! the processor hands its input on.
use crate::adapter_buf::AdapterBuffer;
use crate::adapter_flow::AdapterFlow;
use crate::{adapter_buf, adapter_flow};
use vstd::prelude::*;

verus! {

/// An adapter whose processor hands its input on, and what has gone through it so far.
pub struct StreamState<S> {
    /// The samples that were taken from the host.
    pub taken: Seq<S>,
    /// Those that wait to be processed.
    pub input: Seq<S>,
    /// Those that wait for the host.
    pub output: Seq<S>,
    /// Those that were processed, and for which there was room.
    pub passed: Seq<S>,
    /// The number of those that were processed, and for which there was no room.
    pub lost: nat,
    /// What the host got: samples, and `None` for silence.
    pub heard: Seq<Option<S>>,
}

impl<S> StreamState<S> {
    /// Nothing has come or gone.
    pub open spec fn start() -> StreamState<S> {
        StreamState {
            taken: Seq::empty(),
            input: Seq::empty(),
            output: Seq::empty(),
            passed: Seq::empty(),
            lost: 0,
            heard: Seq::empty(),
        }
    }

    /// The number of samples, as far as a single call goes by it.
    pub open spec fn flow(self) -> AdapterFlow {
        AdapterFlow {
            input: self.input.len(),
            output: self.output.len(),
            dropped: 0,
            lost: self.lost,
            filled: 0,
        }
    }

    /// After a call in which the host offers `offered` and wants `wanted` samples.
    pub open spec fn after_call(
        self,
        block: nat,
        capacity: nat,
        offered: Seq<S>,
        wanted: nat,
    ) -> StreamState<S> {
        let accepted = offered.take(self.flow().accepted(capacity, offered.len()) as int);
        let stream = self.input + accepted;
        let cut = (self.flow().blocks(block, capacity, offered.len()) * block) as int;
        let ready = self.output + stream.take(cut);
        let delivered = self.flow().delivered(block, capacity, offered.len(), wanted);
        let kept = adapter_flow::min_of((ready.len() - delivered) as nat, capacity);
        let lost = ready.len() - delivered - kept;
        StreamState {
            taken: self.taken + accepted,
            input: stream.skip(cut),
            output: ready.skip(delivered as int).take(kept as int),
            passed: self.passed + stream.take(cut - lost),
            lost: (self.lost + lost) as nat,
            heard: self.heard + Seq::new(
                wanted,
                |i: int|
                    if i < delivered {
                        Some(ready[i])
                    } else {
                        None
                    },
            ),
        }
    }

    /// The samples that were heard and those that wait for the host are those that passed,
    /// every sample that was taken is accounted for, and unless one was lost, those that
    /// passed and those that wait to be processed are just those that were taken.
    pub open spec fn consistent(self, block: nat, capacity: nat) -> bool {
        &&& self.input.len() < block
        &&& self.output.len() <= capacity
        &&& sounds(self.heard) + self.output == self.passed
        &&& self.passed.len() + self.lost + self.input.len() == self.taken.len()
        &&& self.lost == 0 ==> self.passed + self.input == self.taken
    }

    /// After all of `calls`, each of them what the host offers and how much it wants.
    pub open spec fn after_calls(
        self,
        block: nat,
        capacity: nat,
        calls: Seq<(Seq<S>, nat)>,
    ) -> StreamState<S>
        decreases calls.len(),
    {
        if calls.len() == 0 {
            self
        } else {
            self.after_calls(block, capacity, calls.drop_last()).after_call(
                block,
                capacity,
                calls.last().0,
                calls.last().1,
            )
        }
    }
}

/// The samples in `heard`, without the silence.
pub open spec fn sounds<S>(heard: Seq<Option<S>>) -> Seq<S>
    decreases heard.len(),
{
    if heard.len() == 0 {
        Seq::empty()
    } else {
        match heard.last() {
            Some(sample) => sounds(heard.drop_last()).push(sample),
            None => sounds(heard.drop_last()),
        }
    }
}

proof fn lemma_sounds_add<S>(heard: Seq<Option<S>>, more: Seq<Option<S>>)
    ensures
        sounds(heard + more) == sounds(heard) + sounds(more),
    decreases more.len(),
{
    if more.len() == 0 {
        assert(heard + more =~= heard);
    } else {
        lemma_sounds_add(heard, more.drop_last());
        assert((heard + more).drop_last() =~= heard + more.drop_last());
        assert((heard + more).last() == more.last());
    }
}

/// The sound of what a call delivers is what was delivered.
proof fn lemma_sounds_delivered<S>(ready: Seq<S>, delivered: nat, wanted: nat)
    requires
        delivered <= ready.len(),
    ensures
        sounds(
            Seq::new(
                wanted,
                |i: int|
                    if i < delivered {
                        Some(ready[i])
                    } else {
                        None
                    },
            ),
        ) == ready.take(adapter_flow::min_of(delivered, wanted) as int),
    decreases wanted,
{
    let heard = Seq::new(
        wanted,
        |i: int|
            if i < delivered {
                Some(ready[i])
            } else {
                None
            },
    );
    if wanted > 0 {
        let fewer = (wanted - 1) as nat;
        lemma_sounds_delivered(ready, delivered, fewer);
        assert(heard.drop_last() =~= Seq::new(
            fewer,
            |i: int|
                if i < delivered {
                    Some(ready[i])
                } else {
                    None
                },
        ));
        if fewer < delivered {
            assert(ready.take(fewer as int).push(ready[fewer as int]) =~= ready.take(
                wanted as int,
            ));
        }
    }
}

/// However a host calls, what it hears and what waits for it are the samples that were
/// processed and found room, once and in order; and unless one found no room, these and the
/// samples that wait to be processed are all that was taken from the host.
pub proof fn law_stream_is_preserved<S>(
    block: nat,
    capacity: nat,
    calls: Seq<(Seq<S>, nat)>,
)
    requires
        0 < block <= capacity,
    ensures
        StreamState::<S>::start().after_calls(block, capacity, calls).consistent(block, capacity),
    decreases calls.len(),
{
    let after = StreamState::<S>::start().after_calls(block, capacity, calls);
    if calls.len() > 0 {
        law_stream_is_preserved(block, capacity, calls.drop_last());
        let before = StreamState::<S>::start().after_calls(block, capacity, calls.drop_last());
        lemma_call_preserves(before, block, capacity, calls.last().0, calls.last().1);
    } else {
        assert(sounds(after.heard) + after.output =~= after.passed);
        assert(after.passed + after.input =~= after.taken);
    }
}

proof fn lemma_call_preserves<S>(
    before: StreamState<S>,
    block: nat,
    capacity: nat,
    offered: Seq<S>,
    wanted: nat,
)
    requires
        0 < block <= capacity,
        before.consistent(block, capacity),
    ensures
        before.after_call(block, capacity, offered, wanted).consistent(block, capacity),
{
    let after = before.after_call(block, capacity, offered, wanted);
    let accepted = offered.take(before.flow().accepted(capacity, offered.len()) as int);
    let stream = before.input + accepted;
    let blocks = before.flow().blocks(block, capacity, offered.len());
    let cut = (blocks * block) as int;
    vstd::arithmetic::div_mod::lemma_fundamental_div_mod(stream.len() as int, block as int);
    assert(blocks * block == block * blocks) by (nonlinear_arith);
    let ready = before.output + stream.take(cut);
    let delivered = before.flow().delivered(block, capacity, offered.len(), wanted);
    let kept = adapter_flow::min_of((ready.len() - delivered) as nat, capacity);
    let lost = ready.len() - delivered - kept;
    let more = Seq::new(
        wanted,
        |i: int|
            if i < delivered {
                Some(ready[i])
            } else {
                None
            },
    );
    lemma_sounds_add(before.heard, more);
    lemma_sounds_delivered(ready, delivered, wanted);
    let old_sounds = sounds(before.heard);
    let last = (delivered + kept) as int;
    assert(ready.take(delivered as int) + ready.skip(delivered as int).take(kept as int)
        =~= ready.take(last));
    assert(ready.take(last) =~= before.output + stream.take(cut - lost));
    assert(sounds(after.heard) + after.output =~= old_sounds + ready.take(last));
    assert(old_sounds + (before.output + stream.take(cut - lost)) =~= after.passed);
    if after.lost == 0 {
        assert(stream.take(cut) + stream.skip(cut) =~= stream);
        assert(after.passed + after.input =~= before.passed + stream);
        assert(before.passed + stream =~= before.passed + before.input + accepted);
    }
}

/// The calls of a host that sends `sent` in blocks of `host` samples, and wants as many
/// samples back each time.
pub open spec fn steady_calls<S>(sent: Seq<S>, host: nat, calls: nat) -> Seq<(Seq<S>, nat)> {
    Seq::new(calls, |c: int| (adapter_buf::block_of(sent, host, c), host))
}

/// A steady host that meets the conditions of `law_stream_never_breaks` hears silence for
/// the theoretical latency, and from then on exactly what it sent, sample for sample.
pub proof fn law_stream_is_delayed<S>(
    sent: Seq<S>,
    calls: nat,
    block: nat,
    capacity: nat,
    host: nat,
    divisor: nat,
)
    requires
        0 < block,
        0 < host,
        host + block <= capacity + 1,
        adapter_flow::divides_both(divisor, block, host),
        adapter_flow::initial_latency(block, host) == block - divisor,
        sent.len() == calls * host,
    ensures
        ({
            let latency = adapter_flow::initial_latency(block, host);
            let after = StreamState::<S>::start().after_calls(
                block,
                capacity,
                steady_calls(sent, host, calls),
            );
            &&& after.taken == sent
            &&& after.heard.len() == sent.len()
            &&& forall|i: int|
                0 <= i < sent.len() ==> #[trigger] after.heard[i] == if i < latency {
                    None
                } else {
                    Some(sent[i - latency])
                }
        }),
    decreases calls,
{
    let latency = adapter_flow::initial_latency(block, host) as int;
    let all = steady_calls(sent, host, calls);
    let start = StreamState::<S>::start();
    let after = start.after_calls(block, capacity, all);
    lemma_steady_flow(sent, calls, block, capacity, host);
    if calls > 0 {
        let earlier = (calls - 1) as nat;
        let gone = (earlier * host) as int;
        let sent_before = sent.take(gone);
        let chunk = adapter_buf::block_of(sent, host, earlier as int);
        lemma_steady_last(sent, host, calls);
        law_stream_is_delayed(sent_before, earlier, block, capacity, host, divisor);
        lemma_steady_flow(sent_before, earlier, block, capacity, host);
        lemma_steady_delivery(calls, block, capacity, host, divisor);
        law_stream_is_preserved(block, capacity, all.drop_last());
        let before = start.after_calls(block, capacity, all.drop_last());
        let delivered = before.flow().delivered(block, capacity, host, host);
        let flow = adapter_flow::flow_after(earlier, block, capacity, host);
        adapter_flow::law_silence_is_bounded(earlier, block, capacity, host, divisor);
        assert(delivered == flow.delivered(block, capacity, host, host));
        if calls * host > latency {
            lemma_steady_silence(earlier, block, capacity, host, divisor);
            assert(sounds(before.heard).len() == gone - latency);
        }
        assert forall|i: int| 0 <= i < sent.len() implies #[trigger] after.heard[i] == (if i
            < latency {
            None
        } else {
            Some(sent[i - latency])
        }) by {
            if i < gone {
                assert(after.heard[i] == before.heard[i]);
                if i >= latency {
                    assert(sent_before[i - latency] == sent[i - latency]);
                }
            } else if calls * host > latency {
                lemma_delivered_sample(before, block, capacity, chunk, host, i - gone);
            }
        }
    }
}

/// What is delivered next comes right after what was delivered before, in the order of the
/// samples that were taken.
proof fn lemma_delivered_sample<S>(
    before: StreamState<S>,
    block: nat,
    capacity: nat,
    offered: Seq<S>,
    wanted: nat,
    j: int,
)
    requires
        0 < block <= capacity,
        before.consistent(block, capacity),
        before.lost == 0,
        0 <= j < before.flow().delivered(block, capacity, offered.len(), wanted),
    ensures
        ({
            let after = before.after_call(block, capacity, offered, wanted);
            let accepted = offered.take(before.flow().accepted(capacity, offered.len()) as int);
            let ready = before.output + (before.input + accepted).take(
                (before.flow().blocks(block, capacity, offered.len()) * block) as int,
            );
            after.taken[sounds(before.heard).len() + j] == ready[j]
        }),
{
    let accepted = offered.take(before.flow().accepted(capacity, offered.len()) as int);
    let stream = before.input + accepted;
    let blocks = before.flow().blocks(block, capacity, offered.len());
    vstd::arithmetic::div_mod::lemma_fundamental_div_mod(stream.len() as int, block as int);
    assert(blocks * block == block * blocks) by (nonlinear_arith);
    let after = before.after_call(block, capacity, offered, wanted);
    assert(after.taken =~= before.passed + stream);
}

/// The last call of a steady host, and those before it.
proof fn lemma_steady_last<S>(sent: Seq<S>, host: nat, calls: nat)
    requires
        calls > 0,
        sent.len() == calls * host,
    ensures
        ({
            let earlier = (calls - 1) as nat;
            let sent_before = sent.take((earlier * host) as int);
            &&& sent_before.len() == earlier * host
            &&& sent.len() == earlier * host + host
            &&& steady_calls(sent, host, calls).drop_last() == steady_calls(
                sent_before,
                host,
                earlier,
            )
            &&& steady_calls(sent, host, calls).last() == (
                adapter_buf::block_of(sent, host, earlier as int),
                host,
            )
            &&& adapter_buf::block_of(sent, host, earlier as int).len() == host
            &&& sent_before + adapter_buf::block_of(sent, host, earlier as int) == sent
        }),
{
    let earlier = (calls - 1) as nat;
    let sent_before = sent.take((earlier * host) as int);
    assert(calls * host == earlier * host + host) by (nonlinear_arith)
        requires
            calls == earlier + 1,
    ;
    let some = steady_calls(sent, host, calls).drop_last();
    assert forall|c: int| 0 <= c < earlier implies some[c] == steady_calls(
        sent_before,
        host,
        earlier,
    )[c] by {
        assert(c * host + host <= earlier * host) by (nonlinear_arith)
            requires
                c + 1 <= earlier,
        ;
        assert(0 <= c * host) by (nonlinear_arith)
            requires
                0 <= c,
        ;
        assert(adapter_buf::block_of(sent, host, c) =~= adapter_buf::block_of(
            sent_before,
            host,
            c,
        ));
    }
    assert(some =~= steady_calls(sent_before, host, earlier));
    assert(sent_before + adapter_buf::block_of(sent, host, earlier as int) =~= sent);
}

/// The queues of a steady host are as long as `flow_after` says, and all it sends is
/// taken.
proof fn lemma_steady_flow<S>(sent: Seq<S>, calls: nat, block: nat, capacity: nat, host: nat)
    requires
        0 < block,
        host + block <= capacity + 1,
        sent.len() == calls * host,
    ensures
        ({
            let flow = adapter_flow::flow_after(calls, block, capacity, host);
            let after = StreamState::<S>::start().after_calls(
                block,
                capacity,
                steady_calls(sent, host, calls),
            );
            &&& after.input.len() == flow.input
            &&& after.output.len() == flow.output
            &&& after.lost == 0
            &&& after.taken == sent
            &&& after.heard.len() == sent.len()
        }),
    decreases calls,
{
    let start = StreamState::<S>::start();
    let all = steady_calls(sent, host, calls);
    let after = start.after_calls(block, capacity, all);
    if calls == 0 {
        assert(calls * host == 0) by (nonlinear_arith)
            requires
                calls == 0,
        ;
        assert(after.taken =~= sent);
    } else {
        let earlier = (calls - 1) as nat;
        let sent_before = sent.take((earlier * host) as int);
        let chunk = adapter_buf::block_of(sent, host, earlier as int);
        lemma_steady_last(sent, host, calls);
        lemma_steady_flow(sent_before, earlier, block, capacity, host);
        let before = start.after_calls(block, capacity, all.drop_last());
        let flow = adapter_flow::flow_after(earlier, block, capacity, host);
        adapter_flow::law_silence_is_bounded(earlier, block, capacity, host, 1);
        adapter_flow::lemma_call_with_room(flow, block, capacity, host);
        assert(chunk.take(host as int) =~= chunk);
        let stream = before.input + chunk;
        let blocks = before.flow().blocks(block, capacity, host);
        vstd::arithmetic::div_mod::lemma_fundamental_div_mod(stream.len() as int, block as int);
        assert(blocks * block == block * blocks) by (nonlinear_arith);
    }
}

/// A call of a steady host that meets the conditions of `law_stream_never_breaks` is
/// silent from beginning to end as long as the theoretical latency is not over, and served
/// in full afterwards.
proof fn lemma_steady_delivery(calls: nat, block: nat, capacity: nat, host: nat, divisor: nat)
    requires
        calls > 0,
        0 < block,
        0 < host,
        host + block <= capacity + 1,
        adapter_flow::divides_both(divisor, block, host),
        adapter_flow::initial_latency(block, host) == block - divisor,
    ensures
        ({
            let latency = adapter_flow::initial_latency(block, host);
            let earlier = (calls - 1) as nat;
            let delivered = adapter_flow::flow_after(earlier, block, capacity, host).delivered(
                block,
                capacity,
                host,
                host,
            );
            if calls * host <= latency {
                delivered == 0
            } else {
                delivered == host && earlier * host >= latency
            }
        }),
{
    let earlier = (calls - 1) as nat;
    assert(calls * host == earlier * host + host) by (nonlinear_arith)
        requires
            calls == earlier + 1,
    ;
    if host < block {
        adapter_flow::lemma_initial_latency(block, host);
        let full = ((block - 1) / host as int) as nat;
        if calls * host > full * host {
            assert(earlier * host >= full * host) by (nonlinear_arith)
                requires
                    calls * host > full * host,
                    calls == earlier + 1,
            ;
        }
    }
    lemma_steady_silence(earlier, block, capacity, host, divisor);
    lemma_steady_silence(calls, block, capacity, host, divisor);
}

/// A steady host that meets the conditions of `law_stream_never_breaks` has been given
/// silence for the theoretical latency at most, before anything else.
proof fn lemma_steady_silence(calls: nat, block: nat, capacity: nat, host: nat, divisor: nat)
    requires
        0 < block,
        0 < host,
        host + block <= capacity + 1,
        adapter_flow::divides_both(divisor, block, host),
        adapter_flow::initial_latency(block, host) == block - divisor,
    ensures
        adapter_flow::flow_after(calls, block, capacity, host).filled == adapter_flow::min_of(
            calls * host,
            adapter_flow::initial_latency(block, host),
        ),
{
    if host < block {
        adapter_flow::law_initial_silence(calls, block, capacity, host);
    }
    if calls * host >= adapter_flow::initial_latency(block, host) {
        adapter_flow::law_stream_never_breaks(calls, block, capacity, host, divisor);
    }
}

/// What `process_host_block` did in one call.
pub struct HostCall<S> {
    /// What the host offered.
    pub offered: Seq<S>,
    /// What the processor left, block by block.
    pub outputs: Seq<Seq<S>>,
    /// What the host got.
    pub heard: Seq<S>,
    /// The buffer after the call.
    pub after: AdapterBuffer<S>,
}

impl<S> HostCall<S> {
    /// The call began with `before`, and the processor handed its input on.
    pub open spec fn handed_on(self, before: AdapterBuffer<S>) -> bool {
        &&& adapter_buf::call_done(before, self.offered, self.outputs, self.heard, self.after)
        &&& forall|k: int|
            0 <= k < self.outputs.len() ==> #[trigger] self.outputs[k] == adapter_buf::block_of(
                before.stream(self.offered),
                before.block(),
                k,
            )
    }

    /// How many samples, and not silence, the host got in a call that began with `before`.
    pub open spec fn delivered(self, before: AdapterBuffer<S>) -> nat {
        before.flow().delivered(
            before.block(),
            before.capacity(),
            self.offered.len(),
            self.heard.len(),
        )
    }
}

/// The buffer after `calls`, where it was `first` before them.
pub open spec fn buffer_after<S>(first: AdapterBuffer<S>, calls: Seq<HostCall<S>>) -> AdapterBuffer<
    S,
> {
    if calls.len() == 0 {
        first
    } else {
        calls.last().after
    }
}

/// `calls` were made of a fresh buffer `first`, one after the other, and the processor handed
/// its input on.
pub open spec fn is_run<S>(first: AdapterBuffer<S>, calls: Seq<HostCall<S>>) -> bool
    decreases calls.len(),
{
    if calls.len() == 0 {
        &&& first.wf()
        &&& first.input() == Seq::<S>::empty()
        &&& first.output() == Seq::<S>::empty()
        &&& first.flow() == AdapterFlow::start()
    } else {
        is_run(first, calls.drop_last()) && calls.last().handed_on(
            buffer_after(first, calls.drop_last()),
        )
    }
}

/// All that the host offered.
pub open spec fn all_offered<S>(calls: Seq<HostCall<S>>) -> Seq<S>
    decreases calls.len(),
{
    if calls.len() == 0 {
        Seq::empty()
    } else {
        all_offered(calls.drop_last()) + calls.last().offered
    }
}

/// All that the host got.
pub open spec fn all_heard<S>(calls: Seq<HostCall<S>>) -> Seq<S>
    decreases calls.len(),
{
    if calls.len() == 0 {
        Seq::empty()
    } else {
        all_heard(calls.drop_last()) + calls.last().heard
    }
}

/// All samples that the host got, without the silence.
pub open spec fn all_sound<S>(first: AdapterBuffer<S>, calls: Seq<HostCall<S>>) -> Seq<S>
    decreases calls.len(),
{
    if calls.len() == 0 {
        Seq::empty()
    } else {
        let before = buffer_after(first, calls.drop_last());
        all_sound(first, calls.drop_last()) + calls.last().heard.take(
            calls.last().delivered(before) as int,
        )
    }
}

/// The buffer keeps its shape from call to call.
proof fn lemma_run_shape<S>(first: AdapterBuffer<S>, calls: Seq<HostCall<S>>)
    requires
        is_run(first, calls),
    ensures
        first.wf(),
        ({
            let last = buffer_after(first, calls);
            &&& last.wf()
            &&& last.block() == first.block()
            &&& last.capacity() == first.capacity()
            &&& last.silence() == first.silence()
        }),
    decreases calls.len(),
{
    if calls.len() > 0 {
        lemma_run_shape(first, calls.drop_last());
    }
}

/// What the calls of a host come to when the processor hands its input on and there is room
/// for what the host offers, whatever it wants: no sample is dropped on the way in. What the
/// host gets in a call is a run of samples followed by nothing but silence. As long as no
/// processed sample has been dropped for want of room, the samples that the host has got are
/// exactly the first of those that it offered, none lost, repeated or out of order, and all
/// of them but those that still wait.
pub proof fn law_calls_preserve_stream<S>(first: AdapterBuffer<S>, calls: Seq<HostCall<S>>)
    requires
        is_run(first, calls),
        forall|c: int|
            0 <= c < calls.len() ==> (#[trigger] calls[c]).offered.len() + first.block()
                <= first.capacity() + 1,
    ensures
        ({
            let last = buffer_after(first, calls);
            let sent = all_offered(calls);
            let waiting = last.input().len() + last.output().len();
            &&& last.flow().dropped == 0
            &&& calls.len() > 0 ==> {
                let before = buffer_after(first, calls.drop_last());
                let delivered = calls.last().delivered(before);
                &&& delivered <= calls.last().heard.len()
                &&& calls.last().heard.skip(delivered as int) == adapter_buf::quiet(
                    first.silence(),
                    (calls.last().heard.len() - delivered) as nat,
                )
            }
            &&& all_sound(first, calls).len() + waiting + last.flow().lost == sent.len()
            &&& last.flow().lost == 0 ==> all_sound(first, calls) == sent.take(
                sent.len() - waiting,
            )
            &&& last.flow().lost == 0 ==> all_sound(first, calls) + last.output() + last.input()
                == sent
        }),
    decreases calls.len(),
{
    let last = buffer_after(first, calls);
    let sent = all_offered(calls);
    lemma_run_shape(first, calls);
    last.lemma_wf();
    if calls.len() > 0 {
        let earlier = calls.drop_last();
        let before = buffer_after(first, earlier);
        let call = calls.last();
        assert forall|c: int| 0 <= c < earlier.len() implies (#[trigger] earlier[c]).offered.len()
            + first.block() <= first.capacity() + 1 by {
            assert(earlier[c] == calls[c]);
        }
        law_calls_preserve_stream(first, earlier);
        lemma_run_shape(first, earlier);
        before.lemma_wf();
        assert(calls[calls.len() - 1] == call);
        let block = first.block();
        let stream = before.stream(call.offered);
        assert(call.offered.take(call.offered.len() as int) =~= call.offered);
        assert(stream == before.input() + call.offered);
        vstd::arithmetic::div_mod::lemma_fundamental_div_mod(stream.len() as int, block as int);
        assert(call.outputs.len() * block == block * call.outputs.len()) by (nonlinear_arith);
        lemma_joined_blocks(stream, block, call.outputs);
        let cut = (call.outputs.len() * block) as int;
        let ready = before.output() + stream.take(cut);
        let delivered = call.delivered(before) as int;
        if last.flow().lost == 0 {
            let old_sound = all_sound(first, earlier);
            assert(last.output() =~= ready.skip(delivered));
            assert(ready.take(delivered) + ready.skip(delivered) =~= ready);
            assert(stream.take(cut) + stream.skip(cut) =~= stream);
            assert(all_sound(first, calls) + last.output() + last.input() =~= old_sound + ready
                + stream.skip(cut));
            assert(old_sound + ready + stream.skip(cut) =~= old_sound + before.output() + stream);
            assert(old_sound + before.output() + stream =~= old_sound + before.output()
                + before.input() + call.offered);
        }
    } else {
        assert(all_sound(first, calls) + last.output() + last.input() =~= sent);
    }
    if last.flow().lost == 0 {
        assert(all_sound(first, calls) =~= sent.take(
            sent.len() - last.input().len() - last.output().len(),
        ));
    }
}

/// The calls as the model takes them.
pub open spec fn modelled<S>(calls: Seq<HostCall<S>>) -> Seq<(Seq<S>, nat)> {
    Seq::new(calls.len(), |c: int| (calls[c].offered, calls[c].heard.len()))
}

/// What the host gets for `heard`: the sample, or silence.
pub open spec fn voiced<S>(heard: Option<S>, silence: S) -> S {
    match heard {
        Some(sample) => sample,
        None => silence,
    }
}

/// The calls of `process_host_block` with a processor that hands its input on do to the
/// queues, and hand the host, just what [`StreamState::after_calls`] says.
pub proof fn law_calls_follow_model<S>(first: AdapterBuffer<S>, calls: Seq<HostCall<S>>)
    requires
        is_run(first, calls),
    ensures
        ({
            let last = buffer_after(first, calls);
            let model = StreamState::<S>::start().after_calls(
                first.block(),
                first.capacity(),
                modelled(calls),
            );
            &&& model.input == last.input()
            &&& model.output == last.output()
            &&& model.lost == last.flow().lost
            &&& model.heard.len() == all_heard(calls).len()
            &&& forall|i: int|
                0 <= i < all_heard(calls).len() ==> #[trigger] all_heard(calls)[i] == voiced(
                    model.heard[i],
                    first.silence(),
                )
        }),
    decreases calls.len(),
{
    let last = buffer_after(first, calls);
    let start = StreamState::<S>::start();
    let block = first.block();
    let capacity = first.capacity();
    let model = start.after_calls(block, capacity, modelled(calls));
    lemma_run_shape(first, calls);
    if calls.len() > 0 {
        let earlier = calls.drop_last();
        let before = buffer_after(first, earlier);
        let call = calls.last();
        law_calls_follow_model(first, earlier);
        lemma_run_shape(first, earlier);
        before.lemma_wf();
        last.lemma_wf();
        assert(modelled(calls).drop_last() =~= modelled(earlier));
        let state = start.after_calls(block, capacity, modelled(earlier));
        let stream = before.stream(call.offered);
        vstd::arithmetic::div_mod::lemma_fundamental_div_mod(stream.len() as int, block as int);
        assert(call.outputs.len() * block == block * call.outputs.len()) by (nonlinear_arith);
        lemma_joined_blocks(stream, block, call.outputs);
        let ready = before.output() + stream.take((call.outputs.len() * block) as int);
        let delivered = call.delivered(before) as int;
        assert(model == state.after_call(block, capacity, call.offered, call.heard.len()));
        assert forall|i: int| 0 <= i < all_heard(calls).len() implies #[trigger] all_heard(calls)[i]
            == voiced(model.heard[i], first.silence()) by {
            let gone = all_heard(earlier).len();
            if i < gone {
                assert(all_heard(calls)[i] == all_heard(earlier)[i]);
                assert(model.heard[i] == state.heard[i]);
            } else if i - gone < delivered {
                assert(call.heard[i - gone] == call.heard.take(delivered)[i - gone]);
                assert(ready[i - gone] == ready.take(delivered)[i - gone]);
            } else {
                assert(call.heard[i - gone] == call.heard.skip(delivered)[i - gone - delivered]);
            }
        }
    }
}

/// A steady host that meets the conditions of `law_stream_never_breaks` gets silence from
/// `process_host_block` for the theoretical latency, and from then on exactly what it sent,
/// sample for sample, when the processor hands its input on.
pub proof fn law_steady_calls_delay_stream<S>(
    first: AdapterBuffer<S>,
    calls: Seq<HostCall<S>>,
    sent: Seq<S>,
    host: nat,
    divisor: nat,
)
    requires
        is_run(first, calls),
        modelled(calls) == steady_calls(sent, host, calls.len()),
        sent.len() == calls.len() * host,
        0 < host,
        host + first.block() <= first.capacity() + 1,
        adapter_flow::divides_both(divisor, first.block(), host),
        adapter_flow::initial_latency(first.block(), host) == first.block() - divisor,
    ensures
        all_heard(calls).len() == sent.len(),
        forall|i: int|
            0 <= i < sent.len() ==> #[trigger] all_heard(calls)[i] == if i
                < adapter_flow::initial_latency(first.block(), host) {
                first.silence()
            } else {
                sent[i - adapter_flow::initial_latency(first.block(), host)]
            },
{
    lemma_run_shape(first, calls);
    first.lemma_wf();
    law_calls_follow_model(first, calls);
    law_stream_is_delayed(sent, calls.len(), first.block(), first.capacity(), host, divisor);
}

proof fn lemma_joined_blocks<S>(stream: Seq<S>, block: nat, outputs: Seq<Seq<S>>)
    requires
        outputs.len() * block <= stream.len(),
        forall|k: int|
            0 <= k < outputs.len() ==> #[trigger] outputs[k] == adapter_buf::block_of(stream, block, k),
    ensures
        adapter_buf::joined(outputs) == stream.take((outputs.len() * block) as int),
    decreases outputs.len(),
{
    if outputs.len() == 0 {
        assert(0 * block == 0) by (nonlinear_arith);
        assert(adapter_buf::joined(outputs) =~= stream.take(0));
    } else {
        let rest = outputs.drop_last();
        let done = rest.len();
        assert((done + 1) * block == done * block + block) by (nonlinear_arith);
        assert(done * block >= 0) by (nonlinear_arith);
        assert forall|k: int| 0 <= k < rest.len() implies #[trigger] rest[k] == adapter_buf::block_of(
            stream,
            block,
            k,
        ) by {
            assert(rest[k] == outputs[k]);
        }
        lemma_joined_blocks(stream, block, rest);
        assert(outputs.last() == outputs[done as int]);
        assert(adapter_buf::joined(outputs) =~= stream.take((outputs.len() * block) as int));
    }
}

} // verus!
