//! Between a host that calls with blocks of any length and a processor that takes blocks
//! of one length.
use crate::adapter_flow;
use crate::adapter_flow::AdapterFlow;
use std::collections::VecDeque;
use vstd::prelude::*;

verus! {

/// The samples of block number `index` of `stream`.
pub open spec fn block_of<S>(stream: Seq<S>, block: nat, index: int) -> Seq<S> {
    stream.subrange(index * block, index * block + block)
}

/// The samples of `outputs`, one output after the other.
pub open spec fn joined<S>(outputs: Seq<Seq<S>>) -> Seq<S>
    decreases outputs.len(),
{
    if outputs.len() == 0 {
        Seq::empty()
    } else {
        joined(outputs.drop_last()) + outputs.last()
    }
}

/// `length` samples of silence.
pub open spec fn quiet<S>(silence: S, length: nat) -> Seq<S> {
    Seq::new(length, |i: int| silence)
}

/// The processor is called `calls` times, and `index` is the number of one of the calls.
pub open spec fn is_call(index: int, calls: nat) -> bool {
    0 <= index < calls
}

/// What the processor finds in its output at call number `index`: what the call before
/// it left there, or `first` at the first call.
pub open spec fn found_output<S>(first: Seq<S>, outputs: Seq<Seq<S>>, index: int) -> Seq<S> {
    if index == 0 {
        first
    } else {
        outputs[index - 1]
    }
}

/// `ready`, the samples that are or were there for the host, has been dealt out: the host's
/// `heard` begins with the first `given` of them, `fifo` holds as many of the rest as there
/// is room for, and `lost` found no room.
pub open spec fn dealt<S>(
    ready: Seq<S>,
    heard: Seq<S>,
    given: int,
    fifo: Seq<S>,
    capacity: nat,
    lost: int,
) -> bool {
    &&& given == adapter_flow::min_of(heard.len(), ready.len())
    &&& heard.take(given) == ready.take(given)
    &&& fifo == ready.skip(given).take(
        adapter_flow::min_of((ready.len() - given) as nat, capacity) as int,
    )
    &&& lost == ready.len() - given - fifo.len()
}

/// What a call of the host does, apart from what the processor does: `before` was offered
/// `offered`, the processor left `outputs`, the host got `heard`, and the buffer became
/// `after`.
pub open spec fn call_done<S>(
    before: AdapterBuffer<S>,
    offered: Seq<S>,
    outputs: Seq<Seq<S>>,
    heard: Seq<S>,
    after: AdapterBuffer<S>,
) -> bool {
    let flow = before.flow();
    let block = before.block();
    let capacity = before.capacity();
    let blocks = flow.blocks(block, capacity, offered.len());
    let delivered = flow.delivered(block, capacity, offered.len(), heard.len());
    &&& after.wf()
    &&& after.block() == block
    &&& after.capacity() == capacity
    &&& after.silence() == before.silence()
    &&& after.flow() == flow.after_call(block, capacity, offered.len(), heard.len())
    &&& after.input() == before.stream(offered).skip((blocks * block) as int)
    &&& outputs.len() == blocks
    &&& after.last_output() == found_output(before.last_output(), outputs, blocks as int)
    &&& dealt(
        before.output() + joined(outputs),
        heard,
        delivered as int,
        after.output(),
        capacity,
        after.flow().lost - flow.lost,
    )
    &&& heard.skip(delivered as int) == quiet(before.silence(), (heard.len() - delivered) as nat)
}

/// Collects what the host offers, has it processed in blocks of one length, and hands the
/// host as many samples as it wants. Neither queue ever holds more than the capacity.
pub struct AdapterBuffer<S> {
    input_fifo: VecDeque<S>,
    output_fifo: VecDeque<S>,
    scratch_in: Vec<S>,
    scratch_out: Vec<S>,
    target_block_size: usize,
    capacity: usize,
    dropped_input_samples: u64,
    dropped_output_samples: u64,
    zero_filled_samples: u64,
    /// The sample that stands for silence.
    silence: S,
}

impl<S> AdapterBuffer<S> {
    /// The samples that wait to be processed.
    pub closed spec fn input(&self) -> Seq<S> {
        self.input_fifo@
    }

    /// The processed samples that wait for the host.
    pub closed spec fn output(&self) -> Seq<S> {
        self.output_fifo@
    }

    /// What the processor finds in its output when it is called next.
    pub closed spec fn last_output(&self) -> Seq<S> {
        self.scratch_out@
    }

    /// The length of the blocks that are processed.
    pub closed spec fn block(&self) -> nat {
        self.target_block_size as nat
    }

    /// How many samples can wait in each of the two queues.
    pub closed spec fn capacity(&self) -> nat {
        self.capacity as nat
    }

    pub closed spec fn silence(&self) -> S {
        self.silence
    }

    /// The samples to be processed once the host has offered `offered`: those that wait,
    /// and as many as there is room for.
    pub open spec fn stream(&self, offered: Seq<S>) -> Seq<S> {
        self.input() + offered.take(self.flow().accepted(self.capacity(), offered.len()) as int)
    }

    pub closed spec fn flow(&self) -> AdapterFlow {
        AdapterFlow {
            input: self.input_fifo@.len(),
            output: self.output_fifo@.len(),
            dropped: self.dropped_input_samples as nat,
            lost: self.dropped_output_samples as nat,
            filled: self.zero_filled_samples as nat,
        }
    }

    /// There is room for two blocks, less than a block waits to be processed, and no more
    /// waits for the host than there is room for.
    pub closed spec fn wf(&self) -> bool {
        &&& 0 < self.target_block_size
        &&& self.capacity >= 2 * self.target_block_size
        &&& self.scratch_in@.len() == self.target_block_size
        &&& self.scratch_out@.len() == self.target_block_size
        &&& self.input_fifo@.len() < self.target_block_size
        &&& self.output_fifo@.len() <= self.capacity
    }

    /// What holds of every buffer that is well formed.
    pub proof fn lemma_wf(&self)
        requires
            self.wf(),
        ensures
            0 < self.block(),
            self.capacity() >= 2 * self.block(),
            self.input().len() < self.block(),
            self.input().len() <= self.capacity(),
            self.output().len() <= self.capacity(),
            self.last_output().len() == self.block(),
            self.flow().input == self.input().len(),
            self.flow().output == self.output().len(),
    {
    }
}

impl<S: Copy + Default> AdapterBuffer<S> {
    /// A buffer for blocks of `target_block_size` samples, in which up to `capacity`
    /// samples can wait.
    pub fn new(target_block_size: usize, capacity: usize) -> (buffer: Self)
        requires
            target_block_size > 0,
            capacity >= 2 * target_block_size,
        ensures
            buffer.wf(),
            buffer.block() == target_block_size,
            buffer.capacity() == capacity,
            buffer.input() == Seq::<S>::empty(),
            buffer.output() == Seq::<S>::empty(),
            buffer.flow() == AdapterFlow::start(),
            call_ensures(S::default, (), buffer.silence()),
            buffer.last_output() == quiet(buffer.silence(), buffer.block()),
            buffer.flow().dropped == 0,
            buffer.flow().lost == 0,
            buffer.flow().filled == 0,
            buffer.last_output().len() == target_block_size,
            forall|i: int|
                0 <= i < target_block_size ==> #[trigger] buffer.last_output()[i]
                    == buffer.silence(),
    {
        let silence = S::default();
        let mut scratch_in: Vec<S> = Vec::with_capacity(target_block_size);
        let mut scratch_out: Vec<S> = Vec::with_capacity(target_block_size);
        while scratch_in.len() < target_block_size
            invariant
                scratch_in@.len() <= target_block_size,
                scratch_out@ =~= quiet(silence, scratch_in@.len()),
            decreases target_block_size - scratch_in@.len(),
        {
            scratch_in.push(silence);
            scratch_out.push(silence);
        }
        Self {
            input_fifo: VecDeque::with_capacity(capacity),
            output_fifo: VecDeque::with_capacity(capacity),
            scratch_in,
            scratch_out,
            target_block_size,
            capacity,
            dropped_input_samples: 0,
            dropped_output_samples: 0,
            zero_filled_samples: 0,
            silence,
        }
    }
}

/// Appends the first `count` of `samples` to `fifo`.
fn append_samples<S: Copy>(fifo: &mut VecDeque<S>, samples: &[S], count: usize)
    requires
        count <= samples@.len(),
    ensures
        final(fifo)@ == old(fifo)@ + samples@.take(count as int),
{
    let mut i: usize = 0;
    while i < count
        invariant
            i <= count <= samples@.len(),
            fifo@ =~= old(fifo)@ + samples@.take(i as int),
        decreases count - i,
    {
        fifo.push_back(samples[i]);
        i = i + 1;
    }
}

/// Moves samples from the front of `fifo` until `block` is full.
fn take_block<S: Copy>(fifo: &mut VecDeque<S>, block: &mut Vec<S>)
    requires
        old(block)@.len() <= old(fifo)@.len(),
    ensures
        final(block)@ == old(fifo)@.take(old(block)@.len() as int),
        final(fifo)@ == old(fifo)@.skip(old(block)@.len() as int),
{
    let mut i: usize = 0;
    while i < block.len()
        invariant
            block@.len() == old(block)@.len() <= old(fifo)@.len(),
            i <= block@.len(),
            fifo@ =~= old(fifo)@.skip(i as int),
            forall|j: int| 0 <= j < i ==> block@[j] == old(fifo)@[j],
        decreases block@.len() - i,
    {
        if let Some(sample) = fifo.pop_front() {
            block[i] = sample;
        }
        i = i + 1;
    }
    assert(block@ =~= old(fifo)@.take(old(block)@.len() as int));
}

/// Moves samples from the front of `fifo` to the front of `outputs`, as many as there are
/// and fit. Says how many.
fn hand_over<S: Copy>(fifo: &mut VecDeque<S>, outputs: &mut [S], capacity: usize) -> (given: usize)
    requires
        old(fifo)@.len() <= capacity,
    ensures
        final(outputs)@.len() == old(outputs)@.len(),
        dealt(
            old(fifo)@,
            final(outputs)@,
            given as int,
            final(fifo)@,
            capacity as nat,
            0,
        ),
{
    let wanted = outputs.len();
    let ghost ready = fifo@;
    let mut given: usize = 0;
    while given < wanted && fifo.len() > 0
        invariant
            given <= wanted == outputs@.len(),
            given <= ready.len(),
            fifo@ =~= ready.skip(given as int),
            forall|j: int| 0 <= j < given ==> outputs@[j] == ready[j],
        decreases wanted - given,
    {
        if let Some(sample) = fifo.pop_front() {
            outputs[given] = sample;
        }
        given = given + 1;
    }
    proof {
        assert(outputs@.take(given as int) =~= ready.take(given as int));
        assert(fifo@ =~= ready.skip(given as int).take(ready.len() - given));
    }
    given
}

/// Deals out `samples`: to the host as long as it wants any, then to `fifo` as long as there
/// is room. Says how many samples the host has by now, and how many found no room.
fn deal<S: Copy>(
    samples: &Vec<S>,
    fifo: &mut VecDeque<S>,
    outputs: &mut [S],
    given: usize,
    lost: usize,
    capacity: usize,
    Ghost(ready): Ghost<Seq<S>>,
) -> (result: (usize, usize))
    requires
        dealt(ready, old(outputs)@, given as int, old(fifo)@, capacity as nat, lost as int),
        lost + samples@.len() <= usize::MAX,
    ensures
        final(outputs)@.len() == old(outputs)@.len(),
        dealt(
            ready + samples@,
            final(outputs)@,
            result.0 as int,
            final(fifo)@,
            capacity as nat,
            result.1 as int,
        ),
        result.1 <= lost + samples@.len(),
{
    let mut given: usize = given;
    let mut lost_by_now: usize = lost;
    let mut i: usize = 0;
    assert(ready + samples@.take(0) =~= ready);
    while i < samples.len()
        invariant
            i <= samples@.len(),
            outputs@.len() == old(outputs)@.len(),
            lost_by_now <= lost + i,
            lost + samples@.len() <= usize::MAX,
            dealt(
                ready + samples@.take(i as int),
                outputs@,
                given as int,
                fifo@,
                capacity as nat,
                lost_by_now as int,
            ),
        decreases samples@.len() - i,
    {
        let ghost so_far = ready + samples@.take(i as int);
        let ghost heard = outputs@;
        let ghost queue = fifo@;
        let sample = samples[i];
        proof {
            assert(ready + samples@.take(i + 1) =~= so_far.push(sample));
            lemma_dealt_next(
                so_far,
                heard,
                given as int,
                queue,
                capacity as nat,
                lost_by_now as int,
                sample,
            );
        }
        if given < outputs.len() {
            outputs[given] = sample;
            given = given + 1;
        } else if fifo.len() < capacity {
            fifo.push_back(sample);
        } else {
            lost_by_now = lost_by_now + 1;
        }
        i = i + 1;
    }
    assert(samples@.take(samples@.len() as int) =~= samples@);
    (given, lost_by_now)
}

/// One more sample goes to the host, to the queue, or nowhere.
proof fn lemma_dealt_next<S>(
    ready: Seq<S>,
    heard: Seq<S>,
    given: int,
    fifo: Seq<S>,
    capacity: nat,
    lost: int,
    sample: S,
)
    requires
        dealt(ready, heard, given, fifo, capacity, lost),
    ensures
        given < heard.len() ==> dealt(
            ready.push(sample),
            heard.update(given, sample),
            given + 1,
            fifo,
            capacity,
            lost,
        ),
        given >= heard.len() && fifo.len() < capacity ==> dealt(
            ready.push(sample),
            heard,
            given,
            fifo.push(sample),
            capacity,
            lost,
        ),
        given >= heard.len() && fifo.len() >= capacity ==> dealt(
            ready.push(sample),
            heard,
            given,
            fifo,
            capacity,
            lost + 1,
        ),
{
    let more = ready.push(sample);
    if given < heard.len() {
        assert(heard.update(given, sample).take(given + 1) =~= heard.take(given).push(sample));
        assert(more.take(given + 1) =~= ready.take(given).push(sample));
        assert(fifo =~= more.skip(given + 1).take(0));
    } else {
        assert(more.take(given) =~= ready.take(given));
        if fifo.len() < capacity {
            assert(fifo.push(sample) =~= more.skip(given).take(more.len() - given));
        } else {
            assert(fifo =~= more.skip(given).take(capacity as int));
        }
    }
}

/// Fills `outputs` with `silence` from `given` on.
fn silence_rest<S: Copy>(outputs: &mut [S], given: usize, silence: S)
    requires
        given <= old(outputs)@.len(),
    ensures
        final(outputs)@ == old(outputs)@.take(given as int) + quiet(
            silence,
            (old(outputs)@.len() - given) as nat,
        ),
{
    let mut i: usize = given;
    while i < outputs.len()
        invariant
            given <= i <= outputs@.len(),
            outputs@.len() == old(outputs)@.len(),
            forall|j: int| 0 <= j < given ==> outputs@[j] == old(outputs)@[j],
            forall|j: int| given <= j < i ==> outputs@[j] == silence,
        decreases outputs@.len() - i,
    {
        outputs[i] = silence;
        i = i + 1;
    }
    assert(outputs@ =~= old(outputs)@.take(given as int) + quiet(
        silence,
        (old(outputs)@.len() - given) as nat,
    ));
}

proof fn lemma_next_block<S>(stream: Seq<S>, block: nat, done: nat)
    requires
        done * block + block <= stream.len(),
    ensures
        done * block >= 0,
        (done + 1) * block == done * block + block,
        stream.skip((done * block) as int).take(block as int) == block_of(
            stream,
            block,
            done as int,
        ),
        stream.skip((done * block) as int).skip(block as int) == stream.skip(
            ((done + 1) * block) as int,
        ),
{
    assert((done + 1) * block == done * block + block) by (nonlinear_arith);
    assert(done * block >= 0) by (nonlinear_arith);
    assert(stream.skip((done * block) as int).take(block as int) =~= block_of(
        stream,
        block,
        done as int,
    ));
    assert(stream.skip((done * block) as int).skip(block as int) =~= stream.skip(
        ((done + 1) * block) as int,
    ));
}

/// What the processor finds at call number `k`, sample by sample, where `all` begins with
/// `stream`.
proof fn lemma_call_by_sample<S, F>(
    stream: Seq<S>,
    all: Seq<S>,
    block: nat,
    first: Seq<S>,
    outputs: Seq<Seq<S>>,
    dsp_callback: F,
    k: int,
    at: int,
) where F: FnMut(&[S], &mut [S])
    requires
        0 <= k < outputs.len(),
        at == k * block,
        outputs.len() * block <= stream.len(),
        stream.is_prefix_of(all),
        exists|i: &[S], o: &mut [S]|
            {
                &&& #[trigger] call_ensures(dsp_callback, (i, o), ())
                &&& i@ == block_of(stream, block, k)
                &&& o@ == found_output(first, outputs, k)
                &&& (*final(o))@ == outputs[k]
            },
    ensures
        all.skip(at).len() >= block,
        exists|i: &[S], o: &mut [S]|
            {
                &&& #[trigger] call_ensures(dsp_callback, (i, o), ())
                &&& i@ == all.skip(at).take(block as int)
                &&& o@ == (seq![first] + outputs.take(k)).last()
                &&& (*final(o))@ == outputs[k]
            },
{
    let (i, o) = choose|i: &[S], o: &mut [S]|
        {
            &&& #[trigger] call_ensures(dsp_callback, (i, o), ())
            &&& i@ == block_of(stream, block, k)
            &&& o@ == found_output(first, outputs, k)
            &&& (*final(o))@ == outputs[k]
        };
    assert(0 <= k * block && k * block + block <= outputs.len() * block) by (nonlinear_arith)
        requires
            0 <= k < outputs.len(),
    ;
    assert(i@ =~= all.skip(at).take(block as int));
}

/// What the processor finds at each call, sample by sample.
#[verifier::spinoff_prover]
proof fn lemma_calls_by_sample<S, F>(
    before: AdapterBuffer<S>,
    offered: Seq<S>,
    outputs: Seq<Seq<S>>,
    heard: Seq<S>,
    after: AdapterBuffer<S>,
    dsp_callback: F,
) where F: FnMut(&[S], &mut [S])
    requires
        before.wf(),
        call_done(before, offered, outputs, heard, after),
        outputs.len() * before.block() <= before.stream(offered).len(),
        forall|k: int| 0 <= k < outputs.len() ==> (#[trigger] outputs[k]).len() == before.block(),
        forall|k: int|
            #[trigger] is_call(k, outputs.len()) ==> exists|i: &[S], o: &mut [S]|
                {
                    &&& #[trigger] call_ensures(dsp_callback, (i, o), ())
                    &&& i@ == block_of(before.stream(offered), before.block(), k)
                    &&& o@ == found_output(before.last_output(), outputs, k)
                    &&& (*final(o))@ == outputs[k]
                },
    ensures
        outputs.len() * before.block() <= before.input().len() + offered.len(),
        forall|k: int, at: int|
            0 <= k < outputs.len() && at == k * before.block() ==> (#[trigger] outputs.take(
                k,
            )).len() == k && (#[trigger] (before.input() + offered).skip(at)).len()
                >= before.block() && exists|i: &[S], o: &mut [S]|
                {
                    &&& #[trigger] call_ensures(dsp_callback, (i, o), ())
                    &&& i@ =~= (before.input() + offered).skip(at).take(before.block() as int)
                    &&& o@ =~= (seq![before.last_output()] + outputs.take(k)).last()
                    &&& (*final(o))@ =~= outputs[k]
                },
{
    let stream = before.stream(offered);
    let all = before.input() + offered;
    before.lemma_wf();
    assert(stream.is_prefix_of(all));
    assert forall|k: int, at: int|
        0 <= k < outputs.len() && at == k * before.block() implies (#[trigger] outputs.take(
        k,
    )).len() == k && (#[trigger] (before.input() + offered).skip(at)).len() >= before.block()
        && exists|i: &[S], o: &mut [S]|
        {
            &&& #[trigger] call_ensures(dsp_callback, (i, o), ())
            &&& i@ =~= (before.input() + offered).skip(at).take(before.block() as int)
            &&& o@ =~= (seq![before.last_output()] + outputs.take(k)).last()
            &&& (*final(o))@ =~= outputs[k]
        } by {
        assert(is_call(k, outputs.len()));
        lemma_call_by_sample(
            stream,
            all,
            before.block(),
            before.last_output(),
            outputs,
            dsp_callback,
            k,
            at,
        );
    }
}

proof fn lemma_blocks_done(length: nat, block: nat, done: nat, rest: nat)
    requires
        rest < block,
        done * block + rest == length,
    ensures
        length / block == done,
{
    vstd::arithmetic::div_mod::lemma_fundamental_div_mod_converse(
        length as int,
        block as int,
        done as int,
        rest as int,
    );
}

impl<S: Copy> AdapterBuffer<S> {
    pub fn target_block_size(&self) -> (size: usize)
        ensures
            size == self.block(),
    {
        self.target_block_size
    }

    /// The number of samples that wait to be processed.
    pub fn accumulated(&self) -> (samples: usize)
        ensures
            samples == self.input().len(),
            samples == self.flow().input,
    {
        self.input_fifo.len()
    }

    /// The number of processed samples that wait for the host.
    pub fn pending_output(&self) -> (samples: usize)
        ensures
            samples == self.output().len(),
            samples == self.flow().output,
    {
        self.output_fifo.len()
    }

    pub fn dropped_input_samples(&self) -> (samples: u64)
        ensures
            samples == self.flow().dropped,
    {
        self.dropped_input_samples
    }

    /// The number of processed samples for which there was no room.
    pub fn dropped_output_samples(&self) -> (samples: u64)
        ensures
            samples == self.flow().lost,
    {
        self.dropped_output_samples
    }

    pub fn zero_filled_samples(&self) -> (samples: u64)
        ensures
            samples == self.flow().filled,
    {
        self.zero_filled_samples
    }

    /// How many samples of silence a host gets at first that calls with blocks of
    /// `host_block_size` samples.
    pub fn theoretical_latency(&self, host_block_size: usize) -> (samples: usize)
        requires
            self.wf(),
        ensures
            samples == adapter_flow::initial_latency(self.block(), host_block_size as nat),
            host_block_size == 0 || host_block_size >= self.block() ==> samples == 0,
            0 < host_block_size < self.block() ==> samples < self.block() <= samples
                + host_block_size && samples % host_block_size == 0,
    {
        if host_block_size == 0 || host_block_size >= self.target_block_size {
            return 0;
        }
        let calls_to_first_block =
            (self.target_block_size + host_block_size - 1) / host_block_size;
        proof {
            adapter_flow::lemma_initial_latency(self.block(), host_block_size as nat);
            vstd::arithmetic::div_mod::lemma_mod_multiples_basic(
                calls_to_first_block - 1,
                host_block_size as int,
            );
        }
        (calls_to_first_block - 1) * host_block_size
    }

    /// Forgets all samples and starts counting afresh.
    pub fn reset(&mut self)
        requires
            old(self).wf(),
        ensures
            final(self).wf(),
            final(self).block() == old(self).block(),
            final(self).capacity() == old(self).capacity(),
            final(self).silence() == old(self).silence(),
            final(self).input() == Seq::<S>::empty(),
            final(self).output() == Seq::<S>::empty(),
            final(self).flow() == AdapterFlow::start(),
            final(self).last_output() == quiet(old(self).silence(), old(self).block()),
            final(self).flow().dropped == 0,
            final(self).flow().lost == 0,
            final(self).flow().filled == 0,
            final(self).last_output().len() == old(self).block(),
            forall|i: int|
                0 <= i < old(self).block() ==> #[trigger] final(self).last_output()[i]
                    == old(self).silence(),
    {
        self.input_fifo.clear();
        self.output_fifo.clear();
        let silence = self.silence;
        let mut i: usize = 0;
        while i < self.target_block_size
            invariant
                i <= self.target_block_size,
                self.target_block_size == old(self).target_block_size,
                self.capacity == old(self).capacity,
                self.silence == old(self).silence,
                silence == self.silence,
                self.input_fifo@ == Seq::<S>::empty(),
                self.output_fifo@ == Seq::<S>::empty(),
                self.scratch_in@.len() == self.target_block_size,
                self.scratch_out@.len() == self.target_block_size,
                forall|j: int| 0 <= j < i ==> self.scratch_out@[j] == silence,
            decreases self.target_block_size - i,
        {
            self.scratch_in[i] = silence;
            self.scratch_out[i] = silence;
            i = i + 1;
        }
        self.dropped_input_samples = 0;
        self.dropped_output_samples = 0;
        self.zero_filled_samples = 0;
        assert(self.scratch_out@ =~= quiet(silence, self.target_block_size as nat));
    }

    /// Processes every whole block that waits and deals out what the processor leaves, where
    /// `ready` has been dealt out before and the host has `given` samples. Says how many
    /// samples the host has by now, how many found no room, and what the processor left
    /// each time.
    fn run_blocks<F>(
        &mut self,
        host_outputs: &mut [S],
        given: usize,
        dsp_callback: F,
        Ghost(ready): Ghost<Seq<S>>,
    ) -> (result: (usize, usize, Ghost<Seq<Seq<S>>>)) where F: FnMut(&[S], &mut [S])
        requires
            0 < old(self).target_block_size,
            old(self).input_fifo@.len() <= old(self).capacity,
            old(self).scratch_in@.len() == old(self).target_block_size,
            old(self).scratch_out@.len() == old(self).target_block_size,
            dealt(
                ready,
                old(host_outputs)@,
                given as int,
                old(self).output_fifo@,
                old(self).capacity as nat,
                0,
            ),
            forall|i: &[S], o: &mut [S]|
                i@.len() == old(self).block() && o@.len() == old(self).block()
                    ==> #[trigger] call_requires(dsp_callback, (i, o)),
            forall|i: &[S], o: &mut [S]|
                i@.len() == old(self).block() && o@.len() == old(self).block()
                    && #[trigger] call_ensures(dsp_callback, (i, o), ()) ==> (*final(o))@.len()
                    == o@.len(),
        ensures
            final(self).target_block_size == old(self).target_block_size,
            final(self).capacity == old(self).capacity,
            final(self).zero_filled_samples == old(self).zero_filled_samples,
            final(self).silence == old(self).silence,
            final(self).dropped_input_samples == old(self).dropped_input_samples,
            final(self).dropped_output_samples == old(self).dropped_output_samples,
            final(self).scratch_in@.len() == old(self).target_block_size,
            final(self).scratch_out@.len() == old(self).target_block_size,
            final(host_outputs)@.len() == old(host_outputs)@.len(),
            ({
                let (given, lost, outputs) = result;
                &&& outputs@.len() == old(self).input_fifo@.len() / old(self).block()
                &&& final(self).input_fifo@ == old(self).input_fifo@.skip(
                    (outputs@.len() * old(self).block()) as int,
                )
                &&& final(self).input_fifo@.len() < old(self).block()
                &&& outputs@.len() * old(self).block() + final(self).input_fifo@.len()
                    == old(self).input_fifo@.len()
                &&& joined(outputs@).len() == outputs@.len() * old(self).block()
                &&& forall|k: int|
                    0 <= k < outputs@.len() ==> (#[trigger] outputs@[k]).len()
                        == old(self).block()
                &&& dealt(
                    ready + joined(outputs@),
                    final(host_outputs)@,
                    given as int,
                    final(self).output_fifo@,
                    old(self).capacity as nat,
                    lost as int,
                )
                &&& final(self).scratch_out@ == found_output(
                    old(self).scratch_out@,
                    outputs@,
                    outputs@.len() as int,
                )
                &&& forall|k: int|
                    #[trigger] is_call(k, outputs@.len()) ==> exists|i: &[S], o: &mut [S]|
                        {
                            &&& #[trigger] call_ensures(dsp_callback, (i, o), ())
                            &&& i@ == block_of(old(self).input_fifo@, old(self).block(), k)
                            &&& o@ == found_output(old(self).scratch_out@, outputs@, k)
                            &&& (*final(o))@ == outputs@[k]
                        }
            }),
    {
        let ghost dsp = dsp_callback;
        let mut dsp_callback = dsp_callback;
        let n = self.target_block_size;
        let mut given: usize = given;
        let mut lost: usize = 0;
        let ghost before = *self;
        let ghost stream = self.input_fifo@;
        let ghost block = n as nat;
        let ghost mut outputs: Seq<Seq<S>> = Seq::empty();
        assert(ready =~= ready + joined(outputs));
        assert(self.input_fifo@ =~= stream.skip(0));
        while self.input_fifo.len() >= n
            invariant
                dsp_callback == dsp,
                0 < n == block,
                n == before.target_block_size,
                self.scratch_in@.len() == n,
                self.scratch_out@.len() == n,
                self.target_block_size == before.target_block_size,
                self.capacity == before.capacity,
                self.zero_filled_samples == before.zero_filled_samples,
                self.silence == before.silence,
                self.dropped_input_samples == before.dropped_input_samples,
                self.dropped_output_samples == before.dropped_output_samples,
                host_outputs@.len() == old(host_outputs)@.len(),
                stream.len() <= usize::MAX,
                lost <= outputs.len() * block,
                outputs.len() * block + self.input_fifo@.len() == stream.len(),
                self.input_fifo@ == stream.skip((outputs.len() * block) as int),
                joined(outputs).len() == outputs.len() * block,
                forall|k: int| 0 <= k < outputs.len() ==> (#[trigger] outputs[k]).len() == block,
                dealt(
                    ready + joined(outputs),
                    host_outputs@,
                    given as int,
                    self.output_fifo@,
                    before.capacity as nat,
                    lost as int,
                ),
                self.scratch_out@ == found_output(
                    before.scratch_out@,
                    outputs,
                    outputs.len() as int,
                ),
                forall|i: &[S], o: &mut [S]|
                    i@.len() == n && o@.len() == n ==> #[trigger] call_requires(
                        dsp_callback,
                        (i, o),
                    ),
                forall|i: &[S], o: &mut [S]|
                    i@.len() == block && o@.len() == block && #[trigger] call_ensures(
                        dsp_callback,
                        (i, o),
                        (),
                    ) ==> (*final(o))@.len() == o@.len(),
                forall|k: int|
                    #[trigger] is_call(k, outputs.len()) ==> exists|i: &[S], o: &mut [S]|
                        {
                            &&& #[trigger] call_ensures(dsp_callback, (i, o), ())
                            &&& i@ == block_of(stream, block, k)
                            &&& o@ == found_output(before.scratch_out@, outputs, k)
                            &&& (*final(o))@ == outputs[k]
                        },
            decreases self.input_fifo@.len(),
        {
            let ghost earlier = outputs;
            take_block(&mut self.input_fifo, &mut self.scratch_in);
            proof {
                lemma_next_block(stream, block, earlier.len());
                assert(self.scratch_in@ =~= block_of(stream, block, earlier.len() as int));
            }
            dsp_callback(self.scratch_in.as_slice(), self.scratch_out.as_mut_slice());
            proof {
                outputs = earlier.push(self.scratch_out@);
                assert(outputs.drop_last() =~= earlier);
                assert forall|k: int| 0 <= k <= earlier.len() implies #[trigger] found_output(
                    before.scratch_out@,
                    outputs,
                    k,
                ) == found_output(before.scratch_out@, earlier, k) by {}
                assert forall|k: int| #[trigger] is_call(k, outputs.len()) implies k
                    == earlier.len() || is_call(k, earlier.len()) by {}
            }
            let dealt_out = deal(
                &self.scratch_out,
                &mut self.output_fifo,
                host_outputs,
                given,
                lost,
                self.capacity,
                Ghost(ready + joined(earlier)),
            );
            given = dealt_out.0;
            lost = dealt_out.1;
            proof {
                assert(ready + joined(earlier) + self.scratch_out@ =~= ready + joined(outputs));
                assert(self.input_fifo@ =~= stream.skip((outputs.len() * block) as int));
            }
        }
        proof {
            lemma_blocks_done(stream.len(), block, outputs.len(), self.input_fifo@.len());
        }
        (given, lost, Ghost(outputs))
    }

    /// One call of the host, as [`Self::process_host_block`] makes it. Says what the processor
    /// left each time.
    fn run_call<F>(
        &mut self,
        host_inputs: &[S],
        host_outputs: &mut [S],
        dsp_callback: F,
    ) -> (outputs: Ghost<Seq<Seq<S>>>) where F: FnMut(&[S], &mut [S])
        requires
            old(self).wf(),
            forall|i: &[S], o: &mut [S]|
                i@.len() == old(self).block() && o@.len() == old(self).block()
                    ==> #[trigger] call_requires(dsp_callback, (i, o)),
            forall|i: &[S], o: &mut [S]|
                i@.len() == old(self).block() && o@.len() == old(self).block()
                    && #[trigger] call_ensures(dsp_callback, (i, o), ()) ==> (*final(o))@.len()
                    == o@.len(),
            old(self).flow().after_call(
                old(self).block(),
                old(self).capacity(),
                host_inputs@.len(),
                old(host_outputs)@.len(),
            ).fits(u64::MAX as nat),
        ensures
            final(host_outputs)@.len() == old(host_outputs)@.len(),
            call_done(
                *old(self),
                host_inputs@,
                outputs@,
                final(host_outputs)@,
                *final(self),
            ),
            outputs@.len() * old(self).block() <= old(self).stream(host_inputs@).len(),
            forall|k: int|
                0 <= k < outputs@.len() ==> (#[trigger] outputs@[k]).len() == old(self).block(),
            forall|k: int|
                #[trigger] is_call(k, outputs@.len()) ==> exists|i: &[S], o: &mut [S]|
                    {
                        &&& #[trigger] call_ensures(dsp_callback, (i, o), ())
                        &&& i@ == block_of(
                            old(self).stream(host_inputs@),
                            old(self).block(),
                            k,
                        )
                        &&& o@ == found_output(old(self).last_output(), outputs@, k)
                        &&& (*final(o))@ == outputs@[k]
                    },
    {
        // Take what there is room for.
        let space = self.capacity - self.input_fifo.len();
        let take = if host_inputs.len() < space {
            host_inputs.len()
        } else {
            space
        };
        let ghost before = *self;
        let ghost stream = before.stream(host_inputs@);
        if take < host_inputs.len() {
            self.dropped_input_samples =
                self.dropped_input_samples + (host_inputs.len() - take) as u64;
        }
        append_samples(&mut self.input_fifo, host_inputs, take);
        assert(self.input_fifo@ =~= stream);
        // Hand over what waits, and have every whole block processed.
        let wanted = host_outputs.len();
        let waiting = hand_over(&mut self.output_fifo, host_outputs, self.capacity);
        let (given, lost, Ghost(outputs)) = self.run_blocks(
            host_outputs,
            waiting,
            dsp_callback,
            Ghost(before.output_fifo@),
        );
        if lost > 0 {
            self.dropped_output_samples = self.dropped_output_samples + lost as u64;
        }
        // Fill the rest with silence.
        let ghost heard = host_outputs@;
        silence_rest(host_outputs, given, self.silence);
        if given < wanted {
            self.zero_filled_samples = self.zero_filled_samples + (wanted - given) as u64;
        }
        proof {
            assert(host_outputs@.take(given as int) =~= heard.take(given as int));
            assert(host_outputs@.skip(given as int) =~= quiet(
                before.silence,
                (wanted - given) as nat,
            ));
            assert(call_done(before, host_inputs@, outputs, host_outputs@, *self));
        }
        Ghost(outputs)
    }

    /// One call of the host: takes `host_inputs` as far as there is room, has every whole
    /// block processed by `dsp_callback`, and fills `host_outputs`, with silence where
    /// processed samples are wanting. Processed samples that the host does not want yet
    /// wait as far as there is room; the rest is dropped and counted.
    pub fn process_host_block<F>(
        &mut self,
        host_inputs: &[S],
        host_outputs: &mut [S],
        dsp_callback: F,
    ) where F: FnMut(&[S], &mut [S])
        requires
            old(self).wf(),
            forall|i: &[S], o: &mut [S]|
                i@.len() == old(self).block() && o@.len() == old(self).block()
                    ==> #[trigger] call_requires(dsp_callback, (i, o)),
            forall|i: &[S], o: &mut [S]|
                i@.len() == old(self).block() && o@.len() == old(self).block()
                    && #[trigger] call_ensures(dsp_callback, (i, o), ()) ==> (*final(o))@.len()
                    == o@.len(),
            old(self).flow().after_call(
                old(self).block(),
                old(self).capacity(),
                host_inputs@.len(),
                old(host_outputs)@.len(),
            ).fits(u64::MAX as nat),
        ensures
            final(self).wf(),
            final(host_outputs)@.len() == old(host_outputs)@.len(),
            exists|outputs: Seq<Seq<S>>|
                {
                    &&& #[trigger] call_done(
                        *old(self),
                        host_inputs@,
                        outputs,
                        final(host_outputs)@,
                        *final(self),
                    )
                    &&& forall|k: int|
                        #[trigger] is_call(k, outputs.len()) ==> exists|i: &[S], o: &mut [S]|
                            {
                                &&& #[trigger] call_ensures(dsp_callback, (i, o), ())
                                &&& i@ == block_of(
                                    old(self).stream(host_inputs@),
                                    old(self).block(),
                                    k,
                                )
                                &&& o@ == found_output(old(self).last_output(), outputs, k)
                                &&& (*final(o))@ == outputs[k]
                            }
                },
            final(self).block() == old(self).block(),
            final(self).capacity() == old(self).capacity(),
            final(self).silence() == old(self).silence(),
            ({
                let block = old(self).block() as int;
                let capacity = old(self).capacity() as int;
                let room = capacity - old(self).input().len();
                let taken = if host_inputs@.len() < room {
                    host_inputs@.len() as int
                } else {
                    room
                };
                let stream = old(self).input() + host_inputs@.take(taken);
                let processed = (stream.len() as int / block) * block;
                let ready = old(self).output().len() + processed;
                let heard = final(host_outputs)@;
                let given = if heard.len() < ready {
                    heard.len() as int
                } else {
                    ready
                };
                let kept = if ready - given < capacity {
                    ready - given
                } else {
                    capacity
                };
                &&& final(self).input() == stream.skip(processed)
                &&& final(self).output().len() == kept
                &&& final(self).flow().dropped == old(self).flow().dropped + host_inputs@.len()
                    - taken
                &&& final(self).flow().lost == old(self).flow().lost + ready - given - kept
                &&& final(self).flow().filled == old(self).flow().filled + heard.len() - given
                &&& forall|j: int|
                    0 <= j < given && j < old(self).output().len() ==> #[trigger] heard[j]
                        == old(self).output()[j]
                &&& forall|j: int|
                    given <= j < heard.len() ==> #[trigger] heard[j] == old(self).silence()
                &&& forall|j: int|
                    0 <= j < kept && given + j < old(self).output().len()
                        ==> #[trigger] final(self).output()[j] == old(self).output()[given + j]
            }),
            exists|outputs: Seq<Seq<S>>|
                {
                    &&& #[trigger] call_done(
                        *old(self),
                        host_inputs@,
                        outputs,
                        final(host_outputs)@,
                        *final(self),
                    )
                    &&& outputs.len() * old(self).block() <= old(self).input().len()
                        + host_inputs@.len()
                    &&& forall|k: int|
                        0 <= k < outputs.len() ==> (#[trigger] outputs[k]).len()
                            == old(self).block()
                    &&& forall|k: int, at: int|
                        0 <= k < outputs.len() && at == k * old(self).block() ==> (
                        #[trigger] outputs.take(k)).len() == k && (#[trigger] (old(self).input()
                            + host_inputs@).skip(at)).len() >= old(self).block() && exists|
                            i: &[S],
                            o: &mut [S],
                        |
                            {
                                &&& #[trigger] call_ensures(dsp_callback, (i, o), ())
                                &&& i@ == (old(self).input() + host_inputs@).skip(at).take(old(self).block() as int)
                                &&& o@ == (seq![old(self).last_output()] + outputs.take(k)).last()
                                &&& (*final(o))@ == outputs[k]
                            }
                },
    {
        let ghost before = *self;
        let Ghost(outputs) = self.run_call(host_inputs, host_outputs, dsp_callback);
        proof {
            before.lemma_wf();
            law_call_sample_by_sample(before, host_inputs@, outputs, host_outputs@, *self);
            lemma_calls_by_sample(
                before,
                host_inputs@,
                outputs,
                host_outputs@,
                *self,
                dsp_callback,
            );
        }
    }
}

/// What a call of the host comes to, sample by sample. Of what was offered, as much is taken as
/// there is room for, and the others are counted. What was taken follows what waited, and all
/// but the last, incomplete block of it is gone. Of what waited for the host and, after it, what
/// the processor left, the host gets the first samples as they are, then silence, which is
/// counted; the next ones wait as far as there is room, and the others are counted.
pub proof fn law_call_sample_by_sample<S>(
    before: AdapterBuffer<S>,
    offered: Seq<S>,
    outputs: Seq<Seq<S>>,
    heard: Seq<S>,
    after: AdapterBuffer<S>,
)
    requires
        before.wf(),
        call_done(before, offered, outputs, heard, after),
    ensures
        after.wf(),
        after.block() == before.block(),
        after.capacity() == before.capacity(),
        after.silence() == before.silence(),
        ({
            let room = before.capacity() - before.input().len();
            let taken = if offered.len() < room {
                offered.len() as int
            } else {
                room
            };
            let stream = before.input() + offered.take(taken);
            let cut = outputs.len() * before.block();
            &&& after.flow().dropped == before.flow().dropped + offered.len() - taken
            &&& after.input().len() < before.block()
            &&& cut + after.input().len() == stream.len()
            &&& forall|j: int|
                0 <= j < after.input().len() ==> #[trigger] after.input()[j] == stream[cut + j]
        }),
        ({
            let ready = before.output() + joined(outputs);
            let given = if heard.len() < ready.len() {
                heard.len() as int
            } else {
                ready.len() as int
            };
            &&& forall|j: int| 0 <= j < given ==> #[trigger] heard[j] == ready[j]
            &&& forall|j: int| given <= j < heard.len() ==> #[trigger] heard[j] == before.silence()
            &&& after.flow().filled == before.flow().filled + heard.len() - given
            &&& after.output().len() <= before.capacity()
            &&& after.output().len() == ready.len() - given || after.output().len()
                == before.capacity()
            &&& given + after.output().len() <= ready.len()
            &&& forall|j: int|
                0 <= j < after.output().len() ==> #[trigger] after.output()[j] == ready[given + j]
            &&& after.flow().lost == before.flow().lost + ready.len() - given
                - after.output().len()
        }),
        outputs.len() == 0 ==> after.last_output() == before.last_output(),
        outputs.len() > 0 ==> after.last_output() == outputs.last(),
{
    before.lemma_wf();
    after.lemma_wf();
    let flow = before.flow();
    let block = before.block();
    let capacity = before.capacity();
    adapter_flow::law_call_counts(flow, block, capacity, offered.len(), heard.len());
    let ready = before.output() + joined(outputs);
    let given = flow.delivered(block, capacity, offered.len(), heard.len()) as int;
    assert forall|j: int| 0 <= j < given implies #[trigger] heard[j] == ready[j] by {
        assert(heard.take(given)[j] == ready.take(given)[j]);
    }
    assert forall|j: int| given <= j < heard.len() implies #[trigger] heard[j]
        == before.silence() by {
        assert(heard.skip(given)[j - given] == before.silence());
    }
}

/// The processor's outputs follow one another: sample `j` of output `k` comes after `k` blocks
/// and `j` more samples.
pub proof fn law_joined_outputs<S>(outputs: Seq<Seq<S>>, block: nat, k: int, j: int)
    requires
        forall|i: int| 0 <= i < outputs.len() ==> (#[trigger] outputs[i]).len() == block,
        0 <= k < outputs.len(),
        0 <= j < block,
    ensures
        joined(outputs).len() == outputs.len() * block,
        0 <= k * block + j < outputs.len() * block,
        joined(outputs)[k * block + j] == outputs[k][j],
    decreases outputs.len(),
{
    let rest = outputs.drop_last();
    let n = rest.len();
    assert((n + 1) * block == n * block + block) by (nonlinear_arith);
    assert(0 <= k * block) by (nonlinear_arith)
        requires
            0 <= k,
    ;
    assert(n * block >= 0) by (nonlinear_arith);
    assert forall|i: int| 0 <= i < rest.len() implies (#[trigger] rest[i]).len() == block by {
        assert(rest[i] == outputs[i]);
    }
    assert(outputs.last() == outputs[n as int]);
    if k < n {
        law_joined_outputs(rest, block, k, j);
        assert(rest[k] == outputs[k]);
    } else if n > 0 {
        law_joined_outputs(rest, block, 0, j);
    } else {
        assert(0 * block == 0) by (nonlinear_arith);
        assert(joined(rest) =~= Seq::<S>::empty());
    }
}

/// Sample `j` of block `k` of a stream is that after `k` blocks and `j` more samples. The stream
/// is what waits to be processed, followed by as much of what is offered as there is room for.
/// The processor finds in its output what it left there the time before.
pub proof fn law_blocks_of_the_stream<S>(
    buffer: AdapterBuffer<S>,
    offered: Seq<S>,
    outputs: Seq<Seq<S>>,
    k: int,
    j: int,
)
    requires
        buffer.wf(),
        0 <= k,
        0 <= j < buffer.block(),
        k * buffer.block() + buffer.block() <= buffer.stream(offered).len(),
    ensures
        ({
            let room = buffer.capacity() - buffer.input().len();
            let stream = buffer.input() + offered.take(
                if offered.len() < room {
                    offered.len() as int
                } else {
                    room
                },
            );
            &&& buffer.stream(offered) == stream
            &&& block_of(stream, buffer.block(), k).len() == buffer.block()
            &&& block_of(stream, buffer.block(), k)[j] == stream[k * buffer.block() + j]
        }),
        is_call(k, outputs.len()) <==> k < outputs.len(),
        k == 0 ==> found_output(buffer.last_output(), outputs, k) == buffer.last_output(),
        k > 0 ==> found_output(buffer.last_output(), outputs, k) == outputs[k - 1],
        quiet(buffer.silence(), buffer.block()).len() == buffer.block(),
        quiet(buffer.silence(), buffer.block())[j] == buffer.silence(),
{
    buffer.lemma_wf();
    assert(0 <= k * buffer.block()) by (nonlinear_arith)
        requires
            0 <= k,
    ;
}

} // verus!
