//! Processing nodes and the queues through which their parameters arrive.
use crate::spsc::SpscRing;
use core::ops::Mul;
use vstd::prelude::*;
use vstd::std_specs::ops::MulSpec;

verus! {

/// What a node is told about the block that it processes.
#[derive(Debug, Clone, Copy)]
pub struct ProcessContext {
    pub sample_rate: u32,
    pub block_size: usize,
}

/// One block that a node processes.
pub struct NodeStep<S> {
    /// What the node remembers from the blocks before.
    pub memory: Seq<S>,
    pub ctx: ProcessContext,
    pub input: Seq<S>,
    /// What the output buffer holds before.
    pub before: Seq<S>,
    /// What the node leaves in the output buffer.
    pub output: Seq<S>,
    /// What the node remembers afterwards.
    pub next_memory: Seq<S>,
}

/// How a node behaves, now and for as long as it lives.
#[verifier::reject_recursive_types(S)]
pub struct NodeModel<S> {
    /// The blocks as the node may process them.
    pub responds: spec_fn(NodeStep<S>) -> bool,
    /// What a node with the first memory may remember after a reset.
    pub resets: spec_fn(Seq<S>, Seq<S>) -> bool,
    /// The delay that the node adds, in samples.
    pub latency: nat,
}

/// A node of a processing graph over samples of type `S`.
///
/// `process` runs on the audio thread: it neither allocates nor blocks.
pub trait DspNode<S>: Send + 'static {
    /// The node is fit to run.
    spec fn wf(&self) -> bool;

    /// What the node remembers from one block to the next.
    spec fn memory(&self) -> Seq<S>;

    /// How the node behaves, which neither a block nor a reset changes.
    spec fn model(&self) -> NodeModel<S>;

    /// Processes one block.
    fn process(&mut self, inputs: &[S], outputs: &mut [S], ctx: &ProcessContext)
        requires
            old(self).wf(),
        ensures
            final(self).wf(),
            final(self).model() == old(self).model(),
            final(outputs)@.len() == old(outputs)@.len(),
            (old(self).model().responds)(
                NodeStep {
                    memory: old(self).memory(),
                    ctx: *ctx,
                    input: inputs@,
                    before: old(outputs)@,
                    output: final(outputs)@,
                    next_memory: final(self).memory(),
                },
            ),
    ;

    /// Forgets the blocks processed so far.
    fn reset(&mut self)
        requires
            old(self).wf(),
        ensures
            final(self).wf(),
            final(self).model() == old(self).model(),
            (old(self).model().resets)(old(self).memory(), final(self).memory()),
    ;

    /// The delay that the node adds, in samples.
    fn latency_samples(&self) -> (samples: usize)
        ensures
            samples == self.model().latency,
    ;

    /// The time that one block may take, in microseconds.
    fn cpu_budget_us(&self) -> (budget: u32)
        default_ensures
            budget == 1000,
    {
        1000
    }
}

/// A queue of up to `N` parameter changes, of which the reader wants only the latest.
pub struct ParameterQueue<T, const N: usize> {
    ring: SpscRing<T, N>,
}

impl<T, const N: usize> View for ParameterQueue<T, N> {
    type V = Seq<T>;

    /// The changes that wait, oldest first.
    closed spec fn view(&self) -> Seq<T> {
        self.ring@
    }
}

impl<T, const N: usize> ParameterQueue<T, N> {
    pub closed spec fn wf(&self) -> bool {
        self.ring.wf()
    }
}

impl<T: Copy + Send, const N: usize> ParameterQueue<T, N> {
    /// An empty queue.
    pub fn new() -> (queue: Self)
        ensures
            queue.wf(),
            queue@ == Seq::<T>::empty(),
    {
        Self { ring: SpscRing::new() }
    }

    /// Posts a change. A full queue drops it and says so.
    pub fn try_push(&mut self, value: T) -> (posted: bool)
        requires
            old(self).wf(),
        ensures
            final(self).wf(),
            posted == (old(self)@.len() < N),
            final(self)@ == if posted {
                old(self)@.push(value)
            } else {
                old(self)@
            },
    {
        self.ring.producer().push(value).is_ok()
    }

    /// Empties the queue and keeps the latest change in `dst`. Says whether there was
    /// one.
    pub fn drain_to(&mut self, dst: &mut T) -> (updated: bool)
        requires
            old(self).wf(),
        ensures
            final(self).wf(),
            final(self)@ == Seq::<T>::empty(),
            updated == (old(self)@.len() > 0),
            *final(dst) == if updated {
                old(self)@.last()
            } else {
                *old(dst)
            },
    {
        let mut updated = false;
        while !self.ring.is_empty()
            invariant
                self.ring.wf(),
                self.ring@.len() <= old(self)@.len(),
                self.ring@ == old(self)@.skip(old(self)@.len() - self.ring@.len()),
                updated == (self.ring@.len() < old(self)@.len()),
                *dst == if updated {
                    old(self)@[old(self)@.len() - self.ring@.len() - 1]
                } else {
                    *old(dst)
                },
            decreases self.ring@.len(),
        {
            let ghost before = self.ring@;
            if let Some(value) = self.ring.consumer().pop() {
                *dst = value;
            }
            updated = true;
            assert(before.skip(1) =~= old(self)@.skip(old(self)@.len() - before.len() + 1));
        }
        updated
    }
}

impl<T: Copy + Send, const N: usize> Default for ParameterQueue<T, N> {
    fn default() -> (queue: Self)
        ensures
            queue.wf(),
            queue@ == Seq::<T>::empty(),
    {
        Self::new()
    }
}

/// A node that scales its input by a gain, which is set in decibels.
pub struct GainNode<S, C> {
    /// The gain in force, in decibels.
    pub gain_db: S,
    /// The factor in force.
    pub gain_lin: S,
    /// The curve from decibels to factors.
    pub curve: C,
    /// Where new gains arrive, in decibels.
    pub param_db: ParameterQueue<S, 16>,
}

impl<S: Copy + Send, C: Fn(S) -> S> GainNode<S, C> {
    /// A node with the gain `gain_db` and the curve `curve`.
    pub fn new(gain_db: S, curve: C) -> (node: Self)
        requires
            call_requires(curve, (gain_db,)),
        ensures
            node.gain_db == gain_db,
            node.curve == curve,
            call_ensures(curve, (gain_db,), node.gain_lin),
            node.param_db.wf(),
            node.param_db@ == Seq::<S>::empty(),
    {
        let gain_lin = curve(gain_db);
        Self { gain_db, gain_lin, curve, param_db: ParameterQueue::new() }
    }

    pub fn gain_db(&self) -> (gain_db: S)
        ensures
            gain_db == self.gain_db,
    {
        self.gain_db
    }
}

/// `output` is `input` scaled by `factor`, as far as both reach; the rest of `output`
/// is still that of `before`.
pub open spec fn is_scaled<S: Mul<Output = S>>(
    input: Seq<S>,
    factor: S,
    before: Seq<S>,
    output: Seq<S>,
) -> bool {
    &&& output.len() == before.len()
    &&& forall|i: int|
        0 <= i < output.len() ==> if i < input.len() {
            call_ensures(S::mul, (input[i], factor), #[trigger] output[i])
        } else {
            output[i] == before[i]
        }
}

/// A gain with the curve `curve`. It remembers the gain, the factor, and the changes that
/// wait. The latest change takes effect first; then the block is scaled. A reset has nothing
/// to forget.
pub open spec fn gain_model<S: Mul<Output = S>, C: Fn(S) -> S>(curve: C) -> NodeModel<S> {
    NodeModel {
        responds: |step: NodeStep<S>|
            {
                &&& step.next_memory.len() == 2
                &&& if step.memory.len() > 2 {
                    &&& step.next_memory[0] == step.memory.last()
                    &&& call_ensures(curve, (step.next_memory[0],), step.next_memory[1])
                } else {
                    step.next_memory == step.memory
                }
                &&& is_scaled(step.input, step.next_memory[1], step.before, step.output)
            },
        resets: |from: Seq<S>, to: Seq<S>| to == from,
        latency: 0,
    }
}

impl<S, C> DspNode<S> for GainNode<S, C> where
    S: Copy + Send + Mul<Output = S> + 'static,
    C: Fn(S) -> S + Send + 'static,
 {
    /// The queue is in order, the factor belongs to the gain, and the curve and the product
    /// are defined for all samples.
    open spec fn wf(&self) -> bool {
        &&& self.param_db.wf()
        &&& call_ensures(self.curve, (self.gain_db,), self.gain_lin)
        &&& forall|db: S| #[trigger] call_requires(self.curve, (db,))
        &&& forall|a: S, b: S| #[trigger] a.mul_req(b)
    }

    /// The gain, the factor, and the changes that wait.
    open spec fn memory(&self) -> Seq<S> {
        seq![self.gain_db, self.gain_lin] + self.param_db@
    }

    open spec fn model(&self) -> NodeModel<S> {
        gain_model(self.curve)
    }

    fn process(&mut self, inputs: &[S], outputs: &mut [S], _ctx: &ProcessContext)
        ensures
            final(self).curve == old(self).curve,
            old(self).param_db@.len() > 0 ==> final(self).gain_db == old(self).param_db@[old(
                self,
            ).param_db@.len() - 1] && call_ensures(
                old(self).curve,
                (final(self).gain_db,),
                final(self).gain_lin,
            ),
            old(self).param_db@.len() == 0 ==> final(self).gain_db == old(self).gain_db
                && final(self).gain_lin == old(self).gain_lin,
            final(self).param_db@.len() == 0,
            forall|i: int|
                0 <= i < inputs@.len() && i < old(outputs)@.len() ==> call_ensures(
                    S::mul,
                    (inputs@[i], final(self).gain_lin),
                    #[trigger] final(outputs)@[i],
                ),
            forall|i: int|
                inputs@.len() <= i < old(outputs)@.len() ==> #[trigger] final(outputs)@[i]
                    == old(outputs)@[i],
    {
        let mut db = self.gain_db;
        if self.param_db.drain_to(&mut db) {
            self.gain_db = db;
            self.gain_lin = (self.curve)(db);
        }
        let factor = self.gain_lin;
        let count = if inputs.len() < outputs.len() {
            inputs.len()
        } else {
            outputs.len()
        };
        let mut i: usize = 0;
        while i < count
            invariant
                i <= count,
                count <= inputs@.len(),
                count <= outputs@.len(),
                outputs@.len() == old(outputs)@.len(),
                forall|a: S, b: S| #[trigger] a.mul_req(b),
                forall|j: int|
                    0 <= j < i ==> call_ensures(S::mul, (inputs@[j], factor), #[trigger] outputs@[j]),
                forall|j: int| i <= j < outputs@.len() ==> outputs@[j] == old(outputs)@[j],
            decreases count - i,
        {
            outputs[i] = inputs[i] * factor;
            i = i + 1;
        }
        assert(self.memory() =~= seq![self.gain_db, self.gain_lin]);
    }

    fn reset(&mut self)
        ensures
            *final(self) == *old(self),
    {
    }

    fn latency_samples(&self) -> (samples: usize)
        ensures
            samples == 0,
    {
        0
    }

    fn cpu_budget_us(&self) -> (budget: u32)
        ensures
            budget == 50,
    {
        50
    }
}

/// `output` begins with `input`, as far as both reach; the rest of `output` is still
/// that of `before`.
pub open spec fn is_copied<S>(input: Seq<S>, before: Seq<S>, output: Seq<S>) -> bool {
    &&& output.len() == before.len()
    &&& forall|i: int|
        0 <= i < output.len() ==> #[trigger] output[i] == if i < input.len() {
            input[i]
        } else {
            before[i]
        }
}

/// A node that copies its input and remembers nothing.
pub open spec fn copy_model<S>() -> NodeModel<S> {
    NodeModel {
        responds: |step: NodeStep<S>|
            step.next_memory.len() == 0 && is_copied(step.input, step.before, step.output),
        resets: |from: Seq<S>, to: Seq<S>| to.len() == 0,
        latency: 0,
    }
}

/// Copies `inputs` into `outputs`, as far as both reach.
fn copy_block<S: Copy>(inputs: &[S], outputs: &mut [S])
    ensures
        is_copied(inputs@, old(outputs)@, final(outputs)@),
{
    let mut i: usize = 0;
    while i < inputs.len() && i < outputs.len()
        invariant
            i <= inputs@.len(),
            i <= outputs@.len(),
            outputs@.len() == old(outputs)@.len(),
            forall|j: int| 0 <= j < i ==> outputs@[j] == inputs@[j],
            forall|j: int| i <= j < outputs@.len() ==> outputs@[j] == old(outputs)@[j],
        decreases inputs@.len() - i,
    {
        outputs[i] = inputs[i];
        i = i + 1;
    }
}

/// A node that hands its input on.
#[derive(Debug, Clone, Copy)]
pub struct PassThrough;

impl<S: Copy + 'static> DspNode<S> for PassThrough {
    open spec fn wf(&self) -> bool {
        true
    }

    open spec fn memory(&self) -> Seq<S> {
        Seq::empty()
    }

    open spec fn model(&self) -> NodeModel<S> {
        copy_model()
    }

    fn process(&mut self, inputs: &[S], outputs: &mut [S], _ctx: &ProcessContext)
        ensures
            forall|i: int|
                0 <= i < inputs@.len() && i < old(outputs)@.len() ==> #[trigger] final(outputs)@[i]
                    == inputs@[i],
            forall|i: int|
                inputs@.len() <= i < old(outputs)@.len() ==> #[trigger] final(outputs)@[i]
                    == old(outputs)@[i],
    {
        copy_block(inputs, outputs);
    }

    fn reset(&mut self) {
    }

    fn latency_samples(&self) -> (samples: usize) {
        0
    }
}

/// A node at which several inputs meet. The graph adds them up before the node runs, so
/// that the node itself only hands the sum on.
#[derive(Debug, Clone, Copy)]
pub struct SumMixer;

impl<S: Copy + 'static> DspNode<S> for SumMixer {
    open spec fn wf(&self) -> bool {
        true
    }

    open spec fn memory(&self) -> Seq<S> {
        Seq::empty()
    }

    open spec fn model(&self) -> NodeModel<S> {
        copy_model()
    }

    fn process(&mut self, inputs: &[S], outputs: &mut [S], _ctx: &ProcessContext)
        ensures
            forall|i: int|
                0 <= i < inputs@.len() && i < old(outputs)@.len() ==> #[trigger] final(outputs)@[i]
                    == inputs@[i],
            forall|i: int|
                inputs@.len() <= i < old(outputs)@.len() ==> #[trigger] final(outputs)@[i]
                    == old(outputs)@[i],
    {
        copy_block(inputs, outputs);
    }

    fn reset(&mut self) {
    }

    fn latency_samples(&self) -> (samples: usize) {
        0
    }
}

/// How a gain answers a block, from what it remembers: a gain, a factor, and the changes that
/// wait, the latest of them last. The latest change alone takes effect, and at once; without
/// a change, gain and factor stay. Every sample is then multiplied by the factor.
pub proof fn law_latest_gain_scales_the_block<S: Mul<Output = S>, C: Fn(S) -> S>(
    curve: C,
    gain: S,
    factor: S,
    changes: Seq<S>,
    step: NodeStep<S>,
)
    requires
        step.memory == seq![gain, factor] + changes,
        (gain_model::<S, C>(curve).responds)(step),
    ensures
        step.next_memory.len() == 2,
        changes.len() == 0 ==> step.next_memory[0] == gain && step.next_memory[1] == factor,
        changes.len() > 0 ==> step.next_memory[0] == changes[changes.len() - 1] && call_ensures(
            curve,
            (changes[changes.len() - 1],),
            step.next_memory[1],
        ),
        step.output.len() == step.before.len(),
        forall|i: int|
            0 <= i < step.input.len() && i < step.output.len() ==> call_ensures(
                S::mul,
                (step.input[i], step.next_memory[1]),
                #[trigger] step.output[i],
            ),
        forall|i: int|
            step.input.len() <= i < step.output.len() ==> #[trigger] step.output[i]
                == step.before[i],
        gain_model::<S, C>(curve).latency == 0,
{
    if changes.len() > 0 {
        assert(step.memory.last() == changes[changes.len() - 1]);
    }
}

/// Changes that wait together do what the latest of them does alone.
pub proof fn law_earlier_changes_do_not_matter<S: Mul<Output = S>, C: Fn(S) -> S>(
    curve: C,
    gain: S,
    factor: S,
    changes: Seq<S>,
    step: NodeStep<S>,
)
    requires
        changes.len() > 0,
        step.memory == seq![gain, factor] + changes,
    ensures
        (gain_model::<S, C>(curve).responds)(step) <==> (gain_model::<S, C>(curve).responds)(
            NodeStep { memory: seq![gain, factor, changes[changes.len() - 1]], ..step },
        ),
{
    assert(step.memory.last() == changes[changes.len() - 1]);
}

/// A reset leaves a gain as it is, and a node that copies without memory.
pub proof fn law_resets<S: Mul<Output = S>, C: Fn(S) -> S>(curve: C, from: Seq<S>, to: Seq<S>)
    ensures
        (gain_model::<S, C>(curve).resets)(from, to) ==> to == from,
        (copy_model::<S>().resets)(from, to) ==> to.len() == 0,
{
}

/// A node that copies hands on its input, sample for sample, and touches nothing behind it.
pub proof fn law_copy_hands_on<S>(step: NodeStep<S>)
    requires
        (copy_model::<S>().responds)(step),
    ensures
        step.output.len() == step.before.len(),
        forall|i: int|
            0 <= i < step.output.len() && i < step.input.len() ==> #[trigger] step.output[i]
                == step.input[i],
        forall|i: int|
            step.input.len() <= i < step.output.len() ==> #[trigger] step.output[i]
                == step.before[i],
        step.next_memory.len() == 0,
        copy_model::<S>().latency == 0,
{
}

/// What a gain remembers is its gain, its factor and the changes that wait, in their order, and
/// it answers as a gain with its curve does.
pub proof fn law_gain_remembers<S, C>(node: GainNode<S, C>) where
    S: Copy + Send + Mul<Output = S> + 'static,
    C: Fn(S) -> S + Send + 'static,

    ensures
        node.memory().len() == 2 + node.param_db@.len(),
        node.memory()[0] == node.gain_db,
        node.memory()[1] == node.gain_lin,
        forall|i: int|
            0 <= i < node.param_db@.len() ==> node.memory()[2 + i] == #[trigger] node.param_db@[i],
        node.model() == gain_model::<S, C>(node.curve),
{
}

/// A node that hands its input on and one at which inputs meet both answer with a copy.
pub proof fn law_pass_and_mixer_copy<S: Copy + 'static>(pass: PassThrough, mixer: SumMixer)
    ensures
        DspNode::<S>::model(&pass) == copy_model::<S>(),
        DspNode::<S>::model(&mixer) == copy_model::<S>(),
        DspNode::<S>::wf(&pass),
        DspNode::<S>::wf(&mixer),
{
}

} // verus!
