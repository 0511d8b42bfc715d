//! Graphs of processing nodes: building, compiling, running and replacing them.
use crate::node::{DspNode, NodeStep, ProcessContext};
use crate::rcu::RcuHandle;
use crate::topology::{sink_list, source_lists, topological_order};
use core::ops::Add;
use std::sync::Arc;
use vstd::prelude::*;
use vstd::std_specs::ops::AddSpec;

verus! {

/// The name of a node within one graph.
#[derive(Debug, Clone, Copy, PartialEq, Eq, Hash, Structural)]
pub struct NodeId(pub usize);

/// Why a graph was refused.
#[derive(Debug, Clone, Copy, PartialEq, Eq, Structural)]
pub enum GraphError {
    /// The connections run in a circle, so that no order fits them.
    CycleDetected,
    /// There is no node of this index.
    InvalidNode(usize),
    /// The two nodes are connected already.
    DuplicateEdge,
    /// There is no node at all.
    Empty,
    /// A node was to feed itself.
    SelfLoop,
}

/// A node in its place in a graph.
pub struct Placed<N> {
    pub node: N,
    pub id: NodeId,
}

/// A node of any kind over samples of type `S`, in its place in a graph.
pub type NodeSlot<S> = Placed<Box<dyn DspNode<S>>>;

/// Every node is fit to run and stands at the index that names it.
pub open spec fn slots_wf<S: 'static>(slots: Seq<NodeSlot<S>>) -> bool {
    forall|i: int| 0 <= i < slots.len() ==> (#[trigger] slots[i]).node.wf() && slots[i].id.0 == i
}

/// Collects the nodes and connections of a graph that is to be compiled.
#[verifier::reject_recursive_types(S)]
pub struct DynamicGraphBuilder<S: 'static> {
    nodes: Vec<NodeSlot<S>>,
    connections: Vec<(usize, usize)>,
    max_block: usize,
}

impl<S: 'static> DynamicGraphBuilder<S> {
    pub closed spec fn nodes(&self) -> Seq<NodeSlot<S>> {
        self.nodes@
    }

    /// The connections, in the order in which they were made.
    pub closed spec fn edges(&self) -> Seq<(usize, usize)> {
        self.connections@
    }

    /// The longest block that the graph will take.
    pub closed spec fn block_limit(&self) -> nat {
        self.max_block as nat
    }

    /// Blocks are not empty, every node is fit to run, and every connection joins two
    /// different nodes and is made once.
    pub open spec fn wf(&self) -> bool {
        &&& self.block_limit() > 0
        &&& slots_wf(self.nodes())
        &&& crate::topology::edges_valid(self.nodes().len(), self.edges())
        &&& forall|k: int|
            0 <= k < self.edges().len() ==> (#[trigger] self.edges()[k]).0 != self.edges()[k].1
    }

    /// A builder of graphs that take blocks of up to `max_block` samples.
    pub fn new(max_block: usize) -> (builder: Self)
        requires
            max_block > 0,
        ensures
            builder.wf(),
            builder.nodes().len() == 0,
            builder.edges().len() == 0,
            builder.block_limit() == max_block,
    {
        Self { nodes: Vec::new(), connections: Vec::new(), max_block }
    }

    /// Adds a node, which gets the next free index.
    pub fn add_node(&mut self, node: Box<dyn DspNode<S>>) -> (id: NodeId)
        requires
            old(self).wf(),
            node.wf(),
        ensures
            final(self).wf(),
            id.0 == old(self).nodes().len(),
            final(self).nodes().len() == old(self).nodes().len() + 1,
            final(self).nodes()[old(self).nodes().len() as int].node == node,
            forall|i: int|
                0 <= i < old(self).nodes().len() ==> #[trigger] final(self).nodes()[i]
                    == old(self).nodes()[i],
            final(self).edges() == old(self).edges(),
            final(self).block_limit() == old(self).block_limit(),
    {
        let id = NodeId(self.nodes.len());
        let slot = Placed { node, id };
        self.nodes.push(slot);
        id
    }

    pub fn node_count(&self) -> (count: usize)
        ensures
            count == self.nodes().len(),
    {
        self.nodes.len()
    }

    /// Lets `from` feed `to`.
    pub fn connect(&mut self, from: NodeId, to: NodeId) -> (result: Result<(), GraphError>)
        requires
            old(self).wf(),
        ensures
            final(self).wf(),
            final(self).nodes() == old(self).nodes(),
            final(self).block_limit() == old(self).block_limit(),
            result == connect_result(old(self).nodes().len(), old(self).edges(), from, to),
            final(self).edges() == if result is Ok {
                old(self).edges().push((from.0, to.0))
            } else {
                old(self).edges()
            },
            result is Ok <==> from.0 < old(self).nodes().len() && to.0 < old(self).nodes().len()
                && from.0 != to.0 && (forall|k: int|
                0 <= k < old(self).edges().len() ==> #[trigger] old(self).edges()[k] != (
                    from.0,
                    to.0,
                )),
            result == Err::<(), GraphError>(GraphError::DuplicateEdge) ==> exists|k: int|
                0 <= k < old(self).edges().len() && #[trigger] old(self).edges()[k] == (
                    from.0,
                    to.0,
                ),
            result == Err::<(), GraphError>(GraphError::SelfLoop) ==> from.0 == to.0,
            from.0 >= old(self).nodes().len() ==> result == Err::<(), GraphError>(
                GraphError::InvalidNode(from.0),
            ),
            from.0 < old(self).nodes().len() <= to.0 ==> result == Err::<(), GraphError>(
                GraphError::InvalidNode(to.0),
            ),
    {
        if from.0 >= self.nodes.len() {
            return Err(GraphError::InvalidNode(from.0));
        }
        if to.0 >= self.nodes.len() {
            return Err(GraphError::InvalidNode(to.0));
        }
        if from.0 == to.0 {
            return Err(GraphError::SelfLoop);
        }
        let mut i: usize = 0;
        while i < self.connections.len()
            invariant
                i <= self.connections@.len(),
                forall|k: int| 0 <= k < i ==> self.connections@[k] != (from.0, to.0),
                *self == *old(self),
                old(self).wf(),
                from.0 < self.nodes@.len(),
                to.0 < self.nodes@.len(),
                from.0 != to.0,
            decreases self.connections@.len() - i,
        {
            let (source, target) = self.connections[i];
            if source == from.0 && target == to.0 {
                assert(self.connections@.contains((from.0, to.0)));
                return Err(GraphError::DuplicateEdge);
            }
            i = i + 1;
        }
        assert(!self.connections@.contains((from.0, to.0)));
        self.connections.push((from.0, to.0));
        Ok(())
    }

    /// Undoes the connection between `from` and `to`, if there is one.
    pub fn disconnect(&mut self, from: NodeId, to: NodeId)
        requires
            old(self).wf(),
        ensures
            final(self).wf(),
            final(self).nodes() == old(self).nodes(),
            final(self).block_limit() == old(self).block_limit(),
            final(self).edges() == without(old(self).edges(), (from.0, to.0)),
            !final(self).edges().contains((from.0, to.0)),
            forall|edge: (usize, usize)|
                edge != (from.0, to.0) ==> (#[trigger] final(self).edges().contains(edge)
                    <==> old(self).edges().contains(edge)),
    {
        let mut kept: Vec<(usize, usize)> = Vec::with_capacity(self.connections.len());
        assert(self.connections@.take(0) =~= Seq::empty());
        for i in 0..self.connections.len()
            invariant
                *self == *old(self),
                kept@ == without(self.connections@.take(i as int), (from.0, to.0)),
        {
            let (source, target) = self.connections[i];
            assert(self.connections@.take(i + 1).drop_last() =~= self.connections@.take(i as int));
            if !(source == from.0 && target == to.0) {
                kept.push((source, target));
            }
        }
        assert(self.connections@.take(self.connections@.len() as int) =~= self.connections@);
        self.connections = kept;
        proof {
            lemma_without(old(self).edges(), (from.0, to.0));
            let all = old(self).edges();
            let rest = self.edges();
            assert forall|k: int| 0 <= k < rest.len() implies (#[trigger] rest[k]).0
                < self.nodes().len() && rest[k].1 < self.nodes().len() && rest[k].0 != rest[k].1 by {
                assert(rest.contains(rest[k]));
                let at = choose|at: int| 0 <= at < all.len() && all[at] == rest[k];
                assert(all[at].0 != all[at].1);
            }
        }
    }
}

/// What connecting `from` to `to` comes to, in a graph of `nodes` nodes with the
/// connections `edges`.
pub open spec fn connect_result(
    nodes: nat,
    edges: Seq<(usize, usize)>,
    from: NodeId,
    to: NodeId,
) -> Result<(), GraphError> {
    if from.0 >= nodes {
        Err(GraphError::InvalidNode(from.0))
    } else if to.0 >= nodes {
        Err(GraphError::InvalidNode(to.0))
    } else if from.0 == to.0 {
        Err(GraphError::SelfLoop)
    } else if edges.contains((from.0, to.0)) {
        Err(GraphError::DuplicateEdge)
    } else {
        Ok(())
    }
}

/// Two nodes can be connected if and only if both are there, they differ, and this very
/// connection has not been made. Otherwise the first of these that fails is the error.
pub proof fn law_connects_what_is_new(
    nodes: nat,
    edges: Seq<(usize, usize)>,
    from: NodeId,
    to: NodeId,
)
    ensures
        ({
            let result = connect_result(nodes, edges, from, to);
            let known = exists|k: int|
                0 <= k < edges.len() && (#[trigger] edges[k]).0 == from.0 && edges[k].1 == to.0;
            &&& result is Ok <==> from.0 < nodes && to.0 < nodes && from.0 != to.0 && !known
            &&& from.0 >= nodes <==> result == Err::<(), GraphError>(
                GraphError::InvalidNode(from.0),
            ) && !(from.0 < nodes)
            &&& from.0 < nodes && to.0 >= nodes ==> result == Err::<(), GraphError>(
                GraphError::InvalidNode(to.0),
            )
            &&& result == Err::<(), GraphError>(GraphError::SelfLoop) <==> from.0 < nodes && from.0
                == to.0
            &&& result == Err::<(), GraphError>(GraphError::DuplicateEdge) <==> from.0 < nodes
                && to.0 < nodes && from.0 != to.0 && known
        }),
{
    let known = exists|k: int|
        0 <= k < edges.len() && (#[trigger] edges[k]).0 == from.0 && edges[k].1 == to.0;
    assert(known <==> edges.contains((from.0, to.0))) by {
        if edges.contains((from.0, to.0)) {
            let k = choose|k: int| 0 <= k < edges.len() && edges[k] == (from.0, to.0);
            assert(edges[k].0 == from.0 && edges[k].1 == to.0);
        }
        if known {
            let k = choose|k: int|
                0 <= k < edges.len() && (#[trigger] edges[k]).0 == from.0 && edges[k].1 == to.0;
            assert(edges[k] == (from.0, to.0));
        }
    }
}

/// Which connections stand does not depend on the order of two that are both new.
pub proof fn law_connecting_commutes(
    nodes: nat,
    edges: Seq<(usize, usize)>,
    a: (NodeId, NodeId),
    b: (NodeId, NodeId),
)
    requires
        a != b,
        connect_result(nodes, edges, a.0, a.1) is Ok,
        connect_result(nodes, edges, b.0, b.1) is Ok,
    ensures
        connect_result(nodes, edges.push((a.0.0, a.1.0)), b.0, b.1) is Ok,
        connect_result(nodes, edges.push((a.0.0, a.1.0)), a.0, a.1) == Err::<(), GraphError>(
            GraphError::DuplicateEdge,
        ),
{
    let more = edges.push((a.0.0, a.1.0));
    assert(more[edges.len() as int] == (a.0.0, a.1.0));
    crate::topology::lemma_contains_drop_last(more, (b.0.0, b.1.0));
    assert(more.drop_last() =~= edges);
}

/// What is left of the connections when one is taken back are all others, in their order: `at`
/// says where they stood.
pub proof fn law_disconnect_keeps_the_others(
    edges: Seq<(usize, usize)>,
    edge: (usize, usize),
) -> (at: Seq<int>)
    ensures
        at.len() == without(edges, edge).len(),
        forall|i: int, j: int| 0 <= i < j < at.len() ==> at[i] < at[j],
        forall|i: int|
            0 <= i < at.len() ==> 0 <= #[trigger] at[i] < edges.len() && edges[at[i]] == without(
                edges,
                edge,
            )[i] && edges[at[i]] != edge,
        forall|k: int| 0 <= k < edges.len() && #[trigger] edges[k] != edge ==> at.contains(k),
    decreases edges.len(),
{
    if edges.len() == 0 {
        Seq::empty()
    } else {
        let rest = edges.drop_last();
        let some = law_disconnect_keeps_the_others(rest, edge);
        let last = edges.len() - 1;
        let at = if edges.last() != edge {
            some.push(last)
        } else {
            some
        };
        assert forall|i: int| 0 <= i < at.len() implies 0 <= #[trigger] at[i] < edges.len()
            && edges[at[i]] == without(edges, edge)[i] && edges[at[i]] != edge by {
            if i < some.len() {
                assert(rest[some[i]] == edges[some[i]]);
            }
        }
        assert forall|k: int| 0 <= k < edges.len() && #[trigger] edges[k] != edge implies at.contains(
            k,
        ) by {
            if k < last {
                assert(rest[k] == edges[k]);
                let i = choose|i: int| 0 <= i < some.len() && some[i] == k;
                assert(at[i] == k);
            } else {
                assert(at[at.len() - 1] == k);
            }
        }
        at
    }
}

/// `edges` without `edge`, in the same order.
pub open spec fn without(edges: Seq<(usize, usize)>, edge: (usize, usize)) -> Seq<(usize, usize)>
    decreases edges.len(),
{
    if edges.len() == 0 {
        Seq::empty()
    } else if edges.last() == edge {
        without(edges.drop_last(), edge)
    } else {
        without(edges.drop_last(), edge).push(edges.last())
    }
}

/// Removing a connection removes that one and no other.
pub proof fn lemma_without(edges: Seq<(usize, usize)>, edge: (usize, usize))
    ensures
        forall|other: (usize, usize)| #[trigger]
            without(edges, edge).contains(other) <==> edges.contains(other) && other != edge,
        edges.no_duplicates() ==> without(edges, edge).no_duplicates(),
        without(edges, edge).len() <= edges.len(),
    decreases edges.len(),
{
    if edges.len() > 0 {
        let rest = edges.drop_last();
        let last = edges.last();
        let kept = without(rest, edge);
        lemma_without(rest, edge);
        assert forall|other: (usize, usize)| #[trigger]
            without(edges, edge).contains(other) <==> edges.contains(other) && other != edge by {
            crate::topology::lemma_contains_drop_last(edges, other);
            assert(kept.contains(other) <==> rest.contains(other) && other != edge);
            if last != edge {
                crate::topology::lemma_contains_drop_last(kept.push(last), other);
                assert(kept.push(last).drop_last() =~= kept);
            }
        }
        if edges.no_duplicates() {
            assert(rest.no_duplicates());
            assert(!rest.contains(last)) by {
                if rest.contains(last) {
                    let i = choose|i: int| 0 <= i < rest.len() && rest[i] == last;
                    assert(edges[i] == edges[edges.len() - 1]);
                }
            }
            assert(!kept.contains(last));
        }
    }
}

/// Taking back a connection that was just made leaves the connections as they were before
/// it.
pub proof fn law_disconnect_undoes_connect(edges: Seq<(usize, usize)>, edge: (usize, usize))
    requires
        !edges.contains(edge),
    ensures
        without(edges.push(edge), edge) == edges,
{
    assert(edges.push(edge).drop_last() =~= edges);
    lemma_without_absent(edges, edge);
}

proof fn lemma_without_absent(edges: Seq<(usize, usize)>, edge: (usize, usize))
    requires
        !edges.contains(edge),
    ensures
        without(edges, edge) == edges,
    decreases edges.len(),
{
    if edges.len() > 0 {
        crate::topology::lemma_contains_drop_last(edges, edge);
        assert(edges.last() == edges[edges.len() - 1]);
        lemma_without_absent(edges.drop_last(), edge);
        assert(edges.drop_last().push(edges.last()) =~= edges);
    }
}

/// What a graph has processed since it was compiled or reset.
#[derive(Debug, Clone, Copy)]
pub struct ProcessStats {
    pub blocks_processed: u64,
    pub samples_processed: u64,
}

impl Default for ProcessStats {
    fn default() -> (stats: Self)
        ensures
            stats.blocks_processed == 0,
            stats.samples_processed == 0,
    {
        ProcessStats { blocks_processed: 0, samples_processed: 0 }
    }
}

/// Adding up `terms` from the first to the last may give `total`.
pub open spec fn adds_up_to<S: Add<Output = S>>(terms: Seq<S>, total: S) -> bool
    decreases terms.len(),
{
    if terms.len() == 0 {
        false
    } else if terms.len() == 1 {
        total == terms[0]
    } else {
        exists|partial: S|
            adds_up_to(terms.drop_last(), partial) && #[trigger] call_ensures(
                S::add,
                (partial, terms.last()),
                total,
            )
    }
}

/// The samples at `index` of the buffers of `feeds`.
pub open spec fn column<S>(feeds: Seq<usize>, buffers: Seq<Seq<S>>, index: int) -> Seq<S> {
    Seq::new(feeds.len(), |m: int| buffers[feeds[m] as int][index])
}

/// `mixed` is what a node fed by `feeds` gets to process: the first `frames` samples of
/// the graph's own input when nothing feeds the node, and the sum of the buffers that
/// feed it otherwise.
pub open spec fn is_node_input<S: Add<Output = S>>(
    feeds: Seq<usize>,
    input: Seq<S>,
    buffers: Seq<Seq<S>>,
    frames: int,
    mixed: Seq<S>,
) -> bool {
    if feeds.len() == 0 {
        mixed == input.take(frames)
    } else {
        &&& mixed.len() == frames
        &&& forall|j: int|
            0 <= j < frames ==> adds_up_to(column(feeds, buffers, j), #[trigger] mixed[j])
    }
}

/// The node `before`, with the buffer `buffer`, ran once on the sum of what feeds it,
/// and became `after`, with its entry in `buffers`.
pub open spec fn node_ran<S: Add<Output = S> + 'static>(
    ctx: ProcessContext,
    frames: int,
    input: Seq<S>,
    feeds: Seq<usize>,
    before: NodeSlot<S>,
    buffer: Seq<S>,
    after: NodeSlot<S>,
    buffers: Seq<Seq<S>>,
    node: int,
) -> bool {
    &&& after.node.model() == before.node.model()
    &&& buffers[node].len() == buffer.len()
    &&& buffers[node].skip(frames) == buffer.skip(frames)
    &&& exists|mixed: Seq<S>| #[trigger]
        is_node_input(feeds, input, buffers, frames, mixed) && (before.node.model().responds)(
            NodeStep {
                memory: before.node.memory(),
                ctx,
                input: mixed,
                before: buffer.take(frames),
                output: buffers[node].take(frames),
                next_memory: after.node.memory(),
            },
        )
}

/// `node` comes before position `p` of `order`.
pub open spec fn runs_before(order: Seq<usize>, p: int, node: usize) -> bool {
    exists|q: int| 0 <= q < p && #[trigger] order[q] == node
}

/// A compiled graph. Every buffer it needs has been allocated.
#[verifier::reject_recursive_types(S)]
pub struct DspGraphInner<S: 'static> {
    nodes: Vec<NodeSlot<S>>,
    /// The order in which the nodes run.
    order: Vec<usize>,
    /// For every node, the nodes that feed it.
    reverse_adj: Vec<Vec<usize>>,
    /// The nodes that feed no other.
    sinks: Vec<usize>,
    /// For every node, its output.
    node_bufs: Vec<Vec<S>>,
    /// The input of the node that is running.
    mix_scratch: Vec<S>,
    max_block: usize,
    stats: ProcessStats,
    /// The sample that stands for silence.
    silence: S,
}

impl<S: 'static> DspGraphInner<S> {
    pub closed spec fn nodes(&self) -> Seq<NodeSlot<S>> {
        self.nodes@
    }

    /// The order in which the nodes run.
    pub closed spec fn order(&self) -> Seq<usize> {
        self.order@
    }

    /// The nodes that feed `node`, in the order in which they were connected.
    pub closed spec fn feeds(&self, node: int) -> Seq<usize> {
        self.reverse_adj@[node]@
    }

    /// The nodes that feed no other, in ascending order.
    pub closed spec fn sinks(&self) -> Seq<usize> {
        self.sinks@
    }

    /// Some node is fed by more than one other, or more than one feeds the output, so that
    /// samples are added.
    pub open spec fn mixes(&self) -> bool {
        ||| self.sinks().len() > 1
        ||| exists|node: int|
            0 <= node < self.nodes().len() && (#[trigger] self.feeds(node)).len() > 1
    }

    /// The outputs of the nodes.
    pub closed spec fn buffers(&self) -> Seq<Seq<S>> {
        Seq::new(self.node_bufs@.len(), |i: int| self.node_bufs@[i]@)
    }

    /// The longest block that is processed at once.
    pub closed spec fn block_limit(&self) -> nat {
        self.max_block as nat
    }

    pub closed spec fn counts(&self) -> ProcessStats {
        self.stats
    }

    /// The sample that stands for silence.
    pub closed spec fn silence(&self) -> S {
        self.silence
    }

    /// There is a node, every node runs once and after all that feed it, and all buffers
    /// have the length of the longest block.
    pub closed spec fn wf(&self) -> bool {
        &&& self.nodes@.len() > 0
        &&& slots_wf(self.nodes@)
        &&& self.order@.len() == self.nodes@.len()
        &&& self.order@.no_duplicates()
        &&& self.reverse_adj@.len() == self.nodes@.len()
        &&& self.sinks@.len() > 0
        &&& forall|i: int|
            0 <= i < self.sinks@.len() ==> #[trigger] self.sinks@[i] < self.nodes@.len()
        &&& self.node_bufs@.len() == self.nodes@.len()
        &&& self.mix_scratch@.len() == self.max_block
        &&& self.max_block > 0
        &&& forall|i: int|
            0 <= i < self.node_bufs@.len() ==> (#[trigger] self.node_bufs@[i])@.len()
                == self.max_block
        &&& forall|p: int|
            0 <= p < self.order@.len() ==> #[trigger] self.order@[p] < self.nodes@.len()
        &&& forall|p: int, m: int|
            #![trigger self.reverse_adj@[self.order@[p] as int]@[m]]
            0 <= p < self.order@.len() && 0 <= m < self.reverse_adj@[self.order@[p] as int]@.len()
                ==> runs_before(self.order@, p, self.reverse_adj@[self.order@[p] as int]@[m])
    }

    /// What holds of every graph: there is a node, every node runs once and after all that
    /// feed it, and has an output of the length of the longest block.
    pub proof fn lemma_wf(&self)
        requires
            self.wf(),
        ensures
            self.nodes().len() > 0,
            slots_wf(self.nodes()),
            self.block_limit() > 0,
            self.order().len() == self.nodes().len(),
            self.order().no_duplicates(),
            self.sinks().len() > 0,
            forall|i: int|
                0 <= i < self.sinks().len() ==> #[trigger] self.sinks()[i] < self.nodes().len(),
            self.buffers().len() == self.nodes().len(),
            forall|i: int|
                0 <= i < self.buffers().len() ==> (#[trigger] self.buffers()[i]).len()
                    == self.block_limit(),
            forall|p: int|
                0 <= p < self.order().len() ==> #[trigger] self.order()[p] < self.nodes().len(),
            forall|p: int, m: int|
                #![trigger self.feeds(self.order()[p] as int)[m]]
                0 <= p < self.order().len() && 0 <= m < self.feeds(self.order()[p] as int).len()
                    ==> runs_before(self.order(), p, self.feeds(self.order()[p] as int)[m]),
    {
        assert forall|p: int, m: int|
            #![trigger self.feeds(self.order()[p] as int)[m]]
            0 <= p < self.order().len() && 0 <= m < self.feeds(self.order()[p] as int).len()
            implies runs_before(self.order(), p, self.feeds(self.order()[p] as int)[m]) by {
            assert(self.reverse_adj@[self.order@[p] as int]@[m] == self.feeds(
                self.order()[p] as int,
            )[m]);
        }
    }

    /// Everything but the nodes, their outputs and the counts is the same in `other`.
    pub open spec fn same_shape(&self, other: &Self) -> bool {
        &&& self.nodes().len() == other.nodes().len()
        &&& self.order() == other.order()
        &&& self.sinks() == other.sinks()
        &&& forall|node: int|
            0 <= node < self.nodes().len() ==> #[trigger] self.feeds(node) == other.feeds(node)
        &&& self.block_limit() == other.block_limit()
        &&& self.silence() == other.silence()
    }

    pub fn node_count(&self) -> (count: usize)
        ensures
            count == self.nodes().len(),
    {
        self.nodes.len()
    }

    pub fn max_block(&self) -> (max_block: usize)
        ensures
            max_block == self.block_limit(),
    {
        self.max_block
    }

    pub fn stats(&self) -> (stats: &ProcessStats)
        ensures
            *stats == self.counts(),
    {
        &self.stats
    }
}

/// A buffer of `length` times `sample`.
fn filled_buffer<S: Copy>(sample: S, length: usize) -> (buffer: Vec<S>)
    ensures
        buffer@ == Seq::new(length as nat, |i: int| sample),
{
    let mut buffer: Vec<S> = Vec::with_capacity(length);
    while buffer.len() < length
        invariant
            buffer@.len() <= length,
            forall|i: int| 0 <= i < buffer@.len() ==> buffer@[i] == sample,
        decreases length - buffer@.len(),
    {
        buffer.push(sample);
    }
    assert(buffer@ =~= Seq::new(length as nat, |i: int| sample));
    buffer
}

impl<S: Copy + Default + 'static> DynamicGraphBuilder<S> {
    /// Fixes the order in which the nodes run and allocates everything that running them
    /// takes.
    pub fn compile(self) -> (result: Result<Arc<DspGraphInner<S>>, GraphError>)
        requires
            self.wf(),
        ensures
            result is Ok <==> self.nodes().len() > 0 && !crate::topology::has_cycle(self.edges()),
            result matches Err(error) ==> error == if self.nodes().len() == 0 {
                GraphError::Empty
            } else {
                GraphError::CycleDetected
            },
            result matches Ok(graph) ==> {
                &&& graph.wf()
                &&& graph.nodes() == self.nodes()
                &&& graph.order() == crate::topology::run_order(self.nodes().len(), self.edges())
                &&& graph.sinks() == crate::topology::sinks(self.nodes().len(), self.edges())
                &&& graph.block_limit() == self.block_limit()
                &&& forall|node: int|
                    0 <= node < self.nodes().len() ==> #[trigger] graph.feeds(node)
                        == crate::topology::sources(self.edges(), node as usize)
                &&& call_ensures(S::default, (), graph.silence())
                &&& graph.buffers() == silent_buffers(
                    self.nodes().len(),
                    self.block_limit(),
                    graph.silence(),
                )
                &&& graph.counts().blocks_processed == 0
                &&& graph.counts().samples_processed == 0
                &&& graph.order().len() == self.nodes().len()
                &&& graph.order().no_duplicates()
                &&& forall|k: int, i: int, j: int|
                    #![trigger self.edges()[k], graph.order()[i], graph.order()[j]]
                    0 <= k < self.edges().len() && 0 <= i < graph.order().len() && 0 <= j
                        < graph.order().len() && self.edges()[k] == (
                        graph.order()[i],
                        graph.order()[j],
                    ) ==> i < j
                &&& forall|node: int, source: usize|
                    0 <= node < self.nodes().len() ==> (#[trigger] graph.feeds(node).contains(source)
                        <==> self.edges().contains((source, node as usize)))
                &&& graph.buffers().len() == self.nodes().len()
                &&& forall|node: int|
                    0 <= node < self.nodes().len() ==> (#[trigger] graph.buffers()[node]).len()
                        == self.block_limit()
                &&& forall|node: int, j: int|
                    0 <= node < self.nodes().len() && 0 <= j < self.block_limit()
                        ==> #[trigger] graph.buffers()[node][j] == graph.silence()
            },
    {
        let count = self.nodes.len();
        if count == 0 {
            return Err(GraphError::Empty);
        }
        let order = match topological_order(count, &self.connections) {
            Some(order) => order,
            None => {
                return Err(GraphError::CycleDetected);
            },
        };
        let reverse_adj = source_lists(count, &self.connections);
        let sinks = sink_list(count, &self.connections);
        let silence = S::default();
        let mut node_bufs: Vec<Vec<S>> = Vec::with_capacity(count);
        while node_bufs.len() < count
            invariant
                node_bufs@.len() <= count,
                forall|i: int|
                    0 <= i < node_bufs@.len() ==> (#[trigger] node_bufs@[i])@ == Seq::new(
                        self.max_block as nat,
                        |j: int| silence,
                    ),
            decreases count - node_bufs@.len(),
        {
            node_bufs.push(filled_buffer(silence, self.max_block));
        }
        let graph = DspGraphInner {
            mix_scratch: filled_buffer(silence, self.max_block),
            nodes: self.nodes,
            order,
            reverse_adj,
            sinks,
            node_bufs,
            max_block: self.max_block,
            stats: ProcessStats::default(),
            silence,
        };
        proof {
            let edges = self.edges();
            crate::topology::lemma_sinks(count as nat, edges);
            crate::topology::law_last_node_feeds_none(count as nat, edges, graph.order@);
            assert(graph.order@[count - 1] < count);
            assert(graph.sinks@.contains(graph.order@.last()));
            assert forall|p: int, m: int|
                #![trigger graph.reverse_adj@[graph.order@[p] as int]@[m]]
                0 <= p < graph.order@.len() && 0 <= m < graph.reverse_adj@[graph.order@[p] as int]@.len()
                implies runs_before(
                graph.order@,
                p,
                graph.reverse_adj@[graph.order@[p] as int]@[m],
            ) by {
                let node = graph.order@[p];
                let source = graph.reverse_adj@[node as int]@[m];
                crate::topology::lemma_sources(edges, node);
                assert(crate::topology::sources(edges, node).contains(source));
                assert(edges.contains((source, node)));
                let e = choose|e: int| 0 <= e < edges.len() && edges[e] == (source, node);
                assert(edges[e].0 < count);
                crate::topology::lemma_distinct_names(count as nat, graph.order@);
                assert(graph.order@.contains(source));
                let q = choose|q: int| 0 <= q < graph.order@.len() && graph.order@[q] == source;
                assert(edges.contains((graph.order@[q], graph.order@[p])));
            }
            assert(graph.buffers() =~= silent_buffers(count as nat, self.block_limit(), silence));
            assert forall|node: int, source: usize|
                0 <= node < count implies (#[trigger] graph.feeds(node).contains(source)
                <==> edges.contains((source, node as usize))) by {
                crate::topology::lemma_sources(edges, node as usize);
                assert(graph.feeds(node) == crate::topology::sources(edges, node as usize));
            }
        }
        Ok(Arc::new(graph))
    }
}

/// The buffers of `nodes` nodes, each filled with silence.
pub open spec fn silent_buffers<S>(nodes: nat, length: nat, silence: S) -> Seq<Seq<S>> {
    Seq::new(nodes, |i: int| Seq::new(length, |j: int| silence))
}

/// The contents of `bufs`.
pub open spec fn contents<S>(bufs: Seq<Vec<S>>) -> Seq<Seq<S>> {
    Seq::new(bufs.len(), |i: int| bufs[i]@)
}

proof fn lemma_adds_up_push<S: Add<Output = S>>(terms: Seq<S>, partial: S, term: S, total: S)
    requires
        terms.len() > 0,
        adds_up_to(terms, partial),
        call_ensures(S::add, (partial, term), total),
    ensures
        adds_up_to(terms.push(term), total),
{
    let all = terms.push(term);
    assert(all.drop_last() =~= terms);
    assert(call_ensures(S::add, (partial, all.last()), total));
}

/// Copies the first `frames` samples of `from` over those of `to`.
fn copy_frames<S: Copy>(from: &[S], to: &mut [S], frames: usize)
    requires
        frames <= from@.len(),
        frames <= old(to)@.len(),
    ensures
        final(to)@ == from@.take(frames as int) + old(to)@.skip(frames as int),
{
    let mut j: usize = 0;
    while j < frames
        invariant
            j <= frames,
            frames <= from@.len(),
            frames <= to@.len(),
            to@.len() == old(to)@.len(),
            forall|i: int| 0 <= i < j ==> to@[i] == from@[i],
            forall|i: int| j <= i < to@.len() ==> to@[i] == old(to)@[i],
        decreases frames - j,
    {
        to[j] = from[j];
        j = j + 1;
    }
    assert(to@ =~= from@.take(frames as int) + old(to)@.skip(frames as int));
}

/// Adds up in `mix` the first `frames` samples of the buffers of `feeds`.
fn mix_buffers<S: Copy + Add<Output = S>>(
    feeds: &Vec<usize>,
    node_bufs: &Vec<Vec<S>>,
    mix: &mut [S],
    frames: usize,
)
    requires
        feeds@.len() > 0,
        frames <= old(mix)@.len(),
        forall|m: int|
            0 <= m < feeds@.len() ==> (#[trigger] feeds@[m]) < node_bufs@.len() && frames
                <= node_bufs@[feeds@[m] as int]@.len(),
        feeds@.len() > 1 ==> forall|a: S, b: S| #[trigger] a.add_req(b),
    ensures
        final(mix)@.len() == old(mix)@.len(),
        forall|j: int|
            0 <= j < frames ==> adds_up_to(
                column(feeds@, contents(node_bufs@), j),
                #[trigger] final(mix)@[j],
            ),
{
    let ghost buffers = contents(node_bufs@);
    assert(feeds@[0] < node_bufs@.len());
    copy_frames(node_bufs[feeds[0]].as_slice(), mix, frames);
    let mut m: usize = 1;
    assert forall|j: int| 0 <= j < frames implies adds_up_to(
        column(feeds@.take(1), buffers, j),
        #[trigger] mix@[j],
    ) by {
        assert(column(feeds@.take(1), buffers, j)[0] == mix@[j]);
    }
    while m < feeds.len()
        invariant
            1 <= m <= feeds@.len(),
            mix@.len() == old(mix)@.len(),
            frames <= mix@.len(),
            buffers == contents(node_bufs@),
            forall|k: int|
                0 <= k < feeds@.len() ==> (#[trigger] feeds@[k]) < node_bufs@.len() && frames
                    <= node_bufs@[feeds@[k] as int]@.len(),
            feeds@.len() > 1 ==> forall|a: S, b: S| #[trigger] a.add_req(b),
            forall|j: int|
                0 <= j < frames ==> adds_up_to(
                    column(feeds@.take(m as int), buffers, j),
                    #[trigger] mix@[j],
                ),
        decreases feeds@.len() - m,
    {
        let source = feeds[m];
        let ghost sums = mix@;
        let mut j: usize = 0;
        while j < frames
            invariant
                j <= frames,
                mix@.len() == old(mix)@.len(),
                frames <= mix@.len(),
                source < node_bufs@.len(),
                frames <= node_bufs@[source as int]@.len(),
                forall|a: S, b: S| #[trigger] a.add_req(b),
                sums.len() == mix@.len(),
                forall|i: int|
                    0 <= i < j ==> call_ensures(
                        S::add,
                        (sums[i], node_bufs@[source as int]@[i]),
                        #[trigger] mix@[i],
                    ),
                forall|i: int| j <= i < mix@.len() ==> mix@[i] == sums[i],
            decreases frames - j,
        {
            mix[j] = mix[j] + node_bufs[source][j];
            j = j + 1;
        }
        proof {
            assert forall|i: int| 0 <= i < frames implies adds_up_to(
                column(feeds@.take(m + 1), buffers, i),
                #[trigger] mix@[i],
            ) by {
                let terms = column(feeds@.take(m as int), buffers, i);
                let term = buffers[source as int][i];
                assert(adds_up_to(terms, sums[i]));
                lemma_adds_up_push(terms, sums[i], term, mix@[i]);
                assert(column(feeds@.take(m + 1), buffers, i) =~= terms.push(term));
            }
        }
        m = m + 1;
    }
    assert(feeds@.take(feeds@.len() as int) =~= feeds@);
}

/// Puts together in `mix` what the node fed by `feeds` gets to process.
fn gather_input<S: Copy + Add<Output = S>>(
    feeds: &Vec<usize>,
    node_bufs: &Vec<Vec<S>>,
    input: &[S],
    mix: &mut Vec<S>,
    frames: usize,
)
    requires
        frames <= input@.len(),
        frames <= old(mix)@.len(),
        forall|m: int|
            0 <= m < feeds@.len() ==> (#[trigger] feeds@[m]) < node_bufs@.len() && frames
                <= node_bufs@[feeds@[m] as int]@.len(),
        feeds@.len() > 1 ==> forall|a: S, b: S| #[trigger] a.add_req(b),
    ensures
        final(mix)@.len() == old(mix)@.len(),
        is_node_input(
            feeds@,
            input@,
            contents(node_bufs@),
            frames as int,
            final(mix)@.take(frames as int),
        ),
        feeds@.len() == 0 ==> forall|j: int|
            0 <= j < frames ==> #[trigger] final(mix)@[j] == input@[j],
        feeds@.len() == 1 ==> forall|j: int|
            0 <= j < frames ==> #[trigger] final(mix)@[j] == node_bufs@[feeds@[0] as int]@[j],
        feeds@.len() == 2 ==> forall|j: int|
            0 <= j < frames ==> call_ensures(
                S::add,
                (node_bufs@[feeds@[0] as int]@[j], node_bufs@[feeds@[1] as int]@[j]),
                #[trigger] final(mix)@[j],
            ),
{
    if feeds.len() == 0 {
        copy_frames(input, mix.as_mut_slice(), frames);
        assert(mix@.take(frames as int) =~= input@.take(frames as int));
        return;
    }
    mix_buffers(feeds, node_bufs, mix.as_mut_slice(), frames);
    assert forall|j: int| 0 <= j < frames implies adds_up_to(
        column(feeds@, contents(node_bufs@), j),
        #[trigger] mix@.take(frames as int)[j],
    ) by {
        assert(mix@.take(frames as int)[j] == mix@[j]);
    }
    assert forall|j: int| 0 <= j < frames implies (feeds@.len() == 1 ==> #[trigger] mix@[j]
        == node_bufs@[feeds@[0] as int]@[j]) && (feeds@.len() == 2 ==> call_ensures(
        S::add,
        (node_bufs@[feeds@[0] as int]@[j], node_bufs@[feeds@[1] as int]@[j]),
        mix@[j],
    )) by {
        law_mix_adds_every_feed_once(feeds@, contents(node_bufs@), j, mix@[j]);
        assert(feeds@[0] < node_bufs@.len());
        if feeds@.len() == 2 {
            assert(feeds@[1] < node_bufs@.len());
        }
    }
}

/// A node that has run stays so when others run that do not feed it.
proof fn lemma_node_ran_stays<S: Add<Output = S> + 'static>(
    ctx: ProcessContext,
    frames: int,
    input: Seq<S>,
    feeds: Seq<usize>,
    before: NodeSlot<S>,
    buffer: Seq<S>,
    after: NodeSlot<S>,
    buffers: Seq<Seq<S>>,
    later: Seq<Seq<S>>,
    node: int,
)
    requires
        node_ran(ctx, frames, input, feeds, before, buffer, after, buffers, node),
        later[node] == buffers[node],
        forall|m: int|
            0 <= m < feeds.len() ==> later[#[trigger] feeds[m] as int] == buffers[feeds[m] as int],
    ensures
        node_ran(ctx, frames, input, feeds, before, buffer, after, later, node),
{
    let mixed = choose|mixed: Seq<S>| #[trigger]
        is_node_input(feeds, input, buffers, frames, mixed) && (before.node.model().responds)(
            NodeStep {
                memory: before.node.memory(),
                ctx,
                input: mixed,
                before: buffer.take(frames),
                output: buffers[node].take(frames),
                next_memory: after.node.memory(),
            },
        );
    assert forall|j: int| column(feeds, later, j) == column(feeds, buffers, j) by {
        assert(column(feeds, later, j) =~= column(feeds, buffers, j));
    }
    assert(is_node_input(feeds, input, later, frames, mixed));
}

/// The number of samples of a block that a graph processes.
pub open spec fn frames_of(input: nat, output: nat, limit: nat) -> int {
    let shorter = if input < output {
        input
    } else {
        output
    };
    if shorter < limit {
        shorter as int
    } else {
        limit as int
    }
}

impl<S: Copy + Add<Output = S> + 'static> DspGraphInner<S> {
    /// Processes one block: every node runs once, after all that feed it, on the sum of
    /// their outputs, or on `input` itself when nothing feeds it. The sum of what the nodes
    /// leave that feed no other is the output; a longer `output` ends in silence.
    pub fn process(&mut self, input: &[S], output: &mut [S], ctx: &ProcessContext)
        requires
            old(self).wf(),
            old(self).mixes() ==> forall|a: S, b: S| #[trigger] a.add_req(b),
            old(self).counts().blocks_processed < u64::MAX,
            old(self).counts().samples_processed + frames_of(
                input@.len(),
                old(output)@.len(),
                old(self).block_limit(),
            ) <= u64::MAX,
        ensures
            final(self).wf(),
            final(self).same_shape(old(self)),
            ({
                let frames = frames_of(
                    input@.len(),
                    old(output)@.len(),
                    old(self).block_limit(),
                );
                &&& forall|node: int|
                    #![trigger final(self).nodes()[node]]
                    0 <= node < old(self).nodes().len() ==> node_ran(
                        *ctx,
                        frames,
                        input@,
                        old(self).feeds(node),
                        old(self).nodes()[node],
                        old(self).buffers()[node],
                        final(self).nodes()[node],
                        final(self).buffers(),
                        node,
                    )
                &&& final(output)@.len() == old(output)@.len()
                &&& forall|j: int|
                    0 <= j < frames ==> adds_up_to(
                        column(old(self).sinks(), final(self).buffers(), j),
                        #[trigger] final(output)@[j],
                    )
                &&& final(output)@.skip(frames) == Seq::new(
                    (old(output)@.len() - frames) as nat,
                    |i: int| old(self).silence(),
                )
                &&& frames <= input@.len() && frames <= old(output)@.len() && frames <= old(
                    self,
                ).block_limit()
                &&& frames == input@.len() || frames == old(output)@.len() || frames == old(
                    self,
                ).block_limit()
                &&& forall|j: int|
                    frames <= j < old(output)@.len() ==> #[trigger] final(output)@[j]
                        == old(self).silence()
                &&& final(self).order() == old(self).order()
                &&& final(self).sinks() == old(self).sinks()
                &&& final(self).block_limit() == old(self).block_limit()
                &&& final(self).silence() == old(self).silence()
                &&& final(self).nodes().len() == old(self).nodes().len()
                &&& forall|node: int|
                    0 <= node < old(self).nodes().len() ==> #[trigger] final(self).feeds(node)
                        == old(self).feeds(node)
                &&& total_latency(final(self).nodes()) == total_latency(old(self).nodes())
                &&& final(self).counts().blocks_processed == old(self).counts().blocks_processed + 1
                &&& final(self).counts().samples_processed == old(self).counts().samples_processed
                    + frames
            }),
    {
        let mut frames: usize = input.len();
        if output.len() < frames {
            frames = output.len();
        }
        if self.max_block < frames {
            frames = self.max_block;
        }
        let ghost start = *self;
        let ghost count = self.nodes@.len();
        let mut k: usize = 0;
        while k < self.order.len()
            invariant
                k <= self.order@.len(),
                start == *old(self),
                start.wf(),
                self.wf(),
                count == start.nodes@.len(),
                self.nodes@.len() == count,
                self.order@ == start.order@,
                self.reverse_adj@ == start.reverse_adj@,
                self.sinks@ == start.sinks@,
                self.max_block == start.max_block,
                self.silence == start.silence,
                self.stats == start.stats,
                frames <= self.max_block,
                frames <= input@.len(),
                start.mixes() ==> forall|a: S, b: S| #[trigger] a.add_req(b),
                forall|p: int|
                    #![trigger start.order@[p]]
                    k <= p < start.order@.len() ==> self.nodes@[start.order@[p] as int]
                        == start.nodes@[start.order@[p] as int]
                        && self.node_bufs@[start.order@[p] as int]
                        == start.node_bufs@[start.order@[p] as int],
                forall|p: int|
                    #![trigger start.order@[p]]
                    0 <= p < k ==> node_ran(
                        *ctx,
                        frames as int,
                        input@,
                        start.feeds(start.order@[p] as int),
                        start.nodes@[start.order@[p] as int],
                        start.buffers()[start.order@[p] as int],
                        self.nodes@[start.order@[p] as int],
                        self.buffers(),
                        start.order@[p] as int,
                    ),
            decreases self.order@.len() - k,
        {
            let node = self.order[k];
            let ghost before = *self;
            proof {
                assert(start.order@[k as int] == node);
                assert forall|m: int| 0 <= m < self.reverse_adj@[node as int]@.len() implies (
                #[trigger] self.reverse_adj@[node as int]@[m]) < self.node_bufs@.len()
                    && self.reverse_adj@[node as int]@[m] != node by {
                    let source = self.reverse_adj@[self.order@[k as int] as int]@[m];
                    assert(runs_before(self.order@, k as int, source));
                    let q = choose|q: int| 0 <= q < k && #[trigger] self.order@[q] == source;
                    assert(self.order@[q] < self.nodes@.len());
                    assert(self.order@[q] != self.order@[k as int]);
                }
            }
            assert(self.reverse_adj@[node as int]@ == start.feeds(node as int));
            gather_input(
                &self.reverse_adj[node],
                &self.node_bufs,
                input,
                &mut self.mix_scratch,
                frames,
            );
            let ghost mixed = self.mix_scratch@.take(frames as int);
            let inputs = self.mix_scratch.as_slice().split_at(frames).0;
            let (outputs, _rest) = self.node_bufs[node].as_mut_slice().split_at_mut(frames);
            self.nodes[node].node.process(inputs, outputs, ctx);
            let ghost produced = outputs@;
            proof {
                let after = *self;
                let ran = node as int;
                assert forall|i: int| 0 <= i < count && i != ran implies #[trigger] after.buffers()[i]
                    == before.buffers()[i] by {}
                assert forall|p: int, m: int|
                    #![trigger start.feeds(start.order@[p] as int)[m]]
                    0 <= p <= k && 0 <= m < start.feeds(start.order@[p] as int).len() implies
                    after.buffers()[start.feeds(start.order@[p] as int)[m] as int]
                    == before.buffers()[start.feeds(start.order@[p] as int)[m] as int] by {
                    let source = start.reverse_adj@[start.order@[p] as int]@[m];
                    assert(runs_before(start.order@, p, source));
                    let q = choose|q: int| 0 <= q < p && #[trigger] start.order@[q] == source;
                    assert(start.order@[q] != start.order@[k as int]);
                }
                assert forall|p: int|
                    #![trigger start.order@[p]]
                    0 <= p <= k implies node_ran(
                    *ctx,
                    frames as int,
                    input@,
                    start.feeds(start.order@[p] as int),
                    start.nodes@[start.order@[p] as int],
                    start.buffers()[start.order@[p] as int],
                    after.nodes@[start.order@[p] as int],
                    after.buffers(),
                    start.order@[p] as int,
                ) by {
                    let i = start.order@[p] as int;
                    if p < k {
                        assert(start.order@[p] != start.order@[k as int]);
                        lemma_node_ran_stays(
                            *ctx,
                            frames as int,
                            input@,
                            start.feeds(i),
                            start.nodes@[i],
                            start.buffers()[i],
                            before.nodes@[i],
                            before.buffers(),
                            after.buffers(),
                            i,
                        );
                    } else {
                        assert(before.buffers() =~= contents(before.node_bufs@));
                        assert forall|j: int|
                            column(start.feeds(i), after.buffers(), j) == column(
                                start.feeds(i),
                                before.buffers(),
                                j,
                            ) by {
                            assert(column(start.feeds(i), after.buffers(), j) =~= column(
                                start.feeds(i),
                                before.buffers(),
                                j,
                            ));
                        }
                        assert(is_node_input(
                            start.feeds(i),
                            input@,
                            after.buffers(),
                            frames as int,
                            mixed,
                        ));
                        let buffer = start.buffers()[i];
                        assert(after.buffers()[i].take(frames as int) =~= produced);
                        assert((start.nodes@[i].node.model().responds)(
                            NodeStep {
                                memory: start.nodes@[i].node.memory(),
                                ctx: *ctx,
                                input: mixed,
                                before: buffer.take(frames as int),
                                output: produced,
                                next_memory: after.nodes@[i].node.memory(),
                            },
                        ));
                        assert(after.buffers()[i].skip(frames as int) =~= buffer.skip(
                            frames as int,
                        ));
                    }
                }
            }
            k = k + 1;
        }
        mix_buffers(&self.sinks, &self.node_bufs, output, frames);
        let ghost mixed = output@;
        let mut j: usize = frames;
        while j < output.len()
            invariant
                frames <= j <= output@.len(),
                output@.len() == old(output)@.len() == mixed.len(),
                forall|i: int| 0 <= i < frames ==> output@[i] == mixed[i],
                forall|i: int| frames <= i < j ==> output@[i] == self.silence,
            decreases output@.len() - j,
        {
            output[j] = self.silence;
            j = j + 1;
        }
        let ghost ran = *self;
        self.stats.blocks_processed = self.stats.blocks_processed + 1;
        self.stats.samples_processed = self.stats.samples_processed + frames as u64;
        assert(self.buffers() =~= ran.buffers());
        proof {
            crate::topology::lemma_distinct_names(count, start.order@);
            assert forall|node: int|
                #![trigger self.nodes()[node]]
                0 <= node < count implies node_ran(
                *ctx,
                frames as int,
                input@,
                start.feeds(node),
                start.nodes()[node],
                start.buffers()[node],
                self.nodes()[node],
                self.buffers(),
                node,
            ) by {
                assert(start.order@.contains(node as usize));
                let p = choose|p: int|
                    0 <= p < start.order@.len() && start.order@[p] == node as usize;
                assert(start.order@[p] as int == node);
            }
            assert forall|i: int| 0 <= i < count implies start.nodes@[i].node.model() == (
            #[trigger] self.nodes@[i]).node.model() by {
                assert(self.nodes()[i] == self.nodes@[i]);
            }
            lemma_same_latency(start.nodes@, self.nodes@);
            assert(self.buffers() =~= contents(self.node_bufs@));
            assert forall|j: int| 0 <= j < frames implies adds_up_to(
                column(start.sinks(), self.buffers(), j),
                #[trigger] output@[j],
            ) by {
                assert(output@[j] == mixed[j]);
            }
            assert(output@.skip(frames as int) =~= Seq::new(
                (old(output)@.len() - frames) as nat,
                |i: int| start.silence(),
            ));
        }
    }
}

/// A sum of samples adds every one of them once, from the first to the last: `sums` holds the
/// sum of the first one, the first two, and so on.
pub proof fn law_mix_adds_every_feed_once<S: Add<Output = S>>(
    feeds: Seq<usize>,
    buffers: Seq<Seq<S>>,
    index: int,
    total: S,
) -> (sums: Seq<S>)
    requires
        adds_up_to(column(feeds, buffers, index), total),
    ensures
        0 < feeds.len() == sums.len(),
        sums[0] == buffers[feeds[0] as int][index],
        forall|m: int|
            1 <= m < feeds.len() ==> call_ensures(
                S::add,
                (#[trigger] sums[m - 1], buffers[feeds[m] as int][index]),
                sums[m],
            ),
        sums[feeds.len() - 1] == total,
        feeds.len() == 1 ==> total == buffers[feeds[0] as int][index],
        feeds.len() == 2 ==> call_ensures(
            S::add,
            (buffers[feeds[0] as int][index], buffers[feeds[1] as int][index]),
            total,
        ),
    decreases feeds.len(),
{
    let terms = column(feeds, buffers, index);
    if feeds.len() == 1 {
        assert(terms[0] == buffers[feeds[0] as int][index]);
        seq![total]
    } else {
        let partial = choose|partial: S|
            adds_up_to(terms.drop_last(), partial) && #[trigger] call_ensures(
                S::add,
                (partial, terms.last()),
                total,
            );
        assert(terms.drop_last() =~= column(feeds.drop_last(), buffers, index));
        let some = law_mix_adds_every_feed_once(feeds.drop_last(), buffers, index, partial);
        let sums = some.push(total);
        assert forall|m: int| 1 <= m < feeds.len() implies call_ensures(
            S::add,
            (#[trigger] sums[m - 1], buffers[feeds[m] as int][index]),
            sums[m],
        ) by {
            if m < feeds.len() - 1 {
                assert(some[m - 1] == sums[m - 1]);
                assert(feeds.drop_last()[m] == feeds[m]);
            }
        }
        if feeds.len() == 2 {
            assert(some[0] == partial);
        }
        sums
    }
}

/// Any way of adding up the samples one by one gives a sum of them.
pub proof fn law_adding_one_by_one_mixes<S: Add<Output = S>>(
    feeds: Seq<usize>,
    buffers: Seq<Seq<S>>,
    index: int,
    sums: Seq<S>,
)
    requires
        0 < feeds.len() == sums.len(),
        sums[0] == buffers[feeds[0] as int][index],
        forall|m: int|
            1 <= m < feeds.len() ==> call_ensures(
                S::add,
                (#[trigger] sums[m - 1], buffers[feeds[m] as int][index]),
                sums[m],
            ),
    ensures
        adds_up_to(column(feeds, buffers, index), sums[feeds.len() - 1]),
    decreases feeds.len(),
{
    let terms = column(feeds, buffers, index);
    if feeds.len() > 1 {
        let fewer = feeds.drop_last();
        assert forall|m: int| 1 <= m < fewer.len() implies call_ensures(
            S::add,
            (#[trigger] sums.drop_last()[m - 1], buffers[fewer[m] as int][index]),
            sums.drop_last()[m],
        ) by {
            assert(sums.drop_last()[m - 1] == sums[m - 1]);
        }
        law_adding_one_by_one_mixes(fewer, buffers, index, sums.drop_last());
        let last = feeds.len() - 1;
        assert(sums[last - 1] == sums.drop_last()[fewer.len() - 1]);
        lemma_adds_up_push(
            column(fewer, buffers, index),
            sums[last - 1],
            buffers[feeds[last] as int][index],
            sums[last],
        );
        assert(column(fewer, buffers, index).push(buffers[feeds[last] as int][index]) =~= terms);
    } else {
        assert(terms[0] == buffers[feeds[0] as int][index]);
    }
}

/// What a node that has run was given to process: the input of the graph when nothing feeds
/// it, the output of the one node that feeds it, the sum of the outputs of the two that feed
/// it, and so on. It answered to just that as it answers, from what it remembered, and
/// nothing behind the block was touched.
pub proof fn law_node_gets_the_sum_of_its_feeds<S: Add<Output = S> + 'static>(
    ctx: ProcessContext,
    frames: int,
    input: Seq<S>,
    feeds: Seq<usize>,
    before: NodeSlot<S>,
    buffer: Seq<S>,
    after: NodeSlot<S>,
    buffers: Seq<Seq<S>>,
    node: int,
) -> (mixed: Seq<S>)
    requires
        node_ran(ctx, frames, input, feeds, before, buffer, after, buffers, node),
        0 <= frames <= input.len(),
        frames <= buffer.len(),
    ensures
        mixed.len() == frames,
        feeds.len() == 0 ==> forall|j: int| 0 <= j < frames ==> #[trigger] mixed[j] == input[j],
        feeds.len() == 1 ==> forall|j: int|
            0 <= j < frames ==> #[trigger] mixed[j] == buffers[feeds[0] as int][j],
        feeds.len() == 2 ==> forall|j: int|
            0 <= j < frames ==> call_ensures(
                S::add,
                (buffers[feeds[0] as int][j], buffers[feeds[1] as int][j]),
                #[trigger] mixed[j],
            ),
        feeds.len() > 0 ==> forall|j: int|
            0 <= j < frames ==> adds_up_to(column(feeds, buffers, j), #[trigger] mixed[j]),
        (before.node.model().responds)(
            NodeStep {
                memory: before.node.memory(),
                ctx,
                input: mixed,
                before: buffer.take(frames),
                output: buffers[node].take(frames),
                next_memory: after.node.memory(),
            },
        ),
        after.node.model() == before.node.model(),
        buffers[node].len() == buffer.len(),
        forall|j: int| frames <= j < buffer.len() ==> #[trigger] buffers[node][j] == buffer[j],
{
    let mixed = choose|mixed: Seq<S>| #[trigger]
        is_node_input(feeds, input, buffers, frames, mixed) && (before.node.model().responds)(
            NodeStep {
                memory: before.node.memory(),
                ctx,
                input: mixed,
                before: buffer.take(frames),
                output: buffers[node].take(frames),
                next_memory: after.node.memory(),
            },
        );
    if feeds.len() == 1 || feeds.len() == 2 {
        assert forall|j: int| 0 <= j < frames implies (feeds.len() == 1 ==> #[trigger] mixed[j]
            == buffers[feeds[0] as int][j]) && (feeds.len() == 2 ==> call_ensures(
            S::add,
            (buffers[feeds[0] as int][j], buffers[feeds[1] as int][j]),
            mixed[j],
        )) by {
            law_mix_adds_every_feed_once(feeds, buffers, j, mixed[j]);
        }
    }
    assert forall|j: int| frames <= j < buffer.len() implies #[trigger] buffers[node][j]
        == buffer[j] by {
        assert(buffers[node].skip(frames)[j - frames] == buffer.skip(frames)[j - frames]);
    }
    mixed
}

/// The delay of a graph grows by the delay of every node that is put behind the others.
pub proof fn law_latencies_add_up<S: 'static>(slots: Seq<NodeSlot<S>>, slot: NodeSlot<S>)
    ensures
        total_latency(Seq::<NodeSlot<S>>::empty()) == 0,
        total_latency(slots.push(slot)) == total_latency(slots) + slot.node.model().latency,
{
    assert(slots.push(slot).drop_last() =~= slots);
}

/// Where one node alone feeds no other, the output of the graph is what that node leaves.
pub proof fn law_only_sink_is_heard<S: Add<Output = S>>(
    sink: usize,
    buffers: Seq<Seq<S>>,
    index: int,
    sample: S,
)
    ensures
        adds_up_to(column(seq![sink], buffers, index), sample) <==> sample
            == buffers[sink as int][index],
{
    assert(column(seq![sink], buffers, index)[0] == buffers[sink as int][index]);
}

/// The sum of the delays of `slots`.
pub open spec fn total_latency<S: 'static>(slots: Seq<NodeSlot<S>>) -> nat
    decreases slots.len(),
{
    if slots.len() == 0 {
        0
    } else {
        total_latency(slots.drop_last()) + slots.last().node.model().latency
    }
}

/// The node `before` was reset and became `after`.
pub open spec fn node_was_reset<S: 'static>(before: NodeSlot<S>, after: NodeSlot<S>) -> bool {
    &&& after.node.model() == before.node.model()
    &&& (before.node.model().resets)(before.node.memory(), after.node.memory())
}

/// Nodes that behave alike add the same delay.
proof fn lemma_same_latency<S: 'static>(slots: Seq<NodeSlot<S>>, others: Seq<NodeSlot<S>>)
    requires
        slots.len() == others.len(),
        forall|i: int|
            0 <= i < slots.len() ==> slots[i].node.model() == (#[trigger] others[i]).node.model(),
    ensures
        total_latency(slots) == total_latency(others),
    decreases slots.len(),
{
    if slots.len() > 0 {
        assert(others.last() == others[others.len() - 1]);
        assert forall|i: int| 0 <= i < slots.len() - 1 implies slots.drop_last()[i].node.model()
            == (#[trigger] others.drop_last()[i]).node.model() by {
            assert(others.drop_last()[i] == others[i]);
        }
        lemma_same_latency(slots.drop_last(), others.drop_last());
    }
}

proof fn lemma_latency_grows<S: 'static>(slots: Seq<NodeSlot<S>>, i: int)
    requires
        0 <= i <= slots.len(),
    ensures
        total_latency(slots.take(i)) <= total_latency(slots),
    decreases slots.len(),
{
    if i < slots.len() {
        lemma_latency_grows(slots.drop_last(), i);
        assert(slots.drop_last().take(i) =~= slots.take(i));
    } else {
        assert(slots.take(i) =~= slots);
    }
}

impl<S: 'static> DspGraphInner<S> {
    /// The delay of the whole graph: the sum of the delays of its nodes.
    pub fn total_latency_samples(&self) -> (samples: usize)
        requires
            total_latency(self.nodes()) <= usize::MAX,
        ensures
            samples == total_latency(self.nodes()),
    {
        let mut samples: usize = 0;
        assert(self.nodes@.take(0) =~= Seq::empty());
        for i in 0..self.nodes.len()
            invariant
                total_latency(self.nodes@) <= usize::MAX,
                samples == total_latency(self.nodes@.take(i as int)),
        {
            proof {
                lemma_latency_grows(self.nodes@, i + 1);
                assert(self.nodes@.take(i + 1).drop_last() =~= self.nodes@.take(i as int));
            }
            samples = samples + self.nodes[i].node.latency_samples();
        }
        assert(self.nodes@.take(self.nodes@.len() as int) =~= self.nodes@);
        samples
    }
}

impl<S: Copy + 'static> DspGraphInner<S> {
    /// Resets every node, silences every buffer and starts counting afresh.
    pub fn reset(&mut self)
        requires
            old(self).wf(),
        ensures
            final(self).wf(),
            final(self).same_shape(old(self)),
            forall|node: int|
                0 <= node < old(self).nodes().len() ==> node_was_reset(
                    old(self).nodes()[node],
                    #[trigger] final(self).nodes()[node],
                ),
            total_latency(final(self).nodes()) == total_latency(old(self).nodes()),
            final(self).buffers() == silent_buffers(
                old(self).nodes().len(),
                old(self).block_limit(),
                old(self).silence(),
            ),
            final(self).counts().blocks_processed == 0,
            final(self).counts().samples_processed == 0,
            final(self).nodes().len() == old(self).nodes().len(),
            final(self).order() == old(self).order(),
            final(self).sinks() == old(self).sinks(),
            final(self).block_limit() == old(self).block_limit(),
            final(self).silence() == old(self).silence(),
            forall|node: int|
                0 <= node < old(self).nodes().len() ==> #[trigger] final(self).feeds(node)
                    == old(self).feeds(node),
            forall|node: int|
                0 <= node < old(self).nodes().len() ==> (
                #[trigger] final(self).nodes()[node]).node.model()
                    == old(self).nodes()[node].node.model() && (
                old(self).nodes()[node].node.model().resets)(
                    old(self).nodes()[node].node.memory(),
                    final(self).nodes()[node].node.memory(),
                ),
            final(self).buffers().len() == old(self).nodes().len(),
            forall|node: int, j: int|
                0 <= node < old(self).nodes().len() && 0 <= j < old(self).block_limit()
                    ==> #[trigger] final(self).buffers()[node][j] == old(self).silence(),
    {
        let ghost start = *self;
        let mut i: usize = 0;
        while i < self.nodes.len()
            invariant
                i <= self.nodes@.len(),
                start.wf(),
                self.wf(),
                self.nodes@.len() == start.nodes@.len(),
                self.order@ == start.order@,
                self.reverse_adj@ == start.reverse_adj@,
                self.sinks@ == start.sinks@,
                self.max_block == start.max_block,
                self.silence == start.silence,
                self.node_bufs@ == start.node_bufs@,
                forall|node: int|
                    0 <= node < i ==> node_was_reset(
                        start.nodes@[node],
                        #[trigger] self.nodes@[node],
                    ),
                forall|node: int|
                    i <= node < self.nodes@.len() ==> self.nodes@[node] == start.nodes@[node],
            decreases self.nodes@.len() - i,
        {
            self.nodes[i].node.reset();
            i = i + 1;
        }
        let silence = self.silence;
        i = 0;
        while i < self.node_bufs.len()
            invariant
                i <= self.node_bufs@.len(),
                start.wf(),
                self.wf(),
                self.nodes@.len() == start.nodes@.len(),
                self.order@ == start.order@,
                self.reverse_adj@ == start.reverse_adj@,
                self.sinks@ == start.sinks@,
                self.max_block == start.max_block,
                self.silence == start.silence,
                silence == self.silence,
                forall|node: int|
                    0 <= node < self.nodes@.len() ==> node_was_reset(
                        start.nodes@[node],
                        #[trigger] self.nodes@[node],
                    ),
                forall|b: int|
                    0 <= b < i ==> (#[trigger] self.node_bufs@[b])@ == Seq::new(
                        self.max_block as nat,
                        |j: int| silence,
                    ),
            decreases self.node_bufs@.len() - i,
        {
            silence_buffer(silence, &mut self.node_bufs[i]);
            i = i + 1;
        }
        silence_buffer(silence, &mut self.mix_scratch);
        self.stats = ProcessStats::default();
        proof {
            lemma_same_latency(start.nodes@, self.nodes@);
            assert(self.buffers() =~= silent_buffers(
                start.nodes@.len(),
                start.block_limit(),
                silence,
            ));
        }
    }
}

/// Overwrites every sample of `buffer` with `silence`.
fn silence_buffer<S: Copy>(silence: S, buffer: &mut Vec<S>)
    ensures
        final(buffer)@ == Seq::new(old(buffer)@.len(), |j: int| silence),
{
    let mut j: usize = 0;
    while j < buffer.len()
        invariant
            j <= buffer@.len(),
            buffer@.len() == old(buffer)@.len(),
            forall|i: int| 0 <= i < j ==> buffer@[i] == silence,
        decreases buffer@.len() - j,
    {
        buffer[j] = silence;
        j = j + 1;
    }
    assert(buffer@ =~= Seq::new(old(buffer)@.len(), |j: int| silence));
}

/// Where the graph in use is published and replaced.
#[verifier::reject_recursive_types(S)]
pub struct DspGraphHandle<S: 'static> {
    current: RcuHandle<Arc<DspGraphInner<S>>>,
}

impl<S: 'static> DspGraphHandle<S> {
    /// The graph in use.
    pub closed spec fn current(&self) -> Option<Arc<DspGraphInner<S>>> {
        self.current.current()
    }

    /// How many graphs have been published, modulo the range of the counter.
    pub closed spec fn publications(&self) -> u64 {
        self.current.publications()
    }

    /// A handle at which `initial` is in use.
    pub fn new(initial: Arc<DspGraphInner<S>>) -> (handle: Self)
        ensures
            handle.current() == Some(initial),
            handle.publications() == 1,
    {
        Self { current: RcuHandle::new(initial) }
    }

    /// A handle without a graph.
    pub fn empty() -> (handle: Self)
        ensures
            handle.current() is None,
            handle.publications() == 0,
    {
        Self { current: RcuHandle::empty() }
    }

    /// Reads the graph in use.
    pub fn load(&self) -> (current: Option<&Arc<DspGraphInner<S>>>)
        ensures
            current == (match self.current() {
                Some(graph) => Some(&graph),
                None => None,
            }),
    {
        self.current.load()
    }

    /// There is no graph.
    pub fn is_null(&self) -> (null: bool)
        ensures
            null == (self.current() is None),
    {
        self.current.load().is_none()
    }

    pub fn version(&self) -> (version: u64)
        ensures
            version == self.publications(),
    {
        self.current.version()
    }

    /// Puts `new_graph` to use and hands back the graph that was in use before.
    pub fn swap(&mut self, new_graph: Arc<DspGraphInner<S>>) -> (retired: Option<
        Arc<DspGraphInner<S>>,
    >)
        ensures
            retired == old(self).current(),
            final(self).current() == Some(new_graph),
            final(self).publications() == crate::rcu::next_version(old(self).publications()),
            old(self).publications() < u64::MAX ==> final(self).publications()
                == old(self).publications() + 1,
    {
        self.current.swap(new_graph)
    }
}

} // verus!
