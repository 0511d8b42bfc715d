//! Scheduling of a directed graph: who feeds whom, and in which order the nodes
//! can run.
//!
//! A graph is a number of nodes, called `0`, `1`, and so on, and the sequence of
//! its edges in the order in which they were made.
use std::collections::VecDeque;
use vstd::prelude::*;

verus! {

/// An edge, from its source to its target.
pub type Edge = (usize, usize);

/// Both ends of every edge are nodes, and no edge occurs twice.
pub open spec fn edges_valid(nodes: nat, edges: Seq<Edge>) -> bool {
    &&& edges.no_duplicates()
    &&& forall|k: int|
        0 <= k < edges.len() ==> (#[trigger] edges[k]).0 < nodes && edges[k].1 < nodes
}

/// Every step of `path` follows an edge.
pub open spec fn is_path(edges: Seq<Edge>, path: Seq<usize>) -> bool {
    forall|i: int, j: int|
        #![trigger path[i], path[j]]
        0 <= i && j == i + 1 && j < path.len() ==> edges.contains((path[i], path[j]))
}

/// Some path along the edges comes back to where it began.
pub open spec fn has_cycle(edges: Seq<Edge>) -> bool {
    exists|path: Seq<usize>|
        #![trigger is_path(edges, path)]
        path.len() >= 2 && is_path(edges, path) && path[0] == path.last()
}

/// The nodes that `node` feeds, in the order of the edges.
pub open spec fn targets(edges: Seq<Edge>, node: usize) -> Seq<usize>
    decreases edges.len(),
{
    if edges.len() == 0 {
        Seq::empty()
    } else if edges.last().0 == node {
        targets(edges.drop_last(), node).push(edges.last().1)
    } else {
        targets(edges.drop_last(), node)
    }
}

/// The nodes that feed `node`, in the order of the edges.
pub open spec fn sources(edges: Seq<Edge>, node: usize) -> Seq<usize>
    decreases edges.len(),
{
    if edges.len() == 0 {
        Seq::empty()
    } else if edges.last().1 == node {
        sources(edges.drop_last(), node).push(edges.last().0)
    } else {
        sources(edges.drop_last(), node)
    }
}

/// Everything that feeds `node` is in `done`.
pub open spec fn is_ready(edges: Seq<Edge>, done: Seq<usize>, node: usize) -> bool {
    forall|source: usize| #[trigger] edges.contains((source, node)) ==> done.contains(source)
}

/// The ready ones among `candidates`, in their order.
pub open spec fn ready_among(
    edges: Seq<Edge>,
    done: Seq<usize>,
    candidates: Seq<usize>,
) -> Seq<usize>
    decreases candidates.len(),
{
    if candidates.len() == 0 {
        Seq::empty()
    } else {
        let before = ready_among(edges, done, candidates.drop_last());
        if is_ready(edges, done, candidates.last()) {
            before.push(candidates.last())
        } else {
            before
        }
    }
}

/// The names of all nodes, in order.
pub open spec fn all_nodes(nodes: nat) -> Seq<usize> {
    Seq::new(nodes, |i: int| i as usize)
}

/// The nodes that are known to be runnable once the first `steps` of them have run:
/// at first those that nothing feeds, and after each that runs, those that were
/// waiting for it alone.
pub open spec fn queued_after(nodes: nat, edges: Seq<Edge>, steps: nat) -> Seq<usize>
    decreases steps,
{
    if steps == 0 {
        ready_among(edges, Seq::empty(), all_nodes(nodes))
    } else {
        let queued = queued_after(nodes, edges, (steps - 1) as nat);
        if steps <= queued.len() {
            queued + ready_among(
                edges,
                queued.take(steps as int),
                targets(edges, queued[steps - 1]),
            )
        } else {
            queued
        }
    }
}

/// The order in which the nodes run: first come, first served. A node that can never
/// run is not in it.
pub open spec fn run_order(nodes: nat, edges: Seq<Edge>) -> Seq<usize> {
    queued_after(nodes, edges, nodes)
}

/// `order` holds every node once, each after all that feed it.
pub open spec fn is_topological(nodes: nat, edges: Seq<Edge>, order: Seq<usize>) -> bool {
    &&& order.len() == nodes
    &&& order.no_duplicates()
    &&& forall|i: int| 0 <= i < order.len() ==> #[trigger] order[i] < nodes
    &&& forall|i: int, j: int|
        0 <= i < order.len() && 0 <= j < order.len() && #[trigger] edges.contains(
            (order[i], order[j]),
        ) ==> i < j
}

/// The edges into `node` whose source is not in `done` yet.
spec fn pending(edges: Seq<Edge>, done: Seq<usize>, node: usize) -> nat
    decreases edges.len(),
{
    if edges.len() == 0 {
        0
    } else {
        pending(edges.drop_last(), done, node) + (if edges.last().1 == node && !done.contains(
            edges.last().0,
        ) {
            1nat
        } else {
            0
        })
    }
}

proof fn lemma_pending_bounded(edges: Seq<Edge>, done: Seq<usize>, node: usize)
    ensures
        pending(edges, done, node) <= edges.len(),
    decreases edges.len(),
{
    if edges.len() > 0 {
        lemma_pending_bounded(edges.drop_last(), done, node);
    }
}

pub proof fn lemma_contains_drop_last<A>(s: Seq<A>, x: A)
    requires
        s.len() > 0,
    ensures
        s.contains(x) <==> s.last() == x || s.drop_last().contains(x),
{
    if s.contains(x) {
        let i = choose|i: int| 0 <= i < s.len() && s[i] == x;
        if i < s.len() - 1 {
            assert(s.drop_last()[i] == x);
        }
    }
    if s.drop_last().contains(x) {
        let i = choose|i: int| 0 <= i < s.drop_last().len() && s.drop_last()[i] == x;
        assert(s[i] == x);
    }
    assert(s[s.len() - 1] == s.last());
}

proof fn lemma_pending_zero(edges: Seq<Edge>, done: Seq<usize>, node: usize)
    ensures
        pending(edges, done, node) == 0 <==> is_ready(edges, done, node),
    decreases edges.len(),
{
    if edges.len() > 0 {
        let rest = edges.drop_last();
        lemma_pending_zero(rest, done, node);
        assert forall|source: usize|
            #![trigger edges.contains((source, node))]
            edges.contains((source, node)) <==> edges.last() == (source, node) || rest.contains(
                (source, node),
            ) by {
            lemma_contains_drop_last(edges, (source, node));
        }
        if is_ready(edges, done, node) {
            assert forall|source: usize| #[trigger] rest.contains((source, node)) implies done.contains(
                source,
            ) by {
                assert(edges.contains((source, node)));
            }
            if edges.last().1 == node {
                assert(edges.contains((edges.last().0, node)));
            }
        } else {
            let source = choose|source: usize| #[trigger]
                edges.contains((source, node)) && !done.contains(source);
            if edges.last() != (source, node) {
                assert(rest.contains((source, node)));
            }
        }
    }
}

proof fn lemma_pending_push(edges: Seq<Edge>, done: Seq<usize>, ran: usize, node: usize)
    requires
        edges.no_duplicates(),
        !done.contains(ran),
    ensures
        pending(edges, done, node) == pending(edges, done.push(ran), node) + (if edges.contains(
            (ran, node),
        ) {
            1nat
        } else {
            0
        }),
    decreases edges.len(),
{
    if edges.len() > 0 {
        let rest = edges.drop_last();
        assert(rest.no_duplicates());
        lemma_pending_push(rest, done, ran, node);
        lemma_contains_drop_last(edges, (ran, node));
        let source = edges.last().0;
        assert(done.push(ran).contains(source) <==> done.contains(source) || source == ran) by {
            lemma_contains_drop_last(done.push(ran), source);
            assert(done.push(ran).drop_last() =~= done);
        }
        if edges.last() == (ran, node) {
            assert(!rest.contains((ran, node))) by {
                if rest.contains((ran, node)) {
                    let i = choose|i: int| 0 <= i < rest.len() && rest[i] == (ran, node);
                    assert(edges[i] == edges[edges.len() - 1]);
                }
            }
        }
    }
}

proof fn lemma_targets(edges: Seq<Edge>, node: usize)
    requires
        edges.no_duplicates(),
    ensures
        targets(edges, node).no_duplicates(),
        targets(edges, node).len() <= edges.len(),
        forall|target: usize|
            #![trigger targets(edges, node).contains(target)]
            #![trigger edges.contains((node, target))]
            targets(edges, node).contains(target) <==> edges.contains((node, target)),
    decreases edges.len(),
{
    if edges.len() > 0 {
        let rest = edges.drop_last();
        assert(rest.no_duplicates());
        lemma_targets(rest, node);
        let (source, end) = edges.last();
        if source == node {
            assert(!rest.contains((source, end))) by {
                if rest.contains((source, end)) {
                    let i = choose|i: int| 0 <= i < rest.len() && rest[i] == (source, end);
                    assert(edges[i] == edges[edges.len() - 1]);
                }
            }
            assert(!targets(rest, node).contains(end));
        }
        assert forall|target: usize|
            targets(edges, node).contains(target) <==> edges.contains((node, target)) by {
            lemma_contains_drop_last(edges, (node, target));
            assert(targets(rest, node).contains(target) <==> rest.contains((node, target)));
            if source == node {
                let all = targets(rest, node).push(end);
                lemma_contains_drop_last(all, target);
                assert(all.drop_last() =~= targets(rest, node));
            }
        }
    }
}

/// The sources of a node are those that an edge leads from to it.
pub proof fn lemma_sources(edges: Seq<Edge>, node: usize)
    ensures
        forall|source: usize|
            #![trigger sources(edges, node).contains(source)]
            #![trigger edges.contains((source, node))]
            sources(edges, node).contains(source) <==> edges.contains((source, node)),
    decreases edges.len(),
{
    if edges.len() > 0 {
        let rest = edges.drop_last();
        let (from, to) = edges.last();
        lemma_sources(rest, node);
        assert forall|source: usize|
            sources(edges, node).contains(source) <==> edges.contains((source, node)) by {
            lemma_contains_drop_last(edges, (source, node));
            assert(sources(rest, node).contains(source) <==> rest.contains((source, node)));
            if to == node {
                let all = sources(rest, node).push(from);
                lemma_contains_drop_last(all, source);
                assert(all.drop_last() =~= sources(rest, node));
            }
        }
    }
}

proof fn lemma_ready_among(edges: Seq<Edge>, done: Seq<usize>, candidates: Seq<usize>)
    ensures
        candidates.no_duplicates() ==> ready_among(edges, done, candidates).no_duplicates(),
        forall|node: usize|
            #![trigger ready_among(edges, done, candidates).contains(node)]
            ready_among(edges, done, candidates).contains(node) <==> candidates.contains(node)
                && is_ready(edges, done, node),
    decreases candidates.len(),
{
    if candidates.len() > 0 {
        let rest = candidates.drop_last();
        let last = candidates.last();
        let before = ready_among(edges, done, rest);
        let all = ready_among(edges, done, candidates);
        lemma_ready_among(edges, done, rest);
        assert forall|node: usize|
            all.contains(node) <==> candidates.contains(node) && is_ready(edges, done, node) by {
            lemma_contains_drop_last(candidates, node);
            assert(before.contains(node) <==> rest.contains(node) && is_ready(edges, done, node));
            if is_ready(edges, done, last) {
                lemma_contains_drop_last(all, node);
                assert(all.drop_last() =~= before);
            }
        }
        if candidates.no_duplicates() {
            assert(rest.no_duplicates());
            assert(!before.contains(last)) by {
                if rest.contains(last) {
                    let i = choose|i: int| 0 <= i < rest.len() && rest[i] == last;
                    assert(candidates[i] == candidates[candidates.len() - 1]);
                }
            }
        }
    }
}

/// What holds of the queue after `steps` nodes have run.
spec fn queue_inv(nodes: nat, edges: Seq<Edge>, steps: nat, queued: Seq<usize>) -> bool {
    &&& queued.no_duplicates()
    &&& forall|i: int| 0 <= i < queued.len() ==> #[trigger] queued[i] < nodes
    &&& forall|i: int, source: usize|
        0 <= i < queued.len() && #[trigger] edges.contains((source, queued[i])) ==> exists|p: int|
            0 <= p < i && p < steps && #[trigger] queued[p] == source
    &&& forall|node: usize|
        node < nodes && #[trigger] is_ready(edges, ran_of(queued, steps), node) ==> queued.contains(
            node,
        )
}

/// The part of the queue that has run after `steps` steps.
spec fn ran_of(queued: Seq<usize>, steps: nat) -> Seq<usize> {
    if steps <= queued.len() {
        queued.take(steps as int)
    } else {
        queued
    }
}

proof fn lemma_queue_inv(nodes: nat, edges: Seq<Edge>, steps: nat)
    requires
        nodes <= usize::MAX,
        edges_valid(nodes, edges),
    ensures
        queue_inv(nodes, edges, steps, queued_after(nodes, edges, steps)),
    decreases steps,
{
    let after = queued_after(nodes, edges, steps);
    if steps == 0 {
        let names = all_nodes(nodes);
        assert(names.no_duplicates());
        lemma_ready_among(edges, Seq::empty(), names);
        assert forall|i: int| 0 <= i < after.len() implies #[trigger] after[i] < nodes by {
            assert(after.contains(after[i]));
            assert(names.contains(after[i]));
        }
        assert forall|i: int, source: usize|
            0 <= i < after.len() && #[trigger] edges.contains((source, after[i])) implies exists|
            p: int,
        |
            0 <= p < i && p < steps && #[trigger] after[p] == source by {
            assert(after.contains(after[i]));
            assert(is_ready(edges, Seq::empty(), after[i]));
            assert(Seq::<usize>::empty().contains(source));
        }
        assert forall|node: usize|
            node < nodes && #[trigger] is_ready(
                edges,
                ran_of(after, steps),
                node,
            ) implies after.contains(node) by {
            assert(ran_of(after, steps) =~= Seq::empty());
            assert(names[node as int] == node);
        }
    } else {
        let k = (steps - 1) as nat;
        let before = queued_after(nodes, edges, k);
        lemma_queue_inv(nodes, edges, k);
        if steps <= before.len() {
            lemma_queue_step(nodes, edges, k, before);
        } else {
            assert(ran_of(before, steps) =~= ran_of(before, k));
            assert forall|i: int, source: usize|
                0 <= i < after.len() && #[trigger] edges.contains(
                    (source, after[i]),
                ) implies exists|p: int| 0 <= p < i && p < steps && #[trigger] after[p] == source by {
                let p = choose|p: int| 0 <= p < i && p < k && #[trigger] before[p] == source;
                assert(after[p] == source);
            }
        }
    }
}

/// One node runs: the one at position `k` of the queue.
proof fn lemma_queue_step(nodes: nat, edges: Seq<Edge>, k: nat, before: Seq<usize>)
    requires
        edges_valid(nodes, edges),
        k < before.len(),
        queue_inv(nodes, edges, k, before),
    ensures
        queue_inv(
            nodes,
            edges,
            k + 1,
            before + ready_among(edges, before.take(k as int + 1), targets(edges, before[k as int])),
        ),
{
    let ran = before[k as int];
    let done = before.take(k as int + 1);
    let released = ready_among(edges, done, targets(edges, ran));
    let after = before + released;
    lemma_targets(edges, ran);
    lemma_ready_among(edges, done, targets(edges, ran));
    assert(after.take(k as int + 1) =~= done);
    assert(ran_of(after, k + 1) =~= done);
    assert forall|i: int| 0 <= i < released.len() implies #[trigger] edges.contains(
        (ran, released[i]),
    ) && is_ready(edges, done, released[i]) && !before.contains(released[i]) by {
        let node = released[i];
        assert(released.contains(node));
        assert(targets(edges, ran).contains(node));
        assert(edges.contains((ran, node)));
        if before.contains(node) {
            let at = choose|at: int| 0 <= at < before.len() && before[at] == node;
            assert(edges.contains((ran, before[at])));
            let p = choose|p: int| 0 <= p < at && p < k && #[trigger] before[p] == ran;
            assert(before[p] == before[k as int]);
        }
    }
    assert(after.no_duplicates()) by {
        assert forall|i: int, j: int|
            0 <= i < after.len() && 0 <= j < after.len() && i != j implies after[i] != after[j] by {
            let m = before.len() as int;
            if i < m && j >= m {
                assert(edges.contains((ran, released[j - m])));
                assert(before.contains(before[i]));
            } else if i >= m && j < m {
                assert(edges.contains((ran, released[i - m])));
                assert(before.contains(before[j]));
            }
        }
    }
    assert forall|i: int| 0 <= i < after.len() implies #[trigger] after[i] < nodes by {
        let m = before.len() as int;
        if i >= m {
            let edge = (ran, released[i - m]);
            assert(edges.contains(edge));
            let e = choose|e: int| 0 <= e < edges.len() && edges[e] == edge;
            assert(edges[e].1 < nodes);
        } else {
            assert(after[i] == before[i]);
        }
    }
    assert forall|i: int, source: usize|
        0 <= i < after.len() && #[trigger] edges.contains((source, after[i])) implies exists|p: int|
        0 <= p < i && p < k + 1 && #[trigger] after[p] == source by {
        let m = before.len() as int;
        if i < m {
            assert(edges.contains((source, before[i])));
            let p = choose|p: int| 0 <= p < i && p < k && #[trigger] before[p] == source;
            assert(after[p] == source);
        } else {
            assert(edges.contains((ran, released[i - m])));
            assert(done.contains(source));
            let p = choose|p: int| 0 <= p < done.len() && done[p] == source;
            assert(after[p] == source);
        }
    }
    assert forall|node: usize|
        node < nodes && #[trigger] is_ready(
            edges,
            ran_of(after, k + 1),
            node,
        ) implies after.contains(node) by {
        if is_ready(edges, ran_of(before, k), node) {
            let i = choose|i: int| 0 <= i < before.len() && before[i] == node;
            assert(after[i] == node);
        } else {
            let source = choose|source: usize| #[trigger]
                edges.contains((source, node)) && !ran_of(before, k).contains(source);
            assert(done.contains(source));
            let p = choose|p: int| 0 <= p < done.len() && done[p] == source;
            if p < k {
                assert(ran_of(before, k)[p] == source);
            }
            assert(source == ran);
            assert(targets(edges, ran).contains(node));
            assert(released.contains(node));
            let i = choose|i: int| 0 <= i < released.len() && released[i] == node;
            assert(after[before.len() + i] == node);
        }
    }
}

/// Once everything queued has run, nothing is ever queued again.
proof fn lemma_queue_settles(nodes: nat, edges: Seq<Edge>, steps: nat, later: nat)
    requires
        queued_after(nodes, edges, steps).len() <= steps <= later,
    ensures
        queued_after(nodes, edges, later) == queued_after(nodes, edges, steps),
    decreases later,
{
    if steps < later {
        lemma_queue_settles(nodes, edges, steps, (later - 1) as nat);
    }
}

/// Distinct names below `nodes` are at most `nodes` many, and all of them when they
/// are `nodes` many.
pub proof fn lemma_distinct_names(nodes: nat, names: Seq<usize>)
    requires
        nodes <= usize::MAX,
        names.no_duplicates(),
        forall|i: int| 0 <= i < names.len() ==> #[trigger] names[i] < nodes,
    ensures
        names.len() <= nodes,
        names.len() == nodes ==> forall|node: usize| node < nodes ==> #[trigger] names.contains(
            node,
        ),
    decreases nodes,
{
    if nodes == 0 {
        if names.len() > 0 {
            assert(names[0] < nodes);
        }
    } else {
        let top = (nodes - 1) as usize;
        if names.contains(top) {
            let at = choose|at: int| 0 <= at < names.len() && names[at] == top;
            let rest = names.remove(at);
            assert forall|i: int| 0 <= i < rest.len() implies #[trigger] rest[i] < nodes - 1 by {
                let from = if i < at { i } else { i + 1 };
                assert(rest[i] == names[from]);
                assert(names[from] != names[at]);
            }
            assert(rest.no_duplicates()) by {
                assert forall|i: int, j: int|
                    0 <= i < rest.len() && 0 <= j < rest.len() && i != j implies rest[i]
                    != rest[j] by {
                    let from = if i < at { i } else { i + 1 };
                    let to = if j < at { j } else { j + 1 };
                    assert(rest[i] == names[from] && rest[j] == names[to]);
                }
            }
            lemma_distinct_names((nodes - 1) as nat, rest);
            if names.len() == nodes {
                assert forall|node: usize| node < nodes implies #[trigger] names.contains(node) by {
                    if node != top {
                        assert(rest.contains(node));
                        let i = choose|i: int| 0 <= i < rest.len() && rest[i] == node;
                        let from = if i < at { i } else { i + 1 };
                        assert(names[from] == node);
                    }
                }
            }
        } else {
            assert forall|i: int| 0 <= i < names.len() implies #[trigger] names[i] < nodes - 1 by {
                assert(names[i] < nodes);
                if names[i] == top {
                    assert(names.contains(top));
                }
            }
            lemma_distinct_names((nodes - 1) as nat, names);
        }
    }
}

/// Where some node has not run and every node that has not run waits for another such,
/// there is a path of any length among them that ends in the first.
proof fn lemma_waiting_path(
    nodes: nat,
    edges: Seq<Edge>,
    order: Seq<usize>,
    stuck: usize,
    length: nat,
) -> (path: Seq<usize>)
    requires
        edges_valid(nodes, edges),
        stuck < nodes,
        !order.contains(stuck),
        length >= 1,
        forall|node: usize|
            node < nodes && #[trigger] is_ready(edges, order, node) ==> order.contains(node),
    ensures
        path.len() == length,
        is_path(edges, path),
        path.last() == stuck,
        forall|i: int|
            0 <= i < path.len() ==> #[trigger] path[i] < nodes && !order.contains(path[i]),
    decreases length,
{
    if length == 1 {
        seq![stuck]
    } else {
        let tail = lemma_waiting_path(nodes, edges, order, stuck, (length - 1) as nat);
        let first = tail[0];
        assert(first < nodes && !order.contains(first));
        assert(!is_ready(edges, order, first));
        let source = choose|source: usize| #[trigger]
            edges.contains((source, first)) && !order.contains(source);
        let e = choose|e: int| 0 <= e < edges.len() && edges[e] == (source, first);
        assert(edges[e].0 < nodes);
        let path = seq![source] + tail;
        assert forall|i: int, j: int|
            #![trigger path[i], path[j]]
            0 <= i && j == i + 1 && j < path.len() implies edges.contains((path[i], path[j])) by {
            if i > 0 {
                assert(path[i] == tail[i - 1] && path[j] == tail[j - 1]);
            }
        }
        assert forall|i: int| 0 <= i < path.len() implies #[trigger] path[i] < nodes
            && !order.contains(path[i]) by {
            if i > 0 {
                assert(path[i] == tail[i - 1]);
            }
        }
        assert(path.last() == tail.last());
        path
    }
}

/// A path longer than there are nodes holds a cycle.
proof fn lemma_long_path_has_cycle(nodes: nat, edges: Seq<Edge>, path: Seq<usize>)
    requires
        nodes <= usize::MAX,
        is_path(edges, path),
        path.len() > nodes,
        forall|i: int| 0 <= i < path.len() ==> #[trigger] path[i] < nodes,
    ensures
        has_cycle(edges),
{
    if path.no_duplicates() {
        lemma_distinct_names(nodes, path);
    }
    let (i, j) = choose|i: int, j: int|
        0 <= i < path.len() && 0 <= j < path.len() && i != j && #[trigger] path[i]
            == #[trigger] path[j];
    let (from, to) = if i < j { (i, j) } else { (j, i) };
    let round = path.subrange(from, to + 1);
    assert forall|a: int, b: int|
        #![trigger round[a], round[b]]
        0 <= a && b == a + 1 && b < round.len() implies edges.contains((round[a], round[b])) by {
        assert(round[a] == path[from + a] && round[b] == path[from + b]);
    }
    assert(is_path(edges, round));
    assert(round[0] == path[from] && round.last() == path[to]);
}

/// Along a path, positions in a topological order go up.
proof fn lemma_path_ascends(
    nodes: nat,
    edges: Seq<Edge>,
    order: Seq<usize>,
    path: Seq<usize>,
    i: int,
    j: int,
)
    requires
        nodes <= usize::MAX,
        edges_valid(nodes, edges),
        is_topological(nodes, edges, order),
        is_path(edges, path),
        0 <= i < j < path.len(),
    ensures
        path[i] < nodes,
        path[j] < nodes,
        order.index_of(path[i]) < order.index_of(path[j]),
    decreases j - i,
{
    let k = j - 1;
    assert(edges.contains((path[k], path[j])));
    let e = choose|e: int| 0 <= e < edges.len() && edges[e] == (path[k], path[j]);
    assert(edges[e].0 < nodes);
    lemma_distinct_names(nodes, order);
    assert(order.contains(path[k]) && order.contains(path[j]));
    let from = order.index_of(path[k]);
    let to = order.index_of(path[j]);
    assert(edges.contains((order[from], order[to])));
    if i < k {
        lemma_path_ascends(nodes, edges, order, path, i, k);
    }
}

/// A graph that has a topological order has no cycle.
pub proof fn law_ordered_graph_has_no_cycle(nodes: nat, edges: Seq<Edge>, order: Seq<usize>)
    requires
        nodes <= usize::MAX,
        edges_valid(nodes, edges),
        is_topological(nodes, edges, order),
    ensures
        !has_cycle(edges),
{
    if has_cycle(edges) {
        let path = choose|path: Seq<usize>|
            #![trigger is_path(edges, path)]
            path.len() >= 2 && is_path(edges, path) && path[0] == path.last();
        lemma_path_ascends(nodes, edges, order, path, 0, path.len() - 1);
    }
}

/// Every node runs, each after all that feed it, exactly when there is no cycle; a
/// graph with a cycle leaves some nodes out.
pub proof fn law_run_order(nodes: nat, edges: Seq<Edge>)
    requires
        nodes <= usize::MAX,
        edges_valid(nodes, edges),
    ensures
        run_order(nodes, edges).len() <= nodes,
        has_cycle(edges) <==> run_order(nodes, edges).len() < nodes,
        !has_cycle(edges) ==> is_topological(nodes, edges, run_order(nodes, edges)),
{
    let order = run_order(nodes, edges);
    lemma_queue_inv(nodes, edges, nodes);
    lemma_distinct_names(nodes, order);
    if order.len() == nodes {
        assert forall|i: int, j: int|
            0 <= i < order.len() && 0 <= j < order.len() && #[trigger] edges.contains(
                (order[i], order[j]),
            ) implies i < j by {
            let p = choose|p: int| 0 <= p < j && p < nodes && #[trigger] order[p] == order[i];
            assert(p == i);
        }
        assert(is_topological(nodes, edges, order));
        law_ordered_graph_has_no_cycle(nodes, edges, order);
    } else {
        assert(ran_of(order, nodes) == order);
        assert(exists|node: usize| node < nodes && !order.contains(node)) by {
            if forall|node: usize| node < nodes ==> order.contains(node) {
                assert(all_nodes(nodes).no_duplicates());
                lemma_all_present(nodes, order);
            }
        }
        let stuck = choose|node: usize| node < nodes && !order.contains(node);
        let path = lemma_waiting_path(nodes, edges, order, stuck, nodes + 1);
        lemma_long_path_has_cycle(nodes, edges, path);
    }
}

/// Fewer than `nodes` names leave one out.
proof fn lemma_all_present(nodes: nat, names: Seq<usize>)
    requires
        nodes <= usize::MAX,
        names.no_duplicates(),
        forall|node: usize| node < nodes ==> #[trigger] names.contains(node),
    ensures
        names.len() >= nodes,
    decreases nodes,
{
    if nodes > 0 {
        let top = (nodes - 1) as usize;
        assert(names.contains(top));
        let at = choose|at: int| 0 <= at < names.len() && names[at] == top;
        let rest = names.remove(at);
        assert(rest.no_duplicates()) by {
            assert forall|i: int, j: int|
                0 <= i < rest.len() && 0 <= j < rest.len() && i != j implies rest[i] != rest[j] by {
                let from = if i < at { i } else { i + 1 };
                let to = if j < at { j } else { j + 1 };
                assert(rest[i] == names[from] && rest[j] == names[to]);
            }
        }
        assert forall|node: usize| node < nodes - 1 implies #[trigger] rest.contains(node) by {
            assert(names.contains(node));
            let i = choose|i: int| 0 <= i < names.len() && names[i] == node;
            let to = if i < at { i } else { i - 1 };
            assert(rest[to] == node);
        }
        lemma_all_present((nodes - 1) as nat, rest);
    }
}

/// `node` feeds some other.
pub open spec fn feeds_some(edges: Seq<Edge>, node: usize) -> bool {
    exists|to: usize| #[trigger] edges.contains((node, to))
}

/// `sink` is the one node that feeds no other.
pub open spec fn is_only_sink(nodes: nat, edges: Seq<Edge>, sink: usize) -> bool {
    &&& sink < nodes
    &&& forall|node: usize| node < nodes ==> (#[trigger] feeds_some(edges, node) <==> node != sink)
}

/// The node that runs last feeds no other node. In a graph where only one node feeds no
/// other, it is that node which runs last.
pub proof fn law_last_node_feeds_none(nodes: nat, edges: Seq<Edge>, order: Seq<usize>)
    requires
        0 < nodes <= usize::MAX,
        edges_valid(nodes, edges),
        is_topological(nodes, edges, order),
    ensures
        !feeds_some(edges, order.last()),
        forall|only: usize| #[trigger] is_only_sink(nodes, edges, only) ==> only == order.last(),
{
    let last = order.last();
    assert(last == order[order.len() - 1]);
    assert forall|to: usize| !edges.contains((last, to)) by {
        if edges.contains((last, to)) {
            let k = choose|k: int| 0 <= k < edges.len() && edges[k] == (last, to);
            assert(edges[k].1 < nodes);
            lemma_distinct_names(nodes, order);
            assert(order.contains(to));
            let j = choose|j: int| 0 <= j < order.len() && order[j] == to;
            assert(edges.contains((order[order.len() - 1], order[j])));
        }
    }
}

/// The nodes among the first `nodes` that feed no other, in ascending order.
pub open spec fn sinks(nodes: nat, edges: Seq<Edge>) -> Seq<usize>
    decreases nodes,
{
    if nodes == 0 {
        Seq::empty()
    } else {
        let last = (nodes - 1) as usize;
        let rest = sinks((nodes - 1) as nat, edges);
        if feeds_some(edges, last) {
            rest
        } else {
            rest.push(last)
        }
    }
}

/// The sinks are just the nodes that feed no other.
pub proof fn lemma_sinks(nodes: nat, edges: Seq<Edge>)
    requires
        nodes <= usize::MAX,
    ensures
        sinks(nodes, edges).no_duplicates(),
        sinks(nodes, edges).len() <= nodes,
        forall|i: int|
            0 <= i < sinks(nodes, edges).len() ==> #[trigger] sinks(nodes, edges)[i] < nodes,
        forall|node: usize| #[trigger]
            sinks(nodes, edges).contains(node) <==> node < nodes && !feeds_some(edges, node),
    decreases nodes,
{
    if nodes > 0 {
        let fewer = (nodes - 1) as nat;
        let last = (nodes - 1) as usize;
        let rest = sinks(fewer, edges);
        let all = sinks(nodes, edges);
        lemma_sinks(fewer, edges);
        assert forall|node: usize| #[trigger] all.contains(node) <==> node < nodes && !feeds_some(
            edges,
            node,
        ) by {
            assert(rest.contains(node) <==> node < fewer && !feeds_some(edges, node));
            if !feeds_some(edges, last) {
                assert(all.drop_last() =~= rest);
                lemma_contains_drop_last(all, node);
            }
        }
        if !feeds_some(edges, last) {
            assert(!rest.contains(last));
        }
    }
}

/// In a graph where only one node feeds no other, it is the only sink.
pub proof fn law_only_sink(nodes: nat, edges: Seq<Edge>, sink: usize)
    requires
        nodes <= usize::MAX,
        is_only_sink(nodes, edges, sink),
    ensures
        sinks(nodes, edges) == seq![sink],
{
    let all = sinks(nodes, edges);
    lemma_sinks(nodes, edges);
    assert(feeds_some(edges, sink) <==> false);
    assert(all.contains(sink));
    assert forall|i: int| 0 <= i < all.len() implies #[trigger] all[i] == sink by {
        assert(all.contains(all[i]));
        assert(feeds_some(edges, all[i]) <==> all[i] != sink);
    }
    if all.len() > 1 {
        assert(all[0] == all[1]);
    }
    assert(all =~= seq![sink]);
}

proof fn lemma_no_targets(edges: Seq<Edge>, node: usize)
    ensures
        targets(edges, node).len() == 0 <==> !feeds_some(edges, node),
    decreases edges.len(),
{
    if edges.len() > 0 {
        let rest = edges.drop_last();
        let (source, end) = edges.last();
        lemma_no_targets(rest, node);
        if source == node {
            assert(edges[edges.len() - 1] == (node, end));
            assert(edges.contains((node, end)));
        } else if feeds_some(rest, node) {
            let to = choose|to: usize| #[trigger] rest.contains((node, to));
            lemma_contains_drop_last(edges, (node, to));
            assert(edges.contains((node, to)));
        } else if feeds_some(edges, node) {
            let to = choose|to: usize| #[trigger] edges.contains((node, to));
            lemma_contains_drop_last(edges, (node, to));
            assert(rest.contains((node, to)));
        }
    } else if feeds_some(edges, node) {
        let to = choose|to: usize| #[trigger] edges.contains((node, to));
    }
}

/// The targets of a node are the far ends of all edges that lead from it, in the order of the
/// edges: `at` says where they stand.
pub proof fn law_targets_follow_edges(edges: Seq<Edge>, node: usize) -> (at: Seq<int>)
    ensures
        at.len() == targets(edges, node).len(),
        forall|i: int, j: int| 0 <= i < j < at.len() ==> at[i] < at[j],
        forall|i: int|
            0 <= i < at.len() ==> 0 <= #[trigger] at[i] < edges.len() && edges[at[i]] == (node, targets(edges, node)[i]),
        forall|k: int|
            0 <= k < edges.len() && (#[trigger] edges[k]).0 == node ==> at.contains(k),
    decreases edges.len(),
{
    if edges.len() == 0 {
        Seq::empty()
    } else {
        let rest = edges.drop_last();
        let some = law_targets_follow_edges(rest, node);
        let last = edges.len() - 1;
        let at = if edges.last().0 == node {
            some.push(last)
        } else {
            some
        };
        assert forall|i: int| 0 <= i < at.len() implies 0 <= #[trigger] at[i] < edges.len()
            && edges[at[i]] == (node, targets(edges, node)[i]) by {
            if i < some.len() {
                assert(rest[some[i]] == edges[some[i]]);
            }
        }
        assert forall|k: int| 0 <= k < edges.len() && (#[trigger] edges[k]).0 == node implies at.contains(
            k,
        ) by {
            if k < last {
                assert(rest[k] == edges[k]);
                let i = choose|i: int| 0 <= i < some.len() && some[i] == k;
                assert(at[i] == k);
            } else {
                assert(at[at.len() - 1] == k);
            }
        }
        at
    }
}

/// The ready ones among `candidates` are those whose every source is done, in the order of the
/// candidates: `at` says where they stand.
pub proof fn law_ready_ones_keep_their_order(
    edges: Seq<Edge>,
    done: Seq<usize>,
    candidates: Seq<usize>,
) -> (at: Seq<int>)
    ensures
        at.len() == ready_among(edges, done, candidates).len(),
        forall|i: int, j: int| 0 <= i < j < at.len() ==> at[i] < at[j],
        forall|i: int|
            0 <= i < at.len() ==> 0 <= #[trigger] at[i] < candidates.len() && candidates[at[i]]
                == ready_among(edges, done, candidates)[i],
        forall|k: int|
            0 <= k < candidates.len() ==> (#[trigger] at.contains(k) <==> forall|source: usize|
                #[trigger] edges.contains((source, candidates[k])) ==> done.contains(source)),
    decreases candidates.len(),
{
    if candidates.len() == 0 {
        Seq::empty()
    } else {
        let rest = candidates.drop_last();
        let some = law_ready_ones_keep_their_order(edges, done, rest);
        let last = candidates.len() - 1;
        let chosen = is_ready(edges, done, candidates.last());
        let at = if chosen {
            some.push(last)
        } else {
            some
        };
        assert forall|i: int| 0 <= i < at.len() implies 0 <= #[trigger] at[i] < candidates.len()
            && candidates[at[i]] == ready_among(edges, done, candidates)[i] by {
            if i < some.len() {
                assert(rest[some[i]] == candidates[some[i]]);
            }
        }
        assert forall|k: int| 0 <= k < candidates.len() implies (#[trigger] at.contains(k)
            <==> forall|source: usize| #[trigger]
            edges.contains((source, candidates[k])) ==> done.contains(source)) by {
            if k < last {
                assert(rest[k] == candidates[k]);
                assert(some.contains(k) <==> is_ready(edges, done, candidates[k]));
                assert(at.contains(k) <==> some.contains(k)) by {
                    if some.contains(k) {
                        let i = choose|i: int| 0 <= i < some.len() && some[i] == k;
                        assert(at[i] == k);
                    }
                    if at.contains(k) {
                        let i = choose|i: int| 0 <= i < at.len() && at[i] == k;
                        assert(some[i] == k);
                    }
                }
            } else if chosen {
                assert(at[at.len() - 1] == k);
            } else if at.contains(k) {
                let i = choose|i: int| 0 <= i < at.len() && at[i] == k;
                assert(some[i] == k);
            }
        }
        at
    }
}

/// The queue after `steps` nodes have run is in the order of arrival.
proof fn lemma_queued_in_turn(nodes: nat, edges: Seq<Edge>, steps: nat, i: int, j: int) -> (last:
    int)
    requires
        nodes <= usize::MAX,
        edges_valid(nodes, edges),
        0 <= i < j < queued_after(nodes, edges, steps).len(),
    ensures
        ({
            let queued = queued_after(nodes, edges, steps);
            &&& (forall|source: usize| !#[trigger] edges.contains((source, queued[j]))) ==> queued[i]
                < queued[j] && forall|source: usize|
                !#[trigger] edges.contains((source, queued[i]))
            &&& (exists|source: usize| #[trigger] edges.contains((source, queued[j]))) ==> {
                &&& 0 <= last < j
                &&& edges.contains((queued[last], queued[j]))
                &&& forall|r: int|
                    0 <= r < queued.len() && #[trigger] edges.contains((queued[r], queued[i])) ==> r
                        <= last
                &&& forall|r: int|
                    0 <= r < queued.len() && #[trigger] edges.contains((queued[r], queued[j])) ==> r
                        <= last
                &&& edges.contains((queued[last], queued[i])) ==> exists|a: int, b: int|
                    0 <= a < b < edges.len() && #[trigger] edges[a] == (queued[last], queued[i])
                        && #[trigger] edges[b] == (queued[last], queued[j])
            }
        }),
    decreases steps,
{
    let queued = queued_after(nodes, edges, steps);
    lemma_queue_inv(nodes, edges, steps);
    if steps == 0 {
        let names = all_nodes(nodes);
        let at = law_ready_ones_keep_their_order(edges, Seq::empty(), names);
        lemma_ready_among(edges, Seq::empty(), names);
        assert(queued.contains(queued[i]) && queued.contains(queued[j]));
        assert(names[at[i]] == queued[i] && names[at[j]] == queued[j]);
        assert forall|source: usize| !#[trigger] edges.contains((source, queued[i])) by {
            assert(!Seq::<usize>::empty().contains(source));
        }
        assert forall|source: usize| !#[trigger] edges.contains((source, queued[j])) by {
            assert(!Seq::<usize>::empty().contains(source));
        }
        0
    } else {
        let k = (steps - 1) as nat;
        let before = queued_after(nodes, edges, k);
        lemma_queue_inv(nodes, edges, k);
        if j < before.len() {
            let last = lemma_queued_in_turn(nodes, edges, k, i, j);
            assert(queued[i] == before[i] && queued[j] == before[j]);
            if exists|source: usize| #[trigger] edges.contains((source, queued[j])) {
                assert(queued[last] == before[last]);
                assert forall|r: int|
                    0 <= r < queued.len() && #[trigger] edges.contains(
                        (queued[r], queued[i]),
                    ) implies r <= last by {
                    assert(edges.contains((queued[r], before[i])));
                    let p = choose|p: int| 0 <= p < i && p < k && #[trigger] before[p] == queued[r];
                    assert(queued[p] == queued[r]);
                    assert(edges.contains((before[p], before[i])));
                }
                assert forall|r: int|
                    0 <= r < queued.len() && #[trigger] edges.contains(
                        (queued[r], queued[j]),
                    ) implies r <= last by {
                    assert(edges.contains((queued[r], before[j])));
                    let p = choose|p: int| 0 <= p < j && p < k && #[trigger] before[p] == queued[r];
                    assert(queued[p] == queued[r]);
                    assert(edges.contains((before[p], before[j])));
                }
            }
            last
        } else {
            let ran = queued[k as int];
            let ends = targets(edges, ran);
            let added = ready_among(edges, before.take(steps as int), ends);
            assert(queued =~= before + added);
            lemma_targets(edges, ran);
            lemma_ready_among(edges, before.take(steps as int), ends);
            assert(added[j - before.len()] == queued[j]);
            assert(added.contains(queued[j]));
            assert(ends.contains(queued[j]));
            assert(edges.contains((ran, queued[j])));
            assert forall|r: int|
                0 <= r < queued.len() && #[trigger] edges.contains(
                    (queued[r], queued[i]),
                ) implies r <= k by {
                let p = choose|p: int|
                    0 <= p < i && p < steps && #[trigger] queued[p] == queued[r];
                assert(p == r);
            }
            assert forall|r: int|
                0 <= r < queued.len() && #[trigger] edges.contains(
                    (queued[r], queued[j]),
                ) implies r <= k by {
                let p = choose|p: int|
                    0 <= p < j && p < steps && #[trigger] queued[p] == queued[r];
                assert(p == r);
            }
            if edges.contains((ran, queued[i])) {
                if i < before.len() {
                    assert(edges.contains((ran, before[i])));
                    let p = choose|p: int| 0 <= p < i && p < k && #[trigger] before[p] == ran;
                    assert(queued[p] == ran);
                }
                let chosen = law_ready_ones_keep_their_order(
                    edges,
                    before.take(steps as int),
                    ends,
                );
                let at = law_targets_follow_edges(edges, ran);
                let a = chosen[i - before.len()];
                let b = chosen[j - before.len()];
                assert(ends[a] == queued[i] && ends[b] == queued[j]);
                assert(edges[at[a]] == (ran, queued[i]));
                assert(edges[at[b]] == (ran, queued[j]));
            }
            k as int
        }
    }
}

/// First come, first served. Nodes that nothing feeds run before all others, in the order of
/// their names. A node that is fed has to wait for the last of its sources, which runs at `last`;
/// whatever runs before it waited for no later one. Of two nodes that waited for the same source,
/// the one that was connected to it first runs first.
pub proof fn law_first_come_first_served(nodes: nat, edges: Seq<Edge>, i: int, j: int) -> (last: int)
    requires
        nodes <= usize::MAX,
        edges_valid(nodes, edges),
        0 <= i < j < run_order(nodes, edges).len(),
    ensures
        ({
            let order = run_order(nodes, edges);
            &&& (forall|source: usize| !#[trigger] edges.contains((source, order[j]))) ==> order[i]
                < order[j] && forall|source: usize|
                !#[trigger] edges.contains((source, order[i]))
            &&& (exists|source: usize| #[trigger] edges.contains((source, order[j]))) ==> {
                &&& 0 <= last < j
                &&& edges.contains((order[last], order[j]))
                &&& forall|r: int|
                    0 <= r < order.len() && #[trigger] edges.contains((order[r], order[i])) ==> r
                        <= last
                &&& forall|r: int|
                    0 <= r < order.len() && #[trigger] edges.contains((order[r], order[j])) ==> r
                        <= last
                &&& edges.contains((order[last], order[i])) ==> exists|a: int, b: int|
                    0 <= a < b < edges.len() && #[trigger] edges[a] == (order[last], order[i])
                        && #[trigger] edges[b] == (order[last], order[j])
            }
        }),
{
    lemma_queued_in_turn(nodes, edges, nodes, i, j)
}

/// The sources of a node are the near ends of all edges that lead to it, in the order of the
/// edges: `at` says where they stand.
pub proof fn law_sources_follow_edges(edges: Seq<Edge>, node: usize) -> (at: Seq<int>)
    ensures
        at.len() == sources(edges, node).len(),
        forall|i: int, j: int| 0 <= i < j < at.len() ==> at[i] < at[j],
        forall|i: int|
            0 <= i < at.len() ==> 0 <= #[trigger] at[i] < edges.len() && edges[at[i]] == (sources(edges, node)[i], node),
        forall|k: int|
            0 <= k < edges.len() && (#[trigger] edges[k]).1 == node ==> at.contains(k),
    decreases edges.len(),
{
    if edges.len() == 0 {
        Seq::empty()
    } else {
        let rest = edges.drop_last();
        let some = law_sources_follow_edges(rest, node);
        let last = edges.len() - 1;
        let at = if edges.last().1 == node {
            some.push(last)
        } else {
            some
        };
        assert forall|i: int| 0 <= i < at.len() implies 0 <= #[trigger] at[i] < edges.len()
            && edges[at[i]] == (sources(edges, node)[i], node) by {
            if i < some.len() {
                assert(rest[some[i]] == edges[some[i]]);
            }
        }
        assert forall|k: int| 0 <= k < edges.len() && (#[trigger] edges[k]).1 == node implies at.contains(
            k,
        ) by {
            if k < last {
                assert(rest[k] == edges[k]);
                let i = choose|i: int| 0 <= i < some.len() && some[i] == k;
                assert(at[i] == k);
            } else {
                assert(at[at.len() - 1] == k);
            }
        }
        at
    }
}

/// The sinks are all nodes from which no edge leads anywhere, each once and in ascending
/// order.
pub proof fn law_sinks_feed_none(nodes: nat, edges: Seq<Edge>)
    requires
        nodes <= usize::MAX,
    ensures
        forall|i: int, j: int|
            0 <= i < j < sinks(nodes, edges).len() ==> sinks(nodes, edges)[i] < sinks(nodes, edges)[j],
        forall|i: int, k: int|
            0 <= i < sinks(nodes, edges).len() && 0 <= k < edges.len() ==> (
            #[trigger] edges[k]).0 != #[trigger] sinks(nodes, edges)[i],
        forall|i: int|
            0 <= i < sinks(nodes, edges).len() ==> #[trigger] sinks(nodes, edges)[i] < nodes,
        forall|node: usize|
            node < nodes && (forall|k: int| 0 <= k < edges.len() ==> (#[trigger] edges[k]).0 != node)
                ==> #[trigger] sinks(nodes, edges).contains(node),
    decreases nodes,
{
    lemma_sinks(nodes, edges);
    let all = sinks(nodes, edges);
    assert forall|i: int, k: int| 0 <= i < all.len() && 0 <= k < edges.len() implies (
    #[trigger] edges[k]).0 != #[trigger] all[i] by {
        assert(all.contains(all[i]));
        if edges[k].0 == all[i] {
            assert(edges.contains((all[i], edges[k].1)));
        }
    }
    assert forall|node: usize|
        node < nodes && (forall|k: int| 0 <= k < edges.len() ==> (#[trigger] edges[k]).0 != node)
        implies #[trigger] all.contains(node) by {
        if feeds_some(edges, node) {
            let to = choose|to: usize| #[trigger] edges.contains((node, to));
            let k = choose|k: int| 0 <= k < edges.len() && edges[k] == (node, to);
            assert(edges[k].0 == node);
        }
    }
    if nodes > 0 {
        let fewer = (nodes - 1) as nat;
        let rest = sinks(fewer, edges);
        law_sinks_feed_none(fewer, edges);
        assert forall|i: int, j: int| 0 <= i < j < all.len() implies all[i] < all[j] by {
            assert(all[i] == rest[i]);
            assert(rest[i] < fewer);
            if j < rest.len() {
                assert(all[j] == rest[j]);
            }
        }
    }
}

/// There is a cycle if and only if the nodes cannot be put into any order in which the source
/// of every edge stands before its target.
pub proof fn law_cycle_means_no_order(nodes: nat, edges: Seq<Edge>)
    requires
        nodes <= usize::MAX,
        edges_valid(nodes, edges),
    ensures
        has_cycle(edges) <==> forall|order: Seq<usize>|
            #![trigger order.no_duplicates()]
            order.len() == nodes && order.no_duplicates() && (forall|i: int|
                0 <= i < nodes ==> #[trigger] order[i] < nodes) ==> exists|k: int, i: int, j: int|
                #![trigger edges[k], order[i], order[j]]
                0 <= k < edges.len() && 0 <= j <= i < nodes && order[i] == edges[k].0 && order[j]
                    == edges[k].1,
{
    if has_cycle(edges) {
        assert forall|order: Seq<usize>|
            #![trigger order.no_duplicates()]
            order.len() == nodes && order.no_duplicates() && (forall|i: int|
                0 <= i < nodes ==> #[trigger] order[i] < nodes) implies exists|k: int, i: int, j: int|
            #![trigger edges[k], order[i], order[j]]
            0 <= k < edges.len() && 0 <= j <= i < nodes && order[i] == edges[k].0 && order[j]
                == edges[k].1 by {
            if is_topological(nodes, edges, order) {
                law_ordered_graph_has_no_cycle(nodes, edges, order);
            } else {
                let (i, j) = choose|i: int, j: int|
                    0 <= i < order.len() && 0 <= j < order.len() && #[trigger] edges.contains(
                        (order[i], order[j]),
                    ) && !(i < j);
                let k = choose|k: int| 0 <= k < edges.len() && edges[k] == (order[i], order[j]);
                assert(edges[k].0 == order[i] && edges[k].1 == order[j]);
            }
        }
    } else {
        let order = run_order(nodes, edges);
        law_run_order(nodes, edges);
        assert(order.no_duplicates());
        assert forall|k: int, i: int, j: int|
            #![trigger edges[k], order[i], order[j]]
            0 <= k < edges.len() && 0 <= j <= i < nodes && order[i] == edges[k].0 && order[j]
                == edges[k].1 implies false by {
            assert(edges.contains((order[i], order[j])));
        }
    }
}

/// Along a cycle one comes back: there is a cycle if an edge leads from some node to a second
/// one from which a chain of edges leads back to the first.
pub proof fn law_way_back_is_cycle(edges: Seq<Edge>, path: Seq<usize>)
    requires
        path.len() >= 2,
        forall|i: int|
            0 <= i < path.len() - 1 ==> exists|k: int|
                0 <= k < edges.len() && edges[k].0 == #[trigger] path[i] && edges[k].1 == path[i + 1],
        path[0] == path[path.len() - 1],
    ensures
        has_cycle(edges),
{
    assert forall|i: int, j: int|
        #![trigger path[i], path[j]]
        0 <= i && j == i + 1 && j < path.len() implies edges.contains((path[i], path[j])) by {
        let k = choose|k: int|
            0 <= k < edges.len() && edges[k].0 == path[i] && edges[k].1 == path[i + 1];
        assert(edges[k] == (path[i], path[j]));
    }
    assert(is_path(edges, path));
}

/// Lists the nodes that feed no other, in ascending order.
pub fn sink_list(node_count: usize, edges: &Vec<Edge>) -> (list: Vec<usize>)
    requires
        edges_valid(node_count as nat, edges@),
    ensures
        list@ == sinks(node_count as nat, edges@),
{
    let targets_of = target_lists(node_count, edges);
    let mut list: Vec<usize> = Vec::with_capacity(node_count);
    for node in 0..node_count
        invariant
            targets_of@.len() == node_count,
            forall|n: int|
                0 <= n < node_count ==> (#[trigger] targets_of@[n])@ == targets(edges@, n as usize),
            list@ == sinks(node as nat, edges@),
    {
        proof {
            lemma_no_targets(edges@, node);
        }
        if targets_of[node].len() == 0 {
            list.push(node);
        }
    }
    list
}

/// Lists for every node the nodes that it feeds.
pub fn target_lists(node_count: usize, edges: &Vec<Edge>) -> (lists: Vec<Vec<usize>>)
    requires
        edges_valid(node_count as nat, edges@),
    ensures
        lists@.len() == node_count,
        forall|node: int|
            0 <= node < node_count ==> (#[trigger] lists@[node])@ == targets(edges@, node as usize),
{
    let mut lists: Vec<Vec<usize>> = Vec::with_capacity(node_count);
    while lists.len() < node_count
        invariant
            lists@.len() <= node_count,
            forall|node: int| 0 <= node < lists@.len() ==> (#[trigger] lists@[node])@.len() == 0,
        decreases node_count - lists@.len(),
    {
        lists.push(Vec::new());
    }
    assert(edges@.take(0) =~= Seq::empty());
    for i in 0..edges.len()
        invariant
            lists@.len() == node_count,
            edges_valid(node_count as nat, edges@),
            forall|node: int|
                0 <= node < node_count ==> (#[trigger] lists@[node])@ == targets(
                    edges@.take(i as int),
                    node as usize,
                ),
    {
        let (source, target) = edges[i];
        assert(edges@[i as int].0 < node_count);
        lists[source].push(target);
        assert(edges@.take(i + 1).drop_last() =~= edges@.take(i as int));
    }
    assert(edges@.take(edges@.len() as int) =~= edges@);
    lists
}

/// Lists for every node the nodes that feed it.
pub fn source_lists(node_count: usize, edges: &Vec<Edge>) -> (lists: Vec<Vec<usize>>)
    requires
        edges_valid(node_count as nat, edges@),
    ensures
        lists@.len() == node_count,
        forall|node: int|
            0 <= node < node_count ==> (#[trigger] lists@[node])@ == sources(edges@, node as usize),
{
    let mut lists: Vec<Vec<usize>> = Vec::with_capacity(node_count);
    while lists.len() < node_count
        invariant
            lists@.len() <= node_count,
            forall|node: int| 0 <= node < lists@.len() ==> (#[trigger] lists@[node])@.len() == 0,
        decreases node_count - lists@.len(),
    {
        lists.push(Vec::new());
    }
    assert(edges@.take(0) =~= Seq::empty());
    for i in 0..edges.len()
        invariant
            lists@.len() == node_count,
            edges_valid(node_count as nat, edges@),
            forall|node: int|
                0 <= node < node_count ==> (#[trigger] lists@[node])@ == sources(
                    edges@.take(i as int),
                    node as usize,
                ),
    {
        let (source, target) = edges[i];
        assert(edges@[i as int].1 < node_count);
        lists[target].push(source);
        assert(edges@.take(i + 1).drop_last() =~= edges@.take(i as int));
    }
    assert(edges@.take(edges@.len() as int) =~= edges@);
    lists
}

/// Counts for every node the edges into it.
fn count_sources(node_count: usize, edges: &Vec<Edge>) -> (counts: Vec<usize>)
    requires
        edges_valid(node_count as nat, edges@),
    ensures
        counts@.len() == node_count,
        forall|node: int|
            0 <= node < node_count ==> #[trigger] counts@[node] == pending(
                edges@,
                Seq::empty(),
                node as usize,
            ),
{
    let mut counts: Vec<usize> = Vec::with_capacity(node_count);
    while counts.len() < node_count
        invariant
            counts@.len() <= node_count,
            forall|node: int| 0 <= node < counts@.len() ==> #[trigger] counts@[node] == 0,
        decreases node_count - counts@.len(),
    {
        counts.push(0);
    }
    assert(edges@.take(0) =~= Seq::empty());
    for i in 0..edges.len()
        invariant
            counts@.len() == node_count,
            edges_valid(node_count as nat, edges@),
            forall|node: int|
                0 <= node < node_count ==> #[trigger] counts@[node] == pending(
                    edges@.take(i as int),
                    Seq::empty(),
                    node as usize,
                ),
    {
        let (source, target) = edges[i];
        assert(edges@[i as int].1 < node_count);
        proof {
            lemma_pending_bounded(edges@.take(i as int), Seq::empty(), target);
        }
        counts[target] = counts[target] + 1;
        assert(edges@.take(i + 1).drop_last() =~= edges@.take(i as int));
    }
    assert(edges@.take(edges@.len() as int) =~= edges@);
    counts
}

/// Finds the order in which the nodes run, or `None` when a cycle keeps some of them
/// from ever running.
pub fn topological_order(node_count: usize, edges: &Vec<Edge>) -> (result: Option<Vec<usize>>)
    requires
        edges_valid(node_count as nat, edges@),
    ensures
        result is None <==> has_cycle(edges@),
        result matches Some(order) ==> order@ == run_order(node_count as nat, edges@)
            && is_topological(node_count as nat, edges@, order@),
        result matches Some(order) ==> {
            &&& order@.len() == node_count
            &&& order@.no_duplicates()
            &&& forall|i: int| 0 <= i < node_count ==> #[trigger] order@[i] < node_count
            &&& forall|k: int, i: int, j: int|
                #![trigger edges@[k], order@[i], order@[j]]
                0 <= k < edges@.len() && 0 <= i < node_count && 0 <= j < node_count && edges@[k] == (
                    order@[i],
                    order@[j],
                ) ==> i < j
        },
{
    let forward = target_lists(node_count, edges);
    let mut waiting = count_sources(node_count, edges);
    let mut queue: VecDeque<usize> = VecDeque::with_capacity(node_count);
    let ghost nodes = node_count as nat;
    let ghost nothing = Seq::<usize>::empty();
    assert(all_nodes(nodes).take(0) =~= nothing);
    for i in 0..node_count
        invariant
            nodes == node_count,
            nothing == Seq::<usize>::empty(),
            waiting@.len() == node_count,
            forall|node: int|
                0 <= node < node_count ==> #[trigger] waiting@[node] == pending(
                    edges@,
                    nothing,
                    node as usize,
                ),
            queue@ == ready_among(edges@, nothing, all_nodes(nodes).take(i as int)),
    {
        proof {
            lemma_pending_zero(edges@, nothing, i);
            assert(all_nodes(nodes).take(i + 1).drop_last() =~= all_nodes(nodes).take(i as int));
        }
        if waiting[i] == 0 {
            queue.push_back(i);
        }
    }
    assert(all_nodes(nodes).take(nodes as int) =~= all_nodes(nodes));
    let mut order: Vec<usize> = Vec::with_capacity(node_count);
    assert(order@ + queue@ =~= queued_after(nodes, edges@, 0));
    while queue.len() > 0
        invariant
            nodes == node_count,
            edges_valid(nodes, edges@),
            forward@.len() == node_count,
            forall|node: int|
                0 <= node < node_count ==> (#[trigger] forward@[node])@ == targets(
                    edges@,
                    node as usize,
                ),
            waiting@.len() == node_count,
            forall|node: int|
                0 <= node < node_count ==> #[trigger] waiting@[node] == pending(
                    edges@,
                    order@,
                    node as usize,
                ),
            order@ + queue@ == queued_after(nodes, edges@, order@.len()),
            order@.len() <= nodes,
        decreases nodes - order@.len(),
    {
        let ghost done = order@;
        let ghost before = queued_after(nodes, edges@, done.len());
        let ran = queue.pop_front().unwrap();
        order.push(ran);
        let ghost fed = targets(edges@, ran);
        proof {
            lemma_queue_inv(nodes, edges@, done.len());
            lemma_distinct_names(nodes, before);
            assert(ran == before[done.len() as int]);
            assert(!done.contains(ran)) by {
                if done.contains(ran) {
                    let i = choose|i: int| 0 <= i < done.len() && done[i] == ran;
                    assert(before[i] == before[done.len() as int]);
                }
            }
            lemma_targets(edges@, ran);
            assert(order@ =~= before.take(done.len() as int + 1));
            assert(fed.take(0) =~= Seq::empty());
            assert(order@ + queue@ =~= before);
        }
        let fed_count = forward[ran].len();
        for j in 0..fed_count
            invariant
                fed_count == fed.len(),
                nodes == node_count,
                edges_valid(nodes, edges@),
                ran < node_count,
                forward@.len() == node_count,
                forward@[ran as int]@ == fed,
                fed == targets(edges@, ran),
                fed.no_duplicates(),
                forall|target: usize|
                    #![trigger fed.contains(target)]
                    #![trigger edges@.contains((ran, target))]
                    fed.contains(target) <==> edges@.contains((ran, target)),
                !done.contains(ran),
                order@ == done.push(ran),
                waiting@.len() == node_count,
                forall|node: int|
                    0 <= node < node_count ==> #[trigger] waiting@[node] == pending(
                        edges@,
                        done,
                        node as usize,
                    ) - (if fed.take(j as int).contains(node as usize) {
                        1int
                    } else {
                        0
                    }),
                order@ + queue@ == before + ready_among(edges@, order@, fed.take(j as int)),
        {
            let target = forward[ran][j];
            let ghost queued = queue@;
            let ghost seen = fed.take(j as int);
            proof {
                assert(fed.contains(target));
                let e = choose|e: int| 0 <= e < edges@.len() && edges@[e] == (ran, target);
                assert(edges@[e].1 < nodes);
                assert(!seen.contains(target)) by {
                    if seen.contains(target) {
                        let i = choose|i: int| 0 <= i < seen.len() && seen[i] == target;
                        assert(fed[i] == fed[j as int]);
                    }
                }
                lemma_pending_push(edges@, done, ran, target);
                lemma_pending_zero(edges@, order@, target);
                assert(fed.take(j + 1).drop_last() =~= seen);
            }
            waiting[target] = waiting[target] - 1;
            if waiting[target] == 0 {
                queue.push_back(target);
                assert(order@ + queue@ =~= (order@ + queued).push(target));
            }
            proof {
                assert forall|node: int| 0 <= node < node_count implies #[trigger] waiting@[node]
                    == pending(edges@, done, node as usize) - (if fed.take(j + 1).contains(
                    node as usize,
                ) {
                    1int
                } else {
                    0
                }) by {
                    lemma_contains_drop_last(fed.take(j + 1), node as usize);
                }
                assert(order@ + queue@ =~= before + ready_among(edges@, order@, fed.take(j + 1)));
            }
        }
        proof {
            assert(fed.take(fed.len() as int) =~= fed);
            assert forall|node: int| 0 <= node < node_count implies #[trigger] waiting@[node]
                == pending(edges@, order@, node as usize) by {
                lemma_pending_push(edges@, done, ran, node as usize);
                assert(fed.contains(node as usize) <==> edges@.contains((ran, node as usize)));
            }
        }
    }
    proof {
        assert(order@ + queue@ =~= order@);
        lemma_queue_settles(nodes, edges@, order@.len(), nodes);
        law_run_order(nodes, edges@);
    }
    if order.len() != node_count {
        None
    } else {
        proof {
            assert forall|k: int, i: int, j: int|
                #![trigger edges@[k], order@[i], order@[j]]
                0 <= k < edges@.len() && 0 <= i < node_count && 0 <= j < node_count && edges@[k] == (
                    order@[i],
                    order@[j],
                ) implies i < j by {
                assert(edges@.contains((order@[i], order@[j])));
            }
        }
        Some(order)
    }
}

} // verus!
