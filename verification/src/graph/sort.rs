//! The topological sort of a graph.
use std::collections::VecDeque;
use vstd::prelude::*;

use crate::graph::{in_degree, Edge, Graph};

verus! {

/// The number of edges that end at `v` and start at a node outside `done`.
pub open spec fn pending(edges: Seq<Edge>, v: usize, done: Set<usize>) -> nat
    decreases edges.len(),
{
    if edges.len() == 0 {
        0
    } else {
        pending(edges.drop_last(), v, done) + if edges.last().to == v && !done.contains(
            edges.last().from,
        ) {
            1nat
        } else {
            0nat
        }
    }
}

/// The number of edges from `u` to `v`.
pub open spec fn edge_count(edges: Seq<Edge>, u: usize, v: usize) -> nat
    decreases edges.len(),
{
    if edges.len() == 0 {
        0
    } else {
        edge_count(edges.drop_last(), u, v) + if edges.last().from == u && edges.last().to == v {
            1nat
        } else {
            0nat
        }
    }
}

proof fn lemma_pending_empty(edges: Seq<Edge>, v: usize)
    ensures
        pending(edges, v, Set::empty()) == in_degree(edges, v),
    decreases edges.len(),
{
    if edges.len() > 0 {
        lemma_pending_empty(edges.drop_last(), v);
    }
}

proof fn lemma_pending_insert(edges: Seq<Edge>, v: usize, done: Set<usize>, node: usize)
    requires
        !done.contains(node),
    ensures
        pending(edges, v, done) == pending(edges, v, done.insert(node)) + edge_count(edges, node, v),
    decreases edges.len(),
{
    if edges.len() > 0 {
        lemma_pending_insert(edges.drop_last(), v, done, node);
    }
}

proof fn lemma_edge_count_take(edges: Seq<Edge>, u: usize, v: usize, k: int)
    requires
        0 <= k < edges.len(),
    ensures
        edge_count(edges.take(k + 1), u, v) == edge_count(edges.take(k), u, v) + if edges[k].from
            == u && edges[k].to == v {
            1nat
        } else {
            0nat
        },
        edge_count(edges.take(k + 1), u, v) <= edge_count(edges, u, v),
    decreases edges.len(),
{
    assert(edges.take(k + 1).drop_last() =~= edges.take(k));
    if k + 1 < edges.len() {
        lemma_edge_count_take(edges.drop_last(), u, v, k);
        assert(edges.drop_last().take(k + 1) =~= edges.take(k + 1));
        assert(edges.drop_last().take(k) =~= edges.take(k));
    } else {
        assert(edges.take(k + 1) =~= edges);
    }
}

proof fn lemma_pending_zero(edges: Seq<Edge>, v: usize, done: Set<usize>, k: int)
    requires
        pending(edges, v, done) == 0,
        0 <= k < edges.len(),
        edges[k].to == v,
    ensures
        done.contains(edges[k].from),
    decreases edges.len(),
{
    if k < edges.len() - 1 {
        lemma_pending_zero(edges.drop_last(), v, done, k);
    }
}

proof fn lemma_pending_positive(edges: Seq<Edge>, v: usize, done: Set<usize>)
    requires
        pending(edges, v, done) > 0,
    ensures
        exists|k: int| 0 <= k < edges.len() && edges[k].to == v && !done.contains(edges[k].from),
    decreases edges.len(),
{
    if edges.len() > 0 {
        if pending(edges.drop_last(), v, done) > 0 {
            lemma_pending_positive(edges.drop_last(), v, done);
            let k = choose|k: int|
                0 <= k < edges.len() - 1 && edges.drop_last()[k].to == v && !done.contains(
                    edges.drop_last()[k].from,
                );
            assert(edges[k] == edges.drop_last()[k]);
        } else {
            assert(edges[edges.len() - 1] == edges.last());
        }
    }
}

proof fn lemma_below_len(n: usize)
    ensures
        Set::new(|x: usize| x < n).finite(),
        Set::new(|x: usize| x < n).len() == n,
    decreases n,
{
    if n == 0 {
        assert(Set::new(|x: usize| x < n) =~= Set::<usize>::empty());
    } else {
        let m = (n - 1) as usize;
        lemma_below_len(m);
        assert(Set::new(|x: usize| x < n) =~= Set::new(|x: usize| x < m).insert(m));
    }
}

/// A list of distinct indices below `n` is no longer than `n`.
pub proof fn lemma_distinct_bounded(s: Seq<usize>, n: usize)
    requires
        s.no_duplicates(),
        forall|i: int| 0 <= i < s.len() ==> #[trigger] s[i] < n,
    ensures
        s.len() <= n,
{
    lemma_below_len(n);
    s.unique_seq_to_set();
    assert(s.to_set().subset_of(Set::new(|x: usize| x < n))) by {
        assert forall|x: usize| s.to_set().contains(x) implies x < n by {
            let i = choose|i: int| 0 <= i < s.len() && s[i] == x;
            assert(s[i] < n);
        }
    }
    vstd::set_lib::lemma_len_subset(s.to_set(), Set::new(|x: usize| x < n));
}

/// The state of Kahn's sort: the nodes ordered so far, the queue of the nodes whose degree
/// has reached 0 and that wait to be ordered, and the degree of each node, lowered for each
/// edge from an ordered node.
pub struct KahnState {
    pub order: Seq<usize>,
    pub queue: Seq<usize>,
    pub degrees: Seq<int>,
}

/// The nodes below `k` that no edge ends at, in increasing order.
pub open spec fn roots_upto(edges: Seq<Edge>, k: nat) -> Seq<usize>
    decreases k,
{
    if k == 0 {
        Seq::empty()
    } else {
        let before = roots_upto(edges, (k - 1) as nat);
        if in_degree(edges, (k - 1) as usize) == 0 {
            before.push((k - 1) as usize)
        } else {
            before
        }
    }
}

/// Where Kahn's sort of `n` nodes joined by `edges` starts: nothing ordered, the nodes of
/// degree 0 queued in increasing order, and the degrees as the edges give them.
pub open spec fn kahn_start(edges: Seq<Edge>, n: nat) -> KahnState {
    KahnState {
        order: Seq::empty(),
        queue: roots_upto(edges, n),
        degrees: Seq::new(n, |v: int| in_degree(edges, v as usize) as int),
    }
}

/// The degrees and queue after the first `k` edges are taken in turn: an edge from `node`
/// lowers the degree of its target, which is queued when it reaches 0.
pub open spec fn lower_degrees(
    edges: Seq<Edge>,
    node: usize,
    k: nat,
    degrees: Seq<int>,
    queue: Seq<usize>,
) -> (Seq<int>, Seq<usize>)
    decreases k,
{
    if k == 0 {
        (degrees, queue)
    } else {
        let (d, q) = lower_degrees(edges, node, (k - 1) as nat, degrees, queue);
        let e = edges[k - 1];
        if e.from == node {
            let lowered = d[e.to as int] - 1;
            (d.update(e.to as int, lowered), if lowered == 0 {
                q.push(e.to)
            } else {
                q
            })
        } else {
            (d, q)
        }
    }
}

/// One step of Kahn's sort: the node at the front of the queue is ordered, and the edges
/// from it, in their order, lower the degrees of their targets. Nothing changes when the
/// queue is empty.
pub open spec fn kahn_step(edges: Seq<Edge>, state: KahnState) -> KahnState {
    if state.queue.len() == 0 {
        state
    } else {
        let node = state.queue[0];
        let (degrees, queue) = lower_degrees(
            edges,
            node,
            edges.len(),
            state.degrees,
            state.queue.drop_first(),
        );
        KahnState { order: state.order.push(node), queue, degrees }
    }
}

/// The state after `steps` steps of Kahn's sort from `state`.
pub open spec fn kahn_run(edges: Seq<Edge>, state: KahnState, steps: nat) -> KahnState
    decreases steps,
{
    if steps == 0 {
        state
    } else {
        kahn_run(edges, kahn_step(edges, state), (steps - 1) as nat)
    }
}

/// The order that Kahn's sort gives `n` nodes joined by `edges`: every node is ordered at
/// most once, so `n` steps take it to its end.
pub open spec fn kahn_sorted(edges: Seq<Edge>, n: nat) -> Seq<usize> {
    kahn_run(edges, kahn_start(edges, n), n).order
}

/// The degrees of a list of counts, as integers.
pub open spec fn degrees_of(current: Seq<usize>) -> Seq<int> {
    current.map_values(|d: usize| d as int)
}

proof fn lemma_kahn_run_succ(edges: Seq<Edge>, state: KahnState, steps: nat)
    ensures
        kahn_run(edges, state, steps + 1) == kahn_step(edges, kahn_run(edges, state, steps)),
    decreases steps,
{
    assert(kahn_run(edges, state, steps + 1) == kahn_run(edges, kahn_step(edges, state), steps));
    if steps > 0 {
        lemma_kahn_run_succ(edges, kahn_step(edges, state), (steps - 1) as nat);
        assert(kahn_run(edges, state, steps) == kahn_run(
            edges,
            kahn_step(edges, state),
            (steps - 1) as nat,
        ));
    } else {
        assert(kahn_run(edges, kahn_step(edges, state), 0) == kahn_step(edges, state));
    }
}

proof fn lemma_kahn_run_idle(edges: Seq<Edge>, state: KahnState, steps: nat, more: nat)
    requires
        kahn_run(edges, state, steps).queue.len() == 0,
    ensures
        kahn_run(edges, state, steps + more) == kahn_run(edges, state, steps),
    decreases more,
{
    if more > 0 {
        lemma_kahn_run_idle(edges, state, steps, (more - 1) as nat);
        lemma_kahn_run_succ(edges, state, (steps + more - 1) as nat);
    }
}

/// The topological order of the graph, as Kahn's algorithm finds it.
pub fn kahn_order(g: &Graph) -> (order: Vec<usize>)
    requires
        g.wf(),
    ensures
        g.topological_order(order@),
        order@ == kahn_sorted(g.edges@, g.nodes@.len()),
{
    let n = g.nodes.len();
    let ghost edges = g.edges@;
    let mut current: Vec<usize> = Vec::new();
    let mut v: usize = 0;
    while v < n
        invariant
            v <= n,
            n == g.nodes@.len(),
            g.wf(),
            edges == g.edges@,
            current@.len() == v,
            forall|u: int| 0 <= u < v ==> #[trigger] current@[u] == in_degree(edges, u as usize),
        decreases n - v,
    {
        current.push(*g.degrees.get(&v).unwrap());
        v = v + 1;
    }
    let mut queue: VecDeque<usize> = VecDeque::new();
    let mut v: usize = 0;
    while v < n
        invariant
            v <= n,
            n == g.nodes@.len(),
            edges == g.edges@,
            current@.len() == n,
            forall|u: int| 0 <= u < n ==> #[trigger] current@[u] == in_degree(edges, u as usize),
            queue@ == roots_upto(edges, v as nat),
            queue@.no_duplicates(),
            forall|i: int| 0 <= i < queue@.len() ==> #[trigger] queue@[i] < v,
            forall|u: usize| u < v ==> (queue@.contains(u) <==> current@[u as int] == 0),
        decreases n - v,
    {
        let ghost before = queue@;
        proof {
            assert(current@[v as int] == in_degree(edges, v));
        }
        if current[v] == 0 {
            queue.push_back(v);
            proof {
                assert(queue@[before.len() as int] == v);
            }
        }
        proof {
            assert forall|u: usize| u < v + 1 implies (queue@.contains(u) <==> current@[u as int]
                == 0) by {
                if queue@.contains(u) {
                    let i = choose|i: int| 0 <= i < queue@.len() && queue@[i] == u;
                    if i < before.len() {
                        assert(before[i] == u);
                    }
                }
                if before.contains(u) {
                    let i = choose|i: int| 0 <= i < before.len() && before[i] == u;
                    assert(queue@[i] == u);
                }
                if u == v && current@[u as int] != 0 {
                    if queue@.contains(u) {
                        let i = choose|i: int| 0 <= i < queue@.len() && queue@[i] == u;
                        assert(queue@[i] < v);
                    }
                }
            }
        }
        v = v + 1;
    }
    proof {
        assert forall|u: int| 0 <= u < n implies #[trigger] current@[u] == pending(
            edges,
            u as usize,
            Seq::<usize>::empty().to_set(),
        ) by {
            lemma_pending_empty(edges, u as usize);
            assert(Seq::<usize>::empty().to_set() =~= Set::<usize>::empty());
        }
    }
    let mut order: Vec<usize> = Vec::new();
    let ghost start = kahn_start(edges, n as nat);
    proof {
        assert(degrees_of(current@) =~= start.degrees);
        assert(order@ =~= start.order);
    }
    loop
        invariant
            n == g.nodes@.len(),
            start == kahn_start(edges, n as nat),
            (KahnState { order: order@, queue: queue@, degrees: degrees_of(current@) }) == kahn_run(
                edges,
                start,
                order@.len() as nat,
            ),
            g.wf(),
            edges == g.edges@,
            current@.len() == n,
            order@.no_duplicates(),
            queue@.no_duplicates(),
            forall|i: int| 0 <= i < order@.len() ==> #[trigger] order@[i] < n,
            forall|i: int| 0 <= i < queue@.len() ==> #[trigger] queue@[i] < n,
            forall|i: int| 0 <= i < queue@.len() ==> !order@.contains(#[trigger] queue@[i]),
            forall|u: int| 0 <= u < n ==> #[trigger] current@[u] == pending(
                edges,
                u as usize,
                order@.to_set(),
            ),
            forall|u: usize|
                u < n ==> (current@[u as int] == 0 <==> (order@.contains(u) || queue@.contains(u))),
            forall|i: int, k: int|
                0 <= i < order@.len() && 0 <= k < edges.len() && #[trigger] edges[k].to
                    == #[trigger] order@[i] ==> exists|j: int|
                    0 <= j < i && order@[j] == edges[k].from,
        ensures
            queue@.len() == 0,
        decreases n - order@.len(),
    {
        proof {
            let all = order@ + queue@;
            assert forall|i: int| 0 <= i < all.len() implies #[trigger] all[i] < n by {
                if i >= order@.len() {
                    assert(all[i] == queue@[i - order@.len()]);
                }
            }
            assert forall|i: int, j: int| 0 <= i < j < all.len() implies all[i] != all[j] by {
                if i < order@.len() && j >= order@.len() {
                    assert(all[j] == queue@[j - order@.len()]);
                    assert(order@.contains(all[i]));
                } else if i >= order@.len() {
                    assert(all[j] == queue@[j - order@.len()]);
                    assert(all[i] == queue@[i - order@.len()]);
                }
            }
            lemma_distinct_bounded(all, n);
        }
        let ghost q = queue@;
        let node = match queue.pop_front() {
            Some(node) => node,
            None => break,
        };
        let ghost done = order@.to_set();
        proof {
            assert(q[0] == node);
            assert(queue@ =~= q.drop_first());
            assert(q.contains(node));
            assert(!order@.contains(node));
            assert(current@[node as int] == 0);
            assert forall|i: int| 0 <= i < queue@.len() implies #[trigger] queue@[i] != node by {
                assert(queue@[i] == q[i + 1]);
            }
        }
        let ghost popped_order = order@;
        let ghost popped_degrees = degrees_of(current@);
        let ghost rest = queue@;
        order.push(node);
        proof {
            popped_order.lemma_push_to_set_commute(node);
            assert(order@.to_set() =~= done.insert(node));
            assert forall|u: usize| u < n implies (current@[u as int] == 0 <==> (order@.contains(u)
                || queue@.contains(u))) by {
                if u == node {
                    assert(order@[popped_order.len() as int] == node);
                } else {
                    if order@.contains(u) {
                        let i = choose|i: int| 0 <= i < order@.len() && order@[i] == u;
                        assert(popped_order[i] == u);
                    }
                    if popped_order.contains(u) {
                        let i = choose|i: int| 0 <= i < popped_order.len() && popped_order[i] == u;
                        assert(order@[i] == u);
                    }
                    if queue@.contains(u) {
                        let i = choose|i: int| 0 <= i < queue@.len() && queue@[i] == u;
                        assert(q[i + 1] == u);
                    }
                    if q.contains(u) {
                        let i = choose|i: int| 0 <= i < q.len() && q[i] == u;
                        assert(queue@[i - 1] == u);
                    }
                }
            }
            assert forall|k: int| 0 <= k < edges.len() && #[trigger] edges[k].to == node implies exists|j: int|
                0 <= j < popped_order.len() && order@[j] == edges[k].from by {
                lemma_pending_zero(edges, node, done, k);
                let j = choose|j: int| 0 <= j < popped_order.len() && popped_order[j] == edges[k].from;
                assert(order@[j] == popped_order[j]);
            }
        }
        let mut k: usize = 0;
        while k < g.edges.len()
            invariant
                n == g.nodes@.len(),
                g.wf(),
                edges == g.edges@,
                k <= edges.len(),
                current@.len() == n,
                node < n,
                !done.contains(node),
                order@.to_set() == done.insert(node),
                order@.no_duplicates(),
                queue@.no_duplicates(),
                forall|i: int| 0 <= i < queue@.len() ==> #[trigger] queue@[i] < n,
                forall|i: int| 0 <= i < queue@.len() ==> !order@.contains(#[trigger] queue@[i]),
                forall|u: int|
                    0 <= u < n ==> #[trigger] current@[u] + edge_count(edges.take(k as int), node, u as usize)
                        == pending(edges, u as usize, done),
                forall|u: usize|
                    u < n ==> (current@[u as int] == 0 <==> (order@.contains(u) || queue@.contains(u))),
                (degrees_of(current@), queue@) == lower_degrees(
                    edges,
                    node,
                    k as nat,
                    popped_degrees,
                    rest,
                ),
            decreases edges.len() - k,
        {
            let edge = g.edges[k];
            proof {
                lemma_edge_count_take(edges, node, edge.to, k as int);
                lemma_pending_insert(edges, edge.to, done, node);
                assert forall|u: int| 0 <= u < n implies #[trigger] edge_count(
                    edges.take(k + 1),
                    node,
                    u as usize,
                ) == edge_count(edges.take(k as int), node, u as usize) + if edges[k as int].from
                    == node && edges[k as int].to == u {
                    1nat
                } else {
                    0nat
                } by {
                    lemma_edge_count_take(edges, node, u as usize, k as int);
                }
            }
            let ghost current_before = current@;
            let ghost queue_before = queue@;
            proof {
                assert(edges.take(k as int + 1).len() == k + 1);
            }
            if edge.from == node {
                proof {
                    assert(edges[k as int] == edge);
                    assert(edge.to < n);
                    assert(current@[edge.to as int] >= 1);
                    assert(!order@.contains(edge.to) && !queue@.contains(edge.to));
                }
                let degree = current[edge.to] - 1;
                current.set(edge.to, degree);
                if degree == 0 {
                    queue.push_back(edge.to);
                    proof {
                        assert(queue@[queue_before.len() as int] == edge.to);
                    }
                }
                proof {
                    assert forall|u: usize| u < n implies (current@[u as int] == 0 <==> (order@.contains(
                        u,
                    ) || queue@.contains(u))) by {
                        if u != edge.to {
                            assert(current@[u as int] == current_before[u as int]);
                        }
                        if queue@.contains(u) {
                            let i = choose|i: int| 0 <= i < queue@.len() && queue@[i] == u;
                            if i < queue_before.len() {
                                assert(queue_before[i] == u);
                            }
                        }
                        if queue_before.contains(u) {
                            let i = choose|i: int| 0 <= i < queue_before.len() && queue_before[i] == u;
                            assert(queue@[i] == u);
                        }
                    }
                    assert forall|i: int| 0 <= i < queue@.len() implies !order@.contains(
                        #[trigger] queue@[i],
                    ) by {
                        if i < queue_before.len() {
                            assert(queue@[i] == queue_before[i]);
                        }
                    }
                }
            }
            proof {
                assert(edges[k as int] == edge);
                if edge.from == node {
                    assert(degrees_of(current@) =~= degrees_of(current_before).update(
                        edge.to as int,
                        current_before[edge.to as int] - 1,
                    ));
                } else {
                    assert(current@ == current_before);
                }
            }
            k = k + 1;
        }
        proof {
            assert(edges.take(k as int) =~= edges);
            lemma_kahn_run_succ(edges, start, popped_order.len() as nat);
            assert forall|u: int| 0 <= u < n implies #[trigger] current@[u] == pending(
                edges,
                u as usize,
                order@.to_set(),
            ) by {
                lemma_pending_insert(edges, u as usize, done, node);
            }
            assert forall|i: int, e: int|
                0 <= i < order@.len() && 0 <= e < edges.len() && #[trigger] edges[e].to
                    == #[trigger] order@[i] implies exists|j: int| 0 <= j < i && order@[j] == edges[e].from by {
                if i < popped_order.len() {
                    assert(order@[i] == popped_order[i]);
                    let j = choose|j: int| 0 <= j < i && popped_order[j] == edges[e].from;
                    assert(order@[j] == popped_order[j]);
                }
            }
        }
    }
    proof {
        lemma_distinct_bounded(order@, n);
        lemma_kahn_run_idle(edges, start, order@.len() as nat, (n - order@.len()) as nat);
        assert forall|v: usize|
            v < n && !order@.contains(v) implies exists|k: int|
            0 <= k < edges.len() && edges[k].to == v && !order@.contains(edges[k].from) by {
            lemma_pending_positive(edges, v, order@.to_set());
            let k = choose|k: int|
                0 <= k < edges.len() && edges[k].to == v && !order@.to_set().contains(edges[k].from);
            assert(!order@.contains(edges[k].from));
        }
    }
    order
}

} // verus!
