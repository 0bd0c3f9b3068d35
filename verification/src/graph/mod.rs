//! The graph of operators: nodes connected by edges, kept in topological order, through
//! which pulses are passed from the roots to the leaves.
use std::collections::{BTreeMap, BTreeSet, VecDeque};
use vstd::prelude::*;

use crate::graph::node::{Node, Operator};
use crate::graph::pulse::{flatten, lemma_flatten_same, merged, same_pulse, Pulse};

pub mod node;
pub mod order;
pub mod sort;
pub mod pulse;

verus! {

broadcast use vstd::std_specs::btree::group_btree_axioms, vstd::laws_cmp::group_laws_cmp;

/// An edge between two nodes of the graph.
#[derive(Debug, PartialEq, Eq, Structural, Clone, Copy)]
pub struct Edge {
    pub from: usize,
    pub to: usize,
}

impl Edge {
    /// An edge from `from` to `to`.
    pub fn new(from: usize, to: usize) -> (e: Edge)
        ensures
            e == (Edge { from, to }),
    {
        Edge { from, to }
    }
}

/// The number of edges that end at `v`.
pub open spec fn in_degree(edges: Seq<Edge>, v: usize) -> nat
    decreases edges.len(),
{
    if edges.len() == 0 {
        0
    } else {
        in_degree(edges.drop_last(), v) + if edges.last().to == v {
            1nat
        } else {
            0nat
        }
    }
}

/// Whether one of the edges goes from `u` to `v`.
pub open spec fn has_edge(edges: Seq<Edge>, u: usize, v: usize) -> bool {
    exists|k: int| 0 <= k < edges.len() && edges[k] == (Edge { from: u, to: v })
}

/// A distribution of nodes connected with each other. Each node has an entry in the
/// maps of degrees, sources and targets; the degree of a node is the number of edges that
/// end at it, and the nodes are kept grouped by their degree.
#[derive(Debug, PartialEq)]
pub struct Graph {
    /// The nodes of the graph.
    pub nodes: Vec<Node>,
    /// The edges of the graph, in the order in which they were added.
    pub edges: Vec<Edge>,
    /// For each node, the nodes that it has an edge to.
    pub targets: BTreeMap<usize, BTreeSet<usize>>,
    /// For each node, the nodes that have an edge to it.
    pub sources: BTreeMap<usize, BTreeSet<usize>>,
    /// For each node, the number of edges that end at it.
    pub degrees: BTreeMap<usize, usize>,
    /// For each degree that some node has, the nodes of that degree.
    pub nodes_in_degree: BTreeMap<usize, BTreeSet<usize>>,
    /// The topological order of the nodes, as computed when a node was last added with
    /// its sources.
    pub order: Vec<usize>,
}

impl Graph {
    /// The nodes of each degree, as the degrees give them.
    pub open spec fn degree_groups_ok(self) -> bool {
        let n = self.nodes@.len();
        &&& forall|d: usize|
            #[trigger] self.nodes_in_degree@.contains_key(d) <==> exists|v: usize|
                v < n && self.degrees@[v] == d
        &&& forall|d: usize, v: usize|
            #[trigger] self.nodes_in_degree@.contains_key(d) ==> (
            #[trigger] self.nodes_in_degree@[d]@.contains(v) <==> (v < n && self.degrees@[v] == d))
    }

    /// The graph is well formed: the maps have an entry for each node and agree with the
    /// edges, which join nodes of the graph.
    pub open spec fn wf(self) -> bool {
        let n = self.nodes@.len();
        &&& forall|k: usize| #[trigger] self.degrees@.contains_key(k) <==> k < n
        &&& forall|k: usize| #[trigger] self.sources@.contains_key(k) <==> k < n
        &&& forall|k: usize| #[trigger] self.targets@.contains_key(k) <==> k < n
        &&& forall|i: int|
            0 <= i < self.edges@.len() ==> (#[trigger] self.edges@[i]).from < n && self.edges@[i].to
                < n
        &&& forall|v: usize| v < n ==> #[trigger] self.degrees@[v] == in_degree(self.edges@, v)
        &&& forall|u: usize, v: usize|
            u < n ==> (#[trigger] self.targets@[u]@.contains(v) <==> has_edge(self.edges@, u, v))
        &&& forall|u: usize, v: usize|
            v < n ==> (#[trigger] self.sources@[v]@.contains(u) <==> has_edge(self.edges@, u, v))
        &&& self.degree_groups_ok()
    }

    /// A graph with no nodes.
    pub fn new() -> (g: Graph)
        ensures
            g.wf(),
            g.nodes@.len() == 0,
            g.edges@.len() == 0,
            g.order@.len() == 0,
    {
        Graph {
            nodes: Vec::new(),
            edges: Vec::new(),
            targets: BTreeMap::new(),
            sources: BTreeMap::new(),
            degrees: BTreeMap::new(),
            nodes_in_degree: BTreeMap::new(),
            order: Vec::new(),
        }
    }

    /// Replace the node at `index` by `new_node`, giving the node that was there; nothing
    /// changes when there is no such node.
    pub fn replace_node(&mut self, index: usize, new_node: Node) -> (r: Option<Node>)
        ensures
            index < old(self).nodes@.len() ==> r == Some(old(self).nodes@[index as int])
                && final(self).nodes@ == old(self).nodes@.update(index as int, new_node),
            index >= old(self).nodes@.len() ==> r is None && final(self).nodes@ == old(self).nodes@,
            final(self).edges == old(self).edges,
            final(self).targets == old(self).targets,
            final(self).sources == old(self).sources,
            final(self).degrees == old(self).degrees,
            final(self).nodes_in_degree == old(self).nodes_in_degree,
            final(self).order == old(self).order,
            old(self).wf() ==> final(self).wf(),
    {
        if index < self.nodes.len() {
            let previous = self.nodes.remove(index);
            self.nodes.insert(index, new_node);
            proof {
                assert(self.nodes@ =~= old(self).nodes@.update(index as int, new_node));
                if old(self).wf() {
                    lemma_wf_fields(*old(self), *self);
                }
            }
            Some(previous)
        } else {
            None
        }
    }

    /// Add a node of `operator` with no connection, giving its index.
    pub fn add_node(&mut self, operator: Operator) -> (index: usize)
        requires
            old(self).wf(),
        ensures
            final(self).wf(),
            index == old(self).nodes@.len(),
            final(self).nodes@.len() == old(self).nodes@.len() + 1,
            final(self).nodes@.take(index as int) == old(self).nodes@,
            crate::graph::node::is_initial(final(self).nodes@[index as int], operator),
            final(self).edges == old(self).edges,
            final(self).order == old(self).order,
    {
        let index = self.nodes.len();
        let ghost n = index as int;
        proof {
            lemma_in_degree_beyond(self.edges@, index);
        }
        let node = Node::init(operator);
        self.nodes.push(node);
        self.degrees.insert(index, 0);
        let mut zero_degree = match self.nodes_in_degree.get(&0) {
            Some(nodes) => nodes.clone(),
            None => BTreeSet::new(),
        };
        zero_degree.insert(index);
        self.nodes_in_degree.insert(0, zero_degree);
        self.sources.insert(index, BTreeSet::new());
        self.targets.insert(index, BTreeSet::new());
        proof {
            let g = *old(self);
            assert forall|u: usize, v: usize| u < self.nodes@.len() implies (
            #[trigger] self.targets@[u]@.contains(v) <==> has_edge(self.edges@, u, v)) by {
                if u == index {
                    if has_edge(self.edges@, u, v) {
                        let k = choose|k: int|
                            0 <= k < self.edges@.len() && self.edges@[k] == (Edge { from: u, to: v });
                        assert(self.edges@[k].from < n);
                    }
                }
            }
            assert forall|u: usize, v: usize| v < self.nodes@.len() implies (
            #[trigger] self.sources@[v]@.contains(u) <==> has_edge(self.edges@, u, v)) by {
                if v == index {
                    if has_edge(self.edges@, u, v) {
                        let k = choose|k: int|
                            0 <= k < self.edges@.len() && self.edges@[k] == (Edge { from: u, to: v });
                        assert(self.edges@[k].to < n);
                    }
                }
            }
            assert forall|d: usize|
                #[trigger] self.nodes_in_degree@.contains_key(d) <==> exists|v: usize|
                    v < self.nodes@.len() && self.degrees@[v] == d by {
                if d == 0 {
                    assert(self.degrees@[index] == 0);
                } else if self.nodes_in_degree@.contains_key(d) {
                    let v = choose|v: usize| v < n && g.degrees@[v] == d;
                    assert(self.degrees@[v] == d);
                } else {
                    if exists|v: usize| v < self.nodes@.len() && self.degrees@[v] == d {
                        let v = choose|v: usize| v < self.nodes@.len() && self.degrees@[v] == d;
                        assert(v != index);
                        assert(g.degrees@[v] == d);
                    }
                }
            }
            assert forall|d: usize, v: usize| #[trigger] self.nodes_in_degree@.contains_key(d) implies (
            #[trigger] self.nodes_in_degree@[d]@.contains(v) <==> (v < self.nodes@.len()
                && self.degrees@[v] == d)) by {
                if d == 0 {
                    if g.nodes_in_degree@.contains_key(0) {
                        assert(g.nodes_in_degree@[0]@.contains(v) <==> (v < n && g.degrees@[v] == 0));
                    } else {
                        if v < n && g.degrees@[v] == 0 {
                            assert(g.nodes_in_degree@.contains_key(0));
                        }
                    }
                } else {
                    assert(g.nodes_in_degree@[d]@.contains(v) <==> (v < n && g.degrees@[v] == d));
                }
            }
            assert(self.nodes@.take(index as int) =~= old(self).nodes@);
        }
        index
    }

    /// The nodes of each degree, computed afresh from the degrees.
    fn group_by_degree(&self, n: usize) -> (groups: BTreeMap<usize, BTreeSet<usize>>)
        requires
            forall|k: usize| #[trigger] self.degrees@.contains_key(k) <==> k < n,
        ensures
            forall|d: usize|
                #[trigger] groups@.contains_key(d) <==> exists|v: usize|
                    v < n && self.degrees@[v] == d,
            forall|d: usize, v: usize|
                #[trigger] groups@.contains_key(d) ==> (#[trigger] groups@[d]@.contains(v) <==> (v < n
                    && self.degrees@[v] == d)),
    {
        let mut groups: BTreeMap<usize, BTreeSet<usize>> = BTreeMap::new();
        let mut i: usize = 0;
        while i < n
            invariant
                i <= n,
                forall|k: usize| #[trigger] self.degrees@.contains_key(k) <==> k < n,
                forall|d: usize|
                    #[trigger] groups@.contains_key(d) <==> exists|v: usize|
                        v < i && self.degrees@[v] == d,
                forall|d: usize, v: usize|
                    #[trigger] groups@.contains_key(d) ==> (#[trigger] groups@[d]@.contains(v) <==> (v
                        < i && self.degrees@[v] == d)),
            decreases n - i,
        {
            let degree = *self.degrees.get(&i).unwrap();
            let mut group = match groups.get(&degree) {
                Some(nodes) => nodes.clone(),
                None => BTreeSet::new(),
            };
            group.insert(i);
            let ghost before = groups@;
            groups.insert(degree, group);
            proof {
                assert forall|d: usize|
                    #[trigger] groups@.contains_key(d) <==> exists|v: usize|
                        v < i + 1 && self.degrees@[v] == d by {
                    if d == degree {
                        assert(self.degrees@[i] == d);
                    } else if before.contains_key(d) {
                        let v = choose|v: usize| v < i && self.degrees@[v] == d;
                        assert(v < i + 1 && self.degrees@[v] == d);
                    } else {
                        if exists|v: usize| v < i + 1 && self.degrees@[v] == d {
                            let v = choose|v: usize| v < i + 1 && self.degrees@[v] == d;
                            assert(v != i);
                            assert(v < i && self.degrees@[v] == d);
                        }
                    }
                }
                assert forall|d: usize, v: usize| #[trigger] groups@.contains_key(d) implies (
                #[trigger] groups@[d]@.contains(v) <==> (v < i + 1 && self.degrees@[v] == d)) by {
                    if d == degree {
                        if before.contains_key(d) {
                            assert(before[d]@.contains(v) <==> (v < i && self.degrees@[v] == d));
                        } else {
                            if v < i && self.degrees@[v] == d {
                                assert(before.contains_key(d));
                            }
                        }
                    } else {
                        assert(before[d]@.contains(v) <==> (v < i && self.degrees@[v] == d));
                    }
                }
            }
            i = i + 1;
        }
        groups
    }

    /// Add an edge from the node `from` to the node `to`.
    pub fn add_edge(&mut self, from: usize, to: usize)
        requires
            old(self).wf(),
            from < old(self).nodes@.len(),
            to < old(self).nodes@.len(),
            old(self).edges@.len() < usize::MAX,
        ensures
            final(self).wf(),
            final(self).edges@ == old(self).edges@.push(Edge { from, to }),
            final(self).nodes == old(self).nodes,
            final(self).order == old(self).order,
            final(self).degrees@ == old(self).degrees@.insert(to, (old(self).degrees@[to] + 1) as usize),
            final(self).targets@[from]@ == old(self).targets@[from]@.insert(to),
            final(self).sources@[to]@ == old(self).sources@[to]@.insert(from),
            forall|u: usize|
                u < old(self).nodes@.len() && u != from ==> #[trigger] final(self).targets@[u]@
                    == old(self).targets@[u]@,
            forall|v: usize|
                v < old(self).nodes@.len() && v != to ==> #[trigger] final(self).sources@[v]@
                    == old(self).sources@[v]@,
            forall|d: usize, v: usize|
                #![trigger final(self).nodes_in_degree@[d]@.contains(v)]
                (final(self).nodes_in_degree@.contains_key(d) && final(self).nodes_in_degree@[d]@.contains(v))
                    <==> (v < old(self).nodes@.len() && final(self).degrees@[v] == d),
    {
        let n = self.nodes.len();
        let ghost old_edges = self.edges@;
        let ghost new_edges = old_edges.push(Edge { from, to });
        proof {
            lemma_in_degree_bound(old_edges, to);
            assert(new_edges.drop_last() =~= old_edges);
        }
        let previous_degree = *self.degrees.get(&to).unwrap();
        self.degrees.insert(to, previous_degree + 1);
        self.edges.push(Edge::new(from, to));
        proof {
            assert(self.edges@ == new_edges);
            assert forall|v: usize| v < n implies #[trigger] self.degrees@[v] == in_degree(
                self.edges@,
                v,
            ) by {
                assert(in_degree(new_edges, v) == in_degree(old_edges, v) + if v == to {
                    1nat
                } else {
                    0nat
                });
            }
        }
        let mut target = self.targets.get(&from).unwrap().clone();
        target.insert(to);
        self.targets.insert(from, target);
        let mut source = self.sources.get(&to).unwrap().clone();
        source.insert(from);
        self.sources.insert(to, source);
        let groups = self.group_by_degree(n);
        self.nodes_in_degree = groups;
        proof {
            let g = *old(self);
            assert forall|u: usize, v: usize| u < n implies (
            #[trigger] self.targets@[u]@.contains(v) <==> has_edge(self.edges@, u, v)) by {
                lemma_has_edge_push(old_edges, Edge { from, to }, u, v);
                assert(g.targets@[u]@.contains(v) <==> has_edge(old_edges, u, v));
            }
            assert forall|u: usize, v: usize| v < n implies (
            #[trigger] self.sources@[v]@.contains(u) <==> has_edge(self.edges@, u, v)) by {
                lemma_has_edge_push(old_edges, Edge { from, to }, u, v);
                assert(g.sources@[v]@.contains(u) <==> has_edge(old_edges, u, v));
            }
            assert forall|i: int| 0 <= i < self.edges@.len() implies (#[trigger] self.edges@[i]).from < n
                && self.edges@[i].to < n by {
                if i < old_edges.len() {
                    assert(self.edges@[i] == old_edges[i]);
                }
            }
            assert(forall|k: usize| #[trigger] self.degrees@.contains_key(k) <==> k < n);
            assert(forall|k: usize| #[trigger] self.sources@.contains_key(k) <==> k < n);
            assert(forall|k: usize| #[trigger] self.targets@.contains_key(k) <==> k < n);
            assert(forall|v: usize| v < n ==> #[trigger] self.degrees@[v] == in_degree(self.edges@, v));
            assert forall|d: usize|
                #[trigger] self.nodes_in_degree@.contains_key(d) <==> exists|v: usize|
                    v < self.nodes@.len() && self.degrees@[v] == d by {
                if groups@.contains_key(d) {
                    let v = choose|v: usize| v < n && self.degrees@[v] == d;
                    assert(v < self.nodes@.len() && self.degrees@[v] == d);
                }
                if exists|v: usize| v < self.nodes@.len() && self.degrees@[v] == d {
                    let v = choose|v: usize| v < self.nodes@.len() && self.degrees@[v] == d;
                    assert(v < n && self.degrees@[v] == d);
                }
            }
            assert(self.degree_groups_ok());
            assert(self.targets@[from]@ =~= g.targets@[from]@.insert(to));
            assert(self.sources@[to]@ =~= g.sources@[to]@.insert(from));
            assert forall|d: usize, v: usize|
                #![trigger self.nodes_in_degree@[d]@.contains(v)]
                (self.nodes_in_degree@.contains_key(d) && self.nodes_in_degree@[d]@.contains(v))
                    <==> (v < n && self.degrees@[v] == d) by {
                if v < n && self.degrees@[v] == d {
                    assert(self.nodes_in_degree@.contains_key(d));
                }
            }
        }
    }

    /// Add a node of `operator` connected from each of `sources`, and sort the graph
    /// anew; gives the node's index.
    pub fn add(&mut self, operator: Operator, sources: Vec<usize>) -> (id: usize)
        requires
            old(self).wf(),
            forall|i: int| 0 <= i < sources@.len() ==> #[trigger] sources@[i] <= old(self).nodes@.len(),
            old(self).edges@.len() + sources@.len() < usize::MAX,
        ensures
            final(self).wf(),
            id == old(self).nodes@.len(),
            final(self).nodes@.len() == old(self).nodes@.len() + 1,
            final(self).nodes@.take(id as int) == old(self).nodes@,
            crate::graph::node::is_initial(final(self).nodes@[id as int], operator),
            final(self).edges@ == old(self).edges@ + sources@.map_values(|s: usize| Edge { from: s, to: id }),
            final(self).topological_order(final(self).order@),
            final(self).order@ == crate::graph::sort::kahn_sorted(final(self).edges@, final(self).nodes@.len()),
    {
        let id = self.add_node(operator);
        let ghost start = self.edges@;
        let ghost added = self.nodes@;
        let mut i: usize = 0;
        while i < sources.len()
            invariant
                i <= sources@.len(),
                self.wf(),
                self.nodes@ == added,
                id < added.len(),
                added.len() == id + 1,
                forall|j: int| 0 <= j < sources@.len() ==> #[trigger] sources@[j] <= id,
                start.len() + sources@.len() < usize::MAX,
                self.edges@ == start + sources@.take(i as int).map_values(
                    |s: usize| Edge { from: s, to: id },
                ),
            decreases sources@.len() - i,
        {
            self.add_edge(sources[i], id);
            proof {
                assert(self.edges@ =~= start + sources@.take(i + 1).map_values(
                    |s: usize| Edge { from: s, to: id },
                ));
            }
            i = i + 1;
        }
        proof {
            assert(sources@.take(i as int) =~= sources@);
        }
        let order = self.sort_order();
        let ghost sorted = *self;
        self.order = order;
        proof {
            lemma_wf_fields(sorted, *self);
            assert(self.edges@ == sorted.edges@);
            assert(self.nodes@.len() == sorted.nodes@.len());
        }
        id
    }

    /// The nodes whose degree is `degree`.
    pub fn get_nodes_in_degree(&self, degree: usize) -> (r: BTreeSet<usize>)
        requires
            self.wf(),
        ensures
            forall|v: usize| r@.contains(v) <==> (v < self.nodes@.len() && self.degrees@[v] == degree),
    {
        match self.nodes_in_degree.get(&degree) {
            Some(nodes) => nodes.clone(),
            None => {
                let r = BTreeSet::new();
                proof {
                    assert forall|v: usize| r@.contains(v) <==> (v < self.nodes@.len()
                        && self.degrees@[v] == degree) by {
                        if v < self.nodes@.len() && self.degrees@[v] == degree {
                            assert(self.nodes_in_degree@.contains_key(degree));
                        }
                    }
                }
                r
            },
        }
    }

    /// Whether the node `v` is a leaf: a node with no edge from it.
    pub open spec fn is_leaf(self, v: usize) -> bool {
        v < self.nodes@.len() && self.targets@[v]@.is_empty()
    }

    /// The leaves among the first `k` nodes, in increasing order.
    pub open spec fn leaves_upto(self, k: int) -> Seq<usize>
        decreases k,
    {
        if k <= 0 {
            Seq::empty()
        } else {
            let before = self.leaves_upto(k - 1);
            if self.is_leaf((k - 1) as usize) {
                before.push((k - 1) as usize)
            } else {
                before
            }
        }
    }

    /// The indices of the leaves of the graph, in increasing order.
    pub fn leaf_indices(&self) -> (r: Vec<usize>)
        requires
            self.wf(),
        ensures
            r@ == self.leaves_upto(self.nodes@.len() as int),
    {
        let mut r: Vec<usize> = Vec::new();
        let mut i: usize = 0;
        while i < self.nodes.len()
            invariant
                i <= self.nodes@.len(),
                self.wf(),
                r@ == self.leaves_upto(i as int),
            decreases self.nodes@.len() - i,
        {
            let targets = self.targets.get(&i).unwrap();
            if targets.is_empty() {
                r.push(i);
            }
            i = i + 1;
        }
        r
    }

    /// The leaves of the graph, in increasing order of their index.
    pub fn leaves(&self) -> (r: Vec<&Node>)
        requires
            self.wf(),
        ensures
            r@.len() == self.leaves_upto(self.nodes@.len() as int).len(),
            forall|i: int|
                0 <= i < r@.len() ==> *#[trigger] r@[i] == self.nodes@[self.leaves_upto(
                    self.nodes@.len() as int,
                )[i] as int],
    {
        let indices = self.leaf_indices();
        proof {
            assert forall|i: int| 0 <= i < indices@.len() implies #[trigger] indices@[i] < self.nodes@.len() by {
                lemma_leaves_upto_bound(*self, self.nodes@.len() as int, i);
            }
        }
        let mut r: Vec<&Node> = Vec::new();
        let mut i: usize = 0;
        while i < indices.len()
            invariant
                i <= indices@.len(),
                forall|j: int| 0 <= j < indices@.len() ==> #[trigger] indices@[j] < self.nodes@.len(),
                r@.len() == i,
                forall|j: int| 0 <= j < i ==> *#[trigger] r@[j] == self.nodes@[indices@[j] as int],
            decreases indices@.len() - i,
        {
            r.push(&self.nodes[indices[i]]);
            i = i + 1;
        }
        r
    }

    /// The targets of `v` in increasing order; none when `v` is no node of the graph.
    pub fn targets_of(&self, v: usize) -> (r: Vec<usize>)
        requires
            self.wf(),
        ensures
            v < self.nodes@.len() ==> r@.to_set() == self.targets@[v]@,
            v >= self.nodes@.len() ==> r@.len() == 0,
            forall|i: int, j: int| 0 <= i < j < r@.len() ==> r@[i] < r@[j],
    {
        match self.targets.get(&v) {
            Some(targets) => crate::graph::order::sorted_elements(targets),
            None => Vec::new(),
        }
    }

    /// The nodes of degree 0, in increasing order: where an evaluation of the whole graph
    /// starts.
    pub fn evaluation_roots(&self) -> (queue: VecDeque<usize>)
        requires
            self.wf(),
        ensures
            forall|v: usize| queue@.contains(v) <==> (v < self.nodes@.len() && self.degrees@[v] == 0),
            forall|i: int, j: int| 0 <= i < j < queue@.len() ==> queue@[i] < queue@[j],
    {
        let roots = self.get_nodes_in_degree(0);
        let sorted = crate::graph::order::sorted_elements(&roots);
        let mut queue: VecDeque<usize> = VecDeque::new();
        let mut i: usize = 0;
        while i < sorted.len()
            invariant
                i <= sorted@.len(),
                queue@ == sorted@.take(i as int),
            decreases sorted@.len() - i,
        {
            queue.push_back(sorted[i]);
            assert(queue@ =~= sorted@.take(i + 1));
            i = i + 1;
        }
        assert(sorted@.take(i as int) =~= sorted@);
        proof {
            assert forall|v: usize| queue@.contains(v) <==> (v < self.nodes@.len() && self.degrees@[v]
                == 0) by {
                assert(queue@.contains(v) <==> sorted@.to_set().contains(v));
            }
        }
        queue
    }

    /// One step of an evaluation: take the node at the front of `queue`, to be evaluated
    /// next, and queue its targets behind, in increasing order. Gives nothing when the
    /// queue is empty.
    pub fn evaluation_step(&self, queue: &mut VecDeque<usize>) -> (next: Option<usize>)
        requires
            self.wf(),
        ensures
            old(queue)@.len() == 0 ==> next is None && final(queue)@ == old(queue)@,
            old(queue)@.len() > 0 ==> {
                let rest = old(queue)@.drop_first();
                let appended = final(queue)@.skip(rest.len() as int);
                &&& next == Some(old(queue)@[0])
                &&& final(queue)@ == rest + appended
                &&& (old(queue)@[0] < self.nodes@.len() ==> appended.to_set() == self.targets@[old(
                    queue,
                )@[0]]@)
                &&& (old(queue)@[0] >= self.nodes@.len() ==> appended.len() == 0)
                &&& forall|i: int, j: int| 0 <= i < j < appended.len() ==> appended[i] < appended[j]
            },
    {
        match queue.pop_front() {
            Some(index) => {
                let targets = self.targets_of(index);
                let ghost rest = queue@;
                assert(rest =~= old(queue)@.drop_first());
                let mut i: usize = 0;
                while i < targets.len()
                    invariant
                        i <= targets@.len(),
                        queue@ == rest + targets@.take(i as int),
                    decreases targets@.len() - i,
                {
                    queue.push_back(targets[i]);
                    assert(queue@ =~= rest + targets@.take(i + 1));
                    i = i + 1;
                }
                assert(targets@.take(i as int) =~= targets@);
                assert(queue@ == old(queue)@.drop_first() + targets@);
                assert(queue@.skip(rest.len() as int) =~= targets@);
                Some(index)
            },
            None => None,
        }
    }

    /// The pulse that the node `index` receives: the pulses of its sources, in increasing
    /// order of their index, merged together. Nothing when there is no such node.
    pub fn get_pulse(&self, index: usize) -> (r: Option<Pulse>)
        requires
            self.wf(),
        ensures
            index >= self.nodes@.len() ==> r is None,
            index < self.nodes@.len() ==> exists|sources: Seq<usize>|
                {
                    &&& sources.to_set() == self.sources@[index]@
                    &&& (forall|i: int, j: int| 0 <= i < j < sources.len() ==> sources[i] < sources[j])
                    &&& r matches Some(pulse) && merged(
                        flatten(
                            sources.map_values(|s: usize| self.nodes@[s as int].pulse),
                        ),
                        pulse,
                    )
                },
    {
        match self.sources.get(&index) {
            Some(source_set) => {
                let sources = crate::graph::order::sorted_elements(source_set);
                proof {
                    assert forall|i: int| 0 <= i < sources@.len() implies #[trigger] sources@[i]
                        < self.nodes@.len() by {
                        assert(sources@.to_set().contains(sources@[i]));
                        let k = choose|k: int|
                            0 <= k < self.edges@.len() && self.edges@[k] == (Edge {
                                from: sources@[i],
                                to: index,
                            });
                        assert(self.edges@[k].from < self.nodes@.len());
                    }
                }
                let ghost source_pulses = sources@.map_values(|s: usize| self.nodes@[s as int].pulse);
                let mut pulses: Vec<Pulse> = Vec::new();
                let mut i: usize = 0;
                while i < sources.len()
                    invariant
                        i <= sources@.len(),
                        forall|j: int| 0 <= j < sources@.len() ==> #[trigger] sources@[j] < self.nodes@.len(),
                        source_pulses == sources@.map_values(|s: usize| self.nodes@[s as int].pulse),
                        pulses@.len() == i,
                        forall|j: int| 0 <= j < i ==> #[trigger] same_pulse(pulses@[j], source_pulses[j]),
                    decreases sources@.len() - i,
                {
                    pulses.push(self.nodes[sources[i]].pulse.copy());
                    i = i + 1;
                }
                proof {
                    lemma_flatten_same(pulses@, source_pulses);
                }
                let ghost copies = flatten(pulses@);
                let pulse = Pulse::merge(pulses);
                proof {
                    assert(merged(flatten(source_pulses), pulse));
                }
                Some(pulse)
            },
            None => None,
        }
    }

    /// Store `pulse` as the pulse of the node `index`, as its evaluation gave it.
    pub fn set_pulse(&mut self, index: usize, pulse: Pulse)
        requires
            index < old(self).nodes@.len(),
        ensures
            final(self).nodes@.len() == old(self).nodes@.len(),
            final(self).nodes@[index as int] == (Node {
                operator: old(self).nodes@[index as int].operator,
                pulse,
            }),
            forall|i: int|
                0 <= i < old(self).nodes@.len() && i != index ==> final(self).nodes@[i]
                    == old(self).nodes@[i],
            final(self).edges == old(self).edges,
            final(self).targets == old(self).targets,
            final(self).sources == old(self).sources,
            final(self).degrees == old(self).degrees,
            final(self).nodes_in_degree == old(self).nodes_in_degree,
            final(self).order == old(self).order,
            old(self).wf() ==> final(self).wf(),
    {
        let node = self.nodes.remove(index);
        let Node { operator, pulse: _ } = node;
        self.nodes.insert(index, Node { operator, pulse });
        proof {
            if old(self).wf() {
                lemma_wf_fields(*old(self), *self);
            }
        }
    }

    /// `order` lists distinct nodes of the graph, each after the sources of all the edges
    /// that end at it; a node that it leaves out has an edge to it from another node left
    /// out (so that every node left out is reached from a cycle).
    pub open spec fn topological_order(self, order: Seq<usize>) -> bool {
        let n = self.nodes@.len();
        &&& order.no_duplicates()
        &&& forall|i: int| 0 <= i < order.len() ==> #[trigger] order[i] < n
        &&& forall|i: int, k: int|
            0 <= i < order.len() && 0 <= k < self.edges@.len() && #[trigger] self.edges@[k].to
                == #[trigger] order[i] ==> exists|j: int| 0 <= j < i && order[j] == self.edges@[k].from
        &&& forall|v: usize|
            v < n && !order.contains(v) ==> exists|k: int|
                0 <= k < self.edges@.len() && self.edges@[k].to == v && !order.contains(
                    self.edges@[k].from,
                )
    }

    /// Sort the nodes in topological order: starting from the nodes of degree 0, in
    /// increasing order, each node taken from the front of a queue is ordered and lowers
    /// the degree of the nodes that it has an edge to, in the order of the edges; a node
    /// whose degree reaches 0 is queued.
    pub fn sort_order(&self) -> (order: Vec<usize>)
        requires
            self.wf(),
        ensures
            self.topological_order(order@),
            order@ == crate::graph::sort::kahn_sorted(self.edges@, self.nodes@.len()),
    {
        crate::graph::sort::kahn_order(self)
    }
}

/// Well-formedness depends on the number of nodes, not on what they hold.
pub(crate) proof fn lemma_wf_fields(a: Graph, b: Graph)
    requires
        a.wf(),
        a.nodes@.len() == b.nodes@.len(),
        a.edges@ == b.edges@,
        a.targets@ == b.targets@,
        a.sources@ == b.sources@,
        a.degrees@ == b.degrees@,
        a.nodes_in_degree@ == b.nodes_in_degree@,
    ensures
        b.wf(),
{
}

proof fn lemma_in_degree_beyond(edges: Seq<Edge>, v: usize)
    requires
        forall|i: int| 0 <= i < edges.len() ==> (#[trigger] edges[i]).to < v,
    ensures
        in_degree(edges, v) == 0,
    decreases edges.len(),
{
    if edges.len() > 0 {
        assert(edges.last() == edges[edges.len() - 1]);
        lemma_in_degree_beyond(edges.drop_last(), v);
    }
}

proof fn lemma_in_degree_bound(edges: Seq<Edge>, v: usize)
    ensures
        in_degree(edges, v) <= edges.len(),
    decreases edges.len(),
{
    if edges.len() > 0 {
        lemma_in_degree_bound(edges.drop_last(), v);
    }
}

proof fn lemma_has_edge_push(edges: Seq<Edge>, e: Edge, u: usize, v: usize)
    ensures
        has_edge(edges.push(e), u, v) <==> (has_edge(edges, u, v) || e == (Edge { from: u, to: v })),
{
    let pushed = edges.push(e);
    if has_edge(pushed, u, v) && e != (Edge { from: u, to: v }) {
        let k = choose|k: int| 0 <= k < pushed.len() && pushed[k] == (Edge { from: u, to: v });
        assert(edges[k] == pushed[k]);
    }
    if has_edge(edges, u, v) {
        let k = choose|k: int| 0 <= k < edges.len() && edges[k] == (Edge { from: u, to: v });
        assert(pushed[k] == edges[k]);
    }
    if e == (Edge { from: u, to: v }) {
        assert(pushed[edges.len() as int] == e);
    }
}

proof fn lemma_leaves_upto_bound(g: Graph, k: int, i: int)
    requires
        0 <= i < g.leaves_upto(k).len(),
    ensures
        g.leaves_upto(k)[i] < k,
        g.is_leaf(g.leaves_upto(k)[i]),
    decreases k,
{
    if k > 0 {
        if i < g.leaves_upto(k - 1).len() {
            lemma_leaves_upto_bound(g, k - 1, i);
        }
    }
}


/// Each edge is seen from both of its ends: a node lists `v` among its targets exactly when
/// `v` lists it among its sources.
pub proof fn lemma_targets_mirror_sources(g: Graph, u: usize, v: usize)
    requires
        g.wf(),
        u < g.nodes@.len(),
        v < g.nodes@.len(),
    ensures
        g.targets@[u]@.contains(v) <==> g.sources@[v]@.contains(u),
{
}

/// The degree of a node counts the edges that end at it, so a node that some edge ends at
/// has a degree above 0.
pub proof fn lemma_edge_raises_degree(g: Graph, k: int)
    requires
        g.wf(),
        0 <= k < g.edges@.len(),
    ensures
        g.degrees@[g.edges@[k].to] > 0,
{
    lemma_in_degree_positive(g.edges@, k);
}

/// A topological order of the graph holds every node of degree 0: nothing can come before
/// such a node.
pub proof fn lemma_order_holds_roots(g: Graph, order: Seq<usize>, v: usize)
    requires
        g.wf(),
        g.topological_order(order),
        v < g.nodes@.len(),
        g.degrees@[v] == 0,
    ensures
        order.contains(v),
{
    if !order.contains(v) {
        let k = choose|k: int|
            0 <= k < g.edges@.len() && g.edges@[k].to == v && !order.contains(g.edges@[k].from);
        lemma_in_degree_positive(g.edges@, k);
    }
}

proof fn lemma_in_degree_positive(edges: Seq<Edge>, k: int)
    requires
        0 <= k < edges.len(),
    ensures
        in_degree(edges, edges[k].to) > 0,
    decreases edges.len(),
{
    if k < edges.len() - 1 {
        lemma_in_degree_positive(edges.drop_last(), k);
        assert(edges.drop_last()[k] == edges[k]);
    }
}

/// In a topological order, every edge between two ordered nodes goes forward: its source
/// comes before its target.
pub proof fn lemma_order_edges_forward(g: Graph, order: Seq<usize>, k: int, i: int)
    requires
        g.wf(),
        g.topological_order(order),
        0 <= k < g.edges@.len(),
        0 <= i < order.len(),
        order[i] == g.edges@[k].to,
    ensures
        exists|j: int| 0 <= j < i && order[j] == g.edges@[k].from,
{
}

/// A graph without cycles is ordered whole: where a rank of the nodes rises along every
/// edge, a topological order of the graph holds every node.
pub proof fn lemma_acyclic_order_complete(g: Graph, order: Seq<usize>, rank: spec_fn(usize) -> nat, v: usize)
    requires
        g.wf(),
        g.topological_order(order),
        forall|k: int| 0 <= k < g.edges@.len() ==> rank(#[trigger] g.edges@[k].from) < rank(g.edges@[k].to),
        v < g.nodes@.len(),
    ensures
        order.contains(v),
    decreases rank(v),
{
    if !order.contains(v) {
        let k = choose|k: int|
            0 <= k < g.edges@.len() && g.edges@[k].to == v && !order.contains(g.edges@[k].from);
        let u = g.edges@[k].from;
        assert(rank(u) < rank(v));
        lemma_acyclic_order_complete(g, order, rank, u);
    }
}
} // verus!
