//! The citation graph, stored as reverse adjacency (node to the nodes citing
//! it) with an out-degree counter kept beside it.
use std::collections::HashMap;
use vstd::prelude::*;
use vstd::string::StringExecFns;

use crate::decimal::{decimal, push_decimal};

verus! {

broadcast use vstd::std_specs::hash::group_hash_axioms;

/// The abstract content of a citation graph.
///
/// `nodes` lists every node once, in order of first appearance; `preds` maps
/// each node to the nodes that cite it, one entry per citation, in insertion
/// order; `out_degree` maps each node to the number of citations it makes.
pub struct NetworkModel {
    pub nodes: Seq<usize>,
    pub preds: Map<usize, Seq<usize>>,
    pub out_degree: Map<usize, nat>,
}

impl NetworkModel {
    /// The graph without nodes or edges.
    pub open spec fn empty() -> NetworkModel {
        NetworkModel { nodes: Seq::empty(), preds: Map::empty(), out_degree: Map::empty() }
    }

    /// Nodes are listed once each, and exactly the listed nodes have entries.
    pub open spec fn wf(self) -> bool {
        &&& self.nodes.no_duplicates()
        &&& forall|v: usize| #[trigger] self.preds.contains_key(v) <==> self.nodes.contains(v)
        &&& forall|v: usize| #[trigger] self.out_degree.contains_key(v) <==> self.nodes.contains(v)
    }

    /// Makes `v` a node, with no edges, unless it is one already.
    pub open spec fn add_node(self, v: usize) -> NetworkModel {
        if self.nodes.contains(v) {
            self
        } else {
            NetworkModel {
                nodes: self.nodes.push(v),
                preds: self.preds.insert(v, Seq::empty()),
                out_degree: self.out_degree.insert(v, 0),
            }
        }
    }

    /// Records that `from` cites `to`.
    pub open spec fn add_edge(self, from: usize, to: usize) -> NetworkModel {
        let m = self.add_node(to).add_node(from);
        NetworkModel {
            nodes: m.nodes,
            preds: m.preds.insert(to, m.preds[to].push(from)),
            out_degree: m.out_degree.insert(from, m.out_degree[from] + 1),
        }
    }

    /// The number of nodes.
    pub open spec fn size(self) -> nat {
        self.nodes.len()
    }

    /// The in-degree of `v`.
    pub open spec fn in_degree(self, v: usize) -> nat {
        self.preds[v].len()
    }

    /// The sum of the in-degrees of the first `k` nodes.
    pub open spec fn in_degree_sum(self, k: nat) -> nat
        decreases k,
    {
        if k == 0 || k > self.nodes.len() {
            0
        } else {
            self.in_degree_sum((k - 1) as nat) + self.in_degree(self.nodes[k - 1])
        }
    }

    /// The number of edges: the sum of all in-degrees.
    pub open spec fn num_edges(self) -> nat {
        self.in_degree_sum(self.nodes.len())
    }

    /// The nodes that cite nothing, in node order.
    pub open spec fn sinks(self) -> Seq<usize> {
        self.nodes.filter(|v: usize| self.out_degree[v] == 0)
    }
}

/// The graph that a new network holds after `add_edge(es[0].0, es[0].1)`,
/// `add_edge(es[1].0, es[1].1)`, and so on, in that order.
pub open spec fn built(es: Seq<(usize, usize)>) -> NetworkModel
    decreases es.len(),
{
    if es.len() == 0 {
        NetworkModel::empty()
    } else {
        built(es.drop_last()).add_edge(es.last().0, es.last().1)
    }
}

/// The identifiers that occur in `es` as the citing or the cited end.
pub open spec fn endpoints(es: Seq<(usize, usize)>) -> Set<usize> {
    Set::new(|v: usize| exists|i: int| 0 <= i < es.len() && #[trigger] touches(es[i], v))
}

/// `v` is one of the two ends of edge `e`.
pub open spec fn touches(e: (usize, usize), v: usize) -> bool {
    e.0 == v || e.1 == v
}

/// Adding an edge keeps the model well formed, adds one edge, and adds its
/// two ends to the nodes.
pub proof fn lemma_add_edge(m: NetworkModel, from: usize, to: usize)
    requires
        m.wf(),
    ensures
        m.add_edge(from, to).wf(),
        m.add_edge(from, to).num_edges() == m.num_edges() + 1,
        m.add_edge(from, to).nodes.to_set() == m.nodes.to_set().insert(to).insert(from),
{
    let m1 = m.add_node(to);
    let m2 = m1.add_node(from);
    lemma_add_node(m, to);
    lemma_add_node(m1, from);
    assert(m2.nodes.contains(to)) by {
        if !m1.nodes.contains(from) {
            assert(m2.nodes[m1.nodes.index_of(to)] == to);
        }
    }
    lemma_cite(m2, from, to, m2.out_degree.insert(from, m2.out_degree[from] + 1));
    assert(m1.nodes.to_set() =~= m.nodes.to_set().insert(to)) by {
        if !m.nodes.contains(to) {
            assert forall|w: usize| m1.nodes.contains(w) <==> (m.nodes.contains(w) || w == to) by {
                if m.nodes.contains(w) {
                    assert(m1.nodes[m.nodes.index_of(w)] == w);
                }
                if m1.nodes.contains(w) && w != to {
                    assert(m.nodes[m1.nodes.index_of(w)] == w);
                }
            }
        }
    }
    assert(m2.nodes.to_set() =~= m1.nodes.to_set().insert(from)) by {
        if !m1.nodes.contains(from) {
            assert forall|w: usize| m2.nodes.contains(w) <==> (m1.nodes.contains(w) || w == from) by {
                if m1.nodes.contains(w) {
                    assert(m2.nodes[m1.nodes.index_of(w)] == w);
                }
                if m2.nodes.contains(w) && w != from {
                    assert(m1.nodes[m2.nodes.index_of(w)] == w);
                }
            }
        }
    }
}

/// The nodes of a graph built from a list of edges are exactly the
/// identifiers that occur in the list, so `size` counts the distinct
/// identifiers among the ends of all added edges.
pub proof fn lemma_size_counts_endpoints(es: Seq<(usize, usize)>)
    ensures
        built(es).wf(),
        built(es).nodes.to_set() == endpoints(es),
        built(es).size() == endpoints(es).len(),
    decreases es.len(),
{
    if es.len() == 0 {
        assert(built(es).nodes.to_set() =~= endpoints(es));
    } else {
        let prev = es.drop_last();
        let from = es.last().0;
        let to = es.last().1;
        lemma_size_counts_endpoints(prev);
        lemma_add_edge(built(prev), from, to);
        assert forall|v: usize| #[trigger] endpoints(es).contains(v) implies (endpoints(prev).contains(v)
            || v == from || v == to) by {
            let i = choose|i: int| 0 <= i < es.len() && #[trigger] touches(es[i], v);
            if i < prev.len() {
                assert(prev[i] == es[i]);
                assert(touches(prev[i], v));
            } else {
                assert(es[i] == es.last());
            }
        }
        assert forall|v: usize| #[trigger] endpoints(prev).contains(v) implies endpoints(es).contains(v) by {
            let i = choose|i: int| 0 <= i < prev.len() && #[trigger] touches(prev[i], v);
            assert(es[i] == prev[i]);
            assert(touches(es[i], v));
        }
        assert(es[es.len() - 1].0 == from && es[es.len() - 1].1 == to);
        assert(touches(es[es.len() - 1], from) && touches(es[es.len() - 1], to));
        assert(endpoints(es).contains(from));
        assert(endpoints(es).contains(to));
        assert(built(es).nodes.to_set() =~= endpoints(es));
    }
    built(es).nodes.unique_seq_to_set();
}

/// The citing ends of the edges of `es` that cite `v`, in list order.
pub open spec fn citers(es: Seq<(usize, usize)>, v: usize) -> Seq<usize>
    decreases es.len(),
{
    if es.len() == 0 {
        Seq::empty()
    } else if es.last().1 == v {
        citers(es.drop_last(), v).push(es.last().0)
    } else {
        citers(es.drop_last(), v)
    }
}

/// The number of edges of `es` whose citing end is `v`.
pub open spec fn citations_by(es: Seq<(usize, usize)>, v: usize) -> nat
    decreases es.len(),
{
    if es.len() == 0 {
        0
    } else if es.last().0 == v {
        citations_by(es.drop_last(), v) + 1
    } else {
        citations_by(es.drop_last(), v)
    }
}

/// An identifier that is no end of any edge has no citer and cites nothing.
proof fn lemma_absent_has_no_edges(es: Seq<(usize, usize)>, v: usize)
    requires
        !endpoints(es).contains(v),
    ensures
        citers(es, v).len() == 0,
        citations_by(es, v) == 0,
    decreases es.len(),
{
    if es.len() > 0 {
        let prev = es.drop_last();
        assert(es[es.len() - 1] == es.last());
        assert(!endpoints(prev).contains(v)) by {
            if endpoints(prev).contains(v) {
                let i = choose|i: int| 0 <= i < prev.len() && #[trigger] touches(prev[i], v);
                assert(es[i] == prev[i]);
                assert(touches(es[i], v));
            }
        }
        lemma_absent_has_no_edges(prev, v);
        assert(!touches(es.last(), v)) by {
            if touches(es[es.len() - 1], v) {
                assert(endpoints(es).contains(v));
            }
        }
    }
}

/// In a graph built from a list of edges, each node's predecessors are the
/// citers of that node in list order, and its out-degree is the number of
/// edges it is the citing end of.
pub proof fn lemma_edges_recorded(es: Seq<(usize, usize)>)
    ensures
        forall|v: usize| #[trigger]
            built(es).nodes.contains(v) ==> built(es).preds[v] == citers(es, v)
                && built(es).out_degree[v] == citations_by(es, v),
    decreases es.len(),
{
    if es.len() > 0 {
        let prev = es.drop_last();
        let from = es.last().0;
        let to = es.last().1;
        let m = built(prev);
        let m1 = m.add_node(to);
        let m2 = m1.add_node(from);
        lemma_edges_recorded(prev);
        lemma_size_counts_endpoints(prev);
        lemma_add_node(m, to);
        lemma_add_node(m1, from);
        assert forall|v: usize| #[trigger] m2.nodes.contains(v) implies m2.preds[v] == citers(prev, v)
            && m2.out_degree[v] == citations_by(prev, v) by {
            if m.nodes.contains(v) {
                assert(m.preds[v] == citers(prev, v));
                assert(m1.nodes[m.nodes.index_of(v)] == v);
                assert(m1.preds[v] == m.preds[v]);
                assert(m2.nodes[m1.nodes.index_of(v)] == v);
                assert(m2.preds[v] == m.preds[v]);
                assert(m2.out_degree[v] == m.out_degree[v]);
            } else {
                assert(!m.nodes.to_set().contains(v));
                lemma_absent_has_no_edges(prev, v);
                assert(citers(prev, v) =~= Seq::empty());
                if !m1.nodes.contains(v) {
                    assert(v == from);
                }
            }
        }
    }
}

/// Each added edge counts once in `num_edges`, repeated citations included.
pub proof fn lemma_num_edges_counts_insertions(es: Seq<(usize, usize)>)
    ensures
        built(es).num_edges() == es.len(),
    decreases es.len(),
{
    if es.len() > 0 {
        lemma_num_edges_counts_insertions(es.drop_last());
        lemma_size_counts_endpoints(es.drop_last());
        lemma_add_edge(built(es.drop_last()), es.last().0, es.last().1);
    }
}

/// Adding a node keeps the model well formed and adds no edge.
proof fn lemma_add_node(m: NetworkModel, v: usize)
    requires
        m.wf(),
    ensures
        m.add_node(v).wf(),
        m.add_node(v).num_edges() == m.num_edges(),
        m.add_node(v).nodes.contains(v),
{
    let m2 = m.add_node(v);
    if !m.nodes.contains(v) {
        assert(m2.nodes.last() == v);
        assert forall|k: nat| k <= m.nodes.len() implies m2.in_degree_sum(k) == m.in_degree_sum(k) by {
            lemma_add_node_prefix(m, v, k);
        }
        assert(m2.preds[v].len() == 0);
        assert forall|w: usize| m2.nodes.contains(w) <==> (m.nodes.contains(w) || w == v) by {
            if m.nodes.contains(w) {
                assert(m2.nodes[m.nodes.index_of(w)] == w);
            }
            if m2.nodes.contains(w) && w != v {
                assert(m.nodes[m2.nodes.index_of(w)] == w);
            }
        }
        assert(m2.nodes.no_duplicates()) by {
            assert forall|i: int, j: int| 0 <= i < j < m2.nodes.len() implies m2.nodes[i] != m2.nodes[j] by {
                if j == m.nodes.len() {
                    assert(m.nodes.contains(m.nodes[i]));
                }
            }
        }
    }
}

proof fn lemma_add_node_prefix(m: NetworkModel, v: usize, k: nat)
    requires
        m.wf(),
        !m.nodes.contains(v),
        k <= m.nodes.len(),
    ensures
        m.add_node(v).in_degree_sum(k) == m.in_degree_sum(k),
    decreases k,
{
    if k > 0 {
        lemma_add_node_prefix(m, v, (k - 1) as nat);
        assert(m.nodes.contains(m.nodes[k - 1]));
    }
}

/// One more citation of an existing node adds one edge.
proof fn lemma_cite(m: NetworkModel, from: usize, to: usize, od: Map<usize, nat>)
    requires
        m.wf(),
        m.nodes.contains(to),
    ensures
        (NetworkModel {
            nodes: m.nodes,
            preds: m.preds.insert(to, m.preds[to].push(from)),
            out_degree: od,
        }).num_edges() == m.num_edges() + 1,
{
    let p = m.nodes.index_of(to);
    lemma_cite_prefix(m, from, to, od, p, m.nodes.len());
}

proof fn lemma_cite_prefix(m: NetworkModel, from: usize, to: usize, od: Map<usize, nat>, p: int, k: nat)
    requires
        m.wf(),
        0 <= p < m.nodes.len(),
        m.nodes[p] == to,
        k <= m.nodes.len(),
    ensures
        (NetworkModel {
            nodes: m.nodes,
            preds: m.preds.insert(to, m.preds[to].push(from)),
            out_degree: od,
        }).in_degree_sum(k) == m.in_degree_sum(k) + (if k > p { 1int } else { 0int }),
    decreases k,
{
    if k > 0 {
        lemma_cite_prefix(m, from, to, od, p, (k - 1) as nat);
        assert(m.nodes.contains(m.nodes[k - 1]));
    }
}

/// A citation graph.
pub struct CitationNetwork {
    /// Position of each node in `ids`.
    index: HashMap<usize, usize>,
    /// The nodes, in order of first appearance.
    ids: Vec<usize>,
    /// For the node at each position, the nodes that cite it.
    in_edges: Vec<Vec<usize>>,
    /// For the node at each position, the number of citations it makes.
    out_degrees: Vec<usize>,
    /// The number of edges.
    edge_count: usize,
}

impl View for CitationNetwork {
    type V = NetworkModel;

    closed spec fn view(&self) -> NetworkModel {
        NetworkModel {
            nodes: self.ids@,
            preds: Map::new(
                |v: usize| self.index@.contains_key(v),
                |v: usize| self.in_edges@[self.index@[v] as int]@,
            ),
            out_degree: Map::new(
                |v: usize| self.index@.contains_key(v),
                |v: usize| self.out_degrees@[self.index@[v] as int] as nat,
            ),
        }
    }
}

impl CitationNetwork {
    /// The internal invariant: the index and the per-position tables agree
    /// with the node list, and the edge counter is the sum of in-degrees.
    pub closed spec fn wf(&self) -> bool {
        &&& self.in_edges@.len() == self.ids@.len()
        &&& self.out_degrees@.len() == self.ids@.len()
        &&& forall|v: usize| #[trigger]
            self.index@.contains_key(v) ==> {
                &&& self.index@[v] < self.ids@.len()
                &&& self.ids@[self.index@[v] as int] == v
            }
        &&& forall|i: int|
            0 <= i < self.ids@.len() ==> {
                &&& #[trigger] self.index@.contains_key(self.ids@[i])
                &&& self.index@[self.ids@[i]] == i
            }
        &&& forall|i: int| 0 <= i < self.ids@.len() ==> #[trigger] self.out_degrees@[i] <= self.edge_count
        &&& self.edge_count == self@.num_edges()
        &&& self@.wf()
    }

    /// The model of a network in order is itself in order.
    pub proof fn lemma_model_wf(&self)
        requires
            self.wf(),
        ensures
            self@.wf(),
    {
    }

    /// Creates an empty network.
    pub fn new() -> (r: CitationNetwork)
        ensures
            r.wf(),
            r@ == NetworkModel::empty(),
    {
        let r = CitationNetwork {
            index: HashMap::new(),
            ids: Vec::new(),
            in_edges: Vec::new(),
            out_degrees: Vec::new(),
            edge_count: 0,
        };
        assert(r@.preds =~= Map::empty());
        assert(r@.out_degree =~= Map::empty());
        r
    }

    /// Returns the position of `v`, adding it as a node without edges if it
    /// is not one yet.
    fn ensure_node(&mut self, v: usize) -> (p: usize)
        requires
            old(self).wf(),
        ensures
            final(self).wf(),
            final(self)@ == old(self)@.add_node(v),
            p < final(self).ids@.len(),
            final(self).ids@[p as int] == v,
            final(self).edge_count == old(self).edge_count,
    {
        proof {
            lemma_add_node(self@, v);
        }
        match self.index.get(&v) {
            Some(p) => {
                assert(self.ids@.contains(v)) by {
                    assert(self.ids@[self.index@[v] as int] == v);
                }
                *p
            },
            None => {
                let ghost m = self@;
                assert(!self.ids@.contains(v));
                let p = self.ids.len();
                self.index.insert(v, p);
                self.ids.push(v);
                self.in_edges.push(Vec::new());
                self.out_degrees.push(0);
                assert(self@.preds =~= m.add_node(v).preds);
                assert(self@.out_degree =~= m.add_node(v).out_degree);
                assert(self@ == m.add_node(v));
                p
            },
        }
    }

    /// Records that `from` cites `to`, adding either as a node if needed.
    /// Repeated citations are kept, each as its own edge.
    pub fn add_edge(&mut self, from: usize, to: usize)
        requires
            old(self).wf(),
            old(self)@.num_edges() < usize::MAX,
        ensures
            final(self).wf(),
            final(self)@ == old(self)@.add_edge(from, to),
            final(self)@.num_edges() == old(self)@.num_edges() + 1,
    {
        let t = self.ensure_node(to);
        let f = self.ensure_node(from);
        let ghost m = self@;
        assert(m.nodes[t as int] == to);
        assert(m.nodes.contains(to));
        self.in_edges[t].push(from);
        self.out_degrees[f] = self.out_degrees[f] + 1;
        self.edge_count = self.edge_count + 1;
        proof {
            lemma_add_edge(old(self)@, from, to);
            lemma_cite(m, from, to, m.out_degree.insert(from, m.out_degree[from] + 1));
            assert forall|v: usize| #[trigger] self.index@.contains_key(v) && v != to implies self.index@[v] != t by {
                assert(self.ids@[self.index@[v] as int] == v);
            }
            assert forall|v: usize| #[trigger] self.index@.contains_key(v) && v != from implies self.index@[v] != f by {
                assert(self.ids@[self.index@[v] as int] == v);
            }
            assert(self@.preds =~= m.preds.insert(to, m.preds[to].push(from)));
            assert(self@.out_degree =~= m.out_degree.insert(from, m.out_degree[from] + 1));
            assert(self@.nodes == m.nodes);
            assert(self@ == old(self)@.add_edge(from, to));
        }
    }

    /// The number of nodes.
    pub fn size(&self) -> (r: usize)
        requires
            self.wf(),
        ensures
            r == self@.size(),
    {
        self.ids.len()
    }

    /// The number of edges, each repeated citation counted.
    pub fn num_edges(&self) -> (r: usize)
        requires
            self.wf(),
        ensures
            r == self@.num_edges(),
    {
        self.edge_count
    }

    /// The nodes, in order of first appearance.
    pub fn nodes(&self) -> (r: Vec<usize>)
        requires
            self.wf(),
        ensures
            r@ == self@.nodes,
    {
        let mut r: Vec<usize> = Vec::new();
        let mut i: usize = 0;
        while i < self.ids.len()
            invariant
                i <= self.ids@.len(),
                r@ == self.ids@.take(i as int),
            decreases self.ids@.len() - i,
        {
            r.push(self.ids[i]);
            i = i + 1;
            assert(r@ =~= self.ids@.take(i as int));
        }
        assert(r@ =~= self.ids@);
        r
    }

    /// Each node with the nodes that cite it, in node order.
    pub fn iter(&self) -> (r: Vec<(usize, &Vec<usize>)>)
        requires
            self.wf(),
        ensures
            r@.len() == self@.nodes.len(),
            forall|i: int|
                0 <= i < r@.len() ==> (#[trigger] r@[i]).0 == self@.nodes[i] && r@[i].1@ == self@.preds[
                    self@.nodes[i]
                ],
    {
        let mut r: Vec<(usize, &Vec<usize>)> = Vec::new();
        let mut i: usize = 0;
        while i < self.ids.len()
            invariant
                self.wf(),
                i <= self.ids@.len(),
                r@.len() == i,
                forall|k: int|
                    0 <= k < i ==> (#[trigger] r@[k]).0 == self@.nodes[k] && r@[k].1@ == self@.preds[
                        self@.nodes[k]
                    ],
            decreases self.ids@.len() - i,
        {
            assert(self.index@.contains_key(self.ids@[i as int]));
            r.push((self.ids[i], &self.in_edges[i]));
            i = i + 1;
        }
        r
    }

    /// The nodes that cite `vertex`, one entry per citation, in insertion
    /// order.
    pub fn edges(&self, vertex: usize) -> (r: &Vec<usize>)
        requires
            self.wf(),
            self@.nodes.contains(vertex),
        ensures
            r@ == self@.preds[vertex],
    {
        let p = self.position(vertex);
        &self.in_edges[p]
    }

    /// The number of citations that `vertex` makes.
    pub fn out_degree(&self, vertex: usize) -> (r: usize)
        requires
            self.wf(),
            self@.nodes.contains(vertex),
        ensures
            r == self@.out_degree[vertex],
    {
        let p = self.position(vertex);
        self.out_degrees[p]
    }

    /// The nodes that cite nothing, in node order. In PageRank their score
    /// is spread over all nodes.
    pub fn sink_nodes(&self) -> (r: Vec<usize>)
        requires
            self.wf(),
        ensures
            r@ == self@.sinks(),
    {
        let ghost pred = |v: usize| self@.out_degree[v] == 0;
        let mut r: Vec<usize> = Vec::new();
        let mut i: usize = 0;
        while i < self.ids.len()
            invariant
                self.wf(),
                pred == (|v: usize| self@.out_degree[v] == 0),
                i <= self.ids@.len(),
                r@ == self.ids@.take(i as int).filter(pred),
            decreases self.ids@.len() - i,
        {
            let ghost before = self.ids@.take(i as int);
            assert(self.ids@.take(i + 1).drop_last() =~= before);
            assert(self.index@.contains_key(self.ids@[i as int]));
            assert(pred(self.ids@[i as int]) == (self.out_degrees@[i as int] == 0));
            if self.out_degrees[i] == 0 {
                r.push(self.ids[i]);
            }
            assert(self.ids@.take(i + 1).last() == self.ids@[i as int]);
            assert(self.ids@.take(i + 1) == before.push(self.ids@[i as int]));
            proof { before.lemma_filter_push(self.ids@[i as int], pred); }
            assert(self.ids@.take(i + 1).filter(pred) == if pred(self.ids@[i as int]) {
                before.filter(pred).push(self.ids@[i as int])
            } else {
                before.filter(pred)
            });
            i = i + 1;
        }
        assert(self.ids@.take(i as int) =~= self.ids@);
        r
    }

    /// The position of an existing node.
    fn position(&self, vertex: usize) -> (p: usize)
        requires
            self.wf(),
            self@.nodes.contains(vertex),
        ensures
            p < self.ids@.len(),
            self.ids@[p as int] == vertex,
            self.index@.contains_key(vertex),
            self.index@[vertex] == p,
    {
        let ghost i = self.ids@.index_of(vertex);
        assert(self.index@.contains_key(self.ids@[i]));
        match self.index.get(&vertex) {
            Some(p) => *p,
            None => {
                assert(false);
                0
            },
        }
    }

    /// A one-line summary: `Nodes: {size} Edges: {num_edges}`.
    pub fn describe(&self) -> (r: String)
        requires
            self.wf(),
        ensures
            r@ == "Nodes: "@ + decimal(self@.size()) + " Edges: "@ + decimal(self@.num_edges()),
    {
        let mut r = String::from_str("Nodes: ");
        push_decimal(&mut r, self.size());
        r.append(" Edges: ");
        push_decimal(&mut r, self.num_edges());
        r
    }

    /// Whether `vertex` is a node of the network.
    pub fn contains(&self, vertex: usize) -> (r: bool)
        requires
            self.wf(),
        ensures
            r == self@.nodes.contains(vertex),
    {
        self.index.contains_key(&vertex)
    }
}

} // verus!
