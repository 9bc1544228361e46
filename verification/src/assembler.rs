//! Graph assembler: a directed reference graph over resolved identifiers.
//!
//! The underlying graph structure is petgraph's `Graph`; the assembler
//! adds the node-identity discipline: each identifier value maps to
//! exactly one node for the lifetime of the run, created at its first
//! encounter whether as source or destination. An O(1) table from value
//! to node index backs the lookup, and a mirror of the node weights in
//! insertion order lets the contracts speak of the graph's contents.

use vstd::prelude::*;
use crate::codec::{Identifier, ID_LIMIT};
use crate::resolver::id_list_has;
use petgraph::graph::DiGraph;

verus! {

#[verifier::external_type_specification]
#[verifier::external_body]
#[verifier::reject_recursive_types(N)]
#[verifier::reject_recursive_types(E)]
#[verifier::reject_recursive_types(Ty)]
#[verifier::reject_recursive_types(Ix)]
pub struct ExGraph<N, E, Ty, Ix>(petgraph::graph::Graph<N, E, Ty, Ix>);

#[verifier::external_type_specification]
#[verifier::external_body]
pub struct ExDirected(petgraph::Directed);

/// The node weights of the graph, in node-index order.
pub uninterp spec fn graph_nodes(g: DiGraph<usize, (), usize>) -> Seq<usize>;

/// The edges of the graph as (source index, target index) pairs, in
/// insertion order.
pub uninterp spec fn graph_edges(g: DiGraph<usize, (), usize>) -> Seq<(usize, usize)>;

/// The graph-description rendering of a graph with these nodes and edges.
pub uninterp spec fn dot_text_of(nodes: Seq<usize>, edges: Seq<(usize, usize)>) -> Seq<char>;

/// Relies on petgraph's Graph::with_capacity: the new graph has no nodes
/// and no edges.
#[verifier::external_body]
fn pg_new() -> (g: DiGraph<usize, (), usize>)
    ensures
        graph_nodes(g) == Seq::<usize>::empty(),
        graph_edges(g) == Seq::<(usize, usize)>::empty(),
{
    DiGraph::with_capacity(0, 0)
}

/// Relies on petgraph's Graph::add_node: appends one node holding the
/// given weight and returns its index, the previous node count; with a
/// `usize` index type the index limit cannot be reached.
#[verifier::external_body]
fn pg_add_node(g: &mut DiGraph<usize, (), usize>, w: usize) -> (i: usize)
    ensures
        graph_nodes(*final(g)) == graph_nodes(*old(g)).push(w),
        graph_edges(*final(g)) == graph_edges(*old(g)),
        i == graph_nodes(*old(g)).len(),
{
    g.add_node(w).index()
}

/// Relies on petgraph's Graph::add_edge: appends one directed edge from
/// `a` to `b`; it panics only when an endpoint is not a node, which the
/// precondition rules out, and parallel edges are kept, not merged.
#[verifier::external_body]
fn pg_add_edge(g: &mut DiGraph<usize, (), usize>, a: usize, b: usize)
    requires
        a < graph_nodes(*old(g)).len(),
        b < graph_nodes(*old(g)).len(),
    ensures
        graph_nodes(*final(g)) == graph_nodes(*old(g)),
        graph_edges(*final(g)) == graph_edges(*old(g)).push((a, b)),
{
    g.add_edge(
        petgraph::graph::NodeIndex::new(a),
        petgraph::graph::NodeIndex::new(b),
        (),
    );
}

/// Relies on petgraph's Graph::raw_edges: the edge list in insertion
/// order, each edge carrying its source and target node indices.
#[verifier::external_body]
fn pg_edge_list(g: &DiGraph<usize, (), usize>) -> (r: Vec<(usize, usize)>)
    ensures
        r@ == graph_edges(*g),
{
    g.raw_edges().iter().map(|e| (e.source().index(), e.target().index())).collect()
}

/// Relies on petgraph's Dot formatter, which renders the graph from its
/// node and edge lists alone, deterministically: nodes labeled by their
/// weights, edges unlabeled.
#[verifier::external_body]
fn pg_dot(g: &DiGraph<usize, (), usize>) -> (r: String)
    ensures
        r@ == dot_text_of(graph_nodes(*g), graph_edges(*g)),
{
    format!("{:?}", petgraph::dot::Dot::with_config(g, &[petgraph::dot::Config::EdgeNoLabel]))
}

/// The edge rows one record contributes: the source value paired with
/// each destination value, in destination order.
pub open spec fn rows_for(src: usize, dsts: Seq<Identifier>) -> Seq<(usize, usize)> {
    dsts.map_values(|d: Identifier| (src, d.value))
}

/// A directed reference graph under assembly.
pub struct GraphAssembler {
    g: DiGraph<usize, (), usize>,
    values: Vec<usize>,
    node_of: Vec<Option<usize>>,
}

impl GraphAssembler {
    /// The node weights (identifier values), in node creation order.
    pub closed spec fn nodes(self) -> Seq<usize> {
        self.values@
    }

    /// The edges as (source index, target index) pairs, in insertion order.
    pub closed spec fn edges(self) -> Seq<(usize, usize)> {
        graph_edges(self.g)
    }

    /// The edges as (source value, destination value) pairs.
    pub open spec fn edge_values(self) -> Seq<(usize, usize)> {
        self.edges().map_values(
            |e: (usize, usize)| (self.nodes()[e.0 as int], self.nodes()[e.1 as int]),
        )
    }

    /// Whether some node already carries the value `v`.
    pub open spec fn has_node(self, v: int) -> bool {
        exists|i: int| 0 <= i < self.nodes().len() && self.nodes()[i] == v
    }

    /// The node table is a bijection between present values and node
    /// indices, and every edge endpoint is a node.
    pub closed spec fn inv(self) -> bool {
        &&& self.node_of@.len() == ID_LIMIT
        &&& self.values@.len() <= usize::MAX
        &&& self.values@ == graph_nodes(self.g)
        &&& forall|i: int|
            0 <= i < self.values@.len() ==> (#[trigger] self.values@[i]) < ID_LIMIT
                && self.node_of@[self.values@[i] as int] == Some(i as usize)
        &&& forall|v: int|
            0 <= v < ID_LIMIT ==> ((#[trigger] self.node_of@[v]) matches Some(j) ==> (j as int)
                < self.values@.len() && self.values@[j as int] == v)
        &&& forall|k: int|
            0 <= k < graph_edges(self.g).len() ==> ((#[trigger] graph_edges(self.g)[k]).0 as int)
                < self.values@.len() && (graph_edges(self.g)[k].1 as int) < self.values@.len()
    }

    /// Every node value, and so every edge endpoint value, is in the
    /// identifier range.
    pub proof fn lemma_values_wf(self)
        requires
            self.inv(),
        ensures
            forall|i: int| 0 <= i < self.nodes().len() ==> (#[trigger] self.nodes()[i]) < ID_LIMIT,
            forall|k: int|
                0 <= k < self.edge_values().len() ==> ((#[trigger] self.edge_values()[k]).0 as int)
                    < ID_LIMIT && (self.edge_values()[k].1 as int) < ID_LIMIT,
    {
        assert forall|k: int| 0 <= k < self.edge_values().len() implies ((
        #[trigger] self.edge_values()[k]).0 as int) < ID_LIMIT && (self.edge_values()[k].1 as int)
            < ID_LIMIT by {
            assert((self.edges()[k].0 as int) < self.nodes().len());
            assert((self.edges()[k].1 as int) < self.nodes().len());
            assert(self.edge_values()[k] == (
                self.nodes()[self.edges()[k].0 as int],
                self.nodes()[self.edges()[k].1 as int],
            ));
        }
    }

    /// No duplicate nodes for the same identifier: two node positions
    /// never carry the same value.
    pub proof fn lemma_nodes_distinct(self)
        requires
            self.inv(),
        ensures
            forall|i: int, j: int|
                0 <= i < j < self.nodes().len() ==> self.nodes()[i] != self.nodes()[j],
    {
        assert forall|i: int, j: int| 0 <= i < j < self.nodes().len() implies self.nodes()[i]
            != self.nodes()[j] by {
            if self.nodes()[i] == self.nodes()[j] {
                assert(self.node_of@[self.values@[i] as int] == Some(i as usize));
                assert(self.node_of@[self.values@[j] as int] == Some(j as usize));
            }
        }
    }

    /// An empty assembler: no nodes, no edges.
    pub fn new() -> (r: GraphAssembler)
        ensures
            r.inv(),
            r.nodes() == Seq::<usize>::empty(),
            r.edges() == Seq::<(usize, usize)>::empty(),
    {
        let g = pg_new();
        let mut node_of: Vec<Option<usize>> = Vec::new();
        let mut k: usize = 0;
        while k < ID_LIMIT
            invariant
                0 <= k <= ID_LIMIT,
                node_of@.len() == k,
                forall|q: int| 0 <= q < k ==> (#[trigger] node_of@[q]) is None,
            decreases ID_LIMIT - k,
        {
            node_of.push(None);
            k = k + 1;
        }
        GraphAssembler { g, values: Vec::new(), node_of }
    }

    /// Return the node for this identifier, creating it at first
    /// encounter; one node per distinct value, ever.
    #[verifier::loop_isolation(false)]
    pub fn ensure_node(&mut self, id: Identifier) -> (i: usize)
        requires
            old(self).inv(),
            id.wf(),
        ensures
            final(self).inv(),
            final(self).edges() == old(self).edges(),
            old(self).has_node(id.value as int) ==> final(self).nodes() == old(self).nodes(),
            !old(self).has_node(id.value as int) ==> final(self).nodes() == old(self).nodes().push(
                id.value,
            ),
            (i as int) < final(self).nodes().len(),
            final(self).nodes()[i as int] == id.value,
            forall|v: int|
                #[trigger] final(self).has_node(v) <==> (old(self).has_node(v) || v == id.value),
    {
        let existing = self.node_of[id.value];
        match existing {
            Some(i) => {
                proof {
                    assert(self.values@[i as int] == id.value);
                    assert(self.has_node(id.value as int));
                    assert forall|v: int| #[trigger] self.has_node(v) <==> (old(self).has_node(v)
                        || v == id.value) by {
                        assert(self.nodes() == old(self).nodes());
                    }
                }
                i
            },
            None => {
                proof {
                    if self.has_node(id.value as int) {
                        let j = choose|j: int|
                            0 <= j < self.values@.len() && self.values@[j] == id.value;
                        assert(self.node_of@[id.value as int] == Some(j as usize));
                    }
                }
                let i = pg_add_node(&mut self.g, id.value);
                self.values.push(id.value);
                let n: usize = self.values.len();
                self.node_of.set(id.value, Some(i));
                proof {
                    assert(self.values@.len() == n);
                }
                proof {
                    let vs = self.values@;
                    assert forall|q: int| 0 <= q < vs.len() implies (#[trigger] vs[q]) < ID_LIMIT
                        && self.node_of@[vs[q] as int] == Some(q as usize) by {
                        if q < vs.len() - 1 {
                            assert(vs[q] == old(self).values@[q]);
                            assert(vs[q] != id.value);
                        }
                    }
                    assert forall|v: int| #[trigger] self.has_node(v) implies (old(
                        self,
                    ).has_node(v) || v == id.value) by {
                        let q = choose|q: int| 0 <= q < vs.len() && vs[q] == v;
                        if q < vs.len() - 1 {
                            assert(old(self).nodes()[q] == v);
                            assert(old(self).has_node(v));
                        } else {
                            assert(vs[q] == id.value);
                        }
                    }
                    assert forall|v: int| (old(self).has_node(v) || v == id.value) implies
                        #[trigger] self.has_node(v) by {
                        if old(self).has_node(v) {
                            let q = choose|q: int|
                                0 <= q < old(self).nodes().len() && old(self).nodes()[q] == v;
                            assert(vs[q] == v);
                        } else {
                            assert(vs[vs.len() - 1] == v);
                        }
                    }
                    assert(self.nodes()[i as int] == id.value);
                }
                i
            },
        }
    }

    /// Record one scanned record: ensure the source node, then add one
    /// directed edge to each destination, creating destination nodes on
    /// demand. Edges append in destination order; parallel edges from
    /// separate calls are kept.
    #[verifier::loop_isolation(false)]
    pub fn add_record(&mut self, id: Identifier, dsts: &Vec<Identifier>)
        requires
            old(self).inv(),
            id.wf(),
            forall|k: int| 0 <= k < dsts@.len() ==> (#[trigger] dsts@[k]).wf(),
        ensures
            final(self).inv(),
            final(self).edge_values() == old(self).edge_values() + rows_for(id.value, dsts@),
            forall|v: int|
                #[trigger] final(self).has_node(v) <==> (old(self).has_node(v) || v == id.value
                    || id_list_has(dsts@, v)),
    {
        let ghost orig = *self;
        let src_i = self.ensure_node(id);
        proof {
            assert(self.edge_values() =~= orig.edge_values() + rows_for(id.value, dsts@.take(0)));
            assert(forall|v: int| !id_list_has(dsts@.take(0), v));
        }
        let mut j: usize = 0;
        while j < dsts.len()
            invariant
                0 <= j <= dsts@.len(),
                self.inv(),
                (src_i as int) < self.nodes().len(),
                self.nodes()[src_i as int] == id.value,
                self.edge_values() == orig.edge_values() + rows_for(id.value, dsts@.take(j as int)),
                forall|v: int|
                    #[trigger] self.has_node(v) <==> (orig.has_node(v) || v == id.value
                        || id_list_has(dsts@.take(j as int), v)),
            decreases dsts@.len() - j,
        {
            let ghost prev = *self;
            let d = dsts[j];
            let d_i = self.ensure_node(d);
            let ghost mid = *self;
            proof {
                assert(self.nodes()[src_i as int] == id.value);
            }
            pg_add_edge(&mut self.g, src_i, d_i);
            proof {
                assert(self.values@ == mid.values@);
                assert(self.nodes() == mid.nodes());
                assert(mid.edges() == prev.edges());
                assert(self.edges() =~= prev.edges().push((src_i, d_i)));
                assert forall|k: int|
                    0 <= k < self.edges().len() implies ((#[trigger] self.edges()[k]).0 as int)
                    < self.nodes().len() && (self.edges()[k].1 as int) < self.nodes().len() by {
                    if k < prev.edges().len() {
                        assert(prev.edges()[k] == self.edges()[k]);
                    }
                }
                let ghost target = orig.edge_values() + rows_for(id.value, dsts@.take(j + 1));
                let ghost base = orig.edge_values().len();
                assert(self.edge_values().len() == base + j + 1);
                assert(target.len() == base + j + 1);
                assert forall|k: int| 0 <= k < self.edge_values().len() implies self.edge_values()[k]
                    == target[k] by {
                    if k < prev.edges().len() {
                        assert(self.edges()[k] == prev.edges()[k]);
                        assert((prev.edges()[k].0 as int) < prev.nodes().len());
                        assert((prev.edges()[k].1 as int) < prev.nodes().len());
                        assert(self.nodes()[prev.edges()[k].0 as int]
                            == prev.nodes()[prev.edges()[k].0 as int]);
                        assert(self.nodes()[prev.edges()[k].1 as int]
                            == prev.nodes()[prev.edges()[k].1 as int]);
                        assert(self.edge_values()[k] == prev.edge_values()[k]);
                        assert(prev.edge_values()[k] == (orig.edge_values() + rows_for(
                            id.value,
                            dsts@.take(j as int),
                        ))[k]);
                        if k >= base {
                            assert(rows_for(id.value, dsts@.take(j as int))[k - base] == (
                                id.value,
                                dsts@.take(j as int)[k - base].value,
                            ));
                            assert(rows_for(id.value, dsts@.take(j + 1))[k - base] == (
                                id.value,
                                dsts@.take(j + 1)[k - base].value,
                            ));
                            assert(dsts@.take(j + 1)[k - base] == dsts@.take(j as int)[k - base]);
                        }
                    } else {
                        assert(self.edges()[k] == (src_i, d_i));
                        assert(self.nodes()[d_i as int] == d.value);
                        assert(self.edge_values()[k] == (id.value, d.value));
                        assert(rows_for(id.value, dsts@.take(j + 1))[j as int] == (
                            id.value,
                            dsts@.take(j + 1)[j as int].value,
                        ));
                        assert(dsts@.take(j + 1)[j as int] == d);
                        assert(target[k] == (id.value, d.value));
                    }
                }
                assert(self.edge_values() =~= target);
                assert forall|v: int| #[trigger] self.has_node(v) <==> (orig.has_node(v) || v
                    == id.value || id_list_has(dsts@.take(j + 1), v)) by {
                    assert(mid.has_node(v) <==> (prev.has_node(v) || v == d.value));
                    assert(self.has_node(v) <==> mid.has_node(v)) by {
                        assert(self.nodes() == mid.nodes());
                    }
                    assert(id_list_has(dsts@.take(j + 1), v) <==> (id_list_has(
                        dsts@.take(j as int),
                        v,
                    ) || v == d.value)) by {
                        if id_list_has(dsts@.take(j + 1), v) {
                            let k = choose|k: int|
                                0 <= k < dsts@.take(j + 1).len() && (#[trigger] dsts@.take(
                                    j + 1,
                                )[k]).value == v;
                            if k < j {
                                assert(dsts@.take(j as int)[k].value == v);
                            } else {
                                assert(dsts@.take(j + 1)[k] == dsts@[j as int]);
                            }
                        }
                        if id_list_has(dsts@.take(j as int), v) {
                            let k = choose|k: int|
                                0 <= k < dsts@.take(j as int).len() && (#[trigger] dsts@.take(
                                    j as int,
                                )[k]).value == v;
                            assert(dsts@.take(j + 1)[k].value == v);
                        }
                        if v == d.value {
                            assert(dsts@.take(j + 1)[j as int].value == v);
                        }
                    }
                }
            }
            j = j + 1;
        }
        proof {
            assert(dsts@.take(dsts@.len() as int) =~= dsts@);
        }
    }

    /// The node values, in node creation order.
    #[verifier::loop_isolation(false)]
    pub fn node_values(&self) -> (r: Vec<usize>)
        requires
            self.inv(),
        ensures
            r@ == self.nodes(),
    {
        let mut r: Vec<usize> = Vec::new();
        let mut k: usize = 0;
        while k < self.values.len()
            invariant
                0 <= k <= self.values@.len(),
                r@ =~= self.values@.take(k as int),
            decreases self.values@.len() - k,
        {
            r.push(self.values[k]);
            proof {
                assert(r@ =~= self.values@.take(k + 1));
            }
            k = k + 1;
        }
        proof {
            assert(self.values@.take(self.values@.len() as int) =~= self.values@);
        }
        r
    }

    /// The edges as (source value, destination value) pairs, in
    /// insertion order.
    #[verifier::loop_isolation(false)]
    pub fn edge_value_list(&self) -> (r: Vec<(usize, usize)>)
        requires
            self.inv(),
        ensures
            r@ == self.edge_values(),
    {
        let idx_edges = pg_edge_list(&self.g);
        let mut r: Vec<(usize, usize)> = Vec::new();
        let mut k: usize = 0;
        while k < idx_edges.len()
            invariant
                0 <= k <= idx_edges@.len(),
                idx_edges@ == graph_edges(self.g),
                r@ =~= self.edge_values().take(k as int),
            decreases idx_edges@.len() - k,
        {
            let e = idx_edges[k];
            r.push((self.values[e.0], self.values[e.1]));
            proof {
                assert(r@ =~= self.edge_values().take(k + 1));
            }
            k = k + 1;
        }
        proof {
            assert(self.edge_values().take(self.edge_values().len() as int) =~= self.edge_values());
        }
        r
    }

    /// The graph-description document for the completed graph: nodes
    /// labeled by identifier numeric value, edges unlabeled. Pure: the
    /// graph is not changed.
    pub fn to_graph_description(&self) -> (r: String)
        requires
            self.inv(),
        ensures
            r@ == dot_text_of(self.nodes(), self.edges()),
    {
        pg_dot(&self.g)
    }

    /// The number of nodes created so far.
    pub fn node_count(&self) -> (n: usize)
        ensures
            n == self.nodes().len(),
    {
        self.values.len()
    }

    /// The number of edges added so far.
    pub fn edge_count(&self) -> (n: usize)
        requires
            self.inv(),
        ensures
            n == self.edges().len(),
    {
        let idx_edges = pg_edge_list(&self.g);
        idx_edges.len()
    }
}

} // verus!
