//! The constraint graph, a `petgraph` graph whose nodes are the variables
//! and whose edges carry the constraints between them.

use vstd::prelude::*;
use petgraph::graph::{EdgeIndex, Graph, NodeIndex};
use petgraph::visit::EdgeRef;
use petgraph::{Directed, Direction};
use super::Diff;

verus! {

#[verifier::external_type_specification]
#[verifier::external_body]
#[verifier::reject_recursive_types(N)]
#[verifier::reject_recursive_types(E)]
#[verifier::reject_recursive_types(Ty)]
#[verifier::reject_recursive_types(Ix)]
pub struct ExGraph<N, E, Ty, Ix>(Graph<N, E, Ty, Ix>);

#[verifier::external_type_specification]
#[verifier::external_body]
pub struct ExDirected(Directed);

/// A constraint graph: a node per variable, an edge per constraint.
pub type Csp<C> = Graph<(), C, Directed>;

/// The edges of the graph by index, each as its source and target node.
pub uninterp spec fn graph_edges(g: Csp<Diff>) -> Seq<(nat, nat)>;

/// The number of nodes of the graph.
pub uninterp spec fn graph_order(g: Csp<Diff>) -> nat;

/// `Graph::new`: a graph without nodes or edges.
#[verifier::external_body]
pub(crate) fn csp_new() -> (g: Csp<Diff>)
    ensures
        graph_order(g) == 0,
        graph_edges(g) == Seq::<(nat, nat)>::empty(),
{
    Graph::new()
}

/// `Graph::node_count`: the number of nodes.
#[verifier::external_body]
pub(crate) fn node_count(g: &Csp<Diff>) -> (r: usize)
    ensures
        r == graph_order(*g),
{
    g.node_count()
}

/// `Graph::edge_count`: the number of edges.
#[verifier::external_body]
pub(crate) fn edge_count(g: &Csp<Diff>) -> (r: usize)
    ensures
        r == graph_edges(*g).len(),
{
    g.edge_count()
}

/// `Graph::add_node`: appends a node, whose index is returned; the edges stay.
/// The graph refuses a node at the last index of `u32`, the limit of its
/// index type.
#[verifier::external_body]
pub(crate) fn add_node(g: &mut Csp<Diff>) -> (r: usize)
    requires
        graph_order(*old(g)) < u32::MAX,
    ensures
        r == graph_order(*old(g)),
        graph_order(*final(g)) == graph_order(*old(g)) + 1,
        graph_edges(*final(g)) == graph_edges(*old(g)),
{
    g.add_node(()).index()
}

/// `Graph::update_edge`: when an edge from `a` to `b` exists its weight is
/// replaced, which for `Diff` changes nothing; otherwise the edge is
/// appended. Both nodes must exist, and a new edge must not take the last
/// index of `u32`.
#[verifier::external_body]
pub(crate) fn update_edge(g: &mut Csp<Diff>, a: usize, b: usize)
    requires
        a < graph_order(*old(g)),
        b < graph_order(*old(g)),
        graph_edges(*old(g)).len() < u32::MAX,
    ensures
        graph_order(*final(g)) == graph_order(*old(g)),
        graph_edges(*old(g)).contains((a as nat, b as nat)) ==> graph_edges(*final(g)) == graph_edges(*old(g)),
        !graph_edges(*old(g)).contains((a as nat, b as nat)) ==> graph_edges(*final(g)) == graph_edges(
            *old(g),
        ).push((a as nat, b as nat)),
{
    g.update_edge(NodeIndex::new(a), NodeIndex::new(b), Diff);
}

/// One more than the largest node of the first `n` pairs, or `order` if
/// that is larger.
pub open spec fn order_with(es: Seq<(u32, u32)>, n: nat, order: nat) -> nat
    decreases n,
{
    if n == 0 || n > es.len() {
        order
    } else {
        let prev = order_with(es, (n - 1) as nat, order);
        let (a, b) = es[n - 1];
        let top = if a < b { b as nat } else { a as nat };
        if top + 1 > prev {
            top + 1
        } else {
            prev
        }
    }
}

/// `Graph::extend_with_edges`: appends an edge for each pair, in order, first
/// adding the nodes needed for its endpoints to exist. No endpoint may be the
/// last value of `u32`, and the edges must stay below that count.
#[verifier::external_body]
pub(crate) fn extend_with_edges(g: &mut Csp<Diff>, es: &[(u32, u32)])
    requires
        forall|k: int| 0 <= k < es@.len() ==> (#[trigger] es@[k]).0 < u32::MAX && es@[k].1 < u32::MAX,
        graph_edges(*old(g)).len() + es@.len() < u32::MAX,
        graph_order(*old(g)) <= u32::MAX,
    ensures
        graph_order(*final(g)) == order_with(es@, es@.len(), graph_order(*old(g))),
        graph_edges(*final(g)) == graph_edges(*old(g)) + es@.map_values(|e: (u32, u32)| (e.0 as nat, e.1 as nat)),
{
    g.extend_with_edges(es.iter().map(|&(a, b)| (a, b, Diff)));
}

/// `Graph::edge_endpoints`: the source and target of edge `e`, nodes of the
/// graph; a node index is below `u32::MAX`, the index the graph never gives
/// a node.
#[verifier::external_body]
pub(crate) fn edge_endpoints(g: &Csp<Diff>, e: usize) -> (r: (usize, usize))
    requires
        e < graph_edges(*g).len(),
    ensures
        (r.0 as nat, r.1 as nat) == graph_edges(*g)[e as int],
        r.0 < graph_order(*g),
        r.1 < graph_order(*g),
        r.0 < u32::MAX,
        r.1 < u32::MAX,
{
    let (a, b) = g.edge_endpoints(EdgeIndex::new(e)).unwrap();
    (a.index(), b.index())
}

/// The source of an edge, or its target when `source` is false.
pub open spec fn end_of(edge: (nat, nat), source: bool) -> nat {
    if source {
        edge.0
    } else {
        edge.1
    }
}

/// `Graph::edges_directed`: the indices of the edges that leave `node`, or,
/// when `outgoing` is false, that enter it, each once; none for a node that
/// the graph lacks. The index must fit the graph's `u32` indices.
#[verifier::external_body]
pub(crate) fn edges_directed(g: &Csp<Diff>, node: usize, outgoing: bool) -> (r: Vec<usize>)
    requires
        node <= u32::MAX,
    ensures
        r@.no_duplicates(),
        forall|e: usize| r@.contains(e) == (e < graph_edges(*g).len() && end_of(graph_edges(*g)[e as int], outgoing) == node),
{
    let dir = if outgoing { Direction::Outgoing } else { Direction::Incoming };
    g.edges_directed(NodeIndex::new(node), dir).map(|e| e.id().index()).collect()
}

} // verus!
