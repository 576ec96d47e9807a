//! The edge store: petgraph's directed graph, behind trusted wrappers.
//!
//! The graph's contents are named by two functions — `graph_nodes`, the node
//! weights in index order, and `graph_edges`, the edges in index order as
//! `(source, target, kind)` triples over node positions.  Every wrapper's
//! contract speaks over those names and states what petgraph's source shows.

use vstd::prelude::*;

use crate::note::Note;

verus! {

/// The kind of a relation between two notes.
#[derive(Clone, Copy, Debug, PartialEq, Eq, Structural)]
pub enum Connection {
    /// Structural containment: the source owns the target.
    Own,
    /// Causal reference: the source precedes the target.
    Cause,
}

#[verifier::external_type_specification]
#[verifier::external_body]
pub struct ExDirected(petgraph::Directed);

#[verifier::external_type_specification]
#[verifier::external_body]
#[verifier::reject_recursive_types(N)]
#[verifier::reject_recursive_types(E)]
#[verifier::reject_recursive_types(Ty)]
#[verifier::reject_recursive_types(Ix)]
pub struct ExGraph<N, E, Ty, Ix>(petgraph::graph::Graph<N, E, Ty, Ix>);

/// The directed graph that stores the notes and their relations.
pub type NoteGraph = petgraph::graph::Graph<Note, Connection, petgraph::Directed, u32>;

/// The node weights a graph holds, by node index.
pub uninterp spec fn graph_nodes(g: NoteGraph) -> Seq<Note>;

/// The edges a graph holds, by edge index: source position, target
/// position, kind.
pub uninterp spec fn graph_edges(g: NoteGraph) -> Seq<(usize, usize, Connection)>;

/// The incoming side of a node: for every edge whose target is `i`, its
/// source and kind, in edge order.
pub open spec fn incoming_of(edges: Seq<(usize, usize, Connection)>, i: usize) -> Seq<
    (usize, Connection),
>
    decreases edges.len(),
{
    if edges.len() == 0 {
        Seq::empty()
    } else {
        let rest = incoming_of(edges.drop_last(), i);
        if edges.last().1 == i {
            rest.push((edges.last().0, edges.last().2))
        } else {
            rest
        }
    }
}

/// The outgoing side of a node: for every edge whose source is `i`, its
/// target and kind, in edge order.
pub open spec fn outgoing_of(edges: Seq<(usize, usize, Connection)>, i: usize) -> Seq<
    (usize, Connection),
>
    decreases edges.len(),
{
    if edges.len() == 0 {
        Seq::empty()
    } else {
        let rest = outgoing_of(edges.drop_last(), i);
        if edges.last().0 == i {
            rest.push((edges.last().1, edges.last().2))
        } else {
            rest
        }
    }
}

/// Relies on petgraph's `Graph::new`: an empty graph.
#[verifier::external_body]
pub fn graph_new() -> (g: NoteGraph)
    ensures
        graph_nodes(g) == Seq::<Note>::empty(),
        graph_edges(g) == Seq::<(usize, usize, Connection)>::empty(),
{
    petgraph::graph::Graph::new()
}

/// Relies on petgraph's `Graph::add_node`: appends the node and returns its
/// index.  It panics only at the index-type limit, which the bound rules
/// out.
#[verifier::external_body]
pub fn graph_add_node(g: &mut NoteGraph, note: Note) -> (i: usize)
    requires
        graph_nodes(*old(g)).len() < u32::MAX as usize,
    ensures
        graph_nodes(*final(g)) == graph_nodes(*old(g)).push(note),
        graph_edges(*final(g)) == graph_edges(*old(g)),
        i == graph_nodes(*old(g)).len(),
{
    g.add_node(note).index()
}

/// Relies on petgraph's `Graph::add_edge`: appends the edge.  It panics on
/// an unknown endpoint or at the index-type limit, which the bounds rule
/// out.
#[verifier::external_body]
pub fn graph_add_edge(g: &mut NoteGraph, a: usize, b: usize, kind: Connection)
    requires
        a < graph_nodes(*old(g)).len(),
        b < graph_nodes(*old(g)).len(),
        graph_nodes(*old(g)).len() <= u32::MAX as usize,
        graph_edges(*old(g)).len() < u32::MAX as usize,
    ensures
        graph_nodes(*final(g)) == graph_nodes(*old(g)),
        graph_edges(*final(g)) == graph_edges(*old(g)).push((a, b, kind)),
{
    g.add_edge(
        petgraph::graph::NodeIndex::new(a),
        petgraph::graph::NodeIndex::new(b),
        kind,
    );
}

/// Relies on petgraph's `Graph::node_count`.
#[verifier::external_body]
pub fn graph_node_count(g: &NoteGraph) -> (n: usize)
    ensures
        n == graph_nodes(*g).len(),
{
    g.node_count()
}

/// Relies on petgraph's `Graph::edge_count`.
#[verifier::external_body]
pub fn graph_edge_count(g: &NoteGraph) -> (n: usize)
    ensures
        n == graph_edges(*g).len(),
{
    g.edge_count()
}

/// Relies on petgraph's `Graph::node_weight`: the weight at a known index.
#[verifier::external_body]
pub fn graph_node_at<'a>(g: &'a NoteGraph, i: usize) -> (note: &'a Note)
    requires
        i < graph_nodes(*g).len(),
        graph_nodes(*g).len() <= u32::MAX as usize,
    ensures
        *note == graph_nodes(*g)[i as int],
{
    g.node_weight(petgraph::graph::NodeIndex::new(i)).unwrap()
}

/// Relies on petgraph's `Graph::edges_directed` with `Incoming`: for a
/// directed graph it lists the edges into the node in reverse order of
/// addition, each handed out here as its source position and kind.
#[verifier::external_body]
pub fn graph_edges_incoming(g: &NoteGraph, i: usize) -> (r: Vec<(usize, Connection)>)
    requires
        i < graph_nodes(*g).len(),
        graph_nodes(*g).len() <= u32::MAX as usize,
    ensures
        r@ == incoming_of(graph_edges(*g), i).reverse(),
{
    g.edges_directed(petgraph::graph::NodeIndex::new(i), petgraph::Direction::Incoming)
        .map(|e| (petgraph::visit::EdgeRef::source(&e).index(), *petgraph::visit::EdgeRef::weight(&e)))
        .collect()
}

/// Relies on petgraph's `Graph::edges`: for a directed graph it lists the
/// edges out of the node in reverse order of addition, each handed out here
/// as its target position and kind.
#[verifier::external_body]
pub fn graph_edges_outgoing(g: &NoteGraph, i: usize) -> (r: Vec<(usize, Connection)>)
    requires
        i < graph_nodes(*g).len(),
        graph_nodes(*g).len() <= u32::MAX as usize,
    ensures
        r@ == outgoing_of(graph_edges(*g), i).reverse(),
{
    g.edges(petgraph::graph::NodeIndex::new(i))
        .map(|e| (petgraph::visit::EdgeRef::target(&e).index(), *petgraph::visit::EdgeRef::weight(&e)))
        .collect()
}

} // verus!
