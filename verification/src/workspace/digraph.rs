//! The directed graph behind the dependency graph. It is petgraph's `Graph`
//! with unit weights; the verifier sees it only through the contracts of this
//! file, which are taken on trust from petgraph's source.

use petgraph::data::{Element, FromElements};
use petgraph::graph::{Graph, NodeIndex};
use petgraph::visit::{DfsPostOrder, Reversed, Walker};
use petgraph::{Directed, Direction};
use vstd::prelude::*;

use super::relation::{acyclic, edges_in_range, reaches, sources_into, targets_from, Edge};

verus! {

/// petgraph's marker for graphs whose edges have a direction.
#[verifier::external_type_specification]
#[verifier::external_body]
pub struct ExDirected(Directed);

/// petgraph's `Graph`. Nothing of its inside is visible here: what a graph
/// holds is named by [`graph_node_count`] and [`graph_edges`].
#[verifier::external_type_specification]
#[verifier::external_body]
#[verifier::reject_recursive_types(N)]
#[verifier::reject_recursive_types(E)]
#[verifier::reject_recursive_types(Ty)]
#[verifier::reject_recursive_types(Ix)]
pub struct ExGraph<N, E, Ty, Ix>(Graph<N, E, Ty, Ix>);

/// A directed graph without weights, indexed by 32-bit integers.
pub type UnitGraph = Graph<(), (), Directed, u32>;

/// The number of nodes of a graph; its nodes are `0 .. graph_node_count`.
pub uninterp spec fn graph_node_count(graph: UnitGraph) -> nat;

/// The edges of a graph as `(source, target)`, in the order of their addition.
pub uninterp spec fn graph_edges(graph: UnitGraph) -> Seq<Edge>;

/// `Graph::from_elements` on `nodes` node elements followed by one edge element
/// for each entry of `edges`. Trusted: the graph has exactly these nodes and
/// these edges, added in this order. The call panics on an edge whose endpoint
/// is no node and when the 32-bit index type overflows, hence the `requires`.
#[verifier::external_body]
pub(crate) fn graph_from_elements(nodes: usize, edges: &Vec<Edge>) -> (graph: UnitGraph)
    requires
        nodes <= u32::MAX,
        edges@.len() <= u32::MAX,
        edges_in_range(edges@, nodes as nat),
    ensures
        graph_node_count(graph) == nodes,
        graph_edges(graph) == edges@,
{
    let node_elements = (0..nodes).map(|_| Element::Node { weight: () });
    let edge_elements = edges.iter().map(
        |edge| Element::Edge { source: edge.0, target: edge.1, weight: () },
    );
    Graph::from_elements(node_elements.chain(edge_elements))
}

/// `Graph::neighbors_directed`. Trusted: for `Incoming` it yields the source of
/// every edge into `node`, for `Outgoing` the target of every edge out of it,
/// once per edge, the most recently added edge first.
#[verifier::external_body]
pub(crate) fn graph_neighbors(
    graph: &UnitGraph,
    node: usize,
    incoming: bool,
) -> (neighbors: Vec<usize>)
    requires
        node < graph_node_count(*graph),
    ensures
        neighbors@ == if incoming {
            sources_into(graph_edges(*graph), node)
        } else {
            targets_from(graph_edges(*graph), node)
        },
{
    let direction = if incoming { Direction::Incoming } else { Direction::Outgoing };
    graph.neighbors_directed(NodeIndex::new(node), direction).map(|n| n.index()).collect()
}

/// `DfsPostOrder` over `Reversed(graph)`, started at `start` and run to its
/// end. Trusted: the walk yields `start` and every node from which an edge path
/// leads to `start`, each once; in a graph without cycles it yields a node only
/// after all nodes from which a path leads to that node. The walk panics on a
/// start that is no node.
#[verifier::external_body]
pub(crate) fn graph_dfs_post_order_reversed(
    graph: &UnitGraph,
    start: usize,
) -> (order: Vec<usize>)
    requires
        start < graph_node_count(*graph),
        edges_in_range(graph_edges(*graph), graph_node_count(*graph)),
    ensures
        order@.no_duplicates(),
        forall|node: usize|
            order@.contains(node) <==> (node == start || reaches(graph_edges(*graph), node, start)),
        acyclic(graph_edges(*graph)) ==> forall|i: int, j: int|
            0 <= i < j < order@.len() ==> !reaches(graph_edges(*graph), order@[j], order@[i]),
{
    let reversed = Reversed(graph);
    DfsPostOrder::new(reversed, NodeIndex::new(start)).iter(reversed).map(|n| n.index()).collect()
}

} // verus!
