//! The directed graph that every analysis is stored in.
//!
//! The graph itself is `petgraph`'s `DiGraphMap` over `usize` node ids.  This
//! module declares that type to the verifier, names what a graph holds, and
//! states, for each `petgraph` operation the analyses use, what the operation
//! does to those contents.  Nothing in this module is proved: the contracts
//! restate how `petgraph` behaves, and everything else in the crate rests on
//! them.

use vstd::prelude::*;
use petgraph::graphmap::DiGraphMap;
use petgraph::visit::Dfs;
use petgraph::visit::Reversed;
use petgraph::visit::Walker;

verus! {

/// `petgraph::graphmap::GraphMap`, declared as an opaque type.
#[verifier::external_type_specification]
#[verifier::external_body]
#[verifier::reject_recursive_types(N)]
#[verifier::reject_recursive_types(E)]
#[verifier::reject_recursive_types(Ty)]
#[verifier::reject_recursive_types(S)]
pub struct ExGraphMap<N, E, Ty, S: std::hash::BuildHasher>(petgraph::graphmap::GraphMap<N, E, Ty, S>);

/// `petgraph::Directed`, the marker of a directed graph.
#[verifier::external_type_specification]
#[verifier::external_body]
pub struct ExDirected(petgraph::Directed);

/// `petgraph::Direction`: which end of an edge a neighbor query follows.
#[verifier::external_type_specification]
pub struct ExDirection(petgraph::Direction);

/// The nodes a graph holds.
pub uninterp spec fn graph_nodes(g: DiGraphMap<usize, ()>) -> Set<usize>;

/// The edges a graph holds, each as `(source, target)`.
pub uninterp spec fn graph_edges(g: DiGraphMap<usize, ()>) -> Set<(usize, usize)>;

/// `DiGraphMap::new`: a graph without nodes or edges.
#[verifier::external_body]
pub(crate) fn new_graph() -> (g: DiGraphMap<usize, ()>)
    ensures
        graph_nodes(g) == Set::<usize>::empty(),
        graph_edges(g) == Set::<(usize, usize)>::empty(),
{
    DiGraphMap::new()
}

/// `GraphMap::add_node`: the node joins the graph; the edges stay.
#[verifier::external_body]
pub(crate) fn add_node(g: &mut DiGraphMap<usize, ()>, n: usize)
    ensures
        graph_nodes(*final(g)) == graph_nodes(*old(g)).insert(n),
        graph_edges(*final(g)) == graph_edges(*old(g)),
{
    g.add_node(n);
}

/// `GraphMap::add_edge`: the edge joins the graph, and so do both of its ends.
#[verifier::external_body]
pub(crate) fn add_edge(g: &mut DiGraphMap<usize, ()>, a: usize, b: usize)
    ensures
        graph_nodes(*final(g)) == graph_nodes(*old(g)).insert(a).insert(b),
        graph_edges(*final(g)) == graph_edges(*old(g)).insert((a, b)),
{
    g.add_edge(a, b, ());
}

/// Whether `b` follows `a` along one edge, taken as it points (`Outgoing`) or
/// against it (`Incoming`).
pub open spec fn step<N>(edges: Set<(N, N)>, dir: petgraph::Direction, a: N, b: N) -> bool {
    match dir {
        petgraph::Direction::Outgoing => edges.contains((a, b)),
        petgraph::Direction::Incoming => edges.contains((b, a)),
    }
}

/// `GraphMap::neighbors_directed`, collected: every node one step from `a` in
/// the direction `dir`, each of them once.
///
/// The contract claims that the adjacency list of `a` holds each edge at `a`
/// once, which `add_edge` sees to by adding to the list only for an edge that
/// is new, and that a loop at `a` counts in both directions.
#[verifier::external_body]
pub(crate) fn neighbors_directed(g: &DiGraphMap<usize, ()>, a: usize, dir: petgraph::Direction) -> (r: Vec<usize>)
    ensures
        r@.no_duplicates(),
        forall|m: usize| r@.contains(m) <==> step(graph_edges(*g), dir, a, m),
{
    g.neighbors_directed(a, dir).collect()
}

/// Whether an edge leads to the node at position `i` from a node at an
/// earlier position.
pub open spec fn entered_from_earlier(
    order: Seq<usize>,
    edges: Set<(usize, usize)>,
    dir: petgraph::Direction,
    i: int,
) -> bool {
    exists|j: int| 0 <= j < i && #[trigger] step(edges, dir, order[j], order[i])
}

/// What holds of every depth-first order from `start`: it begins with `start`,
/// names no node twice, reaches each later node over an edge from an earlier
/// one, and leaves out no node that an edge leads to from a node in it.
pub open spec fn is_search_order(
    order: Seq<usize>,
    edges: Set<(usize, usize)>,
    dir: petgraph::Direction,
    start: usize,
) -> bool {
    &&& order.len() > 0
    &&& order[0] == start
    &&& order.no_duplicates()
    &&& forall|i: int| 0 < i < order.len() ==> #[trigger] entered_from_earlier(order, edges, dir, i)
    &&& forall|i: int, m: usize| 0 <= i < order.len() && #[trigger] step(edges, dir, order[i], m) ==> order.contains(m)
}

/// `Dfs::new(g, start).iter(g)`, collected: the depth-first preorder of the
/// nodes that can be reached from `start`.
///
/// The contract claims four things of `petgraph`'s search.  It emits `start`
/// first.  It emits no node twice, because it marks a node when it emits it
/// and skips marked nodes.  It puts a node on its stack only as a neighbor
/// of the node it has just emitted, so an edge leads to every later node
/// from an earlier one.  And it goes on until its stack is empty, so every
/// neighbor of an emitted node is emitted.
#[verifier::external_body]
pub(crate) fn dfs_order(g: &DiGraphMap<usize, ()>, start: usize) -> (r: Vec<usize>)
    ensures
        is_search_order(r@, graph_edges(*g), petgraph::Direction::Outgoing, start),
{
    Dfs::new(g, start).iter(g).collect()
}

/// `Dfs` over `Reversed(g)`, collected: the depth-first preorder of the nodes
/// from which `start` can be reached.
///
/// `Reversed` hands the search the neighbors against the edges, so the
/// contract claims of it what the contract of the search along the edges
/// claims, with every edge turned round.
#[verifier::external_body]
pub(crate) fn dfs_order_reversed(g: &DiGraphMap<usize, ()>, start: usize) -> (r: Vec<usize>)
    ensures
        is_search_order(r@, graph_edges(*g), petgraph::Direction::Incoming, start),
{
    Dfs::new(Reversed(g), start).iter(Reversed(g)).collect()
}

} // verus!
