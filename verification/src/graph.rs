//! The connectivity graph: an undirected `petgraph` graph with one node per
//! cell, and the bounded search for a simple path in it.

use vstd::prelude::*;
use petgraph::algo::{all_simple_paths, dijkstra};
use petgraph::graph::{Graph, NodeIndex};
use petgraph::visit::EdgeRef;
use petgraph::Undirected;

verus! {

/// `petgraph::graph::Graph`, a graph kept as a list of nodes and a list of
/// edges. Nothing inside it is visible to the verifier.
#[verifier::external_type_specification]
#[verifier::external_body]
#[verifier::reject_recursive_types(N)]
#[verifier::reject_recursive_types(E)]
#[verifier::reject_recursive_types(Ty)]
#[verifier::reject_recursive_types(Ix)]
pub struct ExGraph<N, E, Ty, Ix>(Graph<N, E, Ty, Ix>);

/// `petgraph::Undirected`, the marker of graphs whose edges have no
/// direction.
#[verifier::external_type_specification]
#[verifier::external_body]
pub struct ExUndirected(Undirected);

/// The edges of the graph by edge index: the two node indices that each edge
/// was added with.
pub uninterp spec fn graph_edges(g: Graph<(), (), Undirected, u32>) -> Seq<(usize, usize)>;

/// The number of nodes of the graph. Its nodes are the indices below it.
pub uninterp spec fn graph_order(g: Graph<(), (), Undirected, u32>) -> nat;

/// The largest number of nodes, and of edges, that a graph indexed by `u32`
/// takes before it refuses another.
pub const GRAPH_CAPACITY: usize = 0xffff_ffff;

/// An edge touches a node that is one of its two ends.
pub open spec fn touches(e: (usize, usize), n: usize) -> bool {
    e.0 == n || e.1 == n
}

/// Some edge joins the two nodes, in either direction.
pub open spec fn joined(edges: Seq<(usize, usize)>, a: usize, b: usize) -> bool {
    exists|i: int| 0 <= i < edges.len() && (#[trigger] edges[i] == (a, b) || edges[i] == (b, a))
}

/// Step `k` of the node sequence `p` goes along an edge.
pub open spec fn hop(edges: Seq<(usize, usize)>, p: Seq<usize>, k: int) -> bool {
    joined(edges, p[k], p[k + 1])
}

/// `p` is a simple path from `from` to `to`: it starts and ends there, every
/// step goes along an edge, no node occurs twice, and at most `between` nodes
/// lie strictly between its two ends.
pub open spec fn simple_path(
    edges: Seq<(usize, usize)>,
    p: Seq<usize>,
    from: usize,
    to: usize,
    between: int,
) -> bool {
    &&& p.len() >= 2
    &&& p[0] == from
    &&& p[p.len() - 1] == to
    &&& p.len() - 2 <= between
    &&& p.no_duplicates()
    &&& forall|k: int| 0 <= k < p.len() - 1 ==> #[trigger] hop(edges, p, k)
}

/// `p` is a walk from `from` to `to`: it starts and ends there, and every
/// step goes along an edge. A node alone is a walk from itself to itself.
pub open spec fn is_walk(edges: Seq<(usize, usize)>, p: Seq<usize>, from: usize, to: usize) -> bool {
    &&& p.len() >= 1
    &&& p[0] == from
    &&& p[p.len() - 1] == to
    &&& forall|k: int| 0 <= k < p.len() - 1 ==> #[trigger] hop(edges, p, k)
}

/// The edges that stay when those whose index is listed in `ids` leave, in
/// the order they had.
pub open spec fn edges_kept(edges: Seq<(usize, usize)>, ids: Seq<usize>) -> Seq<(usize, usize)>
    decreases edges.len(),
{
    if edges.len() == 0 {
        edges
    } else {
        let rest = edges_kept(edges.drop_last(), ids);
        if ids.contains((edges.len() - 1) as usize) {
            rest
        } else {
            rest.push(edges.last())
        }
    }
}

/// Whether the edge with index `e` stays when the edges listed in `ids` leave.
pub(crate) fn edge_stays(ids: &Vec<usize>, e: usize) -> (stays: bool)
    ensures
        stays == !ids@.contains(e),
{
    let mut k: usize = 0;
    while k < ids.len()
        invariant
            k <= ids.len(),
            forall|j: int| 0 <= j < k ==> ids[j] != e,
        decreases ids.len() - k,
    {
        if ids[k] == e {
            return false;
        }
        k += 1;
    }
    true
}

/// What one step along an edge costs when distances are counted in steps.
pub(crate) fn step_cost() -> (cost: usize)
    ensures
        cost == 1,
{
    1
}

/// `Graph::new_undirected`: a graph without nodes or edges.
#[verifier::external_body]
pub(crate) fn graph_new() -> (g: Graph<(), (), Undirected, u32>)
    ensures
        graph_order(g) == 0,
        graph_edges(g) == Seq::<(usize, usize)>::empty(),
{
    Graph::new_undirected()
}

/// `Graph::add_node`: one more node, whose index is the number of nodes
/// there were; the edges stay. The graph panics when it is full.
#[verifier::external_body]
pub(crate) fn graph_add_node(g: &mut Graph<(), (), Undirected, u32>) -> (n: usize)
    requires
        graph_order(*old(g)) < GRAPH_CAPACITY,
    ensures
        n == graph_order(*old(g)),
        graph_order(*final(g)) == graph_order(*old(g)) + 1,
        graph_edges(*final(g)) == graph_edges(*old(g)),
{
    g.add_node(()).index()
}

/// `Graph::add_edge`: one more edge between the two nodes, with the next
/// edge index; nodes and the other edges stay. The graph panics when a node
/// does not exist or when it is full.
#[verifier::external_body]
pub(crate) fn graph_add_edge(g: &mut Graph<(), (), Undirected, u32>, a: usize, b: usize)
    requires
        a < graph_order(*old(g)),
        b < graph_order(*old(g)),
        graph_edges(*old(g)).len() < GRAPH_CAPACITY,
    ensures
        graph_order(*final(g)) == graph_order(*old(g)),
        graph_edges(*final(g)) == graph_edges(*old(g)).push((a, b)),
{
    g.add_edge(NodeIndex::new(a), NodeIndex::new(b), ());
}

/// `Graph::edges` on an undirected graph: the indices of exactly the edges
/// that touch the node.
#[verifier::external_body]
pub(crate) fn graph_edges_at(g: &Graph<(), (), Undirected, u32>, n: usize) -> (ids: Vec<usize>)
    requires
        n < graph_order(*g),
    ensures
        forall|k: int| 0 <= k < ids.len() ==> #[trigger] ids[k] < graph_edges(*g).len(),
        forall|i: int|
            0 <= i < graph_edges(*g).len() ==> (ids@.contains(i as usize) <==> touches(
                #[trigger] graph_edges(*g)[i],
                n,
            )),
{
    g.edges(NodeIndex::new(n)).map(|e| e.id().index()).collect()
}

/// `Graph::retain_edges` with the edges listed in `ids` as those to remove:
/// the nodes stay, and the edges that are left are those not listed, each as
/// often as before. Which index each of them has afterwards is left open.
#[verifier::external_body]
pub(crate) fn graph_drop_edges(g: &mut Graph<(), (), Undirected, u32>, ids: &Vec<usize>)
    ensures
        graph_order(*final(g)) == graph_order(*old(g)),
        graph_edges(*final(g)).to_multiset() == edges_kept(graph_edges(*old(g)), ids@).to_multiset(),
{
    g.retain_edges(|_, e| edge_stays(ids, e.index()));
}

/// The first item of `petgraph::algo::all_simple_paths` between two distinct
/// nodes, with no lower bound and `between` as the upper bound on the number
/// of intermediate nodes. A path that comes back is a simple path within the
/// bound; none comes back only when the graph has no such path.
#[verifier::external_body]
pub(crate) fn graph_first_path(
    g: &Graph<(), (), Undirected, u32>,
    from: usize,
    to: usize,
    between: usize,
) -> (found: Option<Vec<usize>>)
    requires
        from < graph_order(*g),
        to < graph_order(*g),
        from != to,
        between < usize::MAX,
    ensures
        match found {
            Some(p) => simple_path(graph_edges(*g), p@, from, to, between as int),
            None => forall|p: Seq<usize>|
                !#[trigger] simple_path(graph_edges(*g), p, from, to, between as int),
        },
{
    let mut paths = all_simple_paths::<Vec<NodeIndex>, _>(
        g,
        NodeIndex::new(from),
        NodeIndex::new(to),
        0,
        Some(between),
    );
    paths.next().map(|p| p.into_iter().map(|n| n.index()).collect())
}

/// The entry for `to` in the map that `petgraph::algo::dijkstra` returns
/// from `from` with `to` as its goal and `step_cost` as the cost of every
/// edge: the number of steps of a shortest walk between the two nodes. There
/// is no entry only when no walk joins them.
#[verifier::external_body]
pub(crate) fn graph_distance(g: &Graph<(), (), Undirected, u32>, from: usize, to: usize) -> (steps:
    Option<usize>)
    requires
        from < graph_order(*g),
        to < graph_order(*g),
    ensures
        match steps {
            Some(d) => {
                &&& exists|p: Seq<usize>| #[trigger]
                    is_walk(graph_edges(*g), p, from, to) && p.len() == d + 1
                &&& forall|p: Seq<usize>| #[trigger]
                    is_walk(graph_edges(*g), p, from, to) ==> p.len() >= d + 1
            },
            None => forall|p: Seq<usize>| !#[trigger] is_walk(graph_edges(*g), p, from, to),
        },
{
    let scores = dijkstra(g, NodeIndex::new(from), Some(NodeIndex::new(to)), |_| step_cost());
    scores.get(&NodeIndex::new(to)).copied()
}

} // verus!
