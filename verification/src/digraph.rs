//! Directed graphs of `petgraph`, as far as dependencies need them.
use petgraph::graph::{DiGraph, NodeIndex};
use petgraph::Direction;
use vstd::prelude::*;

verus! {

/// `petgraph`'s graph.
#[verifier::external_type_specification]
#[verifier::external_body]
#[verifier::reject_recursive_types(N)]
#[verifier::reject_recursive_types(E)]
#[verifier::reject_recursive_types(Ty)]
#[verifier::reject_recursive_types(Ix)]
pub struct ExGraph<N, E, Ty, Ix>(petgraph::graph::Graph<N, E, Ty, Ix>);

/// `petgraph`'s marker of directed graphs.
#[verifier::external_type_specification]
#[verifier::external_body]
pub struct ExDirected(petgraph::Directed);

/// The labels of the nodes, in the order in which the nodes were added.
pub uninterp spec fn graph_nodes(g: DiGraph<String, ()>) -> Seq<Seq<char>>;

/// The edges, each from one node to another, in the order in which they were
/// added.
pub uninterp spec fn graph_edges(g: DiGraph<String, ()>) -> Seq<(int, int)>;

/// The order that `petgraph::algo::toposort` gives the nodes of an acyclic
/// graph with this many nodes and these edges.
pub uninterp spec fn toposort_order(nodes: nat, edges: Seq<(int, int)>) -> Seq<int>;

/// Whether an edge leads from the node at position `i` of `p` to the next.
pub open spec fn is_step(edges: Seq<(int, int)>, p: Seq<int>, i: int) -> bool {
    edges.contains((p[i], p[i + 1]))
}

/// Whether `p` goes along edges.
pub open spec fn is_walk(edges: Seq<(int, int)>, p: Seq<int>) -> bool {
    forall|i: int| 0 <= i < p.len() - 1 ==> #[trigger] is_step(edges, p, i)
}

/// Whether some walk along edges comes back to where it began.
pub open spec fn has_cycle(edges: Seq<(int, int)>) -> bool {
    exists|p: Seq<int>| p.len() >= 2 && p[0] == p.last() && #[trigger] is_walk(edges, p)
}

/// Whether `order` lists the numbers below `nodes`, each once, and every edge
/// goes from an earlier to a later one.
pub open spec fn is_topological(order: Seq<int>, nodes: nat, edges: Seq<(int, int)>) -> bool {
    &&& order.len() == nodes
    &&& order.no_duplicates()
    &&& forall|i: int| 0 <= i < order.len() ==> 0 <= #[trigger] order[i] < nodes
    &&& forall|e: int, i: int, j: int|
        0 <= e < edges.len() && 0 <= i < order.len() && 0 <= j < order.len() && (
        #[trigger] edges[e]) == (#[trigger] order[i], #[trigger] order[j]) ==> i < j
}

/// Where the edges into `n` come from, the last edge first.
pub open spec fn sources(edges: Seq<(int, int)>, n: int) -> Seq<int>
    decreases edges.len(),
{
    if edges.len() == 0 {
        Seq::empty()
    } else if edges.last().1 == n {
        seq![edges.last().0] + sources(edges.drop_last(), n)
    } else {
        sources(edges.drop_last(), n)
    }
}

/// Where the edges out of `n` go, the last edge first.
pub open spec fn targets(edges: Seq<(int, int)>, n: int) -> Seq<int>
    decreases edges.len(),
{
    if edges.len() == 0 {
        Seq::empty()
    } else if edges.last().0 == n {
        seq![edges.last().1] + targets(edges.drop_last(), n)
    } else {
        targets(edges.drop_last(), n)
    }
}

/// Node numbers as mathematical integers.
pub open spec fn ints(v: Seq<usize>) -> Seq<int> {
    Seq::new(v.len(), |i: int| v[i] as int)
}

/// `petgraph::graph::Graph::new`: a graph without nodes and edges.
#[verifier::external_body]
pub(crate) fn graph_new() -> (r: DiGraph<String, ()>)
    ensures
        graph_nodes(r) == Seq::<Seq<char>>::empty(),
        graph_edges(r) == Seq::<(int, int)>::empty(),
{
    DiGraph::<String, ()>::new()
}

/// `petgraph::graph::Graph::add_node`: adds a node behind the others and
/// returns its number. The graph holds fewer than `u32::MAX` nodes before.
#[verifier::external_body]
pub(crate) fn graph_add_node(g: &mut DiGraph<String, ()>, label: String) -> (r: usize)
    requires
        graph_nodes(*old(g)).len() < u32::MAX,
    ensures
        r == graph_nodes(*old(g)).len(),
        graph_nodes(*final(g)) == graph_nodes(*old(g)).push(label@),
        graph_edges(*final(g)) == graph_edges(*old(g)),
{
    g.add_node(label).index()
}

/// `petgraph::graph::Graph::add_edge`: adds an edge between two nodes of the
/// graph. The graph holds fewer than `u32::MAX` edges before.
#[verifier::external_body]
pub(crate) fn graph_add_edge(g: &mut DiGraph<String, ()>, from: usize, to: usize)
    requires
        from < graph_nodes(*old(g)).len() <= u32::MAX,
        to < graph_nodes(*old(g)).len(),
        graph_edges(*old(g)).len() < u32::MAX,
    ensures
        graph_nodes(*final(g)) == graph_nodes(*old(g)),
        graph_edges(*final(g)) == graph_edges(*old(g)).push((from as int, to as int)),
{
    g.add_edge(NodeIndex::new(from), NodeIndex::new(to), ());
}

/// `petgraph::graph::Graph::neighbors_directed`: the other ends of the edges
/// into (`incoming`) or out of a node, the last added edge first.
#[verifier::external_body]
pub(crate) fn graph_neighbors(g: &DiGraph<String, ()>, n: usize, incoming: bool) -> (r: Vec<usize>)
    requires
        n < graph_nodes(*g).len() <= u32::MAX,
    ensures
        incoming ==> ints(r@) == sources(graph_edges(*g), n as int),
        !incoming ==> ints(r@) == targets(graph_edges(*g), n as int),
{
    let dir = if incoming { Direction::Incoming } else { Direction::Outgoing };
    g.neighbors_directed(NodeIndex::new(n), dir).map(|i| i.index()).collect()
}

/// `petgraph::algo::toposort`: the nodes in an order in which every edge goes
/// forward, or `None` if the edges form a cycle. The order depends on the
/// number of nodes and on the edges alone.
#[verifier::external_body]
pub(crate) fn graph_toposort(g: &DiGraph<String, ()>) -> (r: Option<Vec<usize>>)
    ensures
        match r {
            Some(order) => {
                &&& !has_cycle(graph_edges(*g))
                &&& ints(order@) == toposort_order(graph_nodes(*g).len(), graph_edges(*g))
                &&& is_topological(ints(order@), graph_nodes(*g).len(), graph_edges(*g))
            },
            None => has_cycle(graph_edges(*g)),
        },
{
    match petgraph::algo::toposort(g, None) {
        Ok(order) => Some(order.into_iter().map(|i| i.index()).collect()),
        Err(_) => None,
    }
}

} // verus!
