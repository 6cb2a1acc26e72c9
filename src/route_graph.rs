use petgraph::visit::EdgeRef;
use vstd::prelude::*;

verus! {

#[verifier::external_type_specification]
#[verifier::external_body]
#[verifier::reject_recursive_types(N)]
#[verifier::reject_recursive_types(E)]
#[verifier::reject_recursive_types(Ty)]
#[verifier::reject_recursive_types(Ix)]
pub struct ExGraph<N, E, Ty, Ix>(petgraph::Graph<N, E, Ty, Ix>);

#[verifier::external_type_specification]
#[verifier::external_body]
pub struct ExUndirected(petgraph::Undirected);

/// Undirected graph whose nodes carry a grid position and whose edges carry a cost.
/// Indices are `usize`, so the graph never reaches an index capacity limit.
pub type RouteGraph = petgraph::Graph<(usize, usize), u128, petgraph::Undirected, usize>;

/// An edge as stored: its two endpoints (node indices) and its weight.
pub type EdgeModel = (usize, usize, u128);

/// The node weights of a graph; a node's index is its position in this sequence.
pub uninterp spec fn graph_nodes(g: petgraph::Graph<(usize, usize), u128, petgraph::Undirected, usize>) -> Seq<(usize, usize)>;

/// The edges of a graph; an edge's index is its position in this sequence.
pub uninterp spec fn graph_edges(g: petgraph::Graph<(usize, usize), u128, petgraph::Undirected, usize>) -> Seq<(usize, usize, u128)>;

/// The (undirected) edge `e` connects `a` and `b`.
pub open spec fn joins(e: EdgeModel, a: usize, b: usize) -> bool {
    (e.0 == a && e.1 == b) || (e.0 == b && e.1 == a)
}

/// `ns` is a sequence of nodes and `es` names, for each consecutive pair, an edge joining it.
pub open spec fn is_walk(edges: Seq<EdgeModel>, ns: Seq<usize>, es: Seq<int>) -> bool {
    &&& ns.len() == es.len() + 1
    &&& forall|i: int|
        0 <= i < es.len() ==> 0 <= #[trigger] es[i] < edges.len() && joins(
            edges[es[i]],
            ns[i],
            ns[i + 1],
        )
}

/// Sum of the weights of the edges named by `es`.
pub open spec fn walk_cost(edges: Seq<EdgeModel>, es: Seq<int>) -> nat
    decreases es.len(),
{
    if es.len() == 0 {
        0
    } else {
        walk_cost(edges, es.drop_last()) + edges[es.last()].2 as nat
    }
}

/// A walk from `a` to `b`.
pub open spec fn is_route(edges: Seq<EdgeModel>, a: usize, b: usize, ns: Seq<usize>, es: Seq<int>) -> bool {
    &&& is_walk(edges, ns, es)
    &&& ns[0] == a
    &&& ns.last() == b
}

pub open spec fn reachable(edges: Seq<EdgeModel>, a: usize, b: usize) -> bool {
    exists|ns: Seq<usize>, es: Seq<int>| is_route(edges, a, b, ns, es)
}

/// `d` is the least cost of a walk from `a` to `b`.
pub open spec fn is_shortest(edges: Seq<EdgeModel>, a: usize, b: usize, d: nat) -> bool {
    &&& exists|ns: Seq<usize>, es: Seq<int>| #[trigger]
        is_route(edges, a, b, ns, es) && walk_cost(edges, es) == d
    &&& forall|ns: Seq<usize>, es: Seq<int>| #[trigger]
        is_route(edges, a, b, ns, es) ==> d <= walk_cost(edges, es)
}

/// Sum of all edge weights.
pub open spec fn total_weight(edges: Seq<EdgeModel>) -> nat
    decreases edges.len(),
{
    if edges.len() == 0 {
        0
    } else {
        total_weight(edges.drop_last()) + edges.last().2 as nat
    }
}

/// Every edge joins two nodes below `n`.
pub open spec fn edges_within(edges: Seq<EdgeModel>, n: nat) -> bool {
    forall|k: int| 0 <= k < edges.len() ==> (#[trigger] edges[k]).0 < n && edges[k].1 < n
}

/// A least cost is unique.
pub proof fn lemma_shortest_unique(edges: Seq<EdgeModel>, a: usize, b: usize, d1: nat, d2: nat)
    requires
        is_shortest(edges, a, b, d1),
        is_shortest(edges, a, b, d2),
    ensures
        d1 == d2,
{
    let (ns1, es1) = choose|ns: Seq<usize>, es: Seq<int>|
        #[trigger] is_route(edges, a, b, ns, es) && walk_cost(edges, es) == d1;
    let (ns2, es2) = choose|ns: Seq<usize>, es: Seq<int>|
        #[trigger] is_route(edges, a, b, ns, es) && walk_cost(edges, es) == d2;
    assert(is_route(edges, a, b, ns1, es1));
    assert(is_route(edges, a, b, ns2, es2));
}

/// Every node of a walk between two nodes is a node of the graph.
pub proof fn lemma_route_within(edges: Seq<EdgeModel>, n: nat, a: usize, b: usize, ns: Seq<usize>, es: Seq<int>)
    requires
        edges_within(edges, n),
        is_route(edges, a, b, ns, es),
        b < n,
    ensures
        forall|i: int| 0 <= i < ns.len() ==> #[trigger] ns[i] < n,
{
    assert forall|i: int| 0 <= i < ns.len() implies #[trigger] ns[i] < n by {
        if i < es.len() {
            assert(0 <= es[i] < edges.len());
            assert(edges[es[i]].0 < n && edges[es[i]].1 < n);
        }
    }
}

/// A walk costs at least the weight of its first edge.
pub proof fn lemma_walk_cost_first(edges: Seq<EdgeModel>, es: Seq<int>)
    requires
        es.len() >= 1,
        forall|i: int| 0 <= i < es.len() ==> 0 <= #[trigger] es[i] < edges.len(),
    ensures
        walk_cost(edges, es) >= edges[es[0]].2,
    decreases es.len(),
{
    if es.len() > 1 {
        let rest = es.drop_last();
        assert(rest[0] == es[0]);
        assert forall|i: int| 0 <= i < rest.len() implies 0 <= #[trigger] rest[i] < edges.len() by {
            assert(rest[i] == es[i]);
        }
        lemma_walk_cost_first(edges, rest);
    }
}

/// The one-node walk from `a` to itself costs nothing, so the least cost from a node to
/// itself is zero.
pub proof fn lemma_shortest_self(edges: Seq<EdgeModel>, a: usize)
    ensures
        is_shortest(edges, a, a, 0),
{
    let ns = seq![a];
    let es = Seq::<int>::empty();
    assert(is_route(edges, a, a, ns, es));
    assert(walk_cost(edges, es) == 0);
}

/// Relies on `Graph::with_capacity`: a graph with no nodes and no edges.
#[verifier::external_body]
pub(crate) fn new_route_graph() -> (g: RouteGraph)
    ensures
        graph_nodes(g) == Seq::<(usize, usize)>::empty(),
        graph_edges(g) == Seq::<EdgeModel>::empty(),
{
    petgraph::Graph::with_capacity(0, 0)
}

/// Relies on `Graph::add_node`: the node is appended, its index is the former node count,
/// and the edges are untouched.
#[verifier::external_body]
pub(crate) fn add_route_node(g: &mut RouteGraph, at: (usize, usize)) -> (r: usize)
    ensures
        graph_nodes(*final(g)) == graph_nodes(*old(g)).push(at),
        graph_edges(*final(g)) == graph_edges(*old(g)),
        r == graph_nodes(*old(g)).len(),
{
    g.add_node(at).index()
}

/// Relies on `Graph::add_edge`: the edge is appended and its index is the former edge count.
/// It panics unless both endpoints are nodes of the graph.
#[verifier::external_body]
pub(crate) fn add_route_edge(g: &mut RouteGraph, a: usize, b: usize, weight: u128) -> (r: usize)
    requires
        a < graph_nodes(*old(g)).len(),
        b < graph_nodes(*old(g)).len(),
    ensures
        graph_nodes(*final(g)) == graph_nodes(*old(g)),
        graph_edges(*final(g)) == graph_edges(*old(g)).push((a, b, weight)),
        r == graph_edges(*old(g)).len(),
{
    g.add_edge(petgraph::graph::NodeIndex::new(a), petgraph::graph::NodeIndex::new(b), weight).index()
}

/// Relies on `petgraph::algo::dijkstra` with `b` as goal: `b` is in the returned map exactly
/// when a walk reaches it, with the least walk cost. Costs are summed in `u128`; a relaxed score
/// is the cost of a path without repeated nodes (visited nodes are skipped), so the sum of all
/// weights must fit.
#[verifier::external_body]
pub(crate) fn dijkstra_cost(g: &RouteGraph, a: usize, b: usize) -> (r: Option<u128>)
    requires
        a < graph_nodes(*g).len(),
        b < graph_nodes(*g).len(),
        edges_within(graph_edges(*g), graph_nodes(*g).len()),
        total_weight(graph_edges(*g)) <= u128::MAX,
    ensures
        r is Some <==> reachable(graph_edges(*g), a, b),
        r matches Some(d) ==> is_shortest(graph_edges(*g), a, b, d as nat),
{
    let goal = petgraph::graph::NodeIndex::new(b);
    let scores = petgraph::algo::dijkstra(g, petgraph::graph::NodeIndex::new(a), Some(goal), |e| *e.weight());
    scores.get(&goal).copied()
}

/// Relies on `petgraph::algo::astar` with a zero estimate: when a walk from `a` to `b` exists
/// it returns the least walk cost and the nodes of a walk of that cost, from `a` to `b`.
/// The start is tested as goal when it is first taken from the queue, before any edge is
/// followed, so from a node to itself it returns cost 0 and the one-node path.
/// Costs are summed in `u128`; a relaxed score is a least cost plus one edge weight (edges back
/// to expanded nodes are relaxed too), so twice the sum of all weights must fit.
#[verifier::external_body]
pub(crate) fn astar_route(g: &RouteGraph, a: usize, b: usize) -> (r: Option<(u128, Vec<usize>)>)
    requires
        a < graph_nodes(*g).len(),
        b < graph_nodes(*g).len(),
        edges_within(graph_edges(*g), graph_nodes(*g).len()),
        2 * total_weight(graph_edges(*g)) <= u128::MAX,
    ensures
        r is Some <==> reachable(graph_edges(*g), a, b),
        r matches Some((d, p)) ==> is_shortest(graph_edges(*g), a, b, d as nat) && exists|es: Seq<int>|
            #[trigger] is_route(graph_edges(*g), a, b, p@, es) && walk_cost(graph_edges(*g), es) == d,
        r matches Some((d, p)) ==> (a == b ==> d == 0 && p@ == seq![a]),
{
    let goal = petgraph::graph::NodeIndex::new(b);
    let found = petgraph::algo::astar(g, petgraph::graph::NodeIndex::new(a), |n| n == goal, |e| *e.weight(), |_| 0u128);
    found.map(|(d, p)| (d, p.into_iter().map(|n| n.index()).collect()))
}

} // verus!
