use vstd::prelude::*;

use crate::charted_coordinate::{lemma_close_iff, ChartedCoordinate};
use crate::charted_tile::{
    climb_penalty, eval_weight, grid_view, is_node, is_square, is_teleport, step_cost, tile_at, ChartedTile, Grid,
    TELEPORT_COST,
};
use crate::route_graph::{
    add_route_edge, add_route_node, edges_within, graph_edges, graph_nodes, total_weight, EdgeModel,
    RouteGraph,
};

verus! {

/// Position of a graph node's weight.
pub open spec fn pos(n: (usize, usize)) -> ChartedCoordinate {
    ChartedCoordinate(n.0, n.1)
}

/// The index table as rows of optional node indices.
pub open spec fn table_view(ix: &Vec<Vec<Option<usize>>>) -> Seq<Seq<Option<usize>>> {
    ix@.map_values(|row: Vec<Option<usize>>| row@)
}

/// Cell `(r, c)` holds a node index exactly when its tile is a node, and that node sits at `(r, c)`.
pub open spec fn cell_indexed(
    g: Seq<Seq<Option<ChartedTile>>>,
    ix: Seq<Seq<Option<usize>>>,
    nodes: Seq<(usize, usize)>,
    r: int,
    c: int,
) -> bool {
    &&& (ix[r][c] is Some <==> is_node(g, ChartedCoordinate(r as usize, c as usize)))
    &&& ix[r][c] matches Some(k) ==> k < nodes.len() && nodes[k as int] == (r as usize, c as usize)
}

/// Node `k` sits inside the grid and the table sends its position back to `k`.
pub open spec fn node_indexed(
    g: Seq<Seq<Option<ChartedTile>>>,
    ix: Seq<Seq<Option<usize>>>,
    nodes: Seq<(usize, usize)>,
    k: int,
) -> bool {
    &&& nodes[k].0 < g.len()
    &&& nodes[k].1 < g.len()
    &&& ix[nodes[k].0 as int][nodes[k].1 as int] == Some(k as usize)
}

/// The index table and the node list describe the same one-to-one correspondence between
/// node tiles and node indices.
pub open spec fn index_table(
    g: Seq<Seq<Option<ChartedTile>>>,
    ix: Seq<Seq<Option<usize>>>,
    nodes: Seq<(usize, usize)>,
) -> bool {
    &&& ix.len() == g.len()
    &&& forall|r: int| 0 <= r < g.len() ==> (#[trigger] ix[r]).len() == g.len()
    &&& forall|r: int, c: int|
        0 <= r < g.len() && 0 <= c < g.len() ==> #[trigger] cell_indexed(g, ix, nodes, r, c)
    &&& forall|k: int| 0 <= k < nodes.len() ==> #[trigger] node_indexed(g, ix, nodes, k)
}

/// Row-major order: `(r, c)` comes before `(i, j)`.
pub open spec fn before(r: int, c: int, i: int, j: int) -> bool {
    r < i || (r == i && c < j)
}

/// Node indices follow row-major order of their positions.
pub open spec fn nodes_in_scan_order(nodes: Seq<(usize, usize)>) -> bool {
    forall|k: int, l: int|
        0 <= k < l < nodes.len() ==> #[trigger] before(
            nodes[k].0 as int,
            nodes[k].1 as int,
            nodes[l].0 as int,
            nodes[l].1 as int,
        )
}

/// The positions are listed in row-major order.
pub open spec fn cells_in_scan_order(cells: Seq<ChartedCoordinate>) -> bool {
    forall|k: int, l: int|
        0 <= k < l < cells.len() ==> #[trigger] before(
            cells[k].0 as int,
            cells[k].1 as int,
            cells[l].0 as int,
            cells[l].1 as int,
        )
}

/// No two edges have the same ordered pair of endpoints.
pub open spec fn distinct_endpoints(edges: Seq<EdgeModel>) -> bool {
    forall|k1: int, k2: int|
        0 <= k1 < k2 < edges.len() ==> (#[trigger] edges[k1]).0 != (#[trigger] edges[k2]).0 || edges[k1].1
            != edges[k2].1
}

/// Every edge starts at a node placed before `(i, j)` in row-major order.
pub open spec fn sources_before(nodes: Seq<(usize, usize)>, edges: Seq<EdgeModel>, i: int, j: int) -> bool {
    forall|k: int|
        0 <= k < edges.len() ==> before(
            nodes[(#[trigger] edges[k]).0 as int].0 as int,
            nodes[edges[k].0 as int].1 as int,
            i,
            j,
        )
}

/// Appending an edge whose endpoints no edge has yet keeps the endpoints distinct.
proof fn lemma_push_distinct(edges: Seq<EdgeModel>, x: EdgeModel)
    requires
        distinct_endpoints(edges),
        forall|k: int| 0 <= k < edges.len() ==> (#[trigger] edges[k]).0 != x.0 || edges[k].1 != x.1,
    ensures
        distinct_endpoints(edges.push(x)),
{
    let more = edges.push(x);
    assert forall|k1: int, k2: int| 0 <= k1 < k2 < more.len() implies (#[trigger] more[k1]).0 != (
    #[trigger] more[k2]).0 || more[k1].1 != more[k2].1 by {
        assert(more[k1] == edges[k1]);
        if k2 < edges.len() {
            assert(more[k2] == edges[k2]);
        }
    }
}

/// Node `k` is indexed and lies before `(i, j)` in row-major order.
pub open spec fn node_placed(
    g: Seq<Seq<Option<ChartedTile>>>,
    ix: Seq<Seq<Option<usize>>>,
    nodes: Seq<(usize, usize)>,
    k: int,
    i: int,
    j: int,
) -> bool {
    &&& before(nodes[k].0 as int, nodes[k].1 as int, i, j)
    &&& node_indexed(g, ix, nodes, k)
}

/// Stored edge `e` joins a tile to its right or lower neighbour at the cost of that step.
pub open spec fn grid_edge(g: Seq<Seq<Option<ChartedTile>>>, nodes: Seq<(usize, usize)>, e: EdgeModel) -> bool {
    let p = pos(nodes[e.0 as int]);
    let q = pos(nodes[e.1 as int]);
    &&& (q.0 == p.0 && q.1 == p.1 + 1) || (q.0 == p.0 + 1 && q.1 == p.1)
    &&& e.2 == step_cost(tile_at(g, p), tile_at(g, q))
}

/// Stored edge `e` is a grid edge or a teleport edge.
pub open spec fn sound_edge(g: Seq<Seq<Option<ChartedTile>>>, nodes: Seq<(usize, usize)>, e: EdgeModel) -> bool {
    grid_edge(g, nodes, e) || teleport_edge(g, nodes, e)
}

/// Stored edge `e` joins two distinct teleports at the teleport fee.
pub open spec fn teleport_edge(g: Seq<Seq<Option<ChartedTile>>>, nodes: Seq<(usize, usize)>, e: EdgeModel) -> bool {
    let p = pos(nodes[e.0 as int]);
    let q = pos(nodes[e.1 as int]);
    is_teleport(g, p) && is_teleport(g, q) && p != q && e.2 == TELEPORT_COST
}

/// Some stored edge of index at least `lo` goes from `a` to `b` with weight `w`.
pub open spec fn has_edge_after(edges: Seq<EdgeModel>, lo: int, a: usize, b: usize, w: int) -> bool {
    exists|k: int| lo <= k < edges.len() && (#[trigger] edges[k]).0 == a && edges[k].1 == b && edges[k].2 == w
}

/// Some stored edge goes from `a` to `b` with weight `w`.
pub open spec fn has_edge(edges: Seq<EdgeModel>, a: usize, b: usize, w: int) -> bool {
    exists|k: int| 0 <= k < edges.len() && (#[trigger] edges[k]).0 == a && edges[k].1 == b && edges[k].2 == w
}

/// Node index of the tile at `c` in table `ix`.
pub open spec fn index_of(ix: Seq<Seq<Option<usize>>>, c: ChartedCoordinate) -> usize {
    ix[c.0 as int][c.1 as int].unwrap()
}

/// If the tile at `(r, c)` and its right neighbour are nodes, an edge joins them at the cost of
/// the step to the right; likewise for the lower neighbour.
pub open spec fn grid_linked(
    g: Seq<Seq<Option<ChartedTile>>>,
    ix: Seq<Seq<Option<usize>>>,
    edges: Seq<EdgeModel>,
    r: int,
    c: int,
) -> bool {
    let here = ChartedCoordinate(r as usize, c as usize);
    let right = ChartedCoordinate(r as usize, (c + 1) as usize);
    let down = ChartedCoordinate((r + 1) as usize, c as usize);
    &&& (c + 1 < g.len() && is_node(g, here) && is_node(g, right)) ==> has_edge(
        edges,
        index_of(ix, here),
        index_of(ix, right),
        step_cost(tile_at(g, here), tile_at(g, right)) as int,
    )
    &&& (r + 1 < g.len() && is_node(g, here) && is_node(g, down)) ==> has_edge(
        edges,
        index_of(ix, here),
        index_of(ix, down),
        step_cost(tile_at(g, here), tile_at(g, down)) as int,
    )
}

/// Two distinct teleports are joined by an edge of index at least `lo`, at the teleport fee.
pub open spec fn teleports_linked(
    g: Seq<Seq<Option<ChartedTile>>>,
    ix: Seq<Seq<Option<usize>>>,
    edges: Seq<EdgeModel>,
    lo: int,
    p: ChartedCoordinate,
    q: ChartedCoordinate,
) -> bool {
    (is_teleport(g, p) && is_teleport(g, q) && p != q) ==> (has_edge_after(
        edges,
        lo,
        index_of(ix, p),
        index_of(ix, q),
        TELEPORT_COST as int,
    ) || has_edge_after(edges, lo, index_of(ix, q), index_of(ix, p), TELEPORT_COST as int))
}

/// Number of teleport nodes in grid `g`.
pub open spec fn teleport_count(g: Seq<Seq<Option<ChartedTile>>>) -> nat {
    rows_teleports(g, g.len() as int)
}

/// Twice `pairs_from(t, a)` is `a * (2t - a - 1)`; in particular `pairs_from(t, t)` is
/// `t(t - 1)/2`, the number of unordered pairs of `t` items.
pub proof fn lemma_pairs_count(t: int, a: int)
    requires
        0 <= a <= t,
    ensures
        2 * pairs_from(t, a) == a * (2 * t - a - 1),
    decreases a,
{
    if a > 0 {
        lemma_pairs_count(t, a - 1);
        assert(pairs_from(t, a) == pairs_from(t, a - 1) + (t - a));
        assert((a - 1) * (2 * t - (a - 1) - 1) + 2 * (t - a) == a * (2 * t - a - 1)) by (nonlinear_arith);
    } else {
        assert(a * (2 * t - a - 1) == 0) by (nonlinear_arith)
            requires
                a == 0,
        ;
    }
}

/// An edge found past `lo` in a sequence is still found there after more edges are appended.
pub(crate) proof fn lemma_has_edge_after_extends(
    edges: Seq<EdgeModel>,
    more: Seq<EdgeModel>,
    lo: int,
    a: usize,
    b: usize,
    w: int,
)
    requires
        0 <= lo,
        has_edge_after(edges, lo, a, b, w),
        edges.len() <= more.len(),
        forall|k: int| 0 <= k < edges.len() ==> more[k] == edges[k],
    ensures
        has_edge_after(more, lo, a, b, w),
{
    let k = choose|k: int| lo <= k < edges.len() && (#[trigger] edges[k]).0 == a && edges[k].1 == b && edges[k].2 == w;
    assert(more[k] == edges[k]);
}

/// An edge found in a sequence is still found after more edges are appended.
pub(crate) proof fn lemma_has_edge_extends(edges: Seq<EdgeModel>, more: Seq<EdgeModel>, a: usize, b: usize, w: int)
    requires
        has_edge(edges, a, b, w),
        edges.len() <= more.len(),
        forall|k: int| 0 <= k < edges.len() ==> more[k] == edges[k],
    ensures
        has_edge(more, a, b, w),
{
    let k = choose|k: int| 0 <= k < edges.len() && (#[trigger] edges[k]).0 == a && edges[k].1 == b && edges[k].2 == w;
    assert(more[k] == edges[k]);
}

/// Appends an edge; the weight sum grows by its weight.
pub(crate) fn push_edge(graph: &mut RouteGraph, a: usize, b: usize, w: u128) -> (r: usize)
    requires
        a < graph_nodes(*old(graph)).len(),
        b < graph_nodes(*old(graph)).len(),
    ensures
        graph_nodes(*final(graph)) == graph_nodes(*old(graph)),
        graph_edges(*final(graph)) == graph_edges(*old(graph)).push((a, b, w)),
        total_weight(graph_edges(*final(graph))) == total_weight(graph_edges(*old(graph))) + w,
        r == graph_edges(*old(graph)).len(),
{
    let r = add_route_edge(graph, a, b, w);
    proof {
        assert(graph_edges(*graph).drop_last() == graph_edges(*old(graph)));
    }
    r
}

/// Weight of the edges from tile `(r, c)` to its right and lower neighbours, counting each
/// only when both of its ends are nodes.
pub open spec fn cell_weight(g: Seq<Seq<Option<ChartedTile>>>, r: int, c: int) -> nat {
    let here = ChartedCoordinate(r as usize, c as usize);
    let right = ChartedCoordinate(r as usize, (c + 1) as usize);
    let down = ChartedCoordinate((r + 1) as usize, c as usize);
    (if c + 1 < g.len() && is_node(g, here) && is_node(g, right) {
        step_cost(tile_at(g, here), tile_at(g, right))
    } else {
        0
    }) + (if r + 1 < g.len() && is_node(g, here) && is_node(g, down) {
        step_cost(tile_at(g, here), tile_at(g, down))
    } else {
        0
    })
}

/// Sum of `cell_weight` over the first `j` tiles of row `r`.
pub open spec fn row_weight(g: Seq<Seq<Option<ChartedTile>>>, r: int, j: int) -> nat
    decreases j,
{
    if j <= 0 {
        0
    } else {
        row_weight(g, r, j - 1) + cell_weight(g, r, j - 1)
    }
}

/// Sum of `cell_weight` over the first `i` rows.
pub open spec fn rows_weight(g: Seq<Seq<Option<ChartedTile>>>, i: int) -> nat
    decreases i,
{
    if i <= 0 {
        0
    } else {
        rows_weight(g, i - 1) + row_weight(g, i - 1, g.len() as int)
    }
}

/// Number of teleport nodes among the first `j` tiles of row `r`.
pub open spec fn row_teleports(g: Seq<Seq<Option<ChartedTile>>>, r: int, j: int) -> nat
    decreases j,
{
    if j <= 0 {
        0
    } else {
        row_teleports(g, r, j - 1) + if is_teleport(g, ChartedCoordinate(r as usize, (j - 1) as usize)) {
            1nat
        } else {
            0nat
        }
    }
}

/// Number of teleport nodes in the first `i` rows.
pub open spec fn rows_teleports(g: Seq<Seq<Option<ChartedTile>>>, i: int) -> nat
    decreases i,
{
    if i <= 0 {
        0
    } else {
        rows_teleports(g, i - 1) + row_teleports(g, i - 1, g.len() as int)
    }
}

/// `(t - 1) + (t - 2) + ... + (t - a)`: the pairs that the first `a` of `t` items form with
/// the items after them.
pub open spec fn pairs_from(t: int, a: int) -> nat
    decreases a,
{
    if a <= 0 {
        0
    } else {
        pairs_from(t, a - 1) + (t - a) as nat
    }
}

/// Sum of the weights of all edges the graph of grid `g` has: one per pair of neighbouring
/// nodes, plus one teleport fee per pair of teleports.
pub open spec fn grid_weight(g: Seq<Seq<Option<ChartedTile>>>) -> nat {
    let t = rows_teleports(g, g.len() as int);
    rows_weight(g, g.len() as int) + TELEPORT_COST as nat * pairs_from(t as int, t as int)
}

/// Largest grid side accepted: a grid this large would hold 2^48 tiles, far more than any
/// machine's memory, and it keeps every sum of edge weights well inside `u128`.
pub const MAX_SIDE: usize = 16_777_216;

/// One step costs less than 2^64.
pub proof fn lemma_step_cost_bound(from: ChartedTile, to: ChartedTile)
    ensures
        step_cost(from, to) < 0x1_0000_0000_0000_0000,
{
    if from.elevation < to.elevation {
        let d: int = to.elevation - from.elevation;
        assert(d * d <= 0xffff_ffff * 0xffff_ffff) by (nonlinear_arith)
            requires
                0 <= d <= 0xffff_ffff,
        ;
    }
    assert(climb_penalty(from, to) <= 0xffff_fffe_0000_0001);
}

proof fn lemma_cell_weight_bound(g: Seq<Seq<Option<ChartedTile>>>, r: int, c: int)
    ensures
        cell_weight(g, r, c) <= 0x2_0000_0000_0000_0000,
{
    let here = ChartedCoordinate(r as usize, c as usize);
    let right = ChartedCoordinate(r as usize, (c + 1) as usize);
    let down = ChartedCoordinate((r + 1) as usize, c as usize);
    lemma_step_cost_bound(tile_at(g, here), tile_at(g, right));
    lemma_step_cost_bound(tile_at(g, here), tile_at(g, down));
}

proof fn lemma_row_weight_bound(g: Seq<Seq<Option<ChartedTile>>>, r: int, j: int)
    requires
        0 <= j,
    ensures
        row_weight(g, r, j) <= j * 0x2_0000_0000_0000_0000,
    decreases j,
{
    if j > 0 {
        lemma_row_weight_bound(g, r, j - 1);
        lemma_cell_weight_bound(g, r, j - 1);
    }
}

proof fn lemma_rows_weight_bound(g: Seq<Seq<Option<ChartedTile>>>, i: int)
    requires
        0 <= i,
    ensures
        rows_weight(g, i) <= i * (g.len() * 0x2_0000_0000_0000_0000),
    decreases i,
{
    if i > 0 {
        lemma_rows_weight_bound(g, i - 1);
        lemma_row_weight_bound(g, i - 1, g.len() as int);
        let k = g.len() * 0x2_0000_0000_0000_0000;
        assert((i - 1) * k + k == i * k) by (nonlinear_arith);
    }
}

proof fn lemma_row_teleports_bound(g: Seq<Seq<Option<ChartedTile>>>, r: int, j: int)
    requires
        0 <= j,
    ensures
        row_teleports(g, r, j) <= j,
    decreases j,
{
    if j > 0 {
        lemma_row_teleports_bound(g, r, j - 1);
    }
}

proof fn lemma_rows_teleports_bound(g: Seq<Seq<Option<ChartedTile>>>, i: int)
    requires
        0 <= i,
    ensures
        rows_teleports(g, i) <= i * g.len(),
    decreases i,
{
    if i > 0 {
        lemma_rows_teleports_bound(g, i - 1);
        lemma_row_teleports_bound(g, i - 1, g.len() as int);
        let n = g.len() as int;
        assert((i - 1) * n + n == i * n) by (nonlinear_arith);
    }
}

proof fn lemma_pairs_bound(t: int, a: int)
    requires
        0 <= a <= t,
    ensures
        pairs_from(t, a) <= a * t,
    decreases a,
{
    if a > 0 {
        lemma_pairs_bound(t, a - 1);
        assert((a - 1) * t + t == a * t) by (nonlinear_arith);
    }
}

/// On a grid of side at most `MAX_SIDE`, twice the weight of all edges fits in `u128`.
pub proof fn lemma_grid_weight_bound(g: Seq<Seq<Option<ChartedTile>>>)
    requires
        g.len() <= MAX_SIDE,
    ensures
        2 * grid_weight(g) <= u128::MAX,
{
    let n = g.len() as int;
    lemma_rows_weight_bound(g, n);
    lemma_rows_teleports_bound(g, n);
    let t = rows_teleports(g, n) as int;
    lemma_pairs_bound(t, t);
    let w = rows_weight(g, n) as int;
    let p = pairs_from(t, t) as int;
    assert(n * (n * 0x2_0000_0000_0000_0000) <= 0x2_0000_0000_0000_0000_0000_0000_0000) by (nonlinear_arith)
        requires
            0 <= n <= 0x100_0000,
    ;
    assert(n * n <= 0x1_0000_0000_0000) by (nonlinear_arith)
        requires
            0 <= n <= 0x100_0000,
    ;
    assert(t * t <= 0x1_0000_0000_0000_0000_0000_0000) by (nonlinear_arith)
        requires
            0 <= t <= 0x1_0000_0000_0000,
    ;
}

/// Creates one node per discovered, walkable tile in row-major order, fills the index table,
/// and lists the teleport nodes.
pub(crate) fn adds_nodes(
    matrix: &Grid,
    dim: usize,
    indexes: &mut Vec<Vec<Option<usize>>>,
    graph: &mut RouteGraph,
    teleports: &mut Vec<ChartedCoordinate>,
)
    requires
        is_square(grid_view(matrix)),
        dim == matrix@.len(),
        old(indexes)@.len() == 0,
        graph_nodes(*old(graph)).len() == 0,
        graph_edges(*old(graph)).len() == 0,
        old(teleports)@.len() == 0,
    ensures
        graph_edges(*final(graph)).len() == 0,
        index_table(grid_view(matrix), table_view(final(indexes)), graph_nodes(*final(graph))),
        final(teleports)@.no_duplicates(),
        forall|t: int|
            0 <= t < final(teleports)@.len() ==> is_teleport(
                grid_view(matrix),
                #[trigger] final(teleports)@[t],
            ),
        forall|c: ChartedCoordinate|
            is_teleport(grid_view(matrix), c) ==> #[trigger] final(teleports)@.contains(c),
        final(teleports)@.len() == rows_teleports(grid_view(matrix), dim as int),
        nodes_in_scan_order(graph_nodes(*final(graph))),
        cells_in_scan_order(final(teleports)@),
{
    let ghost g = grid_view(matrix);
    let mut i: usize = 0;
    while i < dim
        invariant
            g == grid_view(matrix),
            is_square(g),
            dim == g.len(),
            0 <= i <= dim,
            indexes@.len() == i,
            forall|r: int| 0 <= r < i ==> (#[trigger] indexes@[r])@.len() == dim,
            graph_edges(*graph).len() == 0,
            forall|r: int, c: int|
                0 <= r < i && 0 <= c < dim ==> #[trigger] cell_indexed(
                    g,
                    table_view(indexes),
                    graph_nodes(*graph),
                    r,
                    c,
                ),
            forall|k: int|
                0 <= k < graph_nodes(*graph).len() ==> #[trigger] node_placed(
                    g,
                    table_view(indexes),
                    graph_nodes(*graph),
                    k,
                    i as int,
                    0,
                ),
            teleports@.no_duplicates(),
            forall|t: int|
                0 <= t < teleports@.len() ==> (#[trigger] teleports@[t]).0 < i && is_teleport(
                    g,
                    teleports@[t],
                ),
            forall|c: ChartedCoordinate|
                c.0 < i && is_teleport(g, c) ==> #[trigger] teleports@.contains(c),
            teleports@.len() == rows_teleports(g, i as int),
            nodes_in_scan_order(graph_nodes(*graph)),
            cells_in_scan_order(teleports@),
        decreases dim - i,
    {
        let mut row: Vec<Option<usize>> = Vec::with_capacity(dim);
        let ghost rows = table_view(indexes);
        proof {
            assert forall|r: int, c: int|
                0 <= c < dim && before(r, c, i as int, 0) && 0 <= r implies #[trigger] cell_indexed(
                    g,
                    rows.push(row@),
                    graph_nodes(*graph),
                    r,
                    c,
                ) by {
                assert(cell_indexed(g, rows, graph_nodes(*graph), r, c));
                assert(rows.push(row@)[r] == rows[r]);
            }
            assert forall|k: int| 0 <= k < graph_nodes(*graph).len() implies #[trigger] node_placed(
                g,
                rows.push(row@),
                graph_nodes(*graph),
                k,
                i as int,
                0,
            ) by {
                assert(node_placed(g, rows, graph_nodes(*graph), k, i as int, 0));
                assert(rows.push(row@)[graph_nodes(*graph)[k].0 as int] == rows[graph_nodes(*graph)[k].0 as int]);
            }
        }
        let mut j: usize = 0;
        while j < dim
            invariant
                g == grid_view(matrix),
                is_square(g),
                dim == g.len(),
                0 <= i < dim,
                0 <= j <= dim,
                indexes@.len() == i,
                rows == table_view(indexes),
                row@.len() == j,
                forall|r: int| 0 <= r < i ==> (#[trigger] indexes@[r])@.len() == dim,
                graph_edges(*graph).len() == 0,
                forall|r: int, c: int|
                    0 <= c < dim && before(r, c, i as int, j as int) && 0 <= r ==> #[trigger] cell_indexed(
                        g,
                        rows.push(row@),
                        graph_nodes(*graph),
                        r,
                        c,
                    ),
                forall|k: int|
                    0 <= k < graph_nodes(*graph).len() ==> #[trigger] node_placed(
                        g,
                        rows.push(row@),
                        graph_nodes(*graph),
                        k,
                        i as int,
                        j as int,
                    ),
                teleports@.no_duplicates(),
                forall|t: int|
                    0 <= t < teleports@.len() ==> before(
                        (#[trigger] teleports@[t]).0 as int,
                        teleports@[t].1 as int,
                        i as int,
                        j as int,
                    ) && is_teleport(g, teleports@[t]),
                forall|c: ChartedCoordinate|
                    before(c.0 as int, c.1 as int, i as int, j as int) && is_teleport(g, c)
                        ==> #[trigger] teleports@.contains(c),
                teleports@.len() == rows_teleports(g, i as int) + row_teleports(g, i as int, j as int),
                nodes_in_scan_order(graph_nodes(*graph)),
                cells_in_scan_order(teleports@),
            decreases dim - j,
        {
            let ghost old_row = row@;
            let ghost old_nodes = graph_nodes(*graph);
            let ghost old_tp = teleports@;
            let line = &matrix[i];
            assert(line@ == g[i as int]);
            assert(line@.len() == dim);
            let here = ChartedCoordinate(i, j);
            let ghost t_before = rows.push(row@);
            match line[j] {
                None => {
                    row.push(None);
                },
                Some(tile) => {
                    if !tile.walkable {
                        row.push(None);
                    } else {
                        let node = add_route_node(graph, (i, j));
                        proof {
                            let nodes = graph_nodes(*graph);
                            assert forall|k: int, l: int| 0 <= k < l < nodes.len() implies #[trigger] before(
                                nodes[k].0 as int,
                                nodes[k].1 as int,
                                nodes[l].0 as int,
                                nodes[l].1 as int,
                            ) by {
                                if l == old_nodes.len() {
                                    assert(node_placed(g, t_before, old_nodes, k, i as int, j as int));
                                } else {
                                    assert(before(
                                        old_nodes[k].0 as int,
                                        old_nodes[k].1 as int,
                                        old_nodes[l].0 as int,
                                        old_nodes[l].1 as int,
                                    ));
                                }
                            }
                        }
                        if tile.teleport {
                            teleports.push(here);
                            proof {
                                let tps = teleports@;
                                assert forall|k: int, l: int| 0 <= k < l < tps.len() implies #[trigger] before(
                                    tps[k].0 as int,
                                    tps[k].1 as int,
                                    tps[l].0 as int,
                                    tps[l].1 as int,
                                ) by {
                                    if l == old_tp.len() {
                                        assert(before(old_tp[k].0 as int, old_tp[k].1 as int, i as int, j as int));
                                    } else {
                                        assert(before(
                                            old_tp[k].0 as int,
                                            old_tp[k].1 as int,
                                            old_tp[l].0 as int,
                                            old_tp[l].1 as int,
                                        ));
                                    }
                                }
                            }
                            assert(!old_tp.contains(here)) by {
                                if old_tp.contains(here) {
                                    let t = choose|t: int| 0 <= t < old_tp.len() && old_tp[t] == here;
                                    assert(before(old_tp[t].0 as int, old_tp[t].1 as int, i as int, j as int));
                                }
                            }
                        }
                        row.push(Some(node));
                    }
                },
            }
            proof {
                let t_old = rows.push(old_row);
                let t_new = rows.push(row@);
                assert forall|r: int, c: int|
                    0 <= c < dim && before(r, c, i as int, j as int + 1) && 0 <= r implies #[trigger] cell_indexed(
                        g,
                        t_new,
                        graph_nodes(*graph),
                        r,
                        c,
                    ) by {
                    if before(r, c, i as int, j as int) {
                        assert(cell_indexed(g, t_old, old_nodes, r, c));
                        assert(t_new[r][c] == t_old[r][c]);
                    }
                }
                assert forall|k: int| 0 <= k < graph_nodes(*graph).len() implies #[trigger] node_placed(
                    g,
                    t_new,
                    graph_nodes(*graph),
                    k,
                    i as int,
                    j as int + 1,
                ) by {
                    let nk = graph_nodes(*graph)[k];
                    if k < old_nodes.len() {
                        assert(node_placed(g, t_old, old_nodes, k, i as int, j as int));
                        assert(nk == old_nodes[k]);
                        if nk.0 == i {
                            assert(t_new[i as int] == row@);
                            assert(t_old[i as int] == old_row);
                            assert(row@[nk.1 as int] == old_row[nk.1 as int]);
                        } else {
                            assert(t_new[nk.0 as int] == t_old[nk.0 as int]);
                        }
                    } else {
                        assert(nk == (i, j));
                        assert(t_new[i as int] == row@);
                    }
                }
                assert forall|c: ChartedCoordinate|
                    before(c.0 as int, c.1 as int, i as int, j as int + 1) && is_teleport(g, c)
                        implies #[trigger] teleports@.contains(c) by {
                    if before(c.0 as int, c.1 as int, i as int, j as int) {
                        assert(old_tp.contains(c));
                        let t = choose|t: int| 0 <= t < old_tp.len() && old_tp[t] == c;
                        assert(teleports@[t] == c);
                    } else {
                        assert(c == here);
                        assert(teleports@.last() == here);
                    }
                }
            }
            j = j + 1;
        }
        indexes.push(row);
        proof {
            assert(table_view(indexes) == rows.push(row@));
            assert forall|k: int| 0 <= k < graph_nodes(*graph).len() implies #[trigger] node_placed(
                g,
                table_view(indexes),
                graph_nodes(*graph),
                k,
                i as int + 1,
                0,
            ) by {
                assert(node_placed(g, rows.push(row@), graph_nodes(*graph), k, i as int, dim as int));
            }
        }
        i = i + 1;
    }
    assert forall|k: int| 0 <= k < graph_nodes(*graph).len() implies #[trigger] node_indexed(
        g,
        table_view(indexes),
        graph_nodes(*graph),
        k,
    ) by {
        assert(node_placed(g, table_view(indexes), graph_nodes(*graph), k, dim as int, 0));
    }
}

/// Joins every node to its right and lower neighbours when those are nodes too, each edge
/// weighted by the step cost in scan direction.
pub(crate) fn add_grid_edges(
    map: &Grid,
    dim: usize,
    indexes: &Vec<Vec<Option<usize>>>,
    graph: &mut RouteGraph,
)
    requires
        is_square(grid_view(map)),
        dim == map@.len(),
        index_table(grid_view(map), table_view(indexes), graph_nodes(*old(graph))),
        graph_edges(*old(graph)).len() == 0,
    ensures
        graph_nodes(*final(graph)) == graph_nodes(*old(graph)),
        edges_within(graph_edges(*final(graph)), graph_nodes(*final(graph)).len()),
        forall|k: int|
            0 <= k < graph_edges(*final(graph)).len() ==> grid_edge(
                grid_view(map),
                graph_nodes(*final(graph)),
                #[trigger] graph_edges(*final(graph))[k],
            ),
        forall|r: int, c: int|
            0 <= r < dim && 0 <= c < dim ==> #[trigger] grid_linked(
                grid_view(map),
                table_view(indexes),
                graph_edges(*final(graph)),
                r,
                c,
            ),
        total_weight(graph_edges(*final(graph))) == rows_weight(grid_view(map), dim as int),
        distinct_endpoints(graph_edges(*final(graph))),
{
    let ghost g = grid_view(map);
    let ghost ix = table_view(indexes);
    let ghost nodes = graph_nodes(*graph);
    proof {
        assert(total_weight(graph_edges(*graph)) == 0);
    }
    let mut i: usize = 0;
    while i < dim
        invariant
            g == grid_view(map),
            ix == table_view(indexes),
            is_square(g),
            dim == g.len(),
            0 <= i <= dim,
            index_table(g, ix, nodes),
            graph_nodes(*graph) == nodes,
            edges_within(graph_edges(*graph), nodes.len()),
            forall|k: int|
                0 <= k < graph_edges(*graph).len() ==> grid_edge(
                    g,
                    nodes,
                    #[trigger] graph_edges(*graph)[k],
                ),
            forall|r: int, c: int|
                0 <= r < i && 0 <= c < dim ==> #[trigger] grid_linked(g, ix, graph_edges(*graph), r, c),
            total_weight(graph_edges(*graph)) == rows_weight(g, i as int),
            distinct_endpoints(graph_edges(*graph)),
            sources_before(nodes, graph_edges(*graph), i as int, 0),
        decreases dim - i,
    {
        let mut j: usize = 0;
        while j < dim
            invariant
                g == grid_view(map),
                ix == table_view(indexes),
                is_square(g),
                dim == g.len(),
                0 <= i < dim,
                0 <= j <= dim,
                index_table(g, ix, nodes),
                graph_nodes(*graph) == nodes,
                edges_within(graph_edges(*graph), nodes.len()),
                forall|k: int|
                    0 <= k < graph_edges(*graph).len() ==> grid_edge(
                        g,
                        nodes,
                        #[trigger] graph_edges(*graph)[k],
                    ),
                forall|r: int, c: int|
                    0 <= r && 0 <= c < dim && before(r, c, i as int, j as int) ==> #[trigger] grid_linked(
                        g,
                        ix,
                        graph_edges(*graph),
                        r,
                        c,
                    ),
                    total_weight(graph_edges(*graph)) == rows_weight(g, i as int) + row_weight(g, i as int, j as int),
                distinct_endpoints(graph_edges(*graph)),
                sources_before(nodes, graph_edges(*graph), i as int, j as int),
            decreases dim - j,
        {
            let ghost start = graph_edges(*graph);
            let line = &indexes[i];
            assert(line@ == ix[i as int]);
            assert(cell_indexed(g, ix, nodes, i as int, j as int));
            let here = ChartedCoordinate(i, j);
            if let Some(present) = line[j] {
                if j + 1 < dim {
                    assert(cell_indexed(g, ix, nodes, i as int, j as int + 1));
                    if let Some(next) = line[j + 1] {
                        proof {
                            lemma_close_iff(here, ChartedCoordinate(i, (j + 1) as usize));
                        }
                        let w = eval_weight(&here, &ChartedCoordinate(i, j + 1), map);
                        let ghost before_push = graph_edges(*graph);
                        push_edge(graph, present, next, w as u128);
                        proof {
                            let edges = graph_edges(*graph);
                            assert(edges[before_push.len() as int] == (present, next, w as u128));
                            assert(nodes[present as int] == (i, j));
                            assert(nodes[next as int] == (i, (j + 1) as usize));
                            assert forall|k: int| 0 <= k < before_push.len() implies (#[trigger] before_push[k]).0 != present
                                || before_push[k].1 != next by {
                                assert(before(
                                    nodes[before_push[k].0 as int].0 as int,
                                    nodes[before_push[k].0 as int].1 as int,
                                    i as int,
                                    j as int,
                                ));
                            }
                            lemma_push_distinct(before_push, (present, next, w as u128));
                            assert forall|k: int| 0 <= k < edges.len() implies grid_edge(
                                g,
                                nodes,
                                #[trigger] edges[k],
                            ) by {
                                if k < before_push.len() {
                                    assert(edges[k] == before_push[k]);
                                }
                            }
                            assert forall|r: int, c: int|
                                0 <= r && 0 <= c < dim && before(r, c, i as int, j as int) implies #[trigger] grid_linked(
                                g,
                                ix,
                                edges,
                                r,
                                c,
                            ) by {
                                assert(grid_linked(g, ix, before_push, r, c));
                                let here_rc = ChartedCoordinate(r as usize, c as usize);
                                let right = ChartedCoordinate(r as usize, (c + 1) as usize);
                                let down = ChartedCoordinate((r + 1) as usize, c as usize);
                                if c + 1 < g.len() && is_node(g, here_rc) && is_node(g, right) {
                                    lemma_has_edge_extends(before_push, edges, index_of(ix, here_rc), index_of(ix, right), step_cost(tile_at(g, here_rc), tile_at(g, right)) as int);
                                }
                                if r + 1 < g.len() && is_node(g, here_rc) && is_node(g, down) {
                                    lemma_has_edge_extends(before_push, edges, index_of(ix, here_rc), index_of(ix, down), step_cost(tile_at(g, here_rc), tile_at(g, down)) as int);
                                }
                            }
                        }
                    }
                }
                let ghost mid = graph_edges(*graph);
                proof {
                    assert(forall|k: int| 0 <= k < start.len() ==> mid[k] == start[k]);
                    assert(forall|k: int|
                        start.len() <= k < mid.len() ==> nodes[mid[k].0 as int] == (i, j) && nodes[mid[k].1 as int] == (
                            i,
                            (j + 1) as usize,
                        ));
                    let right = ChartedCoordinate(i, (j + 1) as usize);
                    if j + 1 < g.len() && is_node(g, here) && is_node(g, right) {
                        assert(mid[start.len() as int].0 == index_of(ix, here));
                        assert(has_edge(mid, index_of(ix, here), index_of(ix, right), step_cost(tile_at(g, here), tile_at(g, right)) as int));
                    }
                }
                if i + 1 < dim {
                    let below = &indexes[i + 1];
                    assert(below@ == ix[i as int + 1]);
                    assert(cell_indexed(g, ix, nodes, i as int + 1, j as int));
                    if let Some(next) = below[j] {
                        proof {
                            lemma_close_iff(here, ChartedCoordinate((i + 1) as usize, j));
                        }
                        let w = eval_weight(&here, &ChartedCoordinate(i + 1, j), map);
                        let ghost before_push = graph_edges(*graph);
                        push_edge(graph, present, next, w as u128);
                        proof {
                            let edges = graph_edges(*graph);
                            assert(edges[before_push.len() as int] == (present, next, w as u128));
                            assert(nodes[present as int] == (i, j));
                            assert(nodes[next as int] == ((i + 1) as usize, j));
                            assert forall|k: int| 0 <= k < before_push.len() implies (#[trigger] before_push[k]).0 != present
                                || before_push[k].1 != next by {
                                if k < start.len() {
                                    assert(before_push[k] == start[k]);
                                    assert(before(
                                        nodes[start[k].0 as int].0 as int,
                                        nodes[start[k].0 as int].1 as int,
                                        i as int,
                                        j as int,
                                    ));
                                } else {
                                    assert(nodes[before_push[k].1 as int] == (i, (j + 1) as usize));
                                }
                            }
                            lemma_push_distinct(before_push, (present, next, w as u128));
                            let right = ChartedCoordinate(i, (j + 1) as usize);
                            let down = ChartedCoordinate((i + 1) as usize, j);
                            assert(has_edge(edges, index_of(ix, here), index_of(ix, down), step_cost(tile_at(g, here), tile_at(g, down)) as int));
                            if j + 1 < g.len() && is_node(g, here) && is_node(g, right) {
                                lemma_has_edge_extends(mid, edges, index_of(ix, here), index_of(ix, right), step_cost(tile_at(g, here), tile_at(g, right)) as int);
                            }
                            assert forall|k: int| 0 <= k < edges.len() implies grid_edge(
                                g,
                                nodes,
                                #[trigger] edges[k],
                            ) by {
                                if k < before_push.len() {
                                    assert(edges[k] == before_push[k]);
                                }
                            }
                            assert forall|r: int, c: int|
                                0 <= r && 0 <= c < dim && before(r, c, i as int, j as int) implies #[trigger] grid_linked(
                                g,
                                ix,
                                edges,
                                r,
                                c,
                            ) by {
                                assert(grid_linked(g, ix, before_push, r, c));
                                let here_rc = ChartedCoordinate(r as usize, c as usize);
                                let right = ChartedCoordinate(r as usize, (c + 1) as usize);
                                let down = ChartedCoordinate((r + 1) as usize, c as usize);
                                if c + 1 < g.len() && is_node(g, here_rc) && is_node(g, right) {
                                    lemma_has_edge_extends(before_push, edges, index_of(ix, here_rc), index_of(ix, right), step_cost(tile_at(g, here_rc), tile_at(g, right)) as int);
                                }
                                if r + 1 < g.len() && is_node(g, here_rc) && is_node(g, down) {
                                    lemma_has_edge_extends(before_push, edges, index_of(ix, here_rc), index_of(ix, down), step_cost(tile_at(g, here_rc), tile_at(g, down)) as int);
                                }
                            }
                        }
                    }
                }
            }
            proof {
                let edges = graph_edges(*graph);
                let right = ChartedCoordinate(i, (j + 1) as usize);
                let down = ChartedCoordinate((i + 1) as usize, j);
                assert forall|k: int| 0 <= k < start.len() implies edges[k] == start[k] by {}
                assert(cell_indexed(g, ix, nodes, i as int, j as int));
                if i + 1 < dim {
                    assert(cell_indexed(g, ix, nodes, i as int + 1, j as int));
                }
                if j + 1 < dim {
                    assert(cell_indexed(g, ix, nodes, i as int, j as int + 1));
                }
                assert(total_weight(edges) == total_weight(start) + cell_weight(g, i as int, j as int));
                assert(forall|k: int| start.len() <= k < edges.len() ==> nodes[edges[k].0 as int] == (i, j));
                assert forall|k: int| 0 <= k < edges.len() implies before(
                    nodes[(#[trigger] edges[k]).0 as int].0 as int,
                    nodes[edges[k].0 as int].1 as int,
                    i as int,
                    j as int + 1,
                ) by {
                    if k < start.len() {
                        assert(edges[k] == start[k]);
                    }
                }
                assert(grid_linked(g, ix, edges, i as int, j as int));
            }
            j = j + 1;
        }
        assert forall|k: int| 0 <= k < graph_edges(*graph).len() implies before(
            nodes[(#[trigger] graph_edges(*graph)[k]).0 as int].0 as int,
            nodes[graph_edges(*graph)[k].0 as int].1 as int,
            i as int + 1,
            0,
        ) by {
            assert(before(
                nodes[graph_edges(*graph)[k].0 as int].0 as int,
                nodes[graph_edges(*graph)[k].0 as int].1 as int,
                i as int,
                dim as int,
            ));
        }
        i = i + 1;
    }
}

/// Joins every pair of listed teleports by an edge at the teleport fee, appended after the
/// existing edges, and records the new edges' indices: one per pair, `t(t - 1)/2` in all.
pub(crate) fn add_teleport_mesh(
    map: &Grid,
    teleports: &Vec<ChartedCoordinate>,
    indexes: &Vec<Vec<Option<usize>>>,
    graph: &mut RouteGraph,
    teleports_edges: &mut Vec<usize>,
)
    requires
        is_square(grid_view(map)),
        index_table(grid_view(map), table_view(indexes), graph_nodes(*old(graph))),
        edges_within(graph_edges(*old(graph)), graph_nodes(*old(graph)).len()),
        forall|k: int|
            0 <= k < graph_edges(*old(graph)).len() ==> sound_edge(
                grid_view(map),
                graph_nodes(*old(graph)),
                #[trigger] graph_edges(*old(graph))[k],
            ),
        teleports@.no_duplicates(),
        forall|t: int| 0 <= t < teleports@.len() ==> is_teleport(grid_view(map), #[trigger] teleports@[t]),
        forall|c: ChartedCoordinate| is_teleport(grid_view(map), c) ==> #[trigger] teleports@.contains(c),
        old(teleports_edges)@.len() == 0,
    ensures
        graph_nodes(*final(graph)) == graph_nodes(*old(graph)),
        graph_edges(*final(graph)).len() == graph_edges(*old(graph)).len() + final(teleports_edges)@.len(),
        forall|k: int|
            0 <= k < graph_edges(*old(graph)).len() ==> graph_edges(*final(graph))[k] == graph_edges(
                *old(graph),
            )[k],
        forall|t: int|
            0 <= t < final(teleports_edges)@.len() ==> #[trigger] final(teleports_edges)@[t]
                == graph_edges(*old(graph)).len() + t,
        forall|k: int|
            graph_edges(*old(graph)).len() <= k < graph_edges(*final(graph)).len() ==> teleport_edge(
                grid_view(map),
                graph_nodes(*final(graph)),
                #[trigger] graph_edges(*final(graph))[k],
            ),
        final(teleports_edges)@.len() == pairs_from(teleports@.len() as int, teleports@.len() as int),
        edges_within(graph_edges(*final(graph)), graph_nodes(*final(graph)).len()),
        forall|k: int|
            0 <= k < graph_edges(*final(graph)).len() ==> sound_edge(
                grid_view(map),
                graph_nodes(*final(graph)),
                #[trigger] graph_edges(*final(graph))[k],
            ),
        total_weight(graph_edges(*final(graph))) == total_weight(graph_edges(*old(graph))) + TELEPORT_COST
            * pairs_from(teleports@.len() as int, teleports@.len() as int),
        forall|p: ChartedCoordinate, q: ChartedCoordinate|
            #[trigger] teleports_linked(
                grid_view(map),
                table_view(indexes),
                graph_edges(*final(graph)),
                graph_edges(*old(graph)).len() as int,
                p,
                q,
            ),
{
    let ghost g = grid_view(map);
    let ghost ix = table_view(indexes);
    let ghost nodes = graph_nodes(*graph);
    let ghost initial = graph_edges(*graph);
    let ghost lo = initial.len() as int;
    let ghost tp = teleports@;
    let count = teleports.len();
    let mut a: usize = 0;
    while a < count
        invariant
            g == grid_view(map),
            ix == table_view(indexes),
            tp == teleports@,
            count == tp.len(),
            tp.no_duplicates(),
            is_square(g),
            index_table(g, ix, nodes),
            graph_nodes(*graph) == nodes,
            lo == initial.len(),
            0 <= a <= count,
            graph_edges(*graph).len() == initial.len() + teleports_edges@.len(),
            forall|k: int| 0 <= k < initial.len() ==> graph_edges(*graph)[k] == initial[k],
            forall|t: int| 0 <= t < teleports_edges@.len() ==> #[trigger] teleports_edges@[t] == lo + t,
            forall|k: int|
                lo <= k < graph_edges(*graph).len() ==> teleport_edge(g, nodes, #[trigger] graph_edges(*graph)[k]),
            teleports_edges@.len() == pairs_from(count as int, a as int),
            edges_within(graph_edges(*graph), nodes.len()),
            forall|k: int| 0 <= k < graph_edges(*graph).len() ==> sound_edge(g, nodes, #[trigger] graph_edges(*graph)[k]),
            total_weight(graph_edges(*graph)) == total_weight(initial) + TELEPORT_COST * pairs_from(count as int, a as int),
            forall|t: int| 0 <= t < tp.len() ==> is_teleport(g, #[trigger] tp[t]),
            forall|x: int, y: int|
                0 <= x < a && x < y < count ==> #[trigger] has_edge_after(
                    graph_edges(*graph),
                    lo,
                    index_of(ix, tp[x]),
                    index_of(ix, tp[y]),
                    TELEPORT_COST as int,
                ),
        decreases count - a,
    {
        let mut b: usize = a + 1;
        while b < count
            invariant
                g == grid_view(map),
                ix == table_view(indexes),
                tp == teleports@,
                count == tp.len(),
                tp.no_duplicates(),
                is_square(g),
                index_table(g, ix, nodes),
                graph_nodes(*graph) == nodes,
                lo == initial.len(),
                0 <= a < count,
                a < b <= count,
                graph_edges(*graph).len() == initial.len() + teleports_edges@.len(),
                forall|k: int| 0 <= k < initial.len() ==> graph_edges(*graph)[k] == initial[k],
                forall|t: int| 0 <= t < teleports_edges@.len() ==> #[trigger] teleports_edges@[t] == lo + t,
                forall|k: int|
                    lo <= k < graph_edges(*graph).len() ==> teleport_edge(g, nodes, #[trigger] graph_edges(*graph)[k]),
                teleports_edges@.len() == pairs_from(count as int, a as int) + (b - a - 1),
                edges_within(graph_edges(*graph), nodes.len()),
                forall|k: int| 0 <= k < graph_edges(*graph).len() ==> sound_edge(g, nodes, #[trigger] graph_edges(*graph)[k]),
                total_weight(graph_edges(*graph)) == total_weight(initial) + TELEPORT_COST * (pairs_from(count as int, a as int) + (b - a - 1)),
                forall|t: int| 0 <= t < tp.len() ==> is_teleport(g, #[trigger] tp[t]),
                forall|x: int, y: int|
                    ((0 <= x < a && x < y < count) || (x == a && a < y < b)) ==> #[trigger] has_edge_after(
                        graph_edges(*graph),
                        lo,
                        index_of(ix, tp[x]),
                        index_of(ix, tp[y]),
                        TELEPORT_COST as int,
                    ),
            decreases count - b,
        {
            let p = teleports[a];
            let q = teleports[b];
            assert(is_teleport(g, tp[a as int]));
            assert(is_teleport(g, tp[b as int]));
            assert(cell_indexed(g, ix, nodes, p.0 as int, p.1 as int));
            assert(cell_indexed(g, ix, nodes, q.0 as int, q.1 as int));
            let row_p = &indexes[p.0];
            let row_q = &indexes[q.0];
            assert(row_p@ == ix[p.0 as int]);
            assert(row_q@ == ix[q.0 as int]);
            let from = row_p[p.1].unwrap();
            let to = row_q[q.1].unwrap();
            let ghost before_push = graph_edges(*graph);
            let ghost tel_before = teleports_edges@;
            let e = push_edge(graph, from, to, TELEPORT_COST);
            teleports_edges.push(e);
            proof {
                let edges = graph_edges(*graph);
                assert(tp[a as int] != tp[b as int]);
                assert(edges[e as int] == (from, to, TELEPORT_COST));
                assert(teleport_edge(g, nodes, edges[e as int]));
                assert forall|k: int| 0 <= k < edges.len() implies sound_edge(g, nodes, #[trigger] edges[k]) by {
                    if k < before_push.len() {
                        assert(edges[k] == before_push[k]);
                    }
                }
                assert forall|k: int| lo <= k < edges.len() implies teleport_edge(g, nodes, #[trigger] edges[k]) by {
                    if k < before_push.len() {
                        assert(edges[k] == before_push[k]);
                    }
                }
                assert forall|t: int| 0 <= t < teleports_edges@.len() implies #[trigger] teleports_edges@[t] == lo + t by {
                    if t < tel_before.len() {
                        assert(teleports_edges@[t] == tel_before[t]);
                    }
                }
                assert forall|k: int| 0 <= k < initial.len() implies edges[k] == initial[k] by {
                    assert(edges[k] == before_push[k]);
                }
                assert forall|x: int, y: int|
                    ((0 <= x < a && x < y < count) || (x == a && a < y < b + 1)) implies #[trigger] has_edge_after(
                        edges,
                        lo,
                        index_of(ix, tp[x]),
                        index_of(ix, tp[y]),
                        TELEPORT_COST as int,
                    ) by {
                    if y == b && x == a {
                        assert(edges[e as int].0 == index_of(ix, tp[x]));
                    } else {
                        lemma_has_edge_after_extends(before_push, edges, lo, index_of(ix, tp[x]), index_of(ix, tp[y]), TELEPORT_COST as int);
                    }
                }
            }
            b = b + 1;
        }
        assert(pairs_from(count as int, a as int + 1) == pairs_from(count as int, a as int) + (count - a - 1));
        a = a + 1;
    }
    proof {
        let edges = graph_edges(*graph);
        assert forall|p: ChartedCoordinate, q: ChartedCoordinate|
            #[trigger] teleports_linked(g, ix, edges, lo, p, q) by {
            if is_teleport(g, p) && is_teleport(g, q) && p != q {
                assert(tp.contains(p));
                assert(tp.contains(q));
                let x = choose|x: int| 0 <= x < tp.len() && tp[x] == p;
                let y = choose|y: int| 0 <= y < tp.len() && tp[y] == q;
                if x < y {
                    assert(has_edge_after(edges, lo, index_of(ix, tp[x]), index_of(ix, tp[y]), TELEPORT_COST as int));
                } else {
                    assert(has_edge_after(edges, lo, index_of(ix, tp[y]), index_of(ix, tp[x]), TELEPORT_COST as int));
                }
            }
        }
    }
}

} // verus!
