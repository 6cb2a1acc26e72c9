use vstd::prelude::*;

use crate::{ChartingTool, New};
use crate::charted_coordinate::{adjacent, lemma_close_iff, ChartedCoordinate};
use crate::charted_tile::{
    grid_view, in_grid, is_node, is_square, is_teleport, step_cost, tile_at, ChartedTile, Grid,
    TELEPORT_COST,
};
use crate::route_build::{
    add_grid_edges, add_teleport_mesh, adds_nodes, before, cell_indexed, grid_linked, grid_weight,
    has_edge, index_of, index_table, lemma_has_edge_extends, node_indexed, pos, sound_edge,
    table_view, teleport_edge, teleports_linked, lemma_grid_weight_bound, MAX_SIDE, grid_edge,
    has_edge_after, lemma_pairs_count, nodes_in_scan_order, pairs_from, teleport_count,
};
use crate::route_graph::{
    astar_route, dijkstra_cost, edges_within, graph_edges, graph_nodes, is_route, is_shortest,
    is_walk, joins, lemma_route_within, lemma_shortest_self, lemma_shortest_unique,
    lemma_walk_cost_first, new_route_graph, reachable, total_weight, walk_cost, EdgeModel,
    RouteGraph,
};

verus! {

/// One of the four moves the robot can make on the grid.
#[derive(Copy, Clone, Debug, PartialEq, Eq, Structural)]
pub enum Direction {
    Up,
    Down,
    Left,
    Right,
}

/// The position reached from `c` by one move in direction `d` (rows grow downwards).
pub open spec fn moved(c: ChartedCoordinate, d: Direction) -> (int, int) {
    match d {
        Direction::Up => (c.0 - 1, c.1 as int),
        Direction::Down => (c.0 + 1, c.1 as int),
        Direction::Left => (c.0 as int, c.1 - 1),
        Direction::Right => (c.0 as int, c.1 + 1),
    }
}

/// Route planner over a snapshot of the discovered grid: one graph node per discovered,
/// walkable tile, edges between neighbouring nodes (right and down, weighted by the step
/// cost in that direction) and between every two teleports (at the teleport fee).
/// The graph is meant to be rebuilt for each planning round.
pub struct ChartedPaths {
    graph: RouteGraph,
    indexes: Vec<Vec<Option<usize>>>,
    teleports_edges: Vec<usize>,
    grid: Ghost<Seq<Seq<Option<ChartedTile>>>>,
}

impl New for ChartedPaths {
    fn new() -> Self {
        ChartedPaths::new()
    }
}

impl ChartingTool for ChartedPaths {}

impl ChartedPaths {
    /// The grid the graph was built from.
    pub closed spec fn grid(self) -> Seq<Seq<Option<ChartedTile>>> {
        self.grid@
    }

    /// Node weights (positions), by node index.
    pub closed spec fn nodes(self) -> Seq<(usize, usize)> {
        graph_nodes(self.graph)
    }

    /// Edges, by edge index.
    pub closed spec fn edges(self) -> Seq<EdgeModel> {
        graph_edges(self.graph)
    }

    /// Indices of the edges that were added between teleports.
    pub closed spec fn teleport_edges(self) -> Seq<usize> {
        self.teleports_edges@
    }

    /// Number of edges between neighbouring tiles; the teleport edges come after them.
    pub closed spec fn grid_edge_count(self) -> int {
        graph_edges(self.graph).len() - self.teleports_edges@.len()
    }

    /// The node index of the tile at `c`, if it is a node.
    pub closed spec fn node_of(self, c: ChartedCoordinate) -> Option<usize> {
        if c.0 < self.grid@.len() && c.1 < self.grid@.len() {
            table_view(&self.indexes)[c.0 as int][c.1 as int]
        } else {
            None
        }
    }

    /// The graph, the index table, the recorded teleport edges and the weight sum agree with
    /// the grid (`lemma_graph_shape` states what this gives).
    pub closed spec fn wf(self) -> bool {
        let g = self.grid@;
        let ix = table_view(&self.indexes);
        let nodes = graph_nodes(self.graph);
        let edges = graph_edges(self.graph);
        &&& is_square(g)
        &&& index_table(g, ix, nodes)
        &&& edges_within(edges, nodes.len())
        &&& forall|k: int| 0 <= k < edges.len() ==> sound_edge(g, nodes, #[trigger] edges[k])
        &&& forall|r: int, c: int|
            0 <= r < g.len() && 0 <= c < g.len() ==> #[trigger] grid_linked(g, ix, edges, r, c)
        &&& nodes_in_scan_order(nodes)
        &&& self.teleports_edges@.len() <= edges.len()
        &&& forall|t: int|
            0 <= t < self.teleports_edges@.len() ==> #[trigger] self.teleports_edges@[t] == self.grid_edge_count() + t
        &&& forall|k: int| 0 <= k < self.grid_edge_count() ==> grid_edge(g, nodes, #[trigger] edges[k])
        &&& forall|k1: int, k2: int|
            0 <= k1 < k2 < self.grid_edge_count() ==> (#[trigger] edges[k1]).0 != (#[trigger] edges[k2]).0
                || edges[k1].1 != edges[k2].1
        &&& forall|k: int| self.grid_edge_count() <= k < edges.len() ==> teleport_edge(g, nodes, #[trigger] edges[k])
        &&& self.teleports_edges@.len() == pairs_from(teleport_count(g) as int, teleport_count(g) as int)
        &&& forall|p: ChartedCoordinate, q: ChartedCoordinate|
            #[trigger] teleports_linked(g, ix, edges, self.grid_edge_count(), p, q)
        &&& g.len() <= MAX_SIDE
        &&& total_weight(edges) == grid_weight(g)
    }

    /// Both tiles are nodes and a walk through the graph joins them.
    pub open spec fn connected(self, from: ChartedCoordinate, to: ChartedCoordinate) -> bool {
        &&& self.node_of(from) is Some
        &&& self.node_of(to) is Some
        &&& reachable(self.edges(), self.node_of(from).unwrap(), self.node_of(to).unwrap())
    }

    /// `d` is the least cost of a walk from `from` to `to`.
    pub open spec fn shortest(self, from: ChartedCoordinate, to: ChartedCoordinate, d: nat) -> bool {
        &&& self.node_of(from) is Some
        &&& self.node_of(to) is Some
        &&& is_shortest(self.edges(), self.node_of(from).unwrap(), self.node_of(to).unwrap(), d)
    }

    /// `path` lists the positions of a walk from `from` to `to` that costs `d`.
    pub open spec fn walk_of(self, path: Seq<ChartedCoordinate>, from: ChartedCoordinate, to: ChartedCoordinate, d: nat) -> bool {
        exists|ns: Seq<usize>, es: Seq<int>|
            #[trigger] is_route(self.edges(), self.node_of(from).unwrap(), self.node_of(to).unwrap(), ns, es)
                && walk_cost(self.edges(), es) == d && ns.len() == path.len() && forall|i: int|
                0 <= i < ns.len() ==> path[i] == pos(#[trigger] self.nodes()[ns[i] as int])
    }

    /// An empty planner, over an empty grid.
    pub fn new() -> (r: Self)
        ensures
            r.wf(),
            r.grid().len() == 0,
    {
        let r = ChartedPaths {
            graph: new_route_graph(),
            indexes: Vec::new(),
            teleports_edges: Vec::new(),
            grid: Ghost(Seq::empty()),
        };
        proof {
            assert(total_weight(graph_edges(r.graph)) == 0);
            assert(table_view(&r.indexes).len() == 0);
            assert(grid_weight(r.grid@) == 0);
        }
        r
    }

    /// Rebuilds the graph from a snapshot of the discovered grid.
    pub fn init(&mut self, robot_map: &Grid)
        requires
            is_square(grid_view(robot_map)),
            robot_map@.len() <= MAX_SIDE,
        ensures
            final(self).wf(),
            final(self).grid() == grid_view(robot_map),
    {
        let mut graph = new_route_graph();
        let mut indexes: Vec<Vec<Option<usize>>> = Vec::new();
        let mut teleports: Vec<ChartedCoordinate> = Vec::new();
        let dimension = robot_map.len();
        adds_nodes(robot_map, dimension, &mut indexes, &mut graph, &mut teleports);
        add_grid_edges(robot_map, dimension, &indexes, &mut graph);
        let ghost grid_edges = graph_edges(graph);
        let mut teleports_edges: Vec<usize> = Vec::new();
        add_teleport_mesh(robot_map, &teleports, &indexes, &mut graph, &mut teleports_edges);
        proof {
            let g = grid_view(robot_map);
            let ix = table_view(&indexes);
            let edges = graph_edges(graph);
            assert forall|k: int| 0 <= k < grid_edges.len() implies grid_edge(g, graph_nodes(graph), #[trigger] edges[k]) by {
                assert(edges[k] == grid_edges[k]);
            }
            assert forall|k1: int, k2: int| 0 <= k1 < k2 < grid_edges.len() implies (#[trigger] edges[k1]).0 != (
            #[trigger] edges[k2]).0 || edges[k1].1 != edges[k2].1 by {
                assert(edges[k1] == grid_edges[k1]);
                assert(edges[k2] == grid_edges[k2]);
            }
            assert forall|r: int, c: int|
                0 <= r < g.len() && 0 <= c < g.len() implies #[trigger] grid_linked(g, ix, edges, r, c) by {
                assert(grid_linked(g, ix, grid_edges, r, c));
                let here = ChartedCoordinate(r as usize, c as usize);
                let right = ChartedCoordinate(r as usize, (c + 1) as usize);
                let down = ChartedCoordinate((r + 1) as usize, c as usize);
                if c + 1 < g.len() && is_node(g, here) && is_node(g, right) {
                    lemma_has_edge_extends(grid_edges, edges, index_of(ix, here), index_of(ix, right), step_cost(tile_at(g, here), tile_at(g, right)) as int);
                }
                if r + 1 < g.len() && is_node(g, here) && is_node(g, down) {
                    lemma_has_edge_extends(grid_edges, edges, index_of(ix, here), index_of(ix, down), step_cost(tile_at(g, here), tile_at(g, down)) as int);
                }
            }
        }
        *self = ChartedPaths {
            graph,
            indexes,
            teleports_edges,
            grid: Ghost(grid_view(robot_map)),
        };
    }

    /// Both positions lie inside the grid.
    fn check_boundaries(&self, from: ChartedCoordinate, to: ChartedCoordinate) -> (r: bool)
        requires
            self.wf(),
        ensures
            r == (from.0 < self.grid().len() && from.1 < self.grid().len() && to.0 < self.grid().len()
                && to.1 < self.grid().len()),
    {
        let n = self.indexes.len();
        !(from.0 >= n || from.1 >= n || to.0 >= n || to.1 >= n)
    }

    /// The node index of the tile at `c`, which must lie inside the grid.
    fn node_at(&self, c: ChartedCoordinate) -> (r: Option<usize>)
        requires
            self.wf(),
            c.0 < self.grid().len(),
            c.1 < self.grid().len(),
        ensures
            r == self.node_of(c),
            r matches Some(k) ==> k < self.nodes().len() && self.nodes()[k as int] == (c.0, c.1),
    {
        let row = &self.indexes[c.0];
        proof {
            let ix = table_view(&self.indexes);
            assert(row@ == ix[c.0 as int]);
            assert(cell_indexed(self.grid@, ix, graph_nodes(self.graph), c.0 as int, c.1 as int));
        }
        row[c.1]
    }

    /// The position of node `node_index`, found by scanning the index table.
    fn index_to_coordinate(&self, node_index: usize) -> (r: Option<ChartedCoordinate>)
        requires
            self.wf(),
        ensures
            node_index < self.nodes().len() ==> r == Some(pos(self.nodes()[node_index as int])),
            node_index >= self.nodes().len() ==> r is None,
    {
        let ghost g = self.grid@;
        let ghost ix = table_view(&self.indexes);
        let ghost nodes = graph_nodes(self.graph);
        let dim = self.indexes.len();
        let mut i: usize = 0;
        while i < dim
            invariant
                self.wf(),
                g == self.grid@,
                ix == table_view(&self.indexes),
                nodes == graph_nodes(self.graph),
                dim == g.len(),
                0 <= i <= dim,
                forall|r: int, c: int| 0 <= r < i && 0 <= c < dim ==> ix[r][c] != Some(node_index),
            decreases dim - i,
        {
            let row = &self.indexes[i];
            assert(row@ == ix[i as int]);
            let mut j: usize = 0;
            while j < dim
                invariant
                    self.wf(),
                    g == self.grid@,
                    ix == table_view(&self.indexes),
                    nodes == graph_nodes(self.graph),
                    dim == g.len(),
                    0 <= i < dim,
                    0 <= j <= dim,
                    row@ == ix[i as int],
                    forall|r: int, c: int|
                        0 <= r && 0 <= c < dim && before(r, c, i as int, j as int) ==> ix[r][c] != Some(node_index),
                decreases dim - j,
            {
                if let Some(node) = row[j] {
                    if node == node_index {
                        proof {
                            assert(cell_indexed(g, ix, nodes, i as int, j as int));
                        }
                        return Some(ChartedCoordinate(i, j));
                    }
                }
                assert(ix[i as int][j as int] != Some(node_index));
                assert forall|r: int, c: int|
                    0 <= r && 0 <= c < dim && before(r, c, i as int, j as int + 1) implies ix[r][c] != Some(
                        node_index,
                    ) by {
                    if !before(r, c, i as int, j as int) {
                        assert(r == i && c == j);
                    }
                }
                j = j + 1;
            }
            assert forall|r: int, c: int| 0 <= r < i + 1 && 0 <= c < dim implies ix[r][c] != Some(node_index) by {
                assert(before(r, c, i as int, dim as int));
            }
            i = i + 1;
        }
        proof {
            if node_index < nodes.len() {
                assert(node_indexed(g, ix, nodes, node_index as int));
            }
        }
        None
    }

    /// Least cost from `from` to `to`, by Dijkstra's algorithm; `None` when either position is
    /// outside the grid or not a node, or when no walk joins them.
    pub fn shortest_path_cost(&self, from: ChartedCoordinate, to: ChartedCoordinate) -> (r: Option<u128>)
        requires
            self.wf(),
        ensures
            r is Some <==> self.connected(from, to),
            r matches Some(d) ==> self.shortest(from, to, d as nat),
    {
        if !self.check_boundaries(from, to) {
            return None;
        }
        let a = match self.node_at(from) {
            None => return None,
            Some(a) => a,
        };
        let b = match self.node_at(to) {
            None => return None,
            Some(b) => b,
        };
        proof {
            lemma_grid_weight_bound(self.grid@);
        }
        dijkstra_cost(&self.graph, a, b)
    }

    /// Least cost from `from` to `to`, by A* search with a zero estimate; the same answer as
    /// `shortest_path_cost`.
    pub fn shortest_path_cost_a_star(&self, from: ChartedCoordinate, to: ChartedCoordinate) -> (r: Option<u128>)
        requires
            self.wf(),
        ensures
            r is Some <==> self.connected(from, to),
            r matches Some(d) ==> self.shortest(from, to, d as nat),
    {
        if !self.check_boundaries(from, to) {
            return None;
        }
        let a = match self.node_at(from) {
            None => return None,
            Some(a) => a,
        };
        let b = match self.node_at(to) {
            None => return None,
            Some(b) => b,
        };
        proof {
            lemma_grid_weight_bound(self.grid@);
        }
        match astar_route(&self.graph, a, b) {
            None => None,
            Some((d, _)) => Some(d),
        }
    }

    /// Least cost from `from` to `to` and the positions of a walk of that cost, from `from`
    /// to `to` inclusive; `None` in the same cases as `shortest_path_cost`.
    pub fn shortest_path(&self, from: ChartedCoordinate, to: ChartedCoordinate) -> (r: Option<(u128, Vec<ChartedCoordinate>)>)
        requires
            self.wf(),
        ensures
            r is Some <==> self.connected(from, to),
            r matches Some((d, path)) ==> {
                &&& self.shortest(from, to, d as nat)
                &&& self.walk_of(path@, from, to, d as nat)
                &&& path@.len() >= 1
                &&& path@[0] == from
                &&& path@.last() == to
            },
            r matches Some((d, path)) ==> (from == to ==> d == 0 && path@ == seq![from]),
    {
        if !self.check_boundaries(from, to) {
            return None;
        }
        let a = match self.node_at(from) {
            None => return None,
            Some(a) => a,
        };
        let b = match self.node_at(to) {
            None => return None,
            Some(b) => b,
        };
        proof {
            lemma_grid_weight_bound(self.grid@);
        }
        match astar_route(&self.graph, a, b) {
            None => None,
            Some((cost, nodes)) => {
                let ghost edges = graph_edges(self.graph);
                let ghost es = choose|es: Seq<int>| #[trigger] is_route(edges, a, b, nodes@, es) && walk_cost(edges, es) == cost;
                proof {
                    lemma_route_within(edges, graph_nodes(self.graph).len(), a, b, nodes@, es);
                }
                let mut path: Vec<ChartedCoordinate> = Vec::new();
                let mut i: usize = 0;
                while i < nodes.len()
                    invariant
                        self.wf(),
                        0 <= i <= nodes@.len(),
                        path@.len() == i,
                        forall|k: int| 0 <= k < nodes@.len() ==> #[trigger] nodes@[k] < graph_nodes(self.graph).len(),
                        forall|k: int| 0 <= k < i ==> path@[k] == pos(#[trigger] graph_nodes(self.graph)[nodes@[k] as int]),
                    decreases nodes@.len() - i,
                {
                    assert(nodes@[i as int] < graph_nodes(self.graph).len());
                    let converted = self.index_to_coordinate(nodes[i]);
                    match converted {
                        None => {},
                        Some(x) => {
                            path.push(x);
                        },
                    }
                    i = i + 1;
                }
                proof {
                    assert(is_route(edges, a, b, nodes@, es));
                    assert(path@[0] == pos(graph_nodes(self.graph)[nodes@[0] as int]));
                    assert(path@.last() == pos(graph_nodes(self.graph)[nodes@.last() as int]));
                    assert(path@.len() == nodes@.len());
                    assert(self.node_of(from).unwrap() == a);
                    assert(self.node_of(to).unwrap() == b);
                    assert(self.edges() == edges);
                    assert(is_route(self.edges(), self.node_of(from).unwrap(), self.node_of(to).unwrap(), nodes@, es));
                    assert(forall|k: int| 0 <= k < nodes@.len() ==> path@[k] == pos(#[trigger] self.nodes()[nodes@[k] as int]));
                    assert(self.walk_of(path@, from, to, cost as nat));
                    if from == to {
                        assert(path@ =~= seq![from]);
                    }
                }
                Some((cost, path))
            },
        }
    }

    /// The move that takes the robot from `from` to the neighbouring `to`; `Err` when the
    /// two positions are not four-directional neighbours (equal, diagonal or farther apart).
    pub fn coordinates_to_direction(from: ChartedCoordinate, to: ChartedCoordinate) -> (r: Result<Direction, ()>)
        ensures
            adjacent(from, to) ==> r is Ok && moved(from, r.unwrap()) == (to.0 as int, to.1 as int),
            !adjacent(from, to) ==> r == Err::<Direction, ()>(()),
    {
        if from == to || !ChartedCoordinate::is_close_to(&from, &to) {
            return Err(());
        }
        proof {
            lemma_close_iff(from, to);
        }
        if from.1 > to.1 {
            return Ok(Direction::Left);
        }
        if from.1 < to.1 {
            return Ok(Direction::Right);
        }
        if from.0 > to.0 {
            return Ok(Direction::Up);
        }
        Ok(Direction::Down)
    }
}

/// A tile is a node of the planner's graph exactly when it is discovered and walkable; a
/// position outside the grid has no node.
pub proof fn lemma_node_of(paths: ChartedPaths, c: ChartedCoordinate)
    requires
        paths.wf(),
    ensures
        paths.node_of(c) is Some <==> is_node(paths.grid(), c),
        !in_grid(paths.grid(), c) ==> paths.node_of(c) is None,
{
    if in_grid(paths.grid(), c) {
        assert(cell_indexed(paths.grid@, table_view(&paths.indexes), graph_nodes(paths.graph), c.0 as int, c.1 as int));
    }
}

/// What a built planner holds: one node per discovered walkable tile, placed at that tile;
/// every edge joins a tile to its right or lower neighbour at the step cost, or two distinct
/// teleports at the fee; and every such pair of nodes is joined.
pub proof fn lemma_graph_shape(paths: ChartedPaths)
    requires
        paths.wf(),
    ensures
        forall|c: ChartedCoordinate| #[trigger] paths.node_of(c) is Some <==> is_node(paths.grid(), c),
        forall|c: ChartedCoordinate|
            #[trigger] paths.node_of(c) matches Some(k) ==> k < paths.nodes().len() && paths.nodes()[k as int] == (c.0, c.1),
        forall|k: int|
            0 <= k < paths.nodes().len() ==> paths.node_of(pos(#[trigger] paths.nodes()[k])) == Some(k as usize),
        edges_within(paths.edges(), paths.nodes().len()),
        forall|k: int| 0 <= k < paths.edges().len() ==> sound_edge(paths.grid(), paths.nodes(), #[trigger] paths.edges()[k]),
        forall|t: int|
            0 <= t < paths.teleport_edges().len() ==> #[trigger] paths.teleport_edges()[t] < paths.edges().len()
                && teleport_edge(paths.grid(), paths.nodes(), paths.edges()[paths.teleport_edges()[t] as int]),
        forall|r: usize, c: usize|
            #![trigger is_node(paths.grid(), ChartedCoordinate(r, c))]
            (is_node(paths.grid(), ChartedCoordinate(r, c)) && (c + 1) < paths.grid().len() && is_node(
                paths.grid(),
                ChartedCoordinate(r, (c + 1) as usize),
            )) ==> has_edge(
                paths.edges(),
                paths.node_of(ChartedCoordinate(r, c)).unwrap(),
                paths.node_of(ChartedCoordinate(r, (c + 1) as usize)).unwrap(),
                step_cost(tile_at(paths.grid(), ChartedCoordinate(r, c)), tile_at(paths.grid(), ChartedCoordinate(r, (c + 1) as usize))) as int,
            ),
        forall|r: usize, c: usize|
            #![trigger is_node(paths.grid(), ChartedCoordinate(r, c))]
            (is_node(paths.grid(), ChartedCoordinate(r, c)) && (r + 1) < paths.grid().len() && is_node(
                paths.grid(),
                ChartedCoordinate((r + 1) as usize, c),
            )) ==> has_edge(
                paths.edges(),
                paths.node_of(ChartedCoordinate(r, c)).unwrap(),
                paths.node_of(ChartedCoordinate((r + 1) as usize, c)).unwrap(),
                step_cost(tile_at(paths.grid(), ChartedCoordinate(r, c)), tile_at(paths.grid(), ChartedCoordinate((r + 1) as usize, c))) as int,
            ),
        nodes_in_scan_order(paths.nodes()),
        forall|k: int| 0 <= k < paths.grid_edge_count() ==> grid_edge(paths.grid(), paths.nodes(), #[trigger] paths.edges()[k]),
        forall|k: int|
            paths.grid_edge_count() <= k < paths.edges().len() ==> teleport_edge(paths.grid(), paths.nodes(), #[trigger] paths.edges()[k]),
        paths.teleport_edges().len() + paths.grid_edge_count() == paths.edges().len(),
        forall|t: int|
            0 <= t < paths.teleport_edges().len() ==> #[trigger] paths.teleport_edges()[t] == paths.grid_edge_count() + t,
{
    let g = paths.grid@;
    let ix = table_view(&paths.indexes);
    let nodes = graph_nodes(paths.graph);
    let edges = graph_edges(paths.graph);
    assert forall|c: ChartedCoordinate| #[trigger] paths.node_of(c) is Some <==> is_node(g, c) by {
        lemma_node_of(paths, c);
    }
    assert forall|c: ChartedCoordinate|
        #[trigger] paths.node_of(c) matches Some(k) ==> k < nodes.len() && nodes[k as int] == (c.0, c.1) by {
        if in_grid(g, c) {
            assert(cell_indexed(g, ix, nodes, c.0 as int, c.1 as int));
        }
    }
    assert forall|k: int| 0 <= k < nodes.len() implies paths.node_of(pos(#[trigger] nodes[k])) == Some(k as usize) by {
        assert(node_indexed(g, ix, nodes, k));
    }
    assert forall|r: usize, c: usize|
        #![trigger is_node(g, ChartedCoordinate(r, c))]
        (is_node(g, ChartedCoordinate(r, c)) && (c + 1) < g.len() && is_node(g, ChartedCoordinate(r, (c + 1) as usize)))
            implies has_edge(
            edges,
            paths.node_of(ChartedCoordinate(r, c)).unwrap(),
            paths.node_of(ChartedCoordinate(r, (c + 1) as usize)).unwrap(),
            step_cost(tile_at(g, ChartedCoordinate(r, c)), tile_at(g, ChartedCoordinate(r, (c + 1) as usize))) as int,
        ) by {
        assert(grid_linked(g, ix, edges, r as int, c as int));
    }
    assert forall|r: usize, c: usize|
        #![trigger is_node(g, ChartedCoordinate(r, c))]
        (is_node(g, ChartedCoordinate(r, c)) && (r + 1) < g.len() && is_node(g, ChartedCoordinate((r + 1) as usize, c)))
            implies has_edge(
            edges,
            paths.node_of(ChartedCoordinate(r, c)).unwrap(),
            paths.node_of(ChartedCoordinate((r + 1) as usize, c)).unwrap(),
            step_cost(tile_at(g, ChartedCoordinate(r, c)), tile_at(g, ChartedCoordinate((r + 1) as usize, c))) as int,
        ) by {
        assert(grid_linked(g, ix, edges, r as int, c as int));
    }
    lemma_teleport_edges_recorded(paths);
}

/// The recorded teleport edges are one per unordered pair of teleports, `t(t - 1)/2` in all
/// for `t` teleports, and every pair of distinct teleports is joined by one of them.
pub proof fn lemma_teleport_edges_recorded(paths: ChartedPaths)
    requires
        paths.wf(),
    ensures
        2 * paths.teleport_edges().len() == teleport_count(paths.grid()) * (teleport_count(paths.grid()) - 1),
        forall|p: ChartedCoordinate, q: ChartedCoordinate|
            #![trigger is_teleport(paths.grid(), p), is_teleport(paths.grid(), q)]
            (is_teleport(paths.grid(), p) && is_teleport(paths.grid(), q) && p != q) ==> exists|t: int|
                0 <= t < paths.teleport_edges().len() && joins(
                    #[trigger] paths.edges()[paths.teleport_edges()[t] as int],
                    paths.node_of(p).unwrap(),
                    paths.node_of(q).unwrap(),
                ),
{
    let g = paths.grid@;
    let ix = table_view(&paths.indexes);
    let nodes = graph_nodes(paths.graph);
    let edges = graph_edges(paths.graph);
    let lo = paths.grid_edge_count();
    let tel = paths.teleports_edges@;
    let t_count = teleport_count(g) as int;
    lemma_pairs_count(t_count, t_count);
    assert forall|p: ChartedCoordinate, q: ChartedCoordinate|
        #![trigger is_teleport(paths.grid(), p), is_teleport(paths.grid(), q)]
        (is_teleport(paths.grid(), p) && is_teleport(paths.grid(), q) && p != q) implies exists|t: int|
            0 <= t < paths.teleport_edges().len() && joins(
                #[trigger] paths.edges()[paths.teleport_edges()[t] as int],
                paths.node_of(p).unwrap(),
                paths.node_of(q).unwrap(),
            ) by {
        assert(teleports_linked(g, ix, edges, lo, p, q));
        lemma_node_of(paths, p);
        lemma_node_of(paths, q);
        assert(cell_indexed(g, ix, nodes, p.0 as int, p.1 as int));
        assert(cell_indexed(g, ix, nodes, q.0 as int, q.1 as int));
        let ip = index_of(ix, p);
        let iq = index_of(ix, q);
        assert(paths.node_of(p).unwrap() == ip);
        assert(paths.node_of(q).unwrap() == iq);
        let k = if has_edge_after(edges, lo, ip, iq, TELEPORT_COST as int) {
            choose|k: int| lo <= k < edges.len() && (#[trigger] edges[k]).0 == ip && edges[k].1 == iq && edges[k].2 == TELEPORT_COST as int
        } else {
            choose|k: int| lo <= k < edges.len() && (#[trigger] edges[k]).0 == iq && edges[k].1 == ip && edges[k].2 == TELEPORT_COST as int
        };
        let t = k - lo;
        assert(tel[t] == k);
        assert(0 <= t < paths.teleport_edges().len() && joins(
            paths.edges()[paths.teleport_edges()[t] as int],
            paths.node_of(p).unwrap(),
            paths.node_of(q).unwrap(),
        ));
    }
}

/// Each pair of neighbouring nodes is joined by exactly one grid edge: two distinct grid edges
/// never join the same two nodes.
pub proof fn lemma_grid_edges_unique(paths: ChartedPaths, k1: int, k2: int)
    requires
        paths.wf(),
        0 <= k1 < paths.grid_edge_count(),
        0 <= k2 < paths.grid_edge_count(),
        k1 != k2,
    ensures
        !joins(paths.edges()[k2], paths.edges()[k1].0, paths.edges()[k1].1),
{
    let g = paths.grid@;
    let nodes = graph_nodes(paths.graph);
    let edges = graph_edges(paths.graph);
    let e1 = edges[k1];
    let e2 = edges[k2];
    assert(grid_edge(g, nodes, e1));
    assert(grid_edge(g, nodes, e2));
    if k1 < k2 {
        assert(e1.0 != e2.0 || e1.1 != e2.1);
    } else {
        assert(e2.0 != e1.0 || e2.1 != e1.1);
    }
}

/// When either position lies outside the grid, the two are not connected, so every query
/// answers `None`.
pub proof fn lemma_outside_absent(paths: ChartedPaths, from: ChartedCoordinate, to: ChartedCoordinate)
    requires
        paths.wf(),
        !in_grid(paths.grid(), from) || !in_grid(paths.grid(), to),
    ensures
        !paths.connected(from, to),
{
    lemma_node_of(paths, from);
    lemma_node_of(paths, to);
}

/// From a discovered walkable tile to itself the least cost is zero, and no other value.
pub proof fn lemma_distance_to_self(paths: ChartedPaths, a: ChartedCoordinate, d: nat)
    requires
        paths.wf(),
        is_node(paths.grid(), a),
    ensures
        paths.connected(a, a),
        paths.shortest(a, a, d) <==> d == 0,
{
    lemma_node_of(paths, a);
    let n = paths.node_of(a).unwrap();
    lemma_shortest_self(paths.edges(), n);
    if paths.shortest(a, a, d) {
        lemma_shortest_unique(paths.edges(), n, n, d, 0);
    }
}

/// The cost that `shortest_path` reports is the least cost that `shortest_path_cost` reports:
/// least costs between two positions are unique.
pub proof fn lemma_path_cost_is_distance(
    paths: ChartedPaths,
    a: ChartedCoordinate,
    b: ChartedCoordinate,
    path_cost: nat,
    distance: nat,
)
    requires
        paths.wf(),
        paths.shortest(a, b, path_cost),
        paths.shortest(a, b, distance),
    ensures
        path_cost == distance,
{
    lemma_shortest_unique(paths.edges(), paths.node_of(a).unwrap(), paths.node_of(b).unwrap(), path_cost, distance);
}

/// No four-directional neighbour of `c` is a node of the graph.
pub open spec fn isolated(g: Seq<Seq<Option<ChartedTile>>>, c: ChartedCoordinate) -> bool {
    forall|n: ChartedCoordinate| adjacent(c, n) ==> !#[trigger] is_node(g, n)
}

/// Two distinct teleports, the first of which has no walkable discovered neighbour, are
/// exactly the teleport fee apart, however far apart they lie on the grid.
pub proof fn lemma_teleport_fee(paths: ChartedPaths, t1: ChartedCoordinate, t2: ChartedCoordinate)
    requires
        paths.wf(),
        is_teleport(paths.grid(), t1),
        is_teleport(paths.grid(), t2),
        t1 != t2,
        isolated(paths.grid(), t1),
    ensures
        paths.connected(t1, t2),
        paths.shortest(t1, t2, TELEPORT_COST as nat),
{
    let g = paths.grid@;
    let ix = table_view(&paths.indexes);
    let nodes = graph_nodes(paths.graph);
    let edges = graph_edges(paths.graph);
    lemma_node_of(paths, t1);
    lemma_node_of(paths, t2);
    assert(cell_indexed(g, ix, nodes, t1.0 as int, t1.1 as int));
    assert(cell_indexed(g, ix, nodes, t2.0 as int, t2.1 as int));
    let i1 = index_of(ix, t1);
    let i2 = index_of(ix, t2);
    assert(i1 != i2);
    let lo = paths.grid_edge_count();
    assert(teleports_linked(g, ix, edges, lo, t1, t2));
    let k = if has_edge_after(edges, lo, i1, i2, TELEPORT_COST as int) {
        choose|k: int| lo <= k < edges.len() && (#[trigger] edges[k]).0 == i1 && edges[k].1 == i2 && edges[k].2 == TELEPORT_COST as int
    } else {
        choose|k: int| lo <= k < edges.len() && (#[trigger] edges[k]).0 == i2 && edges[k].1 == i1 && edges[k].2 == TELEPORT_COST as int
    };
    let ns = seq![i1, i2];
    let es = seq![k];
    assert(is_route(edges, i1, i2, ns, es));
    assert(walk_cost(edges, es) == TELEPORT_COST) by {
        assert(es.drop_last().len() == 0);
        assert(walk_cost(edges, es.drop_last()) == 0);
        assert(es.last() == k);
        assert(edges[k].2 == TELEPORT_COST);
    }
    assert forall|ns2: Seq<usize>, es2: Seq<int>| #[trigger] is_route(edges, i1, i2, ns2, es2) implies TELEPORT_COST
        <= walk_cost(edges, es2) by {
        assert(es2.len() >= 1);
        lemma_walk_cost_first(edges, es2);
        let e = edges[es2[0]];
        assert(joins(e, i1, ns2[1]));
        assert(sound_edge(g, nodes, e));
        assert(node_indexed(g, ix, nodes, e.0 as int));
        assert(node_indexed(g, ix, nodes, e.1 as int));
        let p = pos(nodes[e.0 as int]);
        let q = pos(nodes[e.1 as int]);
        assert(cell_indexed(g, ix, nodes, p.0 as int, p.1 as int));
        assert(cell_indexed(g, ix, nodes, q.0 as int, q.1 as int));
        if !teleport_edge(g, nodes, e) {
            lemma_close_iff(p, q);
            if e.0 == i1 {
                assert(p == t1);
                assert(adjacent(t1, q));
            } else {
                assert(q == t1);
                lemma_close_iff(t1, p);
                assert(adjacent(t1, p));
            }
        }
    }
}

/// The nodes of `p2` at the positions of nodes `ns` of `p1`.
pub open spec fn translate(p1: ChartedPaths, p2: ChartedPaths, ns: Seq<usize>) -> Seq<usize> {
    ns.map_values(|n: usize| p2.node_of(pos(p1.nodes()[n as int])).unwrap())
}

/// Each edge of `p1` has a counterpart in `p2` between the nodes at the same positions, with
/// the same weight, when both were built from the same grid.
proof fn lemma_edge_counterpart(p1: ChartedPaths, p2: ChartedPaths, k: int) -> (k2: int)
    requires
        p1.wf(),
        p2.wf(),
        p1.grid() == p2.grid(),
        0 <= k < p1.edges().len(),
    ensures
        0 <= k2 < p2.edges().len(),
        joins(
            p2.edges()[k2],
            p2.node_of(pos(p1.nodes()[p1.edges()[k].0 as int])).unwrap(),
            p2.node_of(pos(p1.nodes()[p1.edges()[k].1 as int])).unwrap(),
        ),
        p2.edges()[k2].2 == p1.edges()[k].2,
{
    let g = p1.grid@;
    let nodes1 = graph_nodes(p1.graph);
    let ix1 = table_view(&p1.indexes);
    let ix2 = table_view(&p2.indexes);
    let edges1 = graph_edges(p1.graph);
    let edges2 = graph_edges(p2.graph);
    let e = edges1[k];
    assert(sound_edge(g, nodes1, e));
    assert(node_indexed(g, ix1, nodes1, e.0 as int));
    assert(node_indexed(g, ix1, nodes1, e.1 as int));
    let p = pos(nodes1[e.0 as int]);
    let q = pos(nodes1[e.1 as int]);
    assert(cell_indexed(g, ix1, nodes1, p.0 as int, p.1 as int));
    assert(cell_indexed(g, ix1, nodes1, q.0 as int, q.1 as int));
    lemma_node_of(p2, p);
    lemma_node_of(p2, q);
    assert(p2.node_of(p).unwrap() == index_of(ix2, p));
    assert(p2.node_of(q).unwrap() == index_of(ix2, q));
    if teleport_edge(g, nodes1, e) {
        let lo = p2.grid_edge_count();
        assert(teleports_linked(g, ix2, edges2, lo, p, q));
        if has_edge_after(edges2, lo, index_of(ix2, p), index_of(ix2, q), TELEPORT_COST as int) {
            choose|k2: int| lo <= k2 < edges2.len() && (#[trigger] edges2[k2]).0 == index_of(ix2, p) && edges2[k2].1 == index_of(ix2, q) && edges2[k2].2 == TELEPORT_COST as int
        } else {
            choose|k2: int| lo <= k2 < edges2.len() && (#[trigger] edges2[k2]).0 == index_of(ix2, q) && edges2[k2].1 == index_of(ix2, p) && edges2[k2].2 == TELEPORT_COST as int
        }
    } else {
        assert(grid_linked(g, ix2, edges2, p.0 as int, p.1 as int));
        choose|k2: int| 0 <= k2 < edges2.len() && (#[trigger] edges2[k2]).0 == index_of(ix2, p) && edges2[k2].1 == index_of(ix2, q) && edges2[k2].2 == step_cost(tile_at(g, p), tile_at(g, q)) as int
    }
}

/// A walk of `p1` becomes a walk of `p2` through the same positions at the same cost.
proof fn lemma_walk_carry(p1: ChartedPaths, p2: ChartedPaths, ns: Seq<usize>, es: Seq<int>) -> (es2: Seq<int>)
    requires
        p1.wf(),
        p2.wf(),
        p1.grid() == p2.grid(),
        is_walk(p1.edges(), ns, es),
    ensures
        is_walk(p2.edges(), translate(p1, p2, ns), es2),
        walk_cost(p2.edges(), es2) == walk_cost(p1.edges(), es),
    decreases es.len(),
{
    if es.len() == 0 {
        Seq::empty()
    } else {
        let ns0 = ns.drop_last();
        let es0 = es.drop_last();
        assert forall|i: int| 0 <= i < es0.len() implies 0 <= #[trigger] es0[i] < p1.edges().len() && joins(
            p1.edges()[es0[i]],
            ns0[i],
            ns0[i + 1],
        ) by {
            assert(es0[i] == es[i]);
        }
        let head = lemma_walk_carry(p1, p2, ns0, es0);
        let last = es.len() - 1;
        let k2 = lemma_edge_counterpart(p1, p2, es[last]);
        let es2 = head.push(k2);
        let t = translate(p1, p2, ns);
        let t0 = translate(p1, p2, ns0);
        assert forall|i: int| 0 <= i < es2.len() implies 0 <= #[trigger] es2[i] < p2.edges().len() && joins(
            p2.edges()[es2[i]],
            t[i],
            t[i + 1],
        ) by {
            if i < last {
                assert(es2[i] == head[i]);
                assert(t[i] == t0[i]);
                assert(t[i + 1] == t0[i + 1]);
            }
        }
        assert(es2.drop_last() == head);
        es2
    }
}

/// A route of `p1` between two positions gives a route of `p2` between them at the same cost.
proof fn lemma_route_carry(
    p1: ChartedPaths,
    p2: ChartedPaths,
    a: ChartedCoordinate,
    b: ChartedCoordinate,
    ns: Seq<usize>,
    es: Seq<int>,
) -> (es2: Seq<int>)
    requires
        p1.wf(),
        p2.wf(),
        p1.grid() == p2.grid(),
        p1.node_of(a) is Some,
        p1.node_of(b) is Some,
        is_route(p1.edges(), p1.node_of(a).unwrap(), p1.node_of(b).unwrap(), ns, es),
    ensures
        p2.node_of(a) is Some,
        p2.node_of(b) is Some,
        is_route(p2.edges(), p2.node_of(a).unwrap(), p2.node_of(b).unwrap(), translate(p1, p2, ns), es2),
        walk_cost(p2.edges(), es2) == walk_cost(p1.edges(), es),
{
    let g = p1.grid@;
    let ix1 = table_view(&p1.indexes);
    let nodes1 = graph_nodes(p1.graph);
    lemma_node_of(p1, a);
    lemma_node_of(p1, b);
    lemma_node_of(p2, a);
    lemma_node_of(p2, b);
    assert(cell_indexed(g, ix1, nodes1, a.0 as int, a.1 as int));
    assert(cell_indexed(g, ix1, nodes1, b.0 as int, b.1 as int));
    lemma_route_within(p1.edges(), nodes1.len(), p1.node_of(a).unwrap(), p1.node_of(b).unwrap(), ns, es);
    assert(ns[0] < nodes1.len());
    lemma_walk_carry(p1, p2, ns, es)
}

/// Two planners built from the same grid give the same answers: the same positions are
/// connected, at the same least costs.
pub proof fn lemma_rebuild_same_answers(
    p1: ChartedPaths,
    p2: ChartedPaths,
    a: ChartedCoordinate,
    b: ChartedCoordinate,
    d: nat,
)
    requires
        p1.wf(),
        p2.wf(),
        p1.grid() == p2.grid(),
    ensures
        p1.connected(a, b) == p2.connected(a, b),
        p1.shortest(a, b, d) == p2.shortest(a, b, d),
{
    lemma_answers_carry(p1, p2, a, b, d);
    lemma_answers_carry(p2, p1, a, b, d);
}

/// Whatever `shortest_path_cost` (or `shortest_path_cost_a_star`) may return on two planners
/// built from the same grid, the two answers are equal.
pub proof fn lemma_rebuild_same_distance(
    p1: ChartedPaths,
    p2: ChartedPaths,
    a: ChartedCoordinate,
    b: ChartedCoordinate,
    r1: Option<u128>,
    r2: Option<u128>,
)
    requires
        p1.wf(),
        p2.wf(),
        p1.grid() == p2.grid(),
        r1 is Some <==> p1.connected(a, b),
        r1 matches Some(d) ==> p1.shortest(a, b, d as nat),
        r2 is Some <==> p2.connected(a, b),
        r2 matches Some(d) ==> p2.shortest(a, b, d as nat),
    ensures
        r1 == r2,
{
    lemma_rebuild_same_answers(p1, p2, a, b, 0);
    if let Some(d1) = r1 {
        let d2 = r2.unwrap();
        lemma_rebuild_same_answers(p1, p2, a, b, d1 as nat);
        lemma_shortest_unique(p2.edges(), p2.node_of(a).unwrap(), p2.node_of(b).unwrap(), d1 as nat, d2 as nat);
    }
}

proof fn lemma_answers_carry(p1: ChartedPaths, p2: ChartedPaths, a: ChartedCoordinate, b: ChartedCoordinate, d: nat)
    requires
        p1.wf(),
        p2.wf(),
        p1.grid() == p2.grid(),
    ensures
        p1.connected(a, b) ==> p2.connected(a, b),
        p1.shortest(a, b, d) ==> p2.shortest(a, b, d),
{
    if p1.connected(a, b) {
        let (ns, es) = choose|ns: Seq<usize>, es: Seq<int>| is_route(p1.edges(), p1.node_of(a).unwrap(), p1.node_of(b).unwrap(), ns, es);
        lemma_route_carry(p1, p2, a, b, ns, es);
    }
    if p1.shortest(a, b, d) {
        let (ns, es) = choose|ns: Seq<usize>, es: Seq<int>| #[trigger] is_route(p1.edges(), p1.node_of(a).unwrap(), p1.node_of(b).unwrap(), ns, es) && walk_cost(p1.edges(), es) == d;
        let es2 = lemma_route_carry(p1, p2, a, b, ns, es);
        let t = translate(p1, p2, ns);
        assert(is_route(p2.edges(), p2.node_of(a).unwrap(), p2.node_of(b).unwrap(), t, es2));
        assert forall|ns2: Seq<usize>, es2: Seq<int>| #[trigger] is_route(p2.edges(), p2.node_of(a).unwrap(), p2.node_of(b).unwrap(), ns2, es2) implies d <= walk_cost(p2.edges(), es2) by {
            let back = lemma_route_carry(p2, p1, a, b, ns2, es2);
            assert(is_route(p1.edges(), p1.node_of(a).unwrap(), p1.node_of(b).unwrap(), translate(p2, p1, ns2), back));
        }
    }
}

} // verus!
