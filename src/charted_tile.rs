use vstd::prelude::*;

use crate::charted_coordinate::{close, ChartedCoordinate};

verus! {

/// What route planning reads of a discovered tile.
#[derive(Copy, Clone, Debug, PartialEq, Eq, Structural)]
pub struct ChartedTile {
    /// Whether the robot may stand on the tile.
    pub walkable: bool,
    /// Whether the tile is a deployed teleport.
    pub teleport: bool,
    pub elevation: u32,
    /// Cost of leaving the tile: its terrain's base cost, adjusted to the current
    /// weather and time of day.
    pub cost: u32,
}

/// Fixed cost of travelling between two teleports.
pub const TELEPORT_COST: u128 = 30;

/// A square grid of optional tiles: `None` for a tile not discovered yet.
pub type Grid = Vec<Vec<Option<ChartedTile>>>;

/// The model of a grid: row by row.
pub open spec fn grid_view(grid: &Grid) -> Seq<Seq<Option<ChartedTile>>> {
    grid@.map_values(|row: Vec<Option<ChartedTile>>| row@)
}

pub open spec fn is_square(g: Seq<Seq<Option<ChartedTile>>>) -> bool {
    forall|i: int| 0 <= i < g.len() ==> (#[trigger] g[i]).len() == g.len()
}

pub open spec fn in_grid(g: Seq<Seq<Option<ChartedTile>>>, c: ChartedCoordinate) -> bool {
    c.0 < g.len() && c.1 < g.len()
}

/// The tile at `c` has been discovered.
pub open spec fn discovered(g: Seq<Seq<Option<ChartedTile>>>, c: ChartedCoordinate) -> bool {
    in_grid(g, c) && g[c.0 as int][c.1 as int] is Some
}

pub open spec fn tile_at(g: Seq<Seq<Option<ChartedTile>>>, c: ChartedCoordinate) -> ChartedTile {
    g[c.0 as int][c.1 as int].unwrap()
}

/// The tile at `c` is discovered and walkable: it becomes a node of the route graph.
pub open spec fn is_node(g: Seq<Seq<Option<ChartedTile>>>, c: ChartedCoordinate) -> bool {
    discovered(g, c) && tile_at(g, c).walkable
}

/// A node of the route graph whose tile is a teleport.
pub open spec fn is_teleport(g: Seq<Seq<Option<ChartedTile>>>, c: ChartedCoordinate) -> bool {
    is_node(g, c) && tile_at(g, c).teleport
}

/// Climb penalty: the squared rise when `to` is strictly higher than `from`, else zero.
pub open spec fn climb_penalty(from: ChartedTile, to: ChartedTile) -> nat {
    if from.elevation < to.elevation {
        ((to.elevation - from.elevation) * (to.elevation - from.elevation)) as nat
    } else {
        0
    }
}

/// Cost of moving from tile `from` to the neighbouring tile `to`.
pub open spec fn step_cost(from: ChartedTile, to: ChartedTile) -> nat {
    from.cost as nat + climb_penalty(from, to)
}

/// Cost of moving from `from` to `to`, both discovered and four-directionally adjacent.
pub fn eval_weight(from: &ChartedCoordinate, to: &ChartedCoordinate, map: &Grid) -> (r: u64)
    requires
        is_square(grid_view(map)),
        discovered(grid_view(map), *from),
        discovered(grid_view(map), *to),
        close(*from, *to),
    ensures
        r == step_cost(tile_at(grid_view(map), *from), tile_at(grid_view(map), *to)),
{
    let row_from = &map[from.0];
    let row_to = &map[to.0];
    assert(row_from@ == grid_view(map)[from.0 as int]);
    assert(row_to@ == grid_view(map)[to.0 as int]);
    assert(row_from@.len() == map@.len());
    assert(row_to@.len() == map@.len());
    let tile_from = row_from[from.1].unwrap();
    let tile_to = row_to[to.1].unwrap();
    let base = tile_from.cost as u64;
    if tile_from.elevation < tile_to.elevation {
        let rise = (tile_to.elevation - tile_from.elevation) as u64;
        assert(rise * rise <= 0xffff_fffe_0000_0001) by (nonlinear_arith)
            requires
                rise <= 0xffff_ffff,
        ;
        base + rise * rise
    } else {
        base
    }
}

/// Moving from a tile to one that is not higher costs the tile's own (adjusted) cost.
pub proof fn lemma_flat_or_descending_step(from: ChartedTile, to: ChartedTile)
    requires
        to.elevation <= from.elevation,
    ensures
        step_cost(from, to) == from.cost,
{
}

} // verus!
