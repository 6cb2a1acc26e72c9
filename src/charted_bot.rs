use vstd::prelude::*;

use crate::charted_coordinate::ChartedCoordinate;
use crate::charted_paths::{moved, Direction};
use crate::{ChartingTool, New};

verus! {


/// `lo, lo + 1, ..., hi - 1`.
pub open spec fn ascending(lo: int, hi: int) -> Seq<usize> {
    Seq::new((hi - lo) as nat, |i: int| (lo + i) as usize)
}

/// `hi - 1, hi - 2, ..., lo`.
pub open spec fn descending(lo: int, hi: int) -> Seq<usize> {
    Seq::new((hi - lo) as nat, |i: int| (hi - 1 - i) as usize)
}

pub open spec fn min(a: int, b: int) -> int {
    if a < b {
        a
    } else {
        b
    }
}

pub open spec fn max(a: int, b: int) -> int {
    if a < b {
        b
    } else {
        a
    }
}

/// The band across the line of travel: the bot's own row or column and its two neighbours,
/// as far as they lie inside a grid of side `dimension`.
pub open spec fn band(p: usize, dimension: usize) -> (int, int) {
    (max(0, p - 1), min(p + 2, dimension as int))
}

/// The tiles `(row, column)` of `outer` crossed with `inner`, outer index first; `rows_outer`
/// says whether the outer sequence holds rows.
pub open spec fn cross(outer: Seq<usize>, inner: Seq<usize>, rows_outer: bool) -> Seq<(usize, usize)>
    decreases outer.len(),
{
    if outer.len() == 0 {
        Seq::empty()
    } else {
        cross(outer.drop_last(), inner, rows_outer) + inner.map_values(
            |x: usize|
                if rows_outer {
                    (outer.last(), x)
                } else {
                    (x, outer.last())
                },
        )
    }
}

/// The tiles examined when discovering `length` tiles ahead from `at` (the bot's tile
/// included) in a band three tiles wide, line by line away from the bot; lines and bands are
/// cut at the grid's edges.
pub open spec fn line_tiles_spec(at: ChartedCoordinate, length: usize, dimension: usize, direction: Direction) -> Seq<(usize, usize)> {
    let r = at.0 as int;
    let c = at.1 as int;
    let l = length as int;
    let n = dimension as int;
    match direction {
        Direction::Up => cross(
            descending(max(0, r + 1 - l), r + 1),
            ascending(band(at.1, dimension).0, band(at.1, dimension).1),
            true,
        ),
        Direction::Down => cross(
            ascending(r, min(r + l, n)),
            ascending(band(at.1, dimension).0, band(at.1, dimension).1),
            true,
        ),
        Direction::Right => cross(
            ascending(c, min(c + l, n)),
            descending(band(at.0, dimension).0, band(at.0, dimension).1),
            false,
        ),
        Direction::Left => cross(
            descending(max(0, c + 1 - l), c + 1),
            descending(band(at.0, dimension).0, band(at.0, dimension).1),
            false,
        ),
    }
}

/// `lo..hi` as a vector, ascending.
fn ascending_range(lo: usize, hi: usize) -> (r: Vec<usize>)
    requires
        lo <= hi,
    ensures
        r@ == ascending(lo as int, hi as int),
{
    let mut r: Vec<usize> = Vec::new();
    let mut v: usize = lo;
    while v < hi
        invariant
            lo <= v <= hi,
            r@ == ascending(lo as int, v as int),
        decreases hi - v,
    {
        r.push(v);
        v = v + 1;
        assert(r@ =~= ascending(lo as int, v as int));
    }
    r
}

/// `lo..hi` as a vector, descending.
fn descending_range(lo: usize, hi: usize) -> (r: Vec<usize>)
    requires
        lo <= hi,
    ensures
        r@ == descending(lo as int, hi as int),
{
    let mut r: Vec<usize> = Vec::new();
    let mut v: usize = hi;
    while v > lo
        invariant
            lo <= v <= hi,
            r@ == descending(v as int, hi as int),
        decreases v - lo,
    {
        v = v - 1;
        r.push(v);
        assert(r@ =~= descending(v as int, hi as int));
    }
    r
}

/// Every tile of `outer` crossed with `inner`, outer index first.
fn cross_tiles(outer: &Vec<usize>, inner: &Vec<usize>, rows_outer: bool) -> (r: Vec<(usize, usize)>)
    ensures
        r@ == cross(outer@, inner@, rows_outer),
{
    let mut tiles: Vec<(usize, usize)> = Vec::new();
    let mut i: usize = 0;
    while i < outer.len()
        invariant
            0 <= i <= outer@.len(),
            tiles@ == cross(outer@.take(i as int), inner@, rows_outer),
        decreases outer@.len() - i,
    {
        let o = outer[i];
        let ghost head = tiles@;
        let mut j: usize = 0;
        while j < inner.len()
            invariant
                0 <= i < outer@.len(),
                o == outer@[i as int],
                0 <= j <= inner@.len(),
                tiles@ == head + inner@.take(j as int).map_values(
                    |x: usize|
                        if rows_outer {
                            (o, x)
                        } else {
                            (x, o)
                        },
                ),
            decreases inner@.len() - j,
        {
            if rows_outer {
                tiles.push((o, inner[j]));
            } else {
                tiles.push((inner[j], o));
            }
            j = j + 1;
            assert(tiles@ =~= head + inner@.take(j as int).map_values(
                |x: usize|
                    if rows_outer {
                        (o, x)
                    } else {
                        (x, o)
                    },
            ));
        }
        proof {
            let taken = outer@.take(i as int + 1);
            assert(taken.drop_last() =~= outer@.take(i as int));
            assert(taken.last() == o);
            assert(inner@.take(inner@.len() as int) =~= inner@);
        }
        i = i + 1;
    }
    assert(outer@.take(outer@.len() as int) =~= outer@);
    tiles
}

/// What the discovery loop does with the next examined tile.
#[derive(Copy, Clone, Debug, PartialEq, Eq, Structural)]
pub enum DiscoveryStep {
    /// The world allows no more discoveries: stop with an error.
    Stop,
    /// The tile is already discovered: go on to the next one.
    Skip,
    /// Discover the tile and count it.
    Discover,
}

/// Decides the next step of the discovery loop, given how many discoveries the world still
/// allows and whether the tile is already discovered.
pub fn discovery_step(discoverable_left: i64, already_discovered: bool) -> (r: DiscoveryStep)
    ensures
        discoverable_left <= 0 ==> r == DiscoveryStep::Stop,
        discoverable_left > 0 && already_discovered ==> r == DiscoveryStep::Skip,
        discoverable_left > 0 && !already_discovered ==> r == DiscoveryStep::Discover,
{
    if discoverable_left <= 0 {
        DiscoveryStep::Stop
    } else if already_discovered {
        DiscoveryStep::Skip
    } else {
        DiscoveryStep::Discover
    }
}

/// Tracks the position from which tiles are discovered.
#[derive(Debug, Clone, Copy)]
pub struct ChartedBot {
    coordinates: ChartedCoordinate,
}

impl New for ChartedBot {
    fn new() -> Self {
        ChartedBot { coordinates: ChartedCoordinate(0, 0) }
    }
}

impl ChartingTool for ChartedBot {}

impl ChartedBot {
    pub closed spec fn position(&self) -> ChartedCoordinate {
        self.coordinates
    }

    /// The bot's position.
    pub fn get_coordinates(&self) -> (r: ChartedCoordinate)
        ensures
            r == self.position(),
    {
        self.coordinates
    }

    /// Places the bot at `coordinates`.
    pub fn init(&mut self, coordinates: ChartedCoordinate)
        ensures
            final(self).position() == coordinates,
    {
        self.coordinates = coordinates;
    }

    /// The tiles, in order, that discovering `length` tiles in `direction` examines, on a
    /// grid of side `dimension` that holds the bot.
    pub fn line_tiles(&self, length: usize, dimension: usize, direction: Direction) -> (r: Vec<(usize, usize)>)
        requires
            self.position().0 < dimension,
            self.position().1 < dimension,
        ensures
            r@ == line_tiles_spec(self.position(), length, dimension, direction),
    {
        let row = self.coordinates.0;
        let col = self.coordinates.1;
        let across_row: usize = if row < 1 { 0 } else { row - 1 };
        let across_col: usize = if col < 1 { 0 } else { col - 1 };
        let row_end: usize = if dimension - row < 3 { dimension } else { row + 2 };
        let col_end: usize = if dimension - col < 3 { dimension } else { col + 2 };
        match direction {
            Direction::Up => {
                let first: usize = if length > row { 0 } else { row + 1 - length };
                cross_tiles(&descending_range(first, row + 1), &ascending_range(across_col, col_end), true)
            },
            Direction::Down => {
                let last: usize = if length >= dimension - row { dimension } else { row + length };
                cross_tiles(&ascending_range(row, last), &ascending_range(across_col, col_end), true)
            },
            Direction::Right => {
                let last: usize = if length >= dimension - col { dimension } else { col + length };
                cross_tiles(&ascending_range(col, last), &descending_range(across_row, row_end), false)
            },
            Direction::Left => {
                let first: usize = if length > col { 0 } else { col + 1 - length };
                cross_tiles(&descending_range(first, col + 1), &descending_range(across_row, row_end), false)
            },
        }
    }

    /// Energy that discovering a line of `length` by `width` tiles requires: three units per
    /// tile, or `None` when that does not fit in `usize`.
    pub fn line_energy(length: usize, width: usize) -> (r: Option<usize>)
        ensures
            r matches Some(e) ==> e == length * width * 3,
            r is None <==> length * width * 3 > usize::MAX,
    {
        match length.checked_mul(width) {
            None => {
                assert(length * width * 3 >= length * width) by (nonlinear_arith);
                None
            },
            Some(area) => area.checked_mul(3),
        }
    }

    /// Moves the bot one step; the step must stay within the range of `usize`.
    pub fn move_bot(&mut self, direction: &Direction)
        requires
            0 <= moved(old(self).position(), *direction).0 <= usize::MAX,
            0 <= moved(old(self).position(), *direction).1 <= usize::MAX,
        ensures
            (final(self).position().0 as int, final(self).position().1 as int) == moved(
                old(self).position(),
                *direction,
            ),
    {
        match direction {
            Direction::Up => self.coordinates.0 = self.coordinates.0 - 1,
            Direction::Down => self.coordinates.0 = self.coordinates.0 + 1,
            Direction::Left => self.coordinates.1 = self.coordinates.1 - 1,
            Direction::Right => self.coordinates.1 = self.coordinates.1 + 1,
        }
    }
}

} // verus!
