use charting_tools::charted_coordinate::ChartedCoordinate;
use charting_tools::charted_paths::{ChartedPaths, Direction};
use charting_tools::charted_tile::{eval_weight, ChartedTile, TELEPORT_COST};

fn walkable() -> ChartedTile {
    ChartedTile { walkable: true, teleport: false, elevation: 0, cost: 1 }
}

fn blocked(elevation: u32) -> ChartedTile {
    ChartedTile { walkable: false, teleport: false, elevation, cost: 1 }
}

fn teleport() -> ChartedTile {
    ChartedTile { walkable: true, teleport: true, elevation: 0, cost: 1 }
}

fn set(map: &mut Vec<Vec<Option<ChartedTile>>>, row: usize, col: usize, tile: ChartedTile) {
    map[row][col] = Some(tile);
}

/// The 5x5 example world: rows 2 and 4 are deep water.
fn example_world() -> Vec<Vec<Option<ChartedTile>>> {
    let mut robot_map = Vec::new();
    for i in 0..5 {
        let mut row_vector = Vec::new();
        for _ in 0..5 {
            if i == 2 || i == 4 {
                row_vector.push(Some(blocked(10)));
            } else {
                row_vector.push(Some(walkable()));
            }
        }
        robot_map.push(row_vector);
    }
    robot_map
}

fn build(map: &Vec<Vec<Option<ChartedTile>>>) -> ChartedPaths {
    let mut paths = ChartedPaths::new();
    paths.init(map);
    paths
}

fn c(row: usize, col: usize) -> ChartedCoordinate {
    ChartedCoordinate(row, col)
}

#[test]
fn test_correct_calls() {
    let mut robot_map = example_world();
    set(&mut robot_map, 0, 3, blocked(0));
    set(&mut robot_map, 0, 4, teleport());
    set(&mut robot_map, 1, 1, blocked(0));
    set(&mut robot_map, 1, 2, teleport());
    set(&mut robot_map, 3, 4, teleport());

    let pathfinder = build(&robot_map);

    let cost_one = pathfinder.shortest_path_cost(c(0, 0), c(0, 4));
    let cost_two = pathfinder.shortest_path_cost_a_star(c(0, 0), c(1, 4));

    println!("The cost from (0,0) to (0,4) is: {:?}", cost_one.unwrap());
    println!("The cost from (0,0) to (1,4) is: {:?}", cost_two.unwrap());

    let path = pathfinder.shortest_path(c(0, 0), c(0, 4));
    for i in path.clone().unwrap().1 {
        println!("{:?}", i);
    }
}

#[test]
fn example_world_costs() {
    let mut robot_map = example_world();
    set(&mut robot_map, 0, 3, blocked(0));
    set(&mut robot_map, 0, 4, teleport());
    set(&mut robot_map, 1, 1, blocked(0));
    set(&mut robot_map, 1, 2, teleport());
    set(&mut robot_map, 3, 4, teleport());
    let paths = build(&robot_map);
    assert_eq!(paths.shortest_path_cost(c(0, 0), c(0, 4)), Some(6));
    assert_eq!(paths.shortest_path_cost_a_star(c(0, 0), c(1, 4)), Some(5));
    let (cost, route) = paths.shortest_path(c(0, 0), c(0, 4)).unwrap();
    assert_eq!(cost, 6);
    assert_eq!(route, vec![c(0, 0), c(0, 1), c(0, 2), c(1, 2), c(1, 3), c(1, 4), c(0, 4)]);
    // Row 3 is cut off by water: only the teleport at (3,4) reaches it.
    assert_eq!(paths.shortest_path_cost(c(0, 4), c(3, 4)), Some(TELEPORT_COST));
    assert_eq!(paths.shortest_path_cost(c(0, 0), c(3, 4)), Some(3 + TELEPORT_COST));
}

#[test]
fn teleport_or_local_route_whichever_is_lower() {
    let mut robot_map = example_world();
    set(&mut robot_map, 0, 3, blocked(0));
    set(&mut robot_map, 0, 4, teleport());
    set(&mut robot_map, 1, 2, teleport());
    let paths = build(&robot_map);
    let d = paths.shortest_path_cost(c(0, 0), c(0, 4));
    assert!(d.is_some());
    assert_eq!(d, Some(6));
    assert!(d.unwrap() <= 30 + 3);
}

#[test]
fn step_cost_adds_squared_climb_only_uphill() {
    let low = ChartedTile { walkable: true, teleport: false, elevation: 2, cost: 4 };
    let high = ChartedTile { walkable: true, teleport: false, elevation: 5, cost: 7 };
    let map = vec![vec![Some(low), Some(high)], vec![None, None]];
    assert_eq!(eval_weight(&c(0, 0), &c(0, 1), &map), 4 + 9);
    assert_eq!(eval_weight(&c(0, 1), &c(0, 0), &map), 7);
    let flat = vec![vec![Some(low), Some(low)], vec![None, None]];
    assert_eq!(eval_weight(&c(0, 0), &c(0, 1), &flat), 4);
}

#[test]
fn edge_weight_is_computed_in_scan_direction() {
    let low = ChartedTile { walkable: true, teleport: false, elevation: 0, cost: 1 };
    let high = ChartedTile { walkable: true, teleport: false, elevation: 3, cost: 1 };
    let map = vec![vec![Some(low), Some(high)], vec![None, None]];
    let paths = build(&map);
    assert_eq!(paths.shortest_path_cost(c(0, 0), c(0, 1)), Some(10));
    assert_eq!(paths.shortest_path_cost(c(0, 1), c(0, 0)), Some(10));
}

#[test]
fn out_of_range_queries_are_absent() {
    let paths = build(&example_world());
    assert_eq!(paths.shortest_path_cost(c(5, 0), c(0, 0)), None);
    assert_eq!(paths.shortest_path_cost(c(0, 0), c(0, 5)), None);
    assert_eq!(paths.shortest_path_cost_a_star(c(0, 7), c(0, 0)), None);
    assert_eq!(paths.shortest_path(c(0, 0), c(9, 9)), None);
}

#[test]
fn distance_to_itself_is_zero() {
    let paths = build(&example_world());
    assert_eq!(paths.shortest_path_cost(c(1, 3), c(1, 3)), Some(0));
    assert_eq!(paths.shortest_path_cost_a_star(c(1, 3), c(1, 3)), Some(0));
    assert_eq!(paths.shortest_path(c(1, 3), c(1, 3)), Some((0, vec![c(1, 3)])));
}

#[test]
fn path_starts_and_ends_at_endpoints_with_matching_cost() {
    let paths = build(&example_world());
    let (cost, route) = paths.shortest_path(c(0, 0), c(1, 4)).unwrap();
    assert_eq!(route.first(), Some(&c(0, 0)));
    assert_eq!(route.last(), Some(&c(1, 4)));
    assert_eq!(Some(cost), paths.shortest_path_cost(c(0, 0), c(1, 4)));
    assert_eq!(cost, 5);
    for pair in route.windows(2) {
        assert!(ChartedCoordinate::is_close_to(&pair[0], &pair[1]));
    }
}

#[test]
fn distant_teleports_are_one_fee_apart() {
    let mut map = vec![vec![None; 6]; 6];
    set(&mut map, 0, 0, teleport());
    set(&mut map, 5, 5, teleport());
    let paths = build(&map);
    assert_eq!(paths.shortest_path_cost(c(0, 0), c(5, 5)), Some(30));
    assert_eq!(paths.shortest_path_cost_a_star(c(5, 5), c(0, 0)), Some(30));
    assert_eq!(paths.shortest_path(c(0, 0), c(5, 5)), Some((30, vec![c(0, 0), c(5, 5)])));
}

#[test]
fn undiscovered_and_unwalkable_tiles_have_no_route() {
    let mut map = vec![vec![None; 3]; 3];
    set(&mut map, 0, 0, walkable());
    set(&mut map, 0, 1, blocked(0));
    set(&mut map, 0, 2, walkable());
    let paths = build(&map);
    assert_eq!(paths.shortest_path_cost(c(0, 0), c(0, 2)), None);
    assert_eq!(paths.shortest_path_cost(c(0, 0), c(0, 1)), None);
    assert_eq!(paths.shortest_path_cost(c(1, 1), c(1, 1)), None);
}

#[test]
fn empty_grid_answers_nothing() {
    let paths = build(&Vec::new());
    assert_eq!(paths.shortest_path_cost(c(0, 0), c(0, 0)), None);
    let fresh = ChartedPaths::new();
    assert_eq!(fresh.shortest_path(c(0, 0), c(0, 0)), None);
}

#[test]
fn large_weights_still_answer() {
    let m = u32::MAX as u128;
    let base = ChartedTile { walkable: true, teleport: false, elevation: 0, cost: u32::MAX };
    let peak = ChartedTile { walkable: true, teleport: false, elevation: u32::MAX, cost: u32::MAX };
    let map = vec![vec![Some(base), Some(peak)], vec![Some(base), Some(peak)]];
    assert_eq!(eval_weight(&c(0, 0), &c(0, 1), &map), u32::MAX as u64 + (u32::MAX as u64) * (u32::MAX as u64));
    let paths = build(&map);
    assert_eq!(paths.shortest_path_cost(c(0, 0), c(0, 1)), Some(m + m * m));
    assert_eq!(paths.shortest_path_cost_a_star(c(1, 0), c(0, 1)), Some(m + m + m * m));
    assert_eq!(paths.shortest_path(c(0, 0), c(0, 0)), Some((0, vec![c(0, 0)])));
}

#[test]
fn rebuilding_gives_identical_answers() {
    let mut map = example_world();
    set(&mut map, 0, 3, blocked(0));
    set(&mut map, 0, 4, teleport());
    set(&mut map, 1, 2, teleport());
    let first = build(&map);
    let mut second = ChartedPaths::new();
    second.init(&map);
    second.init(&map);
    for a in 0..5 {
        for b in 0..5 {
            for x in 0..5 {
                for y in 0..5 {
                    assert_eq!(
                        first.shortest_path_cost(c(a, b), c(x, y)),
                        second.shortest_path_cost(c(a, b), c(x, y))
                    );
                    assert_eq!(
                        first.shortest_path(c(a, b), c(x, y)).map(|p| p.0),
                        second.shortest_path(c(a, b), c(x, y)).map(|p| p.0)
                    );
                }
            }
        }
    }
}

#[test]
fn directions_only_between_neighbours() {
    let from = c(2, 2);
    assert_eq!(ChartedPaths::coordinates_to_direction(from, c(2, 1)), Ok(Direction::Left));
    assert_eq!(ChartedPaths::coordinates_to_direction(from, c(2, 3)), Ok(Direction::Right));
    assert_eq!(ChartedPaths::coordinates_to_direction(from, c(1, 2)), Ok(Direction::Up));
    assert_eq!(ChartedPaths::coordinates_to_direction(from, c(3, 2)), Ok(Direction::Down));
    assert_eq!(ChartedPaths::coordinates_to_direction(from, c(2, 2)), Err(()));
    assert_eq!(ChartedPaths::coordinates_to_direction(c(0, 0), c(1, 1)), Err(()));
    assert_eq!(ChartedPaths::coordinates_to_direction(c(2, 0), c(1, 1)), Err(()));
    assert_eq!(ChartedPaths::coordinates_to_direction(c(0, 0), c(0, 2)), Err(()));
    assert_eq!(ChartedPaths::coordinates_to_direction(c(4, 1), c(0, 1)), Err(()));
}

#[test]
fn direction_round_trip_on_neighbours() {
    let from = c(4, 4);
    for to in [c(3, 4), c(5, 4), c(4, 3), c(4, 5)] {
        let d = ChartedPaths::coordinates_to_direction(from, to).unwrap();
        let (r, col) = match d {
            Direction::Up => (from.0 - 1, from.1),
            Direction::Down => (from.0 + 1, from.1),
            Direction::Left => (from.0, from.1 - 1),
            Direction::Right => (from.0, from.1 + 1),
        };
        assert_eq!(c(r, col), to);
    }
}

#[test]
fn a_walkable_cliff_keeps_every_answer() {
    let m = u32::MAX as u128;
    let base = ChartedTile { walkable: true, teleport: false, elevation: 0, cost: 0 };
    let peak = ChartedTile { walkable: true, teleport: false, elevation: u32::MAX, cost: 0 };
    let mut cliff = vec![vec![None; 2]; 2];
    set(&mut cliff, 0, 0, base);
    set(&mut cliff, 0, 1, peak);
    let paths = build(&cliff);
    assert_eq!(paths.shortest_path_cost(c(0, 0), c(0, 1)), Some(m * m));
    assert_eq!(paths.shortest_path_cost_a_star(c(0, 1), c(0, 0)), Some(m * m));
    assert_eq!(paths.shortest_path_cost(c(0, 0), c(0, 0)), Some(0));
    assert_eq!(paths.shortest_path(c(0, 1), c(0, 0)), Some((m * m, vec![c(0, 1), c(0, 0)])));
}
