use charting_tools::charted_bot::{discovery_step, ChartedBot, DiscoveryStep};
use charting_tools::charted_coordinate::ChartedCoordinate;
use charting_tools::charted_map::SavedQuantity;
use charting_tools::charted_paths::{ChartedPaths, Direction};
use charting_tools::{ChartingTools, New, LIMIT};

#[test]
fn coordinate_accessors_and_closeness() {
    let a = ChartedCoordinate::new(3, 7);
    assert_eq!(a.get_row(), 3);
    assert_eq!(a.get_col(), 7);
    assert_eq!(ChartedCoordinate::from((3usize, 7usize)), a);
    assert_eq!(ChartedCoordinate::distance_to(&a, &ChartedCoordinate(5, 1)), (-2, 6));
    assert!(ChartedCoordinate::is_close_to(&a, &ChartedCoordinate(3, 8)));
    assert!(ChartedCoordinate::is_close_to(&a, &ChartedCoordinate(2, 7)));
    assert!(ChartedCoordinate::is_close_to(&a, &a));
    assert!(!ChartedCoordinate::is_close_to(&a, &ChartedCoordinate(4, 8)));
    assert!(!ChartedCoordinate::is_close_to(&a, &ChartedCoordinate(3, 9)));
    assert!(!ChartedCoordinate::is_close_to(&ChartedCoordinate(0, 0), &ChartedCoordinate(usize::MAX, 0)));
}

#[test]
fn saved_quantity_kinds() {
    let none = SavedQuantity::Empty;
    let count = SavedQuantity::ContentQuantity(4);
    let range = SavedQuantity::ContentRange(1..5);
    let height = SavedQuantity::TileElevation(9);
    assert!(!none.is_some() && none.is_nome() && !none.is_usize() && !none.is_range());
    assert!(count.is_some() && !count.is_nome() && count.is_usize() && !count.is_range());
    assert!(range.is_some() && !range.is_nome() && !range.is_usize() && range.is_range());
    assert!(height.is_some() && height.is_usize() && !height.is_range());
}

#[test]
fn pool_hands_out_at_most_the_limit() {
    let mut pool = ChartingTools::new();
    for _ in 0..LIMIT {
        assert!(pool.tool::<ChartedPaths>().is_ok());
    }
    match pool.tool::<ChartedBot>() {
        Ok(_) => panic!("the pool is exhausted"),
        Err(n) => assert_eq!(n, LIMIT),
    }
    pool.release();
    assert!(pool.tool::<ChartedBot>().is_ok());
}

#[test]
fn bot_moves_one_step() {
    let mut bot = ChartedBot::new();
    assert_eq!(bot.get_coordinates(), ChartedCoordinate(0, 0));
    bot.init(ChartedCoordinate(2, 2));
    bot.move_bot(&Direction::Up);
    assert_eq!(bot.get_coordinates(), ChartedCoordinate(1, 2));
    bot.move_bot(&Direction::Right);
    assert_eq!(bot.get_coordinates(), ChartedCoordinate(1, 3));
    bot.move_bot(&Direction::Down);
    bot.move_bot(&Direction::Left);
    assert_eq!(bot.get_coordinates(), ChartedCoordinate(2, 2));
}

fn bot_at(row: usize, col: usize) -> ChartedBot {
    let mut bot = ChartedBot::new();
    bot.init(ChartedCoordinate(row, col));
    bot
}

#[test]
fn line_up_walks_rows_away_from_the_bot() {
    let tiles = bot_at(2, 2).line_tiles(2, 5, Direction::Up);
    assert_eq!(tiles, vec![(2, 1), (2, 2), (2, 3), (1, 1), (1, 2), (1, 3)]);
    let clipped = bot_at(1, 0).line_tiles(5, 5, Direction::Up);
    assert_eq!(clipped, vec![(1, 0), (1, 1), (0, 0), (0, 1)]);
}

#[test]
fn line_right_and_left_walk_columns() {
    assert_eq!(bot_at(0, 4).line_tiles(3, 5, Direction::Right), vec![(1, 4), (0, 4)]);
    assert_eq!(
        bot_at(3, 1).line_tiles(4, 5, Direction::Left),
        vec![(4, 1), (3, 1), (2, 1), (4, 0), (3, 0), (2, 0)]
    );
}

#[test]
fn line_down_stops_at_the_grid_edge() {
    assert_eq!(bot_at(4, 4).line_tiles(2, 5, Direction::Down), vec![(4, 3), (4, 4)]);
    assert_eq!(bot_at(1, 1).line_tiles(0, 5, Direction::Down), vec![]);
}

#[test]
fn line_energy_is_three_per_tile() {
    assert_eq!(ChartedBot::line_energy(4, 3), Some(36));
    assert_eq!(ChartedBot::line_energy(usize::MAX, 2), None);
}

#[test]
fn coordinates_add_and_subtract_componentwise() {
    let a = ChartedCoordinate(3, 5);
    assert_eq!(a + ChartedCoordinate(1, 2), ChartedCoordinate(4, 7));
    assert_eq!(a + (2usize, 0usize), ChartedCoordinate(5, 5));
    assert_eq!(a - ChartedCoordinate(3, 1), ChartedCoordinate(0, 4));
    assert_eq!(a - (1usize, 1usize), ChartedCoordinate(2, 4));
}

#[test]
fn saved_quantities_compare_by_kind_and_value() {
    assert!(SavedQuantity::ContentQuantity(3) == SavedQuantity::ContentQuantity(3));
    assert!(SavedQuantity::ContentQuantity(3) != SavedQuantity::ContentQuantity(4));
    assert!(SavedQuantity::ContentQuantity(3) != SavedQuantity::TileElevation(3));
    assert!(SavedQuantity::ContentRange(1..4) == SavedQuantity::ContentRange(1..4));
    assert!(SavedQuantity::ContentRange(1..4) != SavedQuantity::ContentRange(1..5));
    assert!(SavedQuantity::Empty != SavedQuantity::Empty);
}

#[test]
fn discovery_stops_skips_or_discovers() {
    assert_eq!(discovery_step(0, false), DiscoveryStep::Stop);
    assert_eq!(discovery_step(-3, true), DiscoveryStep::Stop);
    assert_eq!(discovery_step(5, true), DiscoveryStep::Skip);
    assert_eq!(discovery_step(1, false), DiscoveryStep::Discover);
}
