use aoc25::days::day4::{Direction, Grid, Position, Tile};

#[test]
fn day4_test_tile_from_char() {
    assert_eq!(Tile::from_char('.'), Tile::Space);
    assert_eq!(Tile::from_char('@'), Tile::Paper);
}

#[test]
fn day4_test_position_new() {
    assert_eq!(Position::new(1, 2), Position { x: 1, y: 2 })
}

#[test]
fn test_position_look() {
    assert_eq!(Position::new(0, 0).look(&Direction::Above, 1, 1), None);
    assert_eq!(
        Position::new(0, 0).look(&Direction::Below, 1, 1),
        Some(Position::new(0, 1))
    );
    assert_eq!(Position::new(0, 0).look(&Direction::Left, 1, 1), None);
    assert_eq!(
        Position::new(0, 0).look(&Direction::Right, 1, 1),
        Some(Position::new(1, 0))
    );
    assert_eq!(Position::new(0, 0).look(&Direction::TopLeft, 1, 1), None);
    assert_eq!(Position::new(0, 0).look(&Direction::TopRight, 1, 1), None);
    assert_eq!(Position::new(0, 0).look(&Direction::BottomLeft, 1, 1), None);
    assert_eq!(
        Position::new(0, 0).look(&Direction::BottomRight, 1, 1),
        Some(Position::new(1, 1))
    );
}

#[test]
fn day4_test_grid_new() {
    let input = "..@@\n@@..\n";
    assert_eq!(
        Grid::new(input).grid,
        vec![
            vec![Tile::Space, Tile::Space, Tile::Paper, Tile::Paper],
            vec![Tile::Paper, Tile::Paper, Tile::Space, Tile::Space],
        ]
    );

    let input = "..@@\n@@..";
    assert_eq!(
        Grid::new(input).grid,
        vec![
            vec![Tile::Space, Tile::Space, Tile::Paper, Tile::Paper],
            vec![Tile::Paper, Tile::Paper, Tile::Space, Tile::Space],
        ]
    );
}

#[test]
fn day4_test_grid_score() {
    let input = "..@@.@@@@.\n@@@.@.@.@@\n@@@@@.@.@@\n@.@@@@..@.\n@@.@@@@.@@\n.@@@@@@@.@\n.@.@.@.@@@\n@.@@@.@@@@\n.@@@@@@@@.\n@.@.@@@.@.";

    assert_eq!(Grid::new(input).score(), 13)
}

#[test]
fn day4_test_grid_step() {
    let input = "..@@.@@@@.\n@@@.@.@.@@\n@@@@@.@.@@\n@.@@@@..@.\n@@.@@@@.@@\n.@@@@@@@.@\n.@.@.@.@@@\n@.@@@.@@@@\n.@@@@@@@@.\n@.@.@@@.@.";

    let expected = ".......@..\n.@@.@.@.@@\n@@@@@...@@\n@.@@@@..@.\n.@.@@@@.@.\n.@@@@@@@.@\n.@.@.@.@@@\n..@@@.@@@@\n.@@@@@@@@.\n....@@@...";

    let mut actual = Grid::new(input);
    let n = actual.step();
    assert_eq!(n, 13);
    assert_eq!(actual, Grid::new(expected));
}

#[test]
fn day4_test_grid_step_until() {
    let input = "..@@.@@@@.\n@@@.@.@.@@\n@@@@@.@.@@\n@.@@@@..@.\n@@.@@@@.@@\n.@@@@@@@.@\n.@.@.@.@@@\n@.@@@.@@@@\n.@@@@@@@@.\n@.@.@@@.@.";

    let expected = "..........\n..........\n..........\n....@@....\n...@@@@...\n...@@@@@..\n...@.@.@@.\n...@@.@@@.\n...@@@@@..\n....@@@...";

    let mut grid = Grid::new(input);

    let n = grid.step_until();

    assert_eq!(n, 43);

    assert_eq!(grid, Grid::new(expected));
}

#[test]
fn directions_are_the_eight_neighbours() {
    let all = Direction::iterator();
    assert_eq!(
        all,
        vec![
            Direction::Above,
            Direction::Left,
            Direction::Below,
            Direction::Right,
            Direction::TopLeft,
            Direction::TopRight,
            Direction::BottomLeft,
            Direction::BottomRight,
        ]
    );
    let mut seen: Vec<Position> = all
        .iter()
        .map(|d| Position::new(5, 5).look(d, 9, 9).unwrap())
        .collect();
    seen.sort_by(|a, b| (a.y, a.x).cmp(&(b.y, b.x)));
    assert_eq!(
        seen,
        vec![
            Position::new(4, 4),
            Position::new(5, 4),
            Position::new(6, 4),
            Position::new(4, 5),
            Position::new(6, 5),
            Position::new(4, 6),
            Position::new(5, 6),
            Position::new(6, 6),
        ]
    );
}

#[test]
fn look_stops_at_every_edge() {
    let corner = Position::new(3, 2);
    assert_eq!(corner.look(&Direction::Right, 3, 2), None);
    assert_eq!(corner.look(&Direction::Below, 3, 2), None);
    assert_eq!(corner.look(&Direction::BottomRight, 3, 2), None);
    assert_eq!(corner.look(&Direction::TopRight, 3, 2), None);
    assert_eq!(corner.look(&Direction::BottomLeft, 3, 2), None);
    assert_eq!(corner.look(&Direction::TopLeft, 3, 2), Some(Position::new(2, 1)));
    assert_eq!(corner.look(&Direction::Above, 3, 2), Some(Position::new(3, 1)));
    assert_eq!(corner.look(&Direction::Left, 3, 2), Some(Position::new(2, 2)));
}

#[test]
fn small_floors() {
    assert_eq!(Grid::new("@").score(), 1);
    assert_eq!(Grid::new(".").score(), 0);
    assert_eq!(Grid::new("@\n\n\n").grid, vec![vec![Tile::Paper]]);
    assert_eq!(Grid::new("").grid, vec![Vec::<Tile>::new()]);
    let full = "@@@\n@@@\n@@@";
    assert_eq!(Grid::new(full).score(), 4);
    let mut grid = Grid::new(full);
    assert_eq!(grid.step(), 4);
    assert_eq!(grid, Grid::new(".@.\n@@@\n.@."));
    assert_eq!(grid.step_until(), 5);
    assert_eq!(grid, Grid::new("...\n...\n..."));
    assert_eq!(grid.step_until(), 0);
    assert_eq!(grid.step(), 0);
    let mut still = Grid::new("@@@@\n@@@@\n@@@@\n@@@@");
    assert_eq!(still.step_until(), 4);
    assert_eq!(still, Grid::new(".@@.\n@@@@\n@@@@\n.@@."));
}

#[test]
fn grid_try_new_takes_drawings_only() {
    assert_eq!(Grid::try_new("..@@\n@@..\n"), Some(Grid::new("..@@\n@@..\n")));
    assert_eq!(Grid::try_new(""), Some(Grid::new("")));
    assert_eq!(Grid::try_new("..@x"), None);
    assert_eq!(Grid::try_new("..\r\n@@"), None);
    assert_eq!(Grid::try_new(".. "), None);
}

#[test]
fn is_floor_asks_for_a_rectangle() {
    assert!(Grid::new("..@@\n@@..").is_floor());
    assert!(Grid::new("@").is_floor());
    assert!(!Grid::new("").is_floor());
    assert!(!Grid::new("..@@\n@@.").is_floor());
    assert!(!Grid::new("..\n\n..").is_floor());
    assert!(!Grid { grid: vec![] }.is_floor());
}

use aoc25::days::day4::taken_in_all;

#[test]
fn taken_in_all_counts_every_roll_that_goes() {
    let input = "..@@.@@@@.\n@@@.@.@.@@\n@@@@@.@.@@\n@.@@@@..@.\n@@.@@@@.@@\n.@@@@@@@.@\n.@.@.@.@@@\n@.@@@.@@@@\n.@@@@@@@@.\n@.@.@@@.@.\n";
    assert_eq!(taken_in_all(input), Some(43));
    assert_eq!(taken_in_all("@"), Some(1));
    assert_eq!(taken_in_all(""), None);
    assert_eq!(taken_in_all("@@\n@"), None);
    assert_eq!(taken_in_all("@x"), None);
}
