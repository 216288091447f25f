use aoc25::days::day7::{Grid, Tile, Timelines};

const INPUT: &str = ".......S.......
...............
.......^.......
...............
......^.^......
...............
.....^.^.^.....
...............
....^.^...^....
...............
...^.^...^.^...
...............
..^...^.....^..
...............
.^.^.^.^.^...^.
...............";

#[test]
fn day7_test_tile_from_char() {
    assert_eq!(Tile::from_char(&'S'), Tile::Start);
    assert_eq!(Tile::from_char(&'.'), Tile::Space);
    assert_eq!(Tile::from_char(&'|'), Tile::Light);
    assert_eq!(Tile::from_char(&'v'), Tile::Point);
    assert_eq!(Tile::from_char(&'^'), Tile::Splitter);
}

#[test]
fn test_tile_to_char() {
    assert_eq!(Tile::from_char(&'S').to_char(), 'S');
    assert_eq!(Tile::from_char(&'.').to_char(), '.');
    assert_eq!(Tile::from_char(&'|').to_char(), '|');
    assert_eq!(Tile::from_char(&'v').to_char(), 'v');
    assert_eq!(Tile::from_char(&'^').to_char(), '^');
}

#[test]
fn day7_test_grid_new() {
    let grid = vec![vec!['.', '.', 'S'], vec!['.', '^', '.']];
    let expected = vec![
        vec![Tile::Space, Tile::Space, Tile::Start],
        vec![Tile::Space, Tile::Splitter, Tile::Space],
    ];

    assert_eq!(
        Grid::new(grid),
        Grid {
            grid: expected,
            cursor: 0,
            splits: 0,
            timelines: 1,
        }
    )
}

#[test]
fn test_grid_read() {
    let input = "..S
.^.";
    let expected = vec![
        vec![Tile::Space, Tile::Space, Tile::Start],
        vec![Tile::Space, Tile::Splitter, Tile::Space],
    ];

    assert_eq!(
        Grid::read(input),
        Grid {
            grid: expected,
            cursor: 0,
            splits: 0,
            timelines: 1,
        }
    )
}

#[test]
fn day7_test_grid_step() {
    let mut grid = Grid::new(vec![vec!['.', '.', 'S'], vec!['.', '^', '.']]);
    let mut expected = Grid::new(vec![vec!['.', '.', 'S'], vec!['.', '^', 'v']]);
    expected.cursor = 1;

    grid.step();

    assert_eq!(grid, expected)
}

#[test]
fn test_grid_step_more() {
    let expected = ".......S.......
.......v.......
.......^.......
...............
......^.^......
...............
.....^.^.^.....
...............
....^.^...^....
...............
...^.^...^.^...
...............
..^...^.....^..
...............
.^.^.^.^.^...^.
...............";
    let mut grid = Grid::read(INPUT);
    let mut expected = Grid::read(expected);

    expected.cursor = 1;

    grid.step();

    assert_eq!(grid, expected)
}

#[test]
fn test_grid_step_more_2() {
    let expected = ".......S.......
.......|.......
......|^|......
......|.|......
.....|^|^|.....
.....|.|.|.....
....|^|^|^|....
....|.|.|.|....
...|^|^|||^|...
...|.|.|||.|...
..|^|^|||^|^|..
..|.|.|||.|.|..
.|^|||^||.||^|.
.|.|||.||.||.|.
|^|^|^|^|^|||^|
v.v.v.v.v.vvv.v";
    let mut grid = Grid::read(INPUT);
    let mut expected = Grid::read(expected);

    expected.cursor = 15;
    expected.splits = 21;

    for _ in 0..15 {
        grid.step();
    }

    assert_eq!(grid, expected)
}

#[test]
fn day7_test_grid_step_until() {
    let mut grid = Grid::read(INPUT);

    grid.step_until();

    assert_eq!(grid.splits, 21);
}

#[test]
fn test_timelines_new() {
    assert_eq!(
        Timelines::new(Grid::read(INPUT)),
        Timelines {
            grids: vec![Grid::read(INPUT)],
            l: 16,
        }
    )
}

#[test]
fn test_timelines_step() {
    let expected = ".......S.......
.......v.......
.......^.......
...............
......^.^......
...............
.....^.^.^.....
...............
....^.^...^....
...............
...^.^...^.^...
...............
..^...^.....^..
...............
.^.^.^.^.^...^.
...............";

    let mut expected_grid = Grid::read(expected);
    expected_grid.cursor = 1;
    let mut timelines = Timelines::new(Grid::read(INPUT));
    timelines.step();
    assert_eq!(
        timelines,
        Timelines {
            grids: vec![expected_grid],
            l: 16,
        }
    )
}

#[test]
fn test_timelines_steps() {
    let mut timelines = Timelines::new(Grid::read(INPUT));
    for _ in 0..15 {
        timelines.step();
    }
    assert_eq!(timelines.grids.len(), 40)
}

#[test]
fn test_timelines_step_until() {
    let mut timelines = Timelines::new(Grid::read(INPUT));
    timelines.step_until();
    assert_eq!(timelines.grids.iter().map(|t| t.timelines).sum::<u64>(), 40)
}

#[test]
fn a_splitter_sends_the_beam_both_ways_and_is_counted() {
    let mut grid = Grid::read(".v.\n.^.\n...");
    grid.step();
    let mut expected = Grid::read(".|.\nv^v\n...");
    expected.cursor = 1;
    expected.splits = 1;
    assert_eq!(grid, expected);
    grid.step();
    let mut expected = Grid::read(".|.\n|^|\nv.v");
    expected.cursor = 2;
    expected.splits = 1;
    assert_eq!(grid, expected);
}

#[test]
fn a_timeline_forks_at_a_splitter() {
    let grid = Grid::read(".v.\n.^.\n...");
    let branches = grid.timeline_step();
    let mut left = Grid::read(".|.\nv^.\n...");
    left.cursor = 1;
    let mut right = Grid::read(".v.\n.^v\n...");
    right.cursor = 1;
    assert_eq!(branches, vec![left, right]);

    let straight = Grid::read(".v.\n...\n...").timeline_step();
    let mut down = Grid::read(".|.\n.v.\n...");
    down.cursor = 1;
    assert_eq!(straight, vec![down]);
    let copy = grid.clone();
    assert_eq!(copy, grid);
}

#[test]
fn reduce_gathers_grids_with_the_same_row_under_the_cursor() {
    let mut a = Grid::read(".v.\n...");
    a.cursor = 1;
    a.timelines = 3;
    let mut b = Grid::read("v..\n.v.");
    b.cursor = 1;
    b.timelines = 4;
    let mut c = Grid::read("..v\n...");
    c.cursor = 1;
    c.timelines = 5;
    let mut timelines = Timelines {
        grids: vec![a.clone(), b.clone(), c],
        l: 2,
    };
    timelines.reduce();
    a.timelines = 8;
    assert_eq!(timelines.grids, vec![a, b]);
    assert_eq!(timelines.l, 2);
}

#[test]
fn lines_end_at_line_feeds_and_lose_their_carriage_returns() {
    let grid = Grid::read("S.\r\n..\n");
    assert_eq!(
        grid.grid,
        vec![
            vec![Tile::Start, Tile::Space],
            vec![Tile::Space, Tile::Space],
        ]
    );
    assert_eq!(Grid::read("").grid, Vec::<Vec<Tile>>::new());
}

#[test]
fn try_new_and_try_read_take_tiles_only() {
    assert_eq!(
        Grid::try_new(vec![vec!['.', 'S'], vec!['^', 'v']]),
        Some(Grid::new(vec![vec!['.', 'S'], vec!['^', 'v']]))
    );
    assert_eq!(Grid::try_new(vec![vec!['.', 'x']]), None);
    assert_eq!(Grid::try_read(INPUT), Some(Grid::read(INPUT)));
    assert_eq!(Grid::try_read("..S\n.@."), None);
    assert_eq!(Grid::try_read(""), Some(Grid::read("")));
}

#[test]
fn try_step_leaves_the_grid_where_no_step_can_be_made() {
    let mut last_row = Grid::read("S");
    assert!(!last_row.try_step());
    assert_eq!(last_row, Grid::read("S"));

    let mut blocked = Grid::read("S\n^");
    assert!(!blocked.try_step());
    assert_eq!(blocked, Grid::read("S\n^"));

    let mut at_the_edge = Grid::read("v.\n^.");
    assert!(!at_the_edge.try_step());
    assert_eq!(at_the_edge, Grid::read("v.\n^."));

    let mut light = Grid::read("|\n.");
    assert!(!light.try_step());

    let mut short = Grid::read(".v\n.");
    assert!(!short.try_step());

    let mut counted_out = Grid::read(".v.\n.^.");
    counted_out.splits = 65535;
    assert!(!counted_out.try_step());
    assert_eq!(counted_out.cursor, 0);
    assert!(counted_out.try_timeline_step().is_some());

    let mut fine = Grid::read(".v.\n.^.");
    assert!(fine.try_step());
    assert_eq!(fine.cursor, 1);
    assert_eq!(fine.splits, 1);
    assert!(!fine.try_step());
}

#[test]
fn try_step_until_says_whether_all_steps_were_made() {
    let mut grid = Grid::read(INPUT);
    assert!(grid.try_step_until());
    assert_eq!(grid.splits, 21);
    assert_eq!(grid.cursor, 15);

    let mut too_wide = Grid::read("S..\n...");
    assert!(!too_wide.try_step_until());
    let mut none = Grid::read("");
    assert!(!none.try_step_until());

    let mut timelines = Timelines::new(Grid::read(INPUT));
    assert!(timelines.try_step_until());
    assert_eq!(timelines.grids.iter().map(|t| t.timelines).sum::<u64>(), 40);
    assert_eq!(timelines.grids.len(), 9);

    let mut stuck = Timelines::new(Grid::read("S\n^\n."));
    assert!(!stuck.try_step_until());
    let mut empty = Timelines::new(Grid::read(""));
    assert!(!empty.try_step_until());
}

#[test]
fn try_reduce_tells_when_timelines_cannot_be_added() {
    let mut a = Grid::read(".v.\n...");
    a.cursor = 1;
    a.timelines = 18446744073709551615;
    let mut b = Grid::read("v..\n...");
    b.cursor = 1;
    let mut timelines = Timelines {
        grids: vec![a.clone(), b.clone()],
        l: 2,
    };
    assert!(!timelines.try_reduce());
    assert_eq!(timelines.grids, vec![a.clone(), b]);

    let mut off = Grid::read("...");
    off.cursor = 1;
    let mut timelines = Timelines {
        grids: vec![off],
        l: 1,
    };
    assert!(!timelines.try_reduce());
    assert!(!timelines.try_step());
}

use aoc25::days::day7::{splits_in, timelines_in};

#[test]
fn splits_and_timelines_are_counted_from_text() {
    assert_eq!(splits_in(INPUT), Some(21));
    assert_eq!(timelines_in(INPUT), Some(40));
    assert_eq!(splits_in(""), None);
    assert_eq!(timelines_in(""), None);
    assert_eq!(splits_in("S\n."), Some(0));
    assert_eq!(timelines_in("S\n."), Some(1));
    assert_eq!(timelines_in("S"), Some(1));
    assert_eq!(splits_in("S"), None);
    assert_eq!(splits_in(".S.\n...\n.^.\n..."), Some(1));
    assert_eq!(timelines_in(".S.\n...\n.^.\n..."), Some(2));
    assert_eq!(timelines_in(".S.\n.x."), None);
    assert_eq!(timelines_in("S\n^"), None);
}
