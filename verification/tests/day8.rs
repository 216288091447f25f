use aoc25::days::day8::{Circuit, Connection, Grid, GridError, JunctionBox, Position};

fn fixture() -> Vec<Position> {
    vec![
        Position::read("162,817,812").unwrap(),
        Position::read("57,618,57").unwrap(),
        Position::read("906,360,560").unwrap(),
        Position::read("592,479,940").unwrap(),
        Position::read("352,342,300").unwrap(),
        Position::read("466,668,158").unwrap(),
        Position::read("542,29,236").unwrap(),
        Position::read("431,825,988").unwrap(),
        Position::read("739,650,466").unwrap(),
        Position::read("52,470,668").unwrap(),
        Position::read("216,146,977").unwrap(),
        Position::read("819,987,18").unwrap(),
        Position::read("117,168,530").unwrap(),
        Position::read("805,96,715").unwrap(),
        Position::read("346,949,466").unwrap(),
        Position::read("970,615,88").unwrap(),
        Position::read("941,993,340").unwrap(),
        Position::read("862,61,35").unwrap(),
        Position::read("984,92,344").unwrap(),
        Position::read("425,690,689").unwrap(),
    ]
}

#[test]
fn day8_test_position_new() {
    assert_eq!(Position::new(1, 2, 3), Position { x: 1, y: 2, z: 3 });
}

#[test]
fn day8_test_position_read() {
    assert_eq!(Position::read("1,2,3"), Ok(Position { x: 1, y: 2, z: 3 }));
    assert_eq!(
        Position::read("1,2,3,4"),
        Err(GridError::InvalidPositionString)
    );

    assert_eq!(
        Position::read("hello,there, iam"),
        Err(GridError::InvalidPositionString)
    );
}

#[test]
fn test_position_distance_squared() {
    let actual = Position::new(0, 0, 0).distance_squared(&Position::new(2, 2, 2));
    assert_eq!(actual, 12);

    let actual = Position::new(0, 0, 0).distance_squared(&Position::new(2, 0, 0));
    assert_eq!(actual, 4);
    let actual = Position::new(0, 0, 0).distance_squared(&Position::new(0, 2, 0));
    assert_eq!(actual, 4);
    let actual = Position::new(0, 0, 0).distance_squared(&Position::new(0, 0, 2));
    assert_eq!(actual, 4);
}

#[test]
fn test_junction_box_new() {
    assert_eq!(
        JunctionBox::new(1, Position::new(1, 2, 3)),
        JunctionBox {
            id: 1,
            pos: Position::new(1, 2, 3)
        }
    )
}

#[test]
fn test_junction_box_distance_squared() {
    let jb = JunctionBox::new(1, Position::new(0, 0, 0));
    let jb2 = JunctionBox::new(2, Position::new(2, 1, 3));
    assert_eq!(jb.distance_squared(&jb2), 14);
    assert_eq!(jb2.distance_squared(&jb), 14);
}

#[test]
fn test_connection_new() {
    assert_eq!(Connection::new(&1, &2), Connection { from: 1, to: 2 });
    assert_eq!(Connection::new(&2, &1), Connection { from: 1, to: 2 })
}

#[test]
fn test_circuit_new() {
    let jb = JunctionBox::new(1, Position::new(0, 0, 0));
    let jb2 = JunctionBox::new(2, Position::new(2, 1, 3));
    let c = Circuit::new(jb.clone(), jb2.clone()).unwrap();

    assert_eq!(c.boxes(), &vec![jb, jb2]);
    assert_eq!(c.connections(), &vec![(Connection::new(&1, &2), 14)]);
    assert_eq!(c.size(), 2);
    assert!(c.contains(1));
    assert!(c.contains(2));
    assert!(!c.contains(3));
}

#[test]
fn test_circuit_check_is_in() {
    let jb = JunctionBox::new(1, Position::new(0, 0, 0));
    let jb2 = JunctionBox::new(2, Position::new(2, 1, 3));
    let c = Circuit::new(jb.clone(), jb2.clone()).unwrap();

    assert_eq!(c.check_is_in(&Connection::new(&2, &3)), Some(3));
    assert_eq!(c.check_is_in(&Connection::new(&4, &3)), None);
}

#[test]
fn test_grid_get_distance_stack() {
    let jb = JunctionBox::new(1, Position::new(0, 0, 0));
    let jb2 = JunctionBox::new(2, Position::new(4, 1, 3));
    let jb3 = JunctionBox::new(3, Position::new(2, 1, 3));
    let jbs = vec![jb, jb2, jb3];

    let distance_stack = Grid::get_distance_stack(&jbs);

    assert_eq!(
        distance_stack,
        vec![
            (Connection::new(&1, &2), 26),
            (Connection::new(&1, &3), 14),
            (Connection::new(&2, &3), 4),
        ]
    );
}

#[test]
fn day8_test_grid_new() {
    let positions = vec![
        Position::new(0, 0, 0),
        Position::new(2, 1, 3),
        Position::new(4, 1, 3),
    ];

    let actual = Grid::new(positions);

    assert_eq!(actual.circuits(), &vec![]);
    assert_eq!(
        actual.distance_stack(),
        &vec![
            (Connection::new(&0, &2), 26),
            (Connection::new(&0, &1), 14),
            (Connection::new(&1, &2), 4),
        ]
    );
    assert_eq!(
        actual.junction_boxes(),
        &vec![
            JunctionBox::new(0, Position::new(0, 0, 0)),
            JunctionBox::new(1, Position::new(2, 1, 3)),
            JunctionBox::new(2, Position::new(4, 1, 3)),
        ]
    );
}

#[test]
fn test_grid_evolve() {
    let mut g = Grid::new(fixture());
    println!("{:?}", g.circuits());

    for _ in 0..10 {
        g.evolve();
    }
    assert_eq!(g.circuits().len(), 4);
}

#[test]
fn day8_test_grid_score() {
    let mut g = Grid::new(fixture());

    let score = g.score(10);

    assert_eq!(score, 40);
}

#[test]
fn test_grid_score_2() {
    let mut g = Grid::new(fixture());

    let score = g.score_2(20);

    assert_eq!(score, 25272);
}

#[test]
fn test_merge_circuits() {
    let jb = JunctionBox::new(1, Position::new(0, 0, 0));
    let jb2 = JunctionBox::new(2, Position::new(2, 1, 3));
    let c1 = Circuit::new(jb.clone(), jb2.clone()).unwrap();

    let jb3 = JunctionBox::new(3, Position::new(4, 1, 3));
    let jb4 = JunctionBox::new(4, Position::new(6, 1, 3));
    let c2 = Circuit::new(jb3.clone(), jb4.clone()).unwrap();

    let actual = Grid::merge_circuits(&c1, &c2, &Connection::new(&2, &3), 4);
    let expected_boxes = vec![jb, jb2, jb3, jb4];

    assert_eq!(actual.boxes(), &expected_boxes);
    let mut connections = actual.connections().clone();
    connections.sort_by(|a, b| (a.0.from, a.0.to).cmp(&(b.0.from, b.0.to)));
    assert_eq!(
        connections,
        vec![
            (Connection::new(&1, &2), 14),
            (Connection::new(&2, &3), 4),
            (Connection::new(&3, &4), 4),
        ]
    );
    assert_eq!(actual.size(), 4);
    for id in 1..=4 {
        assert!(actual.contains(id));
    }
    assert!(!actual.contains(0));
    assert!(!actual.contains(5));
}

#[test]
fn position_read_takes_three_unsigned_numbers_only() {
    assert_eq!(Position::read("+1,002,3"), Ok(Position::new(1, 2, 3)));
    assert_eq!(
        Position::read("4294967295,0,0"),
        Ok(Position::new(4294967295, 0, 0))
    );
    assert_eq!(
        Position::read("4294967296,0,0"),
        Err(GridError::InvalidPositionString)
    );
    assert_eq!(Position::read(""), Err(GridError::InvalidPositionString));
    assert_eq!(Position::read("1,2"), Err(GridError::InvalidPositionString));
    assert_eq!(Position::read("1,,3"), Err(GridError::InvalidPositionString));
    assert_eq!(Position::read("1,-2,3"), Err(GridError::InvalidPositionString));
    assert_eq!(Position::read("1, 2,3"), Err(GridError::InvalidPositionString));
    assert_eq!(Position::read("1,2,3,"), Err(GridError::InvalidPositionString));
    assert_eq!(Position::read("+,2,3"), Err(GridError::InvalidPositionString));
}

#[test]
fn distance_squared_is_exact_for_far_points() {
    let a = Position::new(0, 0, 0);
    let b = Position::new(4294967295, 0, 0);
    assert_eq!(a.distance_squared(&b), 18446744065119617025);
    assert_eq!(b.distance_squared(&a), 18446744065119617025);
    assert_eq!(
        Position::new(1, 2, 3).distance_squared(&Position::new(4, 6, 3)),
        25
    );
}

#[test]
fn connection_is_the_same_either_way_round() {
    for a in 0..6usize {
        for b in 0..6usize {
            assert_eq!(Connection::new(&a, &b), Connection::new(&b, &a));
            let c = Connection::new(&a, &b);
            assert!(c.from <= c.to);
        }
    }
}

#[test]
fn circuit_new_refuses_one_box_twice() {
    let jb = JunctionBox::new(7, Position::new(0, 0, 0));
    let again = JunctionBox::new(7, Position::new(1, 1, 1));
    assert_eq!(Circuit::new(jb, again), Err(GridError::DuplicateIDs));
}

#[test]
fn circuit_add_takes_one_more_box() {
    let jb = JunctionBox::new(1, Position::new(0, 0, 0));
    let jb2 = JunctionBox::new(2, Position::new(2, 1, 3));
    let jb3 = JunctionBox::new(3, Position::new(2, 1, 4));
    let mut c = Circuit::new(jb, jb2).unwrap();
    c.add(&jb3, &Connection::new(&2, &3), 1);
    assert_eq!(c.boxes(), &vec![jb, jb2, jb3]);
    assert_eq!(
        c.connections(),
        &vec![(Connection::new(&1, &2), 14), (Connection::new(&2, &3), 1)]
    );
    assert_eq!(c.size(), 3);
    assert!(c.contains(3));
    assert_eq!(c.check_is_in(&Connection::new(&3, &9)), Some(9));
    assert_eq!(c.check_is_in(&Connection::new(&0, &3)), Some(0));
    let copy = c.clone();
    assert_eq!(copy, c);
}

#[test]
fn merged_circuit_holds_the_boxes_of_both_and_no_others() {
    let a = Circuit::new(
        JunctionBox::new(0, Position::new(0, 0, 0)),
        JunctionBox::new(5, Position::new(1, 0, 0)),
    )
    .unwrap();
    let b = Circuit::new(
        JunctionBox::new(2, Position::new(5, 0, 0)),
        JunctionBox::new(9, Position::new(6, 0, 0)),
    )
    .unwrap();
    let merged = Grid::merge_circuits(&a, &b, &Connection::new(&5, &2), 16);
    for id in 0..12usize {
        assert_eq!(merged.contains(id), a.contains(id) || b.contains(id));
    }
    assert_eq!(merged.size(), a.size() + b.size());
    assert_eq!(merged.connections().len(), 3);
    assert_eq!(merged.connections()[2], (Connection { from: 2, to: 5 }, 16));
}

#[test]
fn three_points_start_with_one_of_the_two_closest_pairs() {
    let mut g = Grid::new(vec![
        Position::new(0, 0, 0),
        Position::new(2, 0, 0),
        Position::new(0, 2, 0),
    ]);
    let mut lengths: Vec<u64> = g.distance_stack().iter().map(|e| e.1).collect();
    lengths.sort();
    assert_eq!(lengths, vec![4, 4, 8]);
    assert_eq!(g.remaining(), 3);

    let consumed = g.evolve();
    assert_eq!(g.remaining(), 2);
    assert_eq!(g.circuits().len(), 1);
    assert_eq!(g.circuits()[0].size(), 2);
    assert!(consumed == Connection::new(&0, &1) || consumed == Connection::new(&0, &2));
    assert!(g.circuits()[0].contains(consumed.from));
    assert!(g.circuits()[0].contains(consumed.to));
    assert_eq!(consumed, Connection::new(&0, &2));
}

#[test]
fn equal_lengths_keep_the_order_of_the_pairs() {
    let g = Grid::new(vec![
        Position::new(0, 0, 0),
        Position::new(2, 0, 0),
        Position::new(0, 2, 0),
    ]);
    assert_eq!(
        g.distance_stack(),
        &vec![
            (Connection::new(&1, &2), 8),
            (Connection::new(&0, &1), 4),
            (Connection::new(&0, &2), 4),
        ]
    );
}

#[test]
fn a_full_run_leaves_one_circuit_with_every_box() {
    for n in 2..9usize {
        let positions: Vec<Position> = (0..n)
            .map(|i| Position::new((i * i * 7 % 31) as u32, (i * 13 % 17) as u32, (i * 5 % 11) as u32))
            .collect();
        let mut g = Grid::new(positions);
        assert_eq!(g.remaining(), n * (n - 1) / 2);
        while g.remaining() > 0 {
            g.evolve();
        }
        assert_eq!(g.circuits().len(), 1);
        assert_eq!(g.circuits()[0].size(), n);
        assert_eq!(g.circuits()[0].boxes().len(), n);
        assert_eq!(g.circuits()[0].connections().len(), n - 1);
    }
}

#[test]
fn consumed_lengths_never_decrease() {
    let mut g = Grid::new(fixture());
    let boxes = g.junction_boxes().clone();
    let mut last = 0;
    while g.remaining() > 0 {
        let c = g.evolve();
        let d = boxes[c.from].distance_squared(&boxes[c.to]);
        assert!(d >= last);
        last = d;
    }
    assert_eq!(g.circuits().len(), 1);
    assert_eq!(g.circuits()[0].size(), 20);
}

#[test]
fn a_connection_inside_a_circuit_changes_no_circuit() {
    let mut g = Grid::new(vec![
        Position::new(0, 0, 0),
        Position::new(1, 0, 0),
        Position::new(3, 0, 0),
    ]);
    assert_eq!(g.evolve(), Connection::new(&0, &1));
    assert_eq!(g.evolve(), Connection::new(&1, &2));
    assert_eq!(g.circuits().len(), 1);
    let before = g.circuits()[0].clone();
    assert_eq!(g.evolve(), Connection::new(&0, &2));
    assert_eq!(g.circuits().len(), 1);
    assert_eq!(g.circuits()[0], before);
    assert_eq!(g.remaining(), 0);
}

#[test]
fn two_circuits_merge_into_one_at_the_back() {
    let mut g = Grid::new(vec![
        Position::new(0, 0, 0),
        Position::new(1, 0, 0),
        Position::new(10, 0, 0),
        Position::new(12, 0, 0),
        Position::new(100, 0, 0),
        Position::new(103, 0, 0),
    ]);
    g.evolve();
    g.evolve();
    g.evolve();
    assert_eq!(g.circuits().len(), 3);
    let consumed = g.evolve();
    assert_eq!(consumed, Connection::new(&1, &2));
    assert_eq!(g.circuits().len(), 2);
    assert_eq!(g.circuits()[0].size(), 2);
    assert!(g.circuits()[0].contains(4));
    assert_eq!(g.circuits()[1].size(), 4);
    assert_eq!(
        g.circuits()[1].boxes().iter().map(|b| b.id).collect::<Vec<usize>>(),
        vec![0, 1, 2, 3]
    );
}

#[test]
fn score_is_the_same_for_the_same_input() {
    for n in 0..30usize {
        let mut first = Grid::new(fixture());
        let mut second = Grid::new(fixture());
        assert_eq!(first.score(n), second.score(n));
        assert_eq!(first.circuits(), second.circuits());
    }
}

#[test]
fn score_puts_the_largest_circuits_first() {
    let mut g = Grid::new(fixture());
    assert_eq!(g.score(10), 40);
    let sizes: Vec<usize> = g.circuits().iter().map(|c| c.size()).collect();
    assert_eq!(sizes, vec![5, 4, 2, 2]);
}

#[test]
fn score_with_fewer_than_three_circuits() {
    let mut g = Grid::new(fixture());
    assert_eq!(g.score(0), 1);
    let mut g = Grid::new(fixture());
    assert_eq!(g.score(1), 2);
    let mut g = Grid::new(fixture());
    assert_eq!(g.score(2), 3);
    let mut g = Grid::new(fixture());
    assert_eq!(g.score(190), 20);
}

#[test]
fn score_2_stops_at_the_first_connection_that_unifies() {
    let mut g = Grid::new(vec![
        Position::new(3, 0, 0),
        Position::new(4, 0, 0),
        Position::new(10, 0, 0),
        Position::new(17, 0, 0),
    ]);
    assert_eq!(g.score_2(4), 170);
    assert_eq!(g.circuits().len(), 1);
    assert_eq!(g.remaining(), 3);

    let mut g = Grid::new(vec![
        Position::new(3, 0, 0),
        Position::new(4, 0, 0),
        Position::new(10, 0, 0),
        Position::new(17, 0, 0),
    ]);
    assert_eq!(g.score_2(2), 12);
    assert_eq!(g.remaining(), 5);
}

#[test]
fn try_new_refuses_distances_that_do_not_fit() {
    let near = vec![Position::new(0, 0, 0), Position::new(4294967295, 0, 0)];
    assert!(Grid::can_hold(&near));
    assert!(Grid::try_new(near).is_some());
    let far = vec![
        Position::new(0, 0, 0),
        Position::new(1, 1, 1),
        Position::new(4294967295, 4294967295, 0),
    ];
    assert!(!Grid::can_hold(&far));
    assert!(Grid::try_new(far).is_none());
    assert!(Grid::can_hold(&vec![]));
    assert!(Position::new(0, 0, 0).distance_fits(&Position::new(4294967295, 92681, 0)));
    assert!(!Position::new(0, 0, 0).distance_fits(&Position::new(4294967295, 92682, 0)));
    assert!(!Position::new(0, 0, 0).distance_fits(&Position::new(4294967295, 4294967295, 4294967295)));
    let none = Grid::try_new(vec![]).unwrap();
    assert_eq!(none.remaining(), 0);
    let one = Grid::try_new(vec![Position::new(1, 1, 1)]).unwrap();
    assert_eq!(one.remaining(), 0);
    assert_eq!(one.junction_boxes().len(), 1);
}

use aoc25::days::day8::last_connection_product;

#[test]
fn last_connection_product_is_read_from_text() {
    let text = "162,817,812\n57,618,57\n906,360,560\n592,479,940\n352,342,300\n466,668,158\n542,29,236\n431,825,988\n739,650,466\n52,470,668\n216,146,977\n819,987,18\n117,168,530\n805,96,715\n346,949,466\n970,615,88\n941,993,340\n862,61,35\n984,92,344\n425,690,689\n";
    assert_eq!(last_connection_product(text), Some(25272));
    assert_eq!(last_connection_product("3,0,0\n4,0,0"), Some(12));
    assert_eq!(last_connection_product("3,0,0"), None);
    assert_eq!(last_connection_product(""), None);
    assert_eq!(last_connection_product("3,0,0\n4,0"), None);
    assert_eq!(last_connection_product("3,0,0\n\n4,0,0"), None);
    assert_eq!(
        last_connection_product("0,0,0\n4294967295,4294967295,0"),
        None
    );
}
