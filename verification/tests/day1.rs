use aoc25::days::day1::{Direction, Lock, Move};

#[test]
fn test_move_new() {
    let actual = Move::new(Direction::Left, 2);
    let expected = Move {
        direction: Direction::Left,
        distance: 2,
    };
    assert_eq!(actual, expected);
    let actual = Move::new(Direction::Right, 5);
    let expected = Move {
        direction: Direction::Right,
        distance: 5,
    };
    assert_eq!(actual, expected);
}

#[test]
fn test_lock_new() {
    let actual = Lock::new();
    let expected = Lock { pos: 50, zeroed: 0 };
    assert_eq!(actual, expected)
}

#[test]
fn test_lock_apply() {
    let mut lock = Lock::new();

    lock.apply(&Move::new(Direction::Right, 5));
    assert_eq!(lock.pos, 55);
    assert_eq!(lock.zeroed, 0);

    lock.apply(&Move::new(Direction::Right, 44));
    assert_eq!(lock.pos, 99);
    assert_eq!(lock.zeroed, 0);

    lock.apply(&Move::new(Direction::Right, 1));
    assert_eq!(lock.pos, 0);
    assert_eq!(lock.zeroed, 1);

    lock.apply(&Move::new(Direction::Left, 150));
    assert_eq!(lock.pos, 50);
    assert_eq!(lock.zeroed, 1);
}

#[test]
fn test_lock_apply_multi() {
    let mut lock = Lock::new();

    let moves: Vec<Move> = vec![
        Move::new(Direction::Right, 5),
        Move::new(Direction::Right, 44),
        Move::new(Direction::Right, 1),
        Move::new(Direction::Left, 150),
    ];

    lock.apply_multi(moves);

    assert_eq!(lock.pos, 50);
    assert_eq!(lock.zeroed, 1);
}

#[test]
fn lock_default_is_the_new_lock() {
    assert_eq!(Lock::default(), Lock::new());
}

#[test]
fn lock_wraps_round_both_ways() {
    let mut lock = Lock { pos: 0, zeroed: 0 };
    lock.apply(&Move::new(Direction::Left, 1));
    assert_eq!(lock, Lock { pos: 99, zeroed: 0 });
    lock.apply(&Move::new(Direction::Right, 101));
    assert_eq!(lock, Lock { pos: 0, zeroed: 1 });
    lock.apply(&Move::new(Direction::Left, 0));
    assert_eq!(lock, Lock { pos: 0, zeroed: 2 });
    lock.apply(&Move::new(Direction::Right, 65535));
    assert_eq!(lock, Lock { pos: 35, zeroed: 2 });
    lock.apply(&Move::new(Direction::Left, 65535));
    assert_eq!(lock, Lock { pos: 0, zeroed: 3 });
    lock.apply_multi(vec![]);
    assert_eq!(lock, Lock { pos: 0, zeroed: 3 });
}

#[test]
fn move_try_read_reads_a_direction_and_a_distance() {
    assert_eq!(Move::try_read("L68"), Some(Move::new(Direction::Left, 68)));
    assert_eq!(Move::try_read("R0"), Some(Move::new(Direction::Right, 0)));
    assert_eq!(Move::try_read("R+7"), Some(Move::new(Direction::Right, 7)));
    assert_eq!(
        Move::try_read("L65535"),
        Some(Move::new(Direction::Left, 65535))
    );
    assert_eq!(Move::try_read("L65536"), None);
    assert_eq!(Move::try_read(""), None);
    assert_eq!(Move::try_read("L"), None);
    assert_eq!(Move::try_read("U5"), None);
    assert_eq!(Move::try_read("l5"), None);
    assert_eq!(Move::try_read("L5 "), None);
    assert_eq!(Move::try_read("L-5"), None);
}

use aoc25::days::day1::password;

#[test]
fn password_counts_the_turns_that_end_on_zero() {
    assert_eq!(
        password("L68\nL30\nR48\nL5\nR60\nL55\nL1\nL99\nR14\nL82\n"),
        Some(3)
    );
    assert_eq!(password("R5\nR44\nR1\nL150"), Some(1));
    assert_eq!(password(""), Some(0));
    assert_eq!(password("R50\r\nL100\r\n"), Some(2));
    assert_eq!(password("R50\n\nL100"), None);
    assert_eq!(password("R50\nX1"), None);
}
