use aoc25::days::day9::{Position, Red, Tiles};

#[test]
fn day9_test_position_read() {
    assert_eq!(Position::read("1,10"), Position { x: 1, y: 10 })
}

#[test]
fn test_red_read() {
    assert_eq!(
        Red::read("1,10"),
        Red {
            pos: Position { x: 1, y: 10 }
        }
    )
}

#[test]
fn test_tiles_new() {
    assert_eq!(
        Tiles::new(vec![Red::read("1,10"), Red::read("2,10")]),
        Tiles {
            tiles: vec![Red::read("1,10"), Red::read("2,10")]
        }
    );
}

#[test]
fn test_tiles_read() {
    let input = "1,10\n2,10\n";
    assert_eq!(
        Tiles::read(input),
        Tiles {
            tiles: vec![Red::read("1,10"), Red::read("2,10")]
        }
    );
}

#[test]
fn test_tiles_largest_rect() {
    let input = "7,1
11,1
11,7
9,7
9,5
2,5
2,3
7,3";
    let tiles = Tiles::read(input);
    assert_eq!(tiles.largest_rect(), 50);
}

#[test]
fn position_try_read_tells_what_is_no_position() {
    assert_eq!(Position::try_read("1,10"), Some(Position { x: 1, y: 10 }));
    assert_eq!(Position::try_read("+1,010"), Some(Position { x: 1, y: 10 }));
    assert_eq!(Position::try_read("1"), None);
    assert_eq!(Position::try_read("1,2,3"), None);
    assert_eq!(Position::try_read(",2"), None);
    assert_eq!(Position::try_read("1,"), None);
    assert_eq!(Position::try_read("a,2"), None);
    assert_eq!(Position::try_read("1,-2"), None);
    assert_eq!(
        Position::try_read("1,99999999999999999999999999"),
        None
    );
}

#[test]
fn largest_rect_of_few_tiles() {
    assert_eq!(Tiles::new(vec![]).largest_rect(), 0);
    assert_eq!(Tiles::read("5,5").largest_rect(), 0);
    assert_eq!(Tiles::read("5,5\n5,5").largest_rect(), 1);
    assert_eq!(Tiles::read("0,0\r\n3,4\r\n").largest_rect(), 20);
    assert_eq!(Tiles::read("3,4\n0,0\n1,9").largest_rect(), 20);
    assert_eq!(Tiles::read("").tiles.len(), 0);
}

#[test]
fn tiles_try_read_takes_positions_only() {
    assert_eq!(
        Tiles::try_read("1,10\n2,10\n"),
        Some(Tiles::new(vec![Red::read("1,10"), Red::read("2,10")]))
    );
    assert_eq!(Tiles::try_read(""), Some(Tiles::new(vec![])));
    assert_eq!(Tiles::try_read("1,10\n\n2,10"), None);
    assert_eq!(Tiles::try_read("1,10\n2;10"), None);
    assert_eq!(Tiles::try_read("1,10,3"), None);
}

#[test]
fn areas_fit_tells_when_an_area_is_too_large() {
    assert!(Tiles::read("0,0\n4294967295,4294967294").areas_fit());
    assert!(!Tiles::read("0,0\n4294967295,4294967295").areas_fit());
    assert!(Tiles::read("0,0\n18446744073709551614,0").areas_fit());
    assert!(!Tiles::read("0,0\n18446744073709551615,0").areas_fit());
    assert!(Tiles::read("18446744073709551615,0").areas_fit());
    assert!(Tiles::new(vec![]).areas_fit());
    assert_eq!(
        Tiles::read("0,0\n4294967295,4294967294").largest_rect(),
        18446744069414584320
    );
}

use aoc25::days::day9::largest_rect_in;

#[test]
fn largest_rect_is_read_from_text() {
    assert_eq!(
        largest_rect_in("7,1\n11,1\n11,7\n9,7\n9,5\n2,5\n2,3\n7,3"),
        Some(50)
    );
    assert_eq!(largest_rect_in(""), Some(0));
    assert_eq!(largest_rect_in("1,1"), Some(0));
    assert_eq!(largest_rect_in("1,1\nx"), None);
    assert_eq!(largest_rect_in("0,0\n18446744073709551615,0"), None);
}
