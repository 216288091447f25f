use aoc25::days::day5::{Item, Range, Ranges};

#[test]
fn day5_test_range_new() {
    assert_eq!(Range::new(1, 10), Range { start: 1, end: 10 })
}

#[test]
fn test_item_new() {
    assert_eq!(Item::new(10), Item { id: 10 })
}

#[test]
fn test_range_is_item_fresh() {
    assert!(Range::new(1, 18).is_item_fresh(&Item::new(13)));
    assert!(Range::new(1, 18).is_item_fresh(&Item::new(18)));
    assert!(Range::new(1, 18).is_item_fresh(&Item::new(1)));
    assert!(!Range::new(1, 18).is_item_fresh(&Item::new(0)));
}

#[test]
fn test_range_combine() {
    let r1 = Range::new(1, 2);
    let r2 = Range::new(2, 6);
    assert_eq!(r1.combine(&r2), vec![Range::new(1, 6)]);

    let r1 = Range::new(1, 2);
    let r2 = Range::new(2, 6);
    assert_eq!(r2.combine(&r1), vec![Range::new(1, 6)]);

    let r1 = Range::new(1, 2);
    let r2 = Range::new(4, 6);
    assert_eq!(r2.combine(&r1), vec![Range::new(1, 2), Range::new(4, 6)]);
}

#[test]
fn test_ranges_new() {
    let ranges = vec![
        Range::new(3, 5),
        Range::new(10, 14),
        Range::new(16, 20),
        Range::new(12, 18),
    ];

    let expected_ranges = vec![
        Range::new(3, 5),
        Range::new(10, 14),
        Range::new(16, 20),
        Range::new(12, 18),
    ];

    assert_eq!(
        Ranges::new(ranges),
        Ranges {
            ranges: expected_ranges
        }
    )
}

#[test]
fn test_score() {
    let ranges = vec![
        Range::new(3, 5),
        Range::new(10, 14),
        Range::new(16, 20),
        Range::new(12, 18),
    ];

    let items = vec![
        Item::new(1),
        Item::new(5),
        Item::new(8),
        Item::new(11),
        Item::new(17),
        Item::new(32),
    ];

    assert_eq!(Ranges::new(ranges).score(items), 3);
}

#[test]
fn test_combine() {
    let ranges = vec![
        Range::new(3, 5),
        Range::new(10, 14),
        Range::new(16, 20),
        Range::new(12, 18),
    ];

    let expected = Ranges::new(vec![Range::new(3, 5), Range::new(10, 20)]);
    let mut actual = Ranges::new(ranges);
    actual.combine();

    assert_eq!(actual, expected);
}

#[test]
fn combine_keeps_what_the_ranges_cover() {
    let ranges = vec![
        Range::new(30, 40),
        Range::new(1, 2),
        Range::new(3, 4),
        Range::new(35, 50),
        Range::new(2, 3),
        Range::new(60, 60),
        Range::new(10, 12),
    ];
    let before = Ranges::new(ranges.clone());
    let mut after = Ranges::new(ranges);
    after.combine();
    assert_eq!(
        after,
        Ranges::new(vec![
            Range::new(1, 4),
            Range::new(10, 12),
            Range::new(30, 50),
            Range::new(60, 60),
        ])
    );
    for id in 0..70u64 {
        assert_eq!(
            before.score(vec![Item::new(id)]),
            after.score(vec![Item::new(id)])
        );
    }
}

#[test]
fn combine_of_one_range_and_of_ranges_that_only_touch() {
    let mut one = Ranges::new(vec![Range::new(7, 9)]);
    one.combine();
    assert_eq!(one, Ranges::new(vec![Range::new(7, 9)]));

    let mut apart = Ranges::new(vec![Range::new(5, 6), Range::new(1, 4)]);
    apart.combine();
    assert_eq!(apart, Ranges::new(vec![Range::new(1, 4), Range::new(5, 6)]));

    let r1 = Range::new(4, 6);
    assert_eq!(r1.combine(&Range::new(4, 6)), vec![Range::new(4, 6)]);
    assert_eq!(
        Range::new(1, 2).combine(&Range::new(4, 6)),
        vec![Range::new(1, 2), Range::new(4, 6)]
    );
    assert_eq!(Ranges::new(vec![]).score(vec![Item::new(1)]), 0);
    assert_eq!(Ranges::new(vec![Range::new(0, 9)]).score(vec![]), 0);
}

#[test]
fn range_try_read_reads_a_start_and_an_end() {
    assert_eq!(Range::try_read("3-5"), Some(Range::new(3, 5)));
    assert_eq!(Range::try_read("5-3"), Some(Range::new(5, 3)));
    assert_eq!(
        Range::try_read("0-18446744073709551615"),
        Some(Range::new(0, 18446744073709551615))
    );
    assert_eq!(Range::try_read("3-5-9"), Some(Range::new(3, 5)));
    assert_eq!(Range::try_read("3"), None);
    assert_eq!(Range::try_read("3-"), None);
    assert_eq!(Range::try_read(""), None);
    assert_eq!(Range::try_read("3 - 5"), None);
}

#[test]
fn size_counts_the_ids_of_every_range() {
    assert_eq!(Ranges::new(vec![]).size(), Some(0));
    assert_eq!(Ranges::new(vec![Range::new(3, 5)]).size(), Some(3));
    assert_eq!(
        Ranges::new(vec![Range::new(3, 5), Range::new(10, 20)]).size(),
        Some(14)
    );
    assert_eq!(Ranges::new(vec![Range::new(7, 7)]).size(), Some(1));
    assert_eq!(Ranges::new(vec![Range::new(5, 3)]).size(), None);
    assert_eq!(
        Ranges::new(vec![Range::new(0, 18446744073709551615)]).size(),
        None
    );
    assert_eq!(
        Ranges::new(vec![Range::new(1, 18446744073709551615)]).size(),
        Some(18446744073709551615)
    );
    assert_eq!(
        Ranges::new(vec![Range::new(1, 18446744073709551615), Range::new(4, 4)]).size(),
        None
    );
}

use aoc25::days::day5::fresh_total;

#[test]
fn fresh_total_counts_the_ids_of_the_combined_ranges() {
    assert_eq!(
        fresh_total("3-5\n10-14\n16-20\n12-18\n\n1\n5\n8\n11\n17\n32\n"),
        Some(14)
    );
    assert_eq!(fresh_total("3-5\n10-14\n16-20\n12-18"), Some(14));
    assert_eq!(fresh_total("3-5"), Some(3));
    assert_eq!(fresh_total("3-5\n\n"), Some(3));
    assert_eq!(fresh_total("3-5\n\n\nx"), Some(3));
    assert_eq!(fresh_total("3-5\n"), None);
    assert_eq!(fresh_total(""), None);
    assert_eq!(fresh_total("\n\n3-5"), None);
    assert_eq!(fresh_total("3-5\nx\n\n1"), None);
    assert_eq!(fresh_total("5-3"), None);
    assert_eq!(fresh_total("0-18446744073709551615"), None);
    assert_eq!(fresh_total("3-5\r\n4-6"), None);
}
