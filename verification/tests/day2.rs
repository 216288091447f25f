use aoc25::days::day2::{Id, Range};

#[test]
fn test_id_new() {
    let id = Id::new(10);
    assert_eq!(id.stri(), "10");
    assert_eq!(id.num(), 10);
    assert_eq!(id, Id::new(10));
}

#[test]
fn test_id_is_valid() {
    assert!(Id::new(100).is_valid());
    assert!(Id::new(1001).is_valid());
    assert!(!Id::new(11).is_valid());
    assert!(!Id::new(99).is_valid());
    assert!(Id::new(95).is_valid());
    assert!(!Id::new(121212).is_valid());
}

#[test]
fn day2_test_range_new() {
    let range = Range::new(1, 5);
    assert_eq!(range.start(), &Id::new(1));
    assert_eq!(range.end(), &Id::new(5));
    assert_eq!(
        range.range(),
        &vec![Id::new(1), Id::new(2), Id::new(3), Id::new(4), Id::new(5)]
    );
}

#[test]
fn test_sum_invalid() {
    let range = Range::new(38593856, 38593862);
    assert_eq!(range.sum_invalid(), 38593859);

    let range = Range::new(1698522, 1698528);
    assert_eq!(range.sum_invalid(), 0);

    let range = Range::new(11, 22);
    assert_eq!(range.sum_invalid(), 33);
}

#[test]
fn id_digits_are_the_decimal_digits() {
    assert_eq!(Id::new(0).stri(), "0");
    assert_eq!(Id::new(7).stri(), "7");
    assert_eq!(Id::new(1203).stri(), "1203");
    assert_eq!(
        Id::new(18446744073709551615).stri(),
        "18446744073709551615"
    );
    assert_eq!(Id::new(18446744073709551615).num(), 18446744073709551615);
}

#[test]
fn id_validity_at_the_edges() {
    assert!(Id::new(0).is_valid());
    assert!(Id::new(9).is_valid());
    assert!(!Id::new(111).is_valid());
    assert!(!Id::new(6464).is_valid());
    assert!(Id::new(6465).is_valid());
    assert!(!Id::new(123123123).is_valid());
    assert!(Id::new(1231231234).is_valid());
}

#[test]
fn range_with_no_ids_and_with_one() {
    assert_eq!(Range::new(5, 1).range().len(), 0);
    assert_eq!(Range::new(5, 1).sum_invalid(), 0);
    assert_eq!(Range::new(22, 22).range(), &vec![Id::new(22)]);
    assert_eq!(Range::new(22, 22).sum_invalid(), 22);
    assert_eq!(Range::new(95, 115).sum_invalid(), 99 + 111);
}

#[test]
fn range_ends_are_read_from_text() {
    assert_eq!(Range::read_ends("11-22"), Some((11, 22)));
    assert_eq!(Range::read_ends("22-11"), Some((22, 11)));
    assert_eq!(Range::read_ends("1-2-3"), Some((1, 2)));
    assert_eq!(
        Range::read_ends("0-18446744073709551615"),
        Some((0, 18446744073709551615))
    );
    assert_eq!(Range::read_ends("0-18446744073709551616"), None);
    assert_eq!(Range::read_ends("11"), None);
    assert_eq!(Range::read_ends("11-"), None);
    assert_eq!(Range::read_ends("a-b"), None);
    assert_eq!(Range::read_ends(""), None);
}

#[test]
fn try_sum_invalid_tells_when_the_sum_does_not_fit() {
    assert_eq!(Range::new(11, 22).try_sum_invalid(), Some(33));
    assert_eq!(Range::new(5, 1).try_sum_invalid(), Some(0));
    assert_eq!(
        Range::new(11111111111111111111, 11111111111111111111).try_sum_invalid(),
        Some(11111111111111111111)
    );
    assert_eq!(
        Range::new(11111111111111111110, 11111111111111111112).try_sum_invalid(),
        Some(11111111111111111111)
    );
    let mut twice = Range::new(9999999999, 9999999999).try_sum_invalid();
    assert_eq!(twice, Some(9999999999));
    twice = Range::new(17777777771777777777, 17777777771777777777).try_sum_invalid();
    assert_eq!(twice, Some(17777777771777777777));
}

use aoc25::days::day2::invalid_total;

#[test]
fn invalid_total_sums_over_all_ranges() {
    assert_eq!(invalid_total("11-22"), Some(33));
    assert_eq!(invalid_total("11-22,95-115\n"), Some(33 + 99 + 111));
    assert_eq!(
        invalid_total("11-22,95-115,998-1012,1188511880-1188511890,222220-222224,1698522-1698528,446443-446449,38593856-38593862,565653-565659,824824821-824824827,2121212118-2121212124"),
        Some(4174379265)
    );
    assert_eq!(invalid_total("5-1"), Some(0));
    assert_eq!(invalid_total("11-22,,1-2"), None);
    assert_eq!(invalid_total(""), None);
    assert_eq!(invalid_total("11-22, 33-44"), None);
    assert_eq!(invalid_total("11"), None);
}
