use aoc25::days::day3::{Bank, Battery};

#[test]
fn test_battery_new() {
    assert_eq!(Battery::new(8), Battery { joltage: 8 })
}

#[test]
fn test_bank_new() {
    let bank = Bank::new("987654321111111".to_string());
    assert_eq!(bank.joltage, 987654321111);

    let bank = Bank::new("818181911112111".to_string());
    assert_eq!(bank.joltage, 888911112111);
}

#[test]
fn test_bank_calculate_joltage() {
    let batteries = vec![
        Battery::new(1),
        Battery::new(2),
        Battery::new(3),
        Battery::new(1),
        Battery::new(2),
        Battery::new(3),
        Battery::new(1),
        Battery::new(2),
        Battery::new(3),
        Battery::new(1),
        Battery::new(2),
        Battery::new(3),
    ];
    assert_eq!(Bank::calculate_joltage(&batteries), 123123123123);
}

#[test]
fn bank_joltage_of_more_banks() {
    assert_eq!(Bank::new("234234234234278".to_string()).joltage, 434234234278);
    assert_eq!(Bank::new("811111111111119".to_string()).joltage, 811111111119);
    assert_eq!(Bank::new("000000000000000".to_string()).joltage, 0);
    assert_eq!(Bank::new("000000000000100".to_string()).joltage, 100);
    assert_eq!(Bank::new("999999999999".to_string()).joltage, 999999999999);
    let bank = Bank::new("120000000000000".to_string());
    assert_eq!(bank.joltage, 200000000000);
    assert_eq!(bank.batteries.len(), 15);
    assert_eq!(bank.batteries[1], Battery::new(2));
}

#[test]
fn bank_try_new_takes_digits_only() {
    assert_eq!(
        Bank::try_new("987654321111111".to_string()).map(|b| b.joltage),
        Some(987654321111)
    );
    assert!(Bank::try_new("98765432111".to_string()).is_none());
    assert!(Bank::try_new("98765432111111a".to_string()).is_none());
    assert!(Bank::try_new("+98765432111111".to_string()).is_none());
    assert!(Bank::try_new("".to_string()).is_none());
    assert!(Bank::try_new("9876543211111 1".to_string()).is_none());
}

use aoc25::days::day3::{joltage_total, line_joltage};

#[test]
fn joltage_total_sums_over_all_banks() {
    assert_eq!(
        joltage_total("987654321111111\n811111111111119\n234234234234278\n818181911112111\n"),
        Some(3121910778619)
    );
    assert_eq!(joltage_total(""), Some(0));
    assert_eq!(joltage_total("999999999999"), Some(999999999999));
    assert_eq!(joltage_total("999999999999\n12345"), None);
    assert_eq!(joltage_total("999999999999\n\n999999999999"), None);
    assert_eq!(joltage_total("99999999999x"), None);
    let line: Vec<char> = "818181911112111".chars().collect();
    assert_eq!(line_joltage(&line), Some(888911112111));
    assert_eq!(
        Bank::new("818181911112111".to_string()).joltage,
        888911112111
    );
}

#[test]
fn bank_joltage_is_the_largest_number_of_twelve_batteries() {
    let digits: Vec<u64> = vec![3, 1, 4, 1, 5, 9, 2, 6, 5, 3, 5, 8, 9, 7];
    let batteries: Vec<Battery> = digits.iter().map(|d| Battery::new(*d as u8)).collect();
    let found = Bank::calculate_joltage(&batteries);
    let mut largest = 0;
    for a in 0..digits.len() {
        for b in a + 1..digits.len() {
            let number = digits
                .iter()
                .enumerate()
                .filter(|(i, _)| *i != a && *i != b)
                .fold(0u64, |n, (_, d)| n * 10 + d);
            if number > largest {
                largest = number;
            }
        }
    }
    assert_eq!(found, largest);
    assert_eq!(found, 415926535897);
}
