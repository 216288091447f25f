use aoc25::days::day6::{Column, Operation};

#[test]
fn test_operation_from_char() {
    assert_eq!(Operation::from_char(&'+'), Some(Operation::Add));
    assert_eq!(Operation::from_char(&'-'), Some(Operation::Subtract));
    assert_eq!(Operation::from_char(&'*'), Some(Operation::Multiply));
    assert_eq!(Operation::from_char(&'/'), Some(Operation::Divide));
    assert_eq!(Operation::from_char(&'\\'), None);
}

#[test]
fn test_operation_operate() {
    assert_eq!(Operation::from_char(&'+').unwrap().operate(&5, &10), 15);
    assert_eq!(Operation::from_char(&'-').unwrap().operate(&10, &5), 5);
    assert_eq!(Operation::from_char(&'*').unwrap().operate(&5, &10), 50);
    assert_eq!(Operation::from_char(&'/').unwrap().operate(&10, &5), 2);
}

#[test]
fn test_column_new() {
    assert_eq!(
        Column::new(vec![1, 2, 3, 4, 5], Operation::Add),
        Column {
            nums: vec![1, 2, 3, 4, 5],
            operation: Operation::Add,
        }
    )
}

#[test]
fn test_column_score() {
    let c = Column::new(vec![1, 2, 3, 4, 5], Operation::Add);
    assert_eq!(c.score(), 15);

    let c = Column::new(vec![1, 2, 3, 4, 5], Operation::Multiply);
    assert_eq!(c.score(), 120);
}

#[test]
fn column_score_folds_from_the_left() {
    assert_eq!(Column::new(vec![], Operation::Add).score(), 0);
    assert_eq!(Column::new(vec![], Operation::Multiply).score(), 1);
    assert_eq!(Column::new(vec![], Operation::Divide).score(), 0);
    assert_eq!(Column::new(vec![0, 0], Operation::Subtract).score(), 0);
    assert_eq!(Column::new(vec![3, 7], Operation::Divide).score(), 0);
    assert_eq!(Operation::Divide.operate(&7, &2), 3);
    assert_eq!(Operation::Subtract.operate(&7, &7), 0);
    assert_eq!(
        Operation::Add.operate(&18446744073709551614, &1),
        18446744073709551615
    );
}

#[test]
fn try_operate_tells_when_there_is_no_result() {
    assert_eq!(Operation::Add.try_operate(&5, &10), Some(15));
    assert_eq!(Operation::Add.try_operate(&18446744073709551615, &1), None);
    assert_eq!(Operation::Subtract.try_operate(&5, &10), None);
    assert_eq!(Operation::Subtract.try_operate(&10, &5), Some(5));
    assert_eq!(Operation::Divide.try_operate(&10, &0), None);
    assert_eq!(Operation::Divide.try_operate(&10, &3), Some(3));
    assert_eq!(Operation::Multiply.try_operate(&4294967296, &4294967296), None);
    assert_eq!(
        Operation::Multiply.try_operate(&4294967295, &4294967297),
        Some(18446744073709551615)
    );
}

#[test]
fn try_score_tells_when_the_fold_breaks() {
    assert_eq!(
        Column::new(vec![1, 2, 3, 4, 5], Operation::Add).try_score(),
        Some(15)
    );
    assert_eq!(
        Column::new(vec![1, 2, 3, 4, 5], Operation::Multiply).try_score(),
        Some(120)
    );
    assert_eq!(Column::new(vec![1], Operation::Subtract).try_score(), None);
    assert_eq!(Column::new(vec![0, 0], Operation::Subtract).try_score(), Some(0));
    assert_eq!(Column::new(vec![2, 0], Operation::Divide).try_score(), None);
    assert_eq!(Column::new(vec![2, 3], Operation::Divide).try_score(), Some(0));
    assert_eq!(
        Column::new(vec![18446744073709551615, 1], Operation::Add).try_score(),
        None
    );
    assert_eq!(Column::new(vec![], Operation::Multiply).try_score(), Some(1));
}

use aoc25::days::day6::{read_numbers, read_operations, worksheet_total, worksheet_total_by_digits};

fn sheet(lines: &[&str]) -> Vec<Vec<char>> {
    lines.iter().map(|l| l.chars().collect()).collect()
}

const SHEET: [&str; 4] = [
    "123 328  51 64 ",
    " 45 64  387 23 ",
    "  6 98  215 314",
    "*   +   *   +  ",
];

/// The total of a sheet of numbers written downwards, worked out with the
/// string functions of the standard library.
fn by_digits_with_strings(lines: &[&str]) -> u64 {
    let operations: Vec<Operation> = lines
        .last()
        .unwrap()
        .split_whitespace()
        .map(|w| Operation::from_char(&w.chars().next().unwrap()).unwrap())
        .collect();
    let columns: Vec<Vec<char>> = lines[..lines.len() - 1]
        .iter()
        .map(|c| c.chars().rev().collect())
        .collect();
    let rows = columns.len();
    let cols = columns[0].len();
    let strings: Vec<String> = (0..cols)
        .map(|col| (0..rows).map(|row| columns[row][col]).collect())
        .collect();
    let groups: Vec<Vec<u64>> = strings
        .join("\n")
        .split(" ".repeat(rows).as_str())
        .map(|chunk| {
            chunk
                .lines()
                .filter(|line| !line.is_empty())
                .map(|line| line.trim_start().trim_end().parse().unwrap())
                .collect()
        })
        .collect();
    groups
        .iter()
        .rev()
        .zip(operations)
        .map(|(t, op)| Column::new(t.to_owned(), op).score())
        .sum()
}

#[test]
fn worksheet_total_folds_the_columns_of_numbers() {
    assert_eq!(worksheet_total(&sheet(&SHEET)), Some(4277556));
    assert_eq!(worksheet_total(&sheet(&["1 2", "3 4", "+ *"])), Some(12));
    assert_eq!(worksheet_total(&sheet(&["7 2", "9 4", "/ /"])), Some(0));
    assert_eq!(worksheet_total(&sheet(&["7 2", "0 0", "- /"])), None);
    assert_eq!(worksheet_total(&sheet(&["0 2", "0 4", "- /"])), Some(0));
    assert_eq!(worksheet_total(&sheet(&["1 2", "3", "+ *"])), Some(4));
    assert_eq!(worksheet_total(&sheet(&["1 2 3", "+"])), Some(1));
    assert_eq!(worksheet_total(&sheet(&["1", "+ * *"])), Some(1));
    assert_eq!(worksheet_total(&sheet(&["", "+ *"])), Some(0));
    assert_eq!(worksheet_total(&sheet(&["1 2 9", "3 4", "+ +"])), Some(10));
    assert_eq!(worksheet_total(&sheet(&["\t1\u{a0}2 ", "+ +"])), Some(3));
}

#[test]
fn worksheet_total_has_no_total_for_a_broken_sheet() {
    assert_eq!(worksheet_total(&sheet(&[])), None);
    assert_eq!(worksheet_total(&sheet(&["+ *"])), None);
    assert_eq!(worksheet_total(&sheet(&["1 2", "3 4 5", "+ +"])), None);
    assert_eq!(worksheet_total(&sheet(&["1 x", "+ *"])), None);
    assert_eq!(worksheet_total(&sheet(&["1 2", "+ x"])), None);
    assert_eq!(worksheet_total(&sheet(&["1 2", "3 4", "- +"])), None);
    assert_eq!(worksheet_total(&sheet(&["0 2", "3 4", "/ +"])), None);
    assert_eq!(
        worksheet_total(&sheet(&["18446744073709551615 1", "+ +"])),
        None
    );
    assert_eq!(
        worksheet_total(&sheet(&["18446744073709551615 0", "+ +"])),
        Some(18446744073709551615)
    );
}

#[test]
fn worksheet_total_by_digits_reads_the_numbers_downwards() {
    assert_eq!(worksheet_total_by_digits(&sheet(&SHEET)), Some(3263827));
    assert_eq!(by_digits_with_strings(&SHEET), 3263827);
}

#[test]
fn worksheet_total_by_digits_agrees_with_the_string_functions() {
    let sheets: Vec<Vec<&str>> = vec![
        vec!["12 34", " 5  6", "+  * "],
        vec!["12 34", " 5  6", "*  + "],
        vec!["1", "+"],
        vec!["", "+"],
        vec!["", "*"],
        vec!["", ""],
        vec!["1  2", "+ + +"],
        vec!["1  2", "* * *"],
        vec!["  1", "* +"],
        vec!["1  ", "* +"],
        vec!["12", "x34", "+"],
        vec!["9 9 9", "9 9 9", "+"],
        vec!["1\r2", "+ +"],
        vec!["1\t", " 2", "+"],
        vec!["11 22", "33 44", "/ +"],
        vec!["5", "5", "5", "5", "*"],
    ];
    for lines in sheets {
        assert_eq!(
            worksheet_total_by_digits(&sheet(&lines)),
            Some(by_digits_with_strings(&lines)),
            "{:?}",
            lines
        );
    }
}

#[test]
fn worksheet_total_by_digits_has_no_total_for_a_broken_sheet() {
    assert_eq!(worksheet_total_by_digits(&sheet(&[])), None);
    assert_eq!(worksheet_total_by_digits(&sheet(&["+"])), None);
    assert_eq!(worksheet_total_by_digits(&sheet(&["12", "3", "+"])), None);
    assert_eq!(worksheet_total_by_digits(&sheet(&["1a", "+"])), None);
    assert_eq!(worksheet_total_by_digits(&sheet(&["12", "+ ?"])), None);
    assert_eq!(worksheet_total_by_digits(&sheet(&["1\t2", "+"])), None);
    assert_eq!(worksheet_total_by_digits(&sheet(&["1-", "+"])), None);
    assert_eq!(worksheet_total_by_digits(&sheet(&["\r", "+"])), None);
    assert_eq!(worksheet_total_by_digits(&sheet(&["\r", "+ *"])), None);
    assert_eq!(worksheet_total_by_digits(&sheet(&["+1", " 2", "+"])), None);
    assert_eq!(worksheet_total_by_digits(&sheet(&["10 20", "30 40", "- +"])), None);
    assert_eq!(worksheet_total_by_digits(&sheet(&["10 20", "30 40", "+ -"])), None);
    assert_eq!(worksheet_total_by_digits(&sheet(&["10 20", "30 40", "+ /"])), None);
    assert_eq!(worksheet_total_by_digits(&sheet(&["11 22", "33 44", "+ /"])), Some(26));
    assert_eq!(worksheet_total_by_digits(&sheet(&["12", "/"])), Some(0));
    assert_eq!(worksheet_total_by_digits(&sheet(&["12", "-"])), None);
}

#[test]
fn words_of_a_line_are_read_as_numbers_or_operations() {
    let chars = |s: &str| s.chars().collect::<Vec<char>>();
    assert_eq!(read_numbers(&chars(" 12  7\t+3 ")), Some(vec![12, 7, 3]));
    assert_eq!(read_numbers(&chars("")), Some(vec![]));
    assert_eq!(read_numbers(&chars("   ")), Some(vec![]));
    assert_eq!(read_numbers(&chars("12 x")), None);
    assert_eq!(read_numbers(&chars("18446744073709551616")), None);
    assert_eq!(
        read_operations(&chars(" +  *x -- /")),
        Some(vec![
            Operation::Add,
            Operation::Multiply,
            Operation::Subtract,
            Operation::Divide
        ])
    );
    assert_eq!(read_operations(&chars("+ x")), None);
    assert_eq!(read_operations(&chars("")), Some(vec![]));
}

use aoc25::days::day6::{worksheet_total_by_digits_of, worksheet_total_of};

#[test]
fn worksheet_totals_are_read_from_text() {
    let text = "123 328  51 64 \n 45 64  387 23 \n  6 98  215 314\n*   +   *   +  \n";
    assert_eq!(worksheet_total_of(text), Some(4277556));
    assert_eq!(worksheet_total_by_digits_of(text), Some(3263827));
    assert_eq!(worksheet_total_of(""), None);
    assert_eq!(worksheet_total_by_digits_of(""), None);
    assert_eq!(worksheet_total_of("1 2\r\n+ *\r\n"), Some(3));
    assert_eq!(worksheet_total_by_digits_of("1 2\r\n+ *\r\n"), Some(3));
}
