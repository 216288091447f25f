use aoc25::rank::rank_descending;
use aoc25::text::{chars_of, lines, parse_pair, parse_unsigned, split};

fn chars(s: &str) -> Vec<char> {
    s.chars().collect()
}

fn strings(pieces: Vec<Vec<char>>) -> Vec<String> {
    pieces.into_iter().map(|p| p.into_iter().collect()).collect()
}

#[test]
fn chars_of_gives_every_character() {
    assert_eq!(chars_of(""), Vec::<char>::new());
    assert_eq!(chars_of("a,b"), vec!['a', ',', 'b']);
    assert_eq!(chars_of("é€x"), vec!['é', '€', 'x']);
}

#[test]
fn split_keeps_empty_pieces() {
    assert_eq!(strings(split(&chars(""), ',')), vec![""]);
    assert_eq!(strings(split(&chars("a"), ',')), vec!["a"]);
    assert_eq!(strings(split(&chars("a,b"), ',')), vec!["a", "b"]);
    assert_eq!(strings(split(&chars(",a,,b,"), ',')), vec!["", "a", "", "b", ""]);
    assert_eq!(strings(split(&chars(",,"), ',')), vec!["", "", ""]);
}

#[test]
fn split_agrees_with_the_standard_split() {
    for text in ["", "1,2,3", ",", "a,,b", "abc", ",x", "x,", " , "] {
        let expected: Vec<String> = text.split(',').map(|p| p.to_string()).collect();
        assert_eq!(strings(split(&chars(text), ',')), expected);
    }
}

#[test]
fn lines_agree_with_the_standard_lines() {
    for text in [
        "",
        "a",
        "a\n",
        "a\nb",
        "a\r\nb\r\n",
        "\n",
        "\n\n",
        "a\n\nb",
        "a\r",
        "a\r\n",
        "\r\n\r\n",
        "a\rb\n",
        "a\r\r\n",
    ] {
        let expected: Vec<String> = text.lines().map(|p| p.to_string()).collect();
        assert_eq!(strings(lines(&chars(text))), expected, "{:?}", text);
    }
}

#[test]
fn parse_unsigned_agrees_with_the_standard_parse() {
    for text in [
        "", "0", "7", "007", "+7", "+", "-7", "+-7", "++7", "7 ", " 7", "7a", "a", "255", "256",
        "65535", "65536", "18446744073709551615", "18446744073709551616",
        "000000000000000000000000000001", "99999999999999999999999", "1_0", "٣",
    ] {
        let c = chars(text);
        assert_eq!(
            parse_unsigned(&c, 0, c.len(), u64::MAX),
            text.parse::<u64>().ok(),
            "{:?}",
            text
        );
        assert_eq!(
            parse_unsigned(&c, 0, c.len(), 255),
            text.parse::<u8>().ok().map(|n| n as u64),
            "{:?}",
            text
        );
        assert_eq!(
            parse_unsigned(&c, 0, c.len(), 65535),
            text.parse::<u16>().ok().map(|n| n as u64),
            "{:?}",
            text
        );
    }
}

#[test]
fn parse_unsigned_reads_a_stretch_of_the_text() {
    let c = chars("L68,+9");
    assert_eq!(parse_unsigned(&c, 1, 3, 100), Some(68));
    assert_eq!(parse_unsigned(&c, 1, 3, 67), None);
    assert_eq!(parse_unsigned(&c, 4, 6, 9), Some(9));
    assert_eq!(parse_unsigned(&c, 0, 3, 100), None);
    assert_eq!(parse_unsigned(&c, 3, 3, 100), None);
    assert_eq!(parse_unsigned(&c, 2, 3, 0), None);
    assert_eq!(parse_unsigned(&chars("0"), 0, 1, 0), Some(0));
}

#[test]
fn parse_pair_reads_the_first_two_pieces() {
    assert_eq!(parse_pair(&chars("3-5"), '-', 10), Some((3, 5)));
    assert_eq!(parse_pair(&chars("3-5-x"), '-', 10), Some((3, 5)));
    assert_eq!(parse_pair(&chars("3-11"), '-', 10), None);
    assert_eq!(parse_pair(&chars("3"), '-', 10), None);
    assert_eq!(parse_pair(&chars("-5"), '-', 10), None);
    assert_eq!(parse_pair(&chars("3-"), '-', 10), None);
    assert_eq!(parse_pair(&chars(""), '-', 10), None);
}

#[test]
fn ranking_is_descending_and_keeps_ties_in_order() {
    assert_eq!(rank_descending(&vec![]), Vec::<usize>::new());
    assert_eq!(rank_descending(&vec![5]), vec![0]);
    assert_eq!(rank_descending(&vec![1, 2, 3]), vec![2, 1, 0]);
    assert_eq!(rank_descending(&vec![3, 2, 1]), vec![0, 1, 2]);
    assert_eq!(rank_descending(&vec![4, 4, 8]), vec![2, 0, 1]);
    assert_eq!(
        rank_descending(&vec![7, 1, 7, 1, 7, 0, 9]),
        vec![6, 0, 2, 4, 1, 3, 5]
    );
}

#[test]
fn ranking_agrees_with_a_stable_sort() {
    let mut seed: u64 = 12345;
    for len in 0..40usize {
        let keys: Vec<u64> = (0..len)
            .map(|_| {
                seed = seed.wrapping_mul(6364136223846793005).wrapping_add(1442695040888963407);
                (seed >> 33) % 7
            })
            .collect();
        let mut expected: Vec<usize> = (0..len).collect();
        expected.sort_by(|a, b| keys[*b].cmp(&keys[*a]));
        assert_eq!(rank_descending(&keys), expected);
    }
}

use aoc25::text::{is_space_char, trim, words};

#[test]
fn white_space_is_what_the_standard_library_says() {
    for code in 0..0x11_0000u32 {
        if let Some(c) = char::from_u32(code) {
            assert_eq!(is_space_char(c), c.is_whitespace(), "{:x}", code);
        }
    }
}

#[test]
fn words_agree_with_the_standard_split() {
    for text in [
        "", " ", "a", " a", "a ", " a ", "a b", "a  b", "\ta\nb\r\nc ", "ab cd  efg", "  ",
        "a\u{a0}b", "a\u{3000}", "\u{2003}x\u{2003}", "x\u{200b}y",
    ] {
        let expected: Vec<String> = text.split_whitespace().map(|w| w.to_string()).collect();
        assert_eq!(strings(words(&chars(text))), expected, "{:?}", text);
    }
}

#[test]
fn trim_agrees_with_the_standard_trim() {
    for text in [
        "", " ", "   ", "a", " a", "a ", " a ", "  a b  ", "\t\r\n a \u{a0}", "a\u{3000}", "\u{85}",
    ] {
        let c = chars(text);
        let (from, to) = trim(&c);
        let found: String = c[from..to].iter().collect();
        assert_eq!(found, text.trim(), "{:?}", text);
        assert_eq!(found, text.trim_start().trim_end());
    }
}

use aoc25::text::trim_end;

#[test]
fn trim_end_agrees_with_the_standard_trim() {
    for text in ["", " ", "a", "a ", " a \n", "a\r\n", "\u{3000}", " a\u{a0}b\t "] {
        let c = chars(text);
        let end = trim_end(&c);
        let found: String = c[..end].iter().collect();
        assert_eq!(found, text.trim_end(), "{:?}", text);
    }
}
