use aoc2025::day02::{
    checked_part_1, checked_part_2, find_doubles, find_repeats, is_double, is_repeat,
    parse_range, part_1, part_2, read_bounds, repeats_n, sum_values, trimmed_len,
};

const EXAMPLE: &str = "11-22,95-115,998-1012,1188511880-1188511890,222220-222224,1698522-1698528,446443-446449,38593856-38593862,565653-565659,824824821-824824827,2121212118-2121212124\n";

fn chars(s: &str) -> Vec<char> {
    s.chars().collect()
}

#[test]
fn test_repeat() {
    assert!(is_repeat(&11));
    assert!(is_repeat(&111));
    assert!(is_repeat(&1111));
    assert!(is_repeat(&12_12_12_12_12));
    assert!(is_repeat(&123_123_123_123));
    assert!(is_repeat(&1234_1234_1234_1234));
    assert!(is_repeat(&1234_5678_1234_5678));
}

#[test]
fn test_not_repeat() {
    assert!(!is_repeat(&10));
    assert!(!is_repeat(&101));
    assert!(!is_repeat(&1011));
    assert!(!is_repeat(&11_12_12_12_12));
    assert!(!is_repeat(&113_123_123_123));
    assert!(!is_repeat(&1134_1234_1234_1234));
    assert!(!is_repeat(&1134_5678_1234_5678));
}

#[test]
fn doubles_are_blocks_written_twice() {
    for x in [11, 22, 99, 1010, 6464, 123123, 222222, 1188511885, 38593859] {
        assert!(is_double(&x));
    }
    for x in [0, 1, 9, 10, 12, 101, 111, 1001, 1234, 12312, 1231234, 100100100] {
        assert!(!is_double(&x));
    }
}

#[test]
fn repeats_are_blocks_written_several_times() {
    for x in [11, 99, 111, 999, 1010, 565656, 824824824, 2121212121, 1188511885] {
        assert!(is_repeat(&x));
    }
    for x in [0, 1, 2, 3, 9, 12, 100, 1001, 12312, 1231231, 565657] {
        assert!(!is_repeat(&x));
    }
}

#[test]
fn blocks_fill_the_whole_text() {
    assert!(repeats_n(&chars("abab"), 2));
    assert!(repeats_n(&chars("abab"), 1));
    assert!(!repeats_n(&chars("abab"), 4));
    assert!(repeats_n(&chars("aaaa"), 4));
    assert!(!repeats_n(&chars("ababa"), 2));
    assert!(!repeats_n(&chars("abab"), 3));
    assert!(!repeats_n(&chars("abab"), 5));
    assert!(repeats_n(&chars(""), 3));
    assert!(!repeats_n(&chars("aba"), 3));
    assert!(repeats_n(&chars("xyzxyzxyz"), 3));
}

#[test]
fn pairs_of_ends_are_read() {
    assert_eq!(parse_range("11-22"), (11, 22));
    assert_eq!(parse_range("1188511880-1188511890"), (1188511880, 1188511890));
    assert_eq!(parse_range("5-3"), (5, 3));
    assert_eq!(parse_range("1-2-3"), (1, 2));
    assert_eq!(parse_range("+1-02"), (1, 2));
    assert_eq!(read_bounds(&chars("11-22")), Some((11, 22)));
    assert_eq!(read_bounds(&chars("11")), None);
    assert_eq!(read_bounds(&chars("")), None);
    assert_eq!(read_bounds(&chars("11-")), None);
    assert_eq!(read_bounds(&chars("-22")), None);
    assert_eq!(read_bounds(&chars("1-2-x")), None);
    assert_eq!(read_bounds(&chars("1-2-")), None);
    assert_eq!(read_bounds(&chars("11 - 22")), None);
    assert_eq!(read_bounds(&chars("1-99999999999999999999999")), None);
}

#[test]
fn invalid_identifiers_of_a_range() {
    assert_eq!(find_doubles((11, 22)), vec![11, 22]);
    assert_eq!(find_doubles((95, 115)), vec![99]);
    assert_eq!(find_doubles((998, 1012)), vec![1010]);
    assert_eq!(find_doubles((1698522, 1698528)), vec![]);
    assert_eq!(find_doubles((22, 11)), vec![]);
    assert_eq!(find_doubles((0, 0)), vec![]);
    assert_eq!(find_doubles((11, 11)), vec![11]);
    assert_eq!(find_repeats((95, 115)), vec![99, 111]);
    assert_eq!(find_repeats((998, 1012)), vec![999, 1010]);
    assert_eq!(find_repeats((565653, 565659)), vec![565656]);
    assert_eq!(find_repeats((0, 12)), vec![11]);
    assert_eq!(find_repeats((usize::MAX - 2, usize::MAX)), vec![]);
    assert_eq!(find_doubles((usize::MAX, usize::MAX)), vec![]);
}

#[test]
fn sums_fit_a_word_or_are_none() {
    assert_eq!(sum_values(&vec![]), Some(0));
    assert_eq!(sum_values(&vec![11, 22]), Some(33));
    assert_eq!(sum_values(&vec![usize::MAX, 0]), Some(usize::MAX));
    assert_eq!(sum_values(&vec![usize::MAX, 1]), None);
}

#[test]
fn white_space_at_the_end_is_taken_off() {
    assert_eq!(trimmed_len(&chars("11-22\n")), 5);
    assert_eq!(trimmed_len(&chars("11-22 \t\r\n\u{3000}")), 5);
    assert_eq!(trimmed_len(&chars("11-22")), 5);
    assert_eq!(trimmed_len(&chars(" 11 ")), 3);
    assert_eq!(trimmed_len(&chars(" \n ")), 0);
    assert_eq!(trimmed_len(&chars("")), 0);
    assert_eq!(trimmed_len(&chars("a\u{200b}")), 2);
    for text in ["", " ", "a ", " a", "a\n\n", "a\u{a0}\u{2009}", "a\u{85}", "x\u{feff}", "\t\r\n"] {
        assert_eq!(
            trimmed_len(&chars(text)),
            text.trim_end().chars().count(),
            "{text:?}"
        );
    }
}

#[test]
fn day02_example() {
    assert_eq!(part_1(EXAMPLE), 1227775554);
    assert_eq!(part_2(EXAMPLE), 4174379265);
    assert_eq!(checked_part_1(EXAMPLE), Some(1227775554));
    assert_eq!(checked_part_2(EXAMPLE), Some(4174379265));
}

#[test]
fn day02_small_inputs() {
    assert_eq!(part_1("11-22"), 33);
    assert_eq!(part_2("95-115\n\n"), 210);
    assert_eq!(part_1("11-22,22-11,11-11"), 44);
    assert_eq!(checked_part_1(""), None);
    assert_eq!(checked_part_1("11-22,"), None);
    assert_eq!(checked_part_1("11-22, 33-44"), None);
    assert_eq!(checked_part_1("11-22\n33-44"), None);
    assert_eq!(checked_part_2("11"), None);
    assert_eq!(
        checked_part_1("9999999999-9999999999,18446744073709551615-18446744073709551615"),
        Some(9999999999)
    );
}
