use aoc2025::decimal::{
    char_of_digit, decimal_of, digit_of, is_digit_char, parse_i32, parse_usize, push_decimal,
};
use aoc2025::text::{
    chars_of, copy_range, find_char, is_whitespace, push_chars, split_lines, split_on,
    split_words,
};

fn chars(s: &str) -> Vec<char> {
    s.chars().collect()
}

fn strings(pieces: Vec<Vec<char>>) -> Vec<String> {
    pieces
        .into_iter()
        .map(|piece| piece.into_iter().collect())
        .collect()
}

#[test]
fn characters_of_a_string() {
    assert_eq!(chars_of(""), Vec::<char>::new());
    assert_eq!(chars_of("ab\n"), vec!['a', 'b', '\n']);
    assert_eq!(chars_of("h\u{e9}\u{1f600}!"), vec!['h', '\u{e9}', '\u{1f600}', '!']);
    let mut text = String::from("x");
    push_chars(&mut text, &chars("y\u{e9}z"));
    assert_eq!(text, "xy\u{e9}z");
    push_chars(&mut text, &[]);
    assert_eq!(text, "xy\u{e9}z");
}

#[test]
fn lines_agree_with_the_standard_library() {
    for text in [
        "",
        "\n",
        "a",
        "a\n",
        "a\nb",
        "a\n\nb\n",
        "\n\n",
        "a\r\nb\r\n",
        "a\rb\n",
        "a\r",
        "\r\n",
        "\r",
        "a\r\r\nb",
        "a\n\rb",
        "one two\nthree\n \n",
    ] {
        let expected: Vec<String> = text.lines().map(String::from).collect();
        assert_eq!(strings(split_lines(&chars(text))), expected, "{text:?}");
    }
}

#[test]
fn pieces_agree_with_the_standard_library() {
    for text in ["", ",", "a", "a,b", "a,,b", ",a,", "11-22,33-44", ",,"] {
        let expected: Vec<String> = text.split(',').map(String::from).collect();
        assert_eq!(strings(split_on(&chars(text), ',')), expected, "{text:?}");
    }
}

#[test]
fn words_agree_with_the_standard_library() {
    for text in [
        "",
        " ",
        "a",
        " a ",
        "a b",
        "a  b",
        "\ta\nb\r\nc ",
        "123 328  51 64 ",
        "*   +   *   +  ",
        "a\u{a0}b\u{2003}c\u{3000}d\u{85}e",
        "a\u{200b}b",
        "a\u{1680}b\u{2028}c\u{2029}d\u{202f}e\u{205f}f",
        "\u{b}\u{c}x\u{1c}y",
    ] {
        let expected: Vec<String> = text.split_whitespace().map(String::from).collect();
        assert_eq!(strings(split_words(&chars(text))), expected, "{text:?}");
    }
}

#[test]
fn white_space_agrees_with_the_standard_library() {
    for code in 0..=0x3100u32 {
        if let Some(c) = char::from_u32(code) {
            assert_eq!(is_whitespace(c), c.is_whitespace(), "{code:#x}");
        }
    }
    assert!(!is_whitespace('\u{feff}'));
    assert!(!is_whitespace('\u{10ffff}'));
}

#[test]
fn finding_and_copying() {
    let text = chars("ab-cd-e");
    assert_eq!(find_char(&text, '-', 0), 2);
    assert_eq!(find_char(&text, '-', 2), 2);
    assert_eq!(find_char(&text, '-', 3), 5);
    assert_eq!(find_char(&text, '-', 6), 7);
    assert_eq!(find_char(&text, '-', 7), 7);
    assert_eq!(find_char(&text, 'x', 0), 7);
    assert_eq!(copy_range(&text, 3, 5), chars("cd"));
    assert_eq!(copy_range(&text, 3, 3), chars(""));
    assert_eq!(copy_range(&text, 0, 7), text);
}

#[test]
fn digits_and_their_values() {
    for (value, c) in ('0'..='9').enumerate() {
        assert!(is_digit_char(c));
        assert_eq!(digit_of(c) as usize, value);
        assert_eq!(char_of_digit(value as u8), c);
    }
    for c in ['/', ':', 'a', ' ', '\u{660}', '\u{ff11}'] {
        assert!(!is_digit_char(c));
    }
}

#[test]
fn numbers_are_written_in_decimal() {
    for n in [0usize, 1, 9, 10, 11, 99, 100, 101, 2025, 65535, 1234567890, usize::MAX] {
        let written: String = decimal_of(n).into_iter().collect();
        assert_eq!(written, n.to_string());
        assert_eq!(parse_usize(&decimal_of(n)), Some(n));
    }
    let mut out = chars("n=");
    push_decimal(&mut out, 407);
    assert_eq!(out, chars("n=407"));
}

#[test]
fn unsigned_numerals_agree_with_the_standard_library() {
    for text in [
        "0",
        "7",
        "007",
        "+7",
        "+0",
        "-7",
        "-0",
        "",
        "+",
        "-",
        "++7",
        "+-7",
        "7+",
        " 7",
        "7 ",
        "7_0",
        "0x7",
        "1e3",
        "\u{ff17}",
        "18446744073709551615",
        "18446744073709551616",
        "4294967295",
        "4294967296",
        "000000000000000000000000000001",
        "99999999999999999999999999999",
    ] {
        assert_eq!(parse_usize(&chars(text)), text.parse::<usize>().ok(), "{text:?}");
    }
}

#[test]
fn signed_numerals_agree_with_the_standard_library() {
    for text in [
        "0",
        "7",
        "-7",
        "+7",
        "-0",
        "+0",
        "",
        "+",
        "-",
        "--7",
        "-+7",
        "+-7",
        "7-",
        " -7",
        "-7 ",
        "2147483647",
        "2147483648",
        "+2147483647",
        "+2147483648",
        "-2147483648",
        "-2147483649",
        "-0002147483648",
        "99999999999999999999",
        "-99999999999999999999",
    ] {
        assert_eq!(parse_i32(&chars(text)), text.parse::<i32>().ok(), "{text:?}");
    }
}
