use tappio::text::{is_whitespace, parse_i32};

fn parse(s: &str) -> Option<i32> {
    let cs: Vec<char> = s.chars().collect();
    parse_i32(&cs, 0, cs.len())
}

#[test]
fn numbers_parse_as_from_str_parses_them() {
    for s in ["0", "42", "-42", "+7", "007", "2147483647", "-2147483648", "", "-", "+", "1-2", "--1", "2147483648", "-2147483649", "99999999999999999999", "12a", " 1"] {
        assert_eq!(parse(s), s.parse::<i32>().ok(), "{:?}", s);
    }
}

#[test]
fn a_range_of_a_text_parses() {
    let cs: Vec<char> = "ab123cd".chars().collect();
    assert_eq!(parse_i32(&cs, 2, 5), Some(123));
    assert_eq!(parse_i32(&cs, 2, 6), None);
}

#[test]
fn white_space_is_unicode_white_space() {
    for c in [' ', '\t', '\n', '\r', '\u{b}', '\u{c}', '\u{85}', '\u{a0}', '\u{1680}', '\u{2000}', '\u{200a}', '\u{2028}', '\u{2029}', '\u{202f}', '\u{205f}', '\u{3000}', 'a', '0', '\u{200b}', '€'] {
        assert_eq!(is_whitespace(c), c.is_whitespace(), "{:?}", c);
    }
}
