use ziggurat::text::{chars_of, decimal_string, is_whitespace, split_words, trim};

#[test]
fn white_space_is_told_apart() {
    assert!(is_whitespace(" "));
    assert!(is_whitespace("\n"));
    assert!(is_whitespace("\u{3000}"));
    assert!(!is_whitespace("a"));
    assert!(is_whitespace(""));
    assert!(is_whitespace(" \t\r\n"));
    assert!(!is_whitespace("  x "));
}

#[test]
fn words_are_split_at_white_space() {
    assert_eq!(split_words(""), Vec::<String>::new());
    assert_eq!(split_words("   "), Vec::<String>::new());
    assert_eq!(split_words("one"), vec!["one"]);
    assert_eq!(split_words("  one\ttwo\n\nthree  "), vec!["one", "two", "three"]);
    assert_eq!(split_words("gr\u{fc}n \u{3000}bl\u{e4}u"), vec!["gr\u{fc}n", "bl\u{e4}u"]);
    let text = " a  quick brown\tfox ";
    let expected: Vec<&str> = text.split_whitespace().collect();
    assert_eq!(split_words(text), expected);
}

#[test]
fn numbers_are_written_in_decimal() {
    assert_eq!(decimal_string(0), "0");
    assert_eq!(decimal_string(7), "7");
    assert_eq!(decimal_string(10), "10");
    assert_eq!(decimal_string(4096), "4096");
    assert_eq!(decimal_string(usize::MAX), usize::MAX.to_string());
}

#[test]
fn characters_are_taken_one_by_one() {
    assert_eq!(chars_of("a\u{e9}z"), vec!['a', '\u{e9}', 'z']);
}

#[test]
fn white_space_is_taken_off_both_ends() {
    for text in ["", "   ", "a", "  a b  ", "\n\tin.pdf\r\n", "x \u{3000}", "\u{a0}y z"] {
        assert_eq!(trim(text), text.trim());
    }
    assert_eq!(trim("  a b  "), "a b");
}

fn listed_as_white_space(c: char) -> bool {
    matches!(
        c as u32,
        0x09..=0x0d | 0x20 | 0x85 | 0xa0 | 0x1680 | 0x2000..=0x200a | 0x2028 | 0x2029 | 0x202f
            | 0x205f | 0x3000
    )
}

#[test]
fn white_space_is_what_is_listed() {
    let mut buffer = [0u8; 4];
    let mut white = 0;
    for code in 0..=0x10ffffu32 {
        if let Some(c) = char::from_u32(code) {
            let text: &str = c.encode_utf8(&mut buffer);
            assert_eq!(is_whitespace(text), listed_as_white_space(c));
            if listed_as_white_space(c) {
                white += 1;
            }
        }
    }
    assert_eq!(white, 25);
}

#[test]
fn a_blank_parts_words() {
    assert_eq!(split_words("one two"), vec!["one", "two"]);
    assert_eq!(split_words("one"), vec!["one"]);
}
