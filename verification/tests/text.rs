//! Texts as sequences of characters.
use wn_steam_client::text::{
    decimal_text, lines_of, lower_text, parse_decimal_text, split_text, strip_suffix_text, trim_text,
};

#[test]
fn lines_are_those_of_the_standard_library() {
    for text in ["", "a", "a\n", "a\r\nb", "a\n\nb\n", "\n", "\r\n", "a\rb\n", "a\r"] {
        let expected: Vec<String> = text.lines().map(|line| line.to_string()).collect();
        assert_eq!(lines_of(text), expected, "{text:?}");
    }
}

#[test]
fn pieces_are_those_of_the_standard_library() {
    for text in ["", "a", "a/b", "/a//b/", "\u{e9}/\u{20ac}"] {
        let expected: Vec<String> = text.split('/').map(|piece| piece.to_string()).collect();
        assert_eq!(split_text(text, '/'), expected);
    }
}

#[test]
fn numbers_are_those_of_the_standard_library() {
    for value in [0, 9, 10, 4294967295, u64::MAX] {
        assert_eq!(decimal_text(value), value.to_string());
        assert_eq!(parse_decimal_text(&value.to_string(), u64::MAX), Some(value));
    }
    for text in ["", "+", "+5", "-5", "007", "1x", " 1", "18446744073709551616", "\u{661}"] {
        assert_eq!(parse_decimal_text(text, u64::MAX), text.parse::<u64>().ok(), "{text:?}");
    }
    for text in ["4294967295", "4294967296", "+4294967295"] {
        let expected = text.parse::<u32>().ok().map(u64::from);
        assert_eq!(parse_decimal_text(text, u32::MAX as u64), expected);
    }
}

#[test]
fn trimming_and_folding_are_those_of_the_standard_library() {
    for text in ["", "  a b\t", "\u{a0}x\u{3000}", "\u{2003}", "\u{85}y\u{200b}", "\u{1680}z\u{205f}"] {
        assert_eq!(trim_text(text), text.trim(), "{text:?}");
    }
    for text in ["", "ABCxyz09", "\u{c4}Z", "[A]"] {
        assert_eq!(lower_text(text), text.to_ascii_lowercase());
    }
}

#[test]
fn suffixes_are_stripped_once() {
    assert_eq!(strip_suffix_text("a.x.x", ".x"), Some("a.x".to_string()));
    assert_eq!(strip_suffix_text("a.y", ".x"), None);
    assert_eq!(strip_suffix_text("x", ".x"), None);
    assert_eq!(strip_suffix_text("ab", ""), Some("ab".to_string()));
}
