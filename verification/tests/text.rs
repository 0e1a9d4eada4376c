use residuality::text::{
    alphanumeric, blank, id_chars_are_valid, parse_u32, push_decimal, text_less, trimmed,
};

#[test]
fn trim_removes_unicode_white_space_at_both_ends() {
    assert_eq!(trimmed("  a b \t\n"), "a b");
    assert_eq!(trimmed("\u{3000}x\u{a0}"), "x");
    assert_eq!(trimmed("   "), "");
    assert_eq!(trimmed(""), "");
}

#[test]
fn blank_means_only_white_space() {
    assert!(blank(""));
    assert!(blank(" \t\u{2003}"));
    assert!(!blank(" x "));
}

#[test]
fn ids_allow_letters_digits_and_underscore() {
    assert!(id_chars_are_valid("auth_service2"));
    assert!(id_chars_are_valid("größe"));
    assert!(id_chars_are_valid(""));
    assert!(!id_chars_are_valid("i-d"));
    assert!(!id_chars_are_valid("c1!!!"));
    assert!(!id_chars_are_valid("a b"));
}

#[test]
fn alphanumeric_follows_unicode() {
    assert!(alphanumeric('a'));
    assert!(alphanumeric('Z'));
    assert!(alphanumeric('7'));
    assert!(alphanumeric('ß'));
    assert!(alphanumeric('٣'));
    assert!(!alphanumeric('_'));
    assert!(!alphanumeric('-'));
}

#[test]
fn parse_reads_unsigned_decimals() {
    assert_eq!(parse_u32("0"), Some(0));
    assert_eq!(parse_u32("42"), Some(42));
    assert_eq!(parse_u32("+7"), Some(7));
    assert_eq!(parse_u32("007"), Some(7));
    assert_eq!(parse_u32("4294967295"), Some(u32::MAX));
    assert_eq!(parse_u32("4294967296"), None);
    assert_eq!(parse_u32("99999999999999999999"), None);
    assert_eq!(parse_u32(""), None);
    assert_eq!(parse_u32("+"), None);
    assert_eq!(parse_u32("-1"), None);
    assert_eq!(parse_u32("1a"), None);
    assert_eq!(parse_u32(" 1"), None);
}

#[test]
fn parse_agrees_with_std() {
    for s in ["", "+", "+0", "12", "-3", "x", "4294967295", "4294967296", "++1", "0x10"] {
        assert_eq!(parse_u32(s), s.parse::<u32>().ok(), "{s}");
    }
}

#[test]
fn decimal_is_written_without_leading_zeros() {
    let mut s = String::from("n=");
    push_decimal(&mut s, 0);
    assert_eq!(s, "n=0");
    let mut s = String::new();
    push_decimal(&mut s, 1234509);
    assert_eq!(s, "1234509");
}

#[test]
fn text_order_is_that_of_string() {
    let words = ["", "a", "ab", "b", "B", "é", "z", "aa", "a\u{0}"];
    for x in words {
        for y in words {
            assert_eq!(text_less(x, y), x < y, "{x:?} {y:?}");
        }
    }
}
