use guild_steward::text::{decimal_text, from_chars, is_whitespace, parse_u64, to_chars, trim};

#[test]
fn trim_removes_white_ends() {
    assert_eq!(trim("  a b  "), "a b");
    assert_eq!(trim("\t\r\nx\u{a0}\u{3000}"), "x");
    assert_eq!(trim(""), "");
    assert_eq!(trim(" \n\t "), "");
    assert_eq!(trim("x"), "x");
}

#[test]
fn trim_agrees_with_std() {
    for s in ["", " ", "a", " a", "a ", "\u{2003}a\u{2028}", "\u{85}\u{1680}b\u{202f}\u{205f}", "\u{200b}a", "\u{feff}a "] {
        assert_eq!(trim(s), s.trim());
    }
}

#[test]
fn whitespace_is_the_unicode_property() {
    for code in 0u32..0x3100 {
        if let Some(c) = char::from_u32(code) {
            assert_eq!(is_whitespace(c), c.is_whitespace());
        }
    }
    assert!(!is_whitespace('\u{1F600}'));
}

#[test]
fn chars_go_there_and_back() {
    let v = to_chars("h\u{e9}llo");
    assert_eq!(v, vec!['h', '\u{e9}', 'l', 'l', 'o']);
    assert_eq!(from_chars(&v, 1, 4), "\u{e9}ll");
    assert_eq!(from_chars(&v, 2, 2), "");
}

#[test]
fn decimal_text_writes_digits() {
    assert_eq!(decimal_text(0), "0");
    assert_eq!(decimal_text(7), "7");
    assert_eq!(decimal_text(10), "10");
    assert_eq!(decimal_text(1203), "1203");
    assert_eq!(decimal_text(u64::MAX), "18446744073709551615");
}

#[test]
fn parse_u64_reads_digits() {
    assert_eq!(parse_u64("0"), Some(0));
    assert_eq!(parse_u64("42"), Some(42));
    assert_eq!(parse_u64("+42"), Some(42));
    assert_eq!(parse_u64("007"), Some(7));
    assert_eq!(parse_u64("18446744073709551615"), Some(u64::MAX));
}

#[test]
fn parse_u64_rejects_the_rest() {
    assert_eq!(parse_u64(""), None);
    assert_eq!(parse_u64("+"), None);
    assert_eq!(parse_u64("-1"), None);
    assert_eq!(parse_u64("++1"), None);
    assert_eq!(parse_u64(" 1"), None);
    assert_eq!(parse_u64("1 "), None);
    assert_eq!(parse_u64("1_000"), None);
    assert_eq!(parse_u64("12a"), None);
    assert_eq!(parse_u64("18446744073709551616"), None);
    assert_eq!(parse_u64("99999999999999999999999"), None);
    assert_eq!(parse_u64("\u{661}"), None);
}

#[test]
fn parse_u64_agrees_with_std() {
    for s in ["", "+", "0", "+0", "0009", "123", "18446744073709551615", "18446744073709551616", "1844674407370955161", "184467440737095516150", "x", "1x", "-0"] {
        assert_eq!(parse_u64(s), s.parse::<u64>().ok());
    }
}

#[test]
fn parse_u64_reads_back_decimal_text() {
    for n in [0u64, 1, 9, 10, 99, 100, 4711, u64::MAX - 1, u64::MAX] {
        assert_eq!(parse_u64(&decimal_text(n)), Some(n));
    }
}
