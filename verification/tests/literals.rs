use lucid_runtime::literal::{is_white_space_char, parse_bigint_literal};
use num_bigint::BigInt;

#[test]
fn decimal_literals_with_separators_and_space() {
    assert_eq!(parse_bigint_literal(" 1_000 "), Some(BigInt::from(1000)));
    assert_eq!(parse_bigint_literal("+42"), Some(BigInt::from(42)));
    assert_eq!(parse_bigint_literal("-17"), Some(BigInt::from(-17)));
    assert_eq!(
        parse_bigint_literal("99999999999999999999999"),
        Some(BigInt::parse_bytes(b"99999999999999999999999", 10).unwrap())
    );
}

#[test]
fn radix_prefixes() {
    assert_eq!(parse_bigint_literal("0xff"), Some(BigInt::from(255)));
    assert_eq!(parse_bigint_literal("0XFF"), Some(BigInt::from(255)));
    assert_eq!(parse_bigint_literal("0o17"), Some(BigInt::from(15)));
    assert_eq!(parse_bigint_literal("-0b101"), Some(BigInt::from(-5)));
    assert_eq!(parse_bigint_literal("0b1111_0000"), Some(BigInt::from(240)));
}

#[test]
fn text_that_spells_no_integer() {
    assert_eq!(parse_bigint_literal("12ab"), None);
    assert_eq!(parse_bigint_literal("0b102"), None);
    assert_eq!(parse_bigint_literal("hello"), None);
}

#[test]
fn white_space_is_the_unicode_white_space_set() {
    for c in [' ', '\t', '\n', '\u{b}', '\u{c}', '\r', '\u{85}', '\u{a0}', '\u{1680}', '\u{2000}', '\u{200a}', '\u{2028}', '\u{2029}', '\u{202f}', '\u{205f}', '\u{3000}'] {
        assert!(is_white_space_char(c), "{:?}", c);
        assert!(c.is_whitespace());
    }
    for c in ['a', '_', '\u{200b}', '\u{feff}', '0'] {
        assert!(!is_white_space_char(c), "{:?}", c);
        assert_eq!(c.is_whitespace(), false);
    }
}

#[test]
fn literals_are_trimmed_before_parsing() {
    assert_eq!(parse_bigint_literal("\u{3000} 12_345 \n"), Some(num_bigint::BigInt::from(12345)));
    assert_eq!(parse_bigint_literal(" \t "), None);
}
