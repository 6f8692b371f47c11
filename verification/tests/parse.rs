use sudachi::dic::build::error::BuildFailure;
use sudachi::dic::build::parse::unescape;

#[test]
fn parse_decode_plain() {
    assert_eq!(unescape("").unwrap(), "");
    assert_eq!(unescape("a").unwrap(), "a");
    assert_eq!(unescape("あ").unwrap(), "あ");
}

#[test]
fn parse_decode_escape_1() {
    assert_eq!(unescape("\\u0020").unwrap(), "\u{20}");
    assert_eq!(unescape("\\u{20}").unwrap(), "\u{20}");
    assert_eq!(unescape("\\u{1f49e}").unwrap(), "💞");
}

#[test]
fn parse_decode_escape_2() {
    assert_eq!(unescape("\\u020f").unwrap(), "\u{20f}");
    assert_eq!(unescape("\\u{20}f").unwrap(), "\u{20}f");
}

#[test]
fn parse_decode_escape_3() {
    assert_eq!(unescape("f\\u0020").unwrap(), "f\u{20}");
    assert_eq!(unescape("f\\u{20}").unwrap(), "f\u{20}");
}

#[test]
fn parse_decode_escape_4() {
    assert_eq!(unescape("\\u100056").unwrap(), "\u{1000}56");
}

#[test]
fn parse_decode_escape_ported() {
    assert_eq!(unescape("a\\u002cc").unwrap(), "a,c");
    assert_eq!(unescape("a\\u{2c}c").unwrap(), "a,c");
}

#[test]
fn parse_decode_escape_fail() {
    assert_eq!(unescape("\\u{10FFFF}").unwrap(), "\u{10FFFF}");
    assert!(matches!(unescape("\\u{110000}"), Err(_)));
    assert!(matches!(unescape("\\u{FFFFFF}"), Err(_)));
}

#[test]
fn unescape_reports_the_digits_of_a_bad_escape() {
    match unescape("x\\u{d800}y") {
        Err(BuildFailure::InvalidCharLiteral(d)) => assert_eq!(d, "d800"),
        other => panic!("unexpected {:?}", other),
    }
}

#[test]
fn unescape_leaves_incomplete_escapes_alone() {
    assert_eq!(unescape("\\u12").unwrap(), "\\u12");
    assert_eq!(unescape("\\u{}").unwrap(), "\\u{}");
    assert_eq!(unescape("\\u{1234567}").unwrap(), "\\u{1234567}");
    assert_eq!(unescape("\\U0041").unwrap(), "\\U0041");
    assert_eq!(unescape("\\\\u0041").unwrap(), "\\A");
}

#[test]
fn unescape_rejects_too_long_text() {
    let long = "x".repeat(32768);
    match unescape(&long) {
        Err(BuildFailure::InvalidSize { actual, expected }) => {
            assert_eq!(actual, 32768);
            assert_eq!(expected, 32767);
        }
        other => panic!("unexpected {:?}", other.is_ok()),
    }
    assert_eq!(unescape(&"𠮟".repeat(16383)).unwrap().chars().count(), 16383);
    assert!(unescape(&"𠮟".repeat(16384)).is_err());
}
