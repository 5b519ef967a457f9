use keyed_stats::numeral::{parse_tenths, render_tenths};
use keyed_stats::record::{parse_line, split_line, LineFault};

#[test]
fn parses_plain_values() {
    assert_eq!(parse_tenths(b"12.0"), Some(120));
    assert_eq!(parse_tenths(b"8.5"), Some(85));
    assert_eq!(parse_tenths(b"0.0"), Some(0));
    assert_eq!(parse_tenths(b"999.9"), Some(9999));
}

#[test]
fn parses_signed_values() {
    assert_eq!(parse_tenths(b"-3.2"), Some(-32));
    assert_eq!(parse_tenths(b"-2.0"), Some(-20));
    assert_eq!(parse_tenths(b"-999.9"), Some(-9999));
    assert_eq!(parse_tenths(b"-0.0"), Some(0));
}

#[test]
fn rejects_extra_precision() {
    // A value carrying more than one fractional digit is out of the
    // input contract and is rejected rather than silently rounded.
    assert_eq!(parse_tenths(b"2.449999"), None);
    assert_eq!(parse_tenths(b"1.25"), None);
}

#[test]
fn rejects_malformed_values() {
    assert_eq!(parse_tenths(b""), None);
    assert_eq!(parse_tenths(b"-"), None);
    assert_eq!(parse_tenths(b"abc"), None);
    assert_eq!(parse_tenths(b"12"), None);
    assert_eq!(parse_tenths(b"12."), None);
    assert_eq!(parse_tenths(b".5"), None);
    assert_eq!(parse_tenths(b"1..5"), None);
    assert_eq!(parse_tenths(b"1234.5"), None);
    assert_eq!(parse_tenths(b"1.5 "), None);
    assert_eq!(parse_tenths(b"--1.5"), None);
}

#[test]
fn renders_one_fractional_digit() {
    assert_eq!(render_tenths(120), b"12.0".to_vec());
    assert_eq!(render_tenths(-32), b"-3.2".to_vec());
    assert_eq!(render_tenths(0), b"0.0".to_vec());
    assert_eq!(render_tenths(5), b"0.5".to_vec());
    assert_eq!(render_tenths(9999), b"999.9".to_vec());
    assert_eq!(render_tenths(-9999), b"-999.9".to_vec());
}

#[test]
fn rounding_is_idempotent_on_one_decimal_values() {
    // A value already expressed to one decimal place passes through the
    // parse/render pipeline unchanged.
    let v = parse_tenths(b"-2.0").unwrap();
    assert_eq!(render_tenths(v), b"-2.0".to_vec());
    let v = parse_tenths(b"7.7").unwrap();
    assert_eq!(render_tenths(v), b"7.7".to_vec());
}

#[test]
fn split_line_finds_last_delimiter() {
    let (key, value) = split_line(b"Hamburg;12.0").unwrap();
    assert_eq!(key, b"Hamburg");
    assert_eq!(value, b"12.0");

    // keys never hold the delimiter, but if one did, the split takes
    // the last occurrence, scanning from the end
    let (key, value) = split_line(b"a;b;1.0").unwrap();
    assert_eq!(key, b"a;b");
    assert_eq!(value, b"1.0");

    let (key, value) = split_line(b";0.0").unwrap();
    assert_eq!(key, b"");
    assert_eq!(value, b"0.0");
}

#[test]
fn split_line_without_delimiter() {
    assert!(split_line(b"Hamburg 12.0").is_none());
    assert!(split_line(b"").is_none());
}

#[test]
fn parse_line_gives_key_and_tenths() {
    let (key, v) = parse_line(b"Berlin;8.5").unwrap();
    assert_eq!(key, b"Berlin".to_vec());
    assert_eq!(v, 85);
}

#[test]
fn parse_line_faults() {
    assert_eq!(parse_line(b"Berlin 8.5").unwrap_err(), LineFault::MissingDelimiter);
    assert_eq!(parse_line(b"Berlin;whoops").unwrap_err(), LineFault::BadNumeral);
    assert_eq!(parse_line(b"").unwrap_err(), LineFault::MissingDelimiter);
    assert_eq!(parse_line(b"Berlin;2.449999").unwrap_err(), LineFault::BadNumeral);
}
