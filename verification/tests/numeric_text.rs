//! The numeric-text recognizers against Rust's own parsers.

use rustedr::numtext::{check_float_text, parse_i32};
use rustedr::samples::parse_contents;
use rustedr::header::EDRMetadata;

#[test]
fn parse_i32_plain_values() {
    assert_eq!(parse_i32(b"0"), Some(0));
    assert_eq!(parse_i32(b"42"), Some(42));
    assert_eq!(parse_i32(b"+7"), Some(7));
    assert_eq!(parse_i32(b"-15"), Some(-15));
    assert_eq!(parse_i32(b"007"), Some(7));
}

#[test]
fn parse_i32_range_bounds() {
    assert_eq!(parse_i32(b"2147483647"), Some(i32::MAX));
    assert_eq!(parse_i32(b"2147483648"), None);
    assert_eq!(parse_i32(b"-2147483648"), Some(i32::MIN));
    assert_eq!(parse_i32(b"-2147483649"), None);
    assert_eq!(parse_i32(b"99999999999999999999"), None);
}

#[test]
fn parse_i32_rejects_malformed_text() {
    assert_eq!(parse_i32(b""), None);
    assert_eq!(parse_i32(b"+"), None);
    assert_eq!(parse_i32(b"-"), None);
    assert_eq!(parse_i32(b" 4"), None);
    assert_eq!(parse_i32(b"4 "), None);
    assert_eq!(parse_i32(b"1.0"), None);
    assert_eq!(parse_i32(b"++1"), None);
}

#[test]
fn parse_i32_agrees_with_str_parse() {
    let cases: &[&str] = &[
        "", "0", "-0", "+12", "12345", "-98765", "2147483647", "2147483648", "-2147483648",
        "-2147483649", "1e3", "0x10", " 1", "1 ", "--2", "007",
    ];
    for s in cases {
        assert_eq!(
            parse_i32(s.as_bytes()),
            s.parse::<i32>().ok(),
            "disagreement on {:?}",
            s
        );
    }
}

#[test]
fn float_text_accepts_the_grammar() {
    for s in ["1", "1.5", "1.", ".5", "-.5", "+3.25", "1e3", "1.5E-7", "2e+10",
        "inf", "INF", "-inf", "infinity", "Infinity", "nan", "NaN", "-NAN",
        "1e999999999", "0.000001"] {
        assert!(check_float_text(s.as_bytes()), "should accept {:?}", s);
    }
}

#[test]
fn float_text_rejects_malformed() {
    for s in ["", ".", "+", "-", "e5", "1e", "1e+", "1.2.3", "--1", "1..2",
        "in", "infin", "nana", "1 ", " 1", "0x1", "1,5"] {
        assert!(!check_float_text(s.as_bytes()), "should reject {:?}", s);
    }
}

#[test]
fn float_text_agrees_with_str_parse() {
    let cases: &[&str] = &[
        "", "1", "1.5", ".", ".5", "5.", "+", "-", "inf", "-infinity", "NAN", "nan",
        "1e5", "1E-5", "1e", "e1", "1.2.3", "3.14159", "2.5e300", "1_000", "abc",
    ];
    for s in cases {
        assert_eq!(
            check_float_text(s.as_bytes()),
            s.parse::<f32>().is_ok(),
            "disagreement on {:?}",
            s
        );
    }
}

#[test]
fn deinterleave_two_channels() {
    // Raw samples [10, 20, 30, 40] over two channels, before calibration.
    let metadata = EDRMetadata {
        ad: 0,
        adcmax: 0,
        dt: Vec::new(),
        yag: vec![1, 1],
        ycf: vec![b"1.0".to_vec(), b"1.0".to_vec()],
        yz: vec![0, 0],
    };
    let bytes = [10u8, 0, 20, 0, 30, 0, 40, 0];
    let channels = parse_contents(&bytes, &metadata).unwrap();
    assert_eq!(channels, vec![vec![10i16, 30], vec![20i16, 40]]);
}

#[test]
fn deinterleave_drops_incomplete_round() {
    // Five samples over two channels: whole rounds only, both channels
    // keep two samples.
    let metadata = EDRMetadata {
        ad: 0,
        adcmax: 0,
        dt: Vec::new(),
        yag: vec![1, 1],
        ycf: vec![b"1.0".to_vec(), b"1.0".to_vec()],
        yz: vec![0, 0],
    };
    let bytes = [1u8, 0, 2, 0, 3, 0, 4, 0, 5, 0];
    let channels = parse_contents(&bytes, &metadata).unwrap();
    assert_eq!(channels, vec![vec![1i16, 3], vec![2i16, 4]]);
}
