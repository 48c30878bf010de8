//! Header parsing: tag precedence, value extraction, errors, and the
//! order-independence and ignored-lines behaviour.

use rustedr::error::{HeaderField, ParseError};
use rustedr::header::{get_number, parse_header, EDRMetadata};

fn header_of(lines: &[&str]) -> Result<EDRMetadata, ParseError> {
    let mut h: Vec<u8> = Vec::new();
    for line in lines {
        h.extend_from_slice(line.as_bytes());
        h.push(b'\n');
    }
    parse_header(&h)
}

#[test]
fn typical_header_parses() {
    let m = header_of(&[
        "VER=6.3",
        "AD=1",
        "ADCMAX=4095",
        "DT=0.01",
        "YAG=2",
        "YCF=0.5",
        "YZ=-3",
    ])
    .unwrap();
    assert_eq!(m.ad, 1);
    assert_eq!(m.adcmax, 4095);
    assert_eq!(m.dt, b"0.01".to_vec());
    assert_eq!(m.yag, vec![2]);
    assert_eq!(m.ycf, vec![b"0.5".to_vec()]);
    assert_eq!(m.yz, vec![-3]);
}

#[test]
fn adcmax_not_shadowed_by_ad() {
    // ADCMAX must reach its own field even though AD is a prefix of it.
    let m = header_of(&["ADCMAX=255"]).unwrap();
    assert_eq!(m.adcmax, 255);
    assert_eq!(m.ad, 0);
}

#[test]
fn missing_fields_keep_defaults() {
    let m = header_of(&["something else entirely"]).unwrap();
    assert_eq!(m.ad, 0);
    assert_eq!(m.adcmax, 0);
    assert_eq!(m.dt, Vec::<u8>::new());
    assert!(m.yag.is_empty());
    assert!(m.ycf.is_empty());
    assert!(m.yz.is_empty());
}

#[test]
fn tag_line_order_independent() {
    let a = header_of(&["AD=1", "ADCMAX=255", "DT=0.5", "YZ=7", "YAG=2", "YCF=1.5"]).unwrap();
    let b = header_of(&["YCF=1.5", "YZ=7", "DT=0.5", "YAG=2", "ADCMAX=255", "AD=1"]).unwrap();
    assert_eq!(a, b);
}

#[test]
fn channel_entries_keep_their_order() {
    let m = header_of(&["YZ=1", "YAG=5", "YZ=2", "YAG=6", "YZ=3"]).unwrap();
    assert_eq!(m.yz, vec![1, 2, 3]);
    assert_eq!(m.yag, vec![5, 6]);
}

#[test]
fn unrecognized_lines_ignored() {
    let plain = header_of(&["AD=1", "YZ=4"]).unwrap();
    let noisy = header_of(&["CHANNELS=2", "AD=1", "TU=ms", "", "YZ=4", "garbage"]).unwrap();
    assert_eq!(plain, noisy);
}

#[test]
fn crlf_line_endings_accepted() {
    let mut h: Vec<u8> = Vec::new();
    h.extend_from_slice(b"AD=3\r\nYZ=1\r\n");
    let m = parse_header(&h).unwrap();
    assert_eq!(m.ad, 3);
    assert_eq!(m.yz, vec![1]);
}

#[test]
fn value_is_text_after_last_equals() {
    let m = header_of(&["YZ=junk=42"]).unwrap();
    assert_eq!(m.yz, vec![42]);
}

#[test]
fn bad_resolution_value() {
    assert_eq!(
        header_of(&["AD=abc"]).unwrap_err(),
        ParseError::FieldError(HeaderField::Resolution)
    );
}

#[test]
fn bad_adcmax_value() {
    assert_eq!(
        header_of(&["ADCMAX=9x"]).unwrap_err(),
        ParseError::FieldError(HeaderField::AdcMax)
    );
}

#[test]
fn bad_sample_interval_value() {
    assert_eq!(
        header_of(&["DT=soon"]).unwrap_err(),
        ParseError::FieldError(HeaderField::SampleInterval)
    );
}

#[test]
fn bad_gain_value() {
    assert_eq!(
        header_of(&["YAG="]).unwrap_err(),
        ParseError::FieldError(HeaderField::Gain)
    );
}

#[test]
fn bad_calibration_factor_value() {
    assert_eq!(
        header_of(&["YCF=1.2.3"]).unwrap_err(),
        ParseError::FieldError(HeaderField::CalibrationFactor)
    );
}

#[test]
fn bad_zero_offset_value() {
    assert_eq!(
        header_of(&["YZ=++1"]).unwrap_err(),
        ParseError::FieldError(HeaderField::ZeroOffset)
    );
}

#[test]
fn integer_value_out_of_range_is_field_error() {
    assert_eq!(
        header_of(&["AD=2147483648"]).unwrap_err(),
        ParseError::FieldError(HeaderField::Resolution)
    );
    assert_eq!(header_of(&["AD=2147483647"]).unwrap().ad, 2147483647);
    assert_eq!(header_of(&["AD=-2147483648"]).unwrap().ad, -2147483648);
}

#[test]
fn tag_without_equals_fails() {
    assert_eq!(
        header_of(&["ADCMAX"]).unwrap_err(),
        ParseError::HeaderTagNotFound
    );
    assert_eq!(header_of(&["AD"]).unwrap_err(), ParseError::HeaderTagNotFound);
}

#[test]
fn get_number_takes_text_after_last_equals() {
    assert_eq!(get_number(b"YZ=42").unwrap(), b"42".to_vec());
    assert_eq!(get_number(b"A=1=2").unwrap(), b"2".to_vec());
    assert_eq!(get_number(b"DT=").unwrap(), Vec::<u8>::new());
}

#[test]
fn first_failing_line_decides_the_error() {
    assert_eq!(
        header_of(&["AD=abc", "YZ"]).unwrap_err(),
        ParseError::FieldError(HeaderField::Resolution)
    );
    assert_eq!(
        header_of(&["YZ", "AD=abc"]).unwrap_err(),
        ParseError::HeaderTagNotFound
    );
}

#[test]
fn final_line_without_newline_still_counts() {
    let m = parse_header(b"AD=5").unwrap();
    assert_eq!(m.ad, 5);
}

#[test]
fn get_number_without_equals_fails() {
    assert_eq!(get_number(b"YZ42").unwrap_err(), ParseError::HeaderTagNotFound);
}
