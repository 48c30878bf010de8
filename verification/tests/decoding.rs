//! End-to-end decoding behaviour over whole file images.

use rustedr::error::ParseError;
use rustedr::{parse_data, run, transpose, DecodedRecording, HEADER_LEN};

/// A header block of exactly `HEADER_LEN` bytes: the given lines joined by
/// line feeds, padded with spaces.
fn make_header(lines: &[&str]) -> Vec<u8> {
    let mut h: Vec<u8> = Vec::new();
    for line in lines {
        h.extend_from_slice(line.as_bytes());
        h.push(b'\n');
    }
    assert!(h.len() <= HEADER_LEN);
    while h.len() < HEADER_LEN {
        h.push(b' ');
    }
    h
}

fn make_file(lines: &[&str], tail: &[u8]) -> Vec<u8> {
    let mut f = make_header(lines);
    f.extend_from_slice(tail);
    f
}

#[test]
fn header_too_short() {
    let actual_error = parse_data(vec![1, 2, 3, 4]);
    assert!(actual_error.is_err());
    assert_eq!(actual_error.unwrap_err(), ParseError::FileTooShort)
}

#[test]
fn empty_input_too_short() {
    assert_eq!(parse_data(Vec::new()).unwrap_err(), ParseError::FileTooShort);
}

#[test]
fn one_byte_under_header_size_too_short() {
    let data = vec![0u8; HEADER_LEN - 1];
    assert_eq!(parse_data(data).unwrap_err(), ParseError::FileTooShort);
}

#[test]
fn exact_header_size_is_header_only() {
    let data = vec![0u8; HEADER_LEN];
    assert_eq!(parse_data(data).unwrap_err(), ParseError::FileOnlyHeader);
}

#[test]
fn end_to_end_half_scale() {
    // One channel, unit calibration; raw sample 128 out of 256 levels.
    let file = make_file(
        &["AD=1", "ADCMAX=255", "YCF=1.0", "YAG=1", "YZ=0"],
        &[128, 0],
    );
    let rec: DecodedRecording = run(file).unwrap();
    assert_eq!(rec.metadata.ad, 1);
    assert_eq!(rec.metadata.adcmax, 255);
    assert_eq!(rec.metadata.yag, vec![1]);
    assert_eq!(rec.metadata.yz, vec![0]);
    assert_eq!(rec.metadata.ycf, vec![b"1.0".to_vec()]);
    assert_eq!(rec.channels, vec![vec![128i16]]);
    // The calibration transform the caller applies to the raw sample.
    let raw = rec.channels[0][0] as f32;
    let ycf: f32 = String::from_utf8(rec.metadata.ycf[0].clone())
        .unwrap()
        .parse()
        .unwrap();
    let physical = ((raw - rec.metadata.yz[0] as f32) * rec.metadata.ad as f32)
        / (ycf * rec.metadata.yag[0] as f32 * (rec.metadata.adcmax as f32 + 1.0));
    assert_eq!(physical, 0.5);
}

#[test]
fn negative_sample_decodes_little_endian() {
    // 0xFFFF is -1 as a signed 16-bit value.
    let file = make_file(&["YZ=0", "YAG=1", "YCF=1.0"], &[0xFF, 0xFF, 1, 0]);
    let rec = run(file).unwrap();
    assert_eq!(rec.channels, vec![vec![-1i16, 1i16]]);
}

#[test]
fn odd_trailing_byte_discarded() {
    let file = make_file(&["YZ=0", "YAG=1", "YCF=1.0"], &[10, 0, 99]);
    let rec = run(file).unwrap();
    assert_eq!(rec.channels, vec![vec![10i16]]);
}

#[test]
fn no_channels_yields_empty_dataset() {
    // No YZ lines: channel count zero, but samples present.
    let file = make_file(&["AD=1", "ADCMAX=255"], &[10, 0, 20, 0]);
    let rec = run(file).unwrap();
    assert!(rec.channels.is_empty());
}

#[test]
fn mismatched_calibration_arrays_refused() {
    // Two channels declared by YZ, but only one gain entry.
    let file = make_file(&["YZ=0", "YZ=0", "YAG=1", "YCF=1.0", "YCF=1.0"], &[1, 0, 2, 0]);
    assert_eq!(run(file).unwrap_err(), ParseError::ChannelArrayMismatch);
}

#[test]
fn two_channels_deinterleaved_end_to_end() {
    let file = make_file(
        &["YZ=0", "YZ=0", "YAG=1", "YAG=1", "YCF=1.0", "YCF=1.0"],
        &[10, 0, 20, 0, 30, 0, 40, 0],
    );
    let rec = run(file).unwrap();
    assert_eq!(rec.channels, vec![vec![10i16, 30], vec![20i16, 40]]);
}

#[test]
fn transpose_rows_and_columns() {
    let v = vec![vec![1i16, 2], vec![3i16, 4], vec![5i16, 6]];
    let t = transpose(v);
    assert_eq!(t, vec![vec![1i16, 3, 5], vec![2i16, 4, 6]]);
}

#[test]
fn transpose_after_scaling_matches_table_layout() {
    let cols = vec![vec![0.5f32, 1.5], vec![-0.5f32, 2.0]];
    let rows = transpose(cols);
    assert_eq!(rows, vec![vec![0.5f32, -0.5], vec![1.5f32, 2.0]]);
}
