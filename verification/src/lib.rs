//! Decoder for EDR recordings: a fixed-size ASCII header followed by an
//! interleaved stream of little-endian 16-bit samples.
//!
//! The library turns a raw byte buffer into typed metadata and per-channel
//! raw sample sequences. Applying the floating-point calibration transform
//! and all file handling are left to the caller.

pub mod error;
pub mod header;
pub mod laws;
pub mod numtext;
pub mod samples;

use vstd::prelude::*;

verus! {

use crate::error::ParseError;
use crate::header::{EDRMetadata, MetadataView, header_result, parse_header};
use crate::samples::{arrays_consistent, channels_of, parse_contents, raw_samples};

/// Number of bytes of the fixed-size ASCII header at the front of a file.
pub const HEADER_LEN: usize = 2048;

/// One decoded recording: its typed header metadata and the raw samples,
/// one sequence per channel in header declaration order. The floating-point
/// calibration transform is the caller's step, so the samples stay raw.
#[derive(Debug, PartialEq)]
pub struct DecodedRecording {
    pub metadata: EDRMetadata,
    pub channels: Vec<Vec<i16>>,
}

/// Rejects a buffer that cannot hold both a header and sample data.
pub fn classify_length(len: usize) -> (r: Result<(), ParseError>)
    ensures
        len < HEADER_LEN ==> r == Err::<(), ParseError>(ParseError::FileTooShort),
        len == HEADER_LEN ==> r == Err::<(), ParseError>(ParseError::FileOnlyHeader),
        len > HEADER_LEN ==> r == Ok::<(), ParseError>(()),
{
    if len < HEADER_LEN {
        Err(ParseError::FileTooShort)
    } else if len == HEADER_LEN {
        Err(ParseError::FileOnlyHeader)
    } else {
        Ok(())
    }
}

/// What decoding a whole file image must yield.
///
/// A short buffer fails as too short, one of exactly the header size as
/// header-only. Otherwise the first header bytes parse to the metadata (or
/// their first failing line's error comes back), and the tail de-interleaves
/// into `yz`-many channels — unless the per-channel arrays disagree in
/// length, which fails as a channel-array mismatch. Decoding succeeds if and
/// only if none of these failures occurs.
pub open spec fn decodes_to(d: Seq<u8>, r: Result<DecodedRecording, ParseError>) -> bool {
    if d.len() < HEADER_LEN {
        r == Err::<DecodedRecording, ParseError>(ParseError::FileTooShort)
    } else if d.len() == HEADER_LEN {
        r == Err::<DecodedRecording, ParseError>(ParseError::FileOnlyHeader)
    } else {
        match r {
            Ok(rec) => {
                &&& header_result(d.take(HEADER_LEN as int)) == Ok::<MetadataView, ParseError>(
                    rec.metadata@,
                )
                &&& rec.metadata@.yz.len() > 0 ==> arrays_consistent(rec.metadata@)
                &&& rec.channels.deep_view() == channels_of(
                    raw_samples(d.skip(HEADER_LEN as int)),
                    rec.metadata@.yz.len(),
                )
            },
            Err(e) => match header_result(d.take(HEADER_LEN as int)) {
                Result::Err(he) => e == he,
                Result::Ok(mv) => {
                    &&& e == ParseError::ChannelArrayMismatch
                    &&& !arrays_consistent(mv)
                    &&& mv.yz.len() > 0
                },
            },
        }
    }
}

/// Decodes a file image: checks the size, parses the header, decodes the
/// sample tail.
pub fn parse_data(data: Vec<u8>) -> (r: Result<DecodedRecording, ParseError>)
    ensures
        decodes_to(data@, r),
{
    let n = data.len();
    match classify_length(n) {
        Err(e) => {
            return Err(e);
        },
        Ok(()) => {},
    }
    let head = vstd::slice::slice_subrange(data.as_slice(), 0, HEADER_LEN);
    assert(head@ =~= data@.take(HEADER_LEN as int));
    let metadata = match parse_header(head) {
        Err(e) => {
            return Err(e);
        },
        Ok(m) => m,
    };
    let tail = vstd::slice::slice_subrange(data.as_slice(), HEADER_LEN, n);
    assert(tail@ =~= data@.skip(HEADER_LEN as int));
    let channels = match parse_contents(tail, &metadata) {
        Err(e) => {
            return Err(e);
        },
        Ok(c) => c,
    };
    Ok(DecodedRecording { metadata, channels })
}

/// Decodes one EDR file image into metadata and per-channel raw samples.
///
/// This is the whole pipeline over an in-memory buffer; reading the file
/// and writing the calibrated table out are the caller's side.
pub fn run(data: Vec<u8>) -> (r: Result<DecodedRecording, ParseError>)
    ensures
        decodes_to(data@, r),
{
    parse_data(data)
}

/// Turns a list of equally long columns into the list of its rows.
pub fn transpose<T: Copy>(v: Vec<Vec<T>>) -> (r: Vec<Vec<T>>)
    requires
        v@.len() > 0,
        forall|j: int| 0 <= j < v@.len() ==> #[trigger] v@[j]@.len() == v@[0]@.len(),
    ensures
        r@.len() == v@[0]@.len(),
        forall|i: int| 0 <= i < r@.len() ==> #[trigger] r@[i]@.len() == v@.len(),
        forall|i: int, j: int|
            0 <= i < r@.len() && 0 <= j < v@.len() ==> #[trigger] r@[i]@[j] == v@[j]@[i],
{
    let rows = v[0].len();
    let cols = v.len();
    let mut out: Vec<Vec<T>> = Vec::new();
    let mut i: usize = 0;
    while i < rows
        invariant
            i <= rows,
            cols == v@.len() > 0,
            rows == v@[0]@.len(),
            forall|j: int| 0 <= j < v@.len() ==> #[trigger] v@[j]@.len() == v@[0]@.len(),
            out@.len() == i,
            forall|u: int| 0 <= u < i ==> #[trigger] out@[u]@.len() == cols,
            forall|u: int, j: int|
                0 <= u < i && 0 <= j < cols ==> #[trigger] out@[u]@[j] == v@[j]@[u],
        decreases rows - i,
    {
        let mut row: Vec<T> = Vec::new();
        let mut j: usize = 0;
        while j < cols
            invariant
                j <= cols,
                i < rows,
                cols == v@.len(),
                rows == v@[0]@.len(),
                forall|jj: int| 0 <= jj < v@.len() ==> #[trigger] v@[jj]@.len() == v@[0]@.len(),
                row@.len() == j,
                forall|jj: int| 0 <= jj < j ==> #[trigger] row@[jj] == v@[jj]@[i as int],
            decreases cols - j,
        {
            let x: T = v[j][i];
            row.push(x);
            j = j + 1;
        }
        out.push(row);
        i = i + 1;
    }
    out
}

} // verus!
