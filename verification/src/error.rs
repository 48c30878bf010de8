//! Error taxonomy of the decoder.
//!
//! Every failure is terminal for the file at hand: nothing is retried, and
//! each variant carries enough to tell the kinds apart.

use vstd::prelude::*;

verus! {

/// The semantic header field whose value failed numeric parsing.
#[derive(Clone, Copy, Debug, PartialEq, Eq, Structural)]
pub enum HeaderField {
    /// `AD`: the shared analog-to-digital resolution.
    Resolution,
    /// `ADCMAX`: the largest representable digital code.
    AdcMax,
    /// `DT`: the sample interval.
    SampleInterval,
    /// `YAG`: a per-channel gain entry.
    Gain,
    /// `YCF`: a per-channel calibration factor entry.
    CalibrationFactor,
    /// `YZ`: a per-channel zero-offset entry.
    ZeroOffset,
}

/// Why decoding a buffer failed.
#[derive(Clone, Copy, Debug, PartialEq, Eq, Structural)]
pub enum ParseError {
    /// The buffer is smaller than the fixed header size.
    FileTooShort,
    /// The buffer is exactly the header size: no sample payload follows.
    FileOnlyHeader,
    /// A recognized tag line has no `=` separator.
    HeaderTagNotFound,
    /// A recognized tag's value is not valid numeric text.
    FieldError(HeaderField),
    /// The per-channel calibration arrays disagree in length.
    ChannelArrayMismatch,
}

} // verus!
