//! The sample stream: little-endian 16-bit decoding and de-interleaving.
//!
//! The byte tail after the header is a flat sequence of signed 16-bit
//! little-endian samples, channels multiplexed round-robin: the sample at
//! flat index `i` belongs to channel `i mod channel_count`. A trailing odd
//! byte is discarded. Each channel keeps whole rounds only, so all channels
//! come out equally long.

use vstd::prelude::*;

verus! {

use crate::error::ParseError;
use crate::header::EDRMetadata;

/// The signed 16-bit value of two little-endian bytes.
pub open spec fn le16(lo: u8, hi: u8) -> i16 {
    if hi >= 128 {
        (lo + 256 * hi - 65536) as i16
    } else {
        (lo + 256 * hi) as i16
    }
}

/// The raw samples of a byte tail: consecutive pairs, low byte first; a
/// trailing odd byte carries no sample.
pub open spec fn raw_samples(d: Seq<u8>) -> Seq<i16> {
    Seq::new(d.len() / 2, |i: int| le16(d[2 * i], d[2 * i + 1]))
}

/// The de-interleaved channels of a flat sample sequence: channel `c` of
/// `cc` owns the flat indices `c, c + cc, c + 2*cc, ...`, and every channel
/// holds exactly `raw.len() / cc` samples, the incomplete last round being
/// dropped.
pub open spec fn channels_of(raw: Seq<i16>, cc: nat) -> Seq<Seq<i16>> {
    if cc == 0 {
        Seq::empty()
    } else {
        Seq::new(cc, |c: int| Seq::new(raw.len() / cc, |k: int| raw[k * (cc as int) + c]))
    }
}

/// The per-channel calibration arrays all have the channel-defining length.
pub open spec fn arrays_consistent(m: crate::header::MetadataView) -> bool {
    m.yag.len() == m.yz.len() && m.ycf.len() == m.yz.len()
}

/// Decodes the byte tail into signed 16-bit raw samples.
fn decode_raw(data: &[u8]) -> (r: Vec<i16>)
    ensures
        r@ == raw_samples(data@),
{
    let n = data.len() / 2;
    let mut out: Vec<i16> = Vec::new();
    let mut i: usize = 0;
    while i < n
        invariant
            i <= n,
            n == data@.len() / 2,
            data@.len() <= usize::MAX,
            out@.len() == i,
            forall|j: int| 0 <= j < i ==> out@[j] == raw_samples(data@)[j],
        decreases n - i,
    {
        proof {
            assert(2 * (data@.len() / 2) <= data@.len());
        }
        let lo = data[2 * i];
        let hi = data[2 * i + 1];
        let w: i32 = lo as i32 + 256 * (hi as i32);
        let s: i32 = if w >= 32768 {
            w - 65536
        } else {
            w
        };
        out.push(s as i16);
        assert(s as i16 == le16(lo, hi));
        i = i + 1;
    }
    assert(out@ =~= raw_samples(data@));
    out
}

/// De-interleaves the byte tail into per-channel raw sample sequences,
/// guided by the metadata's channel count.
///
/// The zero-offset array defines the channel count. With no channels the
/// dataset is empty; with channels whose calibration arrays disagree in
/// length, decoding refuses rather than running past an array's end.
pub fn parse_contents(data: &[u8], metadata: &EDRMetadata) -> (r: Result<Vec<Vec<i16>>, ParseError>)
    ensures
        match r {
            Ok(chs) => {
                &&& metadata@.yz.len() > 0 ==> arrays_consistent(metadata@)
                &&& chs.deep_view() == channels_of(raw_samples(data@), metadata@.yz.len())
            },
            Err(e) => {
                &&& e == ParseError::ChannelArrayMismatch
                &&& !arrays_consistent(metadata@)
                &&& metadata@.yz.len() > 0
            },
        },
{
    let cc = metadata.yz.len();
    if cc == 0 {
        let out: Vec<Vec<i16>> = Vec::new();
        proof {
            assert(out.deep_view().len() == 0);
            assert(metadata@.yz.len() == 0);
            assert(channels_of(raw_samples(data@), metadata@.yz.len()).len() == 0);
            assert(out.deep_view() =~~= channels_of(raw_samples(data@), metadata@.yz.len()));
        }
        return Ok(out);
    }
    if metadata.yag.len() != cc || metadata.ycf.len() != cc {
        return Err(ParseError::ChannelArrayMismatch);
    }
    let raw = decode_raw(data);
    let ghost rs = raw@;
    let per = raw.len() / cc;
    proof {
        assert(per * cc <= rs.len() && per == rs.len() / (cc as nat)) by (nonlinear_arith)
            requires
                per == rs.len() / (cc as nat),
                cc > 0,
                rs.len() >= 0,
        ;
    }
    let mut out: Vec<Vec<i16>> = Vec::new();
    let mut c: usize = 0;
    while c < cc
        invariant
            c <= cc,
            0 < cc,
            rs == raw@,
            rs.len() <= usize::MAX,
            per == rs.len() / (cc as nat),
            per * cc <= rs.len(),
            out@.len() == c,
            forall|u: int| 0 <= u < c ==> #[trigger] out.deep_view()[u] =~= channels_of(rs, cc as nat)[u],
        decreases cc - c,
    {
        let mut ch: Vec<i16> = Vec::new();
        let mut k: usize = 0;
        while k < per
            invariant
                k <= per,
                c < cc,
                rs == raw@,
                rs.len() <= usize::MAX,
                per == rs.len() / (cc as nat),
                per * cc <= rs.len(),
                ch@.len() == k,
                forall|j: int| 0 <= j < k ==> ch@[j] == rs[j * (cc as int) + c],
            decreases per - k,
        {
            proof {
                assert(k * cc + c < rs.len()) by (nonlinear_arith)
                    requires
                        0 <= k < per,
                        0 <= c < cc,
                        per * cc <= rs.len(),
                ;
            }
            ch.push(raw[k * cc + c]);
            k = k + 1;
        }
        let ghost out0 = out.deep_view();
        out.push(ch);
        proof {
            assert(ch@ =~= channels_of(rs, cc as nat)[c as int]);
            assert(out.deep_view() =~~= out0.push(ch@));
        }
        c = c + 1;
    }
    proof {
        assert(out.deep_view() =~~= channels_of(rs, cc as nat));
    }
    Ok(out)
}

} // verus!
