//! The fixed-size ASCII header: line splitting, tag classification, and
//! typed metadata extraction.
//!
//! The header is a newline-delimited block of `TAG=value` lines. Tags are
//! matched by prefix, longest first, so that `ADCMAX` is never shadowed by
//! the shorter `AD`. The value of a matched line is the text after its last
//! `=`; a matched line without `=` is an error. Unmatched lines are ignored.

use vstd::prelude::*;

verus! {

use crate::error::{HeaderField, ParseError};
use crate::numtext::{
    after_sign, find_byte, find_exp, int_text_value, is_digit, is_exp_mark, is_float_text,
    is_i32_text, is_int_text, is_mantissa, kw_inf, kw_infinity, kw_nan,
    lemma_find_byte_char, lemma_find_exp_char, lower, matches_keyword,
};

/// ASCII line feed.
pub const LINE_FEED: u8 = 10;

/// ASCII carriage return.
pub const CARRIAGE_RETURN: u8 = 13;

/// ASCII `=`.
pub const EQUALS_SIGN: u8 = 61;

/// Typed contents of a header.
///
/// Integer fields default to zero, sequence fields to empty, when their tag
/// never occurs: parsing is permissive, not validating. The sample interval
/// and the calibration factors are floating-point quantities; the library
/// keeps their value text, checked against the floating-point grammar, and
/// leaves turning text into numbers to the caller.
#[derive(Debug, PartialEq)]
pub struct EDRMetadata {
    /// `AD`: shared analog-to-digital resolution.
    pub ad: i32,
    /// `ADCMAX`: largest representable digital code.
    pub adcmax: i32,
    /// `DT`: sample interval, as floating-point text; empty when absent.
    pub dt: Vec<u8>,
    /// `YAG`: per-channel gain, in declaration order.
    pub yag: Vec<i32>,
    /// `YCF`: per-channel calibration factor, as floating-point text.
    pub ycf: Vec<Vec<u8>>,
    /// `YZ`: per-channel zero offset, in declaration order.
    pub yz: Vec<i32>,
}

/// Mathematical image of [`EDRMetadata`].
#[verifier::ext_equal]
pub struct MetadataView {
    pub ad: i32,
    pub adcmax: i32,
    pub dt: Seq<u8>,
    pub yag: Seq<i32>,
    pub ycf: Seq<Seq<u8>>,
    pub yz: Seq<i32>,
}

impl View for EDRMetadata {
    type V = MetadataView;

    open spec fn view(&self) -> MetadataView {
        MetadataView {
            ad: self.ad,
            adcmax: self.adcmax,
            dt: self.dt@,
            yag: self.yag@,
            ycf: self.ycf.deep_view(),
            yz: self.yz@,
        }
    }
}

/// The metadata before any line is read: zero and empty defaults.
pub open spec fn initial_metadata() -> MetadataView {
    MetadataView {
        ad: 0,
        adcmax: 0,
        dt: Seq::empty(),
        yag: Seq::empty(),
        ycf: Seq::empty(),
        yz: Seq::empty(),
    }
}

/// A line without its trailing carriage return, if one is there.
pub open spec fn strip_cr(l: Seq<u8>) -> Seq<u8> {
    if l.len() > 0 && l.last() == CARRIAGE_RETURN {
        l.drop_last()
    } else {
        l
    }
}

/// The lines of `s`, split at line feeds, as `str::lines` yields them: a
/// carriage return before a line feed is dropped, a final line feed opens
/// no further line, and a last line without line feed stands as it is.
pub open spec fn lines_of(s: Seq<u8>) -> Seq<Seq<u8>>
    decreases s.len(),
    via lines_of_decreases
{
    if s.len() == 0 {
        Seq::empty()
    } else {
        let j = find_byte(s, LINE_FEED);
        if j < 0 {
            seq![s]
        } else {
            seq![strip_cr(s.take(j))] + lines_of(s.skip(j + 1))
        }
    }
}

#[via_fn]
proof fn lines_of_decreases(s: Seq<u8>) {
    if s.len() > 0 {
        lemma_find_byte_char(s, LINE_FEED);
    }
}

/// `ADCMAX`
pub open spec fn tag_adcmax() -> Seq<u8> {
    seq![65u8, 68, 67, 77, 65, 88]
}

/// `AD`
pub open spec fn tag_ad() -> Seq<u8> {
    seq![65u8, 68]
}

/// `DT`
pub open spec fn tag_dt() -> Seq<u8> {
    seq![68u8, 84]
}

/// `YAG`
pub open spec fn tag_yag() -> Seq<u8> {
    seq![89u8, 65, 71]
}

/// `YCF`
pub open spec fn tag_ycf() -> Seq<u8> {
    seq![89u8, 67, 70]
}

/// `YZ`
pub open spec fn tag_yz() -> Seq<u8> {
    seq![89u8, 90]
}

pub open spec fn starts_with(l: Seq<u8>, p: Seq<u8>) -> bool {
    l.len() >= p.len() && forall|i: int| 0 <= i < p.len() ==> l[i] == #[trigger] p[i]
}

/// The header field a line's tag prefix selects, or `None` for a line to be
/// ignored. Longer prefixes are tried first: `ADCMAX` before `AD`.
pub open spec fn line_class(l: Seq<u8>) -> Option<HeaderField> {
    if starts_with(l, tag_adcmax()) {
        Some(HeaderField::AdcMax)
    } else if starts_with(l, tag_ad()) {
        Some(HeaderField::Resolution)
    } else if starts_with(l, tag_dt()) {
        Some(HeaderField::SampleInterval)
    } else if starts_with(l, tag_yag()) {
        Some(HeaderField::Gain)
    } else if starts_with(l, tag_ycf()) {
        Some(HeaderField::CalibrationFactor)
    } else if starts_with(l, tag_yz()) {
        Some(HeaderField::ZeroOffset)
    } else {
        None
    }
}

/// Index of the last occurrence of `b` in `s`, or -1.
pub open spec fn find_last_byte(s: Seq<u8>, b: u8) -> int
    decreases s.len(),
{
    if s.len() == 0 {
        -1
    } else if s.last() == b {
        s.len() - 1
    } else {
        find_last_byte(s.drop_last(), b)
    }
}

pub proof fn lemma_find_last_byte_char(s: Seq<u8>, b: u8)
    ensures
        find_last_byte(s, b) >= -1,
        find_last_byte(s, b) == -1 ==> forall|j: int| 0 <= j < s.len() ==> s[j] != b,
        find_last_byte(s, b) >= 0 ==> {
            let f = find_last_byte(s, b);
            &&& f < s.len()
            &&& s[f] == b
            &&& forall|j: int| f < j < s.len() ==> s[j] != b
        },
    decreases s.len(),
{
    if s.len() > 0 && s.last() != b {
        let t = s.drop_last();
        lemma_find_last_byte_char(t, b);
        let r = find_last_byte(t, b);
        if r >= 0 {
            assert(s[r] == t[r]);
            assert forall|j: int| r < j < s.len() implies s[j] != b by {
                if j < s.len() - 1 {
                    assert(t[j] == s[j]);
                } else {
                    assert(s[j] == s.last());
                }
            }
        } else {
            assert forall|j: int| 0 <= j < s.len() implies s[j] != b by {
                if j < s.len() - 1 {
                    assert(t[j] == s[j]);
                } else {
                    assert(s[j] == s.last());
                }
            }
        }
    }
}

/// The line holds at least one `=`.
pub open spec fn has_eq(l: Seq<u8>) -> bool {
    find_last_byte(l, EQUALS_SIGN) >= 0
}

/// The text after the last `=` of the line.
pub open spec fn value_of(l: Seq<u8>) -> Seq<u8> {
    l.skip(find_last_byte(l, EQUALS_SIGN) + 1)
}

/// A value text acceptable for the field: floating-point grammar for the
/// sample interval and the calibration factor, an `i32` for the rest.
pub open spec fn value_ok(f: HeaderField, v: Seq<u8>) -> bool {
    match f {
        HeaderField::SampleInterval | HeaderField::CalibrationFactor => is_float_text(v),
        _ => is_i32_text(v),
    }
}

/// Reading this line raises no error: either it is ignored, or it has an
/// `=` and its value parses as the field asks.
pub open spec fn line_ok(l: Seq<u8>) -> bool {
    match line_class(l) {
        None => true,
        Some(f) => has_eq(l) && value_ok(f, value_of(l)),
    }
}

/// The error a failing line raises.
pub open spec fn line_err(l: Seq<u8>) -> ParseError {
    match line_class(l) {
        None => ParseError::HeaderTagNotFound,
        Some(f) => if !has_eq(l) {
            ParseError::HeaderTagNotFound
        } else {
            ParseError::FieldError(f)
        },
    }
}

/// The metadata after reading one non-failing line: scalar tags overwrite
/// their field, per-channel tags append to theirs, other lines do nothing.
pub open spec fn apply_line(m: MetadataView, l: Seq<u8>) -> MetadataView {
    match line_class(l) {
        None => m,
        Some(f) => {
            let v = value_of(l);
            match f {
                HeaderField::Resolution => MetadataView { ad: int_text_value(v) as i32, ..m },
                HeaderField::AdcMax => MetadataView { adcmax: int_text_value(v) as i32, ..m },
                HeaderField::SampleInterval => MetadataView { dt: v, ..m },
                HeaderField::Gain => MetadataView { yag: m.yag.push(int_text_value(v) as i32), ..m },
                HeaderField::CalibrationFactor => MetadataView { ycf: m.ycf.push(v), ..m },
                HeaderField::ZeroOffset => MetadataView { yz: m.yz.push(int_text_value(v) as i32), ..m },
            }
        },
    }
}

/// Folds the lines over the metadata, stopping at the first failing line.
pub open spec fn parse_lines(m: MetadataView, ls: Seq<Seq<u8>>) -> Result<MetadataView, ParseError>
    decreases ls.len(),
{
    if ls.len() == 0 {
        Ok(m)
    } else if !line_ok(ls[0]) {
        Err(line_err(ls[0]))
    } else {
        parse_lines(apply_line(m, ls[0]), ls.drop_first())
    }
}

/// What parsing a whole header block yields.
pub open spec fn header_result(h: Seq<u8>) -> Result<MetadataView, ParseError> {
    parse_lines(initial_metadata(), lines_of(h))
}

/// Splitting at a line feed: everything before it (which holds none) is one
/// finished line, and the rest splits on its own.
proof fn lemma_lines_of_split(c: Seq<u8>, r: Seq<u8>)
    requires
        forall|j: int| 0 <= j < c.len() ==> c[j] != LINE_FEED,
    ensures
        lines_of(c + seq![LINE_FEED] + r) == seq![strip_cr(c)] + lines_of(r),
{
    let s = c + seq![LINE_FEED] + r;
    lemma_find_byte_char(s, LINE_FEED);
    let f = find_byte(s, LINE_FEED);
    assert(s[c.len() as int] == LINE_FEED);
    if f < 0 {
        assert(false);
    }
    if f < c.len() {
        assert(s[f] == c[f]);
        assert(false);
    }
    if f > c.len() {
        assert(false);
    }
    assert(s.take(f) =~= c);
    assert(s.skip(f + 1) =~= r);
}

/// When no line feed occurs, the whole text is one line (or none, if empty).
proof fn lemma_lines_of_unbroken(c: Seq<u8>)
    requires
        forall|j: int| 0 <= j < c.len() ==> c[j] != LINE_FEED,
        c.len() > 0,
    ensures
        lines_of(c) == seq![c],
{
    lemma_find_byte_char(c, LINE_FEED);
    let f = find_byte(c, LINE_FEED);
    if f >= 0 {
        assert(c[f] == LINE_FEED);
        assert(false);
    }
}

/// Splits the header block into its lines.
fn split_lines(h: &[u8]) -> (ls: Vec<Vec<u8>>)
    ensures
        ls.deep_view() == lines_of(h@),
{
    let n = h.len();
    let mut done: Vec<Vec<u8>> = Vec::new();
    let mut cur: Vec<u8> = Vec::new();
    let mut i: usize = 0;
    proof {
        assert(cur@ + h@.skip(0) =~= h@);
        assert(done.deep_view() + lines_of(h@) =~~= lines_of(h@));
    }
    while i < n
        invariant
            i <= n,
            n == h@.len(),
            forall|j: int| 0 <= j < cur@.len() ==> cur@[j] != LINE_FEED,
            lines_of(h@) == done.deep_view() + lines_of(cur@ + h@.skip(i as int)),
        decreases n - i,
    {
        let ghost done0 = done.deep_view();
        let ghost cur0 = cur@;
        let b = h[i];
        if b == LINE_FEED {
            proof {
                lemma_lines_of_split(cur0, h@.skip(i + 1));
                assert(cur0 + h@.skip(i as int) =~= cur0 + seq![LINE_FEED] + h@.skip(i + 1));
            }
            let mut finished = cur;
            cur = Vec::new();
            let flen = finished.len();
            if flen > 0 && finished[flen - 1] == CARRIAGE_RETURN {
                finished.pop();
            }
            assert(finished@ =~= strip_cr(cur0));
            done.push(finished);
            proof {
                assert(done.deep_view() =~~= done0.push(strip_cr(cur0)));
                assert(done.deep_view() + lines_of(cur@ + h@.skip(i + 1)) =~~= lines_of(h@));
            }
        } else {
            cur.push(b);
            proof {
                assert(cur@ + h@.skip(i + 1) =~= cur0 + h@.skip(i as int));
            }
        }
        i = i + 1;
    }
    proof {
        assert(cur@ + h@.skip(n as int) =~= cur@);
    }
    if cur.len() > 0 {
        proof {
            lemma_lines_of_unbroken(cur@);
        }
        let ghost done0 = done.deep_view();
        let ghost cur0 = cur@;
        done.push(cur);
        proof {
            assert(done.deep_view() =~~= done0.push(cur0));
            assert(done.deep_view() =~~= lines_of(h@));
        }
    } else {
        proof {
            assert(lines_of(cur@) =~~= Seq::<Seq<u8>>::empty());
            assert(done.deep_view() =~~= lines_of(h@));
        }
    }
    done
}

/// The tag prefix a line starts with, longest first.
fn classify_line(l: &[u8]) -> (c: Option<HeaderField>)
    ensures
        c == line_class(l@),
{
    let n = l.len();
    // "ADCMAX"
    if n >= 6 && l[0] == 65 && l[1] == 68 && l[2] == 67 && l[3] == 77 && l[4] == 65 && l[5] == 88 {
        assert(starts_with(l@, tag_adcmax()));
        Some(HeaderField::AdcMax)
    // "AD"
    } else if n >= 2 && l[0] == 65 && l[1] == 68 {
        assert(starts_with(l@, tag_ad()));
        assert(!starts_with(l@, tag_adcmax()));
        Some(HeaderField::Resolution)
    // "DT"
    } else if n >= 2 && l[0] == 68 && l[1] == 84 {
        assert(starts_with(l@, tag_dt()));
        Some(HeaderField::SampleInterval)
    // "YAG"
    } else if n >= 3 && l[0] == 89 && l[1] == 65 && l[2] == 71 {
        assert(starts_with(l@, tag_yag()));
        Some(HeaderField::Gain)
    // "YCF"
    } else if n >= 3 && l[0] == 89 && l[1] == 67 && l[2] == 70 {
        assert(starts_with(l@, tag_ycf()));
        Some(HeaderField::CalibrationFactor)
    // "YZ"
    } else if n >= 2 && l[0] == 89 && l[1] == 90 {
        assert(starts_with(l@, tag_yz()));
        Some(HeaderField::ZeroOffset)
    } else {
        assert(!starts_with(l@, tag_adcmax()));
        assert(!starts_with(l@, tag_ad()));
        assert(!starts_with(l@, tag_dt()));
        assert(!starts_with(l@, tag_yag()));
        assert(!starts_with(l@, tag_ycf()));
        assert(!starts_with(l@, tag_yz()));
        None
    }
}

/// The value of a tag line: the text after its last `=`. A line without
/// `=` has no value and fails.
pub fn get_number(line: &[u8]) -> (r: Result<Vec<u8>, ParseError>)
    ensures
        match r {
            Ok(v) => has_eq(line@) && v@ == value_of(line@),
            Err(e) => !has_eq(line@) && e == ParseError::HeaderTagNotFound,
        },
{
    let n = line.len();
    let mut i: usize = n;
    while i > 0
        invariant
            i <= n,
            n == line@.len(),
            forall|j: int| i <= j < n ==> line@[j] != EQUALS_SIGN,
        decreases i,
    {
        if line[i - 1] == EQUALS_SIGN {
            proof {
                lemma_find_last_byte_char(line@, EQUALS_SIGN);
                let f = find_last_byte(line@, EQUALS_SIGN);
                assert(line@[i - 1] == EQUALS_SIGN);
                if f == -1 {
                    assert(line@[i - 1] != EQUALS_SIGN);
                    assert(false);
                } else if f > i - 1 {
                    assert(line@[f] != EQUALS_SIGN);
                    assert(false);
                } else if f < i - 1 {
                    assert(line@[i - 1] != EQUALS_SIGN);
                    assert(false);
                }
                assert(f == i - 1);
            }
            let v = vstd::slice::slice_to_vec(vstd::slice::slice_subrange(line, i, n));
            assert(v@ =~= value_of(line@));
            return Ok(v);
        }
        i = i - 1;
    }
    proof {
        lemma_find_last_byte_char(line@, EQUALS_SIGN);
        let f = find_last_byte(line@, EQUALS_SIGN);
        if f >= 0 {
            assert(line@[f] != EQUALS_SIGN);
        }
    }
    Err(ParseError::HeaderTagNotFound)
}

/// Text that begins with a tag's initial capital — `A`, `D` or `Y` — is
/// never acceptable numeric text: not an integer, not a floating-point
/// number, not one of the keyword forms.
pub proof fn lemma_tag_initial_not_numeric(l: Seq<u8>)
    requires
        l.len() > 0,
        l[0] == 65 || l[0] == 68 || l[0] == 89,
    ensures
        !is_int_text(l),
        !is_float_text(l),
{
    assert(after_sign(l) == l);
    assert(!is_digit(l[0]));
    assert(!matches_keyword(l, kw_inf())) by {
        if matches_keyword(l, kw_inf()) {
            assert(lower(l[0]) == kw_inf()[0]);
        }
    }
    assert(!matches_keyword(l, kw_infinity())) by {
        if matches_keyword(l, kw_infinity()) {
            assert(lower(l[0]) == kw_infinity()[0]);
        }
    }
    assert(!matches_keyword(l, kw_nan())) by {
        if matches_keyword(l, kw_nan()) {
            assert(lower(l[0]) == kw_nan()[0]);
        }
    }
    lemma_find_exp_char(l);
    let e = find_exp(l);
    if e == 0 {
        assert(is_exp_mark(l[0]));
        assert(false);
    } else if e < 0 {
        lemma_tag_initial_no_mantissa(l);
    } else {
        assert(l.take(e)[0] == l[0]);
        lemma_tag_initial_no_mantissa(l.take(e));
    }
}

proof fn lemma_tag_initial_no_mantissa(s: Seq<u8>)
    requires
        s.len() > 0,
        s[0] == 65 || s[0] == 68 || s[0] == 89,
    ensures
        !is_mantissa(s),
{
    lemma_find_byte_char(s, 46);
    let d = find_byte(s, 46);
    if d == 0 {
        assert(s[0] == 46);
        assert(false);
    } else if d < 0 {
        assert(!is_digit(s[0]));
    } else {
        assert(s.take(d)[0] == s[0]);
        assert(!is_digit(s.take(d)[0]));
    }
}

/// A recognized tag line without `=` never has acceptable value text: its
/// value is the whole line, which begins with the tag's capital letter.
pub proof fn lemma_classed_value_needs_eq(l: Seq<u8>, f: HeaderField)
    requires
        line_class(l) == Some(f),
        !has_eq(l),
    ensures
        !value_ok(f, value_of(l)),
{
    lemma_find_last_byte_char(l, EQUALS_SIGN);
    assert(find_last_byte(l, EQUALS_SIGN) == -1);
    assert(value_of(l) =~= l);
    assert(l.len() > 0 && (l[0] == 65 || l[0] == 68 || l[0] == 89)) by {
        if starts_with(l, tag_adcmax()) {
            assert(l[0] == tag_adcmax()[0]);
        } else if starts_with(l, tag_ad()) {
            assert(l[0] == tag_ad()[0]);
        } else if starts_with(l, tag_dt()) {
            assert(l[0] == tag_dt()[0]);
        } else if starts_with(l, tag_yag()) {
            assert(l[0] == tag_yag()[0]);
        } else if starts_with(l, tag_ycf()) {
            assert(l[0] == tag_ycf()[0]);
        } else {
            assert(starts_with(l, tag_yz()));
            assert(l[0] == tag_yz()[0]);
        }
    }
    lemma_tag_initial_not_numeric(l);
}

/// Parses a header block into typed metadata, line by line.
///
/// The result is exactly what folding [`apply_line`] over the lines of the
/// block yields, with the first failing line's error where one fails.
pub fn parse_header(header: &[u8]) -> (r: Result<EDRMetadata, ParseError>)
    ensures
        match r {
            Ok(m) => header_result(header@) == Ok::<MetadataView, ParseError>(m@),
            Err(e) => header_result(header@) == Err::<MetadataView, ParseError>(e),
        },
{
    let lines = split_lines(header);
    let ghost ls = lines_of(header@);
    let mut m = EDRMetadata {
        ad: 0,
        adcmax: 0,
        dt: Vec::new(),
        yag: Vec::new(),
        ycf: Vec::new(),
        yz: Vec::new(),
    };
    proof {
        assert(m@ =~~= initial_metadata());
        assert(ls.skip(0) =~= ls);
    }
    let n = lines.len();
    let mut k: usize = 0;
    while k < n
        invariant
            k <= n,
            n == lines@.len(),
            ls == lines_of(header@),
            lines.deep_view() == ls,
            parse_lines(initial_metadata(), ls) == parse_lines(m@, ls.skip(k as int)),
        decreases n - k,
    {
        let line: &Vec<u8> = &lines[k];
        let ghost m0 = m@;
        let ghost rest = ls.skip(k as int);
        proof {
            assert(ls.len() == n);
            assert(rest.len() == n - k);
            assert(rest[0] == lines.deep_view()[k as int]);
            assert(line@ =~= lines.deep_view()[k as int]);
            assert(rest.drop_first() =~= ls.skip(k + 1));
        }
        match classify_line(line.as_slice()) {
            None => {
                proof {
                    assert(apply_line(m0, line@) =~~= m0);
                }
            },
            Some(f) => {
                let v = match get_number(line.as_slice()) {
                    Err(e) => {
                        proof {
                            assert(!line_ok(line@));
                            assert(parse_lines(m0, rest) == Err::<MetadataView, ParseError>(
                                line_err(line@),
                            ));
                            assert(line_err(line@) == e);
                        }
                        return Err(e);
                    },
                    Ok(v) => v,
                };
                match f {
                    HeaderField::Resolution => {
                        match crate::numtext::parse_i32(v.as_slice()) {
                            None => {
                                return Err(ParseError::FieldError(f));
                            },
                            Some(x) => {
                                m.ad = x;
                            },
                        }
                    },
                    HeaderField::AdcMax => {
                        match crate::numtext::parse_i32(v.as_slice()) {
                            None => {
                                return Err(ParseError::FieldError(f));
                            },
                            Some(x) => {
                                m.adcmax = x;
                            },
                        }
                    },
                    HeaderField::SampleInterval => {
                        if !crate::numtext::check_float_text(v.as_slice()) {
                            return Err(ParseError::FieldError(f));
                        }
                        m.dt = v;
                    },
                    HeaderField::Gain => {
                        match crate::numtext::parse_i32(v.as_slice()) {
                            None => {
                                return Err(ParseError::FieldError(f));
                            },
                            Some(x) => {
                                m.yag.push(x);
                            },
                        }
                    },
                    HeaderField::CalibrationFactor => {
                        if !crate::numtext::check_float_text(v.as_slice()) {
                            return Err(ParseError::FieldError(f));
                        }
                        m.ycf.push(v);
                    },
                    HeaderField::ZeroOffset => {
                        match crate::numtext::parse_i32(v.as_slice()) {
                            None => {
                                return Err(ParseError::FieldError(f));
                            },
                            Some(x) => {
                                m.yz.push(x);
                            },
                        }
                    },
                }
            },
        }
        proof {
            assert(line_ok(line@));
            assert(m@ =~~= apply_line(m0, line@));
        }
        k = k + 1;
    }
    proof {
        assert(ls.skip(n as int) =~= Seq::<Seq<u8>>::empty());
    }
    Ok(m)
}

} // verus!
