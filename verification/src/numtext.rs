//! Numeric text recognized in header values.
//!
//! Integer values are parsed here outright. Floating-point values cannot be
//! computed in verified code, so the library only checks that their text
//! matches the grammar that `f32` parsing accepts and hands the text on.

use vstd::prelude::*;

verus! {

/// An ASCII decimal digit.
pub open spec fn is_digit(b: u8) -> bool {
    48 <= b <= 57
}

/// An ASCII sign character.
pub open spec fn is_sign(b: u8) -> bool {
    b == 43 || b == 45
}

/// The text of `s` after an optional leading sign.
pub open spec fn after_sign(s: Seq<u8>) -> Seq<u8> {
    if s.len() > 0 && is_sign(s[0]) {
        s.drop_first()
    } else {
        s
    }
}

/// Every byte of `s` is a decimal digit.
pub open spec fn all_digits(s: Seq<u8>) -> bool {
    forall|i: int| 0 <= i < s.len() ==> is_digit(#[trigger] s[i])
}

/// `s` is an optional sign followed by at least one digit and nothing else.
pub open spec fn is_int_text(s: Seq<u8>) -> bool {
    after_sign(s).len() > 0 && all_digits(after_sign(s))
}

/// The value of a sequence of decimal digits.
pub open spec fn digits_value(s: Seq<u8>) -> int
    decreases s.len(),
{
    if s.len() == 0 {
        0
    } else {
        digits_value(s.drop_last()) * 10 + (s.last() - 48)
    }
}

/// The signed value that integer text denotes.
pub open spec fn int_text_value(s: Seq<u8>) -> int {
    if s.len() > 0 && s[0] == 45 {
        -digits_value(after_sign(s))
    } else {
        digits_value(after_sign(s))
    }
}

/// `s` parses as an `i32`: well-formed integer text whose value fits.
pub open spec fn is_i32_text(s: Seq<u8>) -> bool {
    is_int_text(s) && i32::MIN <= int_text_value(s) <= i32::MAX
}

pub proof fn lemma_digits_value_nonneg(s: Seq<u8>)
    requires
        all_digits(s),
    ensures
        digits_value(s) >= 0,
    decreases s.len(),
{
    if s.len() > 0 {
        assert(all_digits(s.drop_last()));
        lemma_digits_value_nonneg(s.drop_last());
    }
}

/// Extending digit text never shrinks its value.
pub proof fn lemma_digits_value_prefix_le(s: Seq<u8>, k: int)
    requires
        all_digits(s),
        0 <= k <= s.len(),
    ensures
        digits_value(s.take(k)) <= digits_value(s),
    decreases s.len() - k,
{
    if k < s.len() {
        lemma_digits_value_prefix_le(s, k + 1);
        let p = s.take(k + 1);
        assert(p.drop_last() =~= s.take(k));
        assert(all_digits(s.take(k)));
        lemma_digits_value_nonneg(s.take(k));
        assert(digits_value(p) == digits_value(s.take(k)) * 10 + (p.last() - 48));
    } else {
        assert(s.take(k) =~= s);
    }
}

/// Parses decimal integer text as `str::parse::<i32>` accepts it: an
/// optional sign, then one or more digits, with the value in range.
pub fn parse_i32(s: &[u8]) -> (r: Option<i32>)
    ensures
        match r {
            Some(n) => is_i32_text(s@) && n == int_text_value(s@),
            None => !is_i32_text(s@),
        },
{
    let len = s.len();
    let mut i: usize = 0;
    let mut negative: bool = false;
    if len > 0 && (s[0] == 43 || s[0] == 45) {
        negative = s[0] == 45;
        i = 1;
    }
    let ghost digits = after_sign(s@);
    assert(s@.skip(i as int) =~= digits);
    if i == len {
        return None;
    }
    // The accumulator is bounded by 2^31 so that one more digit cannot
    // overflow an i64; past that bound the text cannot denote an i32.
    let mut acc: i64 = 0;
    while i < len
        invariant
            len == s@.len(),
            digits == after_sign(s@),
            digits.len() > 0,
            0 <= len - digits.len() <= 1,
            len - digits.len() <= i <= len,
            negative <==> (len > 0 && s@[0] == 45),
            forall|j: int| 0 <= j < digits.len() ==> digits[j] == s@[j + (len - digits.len())],
            all_digits(digits.take(i - (len - digits.len()))),
            0 <= acc <= 0x8000_0000,
            acc == digits_value(digits.take(i - (len - digits.len()))),
        decreases len - i,
    {
        let ghost off = len - digits.len();
        let b = s[i];
        if !(48 <= b && b <= 57) {
            assert(digits[i - off] == b);
            return None;
        }
        let d = (b - 48) as i64;
        acc = acc * 10 + d;
        i = i + 1;
        proof {
            let p = digits.take(i - off);
            assert(p.drop_last() =~= digits.take(i - 1 - off));
            assert(p.last() == digits[i - 1 - off] && digits[i - 1 - off] == b);
        }
        if acc > 0x8000_0000 {
            // Any further digits only grow the magnitude, so the value
            // cannot fit in an i32 under either sign.
            proof {
                if is_int_text(s@) {
                    lemma_digits_value_prefix_le(digits, i - off);
                }
            }
            return None;
        }
    }
    assert(digits.take(i - (len - digits.len())) =~= digits);
    if negative {
        Some((-acc) as i32)
    } else {
        if acc > 0x7fff_ffff {
            return None;
        }
        Some(acc as i32)
    }
}

/// Index of the first occurrence of `b` in `s`, or -1.
pub open spec fn find_byte(s: Seq<u8>, b: u8) -> int
    decreases s.len(),
{
    if s.len() == 0 {
        -1
    } else if s[0] == b {
        0
    } else {
        let r = find_byte(s.drop_first(), b);
        if r < 0 {
            -1
        } else {
            r + 1
        }
    }
}

pub proof fn lemma_find_byte_char(s: Seq<u8>, b: u8)
    ensures
        find_byte(s, b) == -1 ==> forall|j: int| 0 <= j < s.len() ==> s[j] != b,
        find_byte(s, b) >= 0 ==> {
            let f = find_byte(s, b);
            &&& f < s.len()
            &&& s[f] == b
            &&& forall|j: int| 0 <= j < f ==> s[j] != b
        },
    decreases s.len(),
{
    if s.len() > 0 && s[0] != b {
        let t = s.drop_first();
        lemma_find_byte_char(t, b);
        let r = find_byte(t, b);
        if r >= 0 {
            assert(s[r + 1] == t[r]);
            assert forall|j: int| 0 <= j < r + 1 implies s[j] != b by {
                if j > 0 {
                    assert(t[j - 1] == s[j]);
                }
            }
        } else {
            assert forall|j: int| 0 <= j < s.len() implies s[j] != b by {
                if j > 0 {
                    assert(t[j - 1] == s[j]);
                }
            }
        }
    }
}

/// A byte introducing the exponent of floating-point text: `e` or `E`.
pub open spec fn is_exp_mark(b: u8) -> bool {
    b == 101 || b == 69
}

/// Index of the first exponent mark in `s`, or -1.
pub open spec fn find_exp(s: Seq<u8>) -> int
    decreases s.len(),
{
    if s.len() == 0 {
        -1
    } else if is_exp_mark(s[0]) {
        0
    } else {
        let r = find_exp(s.drop_first());
        if r < 0 {
            -1
        } else {
            r + 1
        }
    }
}

pub proof fn lemma_find_exp_char(s: Seq<u8>)
    ensures
        find_exp(s) == -1 ==> forall|j: int| 0 <= j < s.len() ==> !is_exp_mark(#[trigger] s[j]),
        find_exp(s) >= 0 ==> {
            let f = find_exp(s);
            &&& f < s.len()
            &&& is_exp_mark(s[f])
            &&& forall|j: int| 0 <= j < f ==> !is_exp_mark(#[trigger] s[j])
        },
    decreases s.len(),
{
    if s.len() > 0 && !is_exp_mark(s[0]) {
        let t = s.drop_first();
        lemma_find_exp_char(t);
        let r = find_exp(t);
        if r >= 0 {
            assert(s[r + 1] == t[r]);
            assert forall|j: int| 0 <= j < r + 1 implies !is_exp_mark(#[trigger] s[j]) by {
                if j > 0 {
                    assert(t[j - 1] == s[j]);
                    assert(!is_exp_mark(t[j - 1]));
                }
            }
        } else {
            assert forall|j: int| 0 <= j < s.len() implies !is_exp_mark(#[trigger] s[j]) by {
                if j > 0 {
                    assert(t[j - 1] == s[j]);
                    assert(!is_exp_mark(t[j - 1]));
                }
            }
        }
    }
}

/// The upper-case letters folded to lower case; every other byte unchanged.
pub open spec fn lower(b: u8) -> u8 {
    if 65 <= b <= 90 {
        (b + 32) as u8
    } else {
        b
    }
}

/// `s` spells the lower-case keyword `kw`, ignoring letter case.
pub open spec fn matches_keyword(s: Seq<u8>, kw: Seq<u8>) -> bool {
    s.len() == kw.len() && forall|i: int| 0 <= i < s.len() ==> lower(#[trigger] s[i]) == kw[i]
}

/// `inf`
pub open spec fn kw_inf() -> Seq<u8> {
    seq![105u8, 110, 102]
}

/// `infinity`
pub open spec fn kw_infinity() -> Seq<u8> {
    seq![105u8, 110, 102, 105, 110, 105, 116, 121]
}

/// `nan`
pub open spec fn kw_nan() -> Seq<u8> {
    seq![110u8, 97, 110]
}

/// One of the keyword forms of floating-point text, in any letter case.
pub open spec fn is_special_float(s: Seq<u8>) -> bool {
    matches_keyword(s, kw_inf()) || matches_keyword(s, kw_infinity()) || matches_keyword(s, kw_nan())
}

/// Digits with at most one decimal point and at least one digit.
pub open spec fn is_mantissa(s: Seq<u8>) -> bool {
    let d = find_byte(s, 46);
    if d < 0 {
        s.len() > 0 && all_digits(s)
    } else {
        all_digits(s.take(d)) && all_digits(s.skip(d + 1)) && s.len() > 1
    }
}

/// A mantissa, optionally followed by an exponent mark and signed digits.
pub open spec fn is_number_text(s: Seq<u8>) -> bool {
    let e = find_exp(s);
    if e < 0 {
        is_mantissa(s)
    } else {
        is_mantissa(s.take(e)) && is_int_text(s.skip(e + 1))
    }
}

/// `s` is text that `str::parse::<f32>` accepts: an optional sign, then a
/// case-insensitive keyword (`inf`, `infinity`, `nan`) or a decimal number
/// with an optional exponent.
pub open spec fn is_float_text(s: Seq<u8>) -> bool {
    is_special_float(after_sign(s)) || is_number_text(after_sign(s))
}

fn lower_byte(b: u8) -> (r: u8)
    ensures
        r == lower(b),
{
    if 65 <= b && b <= 90 {
        b + 32
    } else {
        b
    }
}

fn eq_keyword(s: &[u8], kw: &Vec<u8>) -> (r: bool)
    ensures
        r == matches_keyword(s@, kw@),
{
    if s.len() != kw.len() {
        return false;
    }
    let n = s.len();
    let mut i: usize = 0;
    while i < n
        invariant
            n == s@.len() == kw@.len(),
            i <= n,
            forall|j: int| 0 <= j < i ==> lower(#[trigger] s@[j]) == kw@[j],
        decreases n - i,
    {
        if lower_byte(s[i]) != kw[i] {
            return false;
        }
        i = i + 1;
    }
    true
}

fn check_all_digits(s: &[u8]) -> (r: bool)
    ensures
        r == all_digits(s@),
{
    let n = s.len();
    let mut i: usize = 0;
    while i < n
        invariant
            n == s@.len(),
            i <= n,
            forall|j: int| 0 <= j < i ==> is_digit(#[trigger] s@[j]),
        decreases n - i,
    {
        let b = s[i];
        if !(48 <= b && b <= 57) {
            return false;
        }
        i = i + 1;
    }
    true
}

/// Checks integer-text shape only; unlike [`parse_i32`] the value may be of
/// any size, as an exponent's digits are.
fn check_int_text(s: &[u8]) -> (r: bool)
    ensures
        r == is_int_text(s@),
{
    let len = s.len();
    let start: usize = if len > 0 && (s[0] == 43 || s[0] == 45) {
        1
    } else {
        0
    };
    let rest = vstd::slice::slice_subrange(s, start, len);
    assert(rest@ =~= after_sign(s@));
    if rest.len() == 0 {
        return false;
    }
    check_all_digits(rest)
}

fn find_first_index(s: &[u8], b: u8) -> (r: Option<usize>)
    ensures
        match r {
            Some(i) => find_byte(s@, b) == i,
            None => find_byte(s@, b) == -1,
        },
{
    let n = s.len();
    let mut i: usize = 0;
    while i < n
        invariant
            n == s@.len(),
            i <= n,
            forall|j: int| 0 <= j < i ==> s@[j] != b,
        decreases n - i,
    {
        if s[i] == b {
            proof {
                lemma_find_byte_char(s@, b);
            }
            return Some(i);
        }
        i = i + 1;
    }
    proof {
        lemma_find_byte_char(s@, b);
    }
    None
}

fn check_mantissa(s: &[u8]) -> (r: bool)
    ensures
        r == is_mantissa(s@),
{
    match find_first_index(s, 46) {
        None => {
            if s.len() == 0 {
                return false;
            }
            check_all_digits(s)
        },
        Some(d) => {
            proof {
                lemma_find_byte_char(s@, 46);
            }
            if s.len() <= 1 {
                return false;
            }
            let head = vstd::slice::slice_subrange(s, 0, d);
            assert(head@ =~= s@.take(d as int));
            if !check_all_digits(head) {
                return false;
            }
            let tail = vstd::slice::slice_subrange(s, d + 1, s.len());
            assert(tail@ =~= s@.skip(d + 1));
            check_all_digits(tail)
        },
    }
}

fn find_exp_index(s: &[u8]) -> (r: Option<usize>)
    ensures
        match r {
            Some(i) => find_exp(s@) == i,
            None => find_exp(s@) == -1,
        },
{
    let n = s.len();
    let mut i: usize = 0;
    while i < n
        invariant
            n == s@.len(),
            i <= n,
            forall|j: int| 0 <= j < i ==> !is_exp_mark(#[trigger] s@[j]),
        decreases n - i,
    {
        let b = s[i];
        if b == 101 || b == 69 {
            proof {
                lemma_find_exp_char(s@);
            }
            return Some(i);
        }
        i = i + 1;
    }
    proof {
        lemma_find_exp_char(s@);
    }
    None
}

fn check_number(s: &[u8]) -> (r: bool)
    ensures
        r == is_number_text(s@),
{
    let n = s.len();
    match find_exp_index(s) {
        None => check_mantissa(s),
        Some(e) => {
            proof {
                lemma_find_exp_char(s@);
            }
            let head = vstd::slice::slice_subrange(s, 0, e);
            assert(head@ =~= s@.take(e as int));
            if !check_mantissa(head) {
                return false;
            }
            let tail = vstd::slice::slice_subrange(s, e + 1, n);
            assert(tail@ =~= s@.skip(e + 1));
            check_int_text(tail)
        },
    }
}

/// Decides whether `s` would parse as an `f32`, without touching any
/// floating-point value: the grammar alone is checked.
pub fn check_float_text(s: &[u8]) -> (r: bool)
    ensures
        r == is_float_text(s@),
{
    let len = s.len();
    let start: usize = if len > 0 && (s[0] == 43 || s[0] == 45) {
        1
    } else {
        0
    };
    let body = vstd::slice::slice_subrange(s, start, len);
    assert(body@ =~= after_sign(s@));
    let mut inf: Vec<u8> = Vec::new();
    inf.push(105);
    inf.push(110);
    inf.push(102);
    assert(inf@ =~= kw_inf());
    if eq_keyword(body, &inf) {
        return true;
    }
    let mut infinity: Vec<u8> = inf;
    infinity.push(105);
    infinity.push(110);
    infinity.push(105);
    infinity.push(116);
    infinity.push(121);
    assert(infinity@ =~= kw_infinity());
    if eq_keyword(body, &infinity) {
        return true;
    }
    let mut nan: Vec<u8> = Vec::new();
    nan.push(110);
    nan.push(97);
    nan.push(110);
    assert(nan@ =~= kw_nan());
    if eq_keyword(body, &nan) {
        return true;
    }
    check_number(body)
}

} // verus!
