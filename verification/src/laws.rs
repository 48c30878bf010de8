//! Header-order laws.
//!
//! Two facts about header parsing hold beyond any one run: lines of
//! different kinds may change places freely, and unrecognized lines never
//! matter. Both are stated over the line-fold model that
//! [`crate::header::parse_header`] is proved against.

use vstd::prelude::*;

verus! {

use crate::error::HeaderField;
use crate::header::{
    MetadataView, apply_line, line_class, line_err, line_ok, parse_lines, value_of, value_ok,
};
use crate::numtext::int_text_value;

/// The values of the lines of one kind, in their order of appearance.
pub open spec fn class_values(ls: Seq<Seq<u8>>, f: HeaderField) -> Seq<Seq<u8>>
    decreases ls.len(),
{
    if ls.len() == 0 {
        Seq::empty()
    } else {
        let rest = class_values(ls.drop_first(), f);
        if line_class(ls[0]) == Some(f) {
            seq![value_of(ls[0])] + rest
        } else {
            rest
        }
    }
}

/// The integers a sequence of value texts denotes.
pub open spec fn int_values(vs: Seq<Seq<u8>>) -> Seq<i32> {
    vs.map_values(|v: Seq<u8>| int_text_value(v) as i32)
}

/// The last of the values, if any: for a scalar tag, the one that wins.
pub open spec fn last_value(vs: Seq<Seq<u8>>) -> Option<Seq<u8>> {
    if vs.len() == 0 {
        None
    } else {
        Some(vs.last())
    }
}

/// Each metadata component is a function of its own tag's values alone:
/// every scalar field holds its tag's last value, every per-channel array
/// extends with its tag's values in order. How the kinds are interleaved,
/// and what other lines stand among them, never matters.
pub proof fn lemma_parse_decomposition(m: MetadataView, ls: Seq<Seq<u8>>)
    requires
        parse_lines(m, ls) is Ok,
    ensures
        ({
            let res = parse_lines(m, ls)->Ok_0;
            &&& res.ad == (match last_value(class_values(ls, HeaderField::Resolution)) {
                Some(v) => int_text_value(v) as i32,
                None => m.ad,
            })
            &&& res.adcmax == (match last_value(class_values(ls, HeaderField::AdcMax)) {
                Some(v) => int_text_value(v) as i32,
                None => m.adcmax,
            })
            &&& res.dt == (match last_value(class_values(ls, HeaderField::SampleInterval)) {
                Some(v) => v,
                None => m.dt,
            })
            &&& res.yag == m.yag + int_values(class_values(ls, HeaderField::Gain))
            &&& res.ycf == m.ycf + class_values(ls, HeaderField::CalibrationFactor)
            &&& res.yz == m.yz + int_values(class_values(ls, HeaderField::ZeroOffset))
        }),
    decreases ls.len(),
{
    if ls.len() == 0 {
        assert(m.yag + int_values(class_values(ls, HeaderField::Gain)) =~= m.yag);
        assert(m.ycf + class_values(ls, HeaderField::CalibrationFactor) =~= m.ycf);
        assert(m.yz + int_values(class_values(ls, HeaderField::ZeroOffset)) =~= m.yz);
    } else {
        let a = ls[0];
        assert(line_ok(a));
        let m1 = apply_line(m, a);
        let t = ls.drop_first();
        lemma_parse_decomposition(m1, t);
        let res = parse_lines(m, ls)->Ok_0;
        assert(parse_lines(m, ls) == parse_lines(m1, t));
        lemma_step_values(m, a, t, HeaderField::Resolution);
        lemma_step_values(m, a, t, HeaderField::AdcMax);
        lemma_step_values(m, a, t, HeaderField::SampleInterval);
        lemma_step_values(m, a, t, HeaderField::Gain);
        lemma_step_values(m, a, t, HeaderField::CalibrationFactor);
        lemma_step_values(m, a, t, HeaderField::ZeroOffset);
    }
}

/// One fold step, seen through one kind's value sequence.
proof fn lemma_step_values(m: MetadataView, a: Seq<u8>, t: Seq<Seq<u8>>, f: HeaderField)
    ensures
        line_class(a) == Some(f) ==> class_values(seq![a] + t, f) == seq![value_of(a)] + class_values(t, f),
        line_class(a) != Some(f) ==> class_values(seq![a] + t, f) == class_values(t, f),
        int_values(seq![value_of(a)] + class_values(t, f)) == seq![int_text_value(value_of(a)) as i32] + int_values(class_values(t, f)),
        last_value(seq![value_of(a)] + class_values(t, f)) == (if class_values(t, f).len() == 0 {
            Some(value_of(a))
        } else {
            last_value(class_values(t, f))
        }),
{
    let s = seq![a] + t;
    assert(s[0] == a);
    assert(s.drop_first() =~= t);
    assert(int_values(seq![value_of(a)] + class_values(t, f)) =~= seq![
        int_text_value(value_of(a)) as i32,
    ] + int_values(class_values(t, f)));
    let w = seq![value_of(a)] + class_values(t, f);
    if class_values(t, f).len() == 0 {
        assert(w.last() == value_of(a));
    } else {
        assert(w.last() == class_values(t, f).last());
    }
}

/// A parse that succeeds read every line without fault.
proof fn lemma_parse_ok_lines(m: MetadataView, ls: Seq<Seq<u8>>)
    requires
        parse_lines(m, ls) is Ok,
    ensures
        forall|i: int| 0 <= i < ls.len() ==> line_ok(#[trigger] ls[i]),
    decreases ls.len(),
{
    if ls.len() > 0 {
        assert(line_ok(ls[0]));
        let t = ls.drop_first();
        lemma_parse_ok_lines(apply_line(m, ls[0]), t);
        assert forall|i: int| 0 <= i < ls.len() implies line_ok(#[trigger] ls[i]) by {
            if i > 0 {
                assert(t[i - 1] == ls[i]);
                assert(line_ok(t[i - 1]));
            }
        }
    }
}

/// A sequence of faultless lines parses without fault.
proof fn lemma_lines_ok_parse_ok(m: MetadataView, ls: Seq<Seq<u8>>)
    requires
        forall|i: int| 0 <= i < ls.len() ==> line_ok(#[trigger] ls[i]),
    ensures
        parse_lines(m, ls) is Ok,
    decreases ls.len(),
{
    if ls.len() > 0 {
        let t = ls.drop_first();
        assert forall|i: int| 0 <= i < t.len() implies line_ok(#[trigger] t[i]) by {
            assert(t[i] == ls[i + 1]);
        }
        lemma_lines_ok_parse_ok(apply_line(m, ls[0]), t);
    }
}

/// Where every line is faultless, every collected value is acceptable.
proof fn lemma_class_values_ok(ls: Seq<Seq<u8>>, f: HeaderField)
    requires
        forall|i: int| 0 <= i < ls.len() ==> line_ok(#[trigger] ls[i]),
    ensures
        forall|k: int|
            0 <= k < class_values(ls, f).len() ==> value_ok(f, #[trigger] class_values(ls, f)[k]),
    decreases ls.len(),
{
    if ls.len() > 0 {
        let t = ls.drop_first();
        assert forall|i: int| 0 <= i < t.len() implies line_ok(#[trigger] t[i]) by {
            assert(t[i] == ls[i + 1]);
        }
        lemma_class_values_ok(t, f);
        let cv = class_values(ls, f);
        let cvt = class_values(t, f);
        if line_class(ls[0]) == Some(f) {
            assert(line_ok(ls[0]));
            assert forall|k: int| 0 <= k < cv.len() implies value_ok(f, #[trigger] cv[k]) by {
                if k == 0 {
                    assert(cv[0] == value_of(ls[0]));
                } else {
                    assert(cv[k] == cvt[k - 1]);
                    assert(value_ok(f, cvt[k - 1]));
                }
            }
        } else {
            assert forall|k: int| 0 <= k < cv.len() implies value_ok(f, #[trigger] cv[k]) by {
                assert(cv[k] == cvt[k]);
                assert(value_ok(f, cvt[k]));
            }
        }
    }
}

/// The value of every line of a kind stands among that kind's values.
proof fn lemma_line_value_in_class(ls: Seq<Seq<u8>>, i: int, f: HeaderField)
    requires
        0 <= i < ls.len(),
        line_class(ls[i]) == Some(f),
    ensures
        exists|k: int|
            0 <= k < class_values(ls, f).len() && #[trigger] class_values(ls, f)[k] == value_of(
                ls[i],
            ),
    decreases i,
{
    let cv = class_values(ls, f);
    let t = ls.drop_first();
    let cvt = class_values(t, f);
    if i == 0 {
        assert(cv[0] == value_of(ls[0]));
    } else {
        assert(t[i - 1] == ls[i]);
        lemma_line_value_in_class(t, i - 1, f);
        let k = choose|k: int|
            0 <= k < cvt.len() && #[trigger] cvt[k] == value_of(t[i - 1]);
        if line_class(ls[0]) == Some(f) {
            assert(cv[k + 1] == cvt[k]);
        } else {
            assert(cv[k] == cvt[k]);
        }
    }
}

/// A sequence whose every kind's values are acceptable holds faultless
/// lines only: a recognized line with an unacceptable or missing value
/// would put an unacceptable value among its kind's.
proof fn lemma_lines_ok_from_values(ls: Seq<Seq<u8>>)
    requires
        forall|f: HeaderField, k: int|
            0 <= k < class_values(ls, f).len() ==> value_ok(f, #[trigger] class_values(ls, f)[k]),
    ensures
        forall|i: int| 0 <= i < ls.len() ==> line_ok(#[trigger] ls[i]),
{
    assert forall|i: int| 0 <= i < ls.len() implies line_ok(#[trigger] ls[i]) by {
        match line_class(ls[i]) {
            None => {},
            Some(f) => {
                lemma_line_value_in_class(ls, i, f);
                let k = choose|k: int|
                    0 <= k < class_values(ls, f).len() && #[trigger] class_values(ls, f)[k]
                        == value_of(ls[i]);
                assert(value_ok(f, class_values(ls, f)[k]));
                if !crate::header::has_eq(ls[i]) {
                    crate::header::lemma_classed_value_needs_eq(ls[i], f);
                }
            },
        }
    }
}

/// Header parsing is order-independent: two headers that carry, for every
/// field, the same values in the same within-kind order — however the kinds
/// are interleaved, and whatever ignored lines stand among them — parse to
/// identical metadata. Order within one kind is deliberately kept: two `YZ`
/// lines fill the zero-offset array in their own order, and of two `AD`
/// lines the later one wins.
pub proof fn lemma_header_order_independent(m: MetadataView, ls1: Seq<Seq<u8>>, ls2: Seq<Seq<u8>>)
    requires
        parse_lines(m, ls1) is Ok,
        forall|f: HeaderField| #[trigger] class_values(ls1, f) == class_values(ls2, f),
    ensures
        parse_lines(m, ls2) == parse_lines(m, ls1),
{
    lemma_parse_ok_lines(m, ls1);
    assert forall|f: HeaderField, k: int|
        0 <= k < class_values(ls2, f).len() implies value_ok(
        f,
        #[trigger] class_values(ls2, f)[k],
    ) by {
        lemma_class_values_ok(ls1, f);
        assert(class_values(ls1, f) == class_values(ls2, f));
        assert(value_ok(f, class_values(ls1, f)[k]));
    }
    lemma_lines_ok_from_values(ls2);
    lemma_lines_ok_parse_ok(m, ls2);
    lemma_parse_decomposition(m, ls1);
    lemma_parse_decomposition(m, ls2);
    let r1 = parse_lines(m, ls1)->Ok_0;
    let r2 = parse_lines(m, ls2)->Ok_0;
    assert(class_values(ls1, HeaderField::Resolution) == class_values(ls2, HeaderField::Resolution));
    assert(class_values(ls1, HeaderField::AdcMax) == class_values(ls2, HeaderField::AdcMax));
    assert(class_values(ls1, HeaderField::SampleInterval) == class_values(
        ls2,
        HeaderField::SampleInterval,
    ));
    assert(class_values(ls1, HeaderField::Gain) == class_values(ls2, HeaderField::Gain));
    assert(class_values(ls1, HeaderField::CalibrationFactor) == class_values(
        ls2,
        HeaderField::CalibrationFactor,
    ));
    assert(class_values(ls1, HeaderField::ZeroOffset) == class_values(ls2, HeaderField::ZeroOffset));
    assert(r1 =~~= r2);
}

/// Reading two adjacent lines of different kinds in either order ends in
/// the same metadata.
proof fn lemma_apply_commutes(m: MetadataView, a: Seq<u8>, b: Seq<u8>)
    requires
        line_class(a) != line_class(b),
    ensures
        apply_line(apply_line(m, a), b) == apply_line(apply_line(m, b), a),
{
    assert(apply_line(apply_line(m, a), b) =~~= apply_line(apply_line(m, b), a));
}

/// Header parsing is order-independent across kinds: swapping two
/// neighbouring lines whose tags select different fields (or of which one
/// is ignored) yields identical metadata, whenever the header parses at
/// all. Order within one kind does matter — two `YZ` lines fill the
/// zero-offset array in their own order, and of two `AD` lines the later
/// one wins — so equal classes are left out.
pub proof fn lemma_header_swap_adjacent(m: MetadataView, ls: Seq<Seq<u8>>, i: int)
    requires
        0 <= i,
        i + 1 < ls.len(),
        line_class(ls[i]) != line_class(ls[i + 1]),
        parse_lines(m, ls) is Ok,
    ensures
        parse_lines(m, ls.update(i, ls[i + 1]).update(i + 1, ls[i])) == parse_lines(m, ls),
    decreases i,
{
    let sw = ls.update(i, ls[i + 1]).update(i + 1, ls[i]);
    if i == 0 {
        let a = ls[0];
        let b = ls[1];
        assert(line_ok(a));
        let m1 = apply_line(m, a);
        assert(parse_lines(m, ls) == parse_lines(m1, ls.drop_first()));
        assert(ls.drop_first()[0] == b);
        assert(line_ok(b));
        assert(parse_lines(m1, ls.drop_first()) == parse_lines(
            apply_line(m1, b),
            ls.drop_first().drop_first(),
        ));
        assert(sw[0] == b && sw[1] == a);
        assert(sw.drop_first()[0] == a);
        assert(parse_lines(m, sw) == parse_lines(apply_line(m, b), sw.drop_first()));
        assert(parse_lines(apply_line(m, b), sw.drop_first()) == parse_lines(
            apply_line(apply_line(m, b), a),
            sw.drop_first().drop_first(),
        ));
        lemma_apply_commutes(m, a, b);
        assert(sw.drop_first().drop_first() =~= ls.drop_first().drop_first());
    } else {
        assert(sw[0] == ls[0]);
        assert(line_ok(ls[0]));
        let m1 = apply_line(m, ls[0]);
        let t = ls.drop_first();
        assert(parse_lines(m, ls) == parse_lines(m1, t));
        assert(t[i - 1] == ls[i] && t[i] == ls[i + 1]);
        lemma_header_swap_adjacent(m1, t, i - 1);
        assert(sw.drop_first() =~= t.update(i - 1, t[i]).update(i, t[i - 1]));
        assert(parse_lines(m, sw) == parse_lines(m1, sw.drop_first()));
    }
}

/// Unrecognized lines are ignored: inserting a line whose tag matches no
/// field anywhere into the header changes nothing of what parsing yields.
pub proof fn lemma_header_ignores_unrecognized(m: MetadataView, ls: Seq<Seq<u8>>, i: int, l: Seq<u8>)
    requires
        0 <= i <= ls.len(),
        line_class(l) is None,
    ensures
        parse_lines(m, ls.insert(i, l)) == parse_lines(m, ls),
    decreases i,
{
    let ins = ls.insert(i, l);
    if i == 0 {
        assert(ins[0] == l);
        assert(line_ok(l));
        assert(apply_line(m, l) =~~= m);
        assert(ins.drop_first() =~= ls);
        assert(parse_lines(m, ins) == parse_lines(apply_line(m, l), ins.drop_first()));
    } else {
        assert(ins[0] == ls[0]);
        if line_ok(ls[0]) {
            let m1 = apply_line(m, ls[0]);
            lemma_header_ignores_unrecognized(m1, ls.drop_first(), i - 1, l);
            assert(ins.drop_first() =~= ls.drop_first().insert(i - 1, l));
            assert(parse_lines(m, ins) == parse_lines(m1, ins.drop_first()));
            assert(parse_lines(m, ls) == parse_lines(m1, ls.drop_first()));
        } else {
            assert(parse_lines(m, ins) == Err::<MetadataView, _>(line_err(ins[0])));
            assert(parse_lines(m, ls) == Err::<MetadataView, _>(line_err(ls[0])));
        }
    }
}

} // verus!
