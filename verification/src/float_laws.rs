use vstd::prelude::*;

use crate::ascii::{in_class, is_digit, is_whitespace, lemma_run_end_bounds, lower, run_end, ByteClass};
use crate::float::{
    exponent_reading, float_scan, fraction_end, has_nonzero_digit, infnan_reading, is_sci_marker,
    is_sign, nan_rest, normalized_byte, normalized_text, number_start, sign_end, sign_marker,
    significand_end, starts_with_word, word_inf, word_infinity, word_nan, ScanModel,
};
use crate::ParseError;

verus! {

// ---------------------------------------------------------------------------
// Bytes that the float syntax tells apart only by their value
// ---------------------------------------------------------------------------

/// `b` is an ASCII letter.
pub open spec fn is_letter(b: u8) -> bool {
    (0x41 <= b && b <= 0x5a) || (0x61 <= b && b <= 0x7a)
}

/// A byte that plays no part in the float syntax: no digit, white space,
/// letter, `_`, sign or parenthesis.
pub open spec fn is_neutral(b: u8) -> bool {
    &&& !is_digit(b)
    &&& !is_whitespace(b)
    &&& !is_letter(b)
    &&& b != 0x5f
    &&& !is_sign(b)
    &&& b != 0x28
    &&& b != 0x29
}

/// `a` and `x` answer every test that the scanner makes of a byte alike,
/// apart from the tests for a leading sign.
pub open spec fn same_kind(a: u8, x: u8) -> bool {
    &&& is_digit(a) == is_digit(x)
    &&& (a == 0x30) == (x == 0x30)
    &&& is_whitespace(a) == is_whitespace(x)
    &&& in_class(a, ByteClass::NanPayload) == in_class(x, ByteClass::NanPayload)
    &&& (a == 0x28) == (x == 0x28)
    &&& (a == 0x29) == (x == 0x29)
    &&& is_sign(a) == is_sign(x)
    &&& is_sci_marker(a) == is_sci_marker(x)
    &&& (a == 0x64 || a == 0x44) == (x == 0x64 || x == 0x44)
    &&& (lower(a) == lower(x) || (!is_letter(a) && !is_letter(x)))
}

/// Byte `x` of the second input stands for byte `a` of the first: it is the
/// other decimal point where `a` is the first's decimal point, and otherwise
/// the same byte, or `x0` in place of `a0`.
pub open spec fn stands_for(a: u8, x: u8, dp: u8, dp2: u8, a0: u8, x0: u8) -> bool {
    ||| (a == dp && x == dp2)
    ||| (a != dp && x != dp2 && (x == a || (a == a0 && x == x0)))
}

/// Two scan results that agree but for bytes `x0` of the second number text
/// where the first has `a0`.
pub open spec fn scans_agree(
    r1: Result<ScanModel, ParseError>,
    r2: Result<ScanModel, ParseError>,
    a0: u8,
    x0: u8,
) -> bool {
    match r1 {
        Err(e1) => r2 == Err::<ScanModel, ParseError>(e1),
        Ok(ScanModel::Nan { rest }) => r2 == Ok::<ScanModel, ParseError>(ScanModel::Nan { rest }),
        Ok(ScanModel::Infinity { neg, rest }) => r2 == Ok::<ScanModel, ParseError>(
            ScanModel::Infinity { neg, rest },
        ),
        Ok(ScanModel::Number { text, rest, nonzero_digit }) => match r2 {
            Ok(ScanModel::Number { text: text2, rest: rest2, nonzero_digit: nonzero2 }) => {
                &&& rest2 == rest
                &&& nonzero2 == nonzero_digit
                &&& text2.len() == text.len()
                &&& forall|k: int|
                    0 <= k < text.len() ==> #[trigger] text2[k] == text[k] || (text[k] == a0
                        && text2[k] == x0)
            },
            _ => false,
        },
    }
}

proof fn lemma_same_kind_refl(a: u8)
    ensures
        same_kind(a, a),
{
}

proof fn lemma_stands_for_kind(a: u8, x: u8, dp: u8, dp2: u8, a0: u8, x0: u8)
    requires
        stands_for(a, x, dp, dp2, a0, x0),
        same_kind(dp, dp2),
        same_kind(a0, x0),
    ensures
        same_kind(a, x),
        (a == dp) == (x == dp2),
{
}

/// Runs over two inputs whose bytes agree on the class have the same end.
proof fn lemma_run_end_congruent(s: Seq<u8>, s2: Seq<u8>, j: int, c: ByteClass)
    requires
        s.len() == s2.len(),
        forall|k: int| 0 <= k < s.len() ==> in_class(#[trigger] s[k], c) == in_class(s2[k], c),
    ensures
        run_end(s, j, c) == run_end(s2, j, c),
    decreases s.len() - j,
{
    if 0 <= j < s.len() && in_class(s[j], c) {
        lemma_run_end_congruent(s, s2, j + 1, c);
    }
}

/// A lower-case word starts two inputs alike whose bytes are of the same kind.
proof fn lemma_word_congruent(s: Seq<u8>, s2: Seq<u8>, p: int, w: Seq<u8>)
    requires
        s.len() == s2.len(),
        forall|k: int| 0 <= k < s.len() ==> same_kind(#[trigger] s[k], s2[k]),
        forall|k: int| 0 <= k < w.len() ==> 0x61 <= #[trigger] w[k] <= 0x7a,
    ensures
        starts_with_word(s, p, w) == starts_with_word(s2, p, w),
{
    if 0 <= p && p + w.len() <= s.len() {
        assert forall|k: int| 0 <= k < w.len() implies (lower(#[trigger] s[p + k]) == w[k])
            == (lower(s2[p + k]) == w[k]) by {
            assert(same_kind(s[p + k], s2[p + k]));
        }
        if starts_with_word(s, p, w) {
            assert forall|k: int| 0 <= k < w.len() implies lower(#[trigger] s2[p + k]) == w[k] by {
                assert(lower(s[p + k]) == w[k]);
            }
        }
        if starts_with_word(s2, p, w) {
            assert forall|k: int| 0 <= k < w.len() implies lower(#[trigger] s[p + k]) == w[k] by {
                assert(lower(s2[p + k]) == w[k]);
            }
        }
    }
}

/// The facts about two inputs related byte by byte that the congruence of
/// their scans rests on.
pub open spec fn inputs_alike(s: Seq<u8>, s2: Seq<u8>, dp: u8, dp2: u8) -> bool {
    &&& s.len() == s2.len()
    &&& forall|k: int| 0 <= k < s.len() ==> same_kind(#[trigger] s[k], s2[k])
    &&& forall|k: int| 0 <= k < s.len() ==> (#[trigger] s[k] == dp) == (s2[k] == dp2)
}

proof fn lemma_runs_congruent(s: Seq<u8>, s2: Seq<u8>, dp: u8, dp2: u8)
    requires
        inputs_alike(s, s2, dp, dp2),
    ensures
        forall|j: int, c: ByteClass| #[trigger] run_end(s, j, c) == run_end(s2, j, c),
{
    assert forall|j: int, c: ByteClass| #[trigger] run_end(s, j, c) == run_end(s2, j, c) by {
        assert forall|k: int| 0 <= k < s.len() implies in_class(#[trigger] s[k], c) == in_class(
            s2[k],
            c,
        ) by {
            assert(same_kind(s[k], s2[k]));
        }
        lemma_run_end_congruent(s, s2, j, c);
    }
}

proof fn lemma_exponent_congruent(s: Seq<u8>, s2: Seq<u8>, dp: u8, dp2: u8, i: int, f: u32)
    requires
        inputs_alike(s, s2, dp, dp2),
        0 <= i,
    ensures
        exponent_reading(s, i, f) == exponent_reading(s2, i, f),
{
    lemma_runs_congruent(s, s2, dp, dp2);
    if i < s.len() {
        assert(same_kind(s[i], s2[i]));
        if i + 1 < s.len() {
            assert(same_kind(s[i + 1], s2[i + 1]));
        }
    }
}

proof fn lemma_infnan_congruent(s: Seq<u8>, s2: Seq<u8>, dp: u8, dp2: u8, p: int, neg: bool)
    requires
        inputs_alike(s, s2, dp, dp2),
        0 <= p,
    ensures
        infnan_reading(s, p, neg) == infnan_reading(s2, p, neg),
{
    lemma_runs_congruent(s, s2, dp, dp2);
    let nan = word_nan();
    let inf = word_inf();
    let infinity = word_infinity();
    assert(nan[0] == 0x6e && nan[1] == 0x61 && nan[2] == 0x6e);
    assert(inf[0] == 0x69 && inf[1] == 0x6e && inf[2] == 0x66);
    assert(infinity[0] == 0x69 && infinity[1] == 0x6e && infinity[2] == 0x66 && infinity[3] == 0x69
        && infinity[4] == 0x6e && infinity[5] == 0x69 && infinity[6] == 0x74 && infinity[7] == 0x79);
    lemma_word_congruent(s, s2, p, nan);
    lemma_word_congruent(s, s2, p, inf);
    lemma_word_congruent(s, s2, p, infinity);
    let q = p + 3;
    if q < s.len() {
        lemma_run_end_bounds(s, q + 1, ByteClass::NanPayload);
        assert(same_kind(s[q], s2[q]));
        let k = run_end(s, q + 1, ByteClass::NanPayload);
        assert(k == run_end(s2, q + 1, ByteClass::NanPayload));
        if 0 <= k < s.len() {
            assert(same_kind(s[k], s2[k]));
        }
    }
    assert(nan_rest(s, q) == nan_rest(s2, q));
}

/// The scans of two inputs related byte by byte, and with the same leading
/// sign, agree: the bytes that stand for each other make the same syntax.
proof fn lemma_scan_congruent(
    s: Seq<u8>,
    s2: Seq<u8>,
    f: u32,
    dp: u8,
    dp2: u8,
    a0: u8,
    x0: u8,
)
    requires
        s.len() == s2.len(),
        forall|k: int| 0 <= k < s.len() ==> stands_for(#[trigger] s[k], s2[k], dp, dp2, a0, x0),
        same_kind(dp, dp2),
        same_kind(a0, x0),
        number_start(s, f) < s.len() ==> (s[number_start(s, f)] == 0x2d) == (s2[number_start(
            s,
            f,
        )] == 0x2d) && (s[number_start(s, f)] == 0x2b) == (s2[number_start(s, f)] == 0x2b),
    ensures
        scans_agree(float_scan(s, f, dp), float_scan(s2, f, dp2), a0, x0),
{
    assert forall|k: int| 0 <= k < s.len() implies same_kind(#[trigger] s[k], s2[k]) && ((s[k]
        == dp) == (s2[k] == dp2)) by {
        lemma_stands_for_kind(s[k], s2[k], dp, dp2, a0, x0);
    }
    assert(inputs_alike(s, s2, dp, dp2));
    lemma_runs_congruent(s, s2, dp, dp2);
    lemma_run_end_bounds(s, 0, ByteClass::WhiteSpace);
    let b = number_start(s, f);
    assert(b == number_start(s2, f));
    if b < s.len() {
        let p = sign_end(s, b, f);
        assert(p == sign_end(s2, b, f));
        lemma_run_end_bounds(s, p, ByteClass::Digit);
        let int_end = run_end(s, p, ByteClass::Digit);
        if p < s.len() {
            assert(same_kind(s[p], s2[p]));
        }
        if int_end < s.len() {
            assert((s[int_end] == dp) == (s2[int_end] == dp2));
        }
        lemma_infnan_congruent(s, s2, dp, dp2, p, s[b] == 0x2d);
        let has_point = int_end < s.len() && s[int_end] == dp;
        if has_point {
            lemma_run_end_bounds(s, int_end + 1, ByteClass::Digit);
        }
        let frac_end = fraction_end(s, int_end, dp);
        assert(frac_end == fraction_end(s2, int_end, dp2));
        lemma_exponent_congruent(s, s2, dp, dp2, frac_end, f);
        crate::float::law_scan_rest_is_suffix(s, f, dp);
        if let Ok((end, m)) = exponent_reading(s, frac_end, f) {
            if end - b <= crate::float::MAX_NUMBER_LEN && b <= end <= s.len() {
                assert(m < end);
                lemma_number_congruent(s, s2, f, dp, dp2, a0, x0, b, end, m);
            }
        }
    }
}

/// The number texts of two inputs related byte by byte agree, and so do
/// their nonzero digits.
proof fn lemma_number_congruent(
    s: Seq<u8>,
    s2: Seq<u8>,
    f: u32,
    dp: u8,
    dp2: u8,
    a0: u8,
    x0: u8,
    b: int,
    end: int,
    m: int,
)
    requires
        s.len() == s2.len(),
        forall|k: int| 0 <= k < s.len() ==> stands_for(#[trigger] s[k], s2[k], dp, dp2, a0, x0),
        inputs_alike(s, s2, dp, dp2),
        0 <= b <= end <= s.len(),
        m < end,
    ensures
        has_nonzero_digit(s, b, significand_end(end, m)) == has_nonzero_digit(
            s2,
            b,
            significand_end(end, m),
        ),
        normalized_text(s2, b, end, m, f, dp2).len() == normalized_text(s, b, end, m, f, dp).len(),
        forall|t: int|
            0 <= t < normalized_text(s, b, end, m, f, dp).len() ==> #[trigger] normalized_text(
                s2,
                b,
                end,
                m,
                f,
                dp2,
            )[t] == normalized_text(s, b, end, m, f, dp)[t] || (normalized_text(s, b, end, m, f, dp)[t]
                == a0 && normalized_text(s2, b, end, m, f, dp2)[t] == x0),
{
                let sig = significand_end(end, m);
                assert(has_nonzero_digit(s, b, sig) == has_nonzero_digit(s2, b, sig)) by {
                    if has_nonzero_digit(s, b, sig) {
                        let w = choose|k: int| b <= k < sig && 0x31 <= #[trigger] s[k] <= 0x39;
                        assert(same_kind(s[w], s2[w]));
                        assert(0x31 <= s2[w] <= 0x39);
                    }
                    if has_nonzero_digit(s2, b, sig) {
                        let w = choose|k: int| b <= k < sig && 0x31 <= #[trigger] s2[k] <= 0x39;
                        assert(same_kind(s[w], s2[w]));
                        assert(0x31 <= s[w] <= 0x39);
                    }
                }
                let bytes = Seq::new(
                    (end - b) as nat,
                    |t: int| normalized_byte(s[b + t], b + t == m, f, dp),
                );
                let bytes2 = Seq::new(
                    (end - b) as nat,
                    |t: int| normalized_byte(s2[b + t], b + t == m, f, dp2),
                );
                assert forall|t: int| 0 <= t < bytes.len() implies #[trigger] bytes2[t] == bytes[t]
                    || (bytes[t] == a0 && bytes2[t] == x0) by {
                    assert(stands_for(s[b + t], s2[b + t], dp, dp2, a0, x0));
                    assert(same_kind(s[b + t], s2[b + t]));
                }
                if b <= m < end {
                    assert(same_kind(s[m], s2[m]));
                    assert((s[m] == dp) == (s2[m] == dp2));
                }
                assert(sign_marker(s, b, end, m, f, dp) == sign_marker(s2, b, end, m, f, dp2));
                let text = normalized_text(s, b, end, m, f, dp);
                let text2 = normalized_text(s2, b, end, m, f, dp2);
                if sign_marker(s, b, end, m, f, dp) {
                    let i = m - b;
                    assert(text == bytes.insert(i, 0x65));
                    assert(text2 == bytes2.insert(i, 0x65));
                    assert forall|t: int| 0 <= t < text.len() implies #[trigger] text2[t] == text[t]
                        || (text[t] == a0 && text2[t] == x0) by {
                        if t < i {
                            assert(text[t] == bytes[t] && text2[t] == bytes2[t]);
                        } else if t > i {
                            assert(text[t] == bytes[t - 1] && text2[t] == bytes2[t - 1]);
                        }
                    }
                } else {
                    assert(text == bytes);
                    assert(text2 == bytes2);
                }
}

// ---------------------------------------------------------------------------
// Laws
// ---------------------------------------------------------------------------

/// The case of an `e` decides nothing: writing `E` in place of an `e`
/// anywhere gives the same scan, the number's text with `E` where it had `e`.
/// So an `E` after a mantissa starts an exponent exactly when an `e` does.
pub proof fn law_exponent_marker_case(s: Seq<u8>, i: int, f: u32, dp: u8)
    requires
        0 <= i < s.len(),
        s[i] == 0x65,
        dp != 0x65 && dp != 0x45,
    ensures
        scans_agree(float_scan(s, f, dp), float_scan(s.update(i, 0x45), f, dp), 0x65, 0x45),
{
    let s2 = s.update(i, 0x45);
    assert forall|k: int| 0 <= k < s.len() implies stands_for(
        #[trigger] s[k],
        s2[k],
        dp,
        dp,
        0x65,
        0x45,
    ) by {}
    lemma_same_kind_refl(dp);
    lemma_run_end_bounds(s, 0, ByteClass::WhiteSpace);
    let b = number_start(s, f);
    if b < s.len() {
        assert(stands_for(s[b], s2[b], dp, dp, 0x65, 0x45));
    }
    lemma_scan_congruent(s, s2, f, dp, dp, 0x65, 0x45);
}

/// Past the number's first byte, a `+` and a `-` make the same syntax: writing
/// `-` in place of a `+` gives the same scan, the text with `-` where it had
/// `+`. So an exponent sign is read after `e`, `E`, `d` or `D` whichever it is.
pub proof fn law_exponent_sign_choice(s: Seq<u8>, i: int, f: u32, dp: u8)
    requires
        number_start(s, f) < i < s.len(),
        s[i] == 0x2b,
        dp != 0x2b && dp != 0x2d,
    ensures
        scans_agree(float_scan(s, f, dp), float_scan(s.update(i, 0x2d), f, dp), 0x2b, 0x2d),
{
    let s2 = s.update(i, 0x2d);
    lemma_run_end_bounds(s, 0, ByteClass::WhiteSpace);
    assert forall|k: int| 0 <= k < s.len() implies stands_for(
        #[trigger] s[k],
        s2[k],
        dp,
        dp,
        0x2b,
        0x2d,
    ) by {}
    lemma_same_kind_refl(dp);
    lemma_scan_congruent(s, s2, f, dp, dp, 0x2b, 0x2d);
}

/// The decimal point is any byte the options name: writing another byte that
/// plays no part in the syntax (and is not in the input) in place of the
/// decimal point, in the input and in the options alike, gives the same scan.
pub proof fn law_decimal_point_renaming(s: Seq<u8>, f: u32, dp: u8, d2: u8)
    requires
        is_neutral(dp),
        is_neutral(d2),
        forall|k: int| 0 <= k < s.len() ==> #[trigger] s[k] != d2,
    ensures
        float_scan(
            Seq::new(
                s.len(),
                |k: int|
                    if s[k] == dp {
                        d2
                    } else {
                        s[k]
                    },
            ),
            f,
            d2,
        ) == float_scan(s, f, dp),
{
    let s2 = Seq::new(
        s.len(),
        |k: int|
            if s[k] == dp {
                d2
            } else {
                s[k]
            },
    );
    assert forall|k: int| 0 <= k < s.len() implies stands_for(
        #[trigger] s[k],
        s2[k],
        dp,
        d2,
        0,
        0,
    ) by {}
    lemma_same_kind_refl(0);
    lemma_run_end_bounds(s, 0, ByteClass::WhiteSpace);
    lemma_scan_congruent(s, s2, f, dp, d2, 0, 0);
    if let Ok(ScanModel::Number { text, .. }) = float_scan(s, f, dp) {
        if let Ok(ScanModel::Number { text: text2, .. }) = float_scan(s2, f, d2) {
            assert(text2 =~= text);
        }
    }
}

/// An infinity carries the sign that starts the number: negative exactly when
/// the number starts with `-`.
pub proof fn law_infinity_sign(s: Seq<u8>, f: u32, dp: u8)
    ensures
        float_scan(s, f, dp) matches Ok(ScanModel::Infinity { neg, .. }) ==> 0 <= number_start(s, f)
            < s.len() && neg == (s[number_start(s, f)] == 0x2d),
{
    lemma_run_end_bounds(s, 0, ByteClass::WhiteSpace);
}

/// In the JSON syntax (with fixed notation), an integer part without a
/// leading zero followed by a decimal point and at least one digit is
/// accepted: the scan gives a number that ends past that first fraction
/// digit, or is out of range for its length, and never refuses the syntax.
pub proof fn law_json_fraction_digits(s: Seq<u8>, f: u32, dp: u8)
    requires
        crate::format::has_flag(f, crate::format::FLAG_BASIC_JSON),
        crate::format::has_flag(f, crate::format::FLAG_FIXED),
        number_start(s, f) < s.len(),
        ({
            let b = number_start(s, f);
            let p = if s[b] == 0x2d {
                b + 1
            } else {
                b
            };
            let i = run_end(s, p, ByteClass::Digit);
            &&& p < i
            &&& (i == p + 1 || s[p] != 0x30)
            &&& i + 1 < s.len()
            &&& s[i] == dp
            &&& is_digit(s[i + 1])
        }),
    ensures
        float_scan(s, f, dp) != Err::<ScanModel, ParseError>(ParseError::InvalidInput),
        float_scan(s, f, dp) matches Ok(m) ==> m is Number && crate::float::rest_of(m) > run_end(
            s,
            if s[number_start(s, f)] == 0x2d {
                number_start(s, f) + 1
            } else {
                number_start(s, f)
            },
            ByteClass::Digit,
        ) + 1,
{
    lemma_run_end_bounds(s, 0, ByteClass::WhiteSpace);
    let b = number_start(s, f);
    let p = sign_end(s, b, f);
    lemma_run_end_bounds(s, p, ByteClass::Digit);
    let i = run_end(s, p, ByteClass::Digit);
    lemma_run_end_bounds(s, i + 1, ByteClass::Digit);
    assert(run_end(s, i + 1, ByteClass::Digit) == run_end(s, i + 2, ByteClass::Digit));
    lemma_run_end_bounds(s, i + 2, ByteClass::Digit);
    let frac_end = fraction_end(s, i, dp);
    if frac_end < s.len() {
        let c = s[frac_end];
        let j = if is_sign(c) {
            frac_end
        } else {
            frac_end + 1
        };
        let k = if j < s.len() && is_sign(s[j]) {
            j + 1
        } else {
            j
        };
        if k <= s.len() {
            lemma_run_end_bounds(s, k, ByteClass::Digit);
        }
    }
}

} // verus!
