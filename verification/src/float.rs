use vstd::prelude::*;

use crate::ascii::{
    byte_to_lower, in_class, is_digit, lemma_run_end_bounds, lemma_run_end_skip, lower, run_end, skip_run, ByteClass,
};
use crate::format::{
    has_flag, FfFormat, FfcParseOptions, FLAG_ALLOW_LEADING_PLUS, FLAG_BASIC_FORTRAN,
    FLAG_BASIC_JSON, FLAG_FIXED, FLAG_NO_INFNAN, FLAG_SCIENTIFIC, FLAG_SKIP_WHITE_SPACE,
};
use crate::ParseError;

verus! {

/// The longest number text that the parser hands on for conversion.
pub const MAX_NUMBER_LEN: usize = 128;

// ---------------------------------------------------------------------------
// The syntax, as spec functions
// ---------------------------------------------------------------------------

/// Where the number starts: past the leading white space when the format skips it.
pub open spec fn number_start(s: Seq<u8>, f: u32) -> int {
    if has_flag(f, FLAG_SKIP_WHITE_SPACE) {
        run_end(s, 0, ByteClass::WhiteSpace)
    } else {
        0
    }
}

/// Where the digits start: past a `-`, or past a `+` where the format allows one.
pub open spec fn sign_end(s: Seq<u8>, b: int, f: u32) -> int {
    if s[b] == 0x2d {
        b + 1
    } else if s[b] == 0x2b && !has_flag(f, FLAG_BASIC_JSON) && has_flag(f, FLAG_ALLOW_LEADING_PLUS) {
        b + 1
    } else {
        b
    }
}

/// `nan` in lower case.
pub open spec fn word_nan() -> Seq<u8> {
    seq![0x6eu8, 0x61u8, 0x6eu8]
}

/// `inf` in lower case.
pub open spec fn word_inf() -> Seq<u8> {
    seq![0x69u8, 0x6eu8, 0x66u8]
}

/// `infinity` in lower case.
pub open spec fn word_infinity() -> Seq<u8> {
    seq![0x69u8, 0x6eu8, 0x66u8, 0x69u8, 0x6eu8, 0x69u8, 0x74u8, 0x79u8]
}

/// `s[p..]` starts with the lower-case `word`, ASCII case ignored.
pub open spec fn starts_with_word(s: Seq<u8>, p: int, word: Seq<u8>) -> bool {
    &&& 0 <= p
    &&& p + word.len() <= s.len()
    &&& forall|k: int| 0 <= k < word.len() ==> lower(#[trigger] s[p + k]) == word[k]
}

/// Where the input resumes after `nan` that ends before `q`: past a payload
/// `(...)` of letters, digits and `_` when it is closed, else at `q`.
pub open spec fn nan_rest(s: Seq<u8>, q: int) -> int {
    if q < s.len() && s[q] == 0x28 {
        let k = run_end(s, q + 1, ByteClass::NanPayload);
        if k < s.len() && s[k] == 0x29 {
            k + 1
        } else {
            q
        }
    } else {
        q
    }
}

/// The reading of `nan`, `infinity` or `inf` at `p`.
pub open spec fn infnan_reading(s: Seq<u8>, p: int, neg: bool) -> Result<ScanModel, ParseError> {
    if starts_with_word(s, p, word_nan()) {
        Ok(ScanModel::Nan { rest: nan_rest(s, p + 3) })
    } else if starts_with_word(s, p, word_infinity()) {
        Ok(ScanModel::Infinity { neg, rest: p + 8 })
    } else if starts_with_word(s, p, word_inf()) {
        Ok(ScanModel::Infinity { neg, rest: p + 3 })
    } else {
        Err(ParseError::InvalidInput)
    }
}

/// Where the fraction ends that may follow the integer digits ending at `i`:
/// past the digits after a decimal point, or at `i` when no point follows.
pub open spec fn fraction_end(s: Seq<u8>, i: int, dp: u8) -> int {
    if i < s.len() && s[i] == dp {
        run_end(s, i + 1, ByteClass::Digit)
    } else {
        i
    }
}

pub open spec fn is_sign(b: u8) -> bool {
    b == 0x2b || b == 0x2d
}

/// An exponent marker of scientific notation: `e` or `E`.
pub open spec fn is_sci_marker(b: u8) -> bool {
    b == 0x65 || b == 0x45
}

/// An exponent marker of Fortran: `d`, `D`, or a sign.
pub open spec fn is_fortran_marker(b: u8) -> bool {
    b == 0x64 || b == 0x44 || is_sign(b)
}

/// The exponent that may follow the mantissa ending at `i`: where the number
/// ends and where its exponent marker stands (`-1` for none), or the error.
pub open spec fn exponent_reading(s: Seq<u8>, i: int, f: u32) -> Result<(int, int), ParseError> {
    if i < s.len() {
        let c = s[i];
        let sci = has_flag(f, FLAG_SCIENTIFIC) && is_sci_marker(c);
        let fortran = has_flag(f, FLAG_BASIC_FORTRAN) && is_fortran_marker(c);
        if sci || fortran {
            let j = if is_sign(c) {
                i
            } else {
                i + 1
            };
            let k = if j < s.len() && is_sign(s[j]) {
                j + 1
            } else {
                j
            };
            let e = run_end(s, k, ByteClass::Digit);
            if e > k {
                Ok((e, i))
            } else if has_flag(f, FLAG_FIXED) {
                Ok((i, -1))
            } else {
                Err(ParseError::InvalidInput)
            }
        } else if has_flag(f, FLAG_SCIENTIFIC) && !has_flag(f, FLAG_FIXED) {
            Err(ParseError::InvalidInput)
        } else {
            Ok((i, -1))
        }
    } else {
        Ok((i, -1))
    }
}

/// A byte of the number as handed on for conversion: the decimal point
/// becomes `.`, a Fortran exponent marker `d` or `D` becomes `e`.
pub open spec fn normalized_byte(b: u8, at_marker: bool, f: u32, dp: u8) -> u8 {
    if b == dp {
        0x2e
    } else if at_marker && has_flag(f, FLAG_BASIC_FORTRAN) && (b == 0x64 || b == 0x44) {
        0x65
    } else {
        b
    }
}

/// The exponent marker at `marker`, within `s[b..end]`, is a bare sign as
/// Fortran writes it (`1.5-3`), which the conversion reads as `e` and that sign.
pub open spec fn sign_marker(s: Seq<u8>, b: int, end: int, marker: int, f: u32, dp: u8) -> bool {
    &&& b <= marker < end
    &&& has_flag(f, FLAG_BASIC_FORTRAN)
    &&& is_sign(s[marker])
    &&& s[marker] != dp
}

/// The number `s[b..end]` as handed on for conversion: byte by byte as
/// `normalized_byte` maps them, with an `e` put before a Fortran sign marker.
pub open spec fn normalized_text(s: Seq<u8>, b: int, end: int, marker: int, f: u32, dp: u8) -> Seq<
    u8,
> {
    let bytes = Seq::new((end - b) as nat, |k: int| normalized_byte(s[b + k], b + k == marker, f, dp));
    if sign_marker(s, b, end, marker, f, dp) {
        bytes.insert(marker - b, 0x65)
    } else {
        bytes
    }
}

/// Where the significand of the number `s[..end]` ends: at the exponent
/// marker, if there is one.
pub open spec fn significand_end(end: int, marker: int) -> int {
    if marker >= 0 {
        marker
    } else {
        end
    }
}

/// `s[b..end]` holds one of the digits `1` to `9`.
pub open spec fn has_nonzero_digit(s: Seq<u8>, b: int, end: int) -> bool {
    exists|k: int| b <= k < end && 0x31 <= #[trigger] s[k] <= 0x39
}

/// What the scanner finds at the start of an input.
pub enum ScanModel {
    /// `nan`; the rest of the input starts at `rest`.
    Nan { rest: int },
    /// `inf` or `infinity` with the sign `neg`.
    Infinity { neg: bool, rest: int },
    /// A decimal number, as `text` hands it on for conversion; `nonzero_digit`
    /// tells whether its significand, as written, holds a digit other than `0`.
    Number { text: Seq<u8>, rest: int, nonzero_digit: bool },
}

/// The float syntax of the format `f` with the decimal point `dp`, as the
/// scanner reads it from the start of `s`.
pub open spec fn float_scan(s: Seq<u8>, f: u32, dp: u8) -> Result<ScanModel, ParseError> {
    let b = number_start(s, f);
    if b >= s.len() {
        Err(ParseError::InvalidInput)
    } else {
        let neg = s[b] == 0x2d;
        let p = sign_end(s, b, f);
        let int_end = run_end(s, p, ByteClass::Digit);
        let int_len = int_end - p;
        let json = has_flag(f, FLAG_BASIC_JSON);
        if json && (int_len == 0 || (int_len > 1 && s[p] == 0x30)) {
            Err(ParseError::InvalidInput)
        } else if !json && int_len == 0 && (int_end == s.len() || s[int_end] != dp) {
            if has_flag(f, FLAG_NO_INFNAN) {
                Err(ParseError::InvalidInput)
            } else {
                infnan_reading(s, p, neg)
            }
        } else {
            let has_point = int_end < s.len() && s[int_end] == dp;
            let frac_end = fraction_end(s, int_end, dp);
            let frac_len = if has_point {
                frac_end - (int_end + 1)
            } else {
                0
            };
            if json && has_point && frac_len == 0 {
                Err(ParseError::InvalidInput)
            } else if int_len == 0 && frac_len == 0 {
                Err(ParseError::InvalidInput)
            } else {
                match exponent_reading(s, frac_end, f) {
                    Err(e) => Err(e),
                    Ok((end, marker)) => if end - b > MAX_NUMBER_LEN {
                        Err(ParseError::OutOfRange)
                    } else {
                        Ok(
                            ScanModel::Number {
                                text: normalized_text(s, b, end, marker, f, dp),
                                rest: end,
                                nonzero_digit: has_nonzero_digit(
                                    s,
                                    b,
                                    significand_end(end, marker),
                                ),
                            },
                        )
                    },
                }
            }
        }
    }
}

// ---------------------------------------------------------------------------
// The scanner
// ---------------------------------------------------------------------------

/// What the scanner finds at the start of an input; `rest` is the index where
/// the rest of the input starts.
pub enum FloatScan {
    Nan { rest: usize },
    Infinity { neg: bool, rest: usize },
    Number { text: Vec<u8>, rest: usize, nonzero_digit: bool },
}

impl View for FloatScan {
    type V = ScanModel;

    open spec fn view(&self) -> ScanModel {
        match self {
            FloatScan::Nan { rest } => ScanModel::Nan { rest: *rest as int },
            FloatScan::Infinity { neg, rest } => ScanModel::Infinity { neg: *neg, rest: *rest as int },
            FloatScan::Number { text, rest, nonzero_digit } => ScanModel::Number {
                text: text@,
                rest: *rest as int,
                nonzero_digit: *nonzero_digit,
            },
        }
    }
}

/// A scan result viewed through the model.
pub open spec fn scan_view(r: Result<FloatScan, ParseError>) -> Result<ScanModel, ParseError> {
    match r {
        Ok(x) => Ok(x@),
        Err(e) => Err(e),
    }
}

/// `input[p..]` starts with the lower-case `word`, ASCII case ignored.
fn matches_word(input: &[u8], p: usize, word: &[u8]) -> (r: bool)
    requires
        p <= input@.len(),
    ensures
        r == starts_with_word(input@, p as int, word@),
{
    if word.len() > input.len() - p {
        return false;
    }
    let mut k: usize = 0;
    while k < word.len()
        invariant
            p + word.len() <= input.len(),
            k <= word@.len(),
            forall|j: int| 0 <= j < k ==> lower(#[trigger] input@[p + j]) == word@[j],
        decreases word@.len() - k,
    {
        if byte_to_lower(input[p + k]) != word[k] {
            return false;
        }
        k = k + 1;
    }
    true
}

fn infnan(input: &[u8], p: usize, neg: bool) -> (r: Result<FloatScan, ParseError>)
    requires
        p <= input@.len(),
    ensures
        scan_view(r) == infnan_reading(input@, p as int, neg),
{
    let nan: [u8; 3] = [0x6e, 0x61, 0x6e];
    let inf: [u8; 3] = [0x69, 0x6e, 0x66];
    let infinity: [u8; 8] = [0x69, 0x6e, 0x66, 0x69, 0x6e, 0x69, 0x74, 0x79];
    assert(nan@ =~= word_nan());
    assert(inf@ =~= word_inf());
    assert(infinity@ =~= word_infinity());
    if matches_word(input, p, nan.as_slice()) {
        assert(p + 3 <= input.len());
        let q = p + 3;
        let mut rest = q;
        if q < input.len() && input[q] == 0x28 {
            let k = skip_run(input, q + 1, ByteClass::NanPayload);
            if k < input.len() && input[k] == 0x29 {
                rest = k + 1;
            }
        }
        Ok(FloatScan::Nan { rest })
    } else if matches_word(input, p, infinity.as_slice()) {
        assert(p + 8 <= input.len());
        Ok(FloatScan::Infinity { neg, rest: p + 8 })
    } else if matches_word(input, p, inf.as_slice()) {
        assert(p + 3 <= input.len());
        Ok(FloatScan::Infinity { neg, rest: p + 3 })
    } else {
        Err(ParseError::InvalidInput)
    }
}

fn exponent(input: &[u8], i: usize, format: FfFormat) -> (r: Result<(usize, Option<usize>), ParseError>)
    requires
        i <= input@.len(),
    ensures
        match r {
            Ok((end, marker)) => exponent_reading(input@, i as int, format@) == Ok::<(int, int), ParseError>(
                (end as int, match marker { Some(m) => m as int, None => -1 }),
            ) && i <= end <= input@.len() && (marker matches Some(m) ==> m == i),
            Err(e) => exponent_reading(input@, i as int, format@) == Err::<(int, int), ParseError>(e),
        },
{
    if i < input.len() {
        let c = input[i];
        let sci = format.contains(FfFormat::scientific()) && (c == 0x65 || c == 0x45);
        let fortran = format.contains(FfFormat::basic_fortran()) && (c == 0x2b || c == 0x2d || c
            == 0x64 || c == 0x44);
        if sci || fortran {
            let j = if c == 0x2b || c == 0x2d {
                i
            } else {
                i + 1
            };
            let k = if j < input.len() && (input[j] == 0x2b || input[j] == 0x2d) {
                j + 1
            } else {
                j
            };
            let e = skip_run(input, k, ByteClass::Digit);
            if e > k {
                Ok((e, Some(i)))
            } else if format.contains(FfFormat::fixed()) {
                Ok((i, None))
            } else {
                Err(ParseError::InvalidInput)
            }
        } else if format.contains(FfFormat::scientific()) && !format.contains(FfFormat::fixed()) {
            Err(ParseError::InvalidInput)
        } else {
            Ok((i, None))
        }
    } else {
        Ok((i, None))
    }
}

/// `input[b..e]` holds one of the digits `1` to `9`.
fn nonzero_digit_in(input: &[u8], b: usize, e: usize) -> (r: bool)
    requires
        b <= e <= input@.len(),
    ensures
        r == has_nonzero_digit(input@, b as int, e as int),
{
    let mut idx = b;
    while idx < e
        invariant
            b <= idx <= e <= input@.len(),
            !has_nonzero_digit(input@, b as int, idx as int),
        decreases e - idx,
    {
        let byte = input[idx];
        if byte >= 0x31 && byte <= 0x39 {
            assert(input@[idx as int] == byte);
            return true;
        }
        assert forall|k: int| b <= k < idx + 1 implies !(0x31 <= #[trigger] input@[k] <= 0x39) by {
            if k < idx {
                assert(!has_nonzero_digit(input@, b as int, idx as int));
            }
        }
        idx = idx + 1;
    }
    false
}

/// The number `input[b..end]` as handed on for conversion.
fn normalize(input: &[u8], b: usize, end: usize, marker: Option<usize>, options: FfcParseOptions) -> (r:
    Vec<u8>)
    requires
        b <= end <= input@.len(),
    ensures
        r@ == normalized_text(
            input@,
            b as int,
            end as int,
            match marker {
                Some(m) => m as int,
                None => -1,
            },
            options.format@,
            options.decimal_point,
        ),
{
    let ghost m: int = match marker {
        Some(m) => m as int,
        None => -1,
    };
    let ghost f = options.format@;
    let fortran = options.format.contains(FfFormat::basic_fortran());
    let dp = options.decimal_point;
    let mut text: Vec<u8> = Vec::new();
    let mut idx = b;
    while idx < end
        invariant
            b <= idx <= end <= input@.len(),
            fortran == has_flag(f, FLAG_BASIC_FORTRAN),
            f == options.format@,
            dp == options.decimal_point,
            m == (match marker {
                Some(m) => m as int,
                None => -1,
            }),
            text@ =~= normalized_text(input@, b as int, idx as int, m, f, dp),
        decreases end - idx,
    {
        let byte = input[idx];
        let at_marker = match marker {
            Some(mk) => idx == mk,
            None => false,
        };
        let ghost before = text@;
        let ghost bytes = Seq::new(
            (idx - b) as nat,
            |k: int| normalized_byte(input@[b + k], b + k == m, f, dp),
        );
        let ghost bytes1 = Seq::new(
            (idx + 1 - b) as nat,
            |k: int| normalized_byte(input@[b + k], b + k == m, f, dp),
        );
        assert(bytes1 =~= bytes.push(normalized_byte(byte, idx == m, f, dp)));
        if byte == dp {
            text.push(0x2e);
        } else if at_marker && fortran && (byte == 0x64 || byte == 0x44) {
            text.push(0x65);
        } else if at_marker && fortran && (byte == 0x2b || byte == 0x2d) {
            text.push(0x65);
            text.push(byte);
        } else {
            text.push(byte);
        }
        proof {
            if sign_marker(input@, b as int, idx as int, m, f, dp) {
                assert(text@ =~= bytes1.insert(m - b, 0x65));
            } else if sign_marker(input@, b as int, idx + 1, m, f, dp) {
                assert(text@ =~= bytes1.insert(m - b, 0x65));
            } else {
                assert(text@ =~= bytes1);
            }
        }
        idx = idx + 1;
    }
    text
}

/// Scans a float at the start of `input` in the syntax that `options` select:
/// optional white space, a sign, `nan`/`inf`/`infinity`, or a decimal number
/// with an optional fraction and exponent. For a decimal number it returns the
/// text to convert, with the decimal point as `.` and a Fortran exponent marker
/// as `e`.
pub fn scan_float(input: &[u8], options: FfcParseOptions) -> (r: Result<FloatScan, ParseError>)
    ensures
        scan_view(r) == float_scan(input@, options.format@, options.decimal_point),
{
    let ghost s = input@;
    let ghost f = options.format@;
    let dp = options.decimal_point;
    let len = input.len();
    let b = if options.format.contains(FfFormat::skip_white_space()) {
        skip_run(input, 0, ByteClass::WhiteSpace)
    } else {
        0
    };
    if b >= len {
        return Err(ParseError::InvalidInput);
    }
    let neg = input[b] == 0x2d;
    let json = options.format.contains(FfFormat::basic_json());
    let p = if input[b] == 0x2d {
        b + 1
    } else if input[b] == 0x2b && !json && options.format.contains(FfFormat::allow_leading_plus()) {
        b + 1
    } else {
        b
    };
    let int_end = skip_run(input, p, ByteClass::Digit);
    let int_len = int_end - p;
    if json {
        if int_len == 0 || (int_len > 1 && input[p] == 0x30) {
            return Err(ParseError::InvalidInput);
        }
    } else if int_len == 0 && (int_end == len || input[int_end] != dp) {
        if !options.format.contains(FfFormat::no_infnan()) {
            return infnan(input, p, neg);
        }
        return Err(ParseError::InvalidInput);
    }
    let has_point = int_end < len && input[int_end] == dp;
    let frac_end = if has_point {
        skip_run(input, int_end + 1, ByteClass::Digit)
    } else {
        int_end
    };
    let frac_len = if has_point {
        frac_end - (int_end + 1)
    } else {
        0
    };
    if json && has_point && frac_len == 0 {
        return Err(ParseError::InvalidInput);
    }
    if int_len == 0 && frac_len == 0 {
        return Err(ParseError::InvalidInput);
    }
    let (end, marker) = match exponent(input, frac_end, options.format) {
        Ok(x) => x,
        Err(e) => {
            return Err(e);
        },
    };
    if end - b > MAX_NUMBER_LEN {
        return Err(ParseError::OutOfRange);
    }
    let significand = match marker {
        Some(mk) => mk,
        None => end,
    };
    let nonzero_digit = nonzero_digit_in(input, b, significand);
    let text = normalize(input, b, end, marker, options);
    Ok(FloatScan::Number { text, rest: end, nonzero_digit })
}

// ---------------------------------------------------------------------------
// After the conversion
// ---------------------------------------------------------------------------

/// What converting the number text gave, as far as the parser asks.
#[derive(Debug, Clone, Copy, PartialEq, Eq, Structural)]
pub enum Conversion {
    /// The text was not accepted.
    Failed,
    /// The value overflowed to an infinity.
    Infinite,
    /// The value is zero, of either sign.
    Zero,
    /// Any other value.
    Finite,
}

/// Whether a converted number is kept: a failed conversion, an overflow to
/// infinity, and a zero from a number that holds a digit other than `0`
/// (an underflow) are out of range.
pub fn check_conversion(c: Conversion, nonzero_digit: bool) -> (r: Result<(), ParseError>)
    ensures
        r == (if c == Conversion::Failed || c == Conversion::Infinite || (c == Conversion::Zero
            && nonzero_digit) {
            Err::<(), ParseError>(ParseError::OutOfRange)
        } else {
            Ok::<(), ParseError>(())
        }),
{
    match c {
        Conversion::Failed => Err(ParseError::OutOfRange),
        Conversion::Infinite => Err(ParseError::OutOfRange),
        Conversion::Zero => if nonzero_digit {
            Err(ParseError::OutOfRange)
        } else {
            Ok(())
        },
        Conversion::Finite => Ok(()),
    }
}

// ---------------------------------------------------------------------------
// Laws of the syntax
// ---------------------------------------------------------------------------

/// The index where the rest of the input starts.
pub open spec fn rest_of(m: ScanModel) -> int {
    match m {
        ScanModel::Nan { rest } => rest,
        ScanModel::Infinity { rest, .. } => rest,
        ScanModel::Number { rest, .. } => rest,
    }
}

/// A byte that the conversion of a number text may meet: an ASCII digit, `.`,
/// a sign, `e` or `E`.
pub open spec fn is_number_text_byte(b: u8) -> bool {
    is_digit(b) || b == 0x2e || is_sign(b) || is_sci_marker(b)
}

/// Whatever the scanner reads, the rest of the input lies past the number's
/// start and within the input, and a number's text is as long as the number
/// as written, at most `MAX_NUMBER_LEN` bytes.
pub proof fn law_scan_rest_is_suffix(s: Seq<u8>, f: u32, dp: u8)
    ensures
        float_scan(s, f, dp) matches Ok(m) ==> number_start(s, f) < rest_of(m) <= s.len(),
        float_scan(s, f, dp) matches Ok(ScanModel::Number { text, rest, .. }) ==> rest
            - number_start(s, f) <= MAX_NUMBER_LEN && rest - number_start(s, f) <= text.len()
            <= rest - number_start(s, f) + 1,
{
    let b = number_start(s, f);
    lemma_run_end_bounds(s, 0, ByteClass::WhiteSpace);
    if b < s.len() {
        let p = sign_end(s, b, f);
        lemma_run_end_bounds(s, p, ByteClass::Digit);
        let int_end = run_end(s, p, ByteClass::Digit);
        if int_end < s.len() && s[int_end] == dp {
            lemma_run_end_bounds(s, int_end + 1, ByteClass::Digit);
        }
        let frac_end = fraction_end(s, int_end, dp);
        if frac_end < s.len() {
            let c = s[frac_end];
            let j = if is_sign(c) {
                frac_end
            } else {
                frac_end + 1
            };
            let k = if j < s.len() && is_sign(s[j]) {
                j + 1
            } else {
                j
            };
            if k <= s.len() {
                lemma_run_end_bounds(s, k, ByteClass::Digit);
            }
        }
        if p + 3 < s.len() && s[p + 3] == 0x28 {
            lemma_run_end_bounds(s, p + 4, ByteClass::NanPayload);
        }
    }
}

/// In the JSON syntax a number never starts with `+`.
pub proof fn law_json_rejects_leading_plus(s: Seq<u8>, f: u32, dp: u8)
    requires
        has_flag(f, FLAG_BASIC_JSON),
        number_start(s, f) < s.len(),
        s[number_start(s, f)] == 0x2b,
    ensures
        float_scan(s, f, dp) == Err::<ScanModel, ParseError>(ParseError::InvalidInput),
{
}

/// In the JSON syntax the integer part of a number has no leading zero.
pub proof fn law_json_rejects_leading_zero(s: Seq<u8>, f: u32, dp: u8)
    requires
        has_flag(f, FLAG_BASIC_JSON),
        number_start(s, f) < s.len(),
        ({
            let p = sign_end(s, number_start(s, f), f);
            p + 1 < s.len() && s[p] == 0x30 && is_digit(s[p + 1])
        }),
    ensures
        float_scan(s, f, dp) == Err::<ScanModel, ParseError>(ParseError::InvalidInput),
{
    lemma_run_end_bounds(s, 0, ByteClass::WhiteSpace);
    let p = sign_end(s, number_start(s, f), f);
    lemma_run_end_skip(s, p, p + 2, ByteClass::Digit);
    lemma_run_end_bounds(s, p + 2, ByteClass::Digit);
}

/// With the JSON syntax, or with `nan` and `inf` refused, the scanner reads
/// nothing but decimal numbers.
pub proof fn law_no_infnan_in_json_or_when_refused(s: Seq<u8>, f: u32, dp: u8)
    requires
        has_flag(f, FLAG_BASIC_JSON) || has_flag(f, FLAG_NO_INFNAN),
    ensures
        float_scan(s, f, dp) matches Ok(m) ==> m is Number,
{
}

/// The text of a number holds only ASCII digits, `.`, signs, `e` and `E`:
/// it is ASCII, and what a decimal float conversion reads.
pub proof fn law_number_text_bytes(s: Seq<u8>, f: u32, dp: u8)
    ensures
        float_scan(s, f, dp) matches Ok(ScanModel::Number { text, .. }) ==> forall|k: int|
            0 <= k < text.len() ==> is_number_text_byte(#[trigger] text[k]),
{
    let b = number_start(s, f);
    lemma_run_end_bounds(s, 0, ByteClass::WhiteSpace);
    if b < s.len() {
        let p = sign_end(s, b, f);
        lemma_run_end_bounds(s, p, ByteClass::Digit);
        let int_end = run_end(s, p, ByteClass::Digit);
        let has_point = int_end < s.len() && s[int_end] == dp;
        if has_point {
            lemma_run_end_bounds(s, int_end + 1, ByteClass::Digit);
        }
        let frac_end = fraction_end(s, int_end, dp);
        if let Ok(ScanModel::Number { text, rest, .. }) = float_scan(s, f, dp) {
            let (end, marker) = exponent_reading(s, frac_end, f).unwrap();
            let c = s[frac_end];
            let j = if is_sign(c) {
                frac_end
            } else {
                frac_end + 1
            };
            let k = if j < s.len() && is_sign(s[j]) {
                j + 1
            } else {
                j
            };
            if marker >= 0 {
                lemma_run_end_bounds(s, k, ByteClass::Digit);
            }
            let bytes = Seq::new(
                (end - b) as nat,
                |t: int| normalized_byte(s[b + t], b + t == marker, f, dp),
            );
            assert forall|t: int| 0 <= t < bytes.len() implies is_number_text_byte(
                #[trigger] bytes[t],
            ) by {
                let x = b + t;
                if x < p {
                    assert(is_sign(s[x]));
                } else if x < int_end {
                    assert(in_class(s[x], ByteClass::Digit));
                } else if x == int_end && has_point {
                } else if x < frac_end {
                    assert(in_class(s[x], ByteClass::Digit));
                } else if x == marker {
                } else if x < k {
                    assert(is_sign(s[x]));
                } else {
                    assert(in_class(s[x], ByteClass::Digit));
                }
            }
            if sign_marker(s, b, end, marker, f, dp) {
                let i = marker - b;
                assert(text == bytes.insert(i, 0x65));
                assert forall|t: int| 0 <= t < text.len() implies is_number_text_byte(
                    #[trigger] text[t],
                ) by {
                    if t < i {
                        assert(text[t] == bytes[t]);
                    } else if t > i {
                        assert(text[t] == bytes[t - 1]);
                    }
                }
            } else {
                assert(text == bytes);
            }
        }
    }
}

} // verus!
