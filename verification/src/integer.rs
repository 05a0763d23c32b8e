use vstd::prelude::*;

use crate::ascii::{
    byte_is_digit, is_digit, lemma_run_end_bounds, in_class, lemma_run_end_skip, run_end, ByteClass,
};
use crate::ParseError;

verus! {

// ---------------------------------------------------------------------------
// The integer types that `parse_int` produces
// ---------------------------------------------------------------------------

/// The integer `mag` carries with the sign `neg`.
pub open spec fn signed_value(mag: nat, neg: bool) -> int {
    if neg {
        -mag
    } else {
        mag as int
    }
}

/// The largest magnitude that `T` holds with the sign `neg`.
pub open spec fn magnitude_limit<T: FastInt>(neg: bool) -> int {
    if T::min_int() < 0 && neg {
        -T::min_int()
    } else {
        T::max_int()
    }
}

/// Integer types that `parse_int` can produce.
pub trait FastInt: Sized + Copy + core::cmp::PartialOrd {
    /// The type holds negative values.
    const IS_SIGNED: bool;

    /// The mathematical integer a value stands for.
    spec fn to_int(self) -> int;

    spec fn min_int() -> int;

    spec fn max_int() -> int;

    /// The type's range holds zero, and each of its bounds is within a `u64`
    /// magnitude of zero.
    proof fn lemma_bounds()
        ensures
            Self::min_int() <= 0 < Self::max_int() <= u64::MAX,
            -Self::min_int() <= u64::MAX,
    ;

    /// `IS_SIGNED` tells whether the type's least value is negative.
    proof fn lemma_signed()
        ensures
            Self::IS_SIGNED == (Self::min_int() < 0),
    ;

    /// Converts a magnitude and a sign into the type: `None` when the magnitude
    /// exceeds what the type holds with that sign. An unsigned type given a
    /// negative sign wraps, as `u64::wrapping_neg` followed by a truncating cast does.
    fn from_u64(val: u64, neg: bool) -> (r: Option<Self>)
        ensures
            r is None <==> val > (if Self::min_int() < 0 && neg {
                -Self::min_int()
            } else {
                Self::max_int()
            }),
            r matches Some(v) ==> Self::min_int() <= v.to_int() <= Self::max_int(),
            r matches Some(v) ==> v.to_int() == signed_value(val as nat, neg) || v.to_int()
                == signed_value(val as nat, neg) + (Self::max_int() - Self::min_int() + 1),
            r matches Some(v) ==> (Self::min_int() < 0 || !neg) ==> v.to_int() == signed_value(
                val as nat,
                neg,
            ),
    ;
}

impl FastInt for i32 {
    const IS_SIGNED: bool = true;

    proof fn lemma_signed() {
    }

    proof fn lemma_bounds() {
    }

    open spec fn to_int(self) -> int {
        self as int
    }

    open spec fn min_int() -> int {
        i32::MIN as int
    }

    open spec fn max_int() -> int {
        i32::MAX as int
    }

    fn from_u64(val: u64, neg: bool) -> (r: Option<Self>) {
        if neg {
            if val > 0x8000_0000 {
                None
            } else if val == 0x8000_0000 {
                Some(i32::MIN)
            } else {
                Some(-(val as i32))
            }
        } else if val > 0x7fff_ffff {
            None
        } else {
            Some(val as i32)
        }
    }
}

impl FastInt for u32 {
    const IS_SIGNED: bool = false;

    proof fn lemma_signed() {
    }

    proof fn lemma_bounds() {
    }

    open spec fn to_int(self) -> int {
        self as int
    }

    open spec fn min_int() -> int {
        0
    }

    open spec fn max_int() -> int {
        u32::MAX as int
    }

    fn from_u64(val: u64, neg: bool) -> (r: Option<Self>) {
        if val > 0xffff_ffff {
            None
        } else if neg && val != 0 {
            Some((0x1_0000_0000u64 - val) as u32)
        } else {
            Some(val as u32)
        }
    }
}

impl FastInt for i64 {
    const IS_SIGNED: bool = true;

    proof fn lemma_signed() {
    }

    proof fn lemma_bounds() {
    }

    open spec fn to_int(self) -> int {
        self as int
    }

    open spec fn min_int() -> int {
        i64::MIN as int
    }

    open spec fn max_int() -> int {
        i64::MAX as int
    }

    fn from_u64(val: u64, neg: bool) -> (r: Option<Self>) {
        if neg {
            if val > 0x8000_0000_0000_0000 {
                None
            } else if val == 0x8000_0000_0000_0000 {
                Some(i64::MIN)
            } else {
                Some(-(val as i64))
            }
        } else if val > 0x7fff_ffff_ffff_ffff {
            None
        } else {
            Some(val as i64)
        }
    }
}

impl FastInt for u64 {
    const IS_SIGNED: bool = false;

    proof fn lemma_signed() {
    }

    proof fn lemma_bounds() {
    }

    open spec fn to_int(self) -> int {
        self as int
    }

    open spec fn min_int() -> int {
        0
    }

    open spec fn max_int() -> int {
        u64::MAX as int
    }

    fn from_u64(val: u64, neg: bool) -> (r: Option<Self>) {
        if neg && val != 0 {
            Some(u64::MAX - val + 1)
        } else {
            Some(val)
        }
    }
}

// ---------------------------------------------------------------------------
// The decimal syntax
// ---------------------------------------------------------------------------

/// The value of a sequence of decimal digits, most significant first.
pub open spec fn decimal_value(s: Seq<u8>) -> nat
    decreases s.len(),
{
    if s.len() == 0 {
        0
    } else {
        decimal_value(s.drop_last()) * 10 + (s.last() - 0x30) as nat
    }
}

/// How an input reads as a decimal integer: either not at all, or as a sign
/// followed by the digits `s[start..end]`, the longest run of digits there.
pub enum IntSyntax {
    Invalid,
    Digits { neg: bool, start: int, end: int },
}

/// The syntax that `parse_int` accepts: an optional sign (`-` only for signed
/// types, `+` always) followed by at least one ASCII digit.
pub open spec fn int_syntax(s: Seq<u8>, signed: bool) -> IntSyntax {
    if s.len() == 0 {
        IntSyntax::Invalid
    } else {
        let neg = s[0] == 0x2d;
        let start: int = if s[0] == 0x2d || s[0] == 0x2b {
            1
        } else {
            0
        };
        if neg && !signed {
            IntSyntax::Invalid
        } else if start >= s.len() || !is_digit(s[start]) {
            IntSyntax::Invalid
        } else {
            IntSyntax::Digits { neg, start, end: run_end(s, start, ByteClass::Digit) }
        }
    }
}

/// What `parse_int::<T>` gives for `s`: the value it reads and the index where
/// the rest of the input starts, or the error.
pub open spec fn int_outcome<T: FastInt>(s: Seq<u8>) -> Result<(int, int), ParseError> {
    match int_syntax(s, T::min_int() < 0) {
        IntSyntax::Invalid => Err(ParseError::InvalidInput),
        IntSyntax::Digits { neg, start, end } => {
            let mag = decimal_value(s.subrange(start, end));
            if mag > u64::MAX || mag > magnitude_limit::<T>(neg) {
                Err(ParseError::OutOfRange)
            } else {
                Ok((signed_value(mag, neg), end))
            }
        },
    }
}

// ---------------------------------------------------------------------------
// Lemmas on the decimal syntax
// ---------------------------------------------------------------------------

proof fn lemma_decimal_step(s: Seq<u8>, a: int, b: int)
    requires
        0 <= a <= b < s.len(),
    ensures
        decimal_value(s.subrange(a, b + 1)) == decimal_value(s.subrange(a, b)) * 10 + (s[b]
            - 0x30) as nat,
{
    assert(s.subrange(a, b + 1).drop_last() =~= s.subrange(a, b));
}

/// Eight more digits multiply the value by 10^8 and add their own value.
proof fn lemma_decimal_eight(s: Seq<u8>, a: int, p: int)
    requires
        0 <= a <= p,
        p + 8 <= s.len(),
    ensures
        decimal_value(s.subrange(a, p + 8)) == decimal_value(s.subrange(a, p)) * 100000000 + (s[p]
            - 0x30) as nat * 10000000 + (s[p + 1] - 0x30) as nat * 1000000 + (s[p + 2]
            - 0x30) as nat * 100000 + (s[p + 3] - 0x30) as nat * 10000 + (s[p + 4] - 0x30) as nat
            * 1000 + (s[p + 5] - 0x30) as nat * 100 + (s[p + 6] - 0x30) as nat * 10 + (s[p + 7]
            - 0x30) as nat,
{
    lemma_decimal_step(s, a, p);
    lemma_decimal_step(s, a, p + 1);
    lemma_decimal_step(s, a, p + 2);
    lemma_decimal_step(s, a, p + 3);
    lemma_decimal_step(s, a, p + 4);
    lemma_decimal_step(s, a, p + 5);
    lemma_decimal_step(s, a, p + 6);
    lemma_decimal_step(s, a, p + 7);
}

/// A longer run of digits has at least the value of a shorter one.
proof fn lemma_decimal_monotone(s: Seq<u8>, a: int, m: int, b: int)
    requires
        0 <= a <= m <= b <= s.len(),
    ensures
        decimal_value(s.subrange(a, m)) <= decimal_value(s.subrange(a, b)),
    decreases b - m,
{
    if m < b {
        lemma_decimal_monotone(s, a, m, b - 1);
        lemma_decimal_step(s, a, b - 1);
    }
}

// ---------------------------------------------------------------------------
// SWAR: eight digits at a time
// ---------------------------------------------------------------------------

/// Eight bytes read as a big-endian `u64`.
pub open spec fn be8(b0: u8, b1: u8, b2: u8, b3: u8, b4: u8, b5: u8, b6: u8, b7: u8) -> u64 {
    (b0 as u64) << 56u64 | (b1 as u64) << 48u64 | (b2 as u64) << 40u64 | (b3 as u64) << 32u64
        | (b4 as u64) << 24u64 | (b5 as u64) << 16u64 | (b6 as u64) << 8u64 | (b7 as u64)
}

/// The SWAR test on a chunk is zero exactly when all eight bytes are digits.
proof fn lemma_swar_test(c: u64, b0: u8, b1: u8, b2: u8, b3: u8, b4: u8, b5: u8, b6: u8, b7: u8)
    by (bit_vector)
    requires
        c == be8(b0, b1, b2, b3, b4, b5, b6, b7),
    ensures
        ((((c + 0x4646464646464646u64) as u64) | ((c - 0x3030303030303030u64) as u64))
            & 0x8080808080808080u64 == 0) <==> (is_digit(b0) && is_digit(b1) && is_digit(b2)
            && is_digit(b3) && is_digit(b4) && is_digit(b5) && is_digit(b6) && is_digit(b7)),
{
}

/// Each byte lane of a chunk gives back its byte.
proof fn lemma_be8_lanes(c: u64, b0: u8, b1: u8, b2: u8, b3: u8, b4: u8, b5: u8, b6: u8, b7: u8)
    by (bit_vector)
    requires
        c == be8(b0, b1, b2, b3, b4, b5, b6, b7),
    ensures
        (c >> 56u64) & 0xffu64 == b0 as u64,
        (c >> 48u64) & 0xffu64 == b1 as u64,
        (c >> 40u64) & 0xffu64 == b2 as u64,
        (c >> 32u64) & 0xffu64 == b3 as u64,
        (c >> 24u64) & 0xffu64 == b4 as u64,
        (c >> 16u64) & 0xffu64 == b5 as u64,
        (c >> 8u64) & 0xffu64 == b6 as u64,
        c & 0xffu64 == b7 as u64,
{
}

/// The wrapping operations of `u64` are truncations of the exact ones.
proof fn lemma_wrapping_as_truncation(c: u64)
    by (bit_vector)
    ensures
        (if c + 0x4646464646464646u64 > u64::MAX {
            (c + 0x4646464646464646u64 - 0x1_0000_0000_0000_0000int) as u64
        } else {
            (c + 0x4646464646464646u64) as u64
        }) == (c + 0x4646464646464646u64) as u64,
        (if c - 0x3030303030303030u64 < 0 {
            (c - 0x3030303030303030u64 + 0x1_0000_0000_0000_0000int) as u64
        } else {
            (c - 0x3030303030303030u64) as u64
        }) == (c - 0x3030303030303030u64) as u64,
{
}

fn load_be8(input: &[u8], pos: usize) -> (c: u64)
    requires
        pos + 8 <= input@.len(),
    ensures
        c == be8(
            input@[pos as int],
            input@[pos + 1],
            input@[pos + 2],
            input@[pos + 3],
            input@[pos + 4],
            input@[pos + 5],
            input@[pos + 6],
            input@[pos + 7],
        ),
{
    (input[pos] as u64) << 56u64 | (input[pos + 1] as u64) << 48u64 | (input[pos + 2] as u64)
        << 40u64 | (input[pos + 3] as u64) << 32u64 | (input[pos + 4] as u64) << 24u64 | (input[pos
        + 5] as u64) << 16u64 | (input[pos + 6] as u64) << 8u64 | (input[pos + 7] as u64)
}

// ---------------------------------------------------------------------------
// parse_int
// ---------------------------------------------------------------------------

/// Parses a decimal integer at the start of `input`: an optional sign and the
/// longest run of ASCII digits after it. Returns the value and the rest of the
/// input after the digits. Digits are taken eight at a time while eight digits
/// follow, then one at a time.
pub fn parse_int<T: FastInt>(input: &[u8]) -> (r: Result<(T, &[u8]), ParseError>)
    ensures
        match int_outcome::<T>(input@) {
            Ok((value, end)) => r matches Ok((v, rest)) && v.to_int() == value && rest@
                == input@.subrange(end, input@.len() as int),
            Err(e) => r == Err::<(T, &[u8]), ParseError>(e),
        },
        r matches Ok((v, _)) ==> T::min_int() <= v.to_int() <= T::max_int(),
{
    let len = input.len();
    let ghost s = input@;
    if len == 0 {
        return Err(ParseError::InvalidInput);
    }
    let mut neg = false;
    let mut pos: usize = 0;
    if input[0] == 0x2d {
        proof {
            T::lemma_signed();
        }
        if !T::IS_SIGNED {
            return Err(ParseError::InvalidInput);
        }
        neg = true;
        pos = 1;
    } else if input[0] == 0x2b {
        pos = 1;
    }
    if pos >= len || !byte_is_digit(input[pos]) {
        return Err(ParseError::InvalidInput);
    }
    let start = pos;
    let ghost end = run_end(s, start as int, ByteClass::Digit);
    proof {
        lemma_run_end_bounds(s, start as int, ByteClass::Digit);
    }
    assert(int_syntax(s, T::min_int() < 0) == (IntSyntax::Digits { neg, start: start as int, end }));
    let mut val: u64 = 0;

    // Eight digits at a time.
    while len - pos >= 8
        invariant
            len == s.len(),
            s == input@,
            start <= pos <= end <= len,
            end == run_end(s, start as int, ByteClass::Digit),
            run_end(s, pos as int, ByteClass::Digit) == end,
            val as nat == decimal_value(s.subrange(start as int, pos as int)),
            int_syntax(s, T::min_int() < 0) == (IntSyntax::Digits { neg, start: start as int, end }),
        decreases len - pos,
    {
        let chunk = load_be8(input, pos);
        let test = (chunk.wrapping_add(0x4646464646464646) | chunk.wrapping_sub(0x3030303030303030))
            & 0x8080808080808080;
        proof {
            let p = pos as int;
            lemma_wrapping_as_truncation(chunk);
            lemma_swar_test(chunk, s[p], s[p + 1], s[p + 2], s[p + 3], s[p + 4], s[p + 5], s[p + 6], s[p + 7]);
            lemma_be8_lanes(chunk, s[p], s[p + 1], s[p + 2], s[p + 3], s[p + 4], s[p + 5], s[p + 6], s[p + 7]);
        }
        if test != 0 {
            break;
        }
        let d0 = ((chunk >> 56u64) & 0xff) - 0x30;
        let d1 = ((chunk >> 48u64) & 0xff) - 0x30;
        let d2 = ((chunk >> 40u64) & 0xff) - 0x30;
        let d3 = ((chunk >> 32u64) & 0xff) - 0x30;
        let d4 = ((chunk >> 24u64) & 0xff) - 0x30;
        let d5 = ((chunk >> 16u64) & 0xff) - 0x30;
        let d6 = ((chunk >> 8u64) & 0xff) - 0x30;
        let d7 = (chunk & 0xff) - 0x30;
        let parsed_chunk = d0 * 10_000_000 + d1 * 1_000_000 + d2 * 100_000 + d3 * 10_000 + d4
            * 1_000 + d5 * 100 + d6 * 10 + d7;
        proof {
            let p = pos as int;
            lemma_decimal_eight(s, start as int, p);
            assert forall|k: int| p <= k < p + 8 implies in_class(#[trigger] s[k], ByteClass::Digit) by {}
            lemma_run_end_skip(s, p, p + 8, ByteClass::Digit);
            lemma_run_end_bounds(s, p + 8, ByteClass::Digit);
        }
        match val.checked_mul(100_000_000) {
            Some(m) => match m.checked_add(parsed_chunk) {
                Some(n) => {
                    val = n;
                    pos = pos + 8;
                },
                None => {
                    proof {
                        lemma_decimal_monotone(s, start as int, pos + 8, end);
                    }
                    return Err(ParseError::OutOfRange);
                },
            },
            None => {
                proof {
                    lemma_decimal_monotone(s, start as int, pos + 8, end);
                }
                return Err(ParseError::OutOfRange);
            },
        }
    }

    // The remaining digits one at a time.
    while pos < len && byte_is_digit(input[pos])
        invariant
            len == s.len(),
            s == input@,
            start <= pos <= end <= len,
            end == run_end(s, start as int, ByteClass::Digit),
            run_end(s, pos as int, ByteClass::Digit) == end,
            val as nat == decimal_value(s.subrange(start as int, pos as int)),
            int_syntax(s, T::min_int() < 0) == (IntSyntax::Digits { neg, start: start as int, end }),
        decreases len - pos,
    {
        let digit = (input[pos] - 0x30) as u64;
        proof {
            lemma_decimal_step(s, start as int, pos as int);
            lemma_run_end_bounds(s, pos + 1, ByteClass::Digit);
        }
        match val.checked_mul(10) {
            Some(m) => match m.checked_add(digit) {
                Some(n) => {
                    val = n;
                    pos = pos + 1;
                },
                None => {
                    proof {
                        lemma_decimal_monotone(s, start as int, pos + 1, end);
                    }
                    return Err(ParseError::OutOfRange);
                },
            },
            None => {
                proof {
                    lemma_decimal_monotone(s, start as int, pos + 1, end);
                }
                return Err(ParseError::OutOfRange);
            },
        }
    }
    assert(pos as int == end);
    match T::from_u64(val, neg) {
        Some(v) => Ok((v, vstd::slice::slice_subrange(input, pos, len))),
        None => Err(ParseError::OutOfRange),
    }
}

/// `parse_int` yields the signed decimal value of the digits exactly when
/// that value lies in the type's range, and reports `OutOfRange` otherwise.
pub proof fn law_int_value_in_range<T: FastInt>(s: Seq<u8>)
    ensures
        int_syntax(s, T::min_int() < 0) matches IntSyntax::Digits { neg, start, end } ==> {
            let v = signed_value(decimal_value(s.subrange(start, end)), neg);
            &&& T::min_int() <= v <= T::max_int() ==> int_outcome::<T>(s) == Ok::<
                (int, int),
                ParseError,
            >((v, end))
            &&& !(T::min_int() <= v <= T::max_int()) ==> int_outcome::<T>(s) == Err::<
                (int, int),
                ParseError,
            >(ParseError::OutOfRange)
        },
{
    T::lemma_bounds();
}

} // verus!
