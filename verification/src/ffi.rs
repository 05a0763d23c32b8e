use vstd::prelude::*;

use crate::format::{
    FfFormat, FfcParseOptions, ALL_FLAGS, FLAG_ALLOW_LEADING_PLUS, FLAG_BASIC_FORTRAN,
    FLAG_BASIC_JSON, FLAG_FIXED, FLAG_HEX, FLAG_NO_INFNAN, FLAG_SCIENTIFIC, FLAG_SKIP_WHITE_SPACE,
};
use crate::integer::{int_outcome, parse_int, FastInt};
use crate::ParseError;

verus! {

/// The outcome code of a call through the C interface.
pub type FfcOutcome = u32;

pub const FFC_OUTCOME_OK: FfcOutcome = 0;

pub const FFC_OUTCOME_INVALID_INPUT: FfcOutcome = 1;

pub const FFC_OUTCOME_OUT_OF_RANGE: FfcOutcome = 2;

/// The format flags as the C interface passes them.
pub type FfcFormat = u64;

pub const FFC_FORMAT_FLAG_SCIENTIFIC: FfcFormat = FLAG_SCIENTIFIC as u64;

pub const FFC_FORMAT_FLAG_FIXED: FfcFormat = FLAG_FIXED as u64;

pub const FFC_FORMAT_FLAG_HEX: FfcFormat = FLAG_HEX as u64;

pub const FFC_FORMAT_FLAG_NO_INFNAN: FfcFormat = FLAG_NO_INFNAN as u64;

pub const FFC_FORMAT_FLAG_BASIC_JSON: FfcFormat = FLAG_BASIC_JSON as u64;

pub const FFC_FORMAT_FLAG_BASIC_FORTRAN: FfcFormat = FLAG_BASIC_FORTRAN as u64;

pub const FFC_FORMAT_FLAG_ALLOW_LEADING_PLUS: FfcFormat = FLAG_ALLOW_LEADING_PLUS as u64;

pub const FFC_FORMAT_FLAG_SKIP_WHITE_SPACE: FfcFormat = FLAG_SKIP_WHITE_SPACE as u64;

pub const FFC_PRESET_GENERAL: FfcFormat = FFC_FORMAT_FLAG_FIXED | FFC_FORMAT_FLAG_SCIENTIFIC;

pub const FFC_PRESET_JSON: FfcFormat = FFC_FORMAT_FLAG_BASIC_JSON | FFC_PRESET_GENERAL
    | FFC_FORMAT_FLAG_NO_INFNAN;

pub const FFC_PRESET_JSON_OR_INFNAN: FfcFormat = FFC_FORMAT_FLAG_BASIC_JSON | FFC_PRESET_GENERAL;

pub const FFC_PRESET_FORTRAN: FfcFormat = FFC_FORMAT_FLAG_BASIC_FORTRAN | FFC_PRESET_GENERAL;

/// The outcome code of a parse error.
pub fn map_error(err: ParseError) -> (r: FfcOutcome)
    ensures
        r == (match err {
            ParseError::InvalidInput => FFC_OUTCOME_INVALID_INPUT,
            ParseError::OutOfRange => FFC_OUTCOME_OUT_OF_RANGE,
        }),
{
    match err {
        ParseError::InvalidInput => FFC_OUTCOME_INVALID_INPUT,
        ParseError::OutOfRange => FFC_OUTCOME_OUT_OF_RANGE,
    }
}

/// The parse options that the C interface's format and decimal point stand
/// for: the low 32 bits of the format, cut to the known flags, and `.` where
/// the decimal point is the zero byte.
pub fn to_rust_options(format: FfcFormat, decimal_point: u8) -> (r: FfcParseOptions)
    ensures
        r.format@ == (format as u32) & ALL_FLAGS,
        r.decimal_point == (if decimal_point == 0 {
            0x2e
        } else {
            decimal_point
        }),
{
    let format = FfFormat::from_bits_truncate(format as u32);
    let dp = if decimal_point == 0 {
        0x2e
    } else {
        decimal_point
    };
    FfcParseOptions { format, decimal_point: dp }
}

/// Parses an integer in the given base, as the C interface does: only base 10
/// is read, any other base is invalid input.
pub fn parse_int_in_base<T: FastInt>(input: &[u8], base: i32) -> (r: Result<(T, &[u8]), ParseError>)
    ensures
        base != 10 ==> r == Err::<(T, &[u8]), ParseError>(ParseError::InvalidInput),
        base == 10 ==> match int_outcome::<T>(input@) {
            Ok((value, end)) => r matches Ok((v, rest)) && v.to_int() == value && rest@
                == input@.subrange(end, input@.len() as int),
            Err(e) => r == Err::<(T, &[u8]), ParseError>(e),
        },
{
    if base != 10 {
        return Err(ParseError::InvalidInput);
    }
    parse_int(input)
}

/// A format's bits passed through the C interface as `FfcFormat` come back
/// as the same format.
pub proof fn law_format_bits_round_trip(bits: u32)
    requires
        bits & ALL_FLAGS == bits,
    ensures
        ((bits as u64) as u32) & ALL_FLAGS == bits,
{
    assert(((bits as u64) as u32) == bits) by (bit_vector);
}

} // verus!
