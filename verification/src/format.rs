use vstd::prelude::*;

verus! {

// The bits of the format flags.
pub const FLAG_SCIENTIFIC: u32 = 0x1;

pub const FLAG_FIXED: u32 = 0x4;

pub const FLAG_HEX: u32 = 0x8;

pub const FLAG_NO_INFNAN: u32 = 0x10;

pub const FLAG_BASIC_JSON: u32 = 0x20;

pub const FLAG_BASIC_FORTRAN: u32 = 0x40;

pub const FLAG_ALLOW_LEADING_PLUS: u32 = 0x80;

pub const FLAG_SKIP_WHITE_SPACE: u32 = 0x100;

/// Every bit that names a flag.
pub const ALL_FLAGS: u32 = FLAG_SCIENTIFIC | FLAG_FIXED | FLAG_HEX | FLAG_NO_INFNAN
    | FLAG_BASIC_JSON | FLAG_BASIC_FORTRAN | FLAG_ALLOW_LEADING_PLUS | FLAG_SKIP_WHITE_SPACE;

// The presets.
pub const PRESET_GENERAL: u32 = FLAG_FIXED | FLAG_SCIENTIFIC;

pub const PRESET_JSON: u32 = FLAG_BASIC_JSON | PRESET_GENERAL | FLAG_NO_INFNAN;

pub const PRESET_JSON_OR_INFNAN: u32 = FLAG_BASIC_JSON | PRESET_GENERAL;

pub const PRESET_FORTRAN: u32 = FLAG_BASIC_FORTRAN | PRESET_GENERAL;

/// `bits` holds every bit of `flag`.
pub open spec fn has_flag(bits: u32, flag: u32) -> bool {
    bits & flag == flag
}

/// A set of format flags, viewed as the bits of a `u32`.
#[derive(Debug, Clone, Copy, PartialEq, Eq, Structural)]
pub struct FfFormat {
    bits: u32,
}

impl View for FfFormat {
    type V = u32;

    closed spec fn view(&self) -> u32 {
        self.bits
    }
}

impl FfFormat {
    fn of_bits(bits: u32) -> (r: FfFormat)
        ensures
            r@ == bits,
    {
        FfFormat { bits }
    }

    /// The bits of the set.
    pub fn bits(&self) -> (r: u32)
        ensures
            r == self@,
    {
        self.bits
    }

    /// The set of the flags named in `bits`; other bits are dropped.
    pub fn from_bits_truncate(bits: u32) -> (r: FfFormat)
        ensures
            r@ == bits & ALL_FLAGS,
    {
        Self::of_bits(bits & ALL_FLAGS)
    }

    /// Every flag of `other` is in `self`.
    pub fn contains(&self, other: FfFormat) -> (r: bool)
        ensures
            r == has_flag(self@, other@),
    {
        self.bits & other.bits == other.bits
    }

    /// The flags of both sets.
    pub fn union(self, other: FfFormat) -> (r: FfFormat)
        ensures
            r@ == self@ | other@,
    {
        Self::of_bits(self.bits | other.bits)
    }

    /// The empty set.
    pub fn empty() -> (r: FfFormat)
        ensures
            r@ == 0,
    {
        Self::of_bits(0)
    }

    /// Decimal numbers with an exponent (`1.5e3`).
    pub fn scientific() -> (r: FfFormat)
        ensures
            r@ == FLAG_SCIENTIFIC,
    {
        Self::of_bits(FLAG_SCIENTIFIC)
    }

    /// Decimal numbers without an exponent (`1500.0`).
    pub fn fixed() -> (r: FfFormat)
        ensures
            r@ == FLAG_FIXED,
    {
        Self::of_bits(FLAG_FIXED)
    }

    /// Hexadecimal numbers (declared, not read by the parser).
    pub fn hex() -> (r: FfFormat)
        ensures
            r@ == FLAG_HEX,
    {
        Self::of_bits(FLAG_HEX)
    }

    /// `nan`, `inf` and `infinity` are refused.
    pub fn no_infnan() -> (r: FfFormat)
        ensures
            r@ == FLAG_NO_INFNAN,
    {
        Self::of_bits(FLAG_NO_INFNAN)
    }

    /// The number syntax of JSON.
    pub fn basic_json() -> (r: FfFormat)
        ensures
            r@ == FLAG_BASIC_JSON,
    {
        Self::of_bits(FLAG_BASIC_JSON)
    }

    /// The exponent markers of Fortran (`d`, `D`, or a bare sign).
    pub fn basic_fortran() -> (r: FfFormat)
        ensures
            r@ == FLAG_BASIC_FORTRAN,
    {
        Self::of_bits(FLAG_BASIC_FORTRAN)
    }

    /// A leading `+` is accepted (outside JSON).
    pub fn allow_leading_plus() -> (r: FfFormat)
        ensures
            r@ == FLAG_ALLOW_LEADING_PLUS,
    {
        Self::of_bits(FLAG_ALLOW_LEADING_PLUS)
    }

    /// Leading ASCII white space is skipped.
    pub fn skip_white_space() -> (r: FfFormat)
        ensures
            r@ == FLAG_SKIP_WHITE_SPACE,
    {
        Self::of_bits(FLAG_SKIP_WHITE_SPACE)
    }

    /// Fixed and scientific notation.
    pub fn preset_general() -> (r: FfFormat)
        ensures
            r@ == PRESET_GENERAL,
    {
        Self::of_bits(PRESET_GENERAL)
    }

    /// JSON numbers, without `nan` and `inf`.
    pub fn preset_json() -> (r: FfFormat)
        ensures
            r@ == PRESET_JSON,
    {
        Self::of_bits(PRESET_JSON)
    }

    /// JSON numbers; the flag set leaves `nan` and `inf` allowed.
    pub fn preset_json_or_infnan() -> (r: FfFormat)
        ensures
            r@ == PRESET_JSON_OR_INFNAN,
    {
        Self::of_bits(PRESET_JSON_OR_INFNAN)
    }

    /// Fortran numbers in fixed and scientific notation.
    pub fn preset_fortran() -> (r: FfFormat)
        ensures
            r@ == PRESET_FORTRAN,
    {
        Self::of_bits(PRESET_FORTRAN)
    }
}

/// What the float parser reads: the accepted syntax and the byte that stands
/// for the decimal point.
#[derive(Debug, Clone, Copy)]
pub struct FfcParseOptions {
    pub format: FfFormat,
    pub decimal_point: u8,
}

impl Default for FfcParseOptions {
    /// The general preset with `.` as decimal point.
    fn default() -> (r: Self)
        ensures
            r.format@ == PRESET_GENERAL,
            r.decimal_point == 0x2e,
    {
        FfcParseOptions { format: FfFormat::preset_general(), decimal_point: 0x2e }
    }
}

} // verus!
