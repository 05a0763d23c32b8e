//! Parsing of decimal floats and integers from the start of byte slices.
//!
//! `parse_int` reads an integer completely. Floats are read in two steps:
//! `scan_float` reads the syntax that the options select and hands on the
//! number's text, and `check_conversion` judges what converting that text gave.
use vstd::prelude::*;

pub mod ascii;
pub mod ffi;
pub mod float;
pub mod float_laws;
pub mod format;
pub mod integer;

pub use float::{check_conversion, scan_float, Conversion, FloatScan, MAX_NUMBER_LEN};
pub use format::{FfFormat, FfcParseOptions};
pub use integer::{parse_int, FastInt};

verus! {

/// Errors reported by the parsers.
#[derive(Debug, Clone, Copy, PartialEq, Eq, Structural)]
pub enum ParseError {
    /// The input does not start with a number of the accepted syntax.
    InvalidInput,
    /// The number is written correctly but its value cannot be represented.
    OutOfRange,
}

} // verus!
