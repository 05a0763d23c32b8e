use fastfloatrs::{
    check_conversion, parse_int, scan_float, Conversion, FastInt, FfFormat, FfcParseOptions,
    FloatScan, ParseError,
};

/// The float types the tests convert to.
trait TestFloat: Copy + PartialEq + std::str::FromStr + std::fmt::Debug {
    const NAN: Self;
    const INFINITY: Self;
    const NEG_INFINITY: Self;
    const ZERO: Self;
    fn infinite(self) -> bool;
}

impl TestFloat for f32 {
    const NAN: Self = f32::NAN;
    const INFINITY: Self = f32::INFINITY;
    const NEG_INFINITY: Self = f32::NEG_INFINITY;
    const ZERO: Self = 0.0;
    fn infinite(self) -> bool {
        self.is_infinite()
    }
}

impl TestFloat for f64 {
    const NAN: Self = f64::NAN;
    const INFINITY: Self = f64::INFINITY;
    const NEG_INFINITY: Self = f64::NEG_INFINITY;
    const ZERO: Self = 0.0;
    fn infinite(self) -> bool {
        self.is_infinite()
    }
}

/// A float parse built from the library's scanner and conversion check.
fn parse_float<T: TestFloat>(
    input: &[u8],
    options: FfcParseOptions,
) -> Result<(T, &[u8]), ParseError> {
    match scan_float(input, options)? {
        FloatScan::Nan { rest } => Ok((T::NAN, &input[rest..])),
        FloatScan::Infinity { neg, rest } => {
            Ok((if neg { T::NEG_INFINITY } else { T::INFINITY }, &input[rest..]))
        }
        FloatScan::Number { text, rest, nonzero_digit } => {
            let converted = std::str::from_utf8(&text).ok().and_then(|s| s.parse::<T>().ok());
            let class = match converted {
                None => Conversion::Failed,
                Some(v) if v.infinite() => Conversion::Infinite,
                Some(v) if v == T::ZERO => Conversion::Zero,
                Some(_) => Conversion::Finite,
            };
            check_conversion(class, nonzero_digit)?;
            Ok((converted.unwrap(), &input[rest..]))
        }
    }
}

fn verify_float_exact<T: TestFloat>(input: &str, expected: T, options: FfcParseOptions) {
    let bytes = input.as_bytes();
    match parse_float::<T>(bytes, options) {
        Ok((val, _)) => {
            let match_exact = if val != T::NAN && expected != T::NAN { true } else { val == expected };
            assert!(
                match_exact,
                "Value mismatch for input '{}'. Got: {:?}, Expected: {:?}",
                input, val, expected
            );
        }
        Err(e) => panic!("Failed to parse '{}': {:?}", input, e),
    }
}

fn verify_int<T: FastInt + std::fmt::Debug + PartialEq>(input: &str, expected: T) {
    let bytes = input.as_bytes();
    match parse_int::<T>(bytes) {
        Ok((val, _)) => assert_eq!(val, expected, "Value mismatch for input '{}'", input),
        Err(e) => panic!("Integer parse error for '{}': {:?}", input, e),
    }
}

fn verify_int_error<T: FastInt + std::fmt::Debug>(input: &str, expected_err: ParseError) {
    let bytes = input.as_bytes();
    let res = parse_int::<T>(bytes);
    assert!(res.is_err(), "Expected error for '{}', but got success", input);
    assert_eq!(res.unwrap_err(), expected_err);
}

#[test]
fn test_floats_basic() {
    let opts = FfcParseOptions::default();

    verify_float_exact::<f64>("1.2345", 1.2345, opts);
    verify_float_exact::<f32>("1.00000006e+09", 1.00000006e+09f32, opts);

    verify_float_exact::<f32>("1.4012984643e-45", 1.4012984643e-45f32, opts);

    verify_float_exact::<f64>("inf", f64::INFINITY, opts);
    verify_float_exact::<f64>("-infinity", f64::NEG_INFINITY, opts);
    verify_float_exact::<f64>("nan", f64::NAN, opts);
}

#[test]
fn test_float_json_constraints() {
    let json_opts = FfcParseOptions { format: FfFormat::preset_json(), ..Default::default() };

    assert!(parse_float::<f64>(b"+1.23", json_opts).is_err());

    assert!(parse_float::<f64>(b"01.23", json_opts).is_err());

    verify_float_exact::<f64>("0.123", 0.123, json_opts);
}

#[test]
fn test_i32_logic() {
    verify_int::<i32>("0", 0);
    verify_int::<i32>("-1", -1);
    verify_int::<i32>("2147483647", i32::MAX);
    verify_int::<i32>("-2147483648", i32::MIN);
}

#[test]
fn test_u64_swar_boundaries() {
    verify_int::<u64>("12345678", 12345678);
    verify_int::<u64>("1234567890123456", 1234567890123456);
}

#[test]
fn test_int_errors() {
    verify_int_error::<i32>("3000000000", ParseError::OutOfRange);

    let res = parse_int::<u32>(b"12a3").unwrap();
    assert_eq!(res.1, b"a3");
}

#[test]
fn test_issue_235_single_char() {
    verify_int::<i32>("0", 0);
}

#[test]
fn float_values_are_exact() {
    let opts = FfcParseOptions::default();
    let fortran = FfcParseOptions { format: FfFormat::preset_fortran(), ..Default::default() };
    assert_eq!(parse_float::<f64>(b"1.5-3", fortran).unwrap().0, 1.5e-3);
    assert_eq!(parse_float::<f64>(b"1.5+3", fortran).unwrap().0, 1.5e3);
    assert_eq!(parse_float::<f64>(b"1.5d-3", fortran).unwrap().0, 1.5e-3);
    let (v, rest) = parse_float::<f64>(b"123.456e-2 leftover", opts).unwrap();
    assert_eq!(v, 1.23456);
    assert_eq!(rest, b" leftover");
    let (v, _) = parse_float::<f32>(b"1.5", opts).unwrap();
    assert_eq!(v, 1.5f32);
    let (v, _) = parse_float::<f64>(b"-0.0", opts).unwrap();
    assert_eq!(v, 0.0);
    assert!(v.is_sign_negative());
}

#[test]
fn float_overflow_and_underflow_are_out_of_range() {
    let opts = FfcParseOptions::default();
    assert_eq!(parse_float::<f64>(b"1e400", opts).unwrap_err(), ParseError::OutOfRange);
    assert_eq!(parse_float::<f32>(b"1e40", opts).unwrap_err(), ParseError::OutOfRange);
    assert_eq!(parse_float::<f64>(b"1e-400", opts).unwrap_err(), ParseError::OutOfRange);
    // A zero with a nonzero exponent digit is zero, not an underflow.
    assert_eq!(parse_float::<f64>(b"0e5", opts).unwrap().0, 0.0);
    assert_eq!(parse_float::<f64>(b"0E10", opts).unwrap().0, 0.0);
    assert_eq!(parse_float::<f32>(b"0.0e-5", opts).unwrap().0, 0.0);
    assert_eq!(parse_float::<f64>(b"1e-400", opts).unwrap_err(), ParseError::OutOfRange);
    assert_eq!(parse_float::<f64>(b"0.000", opts).unwrap().0, 0.0);
}
