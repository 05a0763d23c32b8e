use fastfloatrs::{parse_int, FastInt, ParseError};

#[test]
fn signs_and_remainders() {
    assert_eq!(parse_int::<i32>(b"+17 apples").unwrap(), (17, &b" apples"[..]));
    assert_eq!(parse_int::<i64>(b"-42xyz").unwrap(), (-42, &b"xyz"[..]));
    assert_eq!(parse_int::<u32>(b"+0").unwrap(), (0, &b""[..]));
    assert_eq!(parse_int::<u64>(b"1234567x9").unwrap(), (1234567, &b"x9"[..]));
    assert_eq!(parse_int::<u64>(b"123456789012345 trailing").unwrap().0, 123456789012345);
}

#[test]
fn invalid_inputs() {
    assert_eq!(parse_int::<i32>(b"").unwrap_err(), ParseError::InvalidInput);
    assert_eq!(parse_int::<i32>(b"-").unwrap_err(), ParseError::InvalidInput);
    assert_eq!(parse_int::<i32>(b"+").unwrap_err(), ParseError::InvalidInput);
    assert_eq!(parse_int::<i32>(b"x1").unwrap_err(), ParseError::InvalidInput);
    assert_eq!(parse_int::<i32>(b" 1").unwrap_err(), ParseError::InvalidInput);
    assert_eq!(parse_int::<i32>(b"--1").unwrap_err(), ParseError::InvalidInput);
    assert_eq!(parse_int::<u32>(b"-1").unwrap_err(), ParseError::InvalidInput);
    assert_eq!(parse_int::<u64>(b"-0").unwrap_err(), ParseError::InvalidInput);
}

#[test]
fn type_limits() {
    assert_eq!(parse_int::<u32>(b"4294967295").unwrap().0, u32::MAX);
    assert_eq!(parse_int::<u32>(b"4294967296").unwrap_err(), ParseError::OutOfRange);
    assert_eq!(parse_int::<i32>(b"-2147483649").unwrap_err(), ParseError::OutOfRange);
    assert_eq!(parse_int::<i64>(b"-9223372036854775808").unwrap().0, i64::MIN);
    assert_eq!(parse_int::<i64>(b"9223372036854775807").unwrap().0, i64::MAX);
    assert_eq!(parse_int::<i64>(b"9223372036854775808").unwrap_err(), ParseError::OutOfRange);
    assert_eq!(parse_int::<u64>(b"18446744073709551615").unwrap().0, u64::MAX);
    assert_eq!(parse_int::<u64>(b"18446744073709551616").unwrap_err(), ParseError::OutOfRange);
}

#[test]
fn overflow_inside_eight_digit_chunks() {
    assert_eq!(
        parse_int::<u64>(b"123456789012345678901234").unwrap_err(),
        ParseError::OutOfRange
    );
    assert_eq!(parse_int::<u64>(b"99999999999999999999").unwrap_err(), ParseError::OutOfRange);
}

#[test]
fn leading_zeros_and_chunk_boundaries() {
    assert_eq!(parse_int::<u64>(b"00000000000000000000000042").unwrap().0, 42);
    assert_eq!(parse_int::<u64>(b"1234567812345678").unwrap().0, 1234567812345678);
    assert_eq!(parse_int::<u64>(b"12345678901234567").unwrap().0, 12345678901234567);
    assert_eq!(parse_int::<i32>(b"-00000007/").unwrap(), (-7, &b"/"[..]));
    assert_eq!(parse_int::<u64>(b"12345678:").unwrap(), (12345678, &b":"[..]));
}

#[test]
fn conversion_from_magnitude_and_sign() {
    assert_eq!(i32::from_u64(2147483648, true), Some(i32::MIN));
    assert_eq!(i32::from_u64(2147483648, false), None);
    assert_eq!(i32::from_u64(2147483649, true), None);
    assert_eq!(i64::from_u64(9223372036854775808, true), Some(i64::MIN));
    assert_eq!(u32::from_u64(4294967296, false), None);
    assert_eq!(u32::from_u64(5, true), Some(4294967291));
    assert_eq!(u32::from_u64(0, true), Some(0));
    assert_eq!(u64::from_u64(1, true), Some(u64::MAX));
    assert_eq!(u64::from_u64(u64::MAX, false), Some(u64::MAX));
    assert!(i32::IS_SIGNED && i64::IS_SIGNED && !u32::IS_SIGNED && !u64::IS_SIGNED);
}
