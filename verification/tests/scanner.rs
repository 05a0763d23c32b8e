use fastfloatrs::{scan_float, FfFormat, FfcParseOptions, FloatScan, ParseError, MAX_NUMBER_LEN};

fn opts(format: FfFormat) -> FfcParseOptions {
    FfcParseOptions { format, decimal_point: b'.' }
}

fn number(input: &[u8], options: FfcParseOptions) -> (Vec<u8>, usize, bool) {
    match scan_float(input, options) {
        Ok(FloatScan::Number { text, rest, nonzero_digit }) => (text, rest, nonzero_digit),
        Ok(FloatScan::Nan { .. }) => panic!("nan for {:?}", input),
        Ok(FloatScan::Infinity { .. }) => panic!("infinity for {:?}", input),
        Err(e) => panic!("error {:?} for {:?}", e, input),
    }
}

fn error(input: &[u8], options: FfcParseOptions) -> ParseError {
    match scan_float(input, options) {
        Err(e) => e,
        Ok(_) => panic!("accepted {:?}", input),
    }
}

#[test]
fn plain_decimal_numbers() {
    let o = FfcParseOptions::default();
    assert_eq!(number(b"123.456e-2 leftover", o), (b"123.456e-2".to_vec(), 10, true));
    assert_eq!(number(b"-0.5", o), (b"-0.5".to_vec(), 4, true));
    assert_eq!(number(b"1.", o), (b"1.".to_vec(), 2, true));
    assert_eq!(number(b".5x", o), (b".5".to_vec(), 2, true));
    assert_eq!(number(b"0.000", o), (b"0.000".to_vec(), 5, false));
    // Only the significand's digits count: the exponent's do not.
    assert_eq!(number(b"0e5", o), (b"0e5".to_vec(), 3, false));
    assert_eq!(number(b"0.0E-12", o), (b"0.0E-12".to_vec(), 7, false));
    assert_eq!(number(b"0.01e0", o), (b"0.01e0".to_vec(), 6, true));
    assert_eq!(number(b"7E+2;", o), (b"7E+2".to_vec(), 4, true));
}

#[test]
fn missing_digits_are_invalid() {
    let o = FfcParseOptions::default();
    assert_eq!(error(b"", o), ParseError::InvalidInput);
    assert_eq!(error(b".", o), ParseError::InvalidInput);
    assert_eq!(error(b"-", o), ParseError::InvalidInput);
    assert_eq!(error(b"-.e1", o), ParseError::InvalidInput);
    assert_eq!(error(b"not-a-number", o), ParseError::InvalidInput);
    // Without the flag a leading plus is not read.
    assert_eq!(error(b"+1.5", o), ParseError::InvalidInput);
}

#[test]
fn exponent_without_digits_falls_back_in_fixed_notation() {
    let o = FfcParseOptions::default();
    assert_eq!(number(b"1e", o), (b"1".to_vec(), 1, true));
    assert_eq!(number(b"2.5e+x", o), (b"2.5".to_vec(), 3, true));
    let sci = opts(FfFormat::scientific());
    assert_eq!(error(b"1e", sci), ParseError::InvalidInput);
    assert_eq!(error(b"15 ", sci), ParseError::InvalidInput);
    assert_eq!(number(b"15", sci), (b"15".to_vec(), 2, true));
    let fixed = opts(FfFormat::fixed());
    assert_eq!(number(b"15e3", fixed), (b"15".to_vec(), 2, true));
}

#[test]
fn infinities_and_nans_ignore_case() {
    let o = FfcParseOptions::default();
    assert!(matches!(scan_float(b"inf", o), Ok(FloatScan::Infinity { neg: false, rest: 3 })));
    assert!(matches!(scan_float(b"-Infinity!", o), Ok(FloatScan::Infinity { neg: true, rest: 9 })));
    assert!(matches!(scan_float(b"INFINIT", o), Ok(FloatScan::Infinity { neg: false, rest: 3 })));
    assert!(matches!(scan_float(b"NaN", o), Ok(FloatScan::Nan { rest: 3 })));
    assert!(matches!(scan_float(b"nan(abc_1)rest", o), Ok(FloatScan::Nan { rest: 10 })));
    assert!(matches!(scan_float(b"nan(abc", o), Ok(FloatScan::Nan { rest: 3 })));
    assert!(matches!(scan_float(b"nan(a-b)", o), Ok(FloatScan::Nan { rest: 3 })));
    assert!(matches!(scan_float(b"-nan", o), Ok(FloatScan::Nan { rest: 4 })));
    assert_eq!(error(b"in", o), ParseError::InvalidInput);
}

#[test]
fn infinities_and_nans_refused() {
    let o = opts(FfFormat::preset_general().union(FfFormat::no_infnan()));
    assert_eq!(error(b"inf", o), ParseError::InvalidInput);
    assert_eq!(error(b"nan", o), ParseError::InvalidInput);
    // The JSON syntax reads no infinity, even in the preset that names it.
    let j = opts(FfFormat::preset_json_or_infnan());
    assert_eq!(error(b"inf", j), ParseError::InvalidInput);
    assert_eq!(error(b"nan", j), ParseError::InvalidInput);
}

#[test]
fn json_syntax() {
    let j = opts(FfFormat::preset_json());
    assert_eq!(error(b"+1.23", j), ParseError::InvalidInput);
    assert_eq!(error(b"01.23", j), ParseError::InvalidInput);
    assert_eq!(error(b"-01", j), ParseError::InvalidInput);
    assert_eq!(error(b"1.", j), ParseError::InvalidInput);
    assert_eq!(error(b".5", j), ParseError::InvalidInput);
    assert_eq!(number(b"0.123", j), (b"0.123".to_vec(), 5, true));
    assert_eq!(number(b"-0", j), (b"-0".to_vec(), 2, false));
    assert_eq!(number(b"10e-2,", j), (b"10e-2".to_vec(), 5, true));
}

#[test]
fn leading_plus_when_allowed() {
    let o = opts(FfFormat::preset_general().union(FfFormat::allow_leading_plus()));
    assert_eq!(number(b"+1.5", o), (b"+1.5".to_vec(), 4, true));
    assert!(matches!(scan_float(b"+inf", o), Ok(FloatScan::Infinity { neg: false, rest: 4 })));
}

#[test]
fn fortran_exponent_markers() {
    let f = opts(FfFormat::preset_fortran());
    assert_eq!(number(b"1.5d3", f), (b"1.5e3".to_vec(), 5, true));
    assert_eq!(number(b"1.5D-3", f), (b"1.5e-3".to_vec(), 6, true));
    // A bare sign as exponent marker is handed on as `e` and that sign.
    assert_eq!(number(b"1.5+3", f), (b"1.5e+3".to_vec(), 5, true));
    assert_eq!(number(b"1.5-3", f), (b"1.5e-3".to_vec(), 5, true));
    assert_eq!(number(b"0-3", f), (b"0e-3".to_vec(), 3, false));
    assert_eq!(number(b"2e4", f), (b"2e4".to_vec(), 3, true));
    assert_eq!(number(b"2d", f), (b"2".to_vec(), 1, true));
}

#[test]
fn other_decimal_point() {
    let o = FfcParseOptions { format: FfFormat::preset_general(), decimal_point: b',' };
    assert_eq!(number(b"1,25;", o), (b"1.25".to_vec(), 4, true));
    assert_eq!(number(b"1.25", o), (b"1".to_vec(), 1, true));
}

#[test]
fn white_space_skipped_when_asked() {
    let o = opts(FfFormat::preset_general().union(FfFormat::skip_white_space()));
    assert_eq!(number(b" \t\n\r\x0c7.5 ", o), (b"7.5".to_vec(), 8, true));
    assert_eq!(error(b"   ", o), ParseError::InvalidInput);
    assert_eq!(error(b" 1", FfcParseOptions::default()), ParseError::InvalidInput);
}

#[test]
fn long_numbers_are_out_of_range() {
    let o = FfcParseOptions::default();
    let ok = vec![b'1'; MAX_NUMBER_LEN];
    assert_eq!(number(&ok, o).1, MAX_NUMBER_LEN);
    let long = vec![b'1'; MAX_NUMBER_LEN + 1];
    assert_eq!(error(&long, o), ParseError::OutOfRange);
}

#[test]
fn number_text_is_ascii_numeric() {
    let cases: [(&[u8], FfcParseOptions); 4] = [
        (b"-12.5e+3", FfcParseOptions::default()),
        (b"3,5d-2", FfcParseOptions { format: FfFormat::preset_fortran(), decimal_point: b',' }),
        (b"9+9", opts(FfFormat::preset_fortran())),
        (b"+.5E1", opts(FfFormat::preset_general().union(FfFormat::allow_leading_plus()))),
    ];
    for (input, o) in cases.iter() {
        let (text, rest, _) = number(input, *o);
        assert!(rest <= text.len() && text.len() <= rest + 1);
        assert!(text.iter().all(|b| b"0123456789.+-eE".contains(b)), "{:?}", text);
    }
}
