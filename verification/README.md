# fastfloatrs

Parsing of decimal floats and integers from the start of byte slices, with
the parsing logic verified by Verus.

- `src/integer.rs`: `parse_int` for `i32`, `u32`, `i64` and `u64`, reading
  eight digits at a time (SWAR) where it can; its contract gives the exact
  value, remainder and error for every input.
- `src/float.rs`: the float syntax (white space, sign, `nan`/`inf`, fraction,
  exponent, JSON and Fortran variants) as spec functions, the scanner
  `scan_float` that reads it, and `check_conversion`, which judges the result
  of converting the scanned text. Laws of the syntax are proved there.
- `src/format.rs`: the format flags and parse options.
- `src/ffi.rs`: the outcome codes and flag values of the C interface, and the
  mapping of its arguments.
- `src/ascii.rs`: byte classes and runs of them.
- `app/`: the float conversion itself (`parse_float`), the `extern "C"`
  functions, and the flags as a `bitflags` type.

Notes on the syntax:
- Only the significand's digits decide an underflow: `0e5` reads as zero.
- A Fortran exponent written as a bare sign (`1.5-3`) is handed on as `e`
  and that sign (`1.5e-3`); `d` and `D` are handed on as `e`.
- `FfFormat::hex` is accepted but not read: hexadecimal floats are not parsed.
- The scanner hands the number's text on in a `Vec<u8>`, so the library needs
  an allocator.
