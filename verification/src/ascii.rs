use vstd::prelude::*;

verus! {

/// `b` is one of the ASCII digits `0` to `9`.
pub open spec fn is_digit(b: u8) -> bool {
    0x30 <= b && b <= 0x39
}

/// `b` is ASCII white space as `u8::is_ascii_whitespace` counts it:
/// space, tab, line feed, form feed or carriage return.
pub open spec fn is_whitespace(b: u8) -> bool {
    b == 0x20 || b == 0x09 || b == 0x0a || b == 0x0c || b == 0x0d
}

/// `b` is an ASCII letter or digit.
pub open spec fn is_alphanumeric(b: u8) -> bool {
    is_digit(b) || (0x41 <= b && b <= 0x5a) || (0x61 <= b && b <= 0x7a)
}

/// `b` with an ASCII upper-case letter mapped to its lower-case form.
pub open spec fn lower(b: u8) -> u8 {
    if 0x41 <= b && b <= 0x5a {
        (b + 0x20) as u8
    } else {
        b
    }
}

pub fn byte_is_digit(b: u8) -> (r: bool)
    ensures
        r == is_digit(b),
{
    b >= 0x30 && b <= 0x39
}

pub fn byte_is_whitespace(b: u8) -> (r: bool)
    ensures
        r == is_whitespace(b),
{
    b == 0x20 || b == 0x09 || b == 0x0a || b == 0x0c || b == 0x0d
}

pub fn byte_is_alphanumeric(b: u8) -> (r: bool)
    ensures
        r == is_alphanumeric(b),
{
    (b >= 0x30 && b <= 0x39) || (b >= 0x41 && b <= 0x5a) || (b >= 0x61 && b <= 0x7a)
}

pub fn byte_to_lower(b: u8) -> (r: u8)
    ensures
        r == lower(b),
{
    if b >= 0x41 && b <= 0x5a {
        b + 0x20
    } else {
        b
    }
}

/// The kinds of byte runs that the parsers skip over.
#[derive(Clone, Copy)]
pub enum ByteClass {
    /// ASCII digits.
    Digit,
    /// ASCII white space.
    WhiteSpace,
    /// ASCII letters, digits and `_`, as in the payload of `nan(...)`.
    NanPayload,
}

pub open spec fn in_class(b: u8, c: ByteClass) -> bool {
    match c {
        ByteClass::Digit => is_digit(b),
        ByteClass::WhiteSpace => is_whitespace(b),
        ByteClass::NanPayload => is_alphanumeric(b) || b == 0x5f,
    }
}

/// The index just past the run of bytes of class `c` that starts at `i`.
pub open spec fn run_end(s: Seq<u8>, i: int, c: ByteClass) -> int
    decreases s.len() - i,
{
    if 0 <= i < s.len() && in_class(s[i], c) {
        run_end(s, i + 1, c)
    } else {
        i
    }
}

pub fn byte_in_class(b: u8, c: ByteClass) -> (r: bool)
    ensures
        r == in_class(b, c),
{
    match c {
        ByteClass::Digit => byte_is_digit(b),
        ByteClass::WhiteSpace => byte_is_whitespace(b),
        ByteClass::NanPayload => byte_is_alphanumeric(b) || b == 0x5f,
    }
}

/// The index just past the run of bytes of class `c` that starts at `i`.
pub fn skip_run(input: &[u8], i: usize, c: ByteClass) -> (r: usize)
    requires
        i <= input@.len(),
    ensures
        r == run_end(input@, i as int, c),
        i <= r <= input@.len(),
{
    let mut k = i;
    while k < input.len() && byte_in_class(input[k], c)
        invariant
            i <= k <= input@.len(),
            run_end(input@, i as int, c) == run_end(input@, k as int, c),
        decreases input@.len() - k,
    {
        k = k + 1;
    }
    k
}

/// Skipping over bytes of the class does not move the end of the run.
pub proof fn lemma_run_end_skip(s: Seq<u8>, i: int, j: int, c: ByteClass)
    requires
        0 <= i <= j <= s.len(),
        forall|k: int| i <= k < j ==> in_class(#[trigger] s[k], c),
    ensures
        run_end(s, i, c) == run_end(s, j, c),
    decreases j - i,
{
    if i < j {
        lemma_run_end_skip(s, i + 1, j, c);
    }
}

/// A run ends within the input, at a byte outside the class, and holds only bytes of the class.
pub proof fn lemma_run_end_bounds(s: Seq<u8>, i: int, c: ByteClass)
    requires
        0 <= i <= s.len(),
    ensures
        i <= run_end(s, i, c) <= s.len(),
        run_end(s, i, c) < s.len() ==> !in_class(s[run_end(s, i, c)], c),
        forall|k: int| i <= k < run_end(s, i, c) ==> in_class(#[trigger] s[k], c),
    decreases s.len() - i,
{
    if i < s.len() && in_class(s[i], c) {
        lemma_run_end_bounds(s, i + 1, c);
    }
}

} // verus!
