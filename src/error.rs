//! Spans, byte classes and the diagnostic reported for malformed input.

use vstd::prelude::*;

verus! {

/// A half-open byte interval `[start, end)` of the input.
#[derive(Clone, Copy, Debug, PartialEq, Eq, Structural)]
pub struct Span {
    pub start: usize,
    pub end: usize,
}

impl Span {
    /// The interval `[start, end)`.
    pub fn new(start: usize, end: usize) -> (r: Span)
        ensures
            r.start == start,
            r.end == end,
    {
        Span { start, end }
    }
}

/// The class of byte that the decoder expected at some position.
#[derive(Clone, Copy, Debug, PartialEq, Eq, Structural)]
pub enum Expected {
    /// The first byte of an encoded codepoint.
    StartByte,
    /// Any continuation byte, `0x80 ..= 0xBF`.
    ContinuationByte,
    /// The second byte after lead `0xE0`: `0xA0 ..= 0xBF` (no overlong forms).
    RangeA0ToBF,
    /// The second byte after lead `0xED`: `0x80 ..= 0x9F` (no surrogates).
    Range80To9F,
    /// The second byte after lead `0xF0`: `0x90 ..= 0xBF` (no overlong forms).
    Range90ToBF,
    /// The second byte after lead `0xF4`: `0x80 ..= 0x8F` (nothing past U+10FFFF).
    Range80To8F,
}

/// True when byte `b` belongs to class `e`: for a start byte, one that begins
/// a valid sequence (`0x00 ..= 0x7F` or `0xC2 ..= 0xF4`); for a continuation
/// class, a byte within its range.
pub open spec fn class_accepts(e: Expected, b: u8) -> bool {
    match e {
        Expected::StartByte => b <= 0x7F || 0xC2 <= b <= 0xF4,
        Expected::ContinuationByte => 0x80 <= b <= 0xBF,
        Expected::RangeA0ToBF => 0xA0 <= b <= 0xBF,
        Expected::Range80To9F => 0x80 <= b <= 0x9F,
        Expected::Range90ToBF => 0x90 <= b <= 0xBF,
        Expected::Range80To8F => 0x80 <= b <= 0x8F,
    }
}

/// The text of the label that names a class in a diagnostic.
pub open spec fn label_text(e: Expected) -> Seq<char> {
    match e {
        Expected::StartByte => "a UTF-8 start byte"@,
        Expected::ContinuationByte => "a UTF-8 continuation byte"@,
        Expected::RangeA0ToBF => "0xA0 ..= 0xBF"@,
        Expected::Range80To9F => "0x80 ..= 0x9F"@,
        Expected::Range90ToBF => "0x90 ..= 0xBF"@,
        Expected::Range80To8F => "0x80 ..= 0x8F"@,
    }
}

impl Expected {
    /// The label of this class, as it appears in a diagnostic.
    pub fn label(&self) -> (r: &'static str)
        ensures
            r@ == label_text(*self),
    {
        match self {
            Expected::StartByte => "a UTF-8 start byte",
            Expected::ContinuationByte => "a UTF-8 continuation byte",
            Expected::RangeA0ToBF => "0xA0 ..= 0xBF",
            Expected::Range80To9F => "0x80 ..= 0x9F",
            Expected::Range90ToBF => "0x90 ..= 0xBF",
            Expected::Range80To8F => "0x80 ..= 0x8F",
        }
    }

    /// Whether `b` belongs to this class.
    pub fn accepts(&self, b: u8) -> (r: bool)
        ensures
            r == class_accepts(*self, b),
    {
        match self {
            Expected::StartByte => b <= 0x7F || (0xC2 <= b && b <= 0xF4),
            Expected::ContinuationByte => 0x80 <= b && b <= 0xBF,
            Expected::RangeA0ToBF => 0xA0 <= b && b <= 0xBF,
            Expected::Range80To9F => 0x80 <= b && b <= 0x9F,
            Expected::Range90ToBF => 0x90 <= b && b <= 0xBF,
            Expected::Range80To8F => 0x80 <= b && b <= 0x8F,
        }
    }
}

/// Why decoding stopped: the class expected at the offending position, the
/// byte found there (`None` at the end of the input), and the span of that
/// position (`[p, p + 1)` for a byte, the empty span `[n, n)` at the end of an
/// input of length `n`).
#[derive(Clone, Copy, Debug, PartialEq, Eq)]
pub struct DecodeError {
    pub expected: Expected,
    pub found: Option<u8>,
    pub span: Span,
}

/// The diagnostic for position `q` of `s` when class `e` was expected there.
pub open spec fn error_at(s: Seq<u8>, q: int, e: Expected) -> DecodeError {
    if q < s.len() {
        DecodeError { expected: e, found: Some(s[q]), span: Span { start: q as usize, end: (q + 1) as usize } }
    } else {
        DecodeError { expected: e, found: None, span: Span { start: s.len() as usize, end: s.len() as usize } }
    }
}

/// Builds the diagnostic for position `q` of `input`.
pub(crate) fn make_error(input: &[u8], q: usize, e: Expected) -> (r: DecodeError)
    requires
        q <= input@.len(),
    ensures
        r == error_at(input@, q as int, e),
{
    if q < input.len() {
        DecodeError { expected: e, found: Some(input[q]), span: Span { start: q, end: q + 1 } }
    } else {
        DecodeError { expected: e, found: None, span: Span { start: input.len(), end: input.len() } }
    }
}

} // verus!
