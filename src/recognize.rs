//! Recognition of one UTF-8 encoded codepoint at a byte position.

use vstd::prelude::*;
use vstd::utf8::*;
use crate::laws::lemma_recognize_agrees;
use crate::error::{class_accepts, error_at, make_error, DecodeError, Expected};

verus! {

/// Number of bytes in a sequence that starts with `lead`, or 0 when `lead`
/// starts no valid sequence (`0x80 ..= 0xC1` and `0xF5 ..= 0xFF`).
pub open spec fn sequence_len(lead: u8) -> int {
    if lead <= 0x7F {
        1
    } else if 0xC2 <= lead <= 0xDF {
        2
    } else if 0xE0 <= lead <= 0xEF {
        3
    } else if 0xF0 <= lead <= 0xF4 {
        4
    } else {
        0
    }
}

/// The class expected at offset `i` (1, 2 or 3) after lead byte `lead`. Only
/// the second byte after `0xE0`, `0xED`, `0xF0` and `0xF4` is narrowed.
pub open spec fn expected_after(lead: u8, i: int) -> Expected {
    if i == 1 && lead == 0xE0 {
        Expected::RangeA0ToBF
    } else if i == 1 && lead == 0xED {
        Expected::Range80To9F
    } else if i == 1 && lead == 0xF0 {
        Expected::Range90ToBF
    } else if i == 1 && lead == 0xF4 {
        Expected::Range80To8F
    } else {
        Expected::ContinuationByte
    }
}

/// True when byte `p + i` of `s` exists and fits the class expected at offset
/// `i` of the sequence that starts at `p`.
pub open spec fn continues(s: Seq<u8>, p: int, i: int) -> bool {
    p + i < s.len() && class_accepts(expected_after(s[p], i), s[p + i])
}

/// The value reconstructed from the `n` bytes of `s` that start at `p`.
pub open spec fn sequence_value(s: Seq<u8>, p: int, n: int) -> u32 {
    if n == 1 {
        codepoint_width_1(s[p])
    } else if n == 2 {
        codepoint_width_2(s[p], s[p + 1])
    } else if n == 3 {
        codepoint_width_3(s[p], s[p + 1], s[p + 2])
    } else {
        codepoint_width_4(s[p], s[p + 1], s[p + 2], s[p + 3])
    }
}

/// The outcome of recognizing one codepoint at position `p` of `s`: the
/// codepoint and the number of bytes it takes, or the diagnostic for the first
/// byte that does not fit.
pub open spec fn recognize(s: Seq<u8>, p: int) -> Result<(char, usize), DecodeError> {
    if p >= s.len() {
        Err(error_at(s, p, Expected::StartByte))
    } else {
        let lead = s[p];
        let n = sequence_len(lead);
        if n == 0 {
            Err(error_at(s, p, Expected::StartByte))
        } else if n >= 2 && !continues(s, p, 1) {
            Err(error_at(s, p + 1, expected_after(lead, 1)))
        } else if n >= 3 && !continues(s, p, 2) {
            Err(error_at(s, p + 2, expected_after(lead, 2)))
        } else if n >= 4 && !continues(s, p, 3) {
            Err(error_at(s, p + 3, expected_after(lead, 3)))
        } else {
            Ok((sequence_value(s, p, n) as char, n as usize))
        }
    }
}

/// Relies on `char::from_u32`: `Some` exactly for Unicode scalar values, holding
/// the `char` of that value.
pub assume_specification[ <char>::from_u32 ](i: u32) -> (r: Option<char>)
    ensures
        r is Some <==> is_scalar(i),
        r matches Some(c) ==> c as u32 == i,
;

fn sequence_len_of(lead: u8) -> (r: usize)
    ensures
        r as int == sequence_len(lead),
{
    if lead <= 0x7F {
        1
    } else if 0xC2 <= lead && lead <= 0xDF {
        2
    } else if 0xE0 <= lead && lead <= 0xEF {
        3
    } else if 0xF0 <= lead && lead <= 0xF4 {
        4
    } else {
        0
    }
}

fn expected_after_of(lead: u8, i: usize) -> (r: Expected)
    ensures
        r == expected_after(lead, i as int),
{
    if i == 1 && lead == 0xE0 {
        Expected::RangeA0ToBF
    } else if i == 1 && lead == 0xED {
        Expected::Range80To9F
    } else if i == 1 && lead == 0xF0 {
        Expected::Range90ToBF
    } else if i == 1 && lead == 0xF4 {
        Expected::Range80To8F
    } else {
        Expected::ContinuationByte
    }
}

/// The narrowed ranges leave only scalar values, none of them overlong.
proof fn lemma_value_is_scalar(s: Seq<u8>, p: int)
    requires
        0 <= p < s.len(),
        recognize(s, p) is Ok,
    ensures
        is_scalar(sequence_value(s, p, sequence_len(s[p]))),
{
    let b1 = s[p];
    let n = sequence_len(b1);
    if n == 1 {
        assert(is_scalar(codepoint_width_1(b1))) by (bit_vector)
            requires
                b1 <= 0x7F,
        ;
    } else if n == 2 {
        let b2 = s[p + 1];
        assert(is_scalar(codepoint_width_2(b1, b2))) by (bit_vector)
            requires
                0xC2 <= b1 <= 0xDF,
                0x80 <= b2 <= 0xBF,
        ;
    } else if n == 3 {
        let b2 = s[p + 1];
        let b3 = s[p + 2];
        assert(is_scalar(codepoint_width_3(b1, b2, b3))) by (bit_vector)
            requires
                0xE0 <= b1 <= 0xEF,
                0x80 <= b2 <= 0xBF,
                0x80 <= b3 <= 0xBF,
                b1 == 0xE0 ==> 0xA0 <= b2,
                b1 == 0xED ==> b2 <= 0x9F,
        ;
    } else {
        let b2 = s[p + 1];
        let b3 = s[p + 2];
        let b4 = s[p + 3];
        assert(is_scalar(codepoint_width_4(b1, b2, b3, b4))) by (bit_vector)
            requires
                0xF0 <= b1 <= 0xF4,
                0x80 <= b2 <= 0xBF,
                0x80 <= b3 <= 0xBF,
                0x80 <= b4 <= 0xBF,
                b1 == 0xF0 ==> 0x90 <= b2,
                b1 == 0xF4 ==> b2 <= 0x8F,
        ;
    }
}

/// Recognizes one codepoint starting at byte `pos` of `input`.
///
/// On success returns the codepoint and the number of bytes it takes (1 to 4).
/// On failure returns the class expected at the first byte that does not fit,
/// with that byte (or the end of the input) and its position. At the end of
/// the input the failure is a missing start byte.
pub fn codepoint(input: &[u8], pos: usize) -> (r: Result<(char, usize), DecodeError>)
    requires
        pos <= input@.len(),
    ensures
        r == recognize(input@, pos as int),
        r matches Ok((c, n)) ==> 1 <= n <= 4 && pos + n <= input@.len(),
        pos < input@.len() ==> (r is Ok <==> valid_first_scalar(
            input@.subrange(pos as int, input@.len() as int),
        )),
        r matches Ok((c, n)) ==> ({
            let u = input@.subrange(pos as int, input@.len() as int);
            c == decode_first_scalar(u) as char && n == length_of_first_scalar(u)
        }),
{
    let ghost s = input@;
    proof {
        if pos < input@.len() {
            lemma_recognize_agrees(s, pos as int);
        }
    }
    if pos >= input.len() {
        return Err(make_error(input, pos, Expected::StartByte));
    }
    let lead = input[pos];
    let n = sequence_len_of(lead);
    if n == 0 {
        return Err(make_error(input, pos, Expected::StartByte));
    }
    let rest = input.len() - pos;
    let mut i: usize = 1;
    while i < n
        invariant
            1 <= i <= n <= 4,
            n as int == sequence_len(lead),
            pos < s.len(),
            s == input@,
            lead == s[pos as int],
            rest == s.len() - pos,
            i <= rest,
            s.len() <= usize::MAX,
            forall|j: int| 1 <= j < i ==> continues(s, pos as int, j),
            recognize(s, pos as int) is Ok <==> valid_first_scalar(
                s.subrange(pos as int, s.len() as int),
            ),
        decreases n - i,
    {
        let e = expected_after_of(lead, i);
        if i >= rest || !e.accepts(input[pos + i]) {
            assert(!continues(s, pos as int, i as int));
            return Err(make_error(input, pos + i, e));
        }
        i = i + 1;
    }
    let v: u32 = if n == 1 {
        (lead & 0x7F) as u32
    } else if n == 2 {
        (((lead & 0x1F) as u32) << 6) | ((input[pos + 1] & 0x3F) as u32)
    } else if n == 3 {
        (((lead & 0x0F) as u32) << 12) | (((input[pos + 1] & 0x3F) as u32) << 6) | ((input[pos
            + 2] & 0x3F) as u32)
    } else {
        (((lead & 0x07) as u32) << 18) | (((input[pos + 1] & 0x3F) as u32) << 12) | (((input[pos
            + 2] & 0x3F) as u32) << 6) | ((input[pos + 3] & 0x3F) as u32)
    };
    assert(v == sequence_value(s, pos as int, n as int));
    proof {
        lemma_value_is_scalar(s, pos as int);
    }
    let c = char::from_u32(v).unwrap();
    proof {
        char_u32_cast(c, v);
    }
    Ok((c, n))
}

} // verus!
