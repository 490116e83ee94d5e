//! Properties of the decoder, stated against vstd's model of UTF-8.

use vstd::prelude::*;
use vstd::utf8::*;
use crate::error::{class_accepts, DecodeError, Span};
use crate::recognize::{expected_after, recognize};
use crate::sequence::{chars_of, continue_with, decode_all, decode_from, spans_tile};

verus! {

/// Among two-byte forms, only leads `0xC2` and up avoid overlong values.
proof fn lemma_two_byte(b1: u8, b2: u8)
    requires
        is_leading_byte_width_2(b1),
        is_continuation_byte(b2),
    ensures
        0x80 <= codepoint_width_2(b1, b2) <==> 0xC2 <= b1,
        codepoint_width_2(b1, b2) <= 0x7FF,
{
    assert(codepoint_width_2(b1, b2) <= 0x7FF) by (bit_vector);
    assert(0x80 <= codepoint_width_2(b1, b2) <==> 0xC2 <= b1) by (bit_vector)
        requires
            0xC0 <= b1 <= 0xDF,
            0x80 <= b2 <= 0xBF,
    ;
}

/// Among three-byte forms, lead `0xE0` needs a second byte of `0xA0` or more to
/// avoid overlong values, and lead `0xED` one of `0x9F` or less to avoid
/// surrogates.
proof fn lemma_three_byte(b1: u8, b2: u8, b3: u8)
    requires
        is_leading_byte_width_3(b1),
        is_continuation_byte(b2),
        is_continuation_byte(b3),
    ensures
        0x800 <= codepoint_width_3(b1, b2, b3) <==> !(b1 == 0xE0 && b2 < 0xA0),
        not_surrogate(codepoint_width_3(b1, b2, b3)) <==> !(b1 == 0xED && b2 > 0x9F),
        codepoint_width_3(b1, b2, b3) <= 0xFFFF,
{
    assert(codepoint_width_3(b1, b2, b3) <= 0xFFFF) by (bit_vector);
    assert(0x800 <= codepoint_width_3(b1, b2, b3) <==> !(b1 == 0xE0 && b2 < 0xA0)) by (bit_vector)
        requires
            0xE0 <= b1 <= 0xEF,
            0x80 <= b2 <= 0xBF,
            0x80 <= b3 <= 0xBF,
    ;
    assert(!(0xD800 <= codepoint_width_3(b1, b2, b3) <= 0xDFFF) <==> !(b1 == 0xED && b2 > 0x9F))
        by (bit_vector)
        requires
            0xE0 <= b1 <= 0xEF,
            0x80 <= b2 <= 0xBF,
            0x80 <= b3 <= 0xBF,
    ;
}

/// Among four-byte forms, the value lies in `0x10000 ..= 0x10FFFF` exactly when
/// the lead is at most `0xF4` and the second byte fits the narrowed ranges.
proof fn lemma_four_byte(b1: u8, b2: u8, b3: u8, b4: u8)
    requires
        is_leading_byte_width_4(b1),
        is_continuation_byte(b2),
        is_continuation_byte(b3),
        is_continuation_byte(b4),
    ensures
        (0x10000 <= codepoint_width_4(b1, b2, b3, b4) <= 0x10FFFF) <==> (b1 <= 0xF4 && !(b1
            == 0xF0 && b2 < 0x90) && !(b1 == 0xF4 && b2 > 0x8F)),
{
    assert((0x10000 <= codepoint_width_4(b1, b2, b3, b4) <= 0x10FFFF) <==> (b1 <= 0xF4 && !(b1
        == 0xF0 && b2 < 0x90) && !(b1 == 0xF4 && b2 > 0x8F))) by (bit_vector)
        requires
            0xF0 <= b1 <= 0xF7,
            0x80 <= b2 <= 0xBF,
            0x80 <= b3 <= 0xBF,
            0x80 <= b4 <= 0xBF,
    ;
}

/// One codepoint is recognized at `p` exactly when the bytes from `p` on start
/// with a well-formed encoding of a scalar value, as vstd's model defines it;
/// the codepoint and its length are then the ones that model gives.
pub proof fn lemma_recognize_agrees(s: Seq<u8>, p: int)
    requires
        0 <= p < s.len(),
    ensures
        ({
            let u = s.subrange(p, s.len() as int);
            &&& recognize(s, p) is Ok <==> valid_first_scalar(u)
            &&& recognize(s, p) matches Ok((c, n)) ==> c == decode_first_scalar(u) as char
                && n as int == length_of_first_scalar(u)
        }),
{
    let u = s.subrange(p, s.len() as int);
    let b1 = s[p];
    assert(u[0] == b1);
    if u.len() >= 2 {
        assert(u[1] == s[p + 1]);
    }
    if u.len() >= 3 {
        assert(u[2] == s[p + 2]);
    }
    if u.len() >= 4 {
        assert(u[3] == s[p + 3]);
    }
    if is_leading_byte_width_1(b1) {
        assert(codepoint_width_1(b1) <= 0x7F) by (bit_vector);
    }
    if is_leading_byte_width_2(b1) && u.len() >= 2 && is_continuation_byte(u[1]) {
        lemma_two_byte(b1, u[1]);
    }
    if is_leading_byte_width_3(b1) && u.len() >= 3 && is_continuation_byte(u[1])
        && is_continuation_byte(u[2]) {
        lemma_three_byte(b1, u[1], u[2]);
    }
    if is_leading_byte_width_4(b1) && u.len() >= 4 && is_continuation_byte(u[1])
        && is_continuation_byte(u[2]) && is_continuation_byte(u[3]) {
        lemma_four_byte(b1, u[1], u[2], u[3]);
    }
}

/// One step of decoding: a recognized codepoint at `p` is followed by what
/// decoding yields after it.
proof fn lemma_decode_step(s: Seq<u8>, p: int)
    requires
        0 <= p < s.len(),
        recognize(s, p) is Ok,
    ensures
        ({
            let (c, n) = recognize(s, p)->Ok_0;
            &&& 1 <= n <= 4
            &&& p + n <= s.len()
            &&& decode_from(s, p) == continue_with(
                seq![(c, Span { start: p as usize, end: (p + n) as usize })],
                s,
                p + n,
            )
        }),
{
}

/// Spans tile `[p, to)` when a first one covers `[p, q)` and the rest tile `[q, to)`.
proof fn lemma_tile_prepend(tok: (char, Span), rest: Seq<(char, Span)>, p: int, q: int, to: int)
    requires
        tok.1.start == p,
        tok.1.end == q,
        p < q,
        spans_tile(rest, q, to),
    ensures
        spans_tile(seq![tok] + rest, p, to),
{
    let t = seq![tok] + rest;
    assert forall|i: int| 0 <= i < t.len() implies #[trigger] t[i].1.start < t[i].1.end by {
        if i > 0 {
            assert(t[i] == rest[i - 1]);
        }
    }
    assert forall|i: int| 0 <= i < t.len() - 1 implies #[trigger] t[i].1.end == t[i
        + 1].1.start by {
        if i > 0 {
            assert(t[i] == rest[i - 1]);
            assert(t[i + 1] == rest[i]);
        }
    }
}

/// Decoding from `p` on succeeds exactly when the rest of `s` is valid UTF-8;
/// the codepoints are then the ones vstd's model decodes, and their spans tile
/// `[p, s.len())`.
pub proof fn lemma_decode_from_agrees(s: Seq<u8>, p: int)
    requires
        0 <= p <= s.len(),
        s.len() <= usize::MAX,
    ensures
        ({
            let u = s.subrange(p, s.len() as int);
            &&& decode_from(s, p) is Ok <==> valid_utf8(u)
            &&& decode_from(s, p) matches Ok(t) ==> chars_of(t) == decode_utf8(u) && spans_tile(
                t,
                p,
                s.len() as int,
            )
        }),
    decreases s.len() - p,
{
    let u = s.subrange(p, s.len() as int);
    if p == s.len() {
        assert(u.len() == 0);
        assert(chars_of(seq![]) =~= seq![]);
    } else {
        lemma_recognize_agrees(s, p);
        if recognize(s, p) is Ok {
            let (c, n) = recognize(s, p)->Ok_0;
            lemma_decode_step(s, p);
            let rest_bytes = s.subrange(p + n, s.len() as int);
            assert(pop_first_scalar(u) =~= rest_bytes);
            lemma_decode_from_agrees(s, p + n);
            assert(valid_utf8(u) == valid_utf8(rest_bytes));
            if decode_from(s, p + n) is Ok {
                let rest = decode_from(s, p + n)->Ok_0;
                let tok = (c, Span { start: p as usize, end: (p + n) as usize });
                assert(decode_utf8(u) == seq![c] + decode_utf8(rest_bytes));
                assert(chars_of(seq![tok] + rest) =~= seq![c] + chars_of(rest));
                lemma_tile_prepend(tok, rest, p, p + n, s.len() as int);
            }
        } else {
            assert(!valid_utf8(u));
        }
    }
}

/// Decoding a valid UTF-8 sequence yields exactly the codepoints that vstd's
/// model of UTF-8 decodes from it, with spans that cover the whole input in
/// order, without gaps or overlaps.
pub proof fn lemma_valid_input_decodes(s: Seq<u8>)
    requires
        valid_utf8(s),
        s.len() <= usize::MAX,
    ensures
        decode_all(s) matches Ok(t) && chars_of(t) == decode_utf8(s) && spans_tile(
            t,
            0,
            s.len() as int,
        ),
{
    lemma_decode_from_agrees(s, 0);
    assert(s.subrange(0, s.len() as int) =~= s);
}

/// Decoding succeeds exactly on valid UTF-8.
pub proof fn lemma_decode_accepts_exactly_valid(s: Seq<u8>)
    requires
        s.len() <= usize::MAX,
    ensures
        decode_all(s) is Ok <==> valid_utf8(s),
{
    lemma_decode_from_agrees(s, 0);
    assert(s.subrange(0, s.len() as int) =~= s);
}

/// Encoding any sequence of characters as UTF-8 and decoding the bytes gives
/// the characters back.
pub proof fn lemma_encoded_chars_decode(cs: Seq<char>)
    requires
        encode_utf8(cs).len() <= usize::MAX,
    ensures
        decode_all(encode_utf8(cs)) matches Ok(t) && chars_of(t) == cs,
{
    encode_utf8_valid_utf8(cs);
    encode_utf8_decode_utf8(cs);
    lemma_valid_input_decodes(encode_utf8(cs));
}

/// A single character encoded as UTF-8 is recognized as that character, and
/// the recognizer takes exactly the encoded bytes.
pub proof fn lemma_round_trip(c: char)
    ensures
        recognize(encode_scalar(c as u32), 0) == Ok::<(char, usize), DecodeError>(
            (c, encode_scalar(c as u32).len() as usize),
        ),
{
    let b = encode_scalar(c as u32);
    let cs = seq![c];
    assert(cs.drop_first() =~= seq![]);
    assert(encode_utf8(cs) =~= b + encode_utf8(cs.drop_first()));
    assert(encode_utf8(cs) =~= b);
    encode_utf8_first_scalar(cs);
    assert(b.subrange(0, b.len() as int) =~= b);
    lemma_recognize_agrees(b, 0);
    char_u32_cast(c, c as u32);
}

/// The diagnostic for a byte `b` found at position `q` where class
/// `expected_after(lead, i)` was expected.
pub open spec fn misfit(lead: u8, i: int, q: int, b: u8) -> DecodeError {
    DecodeError {
        expected: expected_after(lead, i),
        found: Some(b),
        span: Span { start: q as usize, end: (q + 1) as usize },
    }
}

/// Replacing continuation byte `i` of a codepoint recognized at `p` by a byte
/// outside the class expected at that offset makes recognition fail at that
/// byte, naming the class of that exact offset.
pub proof fn lemma_corrupted_continuation(s: Seq<u8>, p: int, i: int, b: u8)
    requires
        0 <= p,
        recognize(s, p) matches Ok((c, n)) && 1 <= i < n,
        !class_accepts(expected_after(s[p], i), b),
    ensures
        recognize(s.update(p + i, b), p) == Err::<(char, usize), DecodeError>(
            misfit(s[p], i, p + i, b),
        ),
{
    let s2 = s.update(p + i, b);
    assert(s2[p] == s[p]);
    assert forall|j: int| 1 <= j < i implies #[trigger] s2[p + j] == s[p + j] by {}
    assert(s2[p + i] == b);
}

/// Recognition at `p` reads no byte past the codepoint it recognizes.
proof fn lemma_recognize_local(s: Seq<u8>, s2: Seq<u8>, p: int)
    requires
        0 <= p,
        recognize(s, p) matches Ok((c, n)) && forall|j: int|
            p <= j < p + n ==> #[trigger] s2[j] == s[j],
        s2.len() == s.len(),
    ensures
        recognize(s2, p) == recognize(s, p),
{
    let n = recognize(s, p)->Ok_0.1;
    assert(s2[p] == s[p]);
    if n >= 2 {
        assert(s2[p + 1] == s[p + 1]);
    }
    if n >= 3 {
        assert(s2[p + 2] == s[p + 2]);
    }
    if n >= 4 {
        assert(s2[p + 3] == s[p + 3]);
    }
}

/// Every span of a tiling of `[from, to)` ends at `to` or earlier.
proof fn lemma_tile_upper(t: Seq<(char, Span)>, from: int, to: int, j: int)
    requires
        spans_tile(t, from, to),
        0 <= j < t.len(),
    ensures
        t[j].1.end <= to,
    decreases t.len() - j,
{
    if j < t.len() - 1 {
        lemma_tile_upper(t, from, to, j + 1);
        assert(t[j].1.end == t[j + 1].1.start);
        assert(t[j + 1].1.start < t[j + 1].1.end);
    }
}

/// Every span of a tiling of `[from, to)` starts at `from` or later.
proof fn lemma_tile_lower(t: Seq<(char, Span)>, from: int, to: int, j: int)
    requires
        spans_tile(t, from, to),
        0 <= j < t.len(),
    ensures
        from <= t[j].1.start,
    decreases j,
{
    if j > 0 {
        lemma_tile_lower(t, from, to, j - 1);
        assert(t[j - 1].1.end == t[j].1.start);
    }
}

/// The corruption law for decoding from a position `p` on.
proof fn lemma_corrupted_from(s: Seq<u8>, p: int, k: int, i: int, b: u8)
    requires
        0 <= p <= s.len(),
        s.len() <= usize::MAX,
        decode_from(s, p) matches Ok(t) && 0 <= k < t.len() && 1 <= i < t[k].1.end
            - t[k].1.start && !class_accepts(expected_after(s[t[k].1.start as int], i), b),
    ensures
        ({
            let q = decode_from(s, p)->Ok_0[k].1.start + i;
            decode_from(s.update(q, b), p) == Err::<Seq<(char, Span)>, DecodeError>(
                misfit(s[q - i], i, q, b),
            )
        }),
    decreases k,
{
    let t = decode_from(s, p)->Ok_0;
    let q = t[k].1.start + i;
    let s2 = s.update(q, b);
    lemma_decode_step(s, p);
    let (c, n) = recognize(s, p)->Ok_0;
    lemma_decode_from_agrees(s, p + n);
    let rest = decode_from(s, p + n)->Ok_0;
    let tok = (c, Span { start: p as usize, end: (p + n) as usize });
    assert(t == seq![tok] + rest);
    lemma_tile_upper(t, p, s.len() as int, k);
    if k == 0 {
        assert(t[0] == tok);
        lemma_corrupted_continuation(s, p, i, b);
    } else {
        assert(t[k] == rest[k - 1]);
        lemma_tile_lower(rest, p + n, s.len() as int, k - 1);
        lemma_recognize_local(s, s2, p);
        lemma_decode_step(s2, p);
        lemma_corrupted_from(s, p + n, k - 1, i, b);
    }
}

/// In a valid input, replacing continuation byte `i` of the `k`-th codepoint
/// by a byte outside the class expected at that offset makes decoding fail at
/// that byte, naming the class of that exact offset.
pub proof fn lemma_corrupted_input(s: Seq<u8>, k: int, i: int, b: u8)
    requires
        s.len() <= usize::MAX,
        decode_all(s) matches Ok(t) && 0 <= k < t.len() && 1 <= i < t[k].1.end - t[k].1.start
            && !class_accepts(expected_after(s[t[k].1.start as int], i), b),
    ensures
        ({
            let q = decode_all(s)->Ok_0[k].1.start + i;
            decode_all(s.update(q, b)) == Err::<Seq<(char, Span)>, DecodeError>(
                misfit(s[q - i], i, q, b),
            )
        }),
{
    lemma_corrupted_from(s, 0, k, i, b);
}

} // verus!
