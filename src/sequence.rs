//! Decoding a whole byte sequence into codepoints tagged with their spans.

use vstd::prelude::*;
use crate::error::{DecodeError, Span};
use vstd::utf8::{decode_utf8, valid_utf8};
use crate::laws::lemma_decode_from_agrees;
use crate::recognize::{codepoint, recognize};

verus! {

/// The outcome of decoding `s` from position `p` on: each codepoint with the
/// span of its bytes, in order, or the diagnostic of the first codepoint that
/// could not be recognized.
pub open spec fn decode_from(s: Seq<u8>, p: int) -> Result<Seq<(char, Span)>, DecodeError>
    decreases s.len() - p,
{
    if p >= s.len() {
        Ok(seq![])
    } else {
        match recognize(s, p) {
            Err(e) => Err(e),
            Ok((c, n)) => {
                if n >= 1 {
                    match decode_from(s, p + n) {
                        Ok(rest) => Ok(
                            seq![(c, Span { start: p as usize, end: (p + n) as usize })] + rest,
                        ),
                        Err(e) => Err(e),
                    }
                } else {
                    Ok(seq![])
                }
            },
        }
    }
}

/// The codepoints of a decoded sequence, without their spans.
pub open spec fn chars_of(t: Seq<(char, Span)>) -> Seq<char> {
    t.map_values(|x: (char, Span)| x.0)
}

/// True when the spans of `t`, in order, cover `[from, to)` exactly, each
/// non-empty, each starting where the one before it ends.
pub open spec fn spans_tile(t: Seq<(char, Span)>, from: int, to: int) -> bool {
    &&& t.len() == 0 ==> from == to
    &&& t.len() > 0 ==> t[0].1.start == from && t[t.len() - 1].1.end == to
    &&& forall|i: int| 0 <= i < t.len() ==> #[trigger] t[i].1.start < t[i].1.end
    &&& forall|i: int| 0 <= i < t.len() - 1 ==> #[trigger] t[i].1.end == t[i + 1].1.start
}

/// The outcome of decoding all of `s`.
pub open spec fn decode_all(s: Seq<u8>) -> Result<Seq<(char, Span)>, DecodeError> {
    decode_from(s, 0)
}

/// The decoded tokens `out`, followed by the outcome of decoding from `p` on.
pub open spec fn continue_with(out: Seq<(char, Span)>, s: Seq<u8>, p: int) -> Result<
    Seq<(char, Span)>,
    DecodeError,
> {
    match decode_from(s, p) {
        Ok(rest) => Ok(out + rest),
        Err(e) => Err(e),
    }
}

/// Decodes all of `input` into its codepoints, each with the span of its bytes,
/// stopping at the first byte that does not fit.
///
/// Succeeds exactly on valid UTF-8, with the codepoints that the input encodes
/// and spans that cover it in order; an empty input gives no codepoints.
pub fn decoder(input: &[u8]) -> (r: Result<Vec<(char, Span)>, DecodeError>)
    ensures
        match r {
            Ok(v) => decode_all(input@) == Ok::<Seq<(char, Span)>, DecodeError>(v@),
            Err(e) => decode_all(input@) == Err::<Seq<(char, Span)>, DecodeError>(e),
        },
        r is Ok <==> valid_utf8(input@),
        r matches Ok(v) ==> chars_of(v@) == decode_utf8(input@) && spans_tile(
            v@,
            0,
            input@.len() as int,
        ),
        input@.len() == 0 ==> (r matches Ok(v) && v@.len() == 0),
{
    let len = input.len();
    proof {
        lemma_decode_from_agrees(input@, 0);
        assert(input@.subrange(0, len as int) =~= input@);
    }
    let mut out: Vec<(char, Span)> = Vec::new();
    let mut pos: usize = 0;
    while pos < len
        invariant
            pos <= input@.len(),
            len == input@.len(),
            decode_all(input@) is Ok <==> valid_utf8(input@),
            decode_all(input@) matches Ok(t) ==> chars_of(t) == decode_utf8(input@) && spans_tile(
                t,
                0,
                len as int,
            ),
            decode_all(input@) == continue_with(out@, input@, pos as int),
        decreases input@.len() - pos,
    {
        match codepoint(input, pos) {
            Err(e) => {
                return Err(e);
            },
            Ok((c, n)) => {
                let ghost before = out@;
                out.push((c, Span { start: pos, end: pos + n }));
                proof {
                    let t = (c, Span { start: pos, end: (pos + n) as usize });
                    match decode_from(input@, pos + n) {
                        Ok(rest) => {
                            assert(out@ + rest =~= before + (seq![t] + rest));
                        },
                        Err(e) => {},
                    }
                }
                pos = pos + n;
            },
        }
    }
    assert(out@ + seq![] =~= out@);
    Ok(out)
}

} // verus!
