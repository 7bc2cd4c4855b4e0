//! Decoding of raw object-key spans: the escape grammar, its spec-level
//! decoder `decode_span`, and small verified building blocks (UTF-8 encoding
//! of a BMP code point, appending a source run to the scratch).

use vstd::prelude::*;
use crate::lexer::is_hex_digit;

verus! {

/// The ways decoding an object key can fail.
#[derive(Clone, Copy, PartialEq, Eq, Debug, Structural)]
pub enum EscapeError {
    /// Unknown control byte after a backslash.
    InvalidEscape,
    /// `\u` not followed by four hex digits inside the key.
    TruncatedUnicodeEscape,
    /// `\uXXXX` naming a lone surrogate half.
    InvalidCodePoint,
}

/// Numeric value of a hex digit byte.
pub open spec fn hex_val(b: u8) -> int {
    if 48 <= b <= 57 {
        b - 48
    } else if 65 <= b <= 70 {
        b - 55
    } else if 97 <= b <= 102 {
        b - 87
    } else {
        0
    }
}

/// The UTF-8 encoding of a code point in the basic multilingual plane.
pub open spec fn utf8_encode(c: int) -> Seq<u8> {
    if c < 0x80 {
        seq![c as u8]
    } else if c < 0x800 {
        seq![(0xC0 + c / 0x40) as u8, (0x80 + c % 0x40) as u8]
    } else {
        seq![(0xE0 + c / 0x1000) as u8, (0x80 + (c / 0x40) % 0x40) as u8, (0x80 + c % 0x40) as u8]
    }
}

/// Whether the region `[i, end)` holds a backslash.
pub open spec fn has_escape(src: Seq<u8>, i: int, end: int) -> bool {
    exists|j: int| i <= j < end && src[j] == 92
}

/// Decodes the key body `[i, end)` (the bytes between the quotes): literal
/// runs are kept, escapes are translated, `\uXXXX` widens a BMP code unit to
/// UTF-8. Fails on an unknown control byte, a `\u` without four hex digits
/// inside the body, or a surrogate half.
pub open spec fn decode_span(src: Seq<u8>, i: int, end: int) -> Result<Seq<u8>, EscapeError>
    decreases end - i,
{
    if i >= end {
        Ok(Seq::empty())
    } else if src[i] != 92 {
        match decode_span(src, i + 1, end) {
            Ok(rest) => Ok(seq![src[i]] + rest),
            Err(e) => Err(e),
        }
    } else if i + 1 >= end {
        Err(EscapeError::InvalidEscape)
    } else {
        let c = src[i + 1];
        if c == 34 || c == 92 || c == 47 {
            match decode_span(src, i + 2, end) {
                Ok(rest) => Ok(seq![c] + rest),
                Err(e) => Err(e),
            }
        } else if c == 98 || c == 102 || c == 110 || c == 114 || c == 116 {
            let t: u8 = if c == 98 {
                8
            } else if c == 102 {
                12
            } else if c == 110 {
                10
            } else if c == 114 {
                13
            } else {
                9
            };
            match decode_span(src, i + 2, end) {
                Ok(rest) => Ok(seq![t] + rest),
                Err(e) => Err(e),
            }
        } else if c == 117 {
            if i + 6 > end {
                Err(EscapeError::TruncatedUnicodeEscape)
            } else if !(is_hex_digit(src[i + 2]) && is_hex_digit(src[i + 3]) && is_hex_digit(
                src[i + 4],
            ) && is_hex_digit(src[i + 5])) {
                Err(EscapeError::TruncatedUnicodeEscape)
            } else {
                let code = 4096 * hex_val(src[i + 2]) + 256 * hex_val(src[i + 3]) + 16 * hex_val(
                    src[i + 4],
                ) + hex_val(src[i + 5]);
                if 0xD800 <= code <= 0xDFFF {
                    Err(EscapeError::InvalidCodePoint)
                } else {
                    match decode_span(src, i + 6, end) {
                        Ok(rest) => Ok(utf8_encode(code) + rest),
                        Err(e) => Err(e),
                    }
                }
            }
        } else {
            Err(EscapeError::InvalidEscape)
        }
    }
}

/// An escape-free region decodes to its own bytes.
pub proof fn lemma_decode_plain(src: Seq<u8>, i: int, end: int)
    requires
        0 <= i <= end <= src.len(),
        forall|j: int| i <= j < end ==> src[j] != 92,
    ensures
        decode_span(src, i, end) == Ok::<Seq<u8>, EscapeError>(src.subrange(i, end)),
    decreases end - i,
{
    if i >= end {
        assert(src.subrange(i, end) =~= Seq::<u8>::empty());
    } else {
        lemma_decode_plain(src, i + 1, end);
        assert(src.subrange(i, end) =~= seq![src[i]] + src.subrange(i + 1, end));
    }
}

/// Decoding composes: if a prefix `[i, m)` decodes cleanly, decoding the
/// whole region is that prefix followed by the decode of the rest.
pub proof fn lemma_decode_concat(src: Seq<u8>, i: int, m: int, end: int, p: Seq<u8>)
    requires
        0 <= i <= m <= end,
        decode_span(src, i, m) == Ok::<Seq<u8>, EscapeError>(p),
    ensures
        decode_span(src, i, end) == match decode_span(src, m, end) {
            Ok(q) => Ok::<Seq<u8>, EscapeError>(p + q),
            Err(e) => Err::<Seq<u8>, EscapeError>(e),
        },
    decreases m - i,
{
    if i >= m {
        assert(p =~= Seq::<u8>::empty());
        match decode_span(src, m, end) {
            Ok(q) => {
                assert(p + q =~= q);
            },
            Err(_) => {},
        }
    } else if src[i] != 92 {
        let rest = decode_span(src, i + 1, m)->Ok_0;
        lemma_decode_concat(src, i + 1, m, end, rest);
        match decode_span(src, m, end) {
            Ok(q) => {
                assert(seq![src[i]] + (rest + q) =~= (seq![src[i]] + rest) + q);
            },
            Err(_) => {},
        }
    } else {
        let c = src[i + 1];
        if c == 34 || c == 92 || c == 47 {
            let rest = decode_span(src, i + 2, m)->Ok_0;
            lemma_decode_concat(src, i + 2, m, end, rest);
            match decode_span(src, m, end) {
                Ok(q) => {
                    assert(seq![c] + (rest + q) =~= (seq![c] + rest) + q);
                },
                Err(_) => {},
            }
        } else if c == 98 || c == 102 || c == 110 || c == 114 || c == 116 {
            let t: u8 = if c == 98 {
                8
            } else if c == 102 {
                12
            } else if c == 110 {
                10
            } else if c == 114 {
                13
            } else {
                9
            };
            let rest = decode_span(src, i + 2, m)->Ok_0;
            lemma_decode_concat(src, i + 2, m, end, rest);
            match decode_span(src, m, end) {
                Ok(q) => {
                    assert(seq![t] + (rest + q) =~= (seq![t] + rest) + q);
                },
                Err(_) => {},
            }
        } else {
            let code = 4096 * hex_val(src[i + 2]) + 256 * hex_val(src[i + 3]) + 16 * hex_val(
                src[i + 4],
            ) + hex_val(src[i + 5]);
            let rest = decode_span(src, i + 6, m)->Ok_0;
            lemma_decode_concat(src, i + 6, m, end, rest);
            match decode_span(src, m, end) {
                Ok(q) => {
                    assert(utf8_encode(code) + (rest + q) =~= (utf8_encode(code) + rest) + q);
                },
                Err(_) => {},
            }
        }
    }
}

/// A decoded region is no longer than the region itself.
pub proof fn lemma_decode_len(src: Seq<u8>, i: int, end: int)
    requires
        0 <= i <= end,
        decode_span(src, i, end) is Ok,
    ensures
        decode_span(src, i, end)->Ok_0.len() <= end - i,
    decreases end - i,
{
    if i >= end {
    } else if src[i] != 92 {
        lemma_decode_len(src, i + 1, end);
    } else {
        let c = src[i + 1];
        if c == 117 {
            lemma_decode_len(src, i + 6, end);
        } else {
            lemma_decode_len(src, i + 2, end);
        }
    }
}

/// Appends the UTF-8 encoding of the BMP code point `c`.
pub fn push_utf8(out: &mut Vec<u8>, c: u32)
    requires
        c <= 0xFFFF,
    ensures
        final(out)@ == old(out)@ + utf8_encode(c as int),
{
    let ghost start = out@;
    if c < 0x80 {
        out.push(c as u8);
        assert(out@ =~= start + utf8_encode(c as int));
    } else if c < 0x800 {
        out.push((0xC0 + c / 0x40) as u8);
        out.push((0x80 + c % 0x40) as u8);
        assert(out@ =~= start + utf8_encode(c as int));
    } else {
        out.push((0xE0 + c / 0x1000) as u8);
        out.push((0x80 + (c / 0x40) % 0x40) as u8);
        out.push((0x80 + c % 0x40) as u8);
        assert(out@ =~= start + utf8_encode(c as int));
    }
}

/// Appends `src[from..to]` to `dst`.
pub fn append_range(dst: &mut Vec<u8>, src: &Vec<u8>, from: usize, to: usize)
    requires
        from <= to <= src@.len(),
    ensures
        final(dst)@ == old(dst)@ + src@.subrange(from as int, to as int),
{
    let ghost start = dst@;
    let mut i = from;
    while i < to
        invariant
            from <= i <= to <= src@.len(),
            dst@ == start + src@.subrange(from as int, i as int),
        decreases to - i,
    {
        dst.push(src[i]);
        assert(dst@ =~= start + src@.subrange(from as int, (i + 1) as int));
        i = i + 1;
    }
    assert(dst@ =~= start + src@.subrange(from as int, to as int));
}

} // verus!
