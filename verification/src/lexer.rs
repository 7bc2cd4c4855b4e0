//! The tokenizer: turns source bytes into the eight token shapes the parser
//! consumes, each with a byte span. `spec_lex` is the specification of the
//! token grammar; `lex_next` is the verified scanner that implements it.
//!
//! Grammar: whitespace (space, tab, CR, LF) separates tokens; the structural
//! bytes `{ } [ ] : ,` are one token each; `true`, `false` and `null` are
//! keyword leaves; numbers follow `-?(0|[1-9][0-9]*)(\.[0-9]+)?([eE][+-]?[0-9]+)?`
//! with maximal munch; strings are quote-delimited with the escapes
//! `\" \\ \/ \b \f \n \r \t` and `\uXXXX`. A position where no token starts
//! surfaces as a lexical error spanning that byte.

use vstd::prelude::*;
use crate::types::{LeafValue, Span};

verus! {

/// One lexical token, without its span.
#[derive(Clone, Copy, PartialEq, Eq, Debug, Structural)]
pub enum Token {
    OpenObject,
    OpenArray,
    CloseObject,
    CloseArray,
    Colon,
    Comma,
    Leaf(LeafValue),
}

/// The outcome of one scanning step: a token with its span, a lexical error
/// with the offending span, or the end of the input.
#[derive(Clone, Copy, PartialEq, Eq, Debug, Structural)]
pub enum Lexed {
    Tok(Token, Span),
    Failed(Span),
    End,
}

pub open spec fn is_ws(b: u8) -> bool {
    b == 32 || b == 9 || b == 13 || b == 10
}

pub open spec fn is_digit(b: u8) -> bool {
    48 <= b <= 57
}

pub open spec fn is_hex_digit(b: u8) -> bool {
    is_digit(b) || 65 <= b <= 70 || 97 <= b <= 102
}

/// First index at or after `pos` holding a non-whitespace byte (or the length).
pub open spec fn skip_ws(src: Seq<u8>, pos: int) -> int
    decreases src.len() - pos,
{
    if pos >= src.len() {
        src.len() as int
    } else if is_ws(src[pos]) {
        skip_ws(src, pos + 1)
    } else {
        pos
    }
}

/// First index at or after `pos` holding a non-digit byte (or the length).
pub open spec fn scan_digits(src: Seq<u8>, pos: int) -> int
    decreases src.len() - pos,
{
    if pos >= src.len() {
        src.len() as int
    } else if is_digit(src[pos]) {
        scan_digits(src, pos + 1)
    } else {
        pos
    }
}

/// End of the longest number starting at `p0` (which holds `-` or a digit),
/// or `None` when no number starts there.
pub open spec fn number_end(src: Seq<u8>, p0: int) -> Option<int> {
    let p1 = if src[p0] == 45 {
        p0 + 1
    } else {
        p0
    };
    if p1 >= src.len() || !is_digit(src[p1]) {
        None
    } else {
        let ie = if src[p1] == 48 {
            p1 + 1
        } else {
            scan_digits(src, p1)
        };
        let fe = if ie + 1 < src.len() && src[ie] == 46 && is_digit(src[ie + 1]) {
            scan_digits(src, ie + 1)
        } else {
            ie
        };
        let ee = if fe < src.len() && (src[fe] == 101 || src[fe] == 69) {
            let s0 = if fe + 2 < src.len() && (src[fe + 1] == 43 || src[fe + 1] == 45) {
                fe + 2
            } else {
                fe + 1
            };
            if s0 < src.len() && is_digit(src[s0]) {
                scan_digits(src, s0)
            } else {
                fe
            }
        } else {
            fe
        };
        Some(ee)
    }
}

/// End of a string body scanned from `i` (the byte after the opening quote):
/// the index just past the closing quote, or `None` when the string is
/// unterminated or holds a malformed escape.
pub open spec fn string_end(src: Seq<u8>, i: int) -> Option<int>
    decreases src.len() - i,
{
    if i < 0 || i >= src.len() {
        None
    } else if src[i] == 34 {
        Some(i + 1)
    } else if src[i] == 92 {
        if i + 1 >= src.len() {
            None
        } else {
            let c = src[i + 1];
            if c == 34 || c == 92 || c == 47 || c == 98 || c == 102 || c == 110 || c == 114 || c
                == 116 {
                string_end(src, i + 2)
            } else if c == 117 {
                if i + 6 <= src.len() && is_hex_digit(src[i + 2]) && is_hex_digit(src[i + 3])
                    && is_hex_digit(src[i + 4]) && is_hex_digit(src[i + 5]) {
                    string_end(src, i + 6)
                } else {
                    None
                }
            } else {
                None
            }
        }
    } else {
        string_end(src, i + 1)
    }
}

/// The token grammar: what the scanner yields at `pos`.
pub open spec fn spec_lex(src: Seq<u8>, pos: int) -> Lexed {
    let p = skip_ws(src, pos);
    if p >= src.len() {
        Lexed::End
    } else {
        let b = src[p];
        let one = Span { start: p as u32, end: (p + 1) as u32 };
        if b == 123 {
            Lexed::Tok(Token::OpenObject, one)
        } else if b == 91 {
            Lexed::Tok(Token::OpenArray, one)
        } else if b == 125 {
            Lexed::Tok(Token::CloseObject, one)
        } else if b == 93 {
            Lexed::Tok(Token::CloseArray, one)
        } else if b == 58 {
            Lexed::Tok(Token::Colon, one)
        } else if b == 44 {
            Lexed::Tok(Token::Comma, one)
        } else if b == 116 {
            if p + 4 <= src.len() && src[p + 1] == 114 && src[p + 2] == 117 && src[p + 3] == 101 {
                Lexed::Tok(
                    Token::Leaf(LeafValue::Bool(true)),
                    Span { start: p as u32, end: (p + 4) as u32 },
                )
            } else {
                Lexed::Failed(one)
            }
        } else if b == 102 {
            if p + 5 <= src.len() && src[p + 1] == 97 && src[p + 2] == 108 && src[p + 3] == 115
                && src[p + 4] == 101 {
                Lexed::Tok(
                    Token::Leaf(LeafValue::Bool(false)),
                    Span { start: p as u32, end: (p + 5) as u32 },
                )
            } else {
                Lexed::Failed(one)
            }
        } else if b == 110 {
            if p + 4 <= src.len() && src[p + 1] == 117 && src[p + 2] == 108 && src[p + 3] == 108 {
                Lexed::Tok(
                    Token::Leaf(LeafValue::Null),
                    Span { start: p as u32, end: (p + 4) as u32 },
                )
            } else {
                Lexed::Failed(one)
            }
        } else if b == 45 || is_digit(b) {
            match number_end(src, p) {
                Some(e) => Lexed::Tok(
                    Token::Leaf(LeafValue::Number),
                    Span { start: p as u32, end: e as u32 },
                ),
                None => Lexed::Failed(one),
            }
        } else if b == 34 {
            match string_end(src, p + 1) {
                Some(e) => Lexed::Tok(
                    Token::Leaf(LeafValue::String),
                    Span { start: p as u32, end: e as u32 },
                ),
                None => Lexed::Failed(one),
            }
        } else {
            Lexed::Failed(one)
        }
    }
}

/// The scanner's position after the step at `pos`.
pub open spec fn lex_advance(src: Seq<u8>, pos: int) -> int {
    match spec_lex(src, pos) {
        Lexed::Tok(_, sp) => sp.end as int,
        Lexed::Failed(sp) => sp.end as int,
        Lexed::End => src.len() as int,
    }
}

pub proof fn lemma_skip_ws_bounds(src: Seq<u8>, pos: int)
    requires
        0 <= pos <= src.len(),
    ensures
        pos <= skip_ws(src, pos) <= src.len(),
        skip_ws(src, pos) < src.len() ==> !is_ws(src[skip_ws(src, pos)]),
        forall|j: int| pos <= j < skip_ws(src, pos) ==> is_ws(#[trigger] src[j]),
    decreases src.len() - pos,
{
    if pos < src.len() && is_ws(src[pos]) {
        lemma_skip_ws_bounds(src, pos + 1);
    }
}

pub proof fn lemma_scan_digits_bounds(src: Seq<u8>, pos: int)
    requires
        0 <= pos <= src.len(),
    ensures
        pos <= scan_digits(src, pos) <= src.len(),
        pos < src.len() && is_digit(src[pos]) ==> pos < scan_digits(src, pos),
        forall|j: int| pos <= j < scan_digits(src, pos) ==> is_digit(#[trigger] src[j]),
    decreases src.len() - pos,
{
    if pos < src.len() && is_digit(src[pos]) {
        lemma_scan_digits_bounds(src, pos + 1);
    }
}

pub proof fn lemma_number_end_bounds(src: Seq<u8>, p0: int)
    requires
        0 <= p0 < src.len(),
        number_end(src, p0) is Some,
    ensures
        p0 < number_end(src, p0)->Some_0 <= src.len(),
        is_digit(src[number_end(src, p0)->Some_0 - 1]),
{
    let p1 = if src[p0] == 45 {
        p0 + 1
    } else {
        p0
    };
    lemma_scan_digits_bounds(src, p1);
    let ie = if src[p1] == 48 {
        p1 + 1
    } else {
        scan_digits(src, p1)
    };
    if ie + 1 < src.len() && src[ie] == 46 && is_digit(src[ie + 1]) {
        lemma_scan_digits_bounds(src, ie + 1);
    }
    let fe = if ie + 1 < src.len() && src[ie] == 46 && is_digit(src[ie + 1]) {
        scan_digits(src, ie + 1)
    } else {
        ie
    };
    if fe < src.len() && (src[fe] == 101 || src[fe] == 69) {
        let s0 = if fe + 2 < src.len() && (src[fe + 1] == 43 || src[fe + 1] == 45) {
            fe + 2
        } else {
            fe + 1
        };
        if s0 < src.len() && is_digit(src[s0]) {
            lemma_scan_digits_bounds(src, s0);
        }
    }
}

pub proof fn lemma_string_end_bounds(src: Seq<u8>, i: int)
    requires
        0 <= i,
        string_end(src, i) is Some,
    ensures
        i < string_end(src, i)->Some_0 <= src.len(),
        src[string_end(src, i)->Some_0 - 1] == 34,
    decreases src.len() - i,
{
    if i < src.len() && src[i] != 34 {
        if src[i] == 92 {
            let c = src[i + 1];
            if c == 117 {
                lemma_string_end_bounds(src, i + 6);
            } else {
                lemma_string_end_bounds(src, i + 2);
            }
        } else {
            lemma_string_end_bounds(src, i + 1);
        }
    }
}

/// Every produced token or error span is well-formed and in bounds, and the
/// scanner strictly advances except at the end of the input.
pub proof fn lemma_lex_bounds(src: Seq<u8>, pos: int)
    requires
        0 <= pos <= src.len() <= u32::MAX,
    ensures
        match spec_lex(src, pos) {
            Lexed::Tok(_, sp) => pos <= sp.start < sp.end <= src.len() && sp.start == skip_ws(
                src,
                pos,
            ),
            Lexed::Failed(sp) => pos <= sp.start < sp.end <= src.len() && sp.start == skip_ws(
                src,
                pos,
            ),
            Lexed::End => skip_ws(src, pos) == src.len(),
        },
        pos <= lex_advance(src, pos) <= src.len(),
        !(spec_lex(src, pos) is End) ==> pos < lex_advance(src, pos),
        match spec_lex(src, pos) {
            Lexed::Tok(t, sp) => (t == Token::Leaf(LeafValue::String) ==> sp.start + 2 <= sp.end)
                && !is_ws(src[sp.end - 1]),
            _ => true,
        },
{
    lemma_skip_ws_bounds(src, pos);
    let p = skip_ws(src, pos);
    if p < src.len() {
        let b = src[p];
        if b == 45 || is_digit(b) {
            if number_end(src, p) is Some {
                lemma_number_end_bounds(src, p);
            }
        } else if b == 34 {
            if string_end(src, p + 1) is Some {
                lemma_string_end_bounds(src, p + 1);
            }
        }
    }
}

/// Index of the first non-whitespace byte at or after `from`.
fn ws_end(src: &Vec<u8>, from: usize) -> (r: usize)
    requires
        from <= src@.len(),
    ensures
        r == skip_ws(src@, from as int),
        from <= r <= src@.len(),
{
    let n = src.len();
    let mut i = from;
    while i < n && (src[i] == 32 || src[i] == 9 || src[i] == 13 || src[i] == 10)
        invariant
            from <= i <= n,
            n == src@.len(),
            skip_ws(src@, from as int) == skip_ws(src@, i as int),
        decreases n - i,
    {
        i = i + 1;
    }
    proof {
        lemma_skip_ws_bounds(src@, i as int);
    }
    i
}

/// Index of the first non-digit byte at or after `from`.
fn digits_end(src: &Vec<u8>, from: usize) -> (r: usize)
    requires
        from <= src@.len(),
    ensures
        r == scan_digits(src@, from as int),
        from <= r <= src@.len(),
{
    let n = src.len();
    let mut i = from;
    while i < n && src[i] >= 48 && src[i] <= 57
        invariant
            from <= i <= n,
            n == src@.len(),
            scan_digits(src@, from as int) == scan_digits(src@, i as int),
        decreases n - i,
    {
        i = i + 1;
    }
    proof {
        lemma_scan_digits_bounds(src@, i as int);
    }
    i
}

fn is_hex_byte(b: u8) -> (r: bool)
    ensures
        r == is_hex_digit(b),
{
    (48 <= b && b <= 57) || (65 <= b && b <= 70) || (97 <= b && b <= 102)
}

/// Index just past the closing quote of the string body starting at `from`
/// (the byte after the opening quote), or `None` when the string is
/// unterminated or holds a malformed escape.
fn string_body_end(src: &Vec<u8>, from: usize) -> (r: Option<usize>)
    requires
        from <= src@.len(),
    ensures
        match r {
            Some(e) => string_end(src@, from as int) == Some(e as int) && from < e <= src@.len(),
            None => string_end(src@, from as int) is None,
        },
{
    let n = src.len();
    let mut i = from;
    loop
        invariant
            from <= i <= n,
            n == src@.len(),
            string_end(src@, from as int) == string_end(src@, i as int),
        ensures
            match string_end(src@, from as int) {
                Some(e) => from < e <= src@.len(),
                None => true,
            },
        decreases n - i,
    {
        proof {
            if string_end(src@, from as int) is Some {
                lemma_string_end_bounds(src@, from as int);
            }
        }
        if i >= n {
            return None;
        }
        let b = src[i];
        if b == 34 {
            return Some(i + 1);
        } else if b == 92 {
            if n - i < 2 {
                return None;
            }
            let c = src[i + 1];
            if c == 34 || c == 92 || c == 47 || c == 98 || c == 102 || c == 110 || c == 114 || c
                == 116 {
                i = i + 2;
            } else if c == 117 {
                if n - i >= 6 && is_hex_byte(src[i + 2]) && is_hex_byte(src[i + 3]) && is_hex_byte(
                    src[i + 4],
                ) && is_hex_byte(src[i + 5]) {
                    i = i + 6;
                } else {
                    return None;
                }
            } else {
                return None;
            }
        } else {
            i = i + 1;
        }
    }
}

/// End of the longest number starting at `p0`, or `None`: the executable
/// counterpart of `number_end`.
fn number_token_end(src: &Vec<u8>, p0: usize) -> (r: Option<usize>)
    requires
        p0 < src@.len(),
    ensures
        match r {
            Some(e) => number_end(src@, p0 as int) == Some(e as int) && p0 < e <= src@.len(),
            None => number_end(src@, p0 as int) is None,
        },
{
    let n = src.len();
    let p1 = if src[p0] == 45 {
        p0 + 1
    } else {
        p0
    };
    if p1 >= n || !(src[p1] >= 48 && src[p1] <= 57) {
        return None;
    }
    let ie = if src[p1] == 48 {
        p1 + 1
    } else {
        digits_end(src, p1)
    };
    proof {
        lemma_scan_digits_bounds(src@, p1 as int);
    }
    let fe = if n - ie >= 2 && src[ie] == 46 && src[ie + 1] >= 48 && src[ie + 1] <= 57 {
        digits_end(src, ie + 1)
    } else {
        ie
    };
    let ee = if fe < n && (src[fe] == 101 || src[fe] == 69) {
        let s0 = if n - fe > 2 && (src[fe + 1] == 43 || src[fe + 1] == 45) {
            fe + 2
        } else {
            fe + 1
        };
        if s0 < n && src[s0] >= 48 && src[s0] <= 57 {
            digits_end(src, s0)
        } else {
            fe
        }
    } else {
        fe
    };
    proof {
        lemma_number_end_bounds(src@, p0 as int);
    }
    Some(ee)
}

/// One scanning step at `pos`: skips whitespace, then yields the token that
/// the grammar gives there, a lexical error, or the end of the input. The
/// second component is the position the scan stopped at.
pub fn lex_next(src: &Vec<u8>, pos: usize) -> (r: (Lexed, usize))
    requires
        pos <= src@.len(),
        src@.len() <= u32::MAX,
    ensures
        r.0 == spec_lex(src@, pos as int),
        r.1 == lex_advance(src@, pos as int),
{
    let n = src.len();
    let p = ws_end(src, pos);
    if p >= n {
        return (Lexed::End, n);
    }
    let b = src[p];
    let one = Span { start: p as u32, end: (p + 1) as u32 };
    if b == 123 {
        (Lexed::Tok(Token::OpenObject, one), p + 1)
    } else if b == 91 {
        (Lexed::Tok(Token::OpenArray, one), p + 1)
    } else if b == 125 {
        (Lexed::Tok(Token::CloseObject, one), p + 1)
    } else if b == 93 {
        (Lexed::Tok(Token::CloseArray, one), p + 1)
    } else if b == 58 {
        (Lexed::Tok(Token::Colon, one), p + 1)
    } else if b == 44 {
        (Lexed::Tok(Token::Comma, one), p + 1)
    } else if b == 116 {
        if n - p >= 4 && src[p + 1] == 114 && src[p + 2] == 117 && src[p + 3] == 101 {
            (
                Lexed::Tok(
                    Token::Leaf(LeafValue::Bool(true)),
                    Span { start: p as u32, end: (p + 4) as u32 },
                ),
                p + 4,
            )
        } else {
            (Lexed::Failed(one), p + 1)
        }
    } else if b == 102 {
        if n - p >= 5 && src[p + 1] == 97 && src[p + 2] == 108 && src[p + 3] == 115 && src[p + 4]
            == 101 {
            (
                Lexed::Tok(
                    Token::Leaf(LeafValue::Bool(false)),
                    Span { start: p as u32, end: (p + 5) as u32 },
                ),
                p + 5,
            )
        } else {
            (Lexed::Failed(one), p + 1)
        }
    } else if b == 110 {
        if n - p >= 4 && src[p + 1] == 117 && src[p + 2] == 108 && src[p + 3] == 108 {
            (
                Lexed::Tok(
                    Token::Leaf(LeafValue::Null),
                    Span { start: p as u32, end: (p + 4) as u32 },
                ),
                p + 4,
            )
        } else {
            (Lexed::Failed(one), p + 1)
        }
    } else if b == 45 || (48 <= b && b <= 57) {
        match number_token_end(src, p) {
            Some(e) => (
                Lexed::Tok(Token::Leaf(LeafValue::Number), Span { start: p as u32, end: e as u32 }),
                e,
            ),
            None => (Lexed::Failed(one), p + 1),
        }
    } else if b == 34 {
        match string_body_end(src, p + 1) {
            Some(e) => (
                Lexed::Tok(Token::Leaf(LeafValue::String), Span { start: p as u32, end: e as u32 }),
                e,
            ),
            None => (Lexed::Failed(one), p + 1),
        }
    } else {
        (Lexed::Failed(one), p + 1)
    }
}

} // verus!
