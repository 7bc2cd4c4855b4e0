//! The library's cross-cutting laws, stated over the spec machine and the
//! interner's specification and proved once and for all: interning
//! idempotence, the escape-free round trip through `resolve`, and the span
//! coverage of an accepted root.

use vstd::prelude::*;
use crate::types::{Span, StringKey, Value, key_in_bounds, resolved_bytes};
use crate::lexer::{
    Token, Lexed, is_ws, skip_ws, spec_lex, lemma_lex_bounds, lemma_skip_ws_bounds,
};
use crate::decode::{decode_span, has_escape, lemma_decode_plain};
use crate::arena::{Arena, intern_spec};
use crate::parser::{Error, parse_post};
use crate::machine::{
    PState, StepOut, RunOut, ContainerKind, OpenItem, ContextItem, ctx_node, spec_step, spec_run,
    spec_parse, init_state, lemma_step_advances,
};
use crate::types::{ValueKind, Array};

verus! {

/// Interning idempotence: two raw key spans whose bodies decode to the same
/// bytes receive bitwise-equal handles, the second intern leaving the
/// interner exactly as the first left it.
pub proof fn lemma_intern_idempotent(
    src: Seq<u8>,
    scratch: Seq<u8>,
    interned: Map<Seq<u8>, StringKey>,
    a1: int,
    b1: int,
    a2: int,
    b2: int,
)
    requires
        intern_spec(src, scratch, interned, a1, b1) is Ok,
        decode_span(src, a2 + 1, b2 - 1) == decode_span(src, a1 + 1, b1 - 1),
    ensures
        ({
            let t1 = intern_spec(src, scratch, interned, a1, b1)->Ok_0;
            &&& intern_spec(src, t1.1, t1.2, a2, b2) is Ok
            &&& intern_spec(src, t1.1, t1.2, a2, b2)->Ok_0.0 == t1.0
            &&& intern_spec(src, t1.1, t1.2, a2, b2)->Ok_0.1 == t1.1
            &&& intern_spec(src, t1.1, t1.2, a2, b2)->Ok_0.2 == t1.2
        }),
{
    let d = decode_span(src, a1 + 1, b1 - 1)->Ok_0;
    let t1 = intern_spec(src, scratch, interned, a1, b1)->Ok_0;
    assert(t1.2.dom().contains(d));
    assert(t1.2[d] == t1.0);
}

/// Round trip through `resolve`: a raw key span without escape bytes is
/// interned to a handle that resolves to exactly the bytes between its
/// quotes, `source[a+1 .. b-1]`.
pub proof fn lemma_resolve_round_trip(
    src: Seq<u8>,
    scratch: Seq<u8>,
    interned: Map<Seq<u8>, StringKey>,
    a: int,
    b: int,
)
    requires
        0 <= a,
        a + 2 <= b <= src.len() <= u32::MAX,
        forall|j: int| a + 1 <= j < b - 1 ==> src[j] != 92,
        forall|s: Seq<u8>| #[trigger]
            interned.dom().contains(s) ==> key_in_bounds(src, scratch, interned[s])
                && resolved_bytes(src, scratch, interned[s]) == s,
    ensures
        intern_spec(src, scratch, interned, a, b) is Ok,
        ({
            let t = intern_spec(src, scratch, interned, a, b)->Ok_0;
            &&& t.1 == scratch
            &&& key_in_bounds(src, t.1, t.0)
            &&& resolved_bytes(src, t.1, t.0) == src.subrange(a + 1, b - 1)
        }),
{
    lemma_decode_plain(src, a + 1, b - 1);
    let d = src.subrange(a + 1, b - 1);
    if has_escape(src, a + 1, b - 1) {
        let j = choose|j: int| a + 1 <= j < b - 1 && src[j] == 92;
        assert(false);
    }
    if interned.dom().contains(d) {
        assert(resolved_bytes(src, scratch, interned[d]) == d);
    } else {
        let k = StringKey(Span { start: (a + 1) as u32, end: (b - 1) as u32 });
        assert(resolved_bytes(src, scratch, k) =~= d);
    }
}

/// Span coverage of an accepted root: its span runs from the first
/// non-whitespace byte of the source to the last non-whitespace byte plus
/// one — only whitespace precedes it and only whitespace follows it.
pub open spec fn root_covers(src: Seq<u8>, v: Value) -> bool {
    &&& v.span.start == skip_ws(src, 0)
    &&& v.span.start < v.span.end <= src.len()
    &&& !is_ws(src[v.span.end - 1])
    &&& forall|j: int| v.span.end <= j < src.len() ==> is_ws(#[trigger] src[j])
}

/// The span-tracking invariant: before anything is consumed the machine
/// still waits for the root value; once a container is open, the bottom of
/// the open stack begins at the first non-whitespace byte; and a completed
/// value at the top level ends exactly at the scanner's position, on a
/// non-whitespace byte.
pub open spec fn span_inv(src: Seq<u8>, s: PState) -> bool {
    &&& 0 <= s.pos <= src.len() <= u32::MAX
    &&& s.stack.len() == 0 && s.ctx is WaitingValue ==> s.pos == 0
    &&& s.stack.len() > 0 ==> s.stack[0].start == skip_ws(src, 0) && s.stack[0].start < s.pos
    &&& s.stack.len() == 0 && s.ctx is Value ==> {
        let v = ctx_node(s.ctx);
        &&& v.span.start == skip_ws(src, 0)
        &&& v.span.end == s.pos
        &&& v.span.start < v.span.end
        &&& !is_ws(src[v.span.end - 1])
    }
    &&& s.ctx is WaitingKey || s.ctx is Key ==> s.stack.len() > 0
}

proof fn lemma_step_span(src: Seq<u8>, s: PState)
    requires
        span_inv(src, s),
    ensures
        spec_step(src, s) matches StepOut::Next(s2) ==> span_inv(src, s2),
        spec_step(src, s) matches StepOut::Done(v, s2) ==> root_covers(src, v),
{
    lemma_lex_bounds(src, s.pos);
    lemma_skip_ws_bounds(src, s.pos);
    match spec_lex(src, s.pos) {
        Lexed::End => {
            if s.ctx is Value && s.stack.len() == 0 {
                assert forall|j: int|
                    ctx_node(s.ctx).span.end <= j < src.len() implies is_ws(#[trigger] src[j]) by {
                    assert(s.pos <= j < skip_ws(src, s.pos));
                }
            }
        },
        Lexed::Failed(_) => {},
        Lexed::Tok(tok, sp) => {
            if s.pos == 0 {
                assert(sp.start == skip_ws(src, 0));
            }
            match spec_step(src, s) {
                StepOut::Next(s2) => {
                    if s.stack.len() > 0 && s2.stack.len() > 0 {
                        if s2.stack.len() > s.stack.len() {
                            assert(s2.stack[0] == s.stack[0]);
                        } else if s2.stack.len() < s.stack.len() {
                            assert(s2.stack[0] == s.stack[0]);
                        } else {
                            assert(s2.stack =~= s.stack);
                        }
                    }
                    assert(span_inv(src, s2));
                },
                _ => {},
            }
        },
    }
}

proof fn lemma_run_span(src: Seq<u8>, s: PState)
    requires
        span_inv(src, s),
    ensures
        spec_run(src, s) matches RunOut::RDone(v, s2) ==> root_covers(src, v),
    decreases src.len() - s.pos,
{
    lemma_step_span(src, s);
    lemma_step_advances(src, s);
    match spec_step(src, s) {
        StepOut::Next(s2) => {
            lemma_run_span(src, s2);
        },
        _ => {},
    }
}

/// Span coverage: whenever a parse accepts, the returned root's span equals
/// `[first non-whitespace byte, last non-whitespace byte + 1)`.
pub proof fn lemma_root_span_coverage(src: Seq<u8>)
    requires
        src.len() <= u32::MAX,
    ensures
        spec_parse(src) matches RunOut::RDone(v, s2) ==> root_covers(src, v),
{
    lemma_run_span(src, init_state());
}

/// The input of `n` opening brackets followed by `n` closing brackets.
pub open spec fn brackets(n: int) -> Seq<u8> {
    Seq::new((2 * n) as nat, |i: int| if i < n { 91u8 } else { 93u8 })
}

/// The machine state after consuming the first `i` opening brackets.
spec fn open_state(n: int, i: int) -> PState {
    PState {
        pos: i,
        stack: Seq::new(
            i as nat,
            |t: int| OpenItem { start: t as u32, vmark: 0, kmark: 0, kind: ContainerKind::Array },
        ),
        vstack: Seq::empty(),
        kstack: Seq::empty(),
        ctx: ContextItem::WaitingValue,
        values: Seq::empty(),
        keys: Seq::empty(),
        scratch: Seq::empty(),
        interned: Map::empty(),
    }
}

/// The array node closed `t + 1` levels in from the innermost pair.
spec fn nested_node(n: int, t: int) -> Value {
    Value {
        span: Span { start: (n - t - 1) as u32, end: (n + t + 1) as u32 },
        kind: ValueKind::Array(
            Array {
                values: if t == 0 {
                    Span { start: 0, end: 0 }
                } else {
                    Span { start: (t - 1) as u32, end: t as u32 }
                },
            },
        ),
    }
}

/// The machine state after consuming `n` opening and `j` closing brackets.
spec fn close_state(n: int, j: int) -> PState {
    PState {
        pos: n + j,
        stack: Seq::new(
            (n - j) as nat,
            |t: int| OpenItem { start: t as u32, vmark: 0, kmark: 0, kind: ContainerKind::Array },
        ),
        vstack: Seq::empty(),
        kstack: Seq::empty(),
        ctx: ContextItem::Value {
            span: nested_node(n, j - 1).span,
            kind: nested_node(n, j - 1).kind,
        },
        values: Seq::new((j - 1) as nat, |t: int| nested_node(n, t)),
        keys: Seq::empty(),
        scratch: Seq::empty(),
        interned: Map::empty(),
    }
}

proof fn lemma_brackets_open_step(n: int, i: int)
    requires
        0 <= i < n,
        2 * n <= u32::MAX,
    ensures
        spec_step(brackets(n), open_state(n, i)) == StepOut::Next(open_state(n, i + 1)),
{
    let src = brackets(n);
    assert(crate::lexer::skip_ws(src, i) == i);
    assert(spec_lex(src, i) == Lexed::Tok(
        Token::OpenArray,
        Span { start: i as u32, end: (i + 1) as u32 },
    ));
    match spec_step(src, open_state(n, i)) {
        StepOut::Next(s2) => {
            assert(s2.stack =~= open_state(n, i + 1).stack);
            assert(s2 == open_state(n, i + 1));
        },
        _ => {
            assert(false);
        },
    }
}

proof fn lemma_brackets_open_phase(n: int, i: int)
    requires
        0 <= i <= n,
        1 <= n,
        2 * n <= u32::MAX,
    ensures
        spec_run(brackets(n), open_state(n, i)) == spec_run(brackets(n), open_state(n, n)),
    decreases n - i,
{
    if i < n {
        lemma_brackets_open_step(n, i);
        assert(spec_run(brackets(n), open_state(n, i)) == spec_run(
            brackets(n),
            open_state(n, i + 1),
        ));
        lemma_brackets_open_phase(n, i + 1);
    }
}

proof fn lemma_brackets_first_close(n: int)
    requires
        1 <= n,
        2 * n <= u32::MAX,
    ensures
        spec_step(brackets(n), open_state(n, n)) == StepOut::Next(close_state(n, 1)),
{
    let src = brackets(n);
    assert(crate::lexer::skip_ws(src, n) == n);
    assert(spec_lex(src, n) == Lexed::Tok(
        Token::CloseArray,
        Span { start: n as u32, end: (n + 1) as u32 },
    ));
    let s = open_state(n, n);
    assert(s.stack.last() == OpenItem {
        start: (n - 1) as u32,
        vmark: 0,
        kmark: 0,
        kind: ContainerKind::Array,
    });
    match spec_step(src, s) {
        StepOut::Next(s2) => {
            assert(s2.stack =~= close_state(n, 1).stack);
            assert(s2.values =~= close_state(n, 1).values);
            assert(s2 == close_state(n, 1));
        },
        _ => {
            assert(false);
        },
    }
}

proof fn lemma_brackets_close_step(n: int, j: int)
    requires
        1 <= j < n,
        2 * n <= u32::MAX,
    ensures
        spec_step(brackets(n), close_state(n, j)) == StepOut::Next(close_state(n, j + 1)),
{
    let src = brackets(n);
    assert(crate::lexer::skip_ws(src, n + j) == n + j);
    assert(spec_lex(src, n + j) == Lexed::Tok(
        Token::CloseArray,
        Span { start: (n + j) as u32, end: (n + j + 1) as u32 },
    ));
    let s = close_state(n, j);
    assert(s.stack.last() == OpenItem {
        start: (n - j - 1) as u32,
        vmark: 0,
        kmark: 0,
        kind: ContainerKind::Array,
    });
    let ctxv = Value { span: nested_node(n, j - 1).span, kind: nested_node(n, j - 1).kind };
    assert(ctxv == nested_node(n, j - 1));
    match spec_step(src, s) {
        StepOut::Next(s2) => {
            assert(s2.stack =~= close_state(n, j + 1).stack);
            assert(s2.vstack =~= close_state(n, j + 1).vstack);
            assert(s2.values =~= close_state(n, j + 1).values) by {
                let vs = s.vstack.push(ctxv);
                assert(s2.values == s.values + vs.subrange(0, 1));
                assert forall|t: int| 0 <= t < j implies s2.values[t] == nested_node(n, t) by {
                    if t < j - 1 {
                        assert(s2.values[t] == s.values[t]);
                    } else {
                        assert(s2.values[t] == vs[0]);
                    }
                }
            }
            assert(s2 == close_state(n, j + 1));
        },
        _ => {
            assert(false);
        },
    }
}

proof fn lemma_brackets_close_phase(n: int, j: int)
    requires
        1 <= j <= n,
        2 * n <= u32::MAX,
    ensures
        spec_run(brackets(n), close_state(n, j)) == spec_run(brackets(n), close_state(n, n)),
    decreases n - j,
{
    if j < n {
        lemma_brackets_close_step(n, j);
        assert(spec_run(brackets(n), close_state(n, j)) == spec_run(
            brackets(n),
            close_state(n, j + 1),
        ));
        lemma_brackets_close_phase(n, j + 1);
    }
}

/// Deep-nesting safety: for every depth `n` the input of `n` opening
/// brackets followed by `n` closing brackets is accepted, with a root array
/// spanning the whole input. The recognizer itself never recurses, so the
/// result holds at any depth the span type admits.
pub proof fn lemma_deep_nesting(n: int)
    requires
        1 <= n,
        2 * n <= u32::MAX,
    ensures
        spec_parse(brackets(n)) matches RunOut::RDone(v, s2) && v.span == (Span {
            start: 0,
            end: (2 * n) as u32,
        }),
{
    let src = brackets(n);
    assert(init_state() == open_state(n, 0)) by {
        assert(open_state(n, 0).stack =~= Seq::<OpenItem>::empty());
    }
    lemma_brackets_open_phase(n, 0);
    lemma_brackets_first_close(n);
    assert(spec_run(src, open_state(n, n)) == spec_run(src, close_state(n, 1)));
    lemma_brackets_close_phase(n, 1);
    let s = close_state(n, n);
    assert(crate::lexer::skip_ws(src, 2 * n) == 2 * n);
    assert(spec_lex(src, s.pos) == Lexed::End);
    assert(spec_step(src, s) matches StepOut::Done(v, _) && v == nested_node(n, n - 1));
    assert(spec_run(src, s) matches RunOut::RDone(v, _) && v == nested_node(n, n - 1));
}

/// Cooperative equivalence: both entry points are specified against the
/// same machine run of the source, so whatever results they return for one
/// input coincide, and the arenas they leave behind hold identical values,
/// keys, scratch bytes and interned handles.
pub proof fn lemma_cooperative_equivalence(
    src: Seq<u8>,
    a1: Arena,
    r1: Result<Value, Error>,
    a2: Arena,
    r2: Result<Value, Error>,
)
    requires
        parse_post(src, a1, r1),
        parse_post(src, a2, r2),
    ensures
        r1 is Ok <==> r2 is Ok,
        r1 is Ok ==> r1->Ok_0 == r2->Ok_0,
        r1 is Err ==> {
            let e1 = r1->Err_0;
            let e2 = r2->Err_0;
            &&& e1.kind == e2.kind
            &&& e1.token == e2.token
            &&& e1.span == e2.span
            &&& e1.stack@ == e2.stack@
            &&& e1.context == e2.context
        },
        a1.values@ == a2.values@,
        a1.keys@ == a2.keys@,
        a1.scratch@ == a2.scratch@,
        a1.interned@ == a2.interned@,
{
}

} // verus!
