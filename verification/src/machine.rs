//! The spec-level parser machine: states, the one-token transition
//! `spec_step`, the run-to-completion function `spec_run`, and the machine
//! invariant that yields the post-order arena layout.

use vstd::prelude::*;
use crate::types::{
    Span, Value, ValueKind, Object, Array, StringKey, node_wf, is_composite, child_values,
    child_keys, post_order, parent_after_children, siblings_disjoint, fields_in_order,
    key_in_bounds,
};
use crate::lexer::{Token, Lexed, spec_lex, lemma_lex_bounds};
use crate::decode::{EscapeError, decode_span, has_escape};
use crate::arena::intern_spec;

verus! {

/// Whether an open container is an object or an array.
#[derive(Clone, Copy, PartialEq, Eq, Debug, Structural)]
pub enum ContainerKind {
    Object,
    Array,
}

/// One currently-open container: its kind, the source offset of its opening
/// byte, and the watermarks — the lengths of the two working stacks at the
/// moment it was opened.
#[derive(Clone, Copy, PartialEq, Eq, Debug, Structural)]
pub struct OpenItem {
    pub start: u32,
    pub vmark: u32,
    pub kmark: u32,
    pub kind: ContainerKind,
}

/// What the next token must be.
#[derive(Clone, Copy, PartialEq, Eq, Debug, Structural)]
pub enum ContextItem {
    /// Next must be a leaf, `{`, `[`, or — for an array — `]`.
    WaitingValue,
    /// Next must be a string leaf or — for an empty object — `}`.
    WaitingKey,
    /// A string was just read as a key; next must be `:`.
    Key { span: Span, key: StringKey },
    /// A complete value was just read; next must be `,`, `}` or `]`.
    Value { span: Span, kind: ValueKind },
}

/// Why a parse failed.
#[derive(Clone, Copy, PartialEq, Eq, Debug, Structural)]
pub enum ErrorKind {
    /// Grammar violation at a known offset.
    UnexpectedToken,
    /// Input exhausted in a non-accepting context.
    UnexpectedEof,
    /// The tokenizer found no token at a byte offset.
    LexicalError,
    /// Unknown control byte after a backslash in an object key.
    InvalidEscape,
    /// `\u` in an object key without four hex digits.
    TruncatedUnicodeEscape,
    /// `\uXXXX` in an object key naming a lone surrogate half.
    InvalidCodePoint,
}

/// The error kind an interner failure surfaces as.
pub open spec fn escape_kind(e: EscapeError) -> ErrorKind {
    match e {
        EscapeError::InvalidEscape => ErrorKind::InvalidEscape,
        EscapeError::TruncatedUnicodeEscape => ErrorKind::TruncatedUnicodeEscape,
        EscapeError::InvalidCodePoint => ErrorKind::InvalidCodePoint,
    }
}

/// The spec-level machine state: scanner position, the open-container stack,
/// the two working stacks, the context, and the arena-owned parts the
/// machine writes.
pub struct PState {
    pub pos: int,
    pub stack: Seq<OpenItem>,
    pub vstack: Seq<Value>,
    pub kstack: Seq<StringKey>,
    pub ctx: ContextItem,
    pub values: Seq<Value>,
    pub keys: Seq<StringKey>,
    pub scratch: Seq<u8>,
    pub interned: Map<Seq<u8>, StringKey>,
}

/// A failure as the machine records it.
pub struct ErrModel {
    pub kind: ErrorKind,
    pub token: Option<Token>,
    pub span: Span,
    pub stack: Seq<OpenItem>,
    pub context: ContextItem,
}

/// The outcome of one transition.
pub enum StepOut {
    Next(PState),
    Done(Value, PState),
    Fail(ErrModel, PState),
}

/// The outcome of a run.
pub enum RunOut {
    RDone(Value, PState),
    RFail(ErrModel, PState),
}

/// A grammar-violation failure at the current state.
pub open spec fn fail_tok(s: PState, tok: Token, sp: Span) -> StepOut {
    StepOut::Fail(
        ErrModel {
            kind: ErrorKind::UnexpectedToken,
            token: Some(tok),
            span: sp,
            stack: s.stack,
            context: s.ctx,
        },
        s,
    )
}

/// An end-of-input failure at the current state.
pub open spec fn fail_eof(src: Seq<u8>, s: PState) -> StepOut {
    StepOut::Fail(
        ErrModel {
            kind: ErrorKind::UnexpectedEof,
            token: None,
            span: Span { start: src.len() as u32, end: src.len() as u32 },
            stack: s.stack,
            context: s.ctx,
        },
        s,
    )
}

/// The one-token transition of the parser machine.
pub open spec fn spec_step(src: Seq<u8>, s: PState) -> StepOut {
    match spec_lex(src, s.pos) {
        Lexed::End => match s.ctx {
            ContextItem::Value { span, kind } => if s.stack.len() == 0 {
                StepOut::Done(Value { span, kind }, PState { pos: src.len() as int, ..s })
            } else {
                fail_eof(src, s)
            },
            _ => fail_eof(src, s),
        },
        Lexed::Failed(sp) => StepOut::Fail(
            ErrModel {
                kind: ErrorKind::LexicalError,
                token: None,
                span: sp,
                stack: s.stack,
                context: s.ctx,
            },
            s,
        ),
        Lexed::Tok(tok, sp) => {
            let s1 = PState { pos: sp.end as int, ..s };
            match tok {
                Token::Leaf(v) => match s.ctx {
                    ContextItem::WaitingValue => StepOut::Next(
                        PState {
                            ctx: ContextItem::Value { span: sp, kind: ValueKind::Leaf(v) },
                            ..s1
                        },
                    ),
                    ContextItem::WaitingKey => if v is String {
                        match intern_spec(
                            src,
                            s.scratch,
                            s.interned,
                            sp.start as int,
                            sp.end as int,
                        ) {
                            Ok(t) => StepOut::Next(
                                PState {
                                    ctx: ContextItem::Key { span: sp, key: t.0 },
                                    scratch: t.1,
                                    interned: t.2,
                                    ..s1
                                },
                            ),
                            Err(e) => StepOut::Fail(
                                ErrModel {
                                    kind: escape_kind(e),
                                    token: Some(tok),
                                    span: sp,
                                    stack: s.stack,
                                    context: s.ctx,
                                },
                                s,
                            ),
                        }
                    } else {
                        fail_tok(s, tok, sp)
                    },
                    _ => fail_tok(s, tok, sp),
                },
                Token::OpenObject => match s.ctx {
                    ContextItem::WaitingValue => StepOut::Next(
                        PState {
                            stack: s.stack.push(
                                OpenItem {
                                    start: sp.start,
                                    vmark: s.vstack.len() as u32,
                                    kmark: s.kstack.len() as u32,
                                    kind: ContainerKind::Object,
                                },
                            ),
                            ctx: ContextItem::WaitingKey,
                            ..s1
                        },
                    ),
                    _ => fail_tok(s, tok, sp),
                },
                Token::OpenArray => match s.ctx {
                    ContextItem::WaitingValue => StepOut::Next(
                        PState {
                            stack: s.stack.push(
                                OpenItem {
                                    start: sp.start,
                                    vmark: s.vstack.len() as u32,
                                    kmark: s.kstack.len() as u32,
                                    kind: ContainerKind::Array,
                                },
                            ),
                            ctx: ContextItem::WaitingValue,
                            ..s1
                        },
                    ),
                    _ => fail_tok(s, tok, sp),
                },
                Token::CloseObject => {
                    if s.stack.len() == 0 {
                        fail_tok(s, tok, sp)
                    } else {
                        let top = s.stack.last();
                        if !(top.kind is Object) {
                            fail_tok(s, tok, sp)
                        } else {
                            let full = Span { start: top.start, end: sp.end };
                            match s.ctx {
                                ContextItem::WaitingKey => if s.vstack.len() == top.vmark {
                                    StepOut::Next(
                                        PState {
                                            stack: s.stack.drop_last(),
                                            ctx: ContextItem::Value {
                                                span: full,
                                                kind: ValueKind::Object(
                                                    Object {
                                                        keys: Span { start: 0, end: 0 },
                                                        values: Span { start: 0, end: 0 },
                                                    },
                                                ),
                                            },
                                            ..s1
                                        },
                                    )
                                } else {
                                    fail_tok(s, tok, sp)
                                },
                                ContextItem::Value { span: vspan, kind: vkind } => {
                                    let vs = s.vstack.push(Value { span: vspan, kind: vkind });
                                    let vi = s.values.len() as u32;
                                    let vj = (s.values.len() + vs.len() - top.vmark) as u32;
                                    let ki = s.keys.len() as u32;
                                    let kj = (s.keys.len() + s.kstack.len() - top.kmark) as u32;
                                    StepOut::Next(
                                        PState {
                                            stack: s.stack.drop_last(),
                                            vstack: vs.subrange(0, top.vmark as int),
                                            kstack: s.kstack.subrange(0, top.kmark as int),
                                            ctx: ContextItem::Value {
                                                span: full,
                                                kind: ValueKind::Object(
                                                    Object {
                                                        keys: Span { start: ki, end: kj },
                                                        values: Span { start: vi, end: vj },
                                                    },
                                                ),
                                            },
                                            values: s.values + vs.subrange(
                                                top.vmark as int,
                                                vs.len() as int,
                                            ),
                                            keys: s.keys + s.kstack.subrange(
                                                top.kmark as int,
                                                s.kstack.len() as int,
                                            ),
                                            ..s1
                                        },
                                    )
                                },
                                _ => fail_tok(s, tok, sp),
                            }
                        }
                    }
                },
                Token::CloseArray => {
                    if s.stack.len() == 0 {
                        fail_tok(s, tok, sp)
                    } else {
                        let top = s.stack.last();
                        if !(top.kind is Array) {
                            fail_tok(s, tok, sp)
                        } else {
                            let full = Span { start: top.start, end: sp.end };
                            match s.ctx {
                                ContextItem::WaitingValue => if s.vstack.len() == top.vmark {
                                    StepOut::Next(
                                        PState {
                                            stack: s.stack.drop_last(),
                                            ctx: ContextItem::Value {
                                                span: full,
                                                kind: ValueKind::Array(
                                                    Array { values: Span { start: 0, end: 0 } },
                                                ),
                                            },
                                            ..s1
                                        },
                                    )
                                } else {
                                    fail_tok(s, tok, sp)
                                },
                                ContextItem::Value { span: vspan, kind: vkind } => {
                                    let vs = s.vstack.push(Value { span: vspan, kind: vkind });
                                    let vi = s.values.len() as u32;
                                    let vj = (s.values.len() + vs.len() - top.vmark) as u32;
                                    StepOut::Next(
                                        PState {
                                            stack: s.stack.drop_last(),
                                            vstack: vs.subrange(0, top.vmark as int),
                                            ctx: ContextItem::Value {
                                                span: full,
                                                kind: ValueKind::Array(
                                                    Array {
                                                        values: Span { start: vi, end: vj },
                                                    },
                                                ),
                                            },
                                            values: s.values + vs.subrange(
                                                top.vmark as int,
                                                vs.len() as int,
                                            ),
                                            ..s1
                                        },
                                    )
                                },
                                _ => fail_tok(s, tok, sp),
                            }
                        }
                    }
                },
                Token::Colon => match s.ctx {
                    ContextItem::Key { span: _, key } => if s.stack.len() > 0 && s.stack.last().kind
                        is Object {
                        StepOut::Next(
                            PState {
                                kstack: s.kstack.push(key),
                                ctx: ContextItem::WaitingValue,
                                ..s1
                            },
                        )
                    } else {
                        fail_tok(s, tok, sp)
                    },
                    _ => fail_tok(s, tok, sp),
                },
                Token::Comma => match s.ctx {
                    ContextItem::Value { span: vspan, kind: vkind } => if s.stack.len() > 0 {
                        let vs = s.vstack.push(Value { span: vspan, kind: vkind });
                        if s.stack.last().kind is Object {
                            StepOut::Next(
                                PState { vstack: vs, ctx: ContextItem::WaitingKey, ..s1 },
                            )
                        } else {
                            StepOut::Next(
                                PState { vstack: vs, ctx: ContextItem::WaitingValue, ..s1 },
                            )
                        }
                    } else {
                        fail_tok(s, tok, sp)
                    },
                    _ => fail_tok(s, tok, sp),
                },
            }
        },
    }
}

/// Every `Next` strictly advances the scanner, staying inside the source.
pub proof fn lemma_step_advances(src: Seq<u8>, s: PState)
    requires
        0 <= s.pos <= src.len() <= u32::MAX,
    ensures
        spec_step(src, s) matches StepOut::Next(s2) ==> s.pos < s2.pos <= src.len(),
{
    lemma_lex_bounds(src, s.pos);
}

/// Runs the machine until it accepts or fails.
pub open spec fn spec_run(src: Seq<u8>, s: PState) -> RunOut
    decreases src.len() - s.pos
        when 0 <= s.pos <= src.len() <= u32::MAX via spec_run_decreases
{
    match spec_step(src, s) {
        StepOut::Next(s2) => spec_run(src, s2),
        StepOut::Done(v, s2) => RunOut::RDone(v, s2),
        StepOut::Fail(e, s2) => RunOut::RFail(e, s2),
    }
}

#[via_fn]
proof fn spec_run_decreases(src: Seq<u8>, s: PState) {
    lemma_step_advances(src, s);
}

/// Whether `s2` is reached from `s1` by at most `n` accepted transitions
/// of the machine.
pub open spec fn steps_within(src: Seq<u8>, s1: PState, s2: PState, n: int) -> bool
    decreases n,
{
    s1 == s2 || (n > 0 && match spec_step(src, s1) {
        StepOut::Next(sm) => steps_within(src, sm, s2, n - 1),
        _ => false,
    })
}

/// A run of at most `n` transitions followed by one more is a run of at
/// most `n + 1`.
pub proof fn lemma_steps_extend(src: Seq<u8>, a: PState, b: PState, c: PState, n: int)
    requires
        n >= 0,
        steps_within(src, a, b, n),
        spec_step(src, b) == StepOut::Next(c),
    ensures
        steps_within(src, a, c, n + 1),
    decreases n,
{
    if a == b {
        assert(steps_within(src, c, c, n));
    } else {
        match spec_step(src, a) {
            StepOut::Next(am) => {
                lemma_steps_extend(src, am, b, c, n - 1);
            },
            _ => {},
        }
    }
}

/// The machine's initial state over an untouched arena.
pub open spec fn init_state() -> PState {
    PState {
        pos: 0,
        stack: Seq::empty(),
        vstack: Seq::empty(),
        kstack: Seq::empty(),
        ctx: ContextItem::WaitingValue,
        values: Seq::empty(),
        keys: Seq::empty(),
        scratch: Seq::empty(),
        interned: Map::empty(),
    }
}

/// What one complete parse of `src` yields: the machine run from the
/// initial state. Both entry points are specified against this function, so
/// for any input they return identical results and leave identical arenas.
pub open spec fn spec_parse(src: Seq<u8>) -> RunOut {
    spec_run(src, init_state())
}

/// The value-stack length a container's children start at, seen from item
/// `i`: the next item's watermark, or the stack length for the top item.
pub open spec fn vnext(s: PState, i: int) -> int {
    if i + 1 < s.stack.len() {
        s.stack[i + 1].vmark as int
    } else {
        s.vstack.len() as int
    }
}

pub open spec fn knext(s: PState, i: int) -> int {
    if i + 1 < s.stack.len() {
        s.stack[i + 1].kmark as int
    } else {
        s.kstack.len() as int
    }
}

/// Whether the context holds a completed value or a value is pending (after
/// a key's colon): in an object, the key of the current field is then
/// already on the key stack.
pub open spec fn ctx_has_pending(ctx: ContextItem) -> bool {
    ctx is WaitingValue || ctx is Value
}

/// Watermark discipline: every open container's watermarks lie under the
/// next one's (and under the stack lengths), and for each container the
/// pending keys pair off with the pending values — one extra key exactly
/// when the innermost field's value is still being read.
pub open spec fn marks_wf(s: PState) -> bool {
    &&& forall|i: int|
        0 <= i < s.stack.len() ==> (#[trigger] s.stack[i]).vmark <= s.vstack.len()
            && s.stack[i].kmark <= s.kstack.len()
    &&& forall|i: int|
        0 <= i < s.stack.len() ==> (#[trigger] s.stack[i]).vmark <= vnext(s, i) && s.stack[i].kmark
            <= knext(s, i)
    &&& forall|i: int|
        0 <= i < s.stack.len() && (#[trigger] s.stack[i]).kind is Array ==> knext(s, i)
            == s.stack[i].kmark
    &&& forall|i: int|
        0 <= i < s.stack.len() - 1 && (#[trigger] s.stack[i]).kind is Object ==> knext(s, i)
            - s.stack[i].kmark == vnext(s, i) - s.stack[i].vmark + 1
    &&& s.stack.len() > 0 && s.stack.last().kind is Object ==> {
        if ctx_has_pending(s.ctx) {
            s.kstack.len() - s.stack.last().kmark == s.vstack.len() - s.stack.last().vmark + 1
        } else {
            s.kstack.len() - s.stack.last().kmark == s.vstack.len() - s.stack.last().vmark
        }
    }
}

/// Watermarks grow along the open stack.
proof fn lemma_marks_chain(s: PState, i: int, j: int)
    requires
        marks_wf(s),
        0 <= i <= j < s.stack.len(),
    ensures
        s.stack[i].vmark <= s.stack[j].vmark,
        s.stack[i].kmark <= s.stack[j].kmark,
    decreases j - i,
{
    if i < j {
        lemma_marks_chain(s, i, j - 1);
        assert(s.stack[j - 1].vmark <= vnext(s, j - 1) && s.stack[j - 1].kmark <= knext(s, j - 1));
    }
}

/// Wf of one pending node against the arena: its ranges are committed, its
/// committed children lie before its own range, and those children are
/// mutually disjoint in order.
pub open spec fn pending_wf(e: Value, values: Seq<Value>, keys: Seq<StringKey>) -> bool {
    &&& node_wf(e, values.len() as int, keys.len() as int)
    &&& forall|j: int|
        child_values(e).start <= j < child_values(e).end ==> child_values(
            #[trigger] values[j],
        ).end <= child_values(e).start
    &&& forall|j1: int, j2: int|
        child_values(e).start <= j1 < j2 < child_values(e).end ==> (#[trigger] values[j1]).span.end
            <= (#[trigger] values[j2]).span.start
    &&& forall|j1: int, j2: int|
        child_values(e).start <= j1 < j2 < child_values(e).end && is_composite(
            #[trigger] values[j1],
        ) && is_composite(#[trigger] values[j2]) && child_values(values[j1]).start < child_values(
            values[j1],
        ).end && child_values(values[j2]).start < child_values(values[j2]).end ==> child_values(
            values[j1],
        ).end <= child_values(values[j2]).start
}

/// The value a `Value` context holds, as a node (the span is irrelevant to
/// the children ranges).
pub open spec fn ctx_node(ctx: ContextItem) -> Value {
    match ctx {
        ContextItem::Value { span, kind } => Value { span, kind },
        _ => Value { span: Span { start: 0, end: 0 }, kind: ValueKind::Leaf(crate::types::LeafValue::Null) },
    }
}

/// The working value stack is wf: every entry (and the context's completed
/// value, which conceptually follows them all) is a wf pending node, and
/// the composites' children ranges are disjoint in stack order.
pub open spec fn vstack_wf(s: PState) -> bool {
    &&& forall|i: int|
        0 <= i < s.vstack.len() ==> pending_wf(#[trigger] s.vstack[i], s.values, s.keys)
    &&& forall|a: int, b: int|
        0 <= a < b < s.vstack.len() ==> (#[trigger] s.vstack[a]).span.end <= (
        #[trigger] s.vstack[b]).span.start
    &&& forall|i: int, j: int|
        0 <= i < j < s.vstack.len() && is_composite(s.vstack[i]) && is_composite(s.vstack[j])
            && child_values(s.vstack[i]).start < child_values(s.vstack[i]).end && child_values(
            s.vstack[j],
        ).start < child_values(s.vstack[j]).end ==> child_values(#[trigger] s.vstack[i]).end
            <= child_values(#[trigger] s.vstack[j]).start
    &&& s.ctx is Value ==> {
        &&& pending_wf(ctx_node(s.ctx), s.values, s.keys)
        &&& forall|a: int|
            0 <= a < s.vstack.len() ==> (#[trigger] s.vstack[a]).span.end <= ctx_node(
                s.ctx,
            ).span.start
        &&& forall|i: int|
            0 <= i < s.vstack.len() && is_composite(#[trigger] s.vstack[i]) && is_composite(
                ctx_node(s.ctx),
            ) && child_values(s.vstack[i]).start < child_values(s.vstack[i]).end && child_values(
                ctx_node(s.ctx),
            ).start < child_values(ctx_node(s.ctx)).end ==> child_values(s.vstack[i]).end
                <= child_values(ctx_node(s.ctx)).start
    }
}

/// Every key handle the state holds — interned, pending as the context,
/// stacked, or committed — addresses bytes inside the buffers.
pub open spec fn keys_wf(src: Seq<u8>, s: PState) -> bool {
    &&& forall|d: Seq<u8>| #[trigger]
        s.interned.dom().contains(d) ==> key_in_bounds(src, s.scratch, s.interned[d])
    &&& s.ctx matches ContextItem::Key { span, key } ==> key_in_bounds(src, s.scratch, key)
    &&& forall|t: int|
        0 <= t < s.kstack.len() ==> key_in_bounds(src, s.scratch, #[trigger] s.kstack[t])
    &&& forall|t: int|
        0 <= t < s.keys.len() ==> key_in_bounds(src, s.scratch, #[trigger] s.keys[t])
}

/// Every span the state holds addresses source bytes: open containers
/// started at or before the scanner, and every node's span is an ordered
/// range inside the source.
pub open spec fn spans_wf(src: Seq<u8>, s: PState) -> bool {
    &&& forall|i: int| 0 <= i < s.stack.len() ==> (#[trigger] s.stack[i]).start <= s.pos
    &&& forall|i: int|
        0 <= i < s.values.len() ==> (#[trigger] s.values[i]).span.start <= s.values[i].span.end
            <= src.len()
    &&& forall|i: int|
        0 <= i < s.vstack.len() ==> (#[trigger] s.vstack[i]).span.start <= s.vstack[i].span.end
            <= src.len()
    &&& forall|i: int| 0 <= i < s.vstack.len() ==> (#[trigger] s.vstack[i]).span.end <= s.pos
    &&& forall|i: int, a: int|
        0 <= i < s.stack.len() && 0 <= a < (#[trigger] s.stack[i]).vmark ==> (
        #[trigger] s.vstack[a]).span.end <= s.stack[i].start
    &&& s.ctx matches ContextItem::Value { span, kind } ==> span.start <= span.end <= src.len()
        && span.end <= s.pos
}

/// The machine invariant: bounds that keep every index and cast in range,
/// the watermark discipline, the validity of every key handle and span, and
/// the post-order layout of the arena.
pub open spec fn inv(src: Seq<u8>, s: PState) -> bool {
    &&& 0 <= s.pos <= src.len() <= u32::MAX
    &&& s.scratch.len() <= s.pos
    &&& s.stack.len() + s.vstack.len() + s.kstack.len() + s.values.len() + s.keys.len() <= s.pos
    &&& marks_wf(s)
    &&& vstack_wf(s)
    &&& keys_wf(src, s)
    &&& spans_wf(src, s)
    &&& post_order(s.values, s.keys.len() as int)
    &&& parent_after_children(s.values)
    &&& siblings_disjoint(s.values)
    &&& fields_in_order(s.values)
}

/// A handle valid for a scratch stays valid for any extension of it.
proof fn lemma_in_bounds_extend(src: Seq<u8>, sc1: Seq<u8>, sc2: Seq<u8>, k: StringKey)
    requires
        key_in_bounds(src, sc1, k),
        sc1.len() <= sc2.len(),
    ensures
        key_in_bounds(src, sc2, k),
{
}

/// Closing a non-empty object preserves the invariant.
#[verifier::rlimit(60)]
proof fn lemma_close_object_inv(src: Seq<u8>, s: PState, sp: Span)
    requires
        inv(src, s),
        spec_lex(src, s.pos) == Lexed::Tok(Token::CloseObject, sp),
        s.pos <= sp.start < sp.end <= src.len(),
        s.stack.len() > 0,
        s.stack.last().kind is Object,
        s.ctx is Value,
    ensures
        spec_step(src, s) matches StepOut::Next(s2) ==> inv(src, s2),
{
    let n = s.stack.len() as int;
    let top = s.stack.last();
    let vm = top.vmark as int;
    let km = top.kmark as int;
    let vlen = s.vstack.len() as int;
    let klen = s.kstack.len() as int;
    let ctxv = ctx_node(s.ctx);
    let vs = s.vstack.push(ctxv);
    assert(s.stack[n - 1] == top);
    assert(top.vmark <= vnext(s, n - 1) && top.kmark <= knext(s, n - 1));
    assert(vm <= vlen && km <= klen);
    assert(klen - km == vlen - vm + 1);
    match spec_step(src, s) {
        StepOut::Next(s2) => {
            let vi = s.values.len() as int;
            let vj = vi + (vlen + 1 - vm);
            let ki = s.keys.len() as int;
            let kj = ki + (klen - km);
            assert(s2.values == s.values + vs.subrange(vm, vlen + 1));
            assert(s2.values.len() == vj);
            assert(s2.keys.len() == kj);
            assert(s2.vstack.len() == vm);
            assert(s2.kstack.len() == km);
            assert(s2.stack.len() == n - 1);
            // The value each new arena slot holds.
            assert forall|j: int| vi <= j < vj implies s2.values[j] == vs[vm + (j - vi)] by {
                assert(s2.values[j] == vs.subrange(vm, vlen + 1)[j - vi]);
            }
            assert forall|t: int| vm <= t < vlen implies pending_wf(vs[t], s.values, s.keys) by {
                assert(vs[t] == s.vstack[t]);
            }
            assert(vs[vlen] == ctxv);
            assert(pending_wf(ctxv, s.values, s.keys));
            // Watermark discipline.
            assert forall|i: int| 0 <= i < n - 1 implies (#[trigger] s2.stack[i]).vmark <= vnext(
                s2,
                i,
            ) && s2.stack[i].kmark <= knext(s2, i) by {
                assert(s2.stack[i] == s.stack[i]);
                assert(s.stack[i].vmark <= vnext(s, i) && s.stack[i].kmark <= knext(s, i));
                if i + 1 < n - 1 {
                    assert(s2.stack[i + 1] == s.stack[i + 1]);
                } else {
                    assert(vnext(s, i) == vm && knext(s, i) == km);
                }
            }
            assert forall|i: int|
                0 <= i < n - 1 && (#[trigger] s2.stack[i]).kind is Array implies knext(s2, i)
                == s2.stack[i].kmark by {
                assert(s2.stack[i] == s.stack[i]);
                assert(knext(s, i) == s.stack[i].kmark);
                if i + 1 < n - 1 {
                    assert(s2.stack[i + 1] == s.stack[i + 1]);
                } else {
                    assert(knext(s, i) == km);
                }
            }
            assert forall|i: int|
                0 <= i < n - 2 && (#[trigger] s2.stack[i]).kind is Object implies knext(s2, i)
                - s2.stack[i].kmark == vnext(s2, i) - s2.stack[i].vmark + 1 by {
                assert(s2.stack[i] == s.stack[i]);
                assert(s2.stack[i + 1] == s.stack[i + 1]);
                assert(knext(s, i) - s.stack[i].kmark == vnext(s, i) - s.stack[i].vmark + 1);
            }
            if n - 1 > 0 {
                let j = n - 2;
                assert(s2.stack[j] == s.stack[j]);
                assert(vnext(s, j) == vm && knext(s, j) == km);
                if s.stack[j].kind is Object {
                    assert(knext(s, j) - s.stack[j].kmark == vnext(s, j) - s.stack[j].vmark + 1);
                } else {
                    assert(knext(s, j) == s.stack[j].kmark);
                }
            }
            assert forall|i: int| 0 <= i < n - 1 implies (#[trigger] s2.stack[i]).vmark
                <= s2.vstack.len() && s2.stack[i].kmark <= s2.kstack.len() by {
                assert(s2.stack[i] == s.stack[i]);
                lemma_marks_chain(s, i, n - 1);
            }
            assert(marks_wf(s2));
            // Post-order layout of the grown arena.
            assert forall|i: int| 0 <= i < vj implies node_wf(
                #[trigger] s2.values[i],
                i,
                kj,
            ) by {
                if i < vi {
                    assert(s2.values[i] == s.values[i]);
                    assert(node_wf(s.values[i], i, ki));
                } else {
                    let e = vs[vm + (i - vi)];
                    assert(s2.values[i] == e);
                    if vm + (i - vi) < vlen {
                        assert(pending_wf(vs[vm + (i - vi)], s.values, s.keys));
                    }
                    assert(node_wf(e, vi, ki));
                }
            }
            assert forall|i: int, j: int|
                0 <= i < vj && child_values(#[trigger] s2.values[i]).start <= j < child_values(
                    s2.values[i],
                ).end implies child_values(#[trigger] s2.values[j]).end <= child_values(
                s2.values[i],
            ).start by {
                if i < vi {
                    assert(s2.values[i] == s.values[i]);
                    assert(node_wf(s.values[i], i, ki));
                    assert(s2.values[j] == s.values[j]);
                } else {
                    let e = vs[vm + (i - vi)];
                    assert(s2.values[i] == e);
                    if vm + (i - vi) < vlen {
                        assert(pending_wf(vs[vm + (i - vi)], s.values, s.keys));
                    }
                    assert(node_wf(e, vi, ki));
                    assert(s2.values[j] == s.values[j]);
                    assert(child_values(s.values[j]).end <= child_values(e).start);
                }
            }
            assert forall|i: int, j1: int, j2: int|
                0 <= i < vj && child_values(#[trigger] s2.values[i]).start <= j1 < j2
                    < child_values(s2.values[i]).end && is_composite(#[trigger] s2.values[j1])
                    && is_composite(#[trigger] s2.values[j2]) && child_values(
                    s2.values[j1],
                ).start < child_values(s2.values[j1]).end && child_values(s2.values[j2]).start
                    < child_values(s2.values[j2]).end implies child_values(s2.values[j1]).end
                <= child_values(s2.values[j2]).start by {
                if i < vi {
                    assert(s2.values[i] == s.values[i]);
                    assert(node_wf(s.values[i], i, ki));
                    assert(s2.values[j1] == s.values[j1]);
                    assert(s2.values[j2] == s.values[j2]);
                } else {
                    let e = vs[vm + (i - vi)];
                    assert(s2.values[i] == e);
                    if vm + (i - vi) < vlen {
                        assert(pending_wf(vs[vm + (i - vi)], s.values, s.keys));
                    }
                    assert(node_wf(e, vi, ki));
                    assert(s2.values[j1] == s.values[j1]);
                    assert(s2.values[j2] == s.values[j2]);
                }
            }
            // The remaining working stack, and the new pending parent.
            assert forall|i: int| 0 <= i < vm implies s2.vstack[i] == s.vstack[i] && vs[i]
                == s.vstack[i] by {}
            assert forall|i: int| 0 <= i < vm implies pending_wf(
                #[trigger] s2.vstack[i],
                s2.values,
                s2.keys,
            ) by {
                assert(s2.vstack[i] == s.vstack[i]);
                assert(pending_wf(s.vstack[i], s.values, s.keys));
                let e = s.vstack[i];
                assert forall|j: int|
                    child_values(e).start <= j < child_values(e).end implies child_values(
                    #[trigger] s2.values[j],
                ).end <= child_values(e).start by {
                    assert(s2.values[j] == s.values[j]);
                }
                assert forall|j1: int, j2: int|
                    child_values(e).start <= j1 < j2 < child_values(e).end && is_composite(
                        #[trigger] s2.values[j1],
                    ) && is_composite(#[trigger] s2.values[j2]) && child_values(
                        s2.values[j1],
                    ).start < child_values(s2.values[j1]).end && child_values(
                        s2.values[j2],
                    ).start < child_values(s2.values[j2]).end implies child_values(
                    s2.values[j1],
                ).end <= child_values(s2.values[j2]).start by {
                    assert(s2.values[j1] == s.values[j1]);
                    assert(s2.values[j2] == s.values[j2]);
                }
            }
            let parent = ctx_node(s2.ctx);
            assert(child_values(parent) == Span { start: vi as u32, end: vj as u32 });
            assert(child_keys(parent) == Span { start: ki as u32, end: kj as u32 });
            assert(node_wf(parent, vj, kj));
            assert forall|j: int|
                child_values(parent).start <= j < child_values(parent).end implies child_values(
                #[trigger] s2.values[j],
            ).end <= child_values(parent).start by {
                let e = vs[vm + (j - vi)];
                assert(s2.values[j] == e);
                if vm + (j - vi) < vlen {
                    assert(pending_wf(vs[vm + (j - vi)], s.values, s.keys));
                }
                assert(node_wf(e, vi, ki));
            }
            assert forall|j1: int, j2: int|
                child_values(parent).start <= j1 < j2 < child_values(parent).end && is_composite(
                    #[trigger] s2.values[j1],
                ) && is_composite(#[trigger] s2.values[j2]) && child_values(s2.values[j1]).start
                    < child_values(s2.values[j1]).end && child_values(s2.values[j2]).start
                    < child_values(s2.values[j2]).end implies child_values(s2.values[j1]).end
                <= child_values(s2.values[j2]).start by {
                let t1 = vm + (j1 - vi);
                let t2 = vm + (j2 - vi);
                assert(s2.values[j1] == vs[t1]);
                assert(s2.values[j2] == vs[t2]);
                if t2 < vlen {
                    assert(vs[t1] == s.vstack[t1] && vs[t2] == s.vstack[t2]);
                } else {
                    assert(vs[t2] == ctxv);
                    assert(vs[t1] == s.vstack[t1]);
                }
            }
            assert(pending_wf(parent, s2.values, s2.keys));
            assert forall|i: int|
                0 <= i < vm && is_composite(#[trigger] s2.vstack[i]) && is_composite(parent)
                    && child_values(s2.vstack[i]).start < child_values(s2.vstack[i]).end
                    && child_values(parent).start < child_values(parent).end implies child_values(
                s2.vstack[i],
            ).end <= child_values(parent).start by {
                assert(s2.vstack[i] == s.vstack[i]);
                assert(pending_wf(s.vstack[i], s.values, s.keys));
            }
            assert forall|i: int, j: int|
                0 <= i < j < vm && is_composite(s2.vstack[i]) && is_composite(s2.vstack[j])
                    && child_values(s2.vstack[i]).start < child_values(s2.vstack[i]).end
                    && child_values(s2.vstack[j]).start < child_values(s2.vstack[j]).end
                    implies child_values(#[trigger] s2.vstack[i]).end <= child_values(
                #[trigger] s2.vstack[j],
            ).start by {
                assert(s2.vstack[i] == s.vstack[i]);
                assert(s2.vstack[j] == s.vstack[j]);
            }
            assert(vstack_wf(s2));
            assert(inv(src, s2));
        },
        _ => {},
    }
}

/// Closing a non-empty array preserves the invariant.
#[verifier::rlimit(60)]
proof fn lemma_close_array_inv(src: Seq<u8>, s: PState, sp: Span)
    requires
        inv(src, s),
        spec_lex(src, s.pos) == Lexed::Tok(Token::CloseArray, sp),
        s.pos <= sp.start < sp.end <= src.len(),
        s.stack.len() > 0,
        s.stack.last().kind is Array,
        s.ctx is Value,
    ensures
        spec_step(src, s) matches StepOut::Next(s2) ==> inv(src, s2),
{
    let n = s.stack.len() as int;
    let top = s.stack.last();
    let vm = top.vmark as int;
    let km = top.kmark as int;
    let vlen = s.vstack.len() as int;
    let klen = s.kstack.len() as int;
    let ctxv = ctx_node(s.ctx);
    let vs = s.vstack.push(ctxv);
    assert(s.stack[n - 1] == top);
    assert(top.vmark <= vnext(s, n - 1) && top.kmark <= knext(s, n - 1));
    assert(knext(s, n - 1) == top.kmark);
    assert(vm <= vlen && km == klen);
    match spec_step(src, s) {
        StepOut::Next(s2) => {
            let vi = s.values.len() as int;
            let vj = vi + (vlen + 1 - vm);
            let ki = s.keys.len() as int;
            assert(s2.values == s.values + vs.subrange(vm, vlen + 1));
            assert(s2.values.len() == vj);
            assert(s2.keys.len() == ki);
            assert(s2.vstack.len() == vm);
            assert(s2.kstack.len() == klen);
            assert(s2.stack.len() == n - 1);
            assert forall|j: int| vi <= j < vj implies s2.values[j] == vs[vm + (j - vi)] by {
                assert(s2.values[j] == vs.subrange(vm, vlen + 1)[j - vi]);
            }
            assert forall|t: int| vm <= t < vlen implies pending_wf(vs[t], s.values, s.keys) by {
                assert(vs[t] == s.vstack[t]);
            }
            assert(vs[vlen] == ctxv);
            assert(pending_wf(ctxv, s.values, s.keys));
            // Watermark discipline.
            assert forall|i: int| 0 <= i < n - 1 implies (#[trigger] s2.stack[i]).vmark <= vnext(
                s2,
                i,
            ) && s2.stack[i].kmark <= knext(s2, i) by {
                assert(s2.stack[i] == s.stack[i]);
                assert(s.stack[i].vmark <= vnext(s, i) && s.stack[i].kmark <= knext(s, i));
                if i + 1 < n - 1 {
                    assert(s2.stack[i + 1] == s.stack[i + 1]);
                } else {
                    assert(vnext(s, i) == vm && knext(s, i) == km);
                }
            }
            assert forall|i: int|
                0 <= i < n - 1 && (#[trigger] s2.stack[i]).kind is Array implies knext(s2, i)
                == s2.stack[i].kmark by {
                assert(s2.stack[i] == s.stack[i]);
                assert(knext(s, i) == s.stack[i].kmark);
                if i + 1 < n - 1 {
                    assert(s2.stack[i + 1] == s.stack[i + 1]);
                } else {
                    assert(knext(s, i) == km);
                }
            }
            assert forall|i: int|
                0 <= i < n - 2 && (#[trigger] s2.stack[i]).kind is Object implies knext(s2, i)
                - s2.stack[i].kmark == vnext(s2, i) - s2.stack[i].vmark + 1 by {
                assert(s2.stack[i] == s.stack[i]);
                assert(s2.stack[i + 1] == s.stack[i + 1]);
                assert(knext(s, i) - s.stack[i].kmark == vnext(s, i) - s.stack[i].vmark + 1);
            }
            if n - 1 > 0 {
                let j = n - 2;
                assert(s2.stack[j] == s.stack[j]);
                assert(vnext(s, j) == vm && knext(s, j) == km);
                if s.stack[j].kind is Object {
                    assert(knext(s, j) - s.stack[j].kmark == vnext(s, j) - s.stack[j].vmark + 1);
                } else {
                    assert(knext(s, j) == s.stack[j].kmark);
                }
            }
            assert forall|i: int| 0 <= i < n - 1 implies (#[trigger] s2.stack[i]).vmark
                <= s2.vstack.len() && s2.stack[i].kmark <= s2.kstack.len() by {
                assert(s2.stack[i] == s.stack[i]);
                lemma_marks_chain(s, i, n - 1);
            }
            assert(marks_wf(s2));            assert(marks_wf(s2));
            // Post-order layout of the grown arena.
            assert forall|i: int| 0 <= i < vj implies node_wf(
                #[trigger] s2.values[i],
                i,
                ki,
            ) by {
                if i < vi {
                    assert(s2.values[i] == s.values[i]);
                    assert(node_wf(s.values[i], i, ki));
                } else {
                    let e = vs[vm + (i - vi)];
                    assert(s2.values[i] == e);
                    if vm + (i - vi) < vlen {
                        assert(pending_wf(vs[vm + (i - vi)], s.values, s.keys));
                    }
                    assert(node_wf(e, vi, ki));
                }
            }
            assert forall|i: int, j: int|
                0 <= i < vj && child_values(#[trigger] s2.values[i]).start <= j < child_values(
                    s2.values[i],
                ).end implies child_values(#[trigger] s2.values[j]).end <= child_values(
                s2.values[i],
            ).start by {
                if i < vi {
                    assert(s2.values[i] == s.values[i]);
                    assert(node_wf(s.values[i], i, ki));
                    assert(s2.values[j] == s.values[j]);
                } else {
                    let e = vs[vm + (i - vi)];
                    assert(s2.values[i] == e);
                    if vm + (i - vi) < vlen {
                        assert(pending_wf(vs[vm + (i - vi)], s.values, s.keys));
                    }
                    assert(node_wf(e, vi, ki));
                    assert(s2.values[j] == s.values[j]);
                    assert(child_values(s.values[j]).end <= child_values(e).start);
                }
            }
            assert forall|i: int, j1: int, j2: int|
                0 <= i < vj && child_values(#[trigger] s2.values[i]).start <= j1 < j2
                    < child_values(s2.values[i]).end && is_composite(#[trigger] s2.values[j1])
                    && is_composite(#[trigger] s2.values[j2]) && child_values(
                    s2.values[j1],
                ).start < child_values(s2.values[j1]).end && child_values(s2.values[j2]).start
                    < child_values(s2.values[j2]).end implies child_values(s2.values[j1]).end
                <= child_values(s2.values[j2]).start by {
                if i < vi {
                    assert(s2.values[i] == s.values[i]);
                    assert(node_wf(s.values[i], i, ki));
                    assert(s2.values[j1] == s.values[j1]);
                    assert(s2.values[j2] == s.values[j2]);
                } else {
                    let e = vs[vm + (i - vi)];
                    assert(s2.values[i] == e);
                    if vm + (i - vi) < vlen {
                        assert(pending_wf(vs[vm + (i - vi)], s.values, s.keys));
                    }
                    assert(node_wf(e, vi, ki));
                    assert(s2.values[j1] == s.values[j1]);
                    assert(s2.values[j2] == s.values[j2]);
                }
            }
            // The remaining working stack, and the new pending parent.
            assert forall|i: int| 0 <= i < vm implies s2.vstack[i] == s.vstack[i] && vs[i]
                == s.vstack[i] by {}
            assert forall|i: int| 0 <= i < vm implies pending_wf(
                #[trigger] s2.vstack[i],
                s2.values,
                s2.keys,
            ) by {
                assert(s2.vstack[i] == s.vstack[i]);
                assert(pending_wf(s.vstack[i], s.values, s.keys));
                let e = s.vstack[i];
                assert forall|j: int|
                    child_values(e).start <= j < child_values(e).end implies child_values(
                    #[trigger] s2.values[j],
                ).end <= child_values(e).start by {
                    assert(s2.values[j] == s.values[j]);
                }
                assert forall|j1: int, j2: int|
                    child_values(e).start <= j1 < j2 < child_values(e).end && is_composite(
                        #[trigger] s2.values[j1],
                    ) && is_composite(#[trigger] s2.values[j2]) && child_values(
                        s2.values[j1],
                    ).start < child_values(s2.values[j1]).end && child_values(
                        s2.values[j2],
                    ).start < child_values(s2.values[j2]).end implies child_values(
                    s2.values[j1],
                ).end <= child_values(s2.values[j2]).start by {
                    assert(s2.values[j1] == s.values[j1]);
                    assert(s2.values[j2] == s.values[j2]);
                }
            }
            let parent = ctx_node(s2.ctx);
            assert(child_values(parent) == Span { start: vi as u32, end: vj as u32 });
            assert(child_keys(parent) == Span { start: 0, end: 0 });
            assert(node_wf(parent, vj, ki));
            assert forall|j: int|
                child_values(parent).start <= j < child_values(parent).end implies child_values(
                #[trigger] s2.values[j],
            ).end <= child_values(parent).start by {
                let e = vs[vm + (j - vi)];
                assert(s2.values[j] == e);
                if vm + (j - vi) < vlen {
                    assert(pending_wf(vs[vm + (j - vi)], s.values, s.keys));
                }
                assert(node_wf(e, vi, ki));
            }
            assert forall|j1: int, j2: int|
                child_values(parent).start <= j1 < j2 < child_values(parent).end && is_composite(
                    #[trigger] s2.values[j1],
                ) && is_composite(#[trigger] s2.values[j2]) && child_values(s2.values[j1]).start
                    < child_values(s2.values[j1]).end && child_values(s2.values[j2]).start
                    < child_values(s2.values[j2]).end implies child_values(s2.values[j1]).end
                <= child_values(s2.values[j2]).start by {
                let t1 = vm + (j1 - vi);
                let t2 = vm + (j2 - vi);
                assert(s2.values[j1] == vs[t1]);
                assert(s2.values[j2] == vs[t2]);
                if t2 < vlen {
                    assert(vs[t1] == s.vstack[t1] && vs[t2] == s.vstack[t2]);
                } else {
                    assert(vs[t2] == ctxv);
                    assert(vs[t1] == s.vstack[t1]);
                }
            }
            assert(pending_wf(parent, s2.values, s2.keys));
            assert forall|i: int|
                0 <= i < vm && is_composite(#[trigger] s2.vstack[i]) && is_composite(parent)
                    && child_values(s2.vstack[i]).start < child_values(s2.vstack[i]).end
                    && child_values(parent).start < child_values(parent).end implies child_values(
                s2.vstack[i],
            ).end <= child_values(parent).start by {
                assert(s2.vstack[i] == s.vstack[i]);
                assert(pending_wf(s.vstack[i], s.values, s.keys));
            }
            assert forall|i: int, j: int|
                0 <= i < j < vm && is_composite(s2.vstack[i]) && is_composite(s2.vstack[j])
                    && child_values(s2.vstack[i]).start < child_values(s2.vstack[i]).end
                    && child_values(s2.vstack[j]).start < child_values(s2.vstack[j]).end
                    implies child_values(#[trigger] s2.vstack[i]).end <= child_values(
                #[trigger] s2.vstack[j],
            ).start by {
                assert(s2.vstack[i] == s.vstack[i]);
                assert(s2.vstack[j] == s.vstack[j]);
            }
            assert(vstack_wf(s2));
            assert(inv(src, s2));
        },
        _ => {},
    }
}

/// A leaf token preserves the invariant.
#[verifier::rlimit(80)]
#[verifier::spinoff_prover]
proof fn lemma_leaf_inv(src: Seq<u8>, s: PState, tok: Token, sp: Span, v: crate::types::LeafValue)
    requires
        tok == Token::Leaf(v),
        inv(src, s),
        spec_lex(src, s.pos) == Lexed::Tok(tok, sp),
        s.pos <= sp.start < sp.end <= src.len(),
    ensures
        spec_step(src, s) matches StepOut::Next(s2) ==> inv(src, s2),
{
    let n = s.stack.len() as int;
    let vlen = s.vstack.len() as int;
    let klen = s.kstack.len() as int;
                if s.ctx is WaitingValue {
                    match spec_step(src, s) {
                        StepOut::Next(s2) => {
                            assert(pending_wf(ctx_node(s2.ctx), s2.values, s2.keys));
                            assert(vstack_wf(s2));
                            assert(marks_wf(s2));
                            assert(inv(src, s2));
                        },
                        _ => {},
                    }
                } else if s.ctx is WaitingKey && v is String {
                    match intern_spec(
                        src,
                        s.scratch,
                        s.interned,
                        sp.start as int,
                        sp.end as int,
                    ) {
                        Ok(t) => {
                            let a1 = sp.start + 1;
                            let b1 = sp.end - 1;
                            if a1 <= b1 {
                                crate::decode::lemma_decode_len(src, a1, b1);
                            }
                            assert(t.1.len() <= s.scratch.len() + (sp.end - sp.start));
                            assert(s.scratch.len() <= s.pos <= sp.start);
                            let d = decode_span(src, a1, b1)->Ok_0;
                            match spec_step(src, s) {
                                StepOut::Next(s2) => {
                                    assert(s2.scratch.len() <= s2.pos);
                                    assert(marks_wf(s2));
                                    assert(vstack_wf(s2));
                                    assert(s.scratch.len() <= s2.scratch.len());
                                    if s.interned.dom().contains(d) {
                                        assert(t.0 == s.interned[d]);
                                        assert(key_in_bounds(src, s.scratch, s.interned[d]));
                                        assert(s2.scratch == s.scratch);
                                        assert(key_in_bounds(src, s2.scratch, t.0));
                                    } else {
                                        lemma_lex_bounds(src, s.pos);
                                        assert(sp.start + 2 <= sp.end);
                                        if !has_escape(src, a1, b1) {
                                            assert(t.0.0.start == a1 as u32 && t.0.0.end == b1 as u32);
                                            assert(t.0.0.start <= t.0.0.end <= src.len());
                                        } else {
                                            assert(t.0.0.end as int == s.scratch.len());
                                            if t.0.0.end < t.0.0.start {
                                                assert(t.0.0.start as int == s2.scratch.len());
                                            } else {
                                                assert(t.0.0.end as int <= src.len());
                                            }
                                        }
                                        assert(key_in_bounds(src, s2.scratch, t.0));
                                        assert forall|dd: Seq<u8>| #[trigger]
                                            s2.interned.dom().contains(dd) implies key_in_bounds(
                                            src,
                                            s2.scratch,
                                            s2.interned[dd],
                                        ) by {
                                            if dd == d {
                                                assert(s2.interned[dd] == t.0);
                                            } else {
                                                assert(s.interned.dom().contains(dd));
                                                lemma_in_bounds_extend(
                                                    src,
                                                    s.scratch,
                                                    s2.scratch,
                                                    s.interned[dd],
                                                );
                                                assert(s2.interned[dd] == s.interned[dd]);
                                            }
                                        }
                                    }
                                    assert forall|t2: int|
                                        0 <= t2 < s2.kstack.len() implies key_in_bounds(
                                        src,
                                        s2.scratch,
                                        #[trigger] s2.kstack[t2],
                                    ) by {
                                        lemma_in_bounds_extend(
                                            src,
                                            s.scratch,
                                            s2.scratch,
                                            s.kstack[t2],
                                        );
                                    }
                                    assert forall|t2: int|
                                        0 <= t2 < s2.keys.len() implies key_in_bounds(
                                        src,
                                        s2.scratch,
                                        #[trigger] s2.keys[t2],
                                    ) by {
                                        lemma_in_bounds_extend(
                                            src,
                                            s.scratch,
                                            s2.scratch,
                                            s.keys[t2],
                                        );
                                    }
                                    assert(keys_wf(src, s2));
                                    assert(inv(src, s2));
                                },
                                _ => {},
                            }
                        },
                        Err(_) => {},
                    }
                }
}

/// An opening brace or bracket preserves the invariant.
#[verifier::rlimit(80)]
#[verifier::spinoff_prover]
proof fn lemma_open_inv(src: Seq<u8>, s: PState, tok: Token, sp: Span)
    requires
        tok == Token::OpenObject || tok == Token::OpenArray,
        inv(src, s),
        spec_lex(src, s.pos) == Lexed::Tok(tok, sp),
        s.pos <= sp.start < sp.end <= src.len(),
    ensures
        spec_step(src, s) matches StepOut::Next(s2) ==> inv(src, s2),
{
    let n = s.stack.len() as int;
    let vlen = s.vstack.len() as int;
    let klen = s.kstack.len() as int;
                if s.ctx is WaitingValue {
                    match spec_step(src, s) {
                        StepOut::Next(s2) => {
                            assert(s2.stack.len() == n + 1);
                            assert forall|i: int|
                                0 <= i < n + 1 implies (#[trigger] s2.stack[i]).vmark <= vnext(
                                s2,
                                i,
                            ) && s2.stack[i].kmark <= knext(s2, i) by {
                                if i < n {
                                    assert(s2.stack[i] == s.stack[i]);
                                    assert(s.stack[i].vmark <= vnext(s, i) && s.stack[i].kmark
                                        <= knext(s, i));
                                    if i + 1 < n {
                                        assert(s2.stack[i + 1] == s.stack[i + 1]);
                                    } else {
                                        assert(s2.stack[n].vmark == vlen && s2.stack[n].kmark
                                            == klen);
                                    }
                                } else {
                                    assert(s2.stack[i].vmark == vlen && s2.stack[i].kmark
                                        == klen);
                                }
                            }
                            assert forall|i: int|
                                0 <= i < n + 1 && (#[trigger] s2.stack[i]).kind
                                    is Array implies knext(s2, i) == s2.stack[i].kmark by {
                                if i < n {
                                    assert(s2.stack[i] == s.stack[i]);
                                    assert(knext(s, i) == s.stack[i].kmark);
                                    if i + 1 < n {
                                        assert(s2.stack[i + 1] == s.stack[i + 1]);
                                    } else {
                                        assert(s2.stack[n].kmark == klen);
                                    }
                                } else {
                                    assert(s2.stack[i].kmark == klen);
                                }
                            }
                            assert forall|i: int|
                                0 <= i < n && (#[trigger] s2.stack[i]).kind is Object implies
                                knext(s2, i) - s2.stack[i].kmark == vnext(s2, i)
                                    - s2.stack[i].vmark + 1 by {
                                assert(s2.stack[i] == s.stack[i]);
                                if i + 1 < n {
                                    assert(s2.stack[i + 1] == s.stack[i + 1]);
                                    assert(knext(s, i) - s.stack[i].kmark == vnext(s, i)
                                        - s.stack[i].vmark + 1);
                                } else {
                                    assert(s.stack[i] == s.stack.last());
                                    assert(knext(s, i) == klen && vnext(s, i) == vlen);
                                    assert(s2.stack[i + 1].kmark == klen && s2.stack[i
                                        + 1].vmark == vlen);
                                }
                            }
                            assert(marks_wf(s2));
                            assert(vstack_wf(s2));
                            assert(inv(src, s2));
                        },
                        _ => {},
                    }
                }
}

/// A closing brace preserves the invariant.
#[verifier::rlimit(80)]
#[verifier::spinoff_prover]
proof fn lemma_close_object_step_inv(src: Seq<u8>, s: PState, tok: Token, sp: Span)
    requires
        tok == Token::CloseObject,
        inv(src, s),
        spec_lex(src, s.pos) == Lexed::Tok(tok, sp),
        s.pos <= sp.start < sp.end <= src.len(),
    ensures
        spec_step(src, s) matches StepOut::Next(s2) ==> inv(src, s2),
{
    let n = s.stack.len() as int;
    let vlen = s.vstack.len() as int;
    let klen = s.kstack.len() as int;
                if n > 0 && s.stack.last().kind is Object {
                    if s.ctx is Value {
                        lemma_close_object_inv(src, s, sp);
                    } else if s.ctx is WaitingKey && vlen == s.stack.last().vmark as int {
                        match spec_step(src, s) {
                            StepOut::Next(s2) => {
                                let top = s.stack.last();
                                assert(s.stack[n - 1] == top);
                                assert(knext(s, n - 1) == klen);
                                assert(klen - top.kmark == vlen - top.vmark);
                                assert(klen == top.kmark as int);
                                assert forall|i: int|
                                    0 <= i < n - 1 implies (#[trigger] s2.stack[i]).vmark
                                    <= vnext(s2, i) && s2.stack[i].kmark <= knext(s2, i) by {
                                    assert(s2.stack[i] == s.stack[i]);
                                    assert(s.stack[i].vmark <= vnext(s, i) && s.stack[i].kmark
                                        <= knext(s, i));
                                    if i + 1 < n - 1 {
                                        assert(s2.stack[i + 1] == s.stack[i + 1]);
                                    } else {
                                        assert(vnext(s, i) == top.vmark as int && knext(s, i)
                                            == top.kmark as int);
                                    }
                                }
                                assert forall|i: int|
                                    0 <= i < n - 1 && (#[trigger] s2.stack[i]).kind
                                        is Array implies knext(s2, i) == s2.stack[i].kmark by {
                                    assert(s2.stack[i] == s.stack[i]);
                                    assert(knext(s, i) == s.stack[i].kmark);
                                    if i + 1 < n - 1 {
                                        assert(s2.stack[i + 1] == s.stack[i + 1]);
                                    } else {
                                        assert(knext(s, i) == top.kmark as int);
                                    }
                                }
                                assert forall|i: int|
                                    0 <= i < n - 2 && (#[trigger] s2.stack[i]).kind
                                        is Object implies knext(s2, i) - s2.stack[i].kmark
                                        == vnext(s2, i) - s2.stack[i].vmark + 1 by {
                                    assert(s2.stack[i] == s.stack[i]);
                                    assert(s2.stack[i + 1] == s.stack[i + 1]);
                                    assert(knext(s, i) - s.stack[i].kmark == vnext(s, i)
                                        - s.stack[i].vmark + 1);
                                }
                                if n - 1 > 0 {
                                    let j = n - 2;
                                    assert(s2.stack[j] == s.stack[j]);
                                    assert(vnext(s, j) == top.vmark as int && knext(s, j)
                                        == top.kmark as int);
                                    if s.stack[j].kind is Object {
                                        assert(knext(s, j) - s.stack[j].kmark == vnext(s, j)
                                            - s.stack[j].vmark + 1);
                                    } else {
                                        assert(knext(s, j) == s.stack[j].kmark);
                                    }
                                }
                                assert(marks_wf(s2));
                                assert(pending_wf(ctx_node(s2.ctx), s2.values, s2.keys));
                                assert(vstack_wf(s2));
                                assert(inv(src, s2));
                            },
                            _ => {},
                        }
                    }
                }
}

/// A closing bracket preserves the invariant.
#[verifier::rlimit(80)]
#[verifier::spinoff_prover]
proof fn lemma_close_array_step_inv(src: Seq<u8>, s: PState, tok: Token, sp: Span)
    requires
        tok == Token::CloseArray,
        inv(src, s),
        spec_lex(src, s.pos) == Lexed::Tok(tok, sp),
        s.pos <= sp.start < sp.end <= src.len(),
    ensures
        spec_step(src, s) matches StepOut::Next(s2) ==> inv(src, s2),
{
    let n = s.stack.len() as int;
    let vlen = s.vstack.len() as int;
    let klen = s.kstack.len() as int;
                if n > 0 && s.stack.last().kind is Array {
                    if s.ctx is Value {
                        lemma_close_array_inv(src, s, sp);
                    } else if s.ctx is WaitingValue && vlen == s.stack.last().vmark as int {
                        match spec_step(src, s) {
                            StepOut::Next(s2) => {
                                let top = s.stack.last();
                                assert(s.stack[n - 1] == top);
                                assert(knext(s, n - 1) == top.kmark);
                                assert(klen == top.kmark as int);
                                assert forall|i: int|
                                    0 <= i < n - 1 implies (#[trigger] s2.stack[i]).vmark
                                    <= vnext(s2, i) && s2.stack[i].kmark <= knext(s2, i) by {
                                    assert(s2.stack[i] == s.stack[i]);
                                    assert(s.stack[i].vmark <= vnext(s, i) && s.stack[i].kmark
                                        <= knext(s, i));
                                    if i + 1 < n - 1 {
                                        assert(s2.stack[i + 1] == s.stack[i + 1]);
                                    } else {
                                        assert(vnext(s, i) == top.vmark as int && knext(s, i)
                                            == top.kmark as int);
                                    }
                                }
                                assert forall|i: int|
                                    0 <= i < n - 1 && (#[trigger] s2.stack[i]).kind
                                        is Array implies knext(s2, i) == s2.stack[i].kmark by {
                                    assert(s2.stack[i] == s.stack[i]);
                                    assert(knext(s, i) == s.stack[i].kmark);
                                    if i + 1 < n - 1 {
                                        assert(s2.stack[i + 1] == s.stack[i + 1]);
                                    } else {
                                        assert(knext(s, i) == top.kmark as int);
                                    }
                                }
                                assert forall|i: int|
                                    0 <= i < n - 2 && (#[trigger] s2.stack[i]).kind
                                        is Object implies knext(s2, i) - s2.stack[i].kmark
                                        == vnext(s2, i) - s2.stack[i].vmark + 1 by {
                                    assert(s2.stack[i] == s.stack[i]);
                                    assert(s2.stack[i + 1] == s.stack[i + 1]);
                                    assert(knext(s, i) - s.stack[i].kmark == vnext(s, i)
                                        - s.stack[i].vmark + 1);
                                }
                                if n - 1 > 0 {
                                    let j = n - 2;
                                    assert(s2.stack[j] == s.stack[j]);
                                    assert(vnext(s, j) == top.vmark as int && knext(s, j)
                                        == top.kmark as int);
                                    if s.stack[j].kind is Object {
                                        assert(knext(s, j) - s.stack[j].kmark == vnext(s, j)
                                            - s.stack[j].vmark + 1);
                                    } else {
                                        assert(knext(s, j) == s.stack[j].kmark);
                                    }
                                }
                                assert(marks_wf(s2));
                                assert(pending_wf(ctx_node(s2.ctx), s2.values, s2.keys));
                                assert(vstack_wf(s2));
                                assert(inv(src, s2));
                            },
                            _ => {},
                        }
                    }
                }
}

/// A colon preserves the invariant.
#[verifier::rlimit(80)]
#[verifier::spinoff_prover]
proof fn lemma_colon_inv(src: Seq<u8>, s: PState, tok: Token, sp: Span)
    requires
        tok == Token::Colon,
        inv(src, s),
        spec_lex(src, s.pos) == Lexed::Tok(tok, sp),
        s.pos <= sp.start < sp.end <= src.len(),
    ensures
        spec_step(src, s) matches StepOut::Next(s2) ==> inv(src, s2),
{
    let n = s.stack.len() as int;
    let vlen = s.vstack.len() as int;
    let klen = s.kstack.len() as int;
                if s.ctx is Key && n > 0 && s.stack.last().kind is Object {
                    match spec_step(src, s) {
                        StepOut::Next(s2) => {
                            assert(s.stack[n - 1] == s.stack.last());
                            assert(klen - s.stack.last().kmark == vlen
                                - s.stack.last().vmark);
                            assert forall|i: int|
                                0 <= i < n implies (#[trigger] s2.stack[i]).vmark <= vnext(
                                s2,
                                i,
                            ) && s2.stack[i].kmark <= knext(s2, i) by {
                                assert(s2.stack[i] == s.stack[i]);
                                assert(s.stack[i].vmark <= vnext(s, i) && s.stack[i].kmark
                                    <= knext(s, i));
                                if i + 1 < n {
                                    assert(s2.stack[i + 1] == s.stack[i + 1]);
                                }
                            }
                            assert forall|i: int|
                                0 <= i < n && (#[trigger] s2.stack[i]).kind is Array implies
                                knext(s2, i) == s2.stack[i].kmark by {
                                assert(s2.stack[i] == s.stack[i]);
                                assert(knext(s, i) == s.stack[i].kmark);
                                if i + 1 < n {
                                    assert(s2.stack[i + 1] == s.stack[i + 1]);
                                }
                            }
                            assert forall|i: int|
                                0 <= i < n - 1 && (#[trigger] s2.stack[i]).kind is Object
                                    implies knext(s2, i) - s2.stack[i].kmark == vnext(s2, i)
                                    - s2.stack[i].vmark + 1 by {
                                assert(s2.stack[i] == s.stack[i]);
                                assert(s2.stack[i + 1] == s.stack[i + 1]);
                                assert(knext(s, i) - s.stack[i].kmark == vnext(s, i)
                                    - s.stack[i].vmark + 1);
                            }
                            assert(marks_wf(s2));
                            assert(vstack_wf(s2));
                            assert(inv(src, s2));
                        },
                        _ => {},
                    }
                }
}

/// A comma preserves the invariant.
#[verifier::rlimit(80)]
#[verifier::spinoff_prover]
proof fn lemma_comma_inv(src: Seq<u8>, s: PState, tok: Token, sp: Span)
    requires
        tok == Token::Comma,
        inv(src, s),
        spec_lex(src, s.pos) == Lexed::Tok(tok, sp),
        s.pos <= sp.start < sp.end <= src.len(),
    ensures
        spec_step(src, s) matches StepOut::Next(s2) ==> inv(src, s2),
{
    let n = s.stack.len() as int;
    let vlen = s.vstack.len() as int;
    let klen = s.kstack.len() as int;
                if s.ctx is Value && n > 0 {
                    match spec_step(src, s) {
                        StepOut::Next(s2) => {
                            let ctxv = ctx_node(s.ctx);
                            assert(s.stack[n - 1] == s.stack.last());
                            assert(s2.vstack == s.vstack.push(ctxv));
                            assert forall|i: int|
                                0 <= i < n implies (#[trigger] s2.stack[i]).vmark <= vnext(
                                s2,
                                i,
                            ) && s2.stack[i].kmark <= knext(s2, i) by {
                                assert(s2.stack[i] == s.stack[i]);
                                assert(s.stack[i].vmark <= vnext(s, i) && s.stack[i].kmark
                                    <= knext(s, i));
                                if i + 1 < n {
                                    assert(s2.stack[i + 1] == s.stack[i + 1]);
                                }
                            }
                            assert forall|i: int|
                                0 <= i < n && (#[trigger] s2.stack[i]).kind is Array implies
                                knext(s2, i) == s2.stack[i].kmark by {
                                assert(s2.stack[i] == s.stack[i]);
                                assert(knext(s, i) == s.stack[i].kmark);
                                if i + 1 < n {
                                    assert(s2.stack[i + 1] == s.stack[i + 1]);
                                } else {
                                    assert(s.stack.last().kind is Array);
                                    assert(knext(s, i) == klen);
                                }
                            }
                            assert forall|i: int|
                                0 <= i < n - 1 && (#[trigger] s2.stack[i]).kind is Object
                                    implies knext(s2, i) - s2.stack[i].kmark == vnext(s2, i)
                                    - s2.stack[i].vmark + 1 by {
                                assert(s2.stack[i] == s.stack[i]);
                                assert(s2.stack[i + 1] == s.stack[i + 1]);
                                assert(knext(s, i) - s.stack[i].kmark == vnext(s, i)
                                    - s.stack[i].vmark + 1);
                            }
                            assert(marks_wf(s2));
                            assert forall|i: int| 0 <= i < s2.vstack.len() implies pending_wf(
                                #[trigger] s2.vstack[i],
                                s2.values,
                                s2.keys,
                            ) by {
                                if i < vlen {
                                    assert(s2.vstack[i] == s.vstack[i]);
                                } else {
                                    assert(s2.vstack[i] == ctxv);
                                }
                            }
                            assert forall|i: int, j: int|
                                0 <= i < j < s2.vstack.len() && is_composite(s2.vstack[i])
                                    && is_composite(s2.vstack[j]) && child_values(
                                    s2.vstack[i],
                                ).start < child_values(s2.vstack[i]).end && child_values(
                                    s2.vstack[j],
                                ).start < child_values(s2.vstack[j]).end implies child_values(
                                #[trigger] s2.vstack[i],
                            ).end <= child_values(#[trigger] s2.vstack[j]).start by {
                                assert(s2.vstack[i] == s.vstack[i]);
                                if j < vlen {
                                    assert(s2.vstack[j] == s.vstack[j]);
                                } else {
                                    assert(s2.vstack[j] == ctxv);
                                }
                            }
                            assert(vstack_wf(s2));
                            assert(inv(src, s2));
                        },
                        _ => {},
                    }
                }
}

/// One transition preserves the machine invariant; an accepted root is a wf
/// pending node over the final arena.
pub proof fn lemma_step_inv(src: Seq<u8>, s: PState)
    requires
        inv(src, s),
    ensures
        spec_step(src, s) matches StepOut::Next(s2) ==> inv(src, s2),
        spec_step(src, s) matches StepOut::Done(v, s2) ==> inv(src, s2) && pending_wf(
            v,
            s2.values,
            s2.keys,
        ),
{
    lemma_lex_bounds(src, s.pos);
    match spec_lex(src, s.pos) {
        Lexed::End => {
            if s.ctx is Value && s.stack.len() == 0 {
                let v = ctx_node(s.ctx);
                assert(pending_wf(v, s.values, s.keys));
            }
        },
        Lexed::Failed(_) => {},
        Lexed::Tok(tok, sp) => {
            match tok {
                Token::Leaf(v) => lemma_leaf_inv(src, s, tok, sp, v),
                Token::OpenObject | Token::OpenArray => lemma_open_inv(src, s, tok, sp),
                Token::CloseObject => lemma_close_object_step_inv(src, s, tok, sp),
                Token::CloseArray => lemma_close_array_step_inv(src, s, tok, sp),
                Token::Colon => lemma_colon_inv(src, s, tok, sp),
                Token::Comma => lemma_comma_inv(src, s, tok, sp),
            }
        },
    }
}

} // verus!
