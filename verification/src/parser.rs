//! The executable parser: a strictly iterative recognizer driven one token
//! at a time, verified against the spec machine of [`crate::machine`]. Both
//! entry points — the synchronous [`parse`] and the budgeted, resumable
//! [`ParseSession`] behind [`parse_cooperative`] — share [`step`], and both
//! are specified to return exactly `spec_parse` of the source.

use vstd::prelude::*;
use crate::types::{
    Span, Value, ValueKind, Object, StringKey, LeafValue, node_wf, post_order,
    parent_after_children, siblings_disjoint, fields_in_order,
};
use crate::lexer::{Token, Lexed, lex_next, lemma_lex_bounds};
use crate::decode::EscapeError;
use crate::arena::Arena;
use crate::machine::{
    ContainerKind, OpenItem, ContextItem, ErrorKind, escape_kind, PState, ErrModel, StepOut,
    RunOut, spec_step, spec_run, spec_parse, init_state, inv, steps_within, pending_wf,
    lemma_step_inv, lemma_step_advances, lemma_steps_extend,
};

verus! {

/// A terminal parse failure: its kind, the offending token if any, the
/// failing span, the open-container stack and the context at failure.
#[derive(Clone, Debug)]
pub struct Error {
    pub kind: ErrorKind,
    pub token: Option<Token>,
    pub span: Span,
    pub stack: Vec<OpenItem>,
    pub context: ContextItem,
}

impl Error {
    /// The error carries exactly what the machine's failure records.
    pub open spec fn agrees(&self, m: ErrModel) -> bool {
        &&& self.kind == m.kind
        &&& self.token == m.token
        &&& self.span == m.span
        &&& self.stack@ == m.stack
        &&& self.context == m.context
    }
}

/// The in-progress parser: scanner position, the open-container stack, the
/// two working stacks and the context.
pub struct ParserState {
    pub pos: usize,
    pub stack: Vec<OpenItem>,
    pub value_stack: Vec<Value>,
    pub key_stack: Vec<StringKey>,
    pub context: ContextItem,
}

/// The machine state an arena and a parser state stand for.
pub open spec fn abs_state(arena: Arena, st: ParserState) -> PState {
    PState {
        pos: st.pos as int,
        stack: st.stack@,
        vstack: st.value_stack@,
        kstack: st.key_stack@,
        ctx: st.context,
        values: arena.values@,
        keys: arena.keys@,
        scratch: arena.scratch@,
        interned: arena.interned@,
    }
}

/// The arena holds exactly the machine state's arena-owned parts.
pub open spec fn same_arena(a: Arena, s: PState) -> bool {
    &&& a.values@ == s.values
    &&& a.keys@ == s.keys
    &&& a.scratch@ == s.scratch
    &&& a.interned@ == s.interned
}

/// The outcome of one executable step.
pub enum StepResult {
    Progress,
    Done(Value),
    Failed(Error),
}

/// Moves the tail `stk[mark..]` onto the end of `dst`, in order.
fn move_tail<T: Copy>(dst: &mut Vec<T>, stk: &mut Vec<T>, mark: usize)
    requires
        mark <= old(stk)@.len(),
    ensures
        final(dst)@ == old(dst)@ + old(stk)@.subrange(mark as int, old(stk)@.len() as int),
        final(stk)@ == old(stk)@.subrange(0, mark as int),
{
    let ghost d0 = dst@;
    let ghost s0 = stk@;
    let n = stk.len();
    let mut i = mark;
    while i < n
        invariant
            mark <= i <= n,
            n == stk@.len(),
            stk@ == s0,
            dst@ == d0 + s0.subrange(mark as int, i as int),
        decreases n - i,
    {
        dst.push(stk[i]);
        assert(dst@ =~= d0 + s0.subrange(mark as int, (i + 1) as int));
        i = i + 1;
    }
    stk.truncate(mark);
    assert(dst@ =~= d0 + s0.subrange(mark as int, s0.len() as int));
}

/// Empties the open-container stack into the error being built.
fn take_stack(st: &mut ParserState) -> (stk: Vec<OpenItem>)
    ensures
        stk@ == old(st).stack@,
        final(st).stack@ == Seq::<OpenItem>::empty(),
        final(st).pos == old(st).pos,
        final(st).value_stack == old(st).value_stack,
        final(st).key_stack == old(st).key_stack,
        final(st).context == old(st).context,
{
    let mut stk: Vec<OpenItem> = Vec::new();
    core::mem::swap(&mut stk, &mut st.stack);
    proof {
        assert(st.stack@ =~= Seq::<OpenItem>::empty());
    }
    stk
}

/// Builds the grammar-violation error the machine records for `tok` here.
fn fail_token(st: &mut ParserState, tok: Token, sp: Span) -> (e: Error)
    ensures
        e.kind == ErrorKind::UnexpectedToken,
        e.token == Some(tok),
        e.span == sp,
        e.stack@ == old(st).stack@,
        e.context == old(st).context,
        final(st).stack@ == Seq::<OpenItem>::empty(),
        final(st).context == old(st).context,
{
    let stack = take_stack(st);
    Error { kind: ErrorKind::UnexpectedToken, token: Some(tok), span: sp, stack, context: st.context }
}

/// The error kind an interner failure surfaces as.
fn escape_error_kind(e: EscapeError) -> (k: ErrorKind)
    ensures
        k == escape_kind(e),
{
    match e {
        EscapeError::InvalidEscape => ErrorKind::InvalidEscape,
        EscapeError::TruncatedUnicodeEscape => ErrorKind::TruncatedUnicodeEscape,
        EscapeError::InvalidCodePoint => ErrorKind::InvalidCodePoint,
    }
}

/// Advances the parse by exactly one token, performing precisely the
/// machine's transition on the joint state of `arena` and `st`.
#[verifier::rlimit(100)]
#[verifier::spinoff_prover]
pub fn step(arena: &mut Arena, st: &mut ParserState) -> (r: StepResult)
    requires
        old(arena).wf(),
        inv(old(arena).src@, abs_state(*old(arena), *old(st))),
    ensures
        final(arena).wf(),
        final(arena).src == old(arena).src,
        match r {
            StepResult::Progress => spec_step(old(arena).src@, abs_state(*old(arena), *old(st)))
                == StepOut::Next(abs_state(*final(arena), *final(st))),
            StepResult::Done(v) => (match spec_step(
                old(arena).src@,
                abs_state(*old(arena), *old(st)),
            ) {
                StepOut::Done(v2, s2) => v2 == v && abs_state(*final(arena), *final(st)) == s2,
                _ => false,
            }),
            StepResult::Failed(e) => (match spec_step(
                old(arena).src@,
                abs_state(*old(arena), *old(st)),
            ) {
                StepOut::Fail(m, s2) => e.agrees(m) && same_arena(*final(arena), s2)
                    && final(st).stack@ == Seq::<OpenItem>::empty(),
                _ => false,
            }),
        },
{
    let ghost src0 = arena.src@;
    let ghost s0 = abs_state(*arena, *st);
    proof {
        lemma_lex_bounds(src0, s0.pos);
    }
    let n = arena.src.len();
    let (lx, npos) = lex_next(&arena.src, st.pos);
    match lx {
        Lexed::End => {
            if st.stack.len() == 0 {
                match st.context {
                    ContextItem::Value { span, kind } => {
                        st.pos = n;
                        return StepResult::Done(Value { span, kind });
                    },
                    _ => {},
                }
            }
            let stack = take_stack(st);
            StepResult::Failed(
                Error {
                    kind: ErrorKind::UnexpectedEof,
                    token: None,
                    span: Span { start: n as u32, end: n as u32 },
                    stack,
                    context: st.context,
                },
            )
        },
        Lexed::Failed(sp) => {
            let stack = take_stack(st);
            StepResult::Failed(
                Error {
                    kind: ErrorKind::LexicalError,
                    token: None,
                    span: sp,
                    stack,
                    context: st.context,
                },
            )
        },
        Lexed::Tok(tok, sp) => {
            st.pos = npos;
            match tok {
                Token::Leaf(v) => {
                    match st.context {
                        ContextItem::WaitingValue => {
                            st.context = ContextItem::Value { span: sp, kind: ValueKind::Leaf(v) };
                            StepResult::Progress
                        },
                        ContextItem::WaitingKey => {
                            if matches!(v, LeafValue::String) {
                                proof {
                                    assert(s0.scratch.len() <= s0.pos <= sp.start);
                                }
                                match arena.intern_string(sp.start, sp.end) {
                                    Ok(k) => {
                                        st.context = ContextItem::Key { span: sp, key: k };
                                        StepResult::Progress
                                    },
                                    Err(er) => {
                                        let kind = escape_error_kind(er);
                                        let stack = take_stack(st);
                                        StepResult::Failed(
                                            Error {
                                                kind,
                                                token: Some(tok),
                                                span: sp,
                                                stack,
                                                context: st.context,
                                            },
                                        )
                                    },
                                }
                            } else {
                                StepResult::Failed(fail_token(st, tok, sp))
                            }
                        },
                        _ => StepResult::Failed(fail_token(st, tok, sp)),
                    }
                },
                Token::OpenObject => {
                    match st.context {
                        ContextItem::WaitingValue => {
                            st.stack.push(
                                OpenItem {
                                    start: sp.start,
                                    vmark: st.value_stack.len() as u32,
                                    kmark: st.key_stack.len() as u32,
                                    kind: ContainerKind::Object,
                                },
                            );
                            st.context = ContextItem::WaitingKey;
                            StepResult::Progress
                        },
                        _ => StepResult::Failed(fail_token(st, tok, sp)),
                    }
                },
                Token::OpenArray => {
                    match st.context {
                        ContextItem::WaitingValue => {
                            st.stack.push(
                                OpenItem {
                                    start: sp.start,
                                    vmark: st.value_stack.len() as u32,
                                    kmark: st.key_stack.len() as u32,
                                    kind: ContainerKind::Array,
                                },
                            );
                            st.context = ContextItem::WaitingValue;
                            StepResult::Progress
                        },
                        _ => StepResult::Failed(fail_token(st, tok, sp)),
                    }
                },
                Token::CloseObject => {
                    if st.stack.len() == 0 {
                        return StepResult::Failed(fail_token(st, tok, sp));
                    }
                    let top = st.stack[st.stack.len() - 1];
                    if !matches!(top.kind, ContainerKind::Object) {
                        return StepResult::Failed(fail_token(st, tok, sp));
                    }
                    let full = Span { start: top.start, end: sp.end };
                    match st.context {
                        ContextItem::WaitingKey => {
                            if st.value_stack.len() == top.vmark as usize {
                                st.stack.pop();
                                st.context = ContextItem::Value {
                                    span: full,
                                    kind: ValueKind::Object(
                                        Object {
                                            keys: Span { start: 0, end: 0 },
                                            values: Span { start: 0, end: 0 },
                                        },
                                    ),
                                };
                                StepResult::Progress
                            } else {
                                StepResult::Failed(fail_token(st, tok, sp))
                            }
                        },
                        ContextItem::Value { span: vspan, kind: vkind } => {
                            proof {
                                assert(s0.stack[s0.stack.len() - 1] == top);
                                assert(top.vmark <= crate::machine::vnext(s0, s0.stack.len() - 1));
                                assert(top.kmark <= crate::machine::knext(s0, s0.stack.len() - 1));
                            }
                            st.value_stack.push(Value { span: vspan, kind: vkind });
                            let vi = arena.values.len();
                            move_tail(&mut arena.values, &mut st.value_stack, top.vmark as usize);
                            let vj = arena.values.len();
                            let ki = arena.keys.len();
                            move_tail(&mut arena.keys, &mut st.key_stack, top.kmark as usize);
                            let kj = arena.keys.len();
                            st.stack.pop();
                            proof {
                                assert(vj <= s0.pos + 1 && kj <= s0.pos + 1);
                            }
                            st.context = ContextItem::Value {
                                span: full,
                                kind: ValueKind::Object(
                                    Object {
                                        keys: Span { start: ki as u32, end: kj as u32 },
                                        values: Span { start: vi as u32, end: vj as u32 },
                                    },
                                ),
                            };
                            StepResult::Progress
                        },
                        _ => StepResult::Failed(fail_token(st, tok, sp)),
                    }
                },
                Token::CloseArray => {
                    if st.stack.len() == 0 {
                        return StepResult::Failed(fail_token(st, tok, sp));
                    }
                    let top = st.stack[st.stack.len() - 1];
                    if !matches!(top.kind, ContainerKind::Array) {
                        return StepResult::Failed(fail_token(st, tok, sp));
                    }
                    let full = Span { start: top.start, end: sp.end };
                    match st.context {
                        ContextItem::WaitingValue => {
                            if st.value_stack.len() == top.vmark as usize {
                                st.stack.pop();
                                st.context = ContextItem::Value {
                                    span: full,
                                    kind: ValueKind::Array(
                                        crate::types::Array {
                                            values: Span { start: 0, end: 0 },
                                        },
                                    ),
                                };
                                StepResult::Progress
                            } else {
                                StepResult::Failed(fail_token(st, tok, sp))
                            }
                        },
                        ContextItem::Value { span: vspan, kind: vkind } => {
                            proof {
                                assert(s0.stack[s0.stack.len() - 1] == top);
                                assert(top.vmark <= crate::machine::vnext(s0, s0.stack.len() - 1));
                            }
                            st.value_stack.push(Value { span: vspan, kind: vkind });
                            let vi = arena.values.len();
                            move_tail(&mut arena.values, &mut st.value_stack, top.vmark as usize);
                            let vj = arena.values.len();
                            st.stack.pop();
                            proof {
                                assert(vj <= s0.pos + 1);
                            }
                            st.context = ContextItem::Value {
                                span: full,
                                kind: ValueKind::Array(
                                    crate::types::Array {
                                        values: Span { start: vi as u32, end: vj as u32 },
                                    },
                                ),
                            };
                            StepResult::Progress
                        },
                        _ => StepResult::Failed(fail_token(st, tok, sp)),
                    }
                },
                Token::Colon => {
                    match st.context {
                        ContextItem::Key { span: _, key } => {
                            if st.stack.len() > 0 {
                                let top = st.stack[st.stack.len() - 1];
                                if matches!(top.kind, ContainerKind::Object) {
                                    st.key_stack.push(key);
                                    st.context = ContextItem::WaitingValue;
                                    return StepResult::Progress;
                                }
                            }
                            StepResult::Failed(fail_token(st, tok, sp))
                        },
                        _ => StepResult::Failed(fail_token(st, tok, sp)),
                    }
                },
                Token::Comma => {
                    match st.context {
                        ContextItem::Value { span: vspan, kind: vkind } => {
                            if st.stack.len() > 0 {
                                st.value_stack.push(Value { span: vspan, kind: vkind });
                                let top = st.stack[st.stack.len() - 1];
                                if matches!(top.kind, ContainerKind::Object) {
                                    st.context = ContextItem::WaitingKey;
                                } else {
                                    st.context = ContextItem::WaitingValue;
                                }
                                return StepResult::Progress;
                            }
                            StepResult::Failed(fail_token(st, tok, sp))
                        },
                        _ => StepResult::Failed(fail_token(st, tok, sp)),
                    }
                },
            }
        },
    }
}

/// What the final arena and result of a run look like: exactly what the
/// machine run from the initial state yields.
pub open spec fn parse_post(src: Seq<u8>, a: Arena, r: Result<Value, Error>) -> bool {
    match spec_parse(src) {
        RunOut::RDone(v, s2) => r == Ok::<Value, Error>(v) && same_arena(a, s2),
        RunOut::RFail(m, s2) => (r matches Err(e) && e.agrees(m)) && same_arena(a, s2),
    }
}

/// Parses the arena's source to completion.
///
/// On success the returned root covers the whole trimmed input and the
/// arena's value-vector is laid out in post-order: every node's children
/// ranges lie strictly before the node's own entry, a parent's range starts
/// after all its children's ranges end, and sibling ranges are disjoint.
pub fn parse(arena: &mut Arena) -> (r: Result<Value, Error>)
    requires
        old(arena).wf(),
        old(arena).fresh(),
    ensures
        final(arena).wf(),
        final(arena).src == old(arena).src,
        parse_post(old(arena).src@, *final(arena), r),
        r matches Ok(v) ==> post_order(final(arena).values@, final(arena).keys@.len() as int)
            && parent_after_children(final(arena).values@) && siblings_disjoint(
            final(arena).values@,
        ) && fields_in_order(final(arena).values@) && node_wf(
            v,
            final(arena).values@.len() as int,
            final(arena).keys@.len() as int,
        ) && pending_wf(v, final(arena).values@, final(arena).keys@) && final(arena).keys_ok()
            && final(arena).spans_ok() && v.span.start <= v.span.end <= final(arena).src@.len(),
{
    let ghost src0 = arena.src@;
    let mut st = ParserState {
        pos: 0,
        stack: Vec::new(),
        value_stack: Vec::new(),
        key_stack: Vec::new(),
        context: ContextItem::WaitingValue,
    };
    proof {
        assert(st.stack@ =~= Seq::<OpenItem>::empty());
        assert(st.value_stack@ =~= Seq::<Value>::empty());
        assert(st.key_stack@ =~= Seq::<StringKey>::empty());
        assert(arena.values@ =~= Seq::<Value>::empty());
        assert(arena.keys@ =~= Seq::<StringKey>::empty());
        assert(arena.scratch@ =~= Seq::<u8>::empty());
        assert(arena.interned@ =~= Map::<Seq<u8>, StringKey>::empty());
        assert(abs_state(*arena, st) == init_state());
    }
    loop
        invariant
            arena.wf(),
            arena.src == old(arena).src,
            arena.src@ == src0,
            inv(src0, abs_state(*arena, st)),
            spec_run(src0, abs_state(*arena, st)) == spec_parse(src0),
        decreases src0.len() - st.pos,
    {
        let ghost pre = abs_state(*arena, st);
        proof {
            lemma_step_inv(src0, pre);
            lemma_step_advances(src0, pre);
        }
        match step(arena, &mut st) {
            StepResult::Progress => {
                proof {
                    assert(spec_run(src0, pre) == spec_run(src0, abs_state(*arena, st)));
                }
            },
            StepResult::Done(v) => {
                proof {
                    assert(spec_run(src0, pre) == RunOut::RDone(v, abs_state(*arena, st)));
                }
                return Ok(v);
            },
            StepResult::Failed(e) => {
                return Err(e);
            },
        }
    }
}

/// How many tokens one cooperative slice consumes before yielding.
pub const YIELD_AFTER: usize = 4096;

/// A suspended parse: the parser's full state between cooperative slices.
/// Dropping it abandons the parse with nothing else to clean up.
pub struct ParseSession {
    pub st: ParserState,
}

impl ParseSession {
    /// The session together with an arena stands for this machine state.
    pub open spec fn state(&self, arena: Arena) -> PState {
        abs_state(arena, self.st)
    }

    /// A session and arena over which `run` may be called: the joint state
    /// is a machine state the invariant accepts whose remaining run yields
    /// the same outcome as the whole parse.
    pub open spec fn valid(&self, arena: Arena) -> bool {
        &&& arena.wf()
        &&& inv(arena.src@, self.state(arena))
        &&& spec_run(arena.src@, self.state(arena)) == spec_parse(arena.src@)
    }

    /// Starts a parse over an untouched arena.
    pub fn begin(arena: &Arena) -> (s: ParseSession)
        requires
            arena.wf(),
            arena.fresh(),
        ensures
            s.valid(*arena),
            s.state(*arena) == init_state(),
    {
        let st = ParserState {
            pos: 0,
            stack: Vec::new(),
            value_stack: Vec::new(),
            key_stack: Vec::new(),
            context: ContextItem::WaitingValue,
        };
        let s = ParseSession { st };
        proof {
            assert(s.st.stack@ =~= Seq::<OpenItem>::empty());
            assert(s.st.value_stack@ =~= Seq::<Value>::empty());
            assert(s.st.key_stack@ =~= Seq::<StringKey>::empty());
            assert(arena.values@ =~= Seq::<Value>::empty());
            assert(arena.keys@ =~= Seq::<StringKey>::empty());
            assert(arena.scratch@ =~= Seq::<u8>::empty());
            assert(arena.interned@ =~= Map::<Seq<u8>, StringKey>::empty());
            assert(s.state(*arena) == init_state());
            crate::machine::lemma_step_advances(arena.src@, init_state());
        }
        s
    }

    /// Runs at most `budget` tokens, then yields: on `None` the machine has
    /// taken exactly `budget` transitions (so one poll consumes no more than
    /// its budget), the parse is unfinished and `run` must be called again;
    /// `Some` carries the same outcome the whole parse is specified to
    /// produce.
    pub fn run(&mut self, arena: &mut Arena, budget: usize) -> (r: Option<Result<Value, Error>>)
        requires
            budget >= 1,
            old(self).valid(*old(arena)),
        ensures
            final(arena).src == old(arena).src,
            match r {
                None => final(self).valid(*final(arena)) && final(self).st.pos > old(
                    self,
                ).st.pos && steps_within(
                    old(arena).src@,
                    old(self).state(*old(arena)),
                    final(self).state(*final(arena)),
                    budget as int,
                ),
                Some(res) => {
                    &&& final(arena).wf()
                    &&& parse_post(old(arena).src@, *final(arena), res)
                    &&& res matches Ok(v) ==> post_order(
                        final(arena).values@,
                        final(arena).keys@.len() as int,
                    ) && parent_after_children(final(arena).values@) && siblings_disjoint(
                        final(arena).values@,
                    ) && fields_in_order(final(arena).values@) && node_wf(
                        v,
                        final(arena).values@.len() as int,
                        final(arena).keys@.len() as int,
                    ) && pending_wf(v, final(arena).values@, final(arena).keys@)
                        && final(arena).keys_ok() && final(arena).spans_ok()
                        && v.span.start <= v.span.end <= final(arena).src@.len()
                },
            },
    {
        let ghost src0 = arena.src@;
        let ghost start = abs_state(*arena, self.st);
        let mut used: usize = 0;
        loop
            invariant
                used < budget,
                1 <= budget,
                arena.wf(),
                arena.src == old(arena).src,
                arena.src@ == src0,
                start == abs_state(*old(arena), old(self).st),
                inv(src0, abs_state(*arena, self.st)),
                spec_run(src0, abs_state(*arena, self.st)) == spec_parse(src0),
                steps_within(src0, start, abs_state(*arena, self.st), used as int),
                used > 0 ==> self.st.pos > old(self).st.pos,
                used == 0 ==> self.st.pos == old(self).st.pos,
            decreases budget - used,
        {
            let ghost pre = abs_state(*arena, self.st);
            proof {
                lemma_step_inv(src0, pre);
                lemma_step_advances(src0, pre);
            }
            match step(arena, &mut self.st) {
                StepResult::Progress => {
                    proof {
                        assert(spec_run(src0, pre) == spec_run(src0, abs_state(*arena, self.st)));
                        lemma_steps_extend(
                            src0,
                            start,
                            pre,
                            abs_state(*arena, self.st),
                            used as int,
                        );
                    }
                    used = used + 1;
                    if used >= budget {
                        return None;
                    }
                },
                StepResult::Done(v) => {
                    proof {
                        assert(spec_run(src0, pre) == RunOut::RDone(
                            v,
                            abs_state(*arena, self.st),
                        ));
                    }
                    return Some(Ok(v));
                },
                StepResult::Failed(e) => {
                    return Some(Err(e));
                },
            }
        }
    }
}

/// Parses the arena's source to completion in cooperative slices of
/// `YIELD_AFTER` tokens, through the same step function as [`parse`]: for
/// every input the two entry points are specified to return the same result
/// and leave byte-identical arenas.
pub fn parse_cooperative(arena: &mut Arena) -> (r: Result<Value, Error>)
    requires
        old(arena).wf(),
        old(arena).fresh(),
    ensures
        final(arena).wf(),
        final(arena).src == old(arena).src,
        parse_post(old(arena).src@, *final(arena), r),
        r matches Ok(v) ==> post_order(final(arena).values@, final(arena).keys@.len() as int)
            && parent_after_children(final(arena).values@) && siblings_disjoint(
            final(arena).values@,
        ) && fields_in_order(final(arena).values@) && node_wf(
            v,
            final(arena).values@.len() as int,
            final(arena).keys@.len() as int,
        ) && pending_wf(v, final(arena).values@, final(arena).keys@) && final(arena).keys_ok()
            && final(arena).spans_ok() && v.span.start <= v.span.end <= final(arena).src@.len(),
{
    let ghost src0 = arena.src@;
    let mut session = ParseSession::begin(arena);
    loop
        invariant
            arena.src == old(arena).src,
            arena.src@ == src0,
            session.valid(*arena),
        decreases src0.len() - session.st.pos,
    {
        proof {
            lemma_step_advances(src0, abs_state(*arena, session.st));
        }
        match session.run(arena, YIELD_AFTER) {
            Some(r) => {
                return r;
            },
            None => {},
        }
    }
}

} // verus!
