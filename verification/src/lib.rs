//! An arena-based JSON parser for large, highly repetitive documents.
//!
//! The parser is strictly iterative (no recursion on input depth), stores the
//! whole document tree in two flat side-vectors owned by an [`Arena`], and
//! deduplicates object keys through an interner, so that equal key strings
//! share a single [`StringKey`] handle.

mod types;
mod lexer;
mod decode;
mod outside;
mod arena;
mod machine;
mod parser;
mod props;
mod fmt;

pub use types::{Span, LeafValue, Value, ValueKind, Object, Array, StringKey};
pub use lexer::{Token, Lexed};
pub use decode::EscapeError;
pub use arena::Arena;
pub use machine::{ContainerKind, OpenItem, ContextItem, ErrorKind};
pub use parser::{Error, ParserState, StepResult, step, parse, parse_cooperative, ParseSession, YIELD_AFTER};
