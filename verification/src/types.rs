//! The data model: spans, leaf discriminants, tree nodes and key handles,
//! together with the spec-level well-formedness of a tree laid out in the
//! arena's flat side-vectors.

use vstd::prelude::*;

verus! {

/// A half-open `[start, end)` range of 32-bit byte offsets.
///
/// A `Span` either addresses the parsed source directly, or (only inside a
/// [`StringKey`]) the arena's scratch buffer under the reversed encoding:
/// `end >= start` addresses the source, `end < start` addresses the scratch,
/// reading from offset `end` to offset `start`.
#[derive(Clone, Copy, PartialEq, Eq, Hash, Debug, Structural)]
pub struct Span {
    pub start: u32,
    pub end: u32,
}

/// The four atomic value shapes. `Number` and `String` leaves keep their
/// bytes in the source; the enclosing [`Value`]'s span recovers them.
#[derive(Clone, Copy, PartialEq, Eq, Debug, Structural)]
pub enum LeafValue {
    Bool(bool),
    Null,
    Number,
    String,
}

/// An interned object key: one [`Span`] under the reversed-span encoding.
///
/// Within one arena, two keys with byte-equal decoded content are bitwise
/// equal, so the derived handle equality coincides with content equality.
#[derive(Clone, Copy, PartialEq, Eq, Hash, Debug, Structural)]
pub struct StringKey(pub Span);

/// An object node: two parallel index ranges into the arena's global
/// key-vector and value-vector. The ranges have equal length, one entry per
/// field.
#[derive(Clone, Copy, PartialEq, Eq, Debug, Structural)]
pub struct Object {
    pub keys: Span,
    pub values: Span,
}

/// An array node: one index range into the arena's global value-vector.
#[derive(Clone, Copy, PartialEq, Eq, Debug, Structural)]
pub struct Array {
    pub values: Span,
}

/// The discriminant of a parsed value.
#[derive(Clone, Copy, PartialEq, Eq, Debug, Structural)]
pub enum ValueKind {
    Leaf(LeafValue),
    Object(Object),
    Array(Array),
}

/// A parsed value: a kind plus the span covering every byte of the parsed
/// production, surrounding braces, brackets and quotes included.
#[derive(Clone, Copy, PartialEq, Eq, Debug, Structural)]
pub struct Value {
    pub span: Span,
    pub kind: ValueKind,
}

/// The bytes a key handle stands for: a subrange of the source when
/// `end >= start`, of the scratch (read from `end` to `start`) otherwise.
pub open spec fn resolved_bytes(src: Seq<u8>, scratch: Seq<u8>, k: StringKey) -> Seq<u8> {
    if k.0.end >= k.0.start {
        src.subrange(k.0.start as int, k.0.end as int)
    } else {
        scratch.subrange(k.0.end as int, k.0.start as int)
    }
}

/// The handle's range lies inside the buffer it addresses.
pub open spec fn key_in_bounds(src: Seq<u8>, scratch: Seq<u8>, k: StringKey) -> bool {
    if k.0.end >= k.0.start {
        k.0.end <= src.len()
    } else {
        k.0.start <= scratch.len()
    }
}

/// Whether a node has children ranges (object or array).
pub open spec fn is_composite(v: Value) -> bool {
    !(v.kind is Leaf)
}

/// The value-vector range of a composite node (the empty range for a leaf).
pub open spec fn child_values(v: Value) -> Span {
    match v.kind {
        ValueKind::Leaf(_) => Span { start: 0, end: 0 },
        ValueKind::Object(o) => o.values,
        ValueKind::Array(a) => a.values,
    }
}

/// The key-vector range of an object node (the empty range otherwise).
pub open spec fn child_keys(v: Value) -> Span {
    match v.kind {
        ValueKind::Leaf(_) => Span { start: 0, end: 0 },
        ValueKind::Object(o) => o.keys,
        ValueKind::Array(a) => Span { start: 0, end: 0 },
    }
}

/// A node's ranges are ordered and lie below the given bounds; an object's
/// two ranges have equal length.
pub open spec fn node_wf(v: Value, vbound: int, kbound: int) -> bool {
    match v.kind {
        ValueKind::Leaf(_) => true,
        ValueKind::Object(o) => {
            &&& o.values.start <= o.values.end <= vbound
            &&& o.keys.start <= o.keys.end <= kbound
            &&& o.values.end - o.values.start == o.keys.end - o.keys.start
        },
        ValueKind::Array(a) => a.values.start <= a.values.end <= vbound,
    }
}

/// Post-order layout of the value-vector: every node's children ranges lie
/// strictly before the node's own entry.
pub open spec fn post_order(values: Seq<Value>, kbound: int) -> bool {
    forall|i: int| 0 <= i < values.len() ==> node_wf(#[trigger] values[i], i, kbound)
}

/// Every child of a composite node closed (and so had its range assigned)
/// before the block holding the parent's children began: a child's own range
/// ends at or before the start of its parent's range.
pub open spec fn parent_after_children(values: Seq<Value>) -> bool {
    forall|i: int, j: int|
        0 <= i < values.len() && child_values(#[trigger] values[i]).start <= j
            < child_values(values[i]).end ==> child_values(#[trigger] values[j]).end
            <= child_values(values[i]).start
}

/// Within any node's children range the entries keep source order: an
/// earlier field's span ends at or before a later one's begins. Together
/// with the parallel key range this is the insertion-ordered reading of an
/// object: every field is kept, in source order, duplicates included.
pub open spec fn fields_in_order(values: Seq<Value>) -> bool {
    forall|i: int, j1: int, j2: int|
        0 <= i < values.len() && child_values(#[trigger] values[i]).start <= j1 < j2
            < child_values(values[i]).end ==> (#[trigger] values[j1]).span.end
            <= (#[trigger] values[j2]).span.start
}

/// Sibling children of one node have disjoint ranges, in index order (an
/// empty container's degenerate range takes no part).
pub open spec fn siblings_disjoint(values: Seq<Value>) -> bool {
    forall|i: int, j1: int, j2: int|
        0 <= i < values.len() && child_values(#[trigger] values[i]).start <= j1 < j2
            < child_values(values[i]).end && is_composite(#[trigger] values[j1]) && is_composite(
            #[trigger] values[j2],
        ) && child_values(values[j1]).start < child_values(values[j1]).end && child_values(
            values[j2],
        ).start < child_values(values[j2]).end ==> child_values(values[j1]).end <= child_values(
            values[j2],
        ).start
}

} // verus!
