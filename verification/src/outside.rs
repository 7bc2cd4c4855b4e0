//! The library's border with the outside crates it builds on: the interner's
//! hash table (hashbrown, hashed with foldhash), the backslash scan (memchr)
//! and hex-digit decoding (hex). Each item's contract states what the called
//! crate's source shows; nothing else in the crate is taken on trust.

use vstd::prelude::*;
use core::hash::BuildHasher;
use crate::types::{StringKey, Span, key_in_bounds, resolved_bytes};
use crate::lexer::is_hex_digit;
use crate::decode::hex_val;

verus! {

/// The `(start, end)` pair a key handle is made of.
pub open spec fn handle_of(k: StringKey) -> (u32, u32) {
    (k.0.start, k.0.end)
}

/// The key handle a `(start, end)` pair stands for.
pub open spec fn key_of(p: (u32, u32)) -> StringKey {
    StringKey(Span { start: p.0, end: p.1 })
}

/// The key interner's hash table: a hashbrown `HashTable` of key handles,
/// probed by decoded content under caller-supplied closures, and a per-arena
/// seeded foldhash `RandomState`. Opaque to the verifier; its contents are
/// named by [`table_handles`].
#[verifier::external_body]
pub struct KeyTable {
    table: hashbrown::HashTable<StringKey>,
    hasher: foldhash::quality::RandomState,
}

/// The set of `(start, end)` handle pairs the table holds.
pub uninterp spec fn table_handles(t: &KeyTable) -> Set<(u32, u32)>;

/// The decoded key bytes each held handle was inserted under, by handle
/// pair: the bytes its stored hash was computed over.
pub uninterp spec fn table_bytes(t: &KeyTable) -> Map<(u32, u32), Seq<u8>>;

/// The empty insertion-bytes record.
pub open spec fn no_table_bytes() -> Map<(u32, u32), Seq<u8>> {
    Map::empty()
}

/// Relies on `hashbrown::HashTable::new` (an empty table) and
/// `foldhash::quality::RandomState::default` (a freshly seeded hasher).
#[verifier::external_body]
pub(crate) fn table_new() -> (t: KeyTable)
    ensures
        table_handles(&t) == Set::<(u32, u32)>::empty(),
        table_bytes(&t) == no_table_bytes(),
{
    KeyTable {
        table: hashbrown::HashTable::new(),
        hasher: foldhash::quality::RandomState::default(),
    }
}

/// Relies on `hashbrown::HashTable::is_empty`: true exactly when the table
/// holds no entries.
#[verifier::external_body]
pub(crate) fn table_is_empty(t: &KeyTable) -> (r: bool)
    ensures
        r == (table_handles(t) == Set::<(u32, u32)>::empty()),
{
    t.table.is_empty()
}

/// What a find-or-insert probe leaves behind: `r.1` says whether some held
/// handle already resolved to the probed bytes; on a hit that handle comes
/// back and the table is unchanged, on a miss `cand` comes back and joins
/// the held handles with the probed bytes recorded as its insertion bytes.
pub open spec fn find_or_insert_post(
    pre: Set<(u32, u32)>,
    post: Set<(u32, u32)>,
    bpre: Map<(u32, u32), Seq<u8>>,
    bpost: Map<(u32, u32), Seq<u8>>,
    src: Seq<u8>,
    scratch: Seq<u8>,
    probe: Seq<u8>,
    cand: StringKey,
    r: (StringKey, bool),
) -> bool {
    &&& r.1 == exists|p: (u32, u32)|
        #[trigger] pre.contains(p) && resolved_bytes(src, scratch, key_of(p)) == probe
    &&& r.1 ==> post == pre && bpost == bpre && pre.contains(handle_of(r.0)) && resolved_bytes(
        src,
        scratch,
        r.0,
    ) == probe
    &&& !r.1 ==> r.0 == cand && post == pre.insert(handle_of(cand)) && bpost == bpre.insert(
        handle_of(cand),
        probe,
    )
}

/// Looks the decoded key bytes `probe` up among the handles the table holds,
/// comparing by resolved content; on a miss, inserts `cand`. Returns the
/// handle found or inserted, and whether it was already present.
///
/// Relies on `hashbrown::HashTable::entry`: find-or-insert under a
/// caller-supplied equality closure and hash closure, returning `Occupied`
/// exactly when some held entry with the probed hash satisfies the equality
/// closure, and on `Vacant::insert` holding exactly the old entries plus
/// the new one. Hashes come from foldhash's `BuildHasher::hash_one` over
/// the resolved bytes; `entry` asks that each entry's stored hash equal
/// what the hasher closure returns for it, which the `requires` delivers:
/// every held handle must currently resolve to the bytes it was inserted
/// under, so probing with the hash of `probe` finds an equal-resolving
/// entry exactly when one is held.
#[verifier::external_body]
pub(crate) fn find_or_insert(
    t: &mut KeyTable,
    src: &[u8],
    scratch: &[u8],
    probe: &[u8],
    cand: StringKey,
) -> (r: (StringKey, bool))
    requires
        forall|p: (u32, u32)|
            table_handles(old(t)).contains(p) ==> key_in_bounds(src@, scratch@, key_of(p))
                && resolved_bytes(src@, scratch@, key_of(p)) == table_bytes(old(t))[p],
    ensures
        find_or_insert_post(
            table_handles(old(t)),
            table_handles(final(t)),
            table_bytes(old(t)),
            table_bytes(final(t)),
            src@,
            scratch@,
            probe@,
            cand,
            r,
        ),
{
    let KeyTable { table, hasher } = t;
    let hash = hasher.hash_one(probe);
    match table.entry(
        hash,
        |k: &StringKey| crate::arena::resolve_slices(src, scratch, k) == probe,
        |k: &StringKey| hasher.hash_one(crate::arena::resolve_slices(src, scratch, k)),
    ) {
        hashbrown::hash_table::Entry::Occupied(e) => (*e.get(), true),
        hashbrown::hash_table::Entry::Vacant(e) => {
            e.insert(cand);
            (cand, false)
        },
    }
}

/// Relies on `memchr::memchr`: the index of the first occurrence of `needle`
/// in `haystack`, or `None` when it does not occur.
pub assume_specification [ memchr::memchr ] (needle: u8, haystack: &[u8]) -> (r: Option<usize>)
    ensures
        match r {
            Some(i) => i < haystack@.len() && haystack@[i as int] == needle && forall|j: int|
                0 <= j < i ==> haystack@[j] != needle,
            None => forall|j: int| 0 <= j < haystack@.len() ==> haystack@[j] != needle,
        },
;

/// Relies on `hex::decode_to_slice`: four hex-digit bytes decode to two
/// bytes, high digit first in each pair; any non-hex byte is an error.
#[verifier::external_body]
pub(crate) fn hex4_decode(d: &[u8]) -> (r: Option<(u8, u8)>)
    requires
        d@.len() == 4,
    ensures
        match r {
            Some(p) => is_hex_digit(d@[0]) && is_hex_digit(d@[1]) && is_hex_digit(d@[2])
                && is_hex_digit(d@[3]) && p.0 == 16 * hex_val(d@[0]) + hex_val(d@[1]) && p.1 == 16
                * hex_val(d@[2]) + hex_val(d@[3]),
            None => !(is_hex_digit(d@[0]) && is_hex_digit(d@[1]) && is_hex_digit(d@[2])
                && is_hex_digit(d@[3])),
        },
{
    let mut out = [0u8;2];
    match hex::decode_to_slice(d, &mut out) {
        Ok(()) => Some((out[0], out[1])),
        Err(_) => None,
    }
}

} // verus!
