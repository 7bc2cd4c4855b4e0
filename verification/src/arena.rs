//! The arena: owner of the source copy, the scratch buffer, the key
//! interner and the two flat side-vectors that hold every parsed node's
//! children. `intern_spec` is the interner's specification; `intern_string`
//! the verified implementation.

use vstd::prelude::*;
use vstd::slice::{slice_subrange, slice_to_vec};
use vstd::string::StringSliceAdditionalSpecFns;
use crate::types::{Span, StringKey, Value, Object, key_in_bounds, resolved_bytes};
use crate::outside::{
    KeyTable, table_new, table_handles, table_bytes, table_is_empty, find_or_insert, handle_of,
    key_of, hex4_decode,
};
use crate::decode::{
    EscapeError, decode_span, has_escape, utf8_encode, push_utf8, append_range,
    lemma_decode_plain, lemma_decode_concat, lemma_decode_len,
};

verus! {

/// The backing store of one parse: an owned copy of the source bytes, the
/// scratch holding decoded escape-containing keys, the interner, and the two
/// global side-vectors the tree's children ranges index into.
pub struct Arena {
    pub src: Vec<u8>,
    pub scratch: Vec<u8>,
    pub table: KeyTable,
    pub keys: Vec<StringKey>,
    pub values: Vec<Value>,
    /// Model of the interner: decoded key bytes to the minted handle.
    pub interned: Ghost<Map<Seq<u8>, StringKey>>,
}

impl Arena {
    /// The interner is consistent: every interned string's handle resolves,
    /// inside the current buffers, back to that string — which is also the
    /// string its table entry was inserted under — and the hash table holds
    /// exactly the interned handles.
    pub open spec fn wf(&self) -> bool {
        &&& self.src@.len() <= u32::MAX
        &&& self.scratch@.len() <= u32::MAX
        &&& forall|s: Seq<u8>| #[trigger]
            self.interned@.dom().contains(s) ==> key_in_bounds(
                self.src@,
                self.scratch@,
                self.interned@[s],
            ) && resolved_bytes(self.src@, self.scratch@, self.interned@[s]) == s && table_bytes(
                &self.table,
            )[handle_of(self.interned@[s])] == s
        &&& forall|p: (u32, u32)|
            #[trigger] table_handles(&self.table).contains(p) <==> exists|s: Seq<u8>|
                #[trigger] self.interned@.dom().contains(s) && handle_of(self.interned@[s]) == p
    }

    /// Every committed key handle addresses bytes inside the buffers.
    pub open spec fn keys_ok(&self) -> bool {
        forall|t: int|
            0 <= t < self.keys@.len() ==> key_in_bounds(
                self.src@,
                self.scratch@,
                #[trigger] self.keys@[t],
            )
    }

    /// Every committed node's span is an ordered range inside the source.
    pub open spec fn spans_ok(&self) -> bool {
        forall|i: int|
            0 <= i < self.values@.len() ==> (#[trigger] self.values@[i]).span.start
                <= self.values@[i].span.end <= self.src@.len()
    }

    /// An arena no parse has touched yet.
    pub open spec fn fresh(&self) -> bool {
        &&& self.scratch@.len() == 0
        &&& self.keys@.len() == 0
        &&& self.values@.len() == 0
        &&& self.interned@ === Map::<Seq<u8>, StringKey>::empty()
    }

    /// Creates an arena over a copy of `src`'s bytes.
    pub fn new(src: &str) -> (a: Arena)
        requires
            src.spec_bytes().len() <= u32::MAX,
        ensures
            a.wf(),
            a.fresh(),
            a.src@ == src.spec_bytes(),
    {
        let a = Arena {
            src: slice_to_vec(src.as_bytes()),
            scratch: Vec::new(),
            table: table_new(),
            keys: Vec::new(),
            values: Vec::new(),
            interned: Ghost(Map::empty()),
        };
        proof {
            assert forall|p: (u32, u32)| #[trigger]
                table_handles(&a.table).contains(p) <==> exists|s: Seq<u8>|
                    #[trigger] a.interned@.dom().contains(s) && handle_of(a.interned@[s]) == p by {
                assert(!table_handles(&a.table).contains(p));
                if exists|s: Seq<u8>|
                    #[trigger] a.interned@.dom().contains(s) && handle_of(a.interned@[s]) == p {
                    let s = choose|s: Seq<u8>|
                        #[trigger] a.interned@.dom().contains(s) && handle_of(a.interned@[s]) == p;
                    assert(false);
                }
            }
        }
        a
    }

    /// Whether no parse has touched this arena: the entry points ask for an
    /// untouched one, and this is the executable form of that question.
    pub fn is_fresh(&self) -> (r: bool)
        requires
            self.wf(),
        ensures
            r == self.fresh(),
    {
        let r = self.scratch.len() == 0 && self.keys.len() == 0 && self.values.len() == 0
            && table_is_empty(&self.table);
        proof {
            if table_handles(&self.table) == Set::<(u32, u32)>::empty() {
                // No handle held means nothing interned.
                if exists|s: Seq<u8>| self.interned@.dom().contains(s) {
                    let s = choose|s: Seq<u8>| self.interned@.dom().contains(s);
                    assert(table_handles(&self.table).contains(handle_of(self.interned@[s])));
                }
                assert(self.interned@ =~= Map::<Seq<u8>, StringKey>::empty());
            }
            if self.interned@ === Map::<Seq<u8>, StringKey>::empty() {
                assert forall|p: (u32, u32)| !table_handles(&self.table).contains(p) by {
                    if table_handles(&self.table).contains(p) {
                        let s = choose|s: Seq<u8>|
                            #[trigger] self.interned@.dom().contains(s) && handle_of(
                                self.interned@[s],
                            ) == p;
                    }
                }
                assert(table_handles(&self.table) =~= Set::<(u32, u32)>::empty());
            }
        }
        r
    }

    /// The bytes a key handle names: a slice of the source or of the scratch,
    /// valid as long as the arena is.
    pub fn resolve(&self, key: &StringKey) -> (r: &[u8])
        requires
            key_in_bounds(self.src@, self.scratch@, *key),
        ensures
            r@ == resolved_bytes(self.src@, self.scratch@, *key),
    {
        resolve_slices(self.src.as_slice(), self.scratch.as_slice(), key)
    }
}

/// Resolves a key handle against the two backing buffers under the
/// reversed-span encoding.
pub(crate) fn resolve_slices<'a>(src: &'a [u8], scratch: &'a [u8], k: &StringKey) -> (r: &'a [u8])
    requires
        key_in_bounds(src@, scratch@, *k),
    ensures
        r@ == resolved_bytes(src@, scratch@, *k),
{
    if k.0.end >= k.0.start {
        slice_subrange(src, k.0.start as usize, k.0.end as usize)
    } else {
        slice_subrange(scratch, k.0.end as usize, k.0.start as usize)
    }
}

/// The interner's transition on the raw key span `[a, b)` (quotes included):
/// decode the body; fail on a malformed escape; otherwise return the handle
/// already interned for the decoded bytes — leaving the scratch untouched —
/// or mint one, pointing into the source when no escape occurred and into
/// the scratch (which then grows by the decoded bytes) otherwise.
pub open spec fn intern_spec(
    src: Seq<u8>,
    scratch: Seq<u8>,
    interned: Map<Seq<u8>, StringKey>,
    a: int,
    b: int,
) -> Result<(StringKey, Seq<u8>, Map<Seq<u8>, StringKey>), EscapeError> {
    match decode_span(src, a + 1, b - 1) {
        Err(e) => Err(e),
        Ok(d) => if interned.dom().contains(d) {
            Ok((interned[d], scratch, interned))
        } else if !has_escape(src, a + 1, b - 1) {
            let k = StringKey(Span { start: (a + 1) as u32, end: (b - 1) as u32 });
            Ok((k, scratch, interned.insert(d, k)))
        } else {
            let k = StringKey(
                Span { start: (scratch.len() + d.len()) as u32, end: scratch.len() as u32 },
            );
            Ok((k, scratch + d, interned.insert(d, k)))
        },
    }
}

/// Growing the scratch moves no interned bytes: a handle valid for the old
/// scratch resolves to the same bytes in the extended one.
pub proof fn lemma_resolved_extend(src: Seq<u8>, scratch: Seq<u8>, ext: Seq<u8>, k: StringKey)
    requires
        key_in_bounds(src, scratch, k),
    ensures
        key_in_bounds(src, scratch + ext, k),
        resolved_bytes(src, scratch + ext, k) == resolved_bytes(src, scratch, k),
{
    if k.0.end < k.0.start {
        assert((scratch + ext).subrange(k.0.end as int, k.0.start as int) =~= scratch.subrange(
            k.0.end as int,
            k.0.start as int,
        ));
    }
}

/// A non-empty key body decodes to at least one byte.
proof fn lemma_decode_nonempty(src: Seq<u8>, i: int, end: int)
    requires
        0 <= i < end,
        decode_span(src, i, end) is Ok,
    ensures
        decode_span(src, i, end)->Ok_0.len() >= 1,
{
}

impl Arena {
    /// Interns the raw key at `[lo, hi)` (quotes included): decodes its
    /// escapes and returns the canonical handle for the decoded bytes, which
    /// is bitwise the same handle every byte-equal key of this arena gets.
    #[verifier::rlimit(100)]
    #[verifier::spinoff_prover]
    pub fn intern_string(&mut self, lo: u32, hi: u32) -> (r: Result<StringKey, EscapeError>)
        requires
            old(self).wf(),
            lo + 2 <= hi <= old(self).src@.len(),
            old(self).scratch@.len() + hi - lo <= u32::MAX,
        ensures
            final(self).wf(),
            final(self).src == old(self).src,
            final(self).keys == old(self).keys,
            final(self).values == old(self).values,
            match intern_spec(
                old(self).src@,
                old(self).scratch@,
                old(self).interned@,
                lo as int,
                hi as int,
            ) {
                Ok(t) => r == Ok::<StringKey, EscapeError>(t.0) && final(self).scratch@ == t.1
                    && final(self).interned@ == t.2,
                Err(e) => r == Err::<StringKey, EscapeError>(e) && final(self).scratch@ == old(
                    self,
                ).scratch@ && final(self).interned@ == old(self).interned@,
            },
    {
        let ghost srcv0 = self.src;
        let ghost src0 = self.src@;
        let ghost scratch0 = self.scratch@;
        let ghost interned0 = self.interned@;
        let ghost table0 = self.table;
        let ghost keys0 = self.keys;
        let ghost values0 = self.values;
        let a1: usize = lo as usize + 1;
        let b1: usize = hi as usize - 1;
        let scratch_start = self.scratch.len();
        let mut cur: usize = a1;
        let mut seen = false;
        loop
            invariant
                old(self).wf(),
                srcv0 == old(self).src,
                src0 == old(self).src@,
                scratch0 == old(self).scratch@,
                interned0 == old(self).interned@,
                table0 == old(self).table,
                keys0 == old(self).keys,
                values0 == old(self).values,
                self.src == srcv0,
                self.src@ == src0,
                self.interned@ == interned0,
                self.table == table0,
                self.keys == keys0,
                self.values == values0,
                a1 <= cur <= b1 <= src0.len(),
                a1 == lo + 1,
                b1 == hi - 1,
                lo + 2 <= hi <= src0.len() <= u32::MAX,
                scratch_start == scratch0.len(),
                scratch0.len() + hi - lo <= u32::MAX,
                !seen ==> cur == a1 && self.scratch@ == scratch0,
                seen ==> has_escape(src0, a1 as int, cur as int) && decode_span(
                    src0,
                    a1 as int,
                    cur as int,
                ) is Ok && self.scratch@ == scratch0 + decode_span(
                    src0,
                    a1 as int,
                    cur as int,
                )->Ok_0,
                self.scratch@.len() <= scratch0.len() + cur - a1,
            ensures
                forall|j: int| cur <= j < b1 ==> src0[j] != 92,
            decreases b1 - cur,
        {
            let ghost pre = decode_span(src0, a1 as int, cur as int)->Ok_0;
            let hay = slice_subrange(self.src.as_slice(), cur, b1);
            match memchr::memchr(92u8, hay) {
                None => {
                    proof {
                        assert forall|j: int| cur <= j < b1 implies src0[j] != 92 by {
                            assert(hay@[j - cur] == src0[j]);
                        }
                    }
                    break;
                },
                Some(j) => {
                    let abs = cur + j;
                    proof {
                        assert(hay@[j as int] == src0[abs as int]);
                        assert forall|t: int| cur <= t < abs implies src0[t] != 92 by {
                            assert(hay@[t - cur] == src0[t]);
                        }
                    }
                    proof {
                        lemma_decode_plain(src0, cur as int, abs as int);
                        if !seen {
                            assert(decode_span(src0, a1 as int, cur as int) == Ok::<
                                Seq<u8>,
                                EscapeError,
                            >(Seq::empty()));
                        }
                        lemma_decode_concat(src0, a1 as int, cur as int, abs as int, pre);
                    }
                    let ghost run = src0.subrange(cur as int, abs as int);
                    append_range(&mut self.scratch, &self.src, cur, abs);
                    if b1 - abs < 2 {
                        self.scratch.truncate(scratch_start);
                        proof {
                            assert(self.scratch@ =~= scratch0);
                            lemma_decode_concat(src0, a1 as int, abs as int, b1 as int, pre + run);
                        }
                        return Err(EscapeError::InvalidEscape);
                    }
                    let c = self.src[abs + 1];
                    let ghost whole = decode_span(src0, a1 as int, abs as int)->Ok_0;
                    if c == 34 || c == 92 || c == 47 {
                        self.scratch.push(c);
                        proof {
                            assert(decode_span(src0, abs + 2, abs + 2) == Ok::<Seq<u8>, EscapeError>(Seq::empty()));
                            assert(decode_span(src0, abs as int, abs + 2) == Ok::<
                                Seq<u8>,
                                EscapeError,
                            >(seq![c] + Seq::empty()));
                            lemma_decode_concat(src0, a1 as int, abs as int, abs + 2, whole);
                            assert(seq![c] + Seq::<u8>::empty() =~= seq![c]);
                            assert(self.scratch@ =~= scratch0 + (whole + seq![c]));
                        }
                        cur = abs + 2;
                        seen = true;
                    } else if c == 98 || c == 102 || c == 110 || c == 114 || c == 116 {
                        let t: u8 = if c == 98 {
                            8
                        } else if c == 102 {
                            12
                        } else if c == 110 {
                            10
                        } else if c == 114 {
                            13
                        } else {
                            9
                        };
                        self.scratch.push(t);
                        proof {
                            assert(decode_span(src0, abs + 2, abs + 2) == Ok::<Seq<u8>, EscapeError>(Seq::empty()));
                            assert(decode_span(src0, abs as int, abs + 2) == Ok::<
                                Seq<u8>,
                                EscapeError,
                            >(seq![t] + Seq::empty()));
                            lemma_decode_concat(src0, a1 as int, abs as int, abs + 2, whole);
                            assert(seq![t] + Seq::<u8>::empty() =~= seq![t]);
                            assert(self.scratch@ =~= scratch0 + (whole + seq![t]));
                        }
                        cur = abs + 2;
                        seen = true;
                    } else if c == 117 {
                        if b1 - abs < 6 {
                            self.scratch.truncate(scratch_start);
                            proof {
                                assert(self.scratch@ =~= scratch0);
                                lemma_decode_concat(
                                    src0,
                                    a1 as int,
                                    abs as int,
                                    b1 as int,
                                    pre + run,
                                );
                            }
                            return Err(EscapeError::TruncatedUnicodeEscape);
                        }
                        let dsl = slice_subrange(self.src.as_slice(), abs + 2, abs + 6);
                        match hex4_decode(dsl) {
                            None => {
                                self.scratch.truncate(scratch_start);
                                proof {
                                    assert(self.scratch@ =~= scratch0);
                                    lemma_decode_concat(
                                        src0,
                                        a1 as int,
                                        abs as int,
                                        b1 as int,
                                        pre + run,
                                    );
                                }
                                return Err(EscapeError::TruncatedUnicodeEscape);
                            },
                            Some((hb, lb)) => {
                                let code: u32 = (hb as u32) * 256 + (lb as u32);
                                if 0xD800 <= code && code <= 0xDFFF {
                                    self.scratch.truncate(scratch_start);
                                    proof {
                                        assert(self.scratch@ =~= scratch0);
                                        lemma_decode_concat(
                                            src0,
                                            a1 as int,
                                            abs as int,
                                            b1 as int,
                                            pre + run,
                                        );
                                    }
                                    return Err(EscapeError::InvalidCodePoint);
                                }
                                push_utf8(&mut self.scratch, code);
                                proof {
                                    assert(dsl@[0] == src0[abs + 2]);
                                    assert(dsl@[1] == src0[abs + 3]);
                                    assert(dsl@[2] == src0[abs + 4]);
                                    assert(dsl@[3] == src0[abs + 5]);
                                    assert(code == 4096 * crate::decode::hex_val(src0[abs + 2]) + 256
                                        * crate::decode::hex_val(src0[abs + 3]) + 16
                                        * crate::decode::hex_val(src0[abs + 4]) + crate::decode::hex_val(
                                        src0[abs + 5],
                                    ));
                                    assert(decode_span(src0, abs + 6, abs + 6) == Ok::<Seq<u8>, EscapeError>(Seq::empty()));
                                    assert(decode_span(src0, abs as int, abs + 6) == Ok::<
                                        Seq<u8>,
                                        EscapeError,
                                    >(utf8_encode(code as int) + Seq::empty()));
                                    lemma_decode_concat(src0, a1 as int, abs as int, abs + 6, whole);
                                    assert(utf8_encode(code as int) + Seq::<u8>::empty()
                                        =~= utf8_encode(code as int));
                                    assert(self.scratch@ =~= scratch0 + (whole + utf8_encode(
                                        code as int,
                                    )));
                                }
                                cur = abs + 6;
                                seen = true;
                            },
                        }
                    } else {
                        self.scratch.truncate(scratch_start);
                        proof {
                            assert(self.scratch@ =~= scratch0);
                            lemma_decode_concat(src0, a1 as int, abs as int, b1 as int, pre + run);
                        }
                        return Err(EscapeError::InvalidEscape);
                    }
                },
            }
        }
        // No escape remains in [cur, b1): the tail is a literal run.
        proof {
            lemma_decode_plain(src0, cur as int, b1 as int);
            if !seen {
                assert(decode_span(src0, a1 as int, cur as int) == Ok::<Seq<u8>, EscapeError>(
                    Seq::empty(),
                ));
            }
            lemma_decode_concat(
                src0,
                a1 as int,
                cur as int,
                b1 as int,
                decode_span(src0, a1 as int, cur as int)->Ok_0,
            );
            lemma_decode_len(src0, a1 as int, b1 as int);
        }
        let ghost d = decode_span(src0, a1 as int, b1 as int)->Ok_0;
        proof {
            if !seen {
                assert(Seq::<u8>::empty() + src0.subrange(cur as int, b1 as int) =~= src0.subrange(
                    a1 as int,
                    b1 as int,
                ));
                if has_escape(src0, a1 as int, b1 as int) {
                    let j = choose|j: int| a1 <= j < b1 && src0[j] == 92;
                    assert(false);
                }
            }
        }
        let cand: StringKey;
        if seen {
            append_range(&mut self.scratch, &self.src, cur, b1);
            proof {
                assert(self.scratch@ =~= scratch0 + d);
                assert(has_escape(src0, a1 as int, b1 as int));
                lemma_decode_nonempty(src0, a1 as int, b1 as int);
            }
            cand = StringKey(
                Span { start: self.scratch.len() as u32, end: scratch_start as u32 },
            );
        } else {
            cand = StringKey(Span { start: a1 as u32, end: b1 as u32 });
        }
        let ghost scr = self.scratch@;
        proof {
            assert(key_in_bounds(src0, scr, cand));
            assert(resolved_bytes(src0, scr, cand) =~= d);
            assert forall|p: (u32, u32)|
                table_handles(&self.table).contains(p) implies key_in_bounds(
                src0,
                scr,
                key_of(p),
            ) && resolved_bytes(src0, scr, key_of(p)) == table_bytes(&self.table)[p] by {
                let s = choose|s: Seq<u8>|
                    #[trigger] interned0.dom().contains(s) && handle_of(interned0[s]) == p;
                assert(key_in_bounds(src0, scratch0, interned0[s]));
                assert(resolved_bytes(src0, scratch0, interned0[s]) == s);
                lemma_resolved_extend(src0, scratch0, scr.subrange(scratch0.len() as int, scr.len() as int), interned0[s]);
                assert(scratch0 + scr.subrange(scratch0.len() as int, scr.len() as int) =~= scr);
                assert(key_of(p) == interned0[s]);
                assert(table_bytes(&self.table)[p] == s);
            }
        }
        let probe: &[u8] = if seen {
            slice_subrange(self.scratch.as_slice(), scratch_start, self.scratch.len())
        } else {
            slice_subrange(self.src.as_slice(), a1, b1)
        };
        assert(probe@ =~= d);
        let (k, hit) = find_or_insert(
            &mut self.table,
            self.src.as_slice(),
            self.scratch.as_slice(),
            probe,
            cand,
        );
        proof {
            // Resolution of the interned handles is the same under the
            // (possibly extended) scratch as under the old one.
            assert forall|s: Seq<u8>| #[trigger] interned0.dom().contains(s) implies key_in_bounds(
                src0,
                scr,
                interned0[s],
            ) && resolved_bytes(src0, scr, interned0[s]) == s by {
                lemma_resolved_extend(src0, scratch0, scr.subrange(scratch0.len() as int, scr.len() as int), interned0[s]);
                assert(scratch0 + scr.subrange(scratch0.len() as int, scr.len() as int) =~= scr);
            }
        }
        if hit {
            self.scratch.truncate(scratch_start);
            proof {
                assert(self.scratch@ =~= scratch0);
                // The handle found is the one interned for `d`.
                let s2 = choose|s2: Seq<u8>|
                    #[trigger] interned0.dom().contains(s2) && handle_of(interned0[s2]) == handle_of(
                        k,
                    );
                assert(interned0[s2] == k);
                assert(resolved_bytes(src0, scr, k) == s2);
                assert(s2 == d);
                assert(interned0.dom().contains(d));
                assert(k == interned0[d]);
                assert(self.scratch@.len() <= u32::MAX);
                assert(table_bytes(&self.table) == table_bytes(&table0));
                assert forall|s: Seq<u8>| #[trigger]
                    self.interned@.dom().contains(s) implies key_in_bounds(
                    self.src@,
                    self.scratch@,
                    self.interned@[s],
                ) && resolved_bytes(self.src@, self.scratch@, self.interned@[s]) == s
                    && table_bytes(&self.table)[handle_of(self.interned@[s])] == s by {
                    assert(old(self).interned@.dom().contains(s));
                    assert(table_bytes(&old(self).table)[handle_of(interned0[s])] == s);
                }
                assert(table_handles(&self.table) == table_handles(&table0));
                assert forall|p: (u32, u32)|
                    #[trigger] table_handles(&self.table).contains(p) <==> exists|s: Seq<u8>|
                        #[trigger] self.interned@.dom().contains(s) && handle_of(self.interned@[s])
                            == p by {
                    if table_handles(&self.table).contains(p) {
                        assert(table_handles(&old(self).table).contains(p));
                        let s = choose|s: Seq<u8>|
                            #[trigger] old(self).interned@.dom().contains(s) && handle_of(
                                old(self).interned@[s],
                            ) == p;
                        assert(self.interned@.dom().contains(s) && handle_of(self.interned@[s])
                            == p);
                    }
                    if exists|s: Seq<u8>|
                        #[trigger] self.interned@.dom().contains(s) && handle_of(self.interned@[s])
                            == p {
                        let s = choose|s: Seq<u8>|
                            #[trigger] self.interned@.dom().contains(s) && handle_of(
                                self.interned@[s],
                            ) == p;
                        assert(old(self).interned@.dom().contains(s));
                        assert(table_handles(&old(self).table).contains(p));
                    }
                }
                assert(self.wf());
            }
            Ok(k)
        } else {
            proof {
                // `d` was not interned before.
                if interned0.dom().contains(d) {
                    assert(table_handles(&table0).contains(handle_of(interned0[d])));
                    assert(resolved_bytes(src0, scr, key_of(handle_of(interned0[d]))) == d);
                    assert(false);
                }
            }
            let ghost m1 = interned0.insert(d, cand);
            proof {
                self.interned = Ghost(m1);
            }
            proof {
                assert forall|s: Seq<u8>| #[trigger]
                    self.interned@.dom().contains(s) implies key_in_bounds(
                    self.src@,
                    self.scratch@,
                    self.interned@[s],
                ) && resolved_bytes(self.src@, self.scratch@, self.interned@[s]) == s
                    && table_bytes(&self.table)[handle_of(self.interned@[s])] == s by {
                    if s != d {
                        assert(interned0.dom().contains(s));
                        assert(key_in_bounds(src0, scr, interned0[s]) && resolved_bytes(
                            src0,
                            scr,
                            interned0[s],
                        ) == s);
                        assert(self.interned@[s] == interned0[s]);
                        // The fresh handle differs bitwise from every held
                        // one: equal bits would resolve equally, so the
                        // probed bytes would already be interned.
                        if handle_of(interned0[s]) == handle_of(cand) {
                            assert(interned0[s].0.start == cand.0.start && interned0[s].0.end
                                == cand.0.end);
                            assert(interned0[s] == cand);
                            assert(resolved_bytes(src0, scr, cand) == d);
                            assert(false);
                        }
                        assert(old(self).interned@.dom().contains(s));
                        assert(table_bytes(&old(self).table)[handle_of(interned0[s])] == s);
                        assert(table_bytes(&self.table)[handle_of(interned0[s])] == s);
                    } else {
                        assert(self.interned@[s] == cand);
                        assert(table_bytes(&self.table)[handle_of(cand)] == probe@);
                        assert(probe@ == d);
                    }
                }
                assert forall|p: (u32, u32)|
                    #[trigger] table_handles(&self.table).contains(p) <==> exists|s: Seq<u8>|
                        #[trigger] self.interned@.dom().contains(s) && handle_of(self.interned@[s])
                            == p by {
                    if table_handles(&self.table).contains(p) {
                        if p == handle_of(cand) {
                            assert(self.interned@.dom().contains(d) && handle_of(self.interned@[d])
                                == p);
                        } else {
                            assert(table_handles(&table0).contains(p));
                            let s = choose|s: Seq<u8>|
                                #[trigger] interned0.dom().contains(s) && handle_of(interned0[s])
                                    == p;
                            assert(self.interned@.dom().contains(s) && handle_of(
                                self.interned@[s],
                            ) == p);
                        }
                    }
                    if exists|s: Seq<u8>|
                        #[trigger] self.interned@.dom().contains(s) && handle_of(self.interned@[s])
                            == p {
                        let s = choose|s: Seq<u8>|
                            #[trigger] self.interned@.dom().contains(s) && handle_of(
                                self.interned@[s],
                            ) == p;
                        if s == d {
                            assert(table_handles(&self.table).contains(p));
                        } else {
                            assert(interned0.dom().contains(s));
                            assert(handle_of(interned0[s]) == p);
                            assert(table_handles(&table0).contains(p));
                            assert(table_handles(&self.table).contains(p));
                        }
                    }
                }
                assert(self.wf());
            }
            Ok(k)
        }
    }
}

/// The authoritative value for a decoded key among an object's fields: the
/// one paired with the key's last occurrence. An object's key range keeps
/// every field in insertion order, duplicates included; looking a key up
/// follows ordered-map semantics with last-write-wins on duplicates.
pub open spec fn spec_field_lookup(
    src: Seq<u8>,
    scratch: Seq<u8>,
    keys: Seq<StringKey>,
    values: Seq<Value>,
    ks: int,
    vs: int,
    cnt: int,
    q: Seq<u8>,
) -> Option<Value>
    decreases cnt,
{
    if cnt <= 0 {
        None
    } else if resolved_bytes(src, scratch, keys[ks + cnt - 1]) == q {
        Some(values[vs + cnt - 1])
    } else {
        spec_field_lookup(src, scratch, keys, values, ks, vs, cnt - 1, q)
    }
}

/// Byte-for-byte equality of two runs.
fn bytes_equal(a: &[u8], b: &[u8]) -> (r: bool)
    ensures
        r == (a@ == b@),
{
    let n = a.len();
    if n != b.len() {
        proof {
            if a@ == b@ {
                assert(a@.len() == b@.len());
            }
        }
        return false;
    }
    let mut i: usize = 0;
    while i < n
        invariant
            i <= n,
            n == a@.len() == b@.len(),
            forall|j: int| 0 <= j < i ==> a@[j] == b@[j],
        decreases n - i,
    {
        if a[i] != b[i] {
            proof {
                if a@ == b@ {
                    assert(a@[i as int] == b@[i as int]);
                }
            }
            return false;
        }
        i = i + 1;
    }
    proof {
        assert(a@ =~= b@);
    }
    true
}

impl Arena {
    /// The value of the object's field whose key decodes to `name`, or
    /// `None` when no field has that key. When a key repeats within the
    /// object, the last occurrence's paired value is the authoritative one.
    pub fn get_field(&self, o: &Object, name: &[u8]) -> (r: Option<Value>)
        requires
            self.keys_ok(),
            o.keys.start <= o.keys.end <= self.keys@.len(),
            o.values.start <= o.values.end <= self.values@.len(),
            o.keys.end - o.keys.start == o.values.end - o.values.start,
        ensures
            r == spec_field_lookup(
                self.src@,
                self.scratch@,
                self.keys@,
                self.values@,
                o.keys.start as int,
                o.values.start as int,
                o.keys.end - o.keys.start,
                name@,
            ),
    {
        let cnt = (o.keys.end - o.keys.start) as usize;
        let ks = o.keys.start as usize;
        let vs = o.values.start as usize;
        let kn = self.keys.len();
        let vn = self.values.len();
        let mut t = cnt;
        while t > 0
            invariant
                t <= cnt,
                self.keys_ok(),
                kn == self.keys@.len(),
                vn == self.values@.len(),
                ks + cnt <= self.keys@.len(),
                vs + cnt <= self.values@.len(),
                ks == o.keys.start && vs == o.values.start,
                cnt == o.keys.end - o.keys.start,
                spec_field_lookup(
                    self.src@,
                    self.scratch@,
                    self.keys@,
                    self.values@,
                    ks as int,
                    vs as int,
                    cnt as int,
                    name@,
                ) == spec_field_lookup(
                    self.src@,
                    self.scratch@,
                    self.keys@,
                    self.values@,
                    ks as int,
                    vs as int,
                    t as int,
                    name@,
                ),
            decreases t,
        {
            t = t - 1;
            let k = self.keys[ks + t];
            let kb = resolve_slices(self.src.as_slice(), self.scratch.as_slice(), &k);
            if bytes_equal(kb, name) {
                return Some(self.values[vs + t]);
            }
        }
        None
    }
}

} // verus!
