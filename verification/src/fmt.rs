//! The debug formatter: renders a parsed tree back to readable bytes,
//! resolving every child range and key handle against the arena. This is
//! the one place the library recurses on tree depth; the post-order layout
//! bounds that recursion by the node's own index in the value-vector.
//!
//! Shape: leaves print as their source bytes (`true`, `false`, `null`,
//! numbers and strings verbatim, quotes included); arrays as
//! `[v1, v2, ...]`; objects as `{"k1": v1, "k2": v2, ...}` with each key's
//! decoded bytes between plain quotes.

use vstd::prelude::*;
use crate::types::{
    Value, ValueKind, LeafValue, StringKey, node_wf, post_order, resolved_bytes,
};
use crate::arena::{Arena, resolve_slices};

verus! {

/// The rendering of a leaf node.
pub open spec fn render_leaf(src: Seq<u8>, v: Value, lv: LeafValue) -> Seq<u8> {
    match lv {
        LeafValue::Bool(b) => if b {
            seq![116u8, 114u8, 117u8, 101u8]
        } else {
            seq![102u8, 97u8, 108u8, 115u8, 101u8]
        },
        LeafValue::Null => seq![110u8, 117u8, 108u8, 108u8],
        LeafValue::Number => src.subrange(v.span.start as int, v.span.end as int),
        LeafValue::String => src.subrange(v.span.start as int, v.span.end as int),
    }
}

/// The rendering of one node whose children lie below index `b`.
pub open spec fn render(
    src: Seq<u8>,
    scratch: Seq<u8>,
    values: Seq<Value>,
    keys: Seq<StringKey>,
    v: Value,
    b: int,
) -> Seq<u8>
    decreases b, 1int, 0int,
{
    if b < 0 {
        Seq::empty()
    } else {
        match v.kind {
            ValueKind::Leaf(lv) => render_leaf(src, v, lv),
            ValueKind::Object(o) => seq![123u8] + render_fields(
                src,
                scratch,
                values,
                keys,
                o.keys.start as int,
                o.values.start as int,
                o.values.end - o.values.start,
                b,
            ) + seq![125u8],
            ValueKind::Array(a) => seq![91u8] + render_elems(
                src,
                scratch,
                values,
                keys,
                a.values.start as int,
                a.values.end as int,
                b,
            ) + seq![93u8],
        }
    }
}

/// The rendering of the array elements `values[lo..hi]`, comma-separated.
pub open spec fn render_elems(
    src: Seq<u8>,
    scratch: Seq<u8>,
    values: Seq<Value>,
    keys: Seq<StringKey>,
    lo: int,
    hi: int,
    b: int,
) -> Seq<u8>
    decreases b, 0int, hi - lo,
{
    if !(0 <= lo < hi && lo < b) {
        Seq::empty()
    } else {
        render(src, scratch, values, keys, values[lo], lo) + if lo + 1 < hi {
            seq![44u8, 32u8] + render_elems(src, scratch, values, keys, lo + 1, hi, b)
        } else {
            Seq::empty()
        }
    }
}

/// The rendering of `cnt` object fields, keys from `keys[klo..]` paired
/// with values from `values[vlo..]`, comma-separated.
pub open spec fn render_fields(
    src: Seq<u8>,
    scratch: Seq<u8>,
    values: Seq<Value>,
    keys: Seq<StringKey>,
    klo: int,
    vlo: int,
    cnt: int,
    b: int,
) -> Seq<u8>
    decreases b, 0int, cnt,
{
    if !(cnt > 0 && 0 <= klo < keys.len() && 0 <= vlo < b) {
        Seq::empty()
    } else {
        seq![34u8] + resolved_bytes(src, scratch, keys[klo]) + seq![34u8, 58u8, 32u8] + render(
            src,
            scratch,
            values,
            keys,
            values[vlo],
            vlo,
        ) + if cnt > 1 {
            seq![44u8, 32u8] + render_fields(src, scratch, values, keys, klo + 1, vlo + 1, cnt - 1, b)
        } else {
            Seq::empty()
        }
    }
}

/// Appends a borrowed byte run.
fn append_slice(out: &mut Vec<u8>, s: &[u8])
    ensures
        final(out)@ == old(out)@ + s@,
{
    let ghost o0 = out@;
    let n = s.len();
    let mut i: usize = 0;
    while i < n
        invariant
            i <= n,
            n == s@.len(),
            out@ == o0 + s@.subrange(0, i as int),
        decreases n - i,
    {
        out.push(s[i]);
        assert(out@ =~= o0 + s@.subrange(0, (i + 1) as int));
        i = i + 1;
    }
    assert(out@ =~= o0 + s@);
}

impl Arena {
    /// What a tree held by this arena needs so that every range and handle
    /// the renderer follows stays inside the arena.
    pub open spec fn renderable(&self) -> bool {
        &&& post_order(self.values@, self.keys@.len() as int)
        &&& self.keys_ok()
        &&& self.spans_ok()
    }

    fn write_value(&self, v: &Value, b: usize, out: &mut Vec<u8>)
        requires
            self.renderable(),
            node_wf(*v, b as int, self.keys@.len() as int),
            b <= self.values@.len(),
            v.span.start <= v.span.end <= self.src@.len(),
        ensures
            final(out)@ == old(out)@ + render(
                self.src@,
                self.scratch@,
                self.values@,
                self.keys@,
                *v,
                b as int,
            ),
        decreases b, 1int, 0int,
    {
        let ghost o0 = out@;
        match v.kind {
            ValueKind::Leaf(lv) => {
                match lv {
                    LeafValue::Bool(tv) => {
                        if tv {
                            out.push(116);
                            out.push(114);
                            out.push(117);
                            out.push(101);
                        } else {
                            out.push(102);
                            out.push(97);
                            out.push(108);
                            out.push(115);
                            out.push(101);
                        }
                        assert(out@ =~= o0 + render_leaf(self.src@, *v, lv));
                    },
                    LeafValue::Null => {
                        out.push(110);
                        out.push(117);
                        out.push(108);
                        out.push(108);
                        assert(out@ =~= o0 + render_leaf(self.src@, *v, lv));
                    },
                    LeafValue::Number | LeafValue::String => {
                        let s = vstd::slice::slice_subrange(
                            self.src.as_slice(),
                            v.span.start as usize,
                            v.span.end as usize,
                        );
                        append_slice(out, s);
                    },
                }
            },
            ValueKind::Object(o) => {
                out.push(123);
                self.write_fields(
                    o.keys.start as usize,
                    o.values.start as usize,
                    (o.values.end - o.values.start) as usize,
                    b,
                    out,
                );
                out.push(125);
                assert(out@ =~= o0 + render(
                    self.src@,
                    self.scratch@,
                    self.values@,
                    self.keys@,
                    *v,
                    b as int,
                ));
            },
            ValueKind::Array(a) => {
                out.push(91);
                self.write_elems(a.values.start as usize, a.values.end as usize, b, out);
                out.push(93);
                assert(out@ =~= o0 + render(
                    self.src@,
                    self.scratch@,
                    self.values@,
                    self.keys@,
                    *v,
                    b as int,
                ));
            },
        }
    }

    fn write_elems(&self, lo: usize, hi: usize, b: usize, out: &mut Vec<u8>)
        requires
            self.renderable(),
            hi <= b <= self.values@.len(),
        ensures
            final(out)@ == old(out)@ + render_elems(
                self.src@,
                self.scratch@,
                self.values@,
                self.keys@,
                lo as int,
                hi as int,
                b as int,
            ),
        decreases b, 0int, hi - lo,
    {
        if lo >= hi {
            return ;
        }
        let ghost o0 = out@;
        let child = self.values[lo];
        proof {
            assert(node_wf(self.values@[lo as int], lo as int, self.keys@.len() as int));
        }
        self.write_value(&child, lo, out);
        if lo + 1 < hi {
            out.push(44);
            out.push(32);
            let ghost o1 = out@;
            self.write_elems(lo + 1, hi, b, out);
            assert(out@ =~= o0 + render_elems(
                self.src@,
                self.scratch@,
                self.values@,
                self.keys@,
                lo as int,
                hi as int,
                b as int,
            ));
        } else {
            assert(out@ =~= o0 + render_elems(
                self.src@,
                self.scratch@,
                self.values@,
                self.keys@,
                lo as int,
                hi as int,
                b as int,
            ));
        }
    }

    fn write_fields(&self, klo: usize, vlo: usize, cnt: usize, b: usize, out: &mut Vec<u8>)
        requires
            self.renderable(),
            klo + cnt <= self.keys@.len(),
            vlo + cnt <= b <= self.values@.len(),
        ensures
            final(out)@ == old(out)@ + render_fields(
                self.src@,
                self.scratch@,
                self.values@,
                self.keys@,
                klo as int,
                vlo as int,
                cnt as int,
                b as int,
            ),
        decreases b, 0int, cnt,
    {
        if cnt == 0 {
            return ;
        }
        let kn = self.keys.len();
        proof {
            assert(self.keys@.len() == kn);
        }
        let ghost o0 = out@;
        out.push(34);
        let key = self.keys[klo];
        let ks = resolve_slices(self.src.as_slice(), self.scratch.as_slice(), &key);
        append_slice(out, ks);
        out.push(34);
        out.push(58);
        out.push(32);
        let child = self.values[vlo];
        proof {
            assert(node_wf(self.values@[vlo as int], vlo as int, self.keys@.len() as int));
        }
        self.write_value(&child, vlo, out);
        if cnt > 1 {
            out.push(44);
            out.push(32);
            self.write_fields(klo + 1, vlo + 1, cnt - 1, b, out);
            assert(out@ =~= o0 + render_fields(
                self.src@,
                self.scratch@,
                self.values@,
                self.keys@,
                klo as int,
                vlo as int,
                cnt as int,
                b as int,
            ));
        } else {
            assert(out@ =~= o0 + render_fields(
                self.src@,
                self.scratch@,
                self.values@,
                self.keys@,
                klo as int,
                vlo as int,
                cnt as int,
                b as int,
            ));
        }
    }

    /// Renders the tree rooted at `value` by walking the arena, resolving
    /// every key handle back to its decoded bytes.
    pub fn debug_fmt_value(&self, value: &Value) -> (out: Vec<u8>)
        requires
            self.renderable(),
            node_wf(*value, self.values@.len() as int, self.keys@.len() as int),
            value.span.start <= value.span.end <= self.src@.len(),
        ensures
            out@ == render(
                self.src@,
                self.scratch@,
                self.values@,
                self.keys@,
                *value,
                self.values@.len() as int,
            ),
    {
        let mut out: Vec<u8> = Vec::new();
        self.write_value(value, self.values.len(), &mut out);
        proof {
            assert(out@ =~= Seq::<u8>::empty() + out@);
        }
        out
    }
}

} // verus!
