//! The key interner: deduplication, escape decoding, the scratch buffer and
//! the reversed-span encoding.

use sonny_jim::{parse, Arena, EscapeError, LeafValue, Span, ValueKind};

#[test]
fn duplicate_keys_share_one_handle() {
    let mut arena = Arena::new("{\"a\":1,\"a\":2}");
    let v = parse(&mut arena).unwrap();
    let o = match v.kind {
        ValueKind::Object(o) => o,
        _ => panic!("expected an object root"),
    };
    // Both fields are kept, in order, with the same interned handle.
    assert_eq!(o.keys.end - o.keys.start, 2);
    let k1 = arena.keys[o.keys.start as usize];
    let k2 = arena.keys[(o.keys.start + 1) as usize];
    assert_eq!(k1, k2);
    assert_eq!(arena.resolve(&k1), b"a");
    // The paired values keep their own spans: the numbers at [5,6) and [11,12).
    let v1 = arena.values[o.values.start as usize];
    let v2 = arena.values[(o.values.start + 1) as usize];
    assert_eq!(v1.kind, ValueKind::Leaf(LeafValue::Number));
    assert_eq!(v1.span, Span { start: 5, end: 6 });
    assert_eq!(v2.kind, ValueKind::Leaf(LeafValue::Number));
    assert_eq!(v2.span, Span { start: 11, end: 12 });
}

#[test]
fn equal_keys_across_nesting_share_one_handle() {
    let mut arena = Arena::new("{\"k\": {\"k\": 1}}");
    parse(&mut arena).unwrap();
    assert_eq!(arena.keys.len(), 2);
    assert_eq!(arena.keys[0], arena.keys[1]);
}

#[test]
fn escaped_and_plain_spellings_intern_alike() {
    // "\u006b" decodes to the same byte as "k", so the handles coincide.
    let mut arena = Arena::new("{\"k\":1,\"\\u006b\":2}");
    parse(&mut arena).unwrap();
    assert_eq!(arena.keys.len(), 2);
    assert_eq!(arena.keys[0], arena.keys[1]);
    assert_eq!(arena.resolve(&arena.keys[0]), b"k");
}

#[test]
fn unicode_escape_lands_in_scratch() {
    let mut arena = Arena::new("{\"\\u00e9\":true}");
    parse(&mut arena).unwrap();
    // The decoded key is the two-byte UTF-8 form of U+00E9.
    assert_eq!(arena.scratch, vec![0xC3, 0xA9]);
    let k = arena.keys[0];
    // The handle addresses the scratch under the reversed-span encoding.
    assert!(k.0.end < k.0.start);
    assert_eq!(arena.resolve(&k), [0xC3, 0xA9]);
}

#[test]
fn plain_key_reuses_the_source() {
    let mut arena = Arena::new("{\"abc\": 0}");
    parse(&mut arena).unwrap();
    assert!(arena.scratch.is_empty());
    let k = arena.keys[0];
    // An escape-free key's handle is the source range between its quotes.
    assert_eq!(k.0, Span { start: 2, end: 5 });
    assert_eq!(arena.resolve(&k), b"abc");
}

#[test]
fn duplicate_escaped_key_leaves_no_scratch_growth() {
    // The second decode of the same escaped key is truncated away.
    let mut arena = Arena::new("{\"\\n\":1,\"\\n\":2}");
    parse(&mut arena).unwrap();
    assert_eq!(arena.scratch, vec![b'\n']);
    assert_eq!(arena.keys.len(), 2);
    assert_eq!(arena.keys[0], arena.keys[1]);
}

#[test]
fn simple_escapes_decode() {
    let mut arena = Arena::new("{\"a\\\"b\\\\c\\/d\\b\\f\\n\\r\\t\":null}");
    parse(&mut arena).unwrap();
    let k = arena.keys[0];
    assert_eq!(arena.resolve(&k), b"a\"b\\c/d\x08\x0C\n\r\t");
}

#[test]
fn lone_surrogate_is_rejected() {
    let mut arena = Arena::new("{\"\\uD800\": 1}");
    let e = parse(&mut arena).unwrap_err();
    assert_eq!(e.kind, sonny_jim::ErrorKind::InvalidCodePoint);
    assert_eq!(e.span, Span { start: 1, end: 9 });
}

#[test]
fn intern_rejects_unknown_escape() {
    // Reached through the interner directly: the tokenizer would not let a
    // string with `\q` through, but the interner checks for itself.
    let mut arena = Arena::new("\"a\\qb\"");
    let r = arena.intern_string(0, 6);
    assert_eq!(r, Err(EscapeError::InvalidEscape));
    assert!(arena.scratch.is_empty());
}

#[test]
fn intern_rejects_truncated_unicode_escape() {
    let mut arena = Arena::new("\"\\u00\"");
    let r = arena.intern_string(0, 6);
    assert_eq!(r, Err(EscapeError::TruncatedUnicodeEscape));
    assert!(arena.scratch.is_empty());
}

#[test]
fn intern_decodes_hex_digits() {
    // Would fail if the hex decoding handed its argument back unchanged:
    // the four digits 0041 must become the single byte A.
    let mut arena = Arena::new("\"\\u0041\"");
    let k = arena.intern_string(0, 8).unwrap();
    assert_eq!(arena.resolve(&k), b"A");
}

#[test]
fn three_byte_code_point_decodes() {
    let mut arena = Arena::new("{\"\\u20AC\": 1}");
    parse(&mut arena).unwrap();
    // U+20AC encodes to three bytes.
    assert_eq!(arena.resolve(&arena.keys[0]), [0xE2, 0x82, 0xAC]);
}

#[test]
fn lookup_takes_the_last_duplicate() {
    // Ordered-map semantics: both fields are stored, the last one answers.
    let mut arena = Arena::new("{\"a\":1,\"a\":2,\"b\":3}");
    let v = parse(&mut arena).unwrap();
    let o = match v.kind {
        ValueKind::Object(o) => o,
        _ => panic!("expected an object root"),
    };
    let got = arena.get_field(&o, b"a").unwrap();
    assert_eq!(got.kind, ValueKind::Leaf(LeafValue::Number));
    assert_eq!(got.span, Span { start: 11, end: 12 });
    let gb = arena.get_field(&o, b"b").unwrap();
    assert_eq!(gb.span, Span { start: 17, end: 18 });
    assert_eq!(arena.get_field(&o, b"c"), None);
}

#[test]
fn fields_keep_source_order() {
    // Every field is kept, in source order, duplicates included.
    let mut arena = Arena::new("{\"b\":1,\"a\":2,\"b\":3}");
    let v = parse(&mut arena).unwrap();
    let o = match v.kind {
        ValueKind::Object(o) => o,
        _ => panic!("expected an object root"),
    };
    assert_eq!(o.keys.end - o.keys.start, 3);
    let names: Vec<&[u8]> = (o.keys.start..o.keys.end)
        .map(|t| arena.resolve(&arena.keys[t as usize]))
        .collect();
    assert_eq!(names, [b"b" as &[u8], b"a", b"b"]);
    for t in o.values.start..o.values.end - 1 {
        let here = arena.values[t as usize].span;
        let next = arena.values[(t + 1) as usize].span;
        assert!(here.end <= next.start);
    }
}
