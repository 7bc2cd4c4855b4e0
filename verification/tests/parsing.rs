//! End-to-end parses of small documents: roots, spans and error reports.

use sonny_jim::{
    parse, Arena, ContainerKind, ContextItem, ErrorKind, LeafValue, Span, Value, ValueKind,
};

fn span(start: u32, end: u32) -> Span {
    Span { start, end }
}

#[test]
fn null_leaf_root() {
    let mut arena = Arena::new("null");
    let v = parse(&mut arena).unwrap();
    assert_eq!(v.kind, ValueKind::Leaf(LeafValue::Null));
    assert_eq!(v.span, span(0, 4));
}

#[test]
fn empty_array_root() {
    let mut arena = Arena::new("[]");
    let v = parse(&mut arena).unwrap();
    match v.kind {
        ValueKind::Array(a) => assert_eq!(a.values, span(0, 0)),
        _ => panic!("expected an array root"),
    }
    assert_eq!(v.span, span(0, 2));
    assert!(arena.values.is_empty());
}

#[test]
fn empty_object_root() {
    let mut arena = Arena::new("{}");
    let v = parse(&mut arena).unwrap();
    match v.kind {
        ValueKind::Object(o) => {
            assert_eq!(o.keys, span(0, 0));
            assert_eq!(o.values, span(0, 0));
        },
        _ => panic!("expected an object root"),
    }
    assert_eq!(v.span, span(0, 2));
    assert!(arena.values.is_empty());
    assert!(arena.keys.is_empty());
}

#[test]
fn leaves_and_numbers() {
    let mut arena = Arena::new("[true, false, 12.5e-3, \"hi\"]");
    let v = parse(&mut arena).unwrap();
    let a = match v.kind {
        ValueKind::Array(a) => a,
        _ => panic!("expected an array root"),
    };
    assert_eq!(a.values, span(0, 4));
    assert_eq!(arena.values[0].kind, ValueKind::Leaf(LeafValue::Bool(true)));
    assert_eq!(arena.values[1].kind, ValueKind::Leaf(LeafValue::Bool(false)));
    assert_eq!(arena.values[2].kind, ValueKind::Leaf(LeafValue::Number));
    assert_eq!(arena.values[2].span, span(14, 21));
    assert_eq!(arena.values[3].kind, ValueKind::Leaf(LeafValue::String));
    assert_eq!(arena.values[3].span, span(23, 27));
}

#[test]
fn root_span_trims_whitespace() {
    let mut arena = Arena::new("  [1, 2]  \n");
    let v = parse(&mut arena).unwrap();
    assert_eq!(v.span, span(2, 8));
}

#[test]
fn post_order_layout() {
    // Children land in the global vector before their parent's range is
    // assigned: every composite node's range ends at or before its index.
    let mut arena = Arena::new("[[1, [2]], {\"k\": [3]}, 4]");
    let v = parse(&mut arena).unwrap();
    for (i, node) in arena.values.iter().enumerate() {
        match node.kind {
            ValueKind::Object(ref o) => {
                assert!(o.values.start <= o.values.end);
                assert!((o.values.end as usize) <= i);
            },
            ValueKind::Array(ref a) => {
                assert!(a.values.start <= a.values.end);
                assert!((a.values.end as usize) <= i);
            },
            ValueKind::Leaf(_) => {},
        }
    }
    match v.kind {
        ValueKind::Array(a) => assert_eq!((a.values.end - a.values.start) as usize, 3),
        _ => panic!("expected an array root"),
    }
}

#[test]
fn double_comma_is_rejected() {
    let mut arena = Arena::new("[1,2,,3]");
    let e = parse(&mut arena).unwrap_err();
    assert_eq!(e.kind, ErrorKind::UnexpectedToken);
    assert_eq!(e.span, span(5, 6));
    assert_eq!(e.stack.len(), 1);
    assert_eq!(e.stack[0].kind, ContainerKind::Array);
}

#[test]
fn early_eof_in_object() {
    let mut arena = Arena::new("{");
    let e = parse(&mut arena).unwrap_err();
    assert_eq!(e.kind, ErrorKind::UnexpectedEof);
    assert_eq!(e.context, ContextItem::WaitingKey);
    assert_eq!(e.stack.len(), 1);
    assert_eq!(e.stack[0].kind, ContainerKind::Object);
    assert_eq!(e.span, span(1, 1));
}

#[test]
fn stray_byte_is_a_lexical_error() {
    let mut arena = Arena::new("[1, @]");
    let e = parse(&mut arena).unwrap_err();
    assert_eq!(e.kind, ErrorKind::LexicalError);
    assert_eq!(e.span, span(4, 5));
    assert_eq!(e.token, None);
}

#[test]
fn number_grammar_is_strict() {
    // A leading zero ends the number token, so "01" is two numbers in a row.
    let mut arena = Arena::new("01");
    let e = parse(&mut arena).unwrap_err();
    assert_eq!(e.kind, ErrorKind::UnexpectedToken);
    assert_eq!(e.span, span(1, 2));

    let mut arena = Arena::new("1.5e+3");
    let v = parse(&mut arena).unwrap();
    assert_eq!(v.kind, ValueKind::Leaf(LeafValue::Number));
    assert_eq!(v.span, span(0, 6));
}

#[test]
fn keyword_must_stand_alone() {
    // `true` lexes as a keyword; the trailing byte starts no token.
    let mut arena = Arena::new("truex");
    let e = parse(&mut arena).unwrap_err();
    assert_eq!(e.kind, ErrorKind::LexicalError);
    assert_eq!(e.span, span(4, 5));
}

#[test]
fn values_after_root_are_rejected() {
    let mut arena = Arena::new("null null");
    let e = parse(&mut arena).unwrap_err();
    assert_eq!(e.kind, ErrorKind::UnexpectedToken);
    assert_eq!(e.span, span(5, 9));
    match e.context {
        ContextItem::Value { span: sp, .. } => assert_eq!(sp, span(0, 4)),
        _ => panic!("the parser held a completed value"),
    }
}

#[test]
fn mismatched_close_is_rejected() {
    let mut arena = Arena::new("[1}");
    let e = parse(&mut arena).unwrap_err();
    assert_eq!(e.kind, ErrorKind::UnexpectedToken);
    assert_eq!(e.span, span(2, 3));

    let mut arena = Arena::new("]");
    let e = parse(&mut arena).unwrap_err();
    assert_eq!(e.kind, ErrorKind::UnexpectedToken);
    assert_eq!(e.span, span(0, 1));
}

#[test]
fn nested_object_tree() {
    let mut arena = Arena::new("{\"a\": {\"b\": [1, 2]}, \"c\": null}");
    let v = parse(&mut arena).unwrap();
    let root = match v.kind {
        ValueKind::Object(o) => o,
        _ => panic!("expected an object root"),
    };
    assert_eq!((root.keys.end - root.keys.start), 2);
    assert_eq!((root.values.end - root.values.start), 2);
    let ka = arena.keys[root.keys.start as usize];
    let kc = arena.keys[(root.keys.start + 1) as usize];
    assert_eq!(arena.resolve(&ka), b"a");
    assert_eq!(arena.resolve(&kc), b"c");
    let first: Value = arena.values[root.values.start as usize];
    match first.kind {
        ValueKind::Object(inner) => {
            assert_eq!((inner.values.end - inner.values.start), 1);
            let kb = arena.keys[inner.keys.start as usize];
            assert_eq!(arena.resolve(&kb), b"b");
        },
        _ => panic!("expected the nested object first"),
    }
}

#[test]
fn massive_stack() {
    let cool_factor = 1_000_000;

    let first_half = "[".repeat(cool_factor);
    let second_half = "]".repeat(cool_factor);
    let input = format!("{first_half}{second_half}");

    parse(&mut Arena::new(&input)).unwrap();
}
