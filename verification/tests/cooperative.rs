//! The cooperative entry point: same results, byte-identical arenas, and
//! resumable sessions.

use sonny_jim::{parse, parse_cooperative, Arena, ParseSession, ValueKind, YIELD_AFTER};

fn assert_equivalent(input: &str) {
    let mut a1 = Arena::new(input);
    let mut a2 = Arena::new(input);
    let r1 = parse(&mut a1);
    let r2 = parse_cooperative(&mut a2);
    match (r1, r2) {
        (Ok(v1), Ok(v2)) => assert_eq!(v1, v2),
        (Err(e1), Err(e2)) => {
            assert_eq!(e1.kind, e2.kind);
            assert_eq!(e1.span, e2.span);
            assert_eq!(e1.stack, e2.stack);
            assert_eq!(e1.context, e2.context);
        },
        _ => panic!("one entry point accepted what the other refused"),
    }
    assert_eq!(a1.values, a2.values);
    assert_eq!(a1.keys, a2.keys);
    assert_eq!(a1.scratch, a2.scratch);
}

#[test]
fn cooperative_equivalence_small() {
    assert_equivalent("{\"a\": [1, true, null], \"b\\n\": {}}");
    assert_equivalent("[1,2,,3]");
    assert_equivalent("");
}

#[test]
fn cooperative_equivalence_beyond_one_budget() {
    // More than one yield's worth of tokens.
    let n = 3 * YIELD_AFTER;
    let mut input = String::from("[");
    for i in 0..n {
        if i > 0 {
            input.push(',');
        }
        input.push('1');
    }
    input.push(']');
    assert_equivalent(&input);
}

#[test]
fn session_resumes_across_slices() {
    let n = 2 * YIELD_AFTER;
    let mut input = String::from("[");
    for i in 0..n {
        if i > 0 {
            input.push(',');
        }
        input.push('0');
    }
    input.push(']');

    let mut arena = Arena::new(&input);
    let mut session = ParseSession::begin(&arena);
    let mut slices = 0usize;
    let v = loop {
        match session.run(&mut arena, YIELD_AFTER) {
            None => slices += 1,
            Some(r) => break r.unwrap(),
        }
    };
    // The parse could not finish inside one budget.
    assert!(slices >= 1);
    match v.kind {
        ValueKind::Array(a) => assert_eq!((a.values.end - a.values.start) as usize, n),
        _ => panic!("expected an array root"),
    }
}

#[test]
fn non_blocking() {
    let cool_factor = 1_000_000;

    let first_half = "[".repeat(cool_factor);
    let second_half = "]".repeat(cool_factor);
    let input = format!("{first_half}{second_half}");

    parse_cooperative(&mut Arena::new(&input)).unwrap();
}
