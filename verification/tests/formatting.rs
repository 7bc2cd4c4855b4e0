//! The debug formatter, and the two snapshot documents: a fragment of a
//! Kubernetes OpenAPI schema, checked structurally and through the
//! formatter's output.

use sonny_jim::{parse, Arena, StringKey, Value, ValueKind};

const SCHEMA: &str = r#"{
            "definitions": {
                "io.k8s.api.admissionregistration.v1.AuditAnnotation": {
                    "description": "AuditAnnotation describes how to produce an audit annotation for an API request.",
                    "properties": {
                        "key": {
                            "description": "key specifies the audit annotation key. The audit annotation keys of a ValidatingAdmissionPolicy must be unique. The key must be a qualified name ([A-Za-z0-9][-A-Za-z0-9_.]*) no more than 63 bytes in length.\n\nThe key is combined with the resource name of the ValidatingAdmissionPolicy to construct an audit annotation key: \"{ValidatingAdmissionPolicy name}/{key}\".\n\nIf an admission webhook uses the same resource name as this ValidatingAdmissionPolicy and the same audit annotation key, the annotation key will be identical. In this case, the first annotation written with the key will be included in the audit event and all subsequent annotations with the same key will be discarded.\n\nRequired.",
                            "type": "string"
                        },
                        "valueExpression": {
                            "description": "valueExpression represents the expression which is evaluated by CEL to produce an audit annotation value. The expression must evaluate to either a string or null value. If the expression evaluates to a string, the audit annotation is included with the string value. If the expression evaluates to null or empty string the audit annotation will be omitted. The valueExpression may be no longer than 5kb in length. If the result of the valueExpression is more than 10kb in length, it will be truncated to 10kb.\n\nIf multiple ValidatingAdmissionPolicyBinding resources match an API request, then the valueExpression will be evaluated for each binding. All unique values produced by the valueExpressions will be joined together in a comma-separated list.\n\nRequired.",
                            "type": "string"
                        }
                    },
                    "required": [
                        "key",
                        "valueExpression"
                    ],
                    "type": "object"
                }
            }
        }"#;

fn distinct_handles(keys: &[StringKey]) -> usize {
    let mut seen: Vec<StringKey> = Vec::new();
    for k in keys {
        if !seen.contains(k) {
            seen.push(*k);
        }
    }
    seen.len()
}

#[test]
fn fmt_snapshot() {
    let mut arena = Arena::new(SCHEMA);
    let value = parse(&mut arena).unwrap();
    let out = arena.debug_fmt_value(&value);
    let text = String::from_utf8(out).unwrap();
    assert!(text.starts_with("{\"definitions\": {\"io.k8s.api.admissionregistration.v1.AuditAnnotation\": {\"description\": "));
    assert!(text.ends_with("\"required\": [\"key\", \"valueExpression\"], \"type\": \"object\"}}}"));
}

#[test]
fn lib_snapshot() {
    let mut arena = Arena::new(SCHEMA);
    let parsed = parse(&mut arena).unwrap();
    // The root covers the trimmed input and is a one-field object.
    assert_eq!(parsed.span.start, 0);
    assert_eq!(parsed.span.end as usize, SCHEMA.len());
    let root = match parsed.kind {
        ValueKind::Object(o) => o,
        _ => panic!("expected an object root"),
    };
    assert_eq!(root.keys.end - root.keys.start, 1);
    assert_eq!(arena.resolve(&arena.keys[root.keys.start as usize]), b"definitions");
    // No key holds an escape, so nothing was copied to the scratch.
    assert!(arena.scratch.is_empty());
    // Twelve fields in all; repeated key strings share interned handles.
    assert_eq!(arena.keys.len(), 12);
    assert_eq!(distinct_handles(&arena.keys), 8);
    let descriptions: Vec<StringKey> = arena
        .keys
        .iter()
        .copied()
        .filter(|k| arena.resolve(k) == b"description")
        .collect();
    assert_eq!(descriptions.len(), 3);
    assert!(descriptions.iter().all(|k| *k == descriptions[0]));
}

#[test]
fn debug_format_small() {
    let mut arena = Arena::new("{\"a\": [1, true], \"b\\u0041\": \"x\"}");
    let value: Value = parse(&mut arena).unwrap();
    let out = arena.debug_fmt_value(&value);
    assert_eq!(out, b"{\"a\": [1, true], \"bA\": \"x\"}");
}

#[test]
fn debug_format_leaves() {
    for (input, expected) in [
        ("null", "null"),
        ("true", "true"),
        ("false", "false"),
        ("-12.5e+2", "-12.5e+2"),
        ("\"s\"", "\"s\""),
        ("[]", "[]"),
        ("{}", "{}"),
        ("[[], {}]", "[[], {}]"),
    ] {
        let mut arena = Arena::new(input);
        let value = parse(&mut arena).unwrap();
        let out = arena.debug_fmt_value(&value);
        assert_eq!(out, expected.as_bytes());
    }
}
