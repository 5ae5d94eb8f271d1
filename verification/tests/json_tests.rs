use mcp_server_conceal_core::json::{apply_pii_results, is_jsonrpc_protocol_message, pii_candidates, JsonValue};

fn s(x: &str) -> JsonValue {
    JsonValue::String(x.to_string())
}

fn obj(members: Vec<(&str, JsonValue)>) -> JsonValue {
    JsonValue::Object(members.into_iter().map(|(k, v)| (k.to_string(), v)).collect())
}

fn num(n: &str) -> JsonValue {
    JsonValue::Number(n.to_string())
}

#[test]
fn protocol_messages_are_recognised() {
    assert!(is_jsonrpc_protocol_message(&obj(vec![("protocolVersion", s("2024-11-05"))])));
    assert!(is_jsonrpc_protocol_message(&obj(vec![("capabilities", obj(vec![]))])));
    assert!(is_jsonrpc_protocol_message(&obj(vec![("id", num("1")), ("method", s("tools/list"))])));
    assert!(is_jsonrpc_protocol_message(&obj(vec![("id", num("1")), ("error", obj(vec![]))])));
    assert!(is_jsonrpc_protocol_message(&obj(vec![("id", num("1")), ("result", obj(vec![("tools", JsonValue::Array(vec![]))]))])));
    assert!(is_jsonrpc_protocol_message(&obj(vec![("id", num("1")), ("result", s("text"))])));
}

#[test]
fn user_data_messages_are_processed() {
    assert!(!is_jsonrpc_protocol_message(&obj(vec![("id", num("1")), ("method", s("tools/call"))])));
    assert!(!is_jsonrpc_protocol_message(&obj(vec![
        ("id", num("1")),
        ("result", obj(vec![("content", JsonValue::Array(vec![]))])),
    ])));
    assert!(!is_jsonrpc_protocol_message(&obj(vec![("method", s("notify"))])));
    assert!(!is_jsonrpc_protocol_message(&s("plain")));
}

#[test]
fn candidates_are_long_strings_in_document_order() {
    let v = obj(vec![
        ("a", s("short")),
        ("b", s(" ab ")),
        ("c", JsonValue::Array(vec![s("first item"), num("12345"), s("xyz")])),
        ("d", obj(vec![("e", s("nested value"))])),
        ("f", s("  abcd  ")),
    ]);
    let c = pii_candidates(&v);
    assert_eq!(c, vec!["short", "first item", "nested value", "  abcd  "]);
}

#[test]
fn results_replace_their_strings() {
    let mut v = obj(vec![
        ("a", s("john@example.com")),
        ("b", JsonValue::Array(vec![s("keep this"), s("Jane Doe here")])),
    ]);
    let results = vec![Some("fake@example.org".to_string()), None, Some("Mary Roe here".to_string())];
    assert!(apply_pii_results(&mut v, &results));
    assert_eq!(pii_candidates(&v), vec!["fake@example.org", "keep this", "Mary Roe here"]);
}

#[test]
fn identical_results_are_no_change() {
    let mut v = obj(vec![("a", s("same text"))]);
    assert!(!apply_pii_results(&mut v, &vec![Some("same text".to_string())]));
    assert!(!apply_pii_results(&mut v, &vec![None]));
    assert_eq!(pii_candidates(&v), vec!["same text"]);
}
