use mcp_server_conceal_core::config::{AnonymizedEntity, DetectedEntity, DetectionMode, FakerConfig, MappingConfig};
use mcp_server_conceal_core::faker::FakerEngine;
use mcp_server_conceal_core::mapping::MappingStore;
use mcp_server_conceal_core::json::{get_field, JsonValue};
use mcp_server_conceal_core::server::{parse_error_reply_exec, McpServer, ServerStep};
use std::path::PathBuf;

fn conf(x: f64) -> u64 {
    let bits = x.to_bits();
    if x >= 0.0 {
        bits | (1u64 << 63)
    } else {
        !bits
    }
}

fn s(x: &str) -> JsonValue {
    JsonValue::String(x.to_string())
}

fn obj(members: Vec<(&str, JsonValue)>) -> JsonValue {
    JsonValue::Object(members.into_iter().map(|(k, v)| (k.to_string(), v)).collect())
}

fn num(n: &str) -> JsonValue {
    JsonValue::Number(n.to_string())
}

fn at<'a>(v: &'a JsonValue, path: &[&str]) -> &'a JsonValue {
    let mut cur = v;
    for k in path {
        cur = get_field(cur, k).unwrap_or_else(|| panic!("missing member {}", k));
    }
    cur
}

fn text_of(v: &JsonValue) -> String {
    match v {
        JsonValue::String(x) => x.clone(),
        other => panic!("not a string: {:?}", other),
    }
}

fn server(mode: DetectionMode) -> McpServer {
    McpServer::new(
        &FakerConfig { locale: "en_US".to_string(), seed: Some(42), consistency: true },
        MappingConfig { database_path: PathBuf::from("srv.db"), encryption: false, retention_days: None },
        mode,
        "test-model".to_string(),
    )
    .unwrap()
}

fn call(id: &str, tool: &str, text: Option<&str>) -> JsonValue {
    let mut params = vec![("name", s(tool))];
    if let Some(t) = text {
        params.push(("arguments", obj(vec![("text", s(t))])));
    }
    obj(vec![
        ("jsonrpc", s("2.0")),
        ("id", num(id)),
        ("method", s("tools/call")),
        ("params", obj(params)),
    ])
}

fn reply_text(step: ServerStep) -> String {
    match step {
        ServerStep::Reply(v) => match at(&v, &["result", "content"]) {
            JsonValue::Array(items) => text_of(at(&items[0], &["text"])),
            other => panic!("no content: {:?}", other),
        },
        ServerStep::Anonymize { .. } => panic!("unexpected anonymize step"),
    }
}

#[test]
fn initialize_reports_protocol_and_server() {
    let srv = server(DetectionMode::Regex);
    let msg = obj(vec![("jsonrpc", s("2.0")), ("id", num("1")), ("method", s("initialize"))]);
    match srv.handle_message(&msg) {
        ServerStep::Reply(v) => {
            assert_eq!(text_of(at(&v, &["jsonrpc"])), "2.0");
            assert!(matches!(at(&v, &["id"]), JsonValue::Number(n) if n == "1"));
            assert_eq!(text_of(at(&v, &["result", "protocolVersion"])), "2024-11-05");
            assert_eq!(text_of(at(&v, &["result", "serverInfo", "name"])), "mcp-server-conceal");
            assert_eq!(text_of(at(&v, &["result", "serverInfo", "version"])), "0.2.0");
            assert!(matches!(at(&v, &["result", "capabilities", "tools"]), JsonValue::Object(m) if m.is_empty()));
        },
        _ => panic!("expected a reply"),
    }
}

#[test]
fn initialized_notification_is_answered_with_null() {
    let srv = server(DetectionMode::Regex);
    let msg = obj(vec![("jsonrpc", s("2.0")), ("method", s("notifications/initialized"))]);
    assert!(matches!(srv.handle_message(&msg), ServerStep::Reply(JsonValue::Null)));
}

#[test]
fn tools_list_names_three_tools() {
    let srv = server(DetectionMode::Regex);
    let msg = obj(vec![("id", num("2")), ("method", s("tools/list"))]);
    match srv.handle_message(&msg) {
        ServerStep::Reply(v) => match at(&v, &["result", "tools"]) {
            JsonValue::Array(tools) => {
                let names: Vec<String> = tools.iter().map(|t| text_of(at(t, &["name"]))).collect();
                assert_eq!(names, vec!["privacy_anonymize", "privacy_deanonymize", "privacy_status"]);
                assert_eq!(text_of(at(&tools[0], &["inputSchema", "properties", "text", "type"])), "string");
            },
            other => panic!("no tools: {:?}", other),
        },
        _ => panic!("expected a reply"),
    }
}

#[test]
fn unknown_method_is_an_error() {
    let srv = server(DetectionMode::Regex);
    let msg = obj(vec![("id", num("3")), ("method", s("foo/bar"))]);
    match srv.handle_message(&msg) {
        ServerStep::Reply(v) => {
            assert!(matches!(at(&v, &["error", "code"]), JsonValue::Number(n) if n == "-32601"));
            assert_eq!(text_of(at(&v, &["error", "message"])), "Unknown method: foo/bar");
        },
        _ => panic!("expected a reply"),
    }
}

#[test]
fn message_without_method_or_id() {
    let srv = server(DetectionMode::Regex);
    match srv.handle_message(&JsonValue::Array(vec![])) {
        ServerStep::Reply(v) => {
            assert!(matches!(at(&v, &["id"]), JsonValue::Null));
            assert_eq!(text_of(at(&v, &["error", "message"])), "Unknown method: ");
        },
        _ => panic!("expected a reply"),
    }
}

#[test]
fn status_of_empty_store() {
    let srv = server(DetectionMode::Regex);
    assert_eq!(reply_text(srv.handle_message(&call("4", "privacy_status", None))), "Mappings: 0, Cache: 0, Types: {}");
}

#[test]
fn unknown_tool_is_named() {
    let srv = server(DetectionMode::Regex);
    assert_eq!(reply_text(srv.handle_message(&call("5", "nope", None))), "Unknown tool: nope");
}

#[test]
fn parse_error_reply_has_null_id() {
    let v = parse_error_reply_exec();
    assert!(matches!(at(&v, &["id"]), JsonValue::Null));
    assert!(matches!(at(&v, &["error", "code"]), JsonValue::Number(n) if n == "-32700"));
    assert_eq!(text_of(at(&v, &["error", "message"])), "Parse error");
}

#[test]
fn anonymize_call_round_trip() {
    let mut srv = server(DetectionMode::Regex);
    let step = srv.handle_message(&call("7", "privacy_anonymize", Some("email john@real.com")));
    let (id, text) = match step {
        ServerStep::Anonymize { id, text } => (id, text),
        _ => panic!("expected an anonymize step"),
    };
    assert_eq!(text, "email john@real.com");
    let detected = vec![DetectedEntity {
        entity_type: "email".to_string(),
        original_value: "john@real.com".to_string(),
        start: 6,
        end: 19,
        confidence: conf(0.95),
    }];
    let (reply, anons) = srv.finish_anonymize(id, &text, detected);
    assert_eq!(anons.len(), 1);
    let fake = anons[0].fake_value.clone();
    assert!(fake.contains('@'));
    assert_eq!(reply_text(ServerStep::Reply(reply)), format!("email {}", fake));

    let back = reply_text(srv.handle_message(&call("8", "privacy_deanonymize", Some(&format!("I emailed {}", fake)))));
    assert_eq!(back, "I emailed john@real.com");

    let status = reply_text(srv.handle_message(&call("9", "privacy_status", None)));
    assert_eq!(status, "Mappings: 1, Cache: 0, Types: {\"email\": 1}");
}

#[test]
fn anonymize_without_arguments_uses_empty_text() {
    let srv = server(DetectionMode::Regex);
    match srv.handle_message(&call("10", "privacy_anonymize", None)) {
        ServerStep::Anonymize { text, .. } => assert_eq!(text, ""),
        _ => panic!("expected an anonymize step"),
    }
}

#[test]
fn gather_by_mode() {
    let e = |v: &str| DetectedEntity {
        entity_type: "t".to_string(),
        original_value: v.to_string(),
        start: 0,
        end: 1,
        confidence: conf(0.5),
    };
    let mut srv = server(DetectionMode::Regex);
    let g = srv.gather_entities("x", vec![e("r")], true, Some(vec![e("l")]), Some(vec![e("n")])).unwrap();
    assert_eq!(g.len(), 1);

    let mut srv = server(DetectionMode::RegexNer);
    let g = srv.gather_entities("x", vec![e("r")], true, Some(vec![e("l")]), Some(vec![e("n")])).unwrap();
    let vals: Vec<String> = g.iter().map(|d| d.original_value.clone()).collect();
    assert_eq!(vals, vec!["r", "n"]);

    let mut srv = server(DetectionMode::RegexLlm);
    let g = srv.gather_entities("x", vec![e("r")], false, Some(vec![e("l")]), None).unwrap();
    assert_eq!(g.len(), 1);
    let g = srv.gather_entities("x", vec![e("r")], true, Some(vec![e("l")]), None).unwrap();
    let vals: Vec<String> = g.iter().map(|d| d.original_value.clone()).collect();
    assert_eq!(vals, vec!["r", "l"]);
    let g = srv.gather_entities("x", vec![], true, Some(vec![e("other")]), None).unwrap();
    let vals: Vec<String> = g.iter().map(|d| d.original_value.clone()).collect();
    assert_eq!(vals, vec!["l"]);

    let mut srv = server(DetectionMode::Llm);
    let g = srv.gather_entities("y", vec![e("r")], true, None, None).unwrap();
    assert!(g.is_empty());
    assert!(srv.mapping_store().get_llm_cache("y", "test-model").unwrap().unwrap().is_empty());
    let g = srv.gather_entities("z", vec![], false, Some(vec![e("l")]), None).unwrap();
    assert!(g.is_empty());
}

#[test]
fn empty_known_value_is_reported() {
    let mut srv = server(DetectionMode::Regex);
    assert!(srv.known_values_searchable());
    let (_, anons) = srv.finish_anonymize(
        JsonValue::Null,
        "x",
        vec![DetectedEntity {
            entity_type: "t".to_string(),
            original_value: "".to_string(),
            start: 0,
            end: 0,
            confidence: conf(0.5),
        }],
    );
    assert_eq!(anons.len(), 1);
    assert!(!srv.known_values_searchable());
}

#[test]
fn previously_seen_value_gets_its_stored_fake() {
    let mut store = MappingStore::new(MappingConfig {
        database_path: PathBuf::from("seen.db"),
        encryption: false,
        retention_days: None,
    })
    .unwrap();
    store
        .store_mapping(&AnonymizedEntity {
            entity_type: "person_name".to_string(),
            original_value: "Ann Lee".to_string(),
            fake_value: "Zed Q".to_string(),
            mapping_id: "m1".to_string(),
        })
        .unwrap();
    store.store_reverse_mapping("Zed Q", "Ann Lee").unwrap();
    let faker = FakerEngine::new(&FakerConfig { locale: "en_US".to_string(), seed: Some(1), consistency: true });
    let mut srv = McpServer::with_store(faker, store, DetectionMode::Regex, "m".to_string());
    let (reply, anons) = srv.finish_anonymize(num("1"), "Ann Lee met Ann Lee", vec![]);
    assert_eq!(reply_text(ServerStep::Reply(reply)), "Zed Q met Zed Q");
    assert_eq!(anons.len(), 2);
    assert_eq!(srv.mapping_store().get_mapping("person_name", "Ann Lee").unwrap(), Some("Zed Q".to_string()));
}
