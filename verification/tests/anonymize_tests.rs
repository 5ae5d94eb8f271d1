use mcp_server_conceal_core::anonymize::{anonymize_text, detect_known_entities, FULL_CONFIDENCE};
use mcp_server_conceal_core::config::{AnonymizedEntity, DetectedEntity, FakerConfig, MappingConfig};
use mcp_server_conceal_core::deanonymize::deanonymize_text;
use mcp_server_conceal_core::faker::FakerEngine;
use mcp_server_conceal_core::mapping::MappingStore;
use std::path::PathBuf;

fn conf(x: f64) -> u64 {
    let bits = x.to_bits();
    if x >= 0.0 {
        bits | (1u64 << 63)
    } else {
        !bits
    }
}

fn detected(t: &str, v: &str, start: usize, end: usize, c: f64) -> DetectedEntity {
    DetectedEntity {
        entity_type: t.to_string(),
        original_value: v.to_string(),
        start,
        end,
        confidence: conf(c),
    }
}

fn store() -> MappingStore {
    MappingStore::new(MappingConfig {
        database_path: PathBuf::from("anon.db"),
        encryption: false,
        retention_days: None,
    })
    .unwrap()
}

fn faker() -> FakerEngine {
    FakerEngine::new(&FakerConfig { locale: "en_US".to_string(), seed: Some(7), consistency: true })
}

#[test]
fn known_values_are_found_at_every_occurrence() {
    let pairs = vec![("Fake One".to_string(), "Alice".to_string())];
    let found = detect_known_entities("Alice met Alice", &pairs);
    assert_eq!(found.len(), 2);
    assert_eq!((found[0].start, found[0].end), (0, 5));
    assert_eq!((found[1].start, found[1].end), (10, 15));
    for e in &found {
        assert_eq!(e.entity_type, "person_name");
        assert_eq!(e.original_value, "Alice");
        assert_eq!(e.confidence, FULL_CONFIDENCE);
    }
}

#[test]
fn known_value_spans_are_in_bytes() {
    let pairs = vec![("X".to_string(), "Zoë".to_string()), ("Y".to_string(), "and".to_string())];
    let found = detect_known_entities("Zoë and Zoë", &pairs);
    assert_eq!(found.len(), 3);
    assert_eq!((found[0].start, found[0].end), (0, 4));
    assert_eq!((found[1].start, found[1].end), (9, 13));
    assert_eq!(found[2].original_value, "and");
    assert_eq!((found[2].start, found[2].end), (5, 8));
}

#[test]
fn known_value_occurrences_do_not_overlap() {
    let pairs = vec![("F".to_string(), "aa".to_string())];
    let found = detect_known_entities("aaaaa", &pairs);
    let spans: Vec<(usize, usize)> = found.iter().map(|e| (e.start, e.end)).collect();
    assert_eq!(spans, vec![(0, 2), (2, 4)]);
}

#[test]
fn stored_fake_is_reused() {
    let mut s = store();
    let mut f = faker();
    s.store_mapping(&AnonymizedEntity {
        entity_type: "email".to_string(),
        original_value: "john@x.com".to_string(),
        fake_value: "fake@y.org".to_string(),
        mapping_id: "id-1".to_string(),
    })
    .unwrap();
    let (out, anons) = anonymize_text(
        "mail john@x.com now",
        vec![detected("email", "john@x.com", 5, 15, 0.9)],
        &mut f,
        &mut s,
    )
    .unwrap();
    assert_eq!(out, "mail fake@y.org now");
    assert_eq!(anons.len(), 1);
    assert_eq!(anons[0].fake_value, "fake@y.org");
    assert_eq!(s.reverse_lookup("fake@y.org").unwrap(), Some("john@x.com".to_string()));
}

#[test]
fn new_fake_is_stored_and_reused() {
    let mut s = store();
    let mut f = faker();
    let (out1, anons1) =
        anonymize_text("call 555-123-4567", vec![detected("phone", "555-123-4567", 5, 17, 0.9)], &mut f, &mut s)
            .unwrap();
    let fake = anons1[0].fake_value.clone();
    assert!(fake.starts_with("555-"));
    assert_eq!(out1, format!("call {}", fake));
    assert_eq!(s.get_mapping("phone", "555-123-4567").unwrap(), Some(fake.clone()));
    let (out2, _) =
        anonymize_text("ring 555-123-4567", vec![detected("phone", "555-123-4567", 5, 17, 0.9)], &mut f, &mut s)
            .unwrap();
    assert_eq!(out2, format!("ring {}", fake));
}

#[test]
fn text_without_detections_is_unchanged() {
    let mut s = store();
    let mut f = faker();
    let (out, anons) = anonymize_text("nothing here", vec![], &mut f, &mut s).unwrap();
    assert_eq!(out, "nothing here");
    assert!(anons.is_empty());
}

#[test]
fn more_confident_overlapping_detection_wins() {
    let mut s = store();
    let mut f = faker();
    let (out, anons) = anonymize_text(
        "id abc123 end",
        vec![detected("ticket", "abc123", 3, 9, 0.5), detected("serial", "abc123", 3, 9, 0.9)],
        &mut f,
        &mut s,
    )
    .unwrap();
    assert_eq!(anons.len(), 1);
    assert_eq!(anons[0].entity_type, "serial");
    assert_eq!(out, "id REDACTED_SERIAL end");
}

#[test]
fn equally_confident_overlap_keeps_first_in_order() {
    let mut s = store();
    let mut f = faker();
    let (out, anons) = anonymize_text(
        "id abc123 end",
        vec![detected("ticket", "abc123", 3, 9, 0.7), detected("serial", "abc123", 3, 9, 0.7)],
        &mut f,
        &mut s,
    )
    .unwrap();
    assert_eq!(anons.len(), 1);
    assert_eq!(out, "id REDACTED_TICKET end");
}

#[test]
fn replacements_go_last_start_first() {
    let mut s = store();
    let mut f = faker();
    let (out, anons) = anonymize_text(
        "a1 b2",
        vec![detected("first", "a1", 0, 2, 0.9), detected("second", "b2", 3, 5, 0.9)],
        &mut f,
        &mut s,
    )
    .unwrap();
    assert_eq!(anons[0].entity_type, "second");
    assert_eq!(anons[1].entity_type, "first");
    assert_eq!(out, "REDACTED_FIRST REDACTED_SECOND");
}

#[test]
fn previously_seen_values_are_caught_without_detection() {
    let mut s = store();
    let mut f = faker();
    s.store_reverse_mapping("Someone Else", "Alice").unwrap();
    let (out, anons) = anonymize_text("Hello Alice", vec![], &mut f, &mut s).unwrap();
    assert_eq!(anons.len(), 1);
    assert_eq!(anons[0].entity_type, "person_name");
    assert_eq!(anons[0].original_value, "Alice");
    assert_eq!(out, format!("Hello {}", anons[0].fake_value));
}

#[test]
fn anonymize_then_deanonymize_restores() {
    let mut s = store();
    let mut f = faker();
    let (out, anons) = anonymize_text(
        "email john@real.com",
        vec![detected("email", "john@real.com", 6, 19, 0.95)],
        &mut f,
        &mut s,
    )
    .unwrap();
    let fake = anons[0].fake_value.clone();
    assert_eq!(out, format!("email {}", fake));
    let reply = format!("I emailed {}", fake);
    assert_eq!(deanonymize_text(&reply, &s).unwrap(), "I emailed john@real.com");
}

#[test]
fn whole_text_round_trip_with_several_values() {
    let mut s = store();
    let mut f = faker();
    let text = "mail bob@corp.example from 10.1.2.3, ticket X-77";
    let (out, anons) = anonymize_text(
        text,
        vec![
            detected("email", "bob@corp.example", 5, 21, 0.95),
            detected("ip_address", "10.1.2.3", 27, 35, 0.9),
            detected("ticket", "X-77", 44, 48, 0.9),
        ],
        &mut f,
        &mut s,
    )
    .unwrap();
    assert_eq!(anons.len(), 3);
    assert!(!out.contains("bob@corp.example"));
    assert!(!out.contains("10.1.2.3"));
    assert!(!out.contains("X-77"));
    assert_eq!(deanonymize_text(&out, &s).unwrap(), text);
}

#[test]
fn overlapping_detections_with_different_starts_both_stay() {
    let mut s = store();
    let mut f = faker();
    let (out, anons) = anonymize_text(
        "id abc123 end",
        vec![detected("ticket", "abc123", 3, 9, 0.9), detected("serial", "c123", 5, 9, 0.5)],
        &mut f,
        &mut s,
    )
    .unwrap();
    assert_eq!(anons.len(), 2);
    assert_eq!(anons[0].entity_type, "serial");
    assert_eq!(anons[1].entity_type, "ticket");
    assert_eq!(out, "id abREDACTED_SERIAL end");
}
