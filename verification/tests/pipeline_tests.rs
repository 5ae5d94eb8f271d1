use mcp_server_conceal_core::config::{AnonymizedEntity, DetectedEntity, DetectionMode, FakerConfig, MappingConfig};
use mcp_server_conceal_core::faker::FakerEngine;
use mcp_server_conceal_core::mapping::MappingStore;
use mcp_server_conceal_core::pipeline::{
    apply_replacements, combine_entities, create_anonymized_entities, llm_entities, process_text,
};
use std::path::PathBuf;

fn conf(x: f64) -> u64 {
    let bits = x.to_bits();
    if x >= 0.0 {
        bits | (1u64 << 63)
    } else {
        !bits
    }
}

fn detected(t: &str, v: &str, start: usize, end: usize, c: f64) -> DetectedEntity {
    DetectedEntity {
        entity_type: t.to_string(),
        original_value: v.to_string(),
        start,
        end,
        confidence: conf(c),
    }
}

fn anon(t: &str, o: &str, f: &str) -> AnonymizedEntity {
    AnonymizedEntity {
        entity_type: t.to_string(),
        original_value: o.to_string(),
        fake_value: f.to_string(),
        mapping_id: "m".to_string(),
    }
}

fn store() -> MappingStore {
    MappingStore::new(MappingConfig {
        database_path: PathBuf::from("pipe.db"),
        encryption: false,
        retention_days: None,
    })
    .unwrap()
}

fn faker() -> FakerEngine {
    FakerEngine::new(&FakerConfig { locale: "en_US".to_string(), seed: Some(3), consistency: true })
}

#[test]
fn llm_detections_replace_regex_ones_with_same_key() {
    let regex = vec![detected("email", "x@a.b", 0, 5, 0.5), detected("phone", "123", 10, 13, 0.5)];
    let llm = vec![detected("email", "y@a.b", 0, 5, 0.9), detected("name", "Al", 20, 22, 0.9)];
    let c = combine_entities(regex, llm);
    assert_eq!(c.len(), 3);
    assert_eq!(c[0].original_value, "y@a.b");
    assert_eq!(c[1].original_value, "123");
    assert_eq!(c[2].original_value, "Al");
}

#[test]
fn same_span_different_type_is_kept_twice() {
    let c = combine_entities(vec![detected("email", "v", 0, 1, 0.5)], vec![detected("name", "v", 0, 1, 0.5)]);
    assert_eq!(c.len(), 2);
}

#[test]
fn replacements_replace_every_occurrence() {
    let out = apply_replacements("a b a", &[anon("t", "a", "X")]).unwrap();
    assert_eq!(out, "X b X");
}

#[test]
fn replacements_follow_first_position_order() {
    let out = apply_replacements("b bb", &[anon("t", "bb", "1"), anon("t", "b", "2")]).unwrap();
    assert_eq!(out, "2 22");
    let out = apply_replacements("bb b", &[anon("t", "b", "2"), anon("t", "bb", "1")]).unwrap();
    assert_eq!(out, "22 2");
}

#[test]
fn absent_values_sort_as_position_zero() {
    let out = apply_replacements("xy", &[anon("t", "x", "q"), anon("t", "q", "W")]).unwrap();
    assert_eq!(out, "Wy");
    let out = apply_replacements("xy", &[anon("t", "q", "W"), anon("t", "x", "q")]).unwrap();
    assert_eq!(out, "qy");
}

#[test]
fn no_detections_leave_text_and_store() {
    let mut s = store();
    let mut f = faker();
    let out = process_text("plain text", DetectionMode::Regex, vec![], vec![], &mut f, &mut s).unwrap();
    assert_eq!(out, "plain text");
    assert_eq!(s.get_statistics().unwrap().total_mappings, 0);
}

#[test]
fn regex_mode_anonymizes_regex_detections() {
    let mut s = store();
    let mut f = faker();
    let out = process_text(
        "ssn 123-45-6789!",
        DetectionMode::Regex,
        vec![detected("ssn", "123-45-6789", 4, 15, 0.9)],
        vec![detected("email", "ignored", 0, 1, 0.9)],
        &mut f,
        &mut s,
    )
    .unwrap();
    let fake = s.get_mapping("ssn", "123-45-6789").unwrap().unwrap();
    assert_eq!(out, format!("ssn {}!", fake));
    assert!(fake.starts_with('9'));
}

#[test]
fn llm_mode_uses_llm_detections_only() {
    let mut s = store();
    let mut f = faker();
    let out = process_text(
        "keep secret",
        DetectionMode::Llm,
        vec![detected("word", "keep", 0, 4, 0.9)],
        vec![detected("thing", "secret", 5, 11, 0.9)],
        &mut f,
        &mut s,
    )
    .unwrap();
    assert_eq!(out, "keep REDACTED_THING");
}

#[test]
fn existing_fakes_get_existing_ids() {
    let mut s = store();
    let mut f = faker();
    s.store_mapping(&anon("email", "a@b.c", "z@y.x")).unwrap();
    let v = create_anonymized_entities(
        vec![detected("email", "a@b.c", 0, 5, 0.9), detected("email", "new@b.c", 6, 13, 0.9)],
        &mut f,
        &mut s,
    )
    .unwrap();
    assert_eq!(v.len(), 2);
    assert_eq!(v[0].fake_value, "z@y.x");
    assert!(v[0].mapping_id.starts_with("existing-"));
    assert!(v[0].mapping_id["existing-".len()..].chars().all(|c| c.is_ascii_digit()));
    assert_eq!(v[1].mapping_id.len(), 36);
    assert_eq!(s.reverse_lookup(&v[1].fake_value).unwrap(), Some("new@b.c".to_string()));
}

#[test]
fn cached_llm_detections_come_first() {
    let mut s = store();
    s.store_llm_cache("t", &[detected("a", "b", 0, 1, 0.9)], "m").unwrap();
    let v = llm_entities("t", "m", true, Some(vec![]), &mut s).unwrap();
    assert_eq!(v.len(), 1);
    assert_eq!(v[0].entity_type, "a");
}

#[test]
fn llm_answer_is_cached() {
    let mut s = store();
    let v = llm_entities("t", "m", true, Some(vec![detected("a", "b", 0, 1, 0.9)]), &mut s).unwrap();
    assert_eq!(v.len(), 1);
    assert_eq!(s.get_llm_cache("t", "m").unwrap().unwrap().len(), 1);
}

#[test]
fn unavailable_or_failed_llm_gives_nothing() {
    let mut s = store();
    assert!(llm_entities("t", "m", false, Some(vec![detected("a", "b", 0, 1, 0.9)]), &mut s).unwrap().is_empty());
    assert!(llm_entities("t", "m", true, None, &mut s).unwrap().is_empty());
    assert!(s.get_llm_cache("t", "m").unwrap().is_none());
}
