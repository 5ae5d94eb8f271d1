use mcp_server_conceal_core::anonymize::FULL_CONFIDENCE;
use mcp_server_conceal_core::config::ConcealError;
use mcp_server_conceal_core::detection::RegexDetectionEngine;

fn patterns() -> Vec<(String, String)> {
    vec![
        ("email".to_string(), r"\b[A-Za-z0-9._%+-]+@[A-Za-z0-9.-]+\.[A-Z|a-z]{2,}\b".to_string()),
        ("number".to_string(), r"\d{3}".to_string()),
    ]
}

#[test]
fn every_match_of_every_pattern_is_detected() {
    let engine = RegexDetectionEngine::new(true, patterns()).unwrap();
    let found = engine.detect_in_text("mail bob@x.org or 555 and ann@y.io");
    let got: Vec<(String, String, usize, usize)> = found
        .iter()
        .map(|e| (e.entity_type.clone(), e.original_value.clone(), e.start, e.end))
        .collect();
    assert_eq!(
        got,
        vec![
            ("email".to_string(), "bob@x.org".to_string(), 5, 14),
            ("email".to_string(), "ann@y.io".to_string(), 26, 34),
            ("number".to_string(), "555".to_string(), 18, 21),
        ]
    );
    assert!(found.iter().all(|e| e.confidence == FULL_CONFIDENCE));
}

#[test]
fn match_offsets_are_bytes() {
    let engine = RegexDetectionEngine::new(true, vec![("n".to_string(), r"\d+".to_string())]).unwrap();
    let found = engine.detect_in_text("é 42");
    assert_eq!((found[0].start, found[0].end), (3, 5));
    assert_eq!(found[0].original_value, "42");
}

#[test]
fn disabled_detection_finds_nothing() {
    let engine = RegexDetectionEngine::new(false, patterns()).unwrap();
    assert!(engine.detect_in_text("bob@x.org 555").is_empty());
}

#[test]
fn invalid_pattern_is_refused() {
    let mut p = patterns();
    p.push(("broken".to_string(), "[".to_string()));
    assert_eq!(
        RegexDetectionEngine::new(true, p).err(),
        Some(ConcealError::InvalidPattern {
            name: "broken".to_string(),
            reason: regex::Regex::new("[").unwrap_err().to_string(),
        })
    );
}
