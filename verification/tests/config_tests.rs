use mcp_server_conceal_core::config::{
    pattern_error, validate_detection_patterns, AnonymizedEntity, ConcealError, DetectedEntity,
};

/// The confidence key of a confidence value: larger confidences get larger
/// keys.
fn conf(x: f64) -> u64 {
    let bits = x.to_bits();
    if x >= 0.0 {
        bits | (1u64 << 63)
    } else {
        !bits
    }
}

#[test]
fn test_detected_entity() {
    let entity = DetectedEntity {
        entity_type: "email".to_string(),
        original_value: "john@example.com".to_string(),
        start: 10,
        end: 25,
        confidence: conf(0.95),
    };

    assert_eq!(entity.entity_type, "email");
    assert_eq!(entity.original_value, "john@example.com");
    assert_eq!(entity.confidence, conf(0.95));
}

#[test]
fn test_anonymized_entity() {
    let entity = AnonymizedEntity {
        entity_type: "email".to_string(),
        original_value: "john@example.com".to_string(),
        fake_value: "mike@testcorp.com".to_string(),
        mapping_id: "uuid-123".to_string(),
    };

    assert_eq!(entity.entity_type, "email");
    assert_eq!(entity.original_value, "john@example.com");
    assert_eq!(entity.fake_value, "mike@testcorp.com");
}

#[test]
fn confidence_keys_follow_confidences() {
    assert!(conf(0.5) < conf(0.9));
    assert!(conf(0.0) < conf(0.1));
    assert!(conf(-0.5) < conf(0.0));
    assert_eq!(conf(1.0), mcp_server_conceal_core::anonymize::FULL_CONFIDENCE);
}

#[test]
fn duplicates_are_equal() {
    let e = DetectedEntity {
        entity_type: "phone".to_string(),
        original_value: "555-123-4567".to_string(),
        start: 3,
        end: 15,
        confidence: conf(0.9),
    };
    let d = e.duplicate();
    assert_eq!(d.entity_type, e.entity_type);
    assert_eq!(d.original_value, e.original_value);
    assert_eq!((d.start, d.end, d.confidence), (e.start, e.end, e.confidence));
}

#[test]
fn valid_patterns_pass_validation() {
    let patterns = vec![
        (
            "email".to_string(),
            r"\b[A-Za-z0-9._%+-]+@[A-Za-z0-9.-]+\.[A-Z|a-z]{2,}\b".to_string(),
        ),
        ("digits".to_string(), r"\d+".to_string()),
    ];
    assert!(validate_detection_patterns(&patterns).is_ok());
}

#[test]
fn invalid_pattern_is_named() {
    let patterns = vec![
        ("email".to_string(), r"\w+@\w+".to_string()),
        ("invalid".to_string(), "[".to_string()),
        ("also_invalid".to_string(), "(".to_string()),
    ];
    assert_eq!(
        validate_detection_patterns(&patterns),
        Err(ConcealError::InvalidPattern {
            name: "invalid".to_string(),
            reason: regex::Regex::new("[").unwrap_err().to_string(),
        })
    );
}

#[test]
fn error_messages() {
    assert_eq!(
        ConcealError::InvalidEnvVar { value: "X".to_string() }.message(),
        "Invalid environment variable format: 'X'. Expected KEY=VALUE"
    );
    assert_eq!(
        ConcealError::InvalidPattern { name: "p".to_string(), reason: "unclosed group".to_string() }
            .message(),
        "Invalid regex pattern for 'p': unclosed group"
    );
    assert_eq!(
        ConcealError::ClockBeforeUnixEpoch.message(),
        "second time provided was later than self"
    );
}

#[test]
fn pattern_error_names_first_failure() {
    let patterns = vec![
        ("a".to_string(), "x".to_string()),
        ("b".to_string(), "y".to_string()),
        ("c".to_string(), "z".to_string()),
    ];
    assert_eq!(pattern_error(&patterns, &vec![None, None, None]), Ok(()));
    assert_eq!(
        pattern_error(&patterns, &vec![None, Some("first".to_string()), Some("second".to_string())]),
        Err(ConcealError::InvalidPattern { name: "b".to_string(), reason: "first".to_string() })
    );
}

#[test]
fn invalid_pattern_message_carries_regex_error() {
    let patterns = vec![("bad".to_string(), "(".to_string())];
    let err = validate_detection_patterns(&patterns).unwrap_err();
    let expected = format!(
        "Invalid regex pattern for 'bad': {}",
        regex::Regex::new("(").unwrap_err()
    );
    assert_eq!(err.message(), expected);
}
