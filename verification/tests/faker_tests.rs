use mcp_server_conceal_core::config::{DetectedEntity, FakerConfig};
use mcp_server_conceal_core::faker::FakerEngine;

fn conf(x: f64) -> u64 {
    let bits = x.to_bits();
    if x >= 0.0 {
        bits | (1u64 << 63)
    } else {
        !bits
    }
}

fn create_test_config() -> FakerConfig {
    FakerConfig { locale: "en_US".to_string(), seed: Some(12345), consistency: true }
}

fn entity(t: &str, v: &str, start: usize, end: usize, c: f64) -> DetectedEntity {
    DetectedEntity {
        entity_type: t.to_string(),
        original_value: v.to_string(),
        start,
        end,
        confidence: conf(c),
    }
}

#[test]
fn test_faker_engine_creation() {
    let config = create_test_config();
    let engine = FakerEngine::new(&config);

    assert_eq!(engine.locale, "en_US");
    assert!(engine.consistency);
}

#[test]
fn test_email_anonymization() {
    let config = create_test_config();
    let mut engine = FakerEngine::new(&config);

    let detected = entity("email", "john.doe@example.com", 0, 20, 0.95);
    let anonymized = engine.anonymize_entity(&detected).unwrap();

    assert_eq!(anonymized.entity_type, "email");
    assert_eq!(anonymized.original_value, "john.doe@example.com");
    assert!(anonymized.fake_value.contains('@'));
    assert_ne!(anonymized.fake_value, anonymized.original_value);
    assert!(!anonymized.mapping_id.is_empty());
}

#[test]
fn test_phone_anonymization() {
    let config = create_test_config();
    let mut engine = FakerEngine::new(&config);

    let detected = entity("phone", "555-123-4567", 0, 12, 0.9);
    let anonymized = engine.anonymize_entity(&detected).unwrap();

    assert_eq!(anonymized.entity_type, "phone");
    assert!(anonymized.fake_value.contains('-'));
    assert_ne!(anonymized.fake_value, "555-123-4567");
}

#[test]
fn test_ssn_anonymization() {
    let config = create_test_config();
    let mut engine = FakerEngine::new(&config);

    let detected = entity("ssn", "123-45-6789", 0, 11, 0.95);
    let anonymized = engine.anonymize_entity(&detected).unwrap();

    assert_eq!(anonymized.entity_type, "ssn");
    assert!(anonymized.fake_value.matches('-').count() == 2);
    assert_ne!(anonymized.fake_value, "123-45-6789");
    assert!(anonymized.fake_value.starts_with('9'));
}

#[test]
fn test_consistency_with_seed() {
    let config = create_test_config();
    let mut engine1 = FakerEngine::new(&config);
    let mut engine2 = FakerEngine::new(&config);

    let detected = entity("email", "test@example.com", 0, 16, 0.95);
    let result1 = engine1.anonymize_entity(&detected).unwrap();
    let result2 = engine2.anonymize_entity(&detected).unwrap();

    assert_eq!(result1.fake_value, result2.fake_value);
}

#[test]
fn test_multiple_entities_anonymization() {
    let config = create_test_config();
    let mut engine = FakerEngine::new(&config);

    let entities = vec![
        entity("email", "john@test.com", 0, 13, 0.95),
        entity("phone", "555-123-4567", 20, 32, 0.9),
    ];
    let anonymized = engine.anonymize_entities(entities).unwrap();

    assert_eq!(anonymized.len(), 2);
    assert!(anonymized[0].fake_value.contains('@'));
    assert!(anonymized[1].fake_value.contains('-'));
}

#[test]
fn test_replacement_map_creation() {
    let config = create_test_config();
    let mut engine = FakerEngine::new(&config);

    let entities = vec![
        entity("email", "john@test.com", 0, 13, 0.95),
        entity("phone", "555-123-4567", 20, 32, 0.9),
    ];
    let replacement_map = engine.create_replacement_map(entities).unwrap();

    assert_eq!(replacement_map.len(), 2);
    assert!(replacement_map.contains_key("john@test.com"));
    assert!(replacement_map.contains_key("555-123-4567"));
    assert!(replacement_map.get("john@test.com").unwrap().contains('@'));
}

#[test]
fn test_extract_base_type() {
    let config = create_test_config();
    let engine = FakerEngine::new(&config);

    assert_eq!(engine.extract_base_type("email"), "email");
    assert_eq!(engine.extract_base_type("email@customer.email"), "email");
    assert_eq!(engine.extract_base_type("phone@customer.phone"), "phone");
}

#[test]
fn test_ip_address_anonymization() {
    let config = create_test_config();
    let mut engine = FakerEngine::new(&config);

    let detected = entity("ip_address", "10.0.0.1", 0, 8, 0.95);
    let anonymized = engine.anonymize_entity(&detected).unwrap();

    assert_eq!(anonymized.entity_type, "ip_address");
    assert_eq!(anonymized.original_value, "10.0.0.1");
    assert_ne!(anonymized.fake_value, "10.0.0.1");
    assert!(!anonymized.mapping_id.is_empty());

    let parts: Vec<&str> = anonymized.fake_value.split('.').collect();
    assert_eq!(parts.len(), 4);
    for part in parts {
        let _octet: u8 = part.parse().expect("Should be a valid number");
    }
}

#[test]
fn test_hostname_anonymization() {
    let config = create_test_config();
    let mut engine = FakerEngine::new(&config);

    let detected = entity("hostname", "ubuntu-linux-2404", 0, 17, 0.95);
    let anonymized = engine.anonymize_entity(&detected).unwrap();

    assert_eq!(anonymized.entity_type, "hostname");
    assert_eq!(anonymized.original_value, "ubuntu-linux-2404");
    assert_ne!(anonymized.fake_value, "ubuntu-linux-2404");
    assert!(!anonymized.mapping_id.is_empty());
    assert!(anonymized.fake_value.contains(".fake."));
    assert!(anonymized.fake_value.contains("-"));
    let parts: Vec<&str> = anonymized.fake_value.split('.').collect();
    assert!(parts.len() >= 3);
}

#[test]
fn test_node_name_anonymization() {
    let config = create_test_config();
    let mut engine = FakerEngine::new(&config);

    let detected = entity("node_name", "node01", 0, 6, 0.95);
    let anonymized = engine.anonymize_entity(&detected).unwrap();

    assert_eq!(anonymized.entity_type, "node_name");
    assert_eq!(anonymized.original_value, "node01");
    assert_ne!(anonymized.fake_value, "node01");
    assert!(!anonymized.mapping_id.is_empty());
    assert!(
        anonymized.fake_value.contains("node")
            || anonymized.fake_value.contains("worker")
            || anonymized.fake_value.contains("master")
            || anonymized.fake_value.contains("compute")
            || anonymized.fake_value.contains("edge")
    );
}

#[test]
fn test_unknown_entity_type() {
    let config = create_test_config();
    let mut engine = FakerEngine::new(&config);

    let detected = entity("unknown_type", "some_value", 0, 10, 0.8);
    let anonymized = engine.anonymize_entity(&detected).unwrap();

    assert_eq!(anonymized.fake_value, "REDACTED_UNKNOWN_TYPE");
}

#[test]
fn test_localhost_ip_anonymization() {
    let config = create_test_config();
    let mut engine = FakerEngine::new(&config);

    let detected = entity("ip_address", "127.0.0.1", 0, 9, 0.95);
    let anonymized = engine.anonymize_entity(&detected).unwrap();

    assert_eq!(anonymized.entity_type, "ip_address");
    assert_eq!(anonymized.original_value, "127.0.0.1");
    assert_ne!(anonymized.fake_value, "127.0.0.1");
    assert!(!anonymized.mapping_id.is_empty());
    let parts: Vec<&str> = anonymized.fake_value.split('.').collect();
    assert_eq!(parts.len(), 4);
    for part in parts {
        let _octet: u8 = part.parse().expect("Should be a valid number");
    }
}

#[test]
fn scoped_types_use_their_base_generator() {
    let mut engine = FakerEngine::new(&create_test_config());
    let a = engine.anonymize_entity(&entity("phone@customer.phone", "555-000-1111", 0, 12, 0.9)).unwrap();
    assert_eq!(a.entity_type, "phone@customer.phone");
    assert!(a.fake_value.starts_with("555-"));
    assert_eq!(a.fake_value.len(), 12);
    let b = engine.anonymize_entity(&entity("custom@x", "v", 0, 1, 0.9)).unwrap();
    assert_eq!(b.fake_value, "REDACTED_CUSTOM");
}

#[test]
fn generated_values_have_their_shapes() {
    let mut engine = FakerEngine::new(&create_test_config());
    let phone = engine.generate_fake_phone();
    assert_eq!(phone.len(), 12);
    assert!(phone.starts_with("555-"));
    assert_eq!(&phone[7..8], "-");
    let ssn = engine.generate_fake_ssn();
    assert_eq!(ssn.len(), 11);
    assert!(ssn.starts_with('9'));
    let name = engine.generate_fake_name();
    assert!(name.contains(' '));
    let mapping_id_len = engine
        .anonymize_entity(&entity("email", "a@b.c", 0, 5, 0.9))
        .unwrap()
        .mapping_id
        .len();
    assert_eq!(mapping_id_len, 36);
}

#[test]
fn name_and_person_name_both_get_names() {
    let mut engine = FakerEngine::new(&create_test_config());
    let a = engine.anonymize_entity(&entity("name", "Jane Roe", 0, 8, 0.9)).unwrap();
    let b = engine.anonymize_entity(&entity("person_name", "John Roe", 0, 8, 0.9)).unwrap();
    assert!(a.fake_value.contains(' '));
    assert!(b.fake_value.contains(' '));
}

#[test]
fn replacement_map_keeps_last_duplicate() {
    let mut engine = FakerEngine::new(&create_test_config());
    let entities = vec![
        entity("email", "dup@test.com", 0, 12, 0.9),
        entity("unknown_kind", "dup@test.com", 20, 32, 0.9),
    ];
    let m = engine.create_replacement_map(entities).unwrap();
    assert_eq!(m.len(), 1);
    assert_eq!(m.get("dup@test.com"), Some(&"REDACTED_UNKNOWN_KIND".to_string()));
}
