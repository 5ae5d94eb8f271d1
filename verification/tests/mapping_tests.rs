use mcp_server_conceal_core::config::{AnonymizedEntity, DetectedEntity, MappingConfig};
use mcp_server_conceal_core::mapping::{EntityMapping, MappingStore};
use std::path::PathBuf;
use uuid::Uuid;

fn conf(x: f64) -> u64 {
    let bits = x.to_bits();
    if x >= 0.0 {
        bits | (1u64 << 63)
    } else {
        !bits
    }
}

fn create_test_config() -> MappingConfig {
    MappingConfig {
        database_path: PathBuf::from("test_mappings.db"),
        encryption: false,
        retention_days: Some(30),
    }
}

fn create_test_entity() -> AnonymizedEntity {
    AnonymizedEntity {
        entity_type: "email".to_string(),
        original_value: "john@example.com".to_string(),
        fake_value: "fake@company.com".to_string(),
        mapping_id: Uuid::new_v4().to_string(),
    }
}

fn anon(t: &str, o: &str, f: &str) -> AnonymizedEntity {
    AnonymizedEntity {
        entity_type: t.to_string(),
        original_value: o.to_string(),
        fake_value: f.to_string(),
        mapping_id: Uuid::new_v4().to_string(),
    }
}

fn detected(t: &str, v: &str, start: usize, end: usize, c: f64) -> DetectedEntity {
    DetectedEntity {
        entity_type: t.to_string(),
        original_value: v.to_string(),
        start,
        end,
        confidence: conf(c),
    }
}

#[test]
fn test_mapping_store_creation() {
    let store = MappingStore::new(create_test_config()).unwrap();
    assert_eq!(store.get_statistics().unwrap().total_mappings, 0);
}

#[test]
fn test_in_memory_database() {
    let config = MappingConfig {
        database_path: PathBuf::from(":memory:"),
        encryption: false,
        retention_days: None,
    };
    let store = MappingStore::new(config).unwrap();
    assert_eq!(store.get_statistics().unwrap().total_mappings, 0);
}

#[test]
fn test_store_and_retrieve_mapping() {
    let mut store = MappingStore::new(create_test_config()).unwrap();
    let entity = create_test_entity();
    store.store_mapping(&entity).unwrap();

    let retrieved = store.get_mapping("email", "john@example.com").unwrap();
    assert_eq!(retrieved, Some("fake@company.com".to_string()));
    let non_existent = store.get_mapping("email", "nonexistent@example.com").unwrap();
    assert_eq!(non_existent, None);
}

#[test]
fn test_mapping_consistency() {
    let mut store = MappingStore::new(create_test_config()).unwrap();
    let entity1 = anon("email", "same@example.com", "first@company.com");
    let entity2 = anon("email", "same@example.com", "second@company.com");

    store.store_mapping(&entity1).unwrap();
    store.store_mapping(&entity2).unwrap();

    let retrieved = store.get_mapping("email", "same@example.com").unwrap();
    assert_eq!(retrieved, Some("first@company.com".to_string()));
}

#[test]
fn test_batch_operations() {
    let mut store = MappingStore::new(create_test_config()).unwrap();
    let entities = vec![
        anon("email", "batch1@example.com", "fake1@company.com"),
        anon("phone", "555-123-4567", "555-987-6543"),
    ];
    store.store_mappings_batch(&entities).unwrap();

    let requests = vec![
        ("email".to_string(), "batch1@example.com".to_string()),
        ("phone".to_string(), "555-123-4567".to_string()),
        ("email".to_string(), "nonexistent@example.com".to_string()),
    ];
    let results = store.get_mappings_batch(&requests).unwrap();

    assert_eq!(results.len(), 2);
    assert_eq!(results.get("batch1@example.com"), Some(&"fake1@company.com".to_string()));
    assert_eq!(results.get("555-123-4567"), Some(&"555-987-6543".to_string()));
    assert!(!results.contains_key("nonexistent@example.com"));
}

#[test]
fn test_statistics() {
    let mut store = MappingStore::new(create_test_config()).unwrap();
    let entities = vec![
        anon("email", "stats1@example.com", "fake1@company.com"),
        anon("email", "stats2@example.com", "fake2@company.com"),
        anon("phone", "555-111-2222", "555-999-8888"),
    ];
    store.store_mappings_batch(&entities).unwrap();

    let stats = store.get_statistics().unwrap();
    assert_eq!(stats.total_mappings, 3);
    assert_eq!(stats.total_cache_entries, 0);
    assert_eq!(stats.mappings_by_type.get("email"), Some(&2));
    assert_eq!(stats.mappings_by_type.get("phone"), Some(&1));
    assert!(stats.oldest_mapping_age.is_some());
}

#[test]
fn test_clear_all_mappings() {
    let mut store = MappingStore::new(create_test_config()).unwrap();
    let entity = create_test_entity();
    store.store_mapping(&entity).unwrap();

    let retrieved = store.get_mapping("email", "john@example.com").unwrap();
    assert!(retrieved.is_some());

    let deleted = store.clear_all_mappings().unwrap();
    assert_eq!(deleted, 1);

    let retrieved = store.get_mapping("email", "john@example.com").unwrap();
    assert!(retrieved.is_none());
}

#[test]
fn test_hash_consistency() {
    let store = MappingStore::new(create_test_config()).unwrap();
    let hash1 = store.hash_value("test@example.com");
    let hash2 = store.hash_value("test@example.com");
    let hash3 = store.hash_value("different@example.com");

    assert_eq!(hash1, hash2);
    assert_ne!(hash1, hash3);
}

#[test]
fn hash_is_lower_case_hex() {
    let store = MappingStore::new(create_test_config()).unwrap();
    let h = store.hash_value("test@example.com");
    assert!(!h.is_empty() && h.len() <= 16);
    assert!(h.chars().all(|c| c.is_ascii_digit() || ('a'..='f').contains(&c)));
    assert!(h.len() == 1 || !h.starts_with('0'));
}

#[test]
fn test_different_entity_types() {
    let mut store = MappingStore::new(create_test_config()).unwrap();
    let email_entity = anon("email", "john@example.com", "fake@company.com");
    let name_entity = anon("name", "john@example.com", "Jane Doe");

    store.store_mapping(&email_entity).unwrap();
    store.store_mapping(&name_entity).unwrap();

    let email_result = store.get_mapping("email", "john@example.com").unwrap();
    let name_result = store.get_mapping("name", "john@example.com").unwrap();

    assert_eq!(email_result, Some("fake@company.com".to_string()));
    assert_eq!(name_result, Some("Jane Doe".to_string()));
}

#[test]
fn test_llm_cache_store_and_retrieve() {
    let mut store = MappingStore::new(create_test_config()).unwrap();
    let text = "Contact Sarah Johnson at sarah@company.com";
    let entities = vec![
        detected("person_name", "Sarah Johnson", 8, 21, 0.95),
        detected("email", "sarah@company.com", 25, 42, 0.98),
    ];
    let model_name = "llama3.2:3b";

    store.store_llm_cache(text, &entities, model_name).unwrap();

    let cached_entities = store.get_llm_cache(text, model_name).unwrap();
    assert!(cached_entities.is_some());

    let cached_entities = cached_entities.unwrap();
    assert_eq!(cached_entities.len(), 2);
    assert_eq!(cached_entities[0].entity_type, "person_name");
    assert_eq!(cached_entities[0].original_value, "Sarah Johnson");
    assert_eq!(cached_entities[1].entity_type, "email");
    assert_eq!(cached_entities[1].original_value, "sarah@company.com");
}

#[test]
fn test_llm_cache_miss() {
    let store = MappingStore::new(create_test_config()).unwrap();
    let result = store.get_llm_cache("Non-existent text", "llama3.2:3b").unwrap();
    assert!(result.is_none());
}

#[test]
fn test_llm_cache_different_models() {
    let mut store = MappingStore::new(create_test_config()).unwrap();
    let text = "John Doe works at ACME Corp";
    let entities1 = vec![detected("person_name", "John Doe", 0, 8, 0.9)];
    let entities2 = vec![detected("organization", "ACME Corp", 19, 28, 0.85)];

    store.store_llm_cache(text, &entities1, "model1").unwrap();
    store.store_llm_cache(text, &entities2, "model2").unwrap();

    let result1 = store.get_llm_cache(text, "model1").unwrap().unwrap();
    let result2 = store.get_llm_cache(text, "model2").unwrap().unwrap();

    assert_eq!(result1.len(), 1);
    assert_eq!(result1[0].entity_type, "person_name");
    assert_eq!(result2.len(), 1);
    assert_eq!(result2[0].entity_type, "organization");
}

#[test]
fn test_llm_cache_replacement() {
    let mut store = MappingStore::new(create_test_config()).unwrap();
    let text = "Replace this content";
    let model_name = "test-model";
    let entities1 = vec![detected("old_type", "old_value", 0, 3, 0.5)];
    let entities2 = vec![detected("new_type", "new_value", 0, 3, 0.9)];

    store.store_llm_cache(text, &entities1, model_name).unwrap();
    store.store_llm_cache(text, &entities2, model_name).unwrap();
    let result = store.get_llm_cache(text, model_name).unwrap().unwrap();
    assert_eq!(result.len(), 1);
    assert_eq!(result[0].entity_type, "new_type");
    assert_eq!(result[0].original_value, "new_value");
}

#[test]
fn test_llm_cache_statistics() {
    let mut store = MappingStore::new(create_test_config()).unwrap();
    let entity = create_test_entity();
    store.store_mapping(&entity).unwrap();

    let text = "Cache this text";
    let entities = vec![detected("test", "test", 0, 4, 0.8)];
    store.store_llm_cache(text, &entities, "test-model").unwrap();

    let stats = store.get_statistics().unwrap();
    assert_eq!(stats.total_mappings, 1);
    assert_eq!(stats.total_cache_entries, 1);
}

#[test]
fn test_clear_llm_cache() {
    let mut store = MappingStore::new(create_test_config()).unwrap();
    let text = "Text to cache";
    let entities = vec![detected("test", "test", 0, 4, 0.9)];

    store.store_llm_cache(text, &entities, "test-model").unwrap();
    let result = store.get_llm_cache(text, "test-model").unwrap();
    assert!(result.is_some());

    let deleted = store.clear_llm_cache().unwrap();
    assert_eq!(deleted, 1);

    let result = store.get_llm_cache(text, "test-model").unwrap();
    assert!(result.is_none());
}

#[test]
fn cleanup_removes_rows_created_before_cutoff() {
    let mut store = MappingStore::new(create_test_config()).unwrap();
    store.store_mapping_at(&anon("email", "old@example.com", "o@fake.com"), 100);
    store.store_mapping_at(&anon("email", "new@example.com", "n@fake.com"), 5000);
    store.store_llm_cache_at("old text", &[], "m", 100, "cache-old".to_string());
    store.store_llm_cache_at("new text", &[], "m", 5000, "cache-new".to_string());

    let removed = store.remove_created_before(1000);
    assert_eq!(removed, 2);
    assert!(store.get_mapping("email", "old@example.com").unwrap().is_none());
    assert_eq!(store.get_mapping("email", "new@example.com").unwrap(), Some("n@fake.com".to_string()));
    assert!(store.get_llm_cache("old text", "m").unwrap().is_none());
    assert!(store.get_llm_cache("new text", "m").unwrap().is_some());
}

#[test]
fn retention_window_is_measured_in_days() {
    let mut store = MappingStore::new(create_test_config()).unwrap();
    let day: u64 = 86_400;
    let now: u64 = 100 * day;
    store.store_mapping_at(&anon("email", "a@example.com", "a@fake.com"), now - 31 * day);
    store.store_mapping_at(&anon("email", "b@example.com", "b@fake.com"), now - 29 * day);
    let removed = store.cleanup_expired_at(now);
    assert_eq!(removed, 1);
    assert!(store.get_mapping("email", "a@example.com").unwrap().is_none());
    assert!(store.get_mapping("email", "b@example.com").unwrap().is_some());
}

#[test]
fn test_llm_cache_with_empty_entities() {
    let mut store = MappingStore::new(create_test_config()).unwrap();
    let text = "No PII in this text";
    let empty_entities: Vec<DetectedEntity> = vec![];
    let model_name = "test-model";

    store.store_llm_cache(text, &empty_entities, model_name).unwrap();

    let cached_entities = store.get_llm_cache(text, model_name).unwrap();
    assert!(cached_entities.is_some());
    let cached_entities = cached_entities.unwrap();
    assert_eq!(cached_entities.len(), 0);
}

#[test]
fn test_llm_cache_with_large_text_and_many_entities() {
    let mut store = MappingStore::new(create_test_config()).unwrap();
    let text = "Contact John Smith at john@company.com, Jane Doe at jane@example.org, Bob Wilson at bob@test.net, and Alice Brown at alice@sample.com. Call (555) 123-4567 or (555) 987-6543 for more information.";
    let entities = vec![
        detected("person_name", "John Smith", 8, 18, 0.95),
        detected("email", "john@company.com", 22, 38, 0.98),
        detected("person_name", "Jane Doe", 40, 48, 0.93),
        detected("email", "jane@example.org", 52, 68, 0.97),
        detected("phone", "(555) 123-4567", 150, 164, 0.99),
    ];
    let model_name = "llama3.2:3b";

    store.store_llm_cache(text, &entities, model_name).unwrap();

    let cached_entities = store.get_llm_cache(text, model_name).unwrap().unwrap();
    assert_eq!(cached_entities.len(), 5);
    assert_eq!(cached_entities[0].entity_type, "person_name");
    assert_eq!(cached_entities[0].original_value, "John Smith");
    assert_eq!(cached_entities[1].entity_type, "email");
    assert_eq!(cached_entities[1].original_value, "john@company.com");
    assert_eq!(cached_entities[4].entity_type, "phone");
    assert_eq!(cached_entities[4].original_value, "(555) 123-4567");
}

#[test]
fn test_llm_cache_with_special_characters_and_unicode() {
    let mut store = MappingStore::new(create_test_config()).unwrap();
    let text = "Contactez François Müller à françois.müller@société.com ou José García à josé@españa.es";
    let entities = vec![
        detected("person_name", "François Müller", 10, 25, 0.92),
        detected("email", "françois.müller@société.com", 28, 55, 0.96),
        detected("person_name", "José García", 59, 70, 0.94),
    ];
    let model_name = "llama3.2:3b";

    store.store_llm_cache(text, &entities, model_name).unwrap();

    let cached_entities = store.get_llm_cache(text, model_name).unwrap().unwrap();
    assert_eq!(cached_entities.len(), 3);
    assert_eq!(cached_entities[0].original_value, "François Müller");
    assert_eq!(cached_entities[1].original_value, "françois.müller@société.com");
    assert_eq!(cached_entities[2].original_value, "José García");
}

#[test]
fn test_llm_cache_concurrent_model_operations() {
    let mut store = MappingStore::new(create_test_config()).unwrap();
    let base_text = "Test concurrent operations with different models";
    let models = ["model-a", "model-b", "model-c", "model-d", "model-e"];

    for (i, model) in models.iter().enumerate() {
        let entities = vec![DetectedEntity {
            entity_type: format!("entity_type_{}", i),
            original_value: format!("value_{}", i),
            start: i * 5,
            end: (i + 1) * 5,
            confidence: conf(0.8 + (i as f64 * 0.02)),
        }];
        store.store_llm_cache(base_text, &entities, model).unwrap();
    }

    for (i, model) in models.iter().enumerate() {
        let cached_entities = store.get_llm_cache(base_text, model).unwrap().unwrap();
        assert_eq!(cached_entities.len(), 1);
        assert_eq!(cached_entities[0].entity_type, format!("entity_type_{}", i));
        assert_eq!(cached_entities[0].original_value, format!("value_{}", i));
        assert_eq!(cached_entities[0].start, i * 5);
        assert_eq!(cached_entities[0].end, (i + 1) * 5);
    }

    let stats = store.get_statistics().unwrap();
    assert_eq!(stats.total_cache_entries, 5);
}

#[test]
fn reverse_mapping_keeps_first_original() {
    let mut store = MappingStore::new(create_test_config()).unwrap();
    store.store_reverse_mapping("fake@x.com", "real@x.com").unwrap();
    store.store_reverse_mapping("fake@x.com", "other@x.com").unwrap();
    assert_eq!(store.reverse_lookup("fake@x.com").unwrap(), Some("real@x.com".to_string()));
    assert_eq!(store.reverse_lookup("missing").unwrap(), None);
    let all = store.get_all_reverse_entries().unwrap();
    assert_eq!(all, vec![("fake@x.com".to_string(), "real@x.com".to_string())]);
}

#[test]
fn reverse_mappings_of_rows_pair_fakes_with_hashes() {
    let mut store = MappingStore::new(create_test_config()).unwrap();
    store.store_mapping(&anon("email", "a@example.com", "fa@fake.com")).unwrap();
    let pairs = store.get_all_reverse_mappings().unwrap();
    assert_eq!(pairs.len(), 1);
    assert_eq!(pairs[0].0, "fa@fake.com");
    assert_eq!(pairs[0].1, store.hash_value("a@example.com"));
}

#[test]
fn restored_rows_are_found() {
    let mut store = MappingStore::new(create_test_config()).unwrap();
    let hash = store.hash_value("r@example.com");
    store.restore_mapping(EntityMapping {
        id: "id-1".to_string(),
        entity_type: "email".to_string(),
        original_value_hash: hash,
        fake_value: "r@fake.com".to_string(),
        created_at: 7,
    });
    assert_eq!(store.get_mapping("email", "r@example.com").unwrap(), Some("r@fake.com".to_string()));
    assert_eq!(store.get_statistics().unwrap().oldest_mapping_age, Some(7));
}

#[test]
fn test_cleanup_expired_entries_with_cache() {
    let mut config = create_test_config();
    config.retention_days = Some(0);

    let mut store = MappingStore::new(config).unwrap();

    let entity = create_test_entity();
    store.store_mapping(&entity).unwrap();

    let text = "Text to cache";
    let entities = vec![detected("test", "test", 0, 4, 0.9)];
    store.store_llm_cache(text, &entities, "test-model").unwrap();

    let started = std::time::Instant::now();
    while started.elapsed() < std::time::Duration::from_millis(1100) {
        std::hint::spin_loop();
    }

    let deleted = store.cleanup_expired_mappings().unwrap();
    assert_eq!(deleted, 2);

    let mapping_result = store.get_mapping("email", "john@example.com").unwrap();
    assert!(mapping_result.is_none());

    let cache_result = store.get_llm_cache(text, "test-model").unwrap();
    assert!(cache_result.is_none());
}

#[test]
fn test_llm_cache_persistence_across_store_recreations() {
    let config = create_test_config();
    let text = "Persistent cache test with John Doe";
    let entities = vec![detected("person_name", "John Doe", 28, 36, 0.95)];
    let model_name = "persistent-model";

    let mut store1 = MappingStore::new(config.clone()).unwrap();
    store1.store_llm_cache(text, &entities, model_name).unwrap();
    let cached = store1.get_llm_cache(text, model_name).unwrap().unwrap();
    assert_eq!(cached.len(), 1);
    assert_eq!(cached[0].original_value, "John Doe");

    // A new store over the same database reads back the rows the first one
    // wrote.
    let mut store2 = MappingStore::new(config.clone()).unwrap();
    for e in store1.cache_rows() {
        store2.store_llm_cache_at(&e.original_text, &e.llm_result, &e.model_name, e.created_at, e.id.clone());
    }
    drop(store1);

    let cached = store2.get_llm_cache(text, model_name).unwrap().unwrap();
    assert_eq!(cached.len(), 1);
    assert_eq!(cached[0].entity_type, "person_name");
    assert_eq!(cached[0].original_value, "John Doe");
    assert_eq!(cached[0].confidence, conf(0.95));

    let stats = store2.get_statistics().unwrap();
    assert_eq!(stats.total_cache_entries, 1);
}

#[test]
fn cache_entry_survives_stores_for_other_models() {
    let mut store = MappingStore::new(create_test_config()).unwrap();
    store.store_llm_cache("t", &[detected("a", "b", 0, 1, 0.9)], "m1").unwrap();
    store.store_llm_cache("t", &[], "m2").unwrap();
    store.store_llm_cache("u", &[], "m1").unwrap();
    let v = store.get_llm_cache("t", "m1").unwrap().unwrap();
    assert_eq!(v.len(), 1);
    assert_eq!(v[0].original_value, "b");
}
