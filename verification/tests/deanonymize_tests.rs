use mcp_server_conceal_core::config::MappingConfig;
use mcp_server_conceal_core::deanonymize::deanonymize_text;
use mcp_server_conceal_core::mapping::MappingStore;
use std::path::PathBuf;

fn store() -> MappingStore {
    MappingStore::new(MappingConfig {
        database_path: PathBuf::from("de.db"),
        encryption: false,
        retention_days: None,
    })
    .unwrap()
}

#[test]
fn fakes_are_restored() {
    let mut s = store();
    s.store_reverse_mapping("mike.wilson@techcorp.com", "john.smith@acme.com").unwrap();
    let out = deanonymize_text("Reply to mike.wilson@techcorp.com please", &s).unwrap();
    assert_eq!(out, "Reply to john.smith@acme.com please");
}

#[test]
fn text_without_fakes_is_unchanged() {
    let mut s = store();
    s.store_reverse_mapping("Fake Name", "Real Name").unwrap();
    assert_eq!(deanonymize_text("nothing to do", &s).unwrap(), "nothing to do");
    assert_eq!(deanonymize_text("", &store()).unwrap(), "");
}

#[test]
fn longer_fakes_go_first() {
    let mut s = store();
    s.store_reverse_mapping("Ann", "Zed").unwrap();
    s.store_reverse_mapping("Ann Lee", "Real Person").unwrap();
    assert_eq!(deanonymize_text("Ann Lee and Ann", &s).unwrap(), "Real Person and Zed");
}

#[test]
fn every_occurrence_is_restored() {
    let mut s = store();
    s.store_reverse_mapping("555-000-1111", "555-123-4567").unwrap();
    assert_eq!(
        deanonymize_text("555-000-1111 or 555-000-1111", &s).unwrap(),
        "555-123-4567 or 555-123-4567"
    );
}
