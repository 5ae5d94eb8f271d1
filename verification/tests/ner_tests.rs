use mcp_server_conceal_core::ner::{decode_bio_entities, normalize_label, TokenTag};

fn labels() -> Vec<String> {
    ["O", "B-MISC", "I-MISC", "B-PER", "I-PER", "B-ORG", "I-ORG", "B-LOC", "I-LOC"]
        .iter()
        .map(|l| l.to_string())
        .collect()
}

fn tok(start: usize, end: usize, label: usize, score: u64) -> TokenTag {
    TokenTag { start, end, label, score }
}

#[test]
fn labels_are_normalised() {
    assert_eq!(normalize_label("PER"), "person_name");
    assert_eq!(normalize_label("person"), "person_name");
    assert_eq!(normalize_label("LOC"), "address");
    assert_eq!(normalize_label("ADDRESS"), "address");
    assert_eq!(normalize_label("ORG"), "organization");
    assert_eq!(normalize_label("DATE_OF_BIRTH"), "date_of_birth");
    assert_eq!(normalize_label("MISC"), "misc");
}

#[test]
fn bio_tags_make_entities() {
    let text = "John Smith works at Acme in Paris";
    let tokens = vec![
        tok(0, 0, 0, 1),
        tok(0, 4, 3, 10),
        tok(5, 10, 4, 20),
        tok(11, 16, 0, 5),
        tok(17, 19, 0, 5),
        tok(20, 24, 5, 7),
        tok(25, 27, 0, 5),
        tok(28, 33, 7, 9),
        tok(0, 0, 0, 1),
    ];
    let e = decode_bio_entities(text, &labels(), &tokens);
    assert_eq!(e.len(), 3);
    assert_eq!(e[0].entity_type, "person_name");
    assert_eq!(e[0].original_value, "John Smith");
    assert_eq!((e[0].start, e[0].end, e[0].confidence), (0, 10, 20));
    assert_eq!(e[1].entity_type, "organization");
    assert_eq!(e[1].original_value, "Acme");
    assert_eq!(e[2].entity_type, "address");
    assert_eq!(e[2].original_value, "Paris");
}

#[test]
fn inside_tag_of_other_kind_starts_new_entity() {
    let text = "Anna Berlin";
    let tokens = vec![tok(0, 4, 3, 3), tok(5, 11, 8, 4)];
    let e = decode_bio_entities(text, &labels(), &tokens);
    assert_eq!(e.len(), 2);
    assert_eq!(e[0].original_value, "Anna");
    assert_eq!(e[1].entity_type, "address");
    assert_eq!(e[1].original_value, "Berlin");
}

#[test]
fn special_token_ends_entity() {
    let text = "Bob Lee";
    let tokens = vec![tok(0, 3, 3, 3), tok(0, 0, 4, 3), tok(4, 7, 4, 3)];
    let e = decode_bio_entities(text, &labels(), &tokens);
    assert_eq!(e.len(), 2);
    assert_eq!(e[0].original_value, "Bob");
    assert_eq!(e[1].original_value, "Lee");
}

#[test]
fn unknown_label_index_is_outside() {
    let text = "Bob";
    let tokens = vec![tok(0, 3, 99, 3)];
    assert!(decode_bio_entities(text, &labels(), &tokens).is_empty());
}

#[test]
fn whitespace_entities_are_dropped() {
    let text = "a   b";
    let tokens = vec![tok(1, 4, 3, 3)];
    assert!(decode_bio_entities(text, &labels(), &tokens).is_empty());
}

#[test]
fn tokens_outside_entities_may_go_backwards() {
    let text = "0123456789Alice";
    let tokens = vec![tok(10, 15, 3, 5), tok(0, 5, 0, 1)];
    let e = decode_bio_entities(text, &labels(), &tokens);
    assert_eq!(e.len(), 1);
    assert_eq!(e[0].original_value, "Alice");
    assert_eq!((e[0].start, e[0].end), (10, 15));
}

#[test]
fn spans_are_listed_before_the_text_is_read() {
    let tokens = vec![tok(0, 3, 3, 2), tok(4, 7, 4, 9), tok(8, 9, 0, 1), tok(10, 12, 2, 4)];
    let spans = mcp_server_conceal_core::ner::bio_spans_exec(&labels(), &tokens);
    assert_eq!(
        spans,
        vec![("PER".to_string(), 0, 7, 9), ("MISC".to_string(), 10, 12, 4)]
    );
}

#[test]
fn ordered_tokens_give_ordered_disjoint_entities() {
    let text = "Ann Lee met Bob at Acme Corp";
    let tokens = vec![
        tok(0, 0, 0, 1),
        tok(0, 3, 3, 10),
        tok(4, 7, 4, 20),
        tok(8, 11, 0, 5),
        tok(12, 15, 3, 7),
        tok(16, 18, 0, 5),
        tok(19, 23, 5, 9),
        tok(24, 28, 6, 8),
        tok(0, 0, 0, 1),
    ];
    let e = decode_bio_entities(text, &labels(), &tokens);
    assert_eq!(e.len(), 3);
    for w in e.windows(2) {
        assert!(w[0].start <= w[0].end);
        assert!(w[0].end <= w[1].start);
    }
    assert_eq!((e[0].start, e[0].end), (0, 7));
    assert_eq!((e[1].start, e[1].end), (12, 15));
    assert_eq!((e[2].start, e[2].end), (19, 28));
}
