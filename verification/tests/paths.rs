use git_subcopy::bytepath::{join_path, split_path, strip_prefix};
use git_subcopy::errors::ConfigField;
use git_subcopy::store::{ConfigEntry, ProvenanceStore, SubcopyConfig};

fn b(s: &str) -> Vec<u8> {
    s.as_bytes().to_vec()
}

#[test]
fn join_inserts_exactly_one_separator() {
    assert_eq!(join_path(&b("a/b"), &b("c")), b("a/b/c"));
    assert_eq!(join_path(&b("a/b/"), &b("c")), b("a/b/c"));
    assert_eq!(join_path(&b(""), &b("c")), b("c"));
    assert_eq!(join_path(&b("a/b"), &b("")), b("a/b"));
}

#[test]
fn strip_requires_a_segment_boundary() {
    assert_eq!(strip_prefix(&b("/repo"), &b("/repo/v/x")), Some(b("v/x")));
    assert_eq!(strip_prefix(&b("/repo"), &b("/repo")), Some(b("")));
    assert_eq!(strip_prefix(&b("/"), &b("/v/x")), Some(b("v/x")));
    assert_eq!(strip_prefix(&b("/repo"), &b("/repository")), None);
    assert_eq!(strip_prefix(&b("/repo"), &b("/rep")), None);
}

#[test]
fn split_keeps_empty_segments() {
    let segs = split_path(&b("a/b.c/d"));
    assert_eq!(segs, vec![b("a"), b("b.c"), b("d")]);
    assert_eq!(split_path(&b("")), vec![b("")]);
    assert_eq!(split_path(&b("a//b")), vec![b("a"), b(""), b("b")]);
}

#[test]
fn a_valueless_entry_clears_a_listed_field() {
    let store = ProvenanceStore::new(b("/repo"));
    let entries = vec![
        ConfigEntry { key: b("subcopy.v.url"), value: Some("kept".to_string()) },
        ConfigEntry { key: b("subcopy.v.url"), value: None },
        ConfigEntry { key: b("subcopy.v.rev"), value: Some("r".to_string()) },
    ];
    let records = store.list(&entries);
    assert_eq!(records.len(), 1);
    assert!(records[0].url.is_none());
    assert_eq!(records[0].rev.as_deref(), Some("r"));
    // A read of the full record then fails on the cleared field.
    assert!(store.get(&b("/repo/v"), &entries).is_err());
}

#[test]
fn get_reads_a_record_with_dots_in_the_destination() {
    let store = ProvenanceStore::new(b("/repo"));
    let entries = vec![
        ConfigEntry { key: b("subcopy.v1.2/lib.url"), value: Some("u".to_string()) },
        ConfigEntry { key: b("subcopy.v1.2/lib.rev"), value: Some("r".to_string()) },
        ConfigEntry { key: b("subcopy.v1.2/lib.upstreamPath"), value: Some("p".to_string()) },
    ];
    let conf = store.get(&b("/repo/v1.2/lib"), &entries).unwrap();
    assert_eq!(
        conf,
        SubcopyConfig { url: "u".to_string(), rev: "r".to_string(), upstream_path: b("p") }
    );
    // The same entries list one record, keyed by the dotted destination.
    let records = store.list(&entries);
    assert_eq!(records.len(), 1);
    assert_eq!(records[0].local_path, b("v1.2/lib"));
}

#[test]
fn field_names_are_case_sensitive() {
    let store = ProvenanceStore::new(b("/repo"));
    let entries = vec![
        ConfigEntry { key: b("subcopy.v.URL"), value: Some("u".to_string()) },
        ConfigEntry { key: b("subcopy.v.upstreampath"), value: Some("p".to_string()) },
    ];
    assert_eq!(store.list(&entries).len(), 0);
    assert!(matches!(
        store.get(&b("/repo/v"), &entries),
        Err(git_subcopy::errors::SubcopyError::MissingField(ConfigField::Url))
    ));
}
