use git_subcopy::bytepath::path_to_string;
use git_subcopy::errors::{ConfigField, SubcopyError};
use git_subcopy::store::{
    parse_subcopy_key, subcopy_key, ConfigEntry, ProvenanceStore,
};

fn b(s: &str) -> Vec<u8> {
    s.as_bytes().to_vec()
}

fn entry(key: &str, value: &str) -> ConfigEntry {
    ConfigEntry { key: b(key), value: Some(value.to_string()) }
}

#[test]
fn key_building_is_exact() {
    assert_eq!(subcopy_key(&b("vendor/util"), ConfigField::Url), b("subcopy.vendor/util.url"));
    assert_eq!(subcopy_key(&b("vendor/util"), ConfigField::Rev), b("subcopy.vendor/util.rev"));
    assert_eq!(
        subcopy_key(&b("vendor/util"), ConfigField::UpstreamPath),
        b("subcopy.vendor/util.upstreamPath")
    );
}

#[test]
fn key_parsing_round_trips() {
    let (rel, f) = parse_subcopy_key(&b("subcopy.vendor/util.url")).unwrap();
    assert_eq!(rel, b("vendor/util"));
    assert_eq!(f, ConfigField::Url);
}

#[test]
fn key_parsing_keeps_dots_in_the_path() {
    let (rel, f) = parse_subcopy_key(&b("subcopy.a.b/c.d.upstreamPath")).unwrap();
    assert_eq!(rel, b("a.b/c.d"));
    assert_eq!(f, ConfigField::UpstreamPath);
    let (rel, f) = parse_subcopy_key(&b("subcopy.x.rev.url")).unwrap();
    assert_eq!(rel, b("x.rev"));
    assert_eq!(f, ConfigField::Url);
}

#[test]
fn key_parsing_allows_an_empty_path() {
    let (rel, f) = parse_subcopy_key(&b("subcopy..rev")).unwrap();
    assert_eq!(rel, b(""));
    assert_eq!(f, ConfigField::Rev);
}

#[test]
fn foreign_keys_do_not_parse() {
    assert!(parse_subcopy_key(&b("subcopy.url")).is_none());
    assert!(parse_subcopy_key(&b("other.x.url")).is_none());
    assert!(parse_subcopy_key(&b("subcopy.x.xurl")).is_none());
    assert!(parse_subcopy_key(&b("subcopy.x.version")).is_none());
    assert!(parse_subcopy_key(&b("url")).is_none());
}

#[test]
fn canonicalize_strips_the_working_directory() {
    let store = ProvenanceStore::new(b("/repo"));
    assert_eq!(store.canonicalize(&b("/repo/vendor/util")).unwrap(), b("vendor/util"));
    assert_eq!(store.canonicalize(&b("/repo")).unwrap(), b(""));
}

#[test]
fn canonicalize_outside_the_repository_fails() {
    let store = ProvenanceStore::new(b("/repo"));
    assert_eq!(store.canonicalize(&b("/elsewhere/x")), Err(SubcopyError::OutsideRepository));
    assert_eq!(store.canonicalize(&b("/repository/x")), Err(SubcopyError::OutsideRepository));
    assert_eq!(store.canonicalize(&b("/rep")), Err(SubcopyError::OutsideRepository));
}

#[test]
fn register_reports_the_three_writes() {
    let store = ProvenanceStore::new(b("/repo"));
    let w = store
        .register("https://example/repo.git", "abc123", &b("lib/util"), &b("/repo/vendor/util"))
        .unwrap();
    assert_eq!(w.len(), 3);
    assert_eq!(w[0].key, b("subcopy.vendor/util.url"));
    assert_eq!(w[0].value, "https://example/repo.git");
    assert_eq!(w[1].key, b("subcopy.vendor/util.rev"));
    assert_eq!(w[1].value, "abc123");
    assert_eq!(w[2].key, b("subcopy.vendor/util.upstreamPath"));
    assert_eq!(w[2].value, "lib/util");
}

#[test]
fn register_outside_the_repository_fails() {
    let store = ProvenanceStore::new(b("/repo"));
    let r = store.register("u", "r", &b("p"), &b("/other/place"));
    assert_eq!(r, Err(SubcopyError::OutsideRepository));
}

#[test]
fn register_rejects_non_utf8_paths() {
    let store = ProvenanceStore::new(b("/repo"));
    let mut bad = b("/repo/");
    bad.push(0xff);
    assert_eq!(store.register("u", "r", &b("p"), &bad), Err(SubcopyError::NonUtf8Name));
    let r = store.register("u", "r", &vec![0xfe, 0xff], &b("/repo/ok"));
    assert_eq!(r, Err(SubcopyError::NonUtf8Name));
}

#[test]
fn register_get_round_trip() {
    let store = ProvenanceStore::new(b("/repo"));
    let w = store
        .register("https://example/repo.git", "abc123", &b("lib/util"), &b("/repo/vendor/util"))
        .unwrap();
    let entries: Vec<ConfigEntry> = w
        .into_iter()
        .map(|wr| ConfigEntry { key: wr.key, value: Some(wr.value) })
        .collect();
    let conf = store.get(&b("/repo/vendor/util"), &entries).unwrap();
    assert_eq!(conf.url, "https://example/repo.git");
    assert_eq!(conf.rev, "abc123");
    assert_eq!(conf.upstream_path, b("lib/util"));
}

#[test]
fn get_outside_the_repository_fails() {
    let store = ProvenanceStore::new(b("/repo"));
    assert!(matches!(
        store.get(&b("/outside"), &vec![]),
        Err(SubcopyError::OutsideRepository)
    ));
}

#[test]
fn get_names_the_first_missing_field() {
    let store = ProvenanceStore::new(b("/repo"));
    let r = store.get(&b("/repo/v"), &vec![]);
    assert_eq!(r, Err(SubcopyError::MissingField(ConfigField::Url)));
    let r = store.get(&b("/repo/v"), &vec![entry("subcopy.v.url", "u")]);
    assert_eq!(r, Err(SubcopyError::MissingField(ConfigField::Rev)));
    let r = store.get(
        &b("/repo/v"),
        &vec![entry("subcopy.v.url", "u"), entry("subcopy.v.rev", "r")],
    );
    assert_eq!(r, Err(SubcopyError::MissingField(ConfigField::UpstreamPath)));
}

#[test]
fn get_takes_the_last_value_for_a_key() {
    let store = ProvenanceStore::new(b("/repo"));
    let entries = vec![
        entry("subcopy.v.url", "old"),
        entry("subcopy.v.rev", "r"),
        entry("subcopy.v.upstreamPath", "p"),
        entry("subcopy.v.url", "new"),
    ];
    let conf = store.get(&b("/repo/v"), &entries).unwrap();
    assert_eq!(conf.url, "new");
}

#[test]
fn list_returns_one_record_per_destination() {
    let store = ProvenanceStore::new(b("/repo"));
    // Two complete registrations on disjoint paths, deliberately interleaved
    // and out of order.
    let entries = vec![
        entry("subcopy.a.rev", "ra"),
        entry("subcopy.b.url", "ub"),
        entry("subcopy.a.url", "ua"),
        entry("subcopy.b.upstreamPath", "pb"),
        entry("subcopy.a.upstreamPath", "pa"),
        entry("subcopy.b.rev", "rb"),
    ];
    let records = store.list(&entries);
    assert_eq!(records.len(), 2);
    let a = records.iter().find(|r| r.local_path == b("a")).unwrap();
    assert_eq!(a.url.as_deref(), Some("ua"));
    assert_eq!(a.rev.as_deref(), Some("ra"));
    assert_eq!(a.upstream_path.as_ref().unwrap(), &b("pa"));
    let bb = records.iter().find(|r| r.local_path == b("b")).unwrap();
    assert_eq!(bb.url.as_deref(), Some("ub"));
    assert_eq!(bb.rev.as_deref(), Some("rb"));
    assert_eq!(bb.upstream_path.as_ref().unwrap(), &b("pb"));
}

#[test]
fn list_tolerates_partial_records() {
    let store = ProvenanceStore::new(b("/repo"));
    let records = store.list(&vec![entry("subcopy.only/url.url", "u")]);
    assert_eq!(records.len(), 1);
    assert_eq!(records[0].local_path, b("only/url"));
    assert_eq!(records[0].url.as_deref(), Some("u"));
    assert!(records[0].rev.is_none());
    assert!(records[0].upstream_path.is_none());
}

#[test]
fn list_ignores_foreign_keys_and_takes_last_values() {
    let store = ProvenanceStore::new(b("/repo"));
    let entries = vec![
        entry("core.editor", "vi"),
        entry("subcopy.v.url", "first"),
        entry("subcopy.v.url", "second"),
        entry("subcopyx.v.rev", "no"),
    ];
    let records = store.list(&entries);
    assert_eq!(records.len(), 1);
    assert_eq!(records[0].local_path, b("v"));
    assert_eq!(records[0].url.as_deref(), Some("second"));
    assert!(records[0].rev.is_none());
}

#[test]
fn path_to_string_requires_utf8() {
    assert_eq!(path_to_string(&b("vendor/util")).unwrap(), "vendor/util");
    assert_eq!(path_to_string(&vec![0xff, 0x30]), Err(SubcopyError::NonUtf8Name));
}
