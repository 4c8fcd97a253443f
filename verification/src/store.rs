//! Provenance records and the key/value store that persists them.
//!
//! A record associates a destination path, relative to the root of the
//! repository that holds the copy, with the upstream location it was copied
//! from. Records live in a textual key/value store under keys of the form
//! `subcopy.<relative-path>.<field>` with field one of `url`, `rev` and
//! `upstreamPath`; the relative path between the fixed prefix and the
//! trailing field suffix is opaque and may itself contain dots and path
//! separators. The store itself is external: this module computes the exact
//! writes a registration makes and reads records back out of a plain list of
//! the store's entries.

use vstd::prelude::*;

use crate::bytepath::{
    bytes_eq, bytes_ends_with, bytes_starts_with, chars_to_bytes, path_to_string, push_bytes,
    spec_strip, strip_prefix, sub_bytes,
};
use crate::errors::{ConfigField, SubcopyError};

verus! {

/// The dot that separates the components of a key.
pub const DOT: u8 = 46;

/// The bytes of the fixed key prefix, `subcopy.`.
pub open spec fn key_prefix() -> Seq<u8> {
    chars_to_bytes("subcopy."@)
}

/// The bytes of a field's trailing name.
pub open spec fn field_name(f: ConfigField) -> Seq<u8> {
    match f {
        ConfigField::Url => chars_to_bytes("url"@),
        ConfigField::Rev => chars_to_bytes("rev"@),
        ConfigField::UpstreamPath => chars_to_bytes("upstreamPath"@),
    }
}

/// The full key that stores field `f` of the record at `rel`.
pub open spec fn key_of(rel: Seq<u8>, f: ConfigField) -> Seq<u8> {
    key_prefix() + rel + seq![DOT] + field_name(f)
}

/// Whether `key` is `subcopy.`, then anything, then a dot and the name of
/// field `f`.
pub open spec fn has_key_form(key: Seq<u8>, f: ConfigField) -> bool {
    let fl = field_name(f).len() as int;
    &&& key.len() >= key_prefix().len() + 1 + fl
    &&& key.take(key_prefix().len() as int) == key_prefix()
    &&& key.skip(key.len() - fl) == field_name(f)
    &&& key[key.len() - fl - 1] == DOT
}

/// The opaque middle of a key of field `f`: everything between the prefix
/// and the trailing dot and field name.
pub open spec fn rel_of_key(key: Seq<u8>, f: ConfigField) -> Seq<u8> {
    key.subrange(key_prefix().len() as int, key.len() - field_name(f).len() - 1)
}

/// Splits a key into the destination path and field it stores, taking the
/// field from the trailing suffix so that the path may contain dots.
pub open spec fn parse_key(key: Seq<u8>) -> Option<(Seq<u8>, ConfigField)> {
    if has_key_form(key, ConfigField::Url) {
        Some((rel_of_key(key, ConfigField::Url), ConfigField::Url))
    } else if has_key_form(key, ConfigField::Rev) {
        Some((rel_of_key(key, ConfigField::Rev), ConfigField::Rev))
    } else if has_key_form(key, ConfigField::UpstreamPath) {
        Some((rel_of_key(key, ConfigField::UpstreamPath), ConfigField::UpstreamPath))
    } else {
        None
    }
}

/// The key prefix as a byte string.
fn key_prefix_bytes() -> (r: Vec<u8>)
    ensures
        r@ == key_prefix(),
{
    let r: Vec<u8> = vec![115u8, 117u8, 98u8, 99u8, 111u8, 112u8, 121u8, 46u8];
    proof {
        reveal_strlit("subcopy.");
        assert(r@ =~= key_prefix());
    }
    r
}

/// A field's trailing name as a byte string.
fn field_bytes(f: ConfigField) -> (r: Vec<u8>)
    ensures
        r@ == field_name(f),
{
    match f {
        ConfigField::Url => {
            let r: Vec<u8> = vec![117u8, 114u8, 108u8];
            proof {
                reveal_strlit("url");
                assert(r@ =~= field_name(ConfigField::Url));
            }
            r
        },
        ConfigField::Rev => {
            let r: Vec<u8> = vec![114u8, 101u8, 118u8];
            proof {
                reveal_strlit("rev");
                assert(r@ =~= field_name(ConfigField::Rev));
            }
            r
        },
        ConfigField::UpstreamPath => {
            let r: Vec<u8> = vec![
                117u8,
                112u8,
                115u8,
                116u8,
                114u8,
                101u8,
                97u8,
                109u8,
                80u8,
                97u8,
                116u8,
                104u8,
            ];
            proof {
                reveal_strlit("upstreamPath");
                assert(r@ =~= field_name(ConfigField::UpstreamPath));
            }
            r
        },
    }
}

/// Builds the key that stores field `field` of the record at `rel`.
pub fn subcopy_key(rel: &Vec<u8>, field: ConfigField) -> (r: Vec<u8>)
    ensures
        r@ == key_of(rel@, field),
{
    let mut r = key_prefix_bytes();
    push_bytes(&mut r, rel);
    r.push(DOT);
    let fb = field_bytes(field);
    push_bytes(&mut r, &fb);
    proof {
        assert(r@ =~= key_of(rel@, field));
    }
    r
}

/// Splits a key as `parse_key` does.
pub fn parse_subcopy_key(key: &Vec<u8>) -> (r: Option<(Vec<u8>, ConfigField)>)
    ensures
        match r {
            Some(p) => parse_key(key@) == Some((p.0@, p.1)),
            None => parse_key(key@) is None,
        },
{
    let prefix = key_prefix_bytes();
    if !bytes_starts_with(key, &prefix) {
        return None;
    }
    if let Some(rel) = try_field(key, &prefix, ConfigField::Url) {
        return Some((rel, ConfigField::Url));
    }
    if let Some(rel) = try_field(key, &prefix, ConfigField::Rev) {
        return Some((rel, ConfigField::Rev));
    }
    if let Some(rel) = try_field(key, &prefix, ConfigField::UpstreamPath) {
        return Some((rel, ConfigField::UpstreamPath));
    }
    None
}

/// A complete provenance record: where a destination's content came from.
#[derive(Debug, PartialEq, Eq)]
pub struct SubcopyConfig {
    /// The upstream location.
    pub url: String,
    /// The resolved revision identifier the copy was taken at.
    pub rev: String,
    /// The path inside the upstream tree that was copied.
    pub upstream_path: Vec<u8>,
}

/// A possibly partial provenance record, as a diagnostic listing reports it:
/// an absent field means that property was never recorded.
#[derive(Debug, PartialEq, Eq)]
pub struct SubcopyConfigOption {
    pub url: Option<String>,
    pub rev: Option<String>,
    pub upstream_path: Option<Vec<u8>>,
    /// The destination path the record is keyed by.
    pub local_path: Vec<u8>,
}

/// One entry read from the persisted store: its full key, and its value
/// where the value is text (a value that is not text reads as `None`).
#[derive(Debug, PartialEq, Eq)]
pub struct ConfigEntry {
    pub key: Vec<u8>,
    pub value: Option<String>,
}

/// One write into the persisted store.
#[derive(Debug, PartialEq, Eq)]
pub struct ConfigWrite {
    pub key: Vec<u8>,
    pub value: String,
}

/// The text of an optional string.
pub open spec fn opt_str_view(o: Option<String>) -> Option<Seq<char>> {
    match o {
        Some(s) => Some(s@),
        None => None,
    }
}

/// The value the store holds under `key`: the value of the last entry with
/// that key, or `None` where no entry has it.
pub open spec fn last_value(entries: Seq<ConfigEntry>, key: Seq<u8>) -> Option<Option<Seq<char>>>
    decreases entries.len(),
{
    if entries.len() == 0 {
        None
    } else if entries.last().key@ == key {
        Some(opt_str_view(entries.last().value))
    } else {
        last_value(entries.drop_last(), key)
    }
}

/// The text stored for field `f` of the record at `rel`, where the store
/// holds a textual value for it.
pub open spec fn stored_field(entries: Seq<ConfigEntry>, rel: Seq<u8>, f: ConfigField) -> Option<
    Seq<char>,
> {
    match last_value(entries, key_of(rel, f)) {
        Some(Some(v)) => Some(v),
        _ => None,
    }
}

/// The store of provenance records of one repository, addressed relative to
/// the repository's canonical working directory.
pub struct ProvenanceStore {
    /// The canonical path of the working directory that destination paths
    /// must resolve inside.
    pub workdir: Vec<u8>,
}

impl ProvenanceStore {
    /// A store for the repository whose canonical working directory is
    /// `workdir`.
    pub fn new(workdir: Vec<u8>) -> (s: Self)
        ensures
            s.workdir@ == workdir@,
    {
        ProvenanceStore { workdir }
    }

    /// The destination path relative to the working directory, or
    /// `OutsideRepository` where the (already canonical) destination does
    /// not resolve inside it. A pure resolution: no side effect accompanies
    /// the failure.
    pub fn canonicalize(&self, local_path: &Vec<u8>) -> (r: Result<Vec<u8>, SubcopyError>)
        ensures
            match spec_strip(self.workdir@, local_path@) {
                Some(rel) => r matches Ok(v) && v@ == rel,
                None => r == Err::<Vec<u8>, SubcopyError>(SubcopyError::OutsideRepository),
            },
    {
        match strip_prefix(&self.workdir, local_path) {
            Some(rel) => Ok(rel),
            None => Err(SubcopyError::OutsideRepository),
        }
    }

    /// The three writes that record `(url, rev, upstream_path)` for the
    /// destination `local_path`, overwriting any previous record at the same
    /// destination. Fails with `OutsideRepository` where the destination
    /// does not resolve inside the working directory, and with `NonUtf8Name`
    /// where the relative destination or the upstream path cannot be written
    /// as text; no write is reported on any failure.
    pub fn register(
        &self,
        url: &str,
        rev: &str,
        upstream_path: &Vec<u8>,
        local_path: &Vec<u8>,
    ) -> (r: Result<Vec<ConfigWrite>, SubcopyError>)
        ensures
            ({
                let st = spec_strip(self.workdir@, local_path@);
                match r {
                    Ok(w) => st matches Some(rel) && vstd::utf8::valid_utf8(rel)
                        && vstd::utf8::valid_utf8(upstream_path@) && w@.len() == 3 && w@[0].key@
                        == key_of(rel, ConfigField::Url) && w@[0].value@ == url@ && w@[1].key@
                        == key_of(rel, ConfigField::Rev) && w@[1].value@ == rev@ && w@[2].key@
                        == key_of(rel, ConfigField::UpstreamPath) && vstd::utf8::encode_utf8(
                        w@[2].value@,
                    ) == upstream_path@,
                    Err(SubcopyError::OutsideRepository) => st is None,
                    Err(SubcopyError::NonUtf8Name) => st matches Some(rel) && !(
                    vstd::utf8::valid_utf8(rel) && vstd::utf8::valid_utf8(upstream_path@)),
                    Err(_) => false,
                }
            }),
    {
        let rel = match strip_prefix(&self.workdir, local_path) {
            Some(rel) => rel,
            None => {
                return Err(SubcopyError::OutsideRepository);
            },
        };
        match path_to_string(&rel) {
            Ok(_) => (),
            Err(e) => {
                return Err(e);
            },
        };
        let upstream_str = match path_to_string(upstream_path) {
            Ok(s) => s,
            Err(e) => {
                return Err(e);
            },
        };
        let mut w: Vec<ConfigWrite> = Vec::new();
        w.push(ConfigWrite { key: subcopy_key(&rel, ConfigField::Url), value: url.to_owned() });
        w.push(ConfigWrite { key: subcopy_key(&rel, ConfigField::Rev), value: rev.to_owned() });
        w.push(
            ConfigWrite {
                key: subcopy_key(&rel, ConfigField::UpstreamPath),
                value: upstream_str,
            },
        );
        Ok(w)
    }

    /// The complete record at the destination `key_path`: each field is the
    /// value the store holds under that destination's key, and the first
    /// field (in the order url, rev, upstreamPath) that the store holds no
    /// text for fails the read with `MissingField` naming it.
    pub fn get(&self, key_path: &Vec<u8>, entries: &Vec<ConfigEntry>) -> (r: Result<
        SubcopyConfig,
        SubcopyError,
    >)
        ensures
            ({
                let st = spec_strip(self.workdir@, key_path@);
                match r {
                    Ok(conf) => st matches Some(rel) && vstd::utf8::valid_utf8(rel)
                        && stored_field(entries@, rel, ConfigField::Url) == Some(conf.url@)
                        && stored_field(entries@, rel, ConfigField::Rev) == Some(conf.rev@) && (
                    stored_field(entries@, rel, ConfigField::UpstreamPath) matches Some(v)
                        && vstd::utf8::encode_utf8(v) == conf.upstream_path@),
                    Err(SubcopyError::OutsideRepository) => st is None,
                    Err(SubcopyError::NonUtf8Name) => st matches Some(rel)
                        && !vstd::utf8::valid_utf8(rel),
                    Err(SubcopyError::MissingField(f)) => st matches Some(rel)
                        && vstd::utf8::valid_utf8(rel) && stored_field(entries@, rel, f) is None
                        && match f {
                        ConfigField::Url => true,
                        ConfigField::Rev => stored_field(entries@, rel, ConfigField::Url) is Some,
                        ConfigField::UpstreamPath => stored_field(
                            entries@,
                            rel,
                            ConfigField::Url,
                        ) is Some && stored_field(entries@, rel, ConfigField::Rev) is Some,
                    },
                    Err(_) => false,
                }
            }),
    {
        let rel = match strip_prefix(&self.workdir, key_path) {
            Some(rel) => rel,
            None => {
                return Err(SubcopyError::OutsideRepository);
            },
        };
        match path_to_string(&rel) {
            Ok(_) => (),
            Err(e) => {
                return Err(e);
            },
        };
        let k_url = subcopy_key(&rel, ConfigField::Url);
        let url = match lookup_value(entries, &k_url) {
            Some(Some(s)) => s,
            _ => {
                return Err(SubcopyError::MissingField(ConfigField::Url));
            },
        };
        let k_rev = subcopy_key(&rel, ConfigField::Rev);
        let rev = match lookup_value(entries, &k_rev) {
            Some(Some(s)) => s,
            _ => {
                return Err(SubcopyError::MissingField(ConfigField::Rev));
            },
        };
        let k_up = subcopy_key(&rel, ConfigField::UpstreamPath);
        let up_s = match lookup_value(entries, &k_up) {
            Some(Some(s)) => s,
            _ => {
                return Err(SubcopyError::MissingField(ConfigField::UpstreamPath));
            },
        };
        let upstream_path = vstd::string::StrSliceExecFns::as_bytes_vec(up_s.as_str());
        Ok(SubcopyConfig { url, rev, upstream_path })
    }
}

/// Whether the entry's key parses to the destination `m`.
pub open spec fn parsed_to(e: ConfigEntry, m: Seq<u8>) -> bool {
    parse_key(e.key@) matches Some(p) && p.0 == m
}

/// Whether some entry's key parses to the destination `m`.
pub open spec fn key_occurs(entries: Seq<ConfigEntry>, m: Seq<u8>) -> bool {
    exists|i: int| 0 <= i < entries.len() && #[trigger] parsed_to(entries[i], m)
}

/// The value of the last entry whose key parses to field `f` at destination
/// `m`, or `None` where no entry does.
pub open spec fn listed_field(entries: Seq<ConfigEntry>, m: Seq<u8>, f: ConfigField) -> Option<
    Option<Seq<char>>,
>
    decreases entries.len(),
{
    if entries.len() == 0 {
        None
    } else if parse_key(entries.last().key@) == Some((m, f)) {
        Some(opt_str_view(entries.last().value))
    } else {
        listed_field(entries.drop_last(), m, f)
    }
}

/// An absent or valueless listing collapses to an absent field.
pub open spec fn flattened(o: Option<Option<Seq<char>>>) -> Option<Seq<char>> {
    match o {
        Some(v) => v,
        None => None,
    }
}

/// Whether a listed record carries exactly the fields the entries store for
/// its destination.
pub open spec fn record_matches(rec: SubcopyConfigOption, entries: Seq<ConfigEntry>) -> bool {
    &&& opt_str_view(rec.url) == flattened(
        listed_field(entries, rec.local_path@, ConfigField::Url),
    )
    &&& opt_str_view(rec.rev) == flattened(
        listed_field(entries, rec.local_path@, ConfigField::Rev),
    )
    &&& (match flattened(listed_field(entries, rec.local_path@, ConfigField::UpstreamPath)) {
        Some(v) => rec.upstream_path matches Some(p) && p@ == vstd::utf8::encode_utf8(v),
        None => rec.upstream_path is None,
    })
}

/// Whether the listing holds a record for the destination `m`.
pub open spec fn record_present(r: Seq<SubcopyConfigOption>, m: Seq<u8>) -> bool {
    exists|k: int| 0 <= k < r.len() && (#[trigger] r[k].local_path)@ == m
}

/// Extending the entries by one changes a listed field only where the new
/// entry's key parses to exactly that destination and field.
proof fn lemma_step_listed(entries: Seq<ConfigEntry>, i: int, m: Seq<u8>, f: ConfigField)
    requires
        0 <= i < entries.len(),
    ensures
        listed_field(entries.take(i + 1), m, f) == (if parse_key(entries[i].key@) == Some(
            (m, f),
        ) {
            Some(opt_str_view(entries[i].value))
        } else {
            listed_field(entries.take(i), m, f)
        }),
{
    assert(entries.take(i + 1).last() == entries[i]);
    assert(entries.take(i + 1).drop_last() =~= entries.take(i));
}

/// Extending the entries by one adds exactly the destination the new entry's
/// key parses to.
proof fn lemma_step_occurs(entries: Seq<ConfigEntry>, i: int, m: Seq<u8>)
    requires
        0 <= i < entries.len(),
    ensures
        key_occurs(entries.take(i + 1), m) <==> (key_occurs(entries.take(i), m) || parsed_to(
            entries[i],
            m,
        )),
{
    let next = entries.take(i + 1);
    let prefix = entries.take(i);
    if key_occurs(next, m) {
        let j = choose|j: int| 0 <= j < next.len() && #[trigger] parsed_to(next[j], m);
        if j < i {
            assert(prefix[j] == next[j]);
            assert(key_occurs(prefix, m));
        } else {
            assert(next[j] == entries[i]);
        }
    }
    if key_occurs(prefix, m) {
        let j = choose|j: int| 0 <= j < prefix.len() && #[trigger] parsed_to(prefix[j], m);
        assert(next[j] == prefix[j]);
        assert(key_occurs(next, m));
    }
    if parsed_to(entries[i], m) {
        assert(parsed_to(next[i], m));
        assert(key_occurs(next, m));
    }
}

/// A destination no key parses to has no listed field.
proof fn lemma_no_occurrence_no_field(entries: Seq<ConfigEntry>, m: Seq<u8>, f: ConfigField)
    requires
        !key_occurs(entries, m),
    ensures
        listed_field(entries, m, f) is None,
    decreases entries.len(),
{
    if entries.len() > 0 {
        assert(!key_occurs(entries.drop_last(), m)) by {
            if key_occurs(entries.drop_last(), m) {
                let j = choose|j: int|
                    0 <= j < entries.drop_last().len() && #[trigger] parsed_to(
                        entries.drop_last()[j],
                        m,
                    );
                assert(parsed_to(entries[j], m));
            }
        }
        assert(parse_key(entries.last().key@) != Some((m, f))) by {
            if parse_key(entries.last().key@) == Some((m, f)) {
                assert(parsed_to(entries[entries.len() - 1], m));
            }
        }
        lemma_no_occurrence_no_field(entries.drop_last(), m, f);
    }
}

/// The text of a doubly optional string.
pub open spec fn opt2_view(o: Option<Option<String>>) -> Option<Option<Seq<char>>> {
    match o {
        Some(v) => Some(opt_str_view(v)),
        None => None,
    }
}

/// Copies an optional string.
fn clone_opt_string(o: &Option<String>) -> (r: Option<String>)
    ensures
        opt_str_view(r) == opt_str_view(*o),
        r is Some <==> o is Some,
{
    match o {
        Some(s) => Some(s.clone()),
        None => None,
    }
}

/// Reads the value the store holds under `key`, as `last_value` does.
fn lookup_value(entries: &Vec<ConfigEntry>, key: &Vec<u8>) -> (r: Option<Option<String>>)
    ensures
        opt2_view(r) == last_value(entries@, key@),
{
    let mut i: usize = entries.len();
    proof {
        assert(entries@.take(i as int) =~= entries@);
    }
    while i > 0
        invariant
            i <= entries@.len(),
            last_value(entries@, key@) == last_value(entries@.take(i as int), key@),
        decreases i,
    {
        let ghost prefix = entries@.take(i as int);
        proof {
            assert(prefix.last() == entries@[i - 1]);
            assert(prefix.drop_last() =~= entries@.take(i as int - 1));
        }
        if bytes_eq(&entries[i - 1].key, key) {
            return Some(clone_opt_string(&entries[i - 1].value));
        }
        i = i - 1;
    }
    None
}

/// Tries one field's form on a key whose prefix already matched.
fn try_field(key: &Vec<u8>, prefix: &Vec<u8>, f: ConfigField) -> (r: Option<Vec<u8>>)
    requires
        prefix@ == key_prefix(),
        key@.len() >= prefix@.len(),
        key@.take(prefix@.len() as int) == key_prefix(),
    ensures
        match r {
            Some(rel) => has_key_form(key@, f) && rel@ == rel_of_key(key@, f),
            None => !has_key_form(key@, f),
        },
{
    proof {
        reveal_strlit("subcopy.");
        reveal_strlit("url");
        reveal_strlit("rev");
        reveal_strlit("upstreamPath");
    }
    let fb = field_bytes(f);
    if key.len() < prefix.len() + 1 + fb.len() {
        return None;
    }
    if !bytes_ends_with(key, &fb) {
        return None;
    }
    if key[key.len() - fb.len() - 1] != DOT {
        return None;
    }
    Some(sub_bytes(key, prefix.len(), key.len() - fb.len() - 1))
}

/// Splitting the key built for a destination and field recovers exactly that
/// destination and field, whatever separators or dots the destination holds.
pub proof fn lemma_key_roundtrip(rel: Seq<u8>, f: ConfigField)
    ensures
        parse_key(key_of(rel, f)) == Some((rel, f)),
{
    reveal_strlit("subcopy.");
    reveal_strlit("url");
    reveal_strlit("rev");
    reveal_strlit("upstreamPath");
    let k = key_of(rel, f);
    let pl = key_prefix().len() as int;
    let fl = field_name(f).len() as int;
    assert(k.take(pl) =~= key_prefix());
    assert(k.skip(k.len() - fl) =~= field_name(f));
    assert(k[k.len() - fl - 1] == DOT);
    assert(has_key_form(k, f));
    assert(rel_of_key(k, f) =~= rel);
    match f {
        ConfigField::Url => {
        },
        ConfigField::Rev => {
            assert(!has_key_form(k, ConfigField::Url)) by {
                if has_key_form(k, ConfigField::Url) {
                    assert(k.skip(k.len() - 3)[2] == k[k.len() - 1]);
                }
            }
        },
        ConfigField::UpstreamPath => {
            assert(!has_key_form(k, ConfigField::Url)) by {
                if has_key_form(k, ConfigField::Url) {
                    assert(k.skip(k.len() - 3)[2] == k[k.len() - 1]);
                }
            }
            assert(!has_key_form(k, ConfigField::Rev)) by {
                if has_key_form(k, ConfigField::Rev) {
                    assert(k.skip(k.len() - 3)[2] == k[k.len() - 1]);
                }
            }
        },
    }
}

/// Two equal keys store the same destination and field: the key space of
/// distinct records is disjoint.
pub proof fn lemma_key_injective(r1: Seq<u8>, f1: ConfigField, r2: Seq<u8>, f2: ConfigField)
    requires
        key_of(r1, f1) == key_of(r2, f2),
    ensures
        r1 == r2 && f1 == f2,
{
    lemma_key_roundtrip(r1, f1);
    lemma_key_roundtrip(r2, f2);
}

/// Registering and reading back: after the three writes of one registration
/// land in the store — in their reported order, after any earlier entries —
/// the store holds exactly the registered url, revision and upstream path
/// for that destination.
pub proof fn lemma_register_get_roundtrip(
    base: Seq<ConfigEntry>,
    rel: Seq<u8>,
    e_url: ConfigEntry,
    e_rev: ConfigEntry,
    e_up: ConfigEntry,
)
    requires
        e_url.key@ == key_of(rel, ConfigField::Url),
        e_rev.key@ == key_of(rel, ConfigField::Rev),
        e_up.key@ == key_of(rel, ConfigField::UpstreamPath),
        e_url.value is Some,
        e_rev.value is Some,
        e_up.value is Some,
    ensures
        stored_field(base + seq![e_url, e_rev, e_up], rel, ConfigField::Url) == opt_str_view(
            e_url.value,
        ),
        stored_field(base + seq![e_url, e_rev, e_up], rel, ConfigField::Rev) == opt_str_view(
            e_rev.value,
        ),
        stored_field(base + seq![e_url, e_rev, e_up], rel, ConfigField::UpstreamPath)
            == opt_str_view(e_up.value),
{
    let s = base + seq![e_url, e_rev, e_up];
    assert(s.last() == e_up);
    assert(s.drop_last() =~= base + seq![e_url, e_rev]);
    assert((base + seq![e_url, e_rev]).last() == e_rev);
    assert((base + seq![e_url, e_rev]).drop_last() =~= base + seq![e_url]);
    assert((base + seq![e_url]).last() == e_url);
    assert(e_up.key@ != key_of(rel, ConfigField::Url)) by {
        if e_up.key@ == key_of(rel, ConfigField::Url) {
            lemma_key_injective(rel, ConfigField::UpstreamPath, rel, ConfigField::Url);
        }
    }
    assert(e_rev.key@ != key_of(rel, ConfigField::Url)) by {
        if e_rev.key@ == key_of(rel, ConfigField::Url) {
            lemma_key_injective(rel, ConfigField::Rev, rel, ConfigField::Url);
        }
    }
    assert(e_up.key@ != key_of(rel, ConfigField::Rev)) by {
        if e_up.key@ == key_of(rel, ConfigField::Rev) {
            lemma_key_injective(rel, ConfigField::UpstreamPath, rel, ConfigField::Rev);
        }
    }
    let k_url = key_of(rel, ConfigField::Url);
    let k_rev = key_of(rel, ConfigField::Rev);
    assert(last_value(s, k_url) == last_value(base + seq![e_url, e_rev], k_url));
    assert(last_value(base + seq![e_url, e_rev], k_url) == last_value(base + seq![e_url], k_url));
    assert(last_value(base + seq![e_url], k_url) == Some(opt_str_view(e_url.value)));
    assert(last_value(s, k_rev) == last_value(base + seq![e_url, e_rev], k_rev));
    assert(last_value(base + seq![e_url, e_rev], k_rev) == Some(opt_str_view(e_rev.value)));
}

/// Where every entry that parses to `(m, f)` carries the value `v`, and at
/// least one does, the listing's value for that destination and field is
/// exactly `v`.
proof fn lemma_listed_field_constant(
    entries: Seq<ConfigEntry>,
    m: Seq<u8>,
    f: ConfigField,
    v: Option<Seq<char>>,
)
    requires
        forall|i: int|
            0 <= i < entries.len() && parse_key((#[trigger] entries[i]).key@) == Some((m, f))
                ==> opt_str_view(entries[i].value) == v,
        exists|i: int|
            0 <= i < entries.len() && parse_key((#[trigger] entries[i]).key@) == Some((m, f)),
    ensures
        listed_field(entries, m, f) == Some(v),
    decreases entries.len(),
{
    let w = choose|i: int|
        0 <= i < entries.len() && parse_key((#[trigger] entries[i]).key@) == Some((m, f));
    if parse_key(entries.last().key@) == Some((m, f)) {
        assert(entries[entries.len() - 1] == entries.last());
    } else {
        assert(w < entries.len() - 1);
        assert(entries.drop_last()[w] == entries[w]);
        assert forall|i: int|
            0 <= i < entries.drop_last().len() && parse_key(
                (#[trigger] entries.drop_last()[i]).key@,
            ) == Some((m, f)) implies opt_str_view(entries.drop_last()[i].value) == v by {
            assert(entries.drop_last()[i] == entries[i]);
        }
        lemma_listed_field_constant(entries.drop_last(), m, f, v);
    }
}

/// One registration, in mathematical form.
pub struct RegView {
    pub rel: Seq<u8>,
    pub url: Seq<char>,
    pub rev: Seq<char>,
    pub upstream: Seq<char>,
}

/// Whether the entry is one of the three writes of registration `r`.
pub open spec fn entry_records(e: ConfigEntry, r: RegView) -> bool {
    ||| (e.key@ == key_of(r.rel, ConfigField::Url) && opt_str_view(e.value) == Some(r.url))
    ||| (e.key@ == key_of(r.rel, ConfigField::Rev) && opt_str_view(e.value) == Some(r.rev))
    ||| (e.key@ == key_of(r.rel, ConfigField::UpstreamPath) && opt_str_view(e.value) == Some(
        r.upstream,
    ))
}

/// Whether some entry carries exactly this key.
pub open spec fn entry_key_present(entries: Seq<ConfigEntry>, key: Seq<u8>) -> bool {
    exists|i: int| 0 <= i < entries.len() && (#[trigger] entries[i]).key@ == key
}

/// Whether a listed record carries exactly the values of registration `r`.
pub open spec fn record_is(rec: SubcopyConfigOption, r: RegView) -> bool {
    &&& rec.local_path@ == r.rel
    &&& opt_str_view(rec.url) == Some(r.url)
    &&& opt_str_view(rec.rev) == Some(r.rev)
    &&& (rec.upstream_path matches Some(p) && p@ == vstd::utf8::encode_utf8(r.upstream))
}

/// Whether the listing holds a record carrying exactly registration `r`.
pub open spec fn listing_has_reg(out: Seq<SubcopyConfigOption>, r: RegView) -> bool {
    exists|k: int| 0 <= k < out.len() && record_is(#[trigger] out[k], r)
}

/// Pairwise distinct destinations.
pub open spec fn regs_distinct(regs: Seq<RegView>) -> bool {
    forall|a: int, b: int| 0 <= a < b < regs.len() ==> regs[a].rel != regs[b].rel
}

/// Every store entry is one of the registrations' writes.
#[verifier::opaque]
pub open spec fn entries_all_registered(entries: Seq<ConfigEntry>, regs: Seq<RegView>) -> bool {
    forall|i: int|
        0 <= i < entries.len() ==> exists|a: int|
            0 <= a < regs.len() && entry_records(#[trigger] entries[i], regs[a])
}

/// Every registration's three keys are present in the store.
#[verifier::opaque]
pub open spec fn reg_keys_present(entries: Seq<ConfigEntry>, regs: Seq<RegView>) -> bool {
    forall|a: int|
        0 <= a < regs.len() ==> entry_key_present(
            entries,
            key_of((#[trigger] regs[a]).rel, ConfigField::Url),
        ) && entry_key_present(entries, key_of(regs[a].rel, ConfigField::Rev))
            && entry_key_present(entries, key_of(regs[a].rel, ConfigField::UpstreamPath))
}

/// What `list` promises of its result, as one predicate.
pub open spec fn listing_contract(entries: Seq<ConfigEntry>, out: Seq<SubcopyConfigOption>) -> bool {
    &&& (forall|k1: int, k2: int|
        0 <= k1 < k2 < out.len() ==> out[k1].local_path@ != out[k2].local_path@)
    &&& (forall|m: Seq<u8>|
        #![trigger record_present(out, m)]
        #![trigger key_occurs(entries, m)]
        record_present(out, m) <==> key_occurs(entries, m))
    &&& (forall|k: int| 0 <= k < out.len() ==> record_matches(#[trigger] out[k], entries))
}

/// Every store entry's key parses to some registered destination.
proof fn lemma_entry_destination(entries: Seq<ConfigEntry>, regs: Seq<RegView>, i: int)
    requires
        0 <= i < entries.len(),
        entries_all_registered(entries, regs),
    ensures
        exists|a: int|
            #![trigger regs[a]]
            0 <= a < regs.len() && parsed_to(entries[i], regs[a].rel),
{
    reveal(entries_all_registered);
    let a = choose|a: int| 0 <= a < regs.len() && entry_records(entries[i], regs[a]);
    lemma_key_roundtrip(regs[a].rel, ConfigField::Url);
    lemma_key_roundtrip(regs[a].rel, ConfigField::Rev);
    lemma_key_roundtrip(regs[a].rel, ConfigField::UpstreamPath);
    assert(parsed_to(entries[i], regs[a].rel));
}

/// The three key-presence facts of one registration.
proof fn lemma_reg_keys_instance(entries: Seq<ConfigEntry>, regs: Seq<RegView>, a: int)
    requires
        0 <= a < regs.len(),
        reg_keys_present(entries, regs),
    ensures
        entry_key_present(entries, key_of(regs[a].rel, ConfigField::Url)),
        entry_key_present(entries, key_of(regs[a].rel, ConfigField::Rev)),
        entry_key_present(entries, key_of(regs[a].rel, ConfigField::UpstreamPath)),
{
    reveal(reg_keys_present);
}

/// A registered destination occurs in the store.
proof fn lemma_reg_key_occurs(entries: Seq<ConfigEntry>, regs: Seq<RegView>, a: int)
    requires
        0 <= a < regs.len(),
        reg_keys_present(entries, regs),
    ensures
        key_occurs(entries, regs[a].rel),
{
    reveal(reg_keys_present);
    let r = regs[a];
    lemma_key_roundtrip(r.rel, ConfigField::Url);
    let iu = choose|i: int|
        0 <= i < entries.len() && (#[trigger] entries[i]).key@ == key_of(
            r.rel,
            ConfigField::Url,
        );
    assert(parsed_to(entries[iu], r.rel));
}

/// A listing of such a store has no more records than registrations and no
/// fewer: the two name the same destinations, each exactly once.
proof fn lemma_listing_count(
    entries: Seq<ConfigEntry>,
    regs: Seq<RegView>,
    out: Seq<SubcopyConfigOption>,
)
    requires
        regs_distinct(regs),
        entries_all_registered(entries, regs),
        listing_contract(entries, out),
        forall|a: int| 0 <= a < regs.len() ==> listing_has_reg(out, #[trigger] regs[a]),
    ensures
        out.len() == regs.len(),
{
    let out_rels = Seq::new(out.len(), |k: int| out[k].local_path@);
    let reg_rels = Seq::new(regs.len(), |a: int| regs[a].rel);
    assert(out_rels.no_duplicates());
    assert(reg_rels.no_duplicates());
    assert forall|x: Seq<u8>| out_rels.contains(x) implies reg_rels.contains(x) by {
        let k = choose|k: int| 0 <= k < out_rels.len() && out_rels[k] == x;
        assert(record_present(out, x));
        assert(key_occurs(entries, x));
        let i = choose|i: int| 0 <= i < entries.len() && #[trigger] parsed_to(entries[i], x);
        lemma_entry_destination(entries, regs, i);
        let a = choose|a: int|
            #![trigger regs[a]]
            0 <= a < regs.len() && parsed_to(entries[i], regs[a].rel);
        assert(reg_rels[a] == x);
    }
    assert forall|x: Seq<u8>| reg_rels.contains(x) implies out_rels.contains(x) by {
        let a = choose|a: int| 0 <= a < reg_rels.len() && reg_rels[a] == x;
        assert(listing_has_reg(out, regs[a]));
        let k = choose|k: int| 0 <= k < out.len() && record_is(#[trigger] out[k], regs[a]);
        assert(out_rels[k] == x);
    }
    assert(out_rels.to_set() =~= reg_rels.to_set());
    out_rels.unique_seq_to_set();
    reg_rels.unique_seq_to_set();
}

/// Listing after independent registrations: where the store holds exactly
/// the writes of registrations at pairwise distinct destinations — every
/// entry is one of their writes, every write's key is present, in whatever
/// order the store keeps them — any listing that satisfies `list`'s contract
/// has exactly one record per registration, and each record carries that
/// registration's three values.
#[verifier::rlimit(100)]
pub proof fn lemma_list_after_registers(
    entries: Seq<ConfigEntry>,
    regs: Seq<RegView>,
    out: Seq<SubcopyConfigOption>,
)
    requires
        regs_distinct(regs),
        entries_all_registered(entries, regs),
        reg_keys_present(entries, regs),
        listing_contract(entries, out),
    ensures
        out.len() == regs.len(),
        forall|a: int| 0 <= a < regs.len() ==> listing_has_reg(out, #[trigger] regs[a]),
{
    assert forall|a: int| 0 <= a < regs.len() implies listing_has_reg(
        out,
        #[trigger] regs[a],
    ) by {
        let r = regs[a];
        lemma_reg_keys_instance(entries, regs, a);
        lemma_reg_key_occurs(entries, regs, a);
        assert(record_present(out, r.rel));
        let k = choose|k: int| 0 <= k < out.len() && (#[trigger] out[k].local_path)@ == r.rel;
        lemma_registered_field(entries, regs, a, ConfigField::Url, Some(r.url));
        lemma_registered_field(entries, regs, a, ConfigField::Rev, Some(r.rev));
        lemma_registered_field(entries, regs, a, ConfigField::UpstreamPath, Some(r.upstream));
        assert(record_matches(out[k], entries));
        assert(record_is(out[k], r));
        assert(listing_has_reg(out, regs[a]));
    }
    lemma_listing_count(entries, regs, out);
}

/// Any store entry that parses to field `f` of registration `a` carries that
/// registration's value for the field, so the listing's value is exactly it.
proof fn lemma_registered_field(
    entries: Seq<ConfigEntry>,
    regs: Seq<RegView>,
    a: int,
    f: ConfigField,
    v: Option<Seq<char>>,
)
    requires
        0 <= a < regs.len(),
        regs_distinct(regs),
        entries_all_registered(entries, regs),
        entry_key_present(entries, key_of(regs[a].rel, f)),
        v == (match f {
            ConfigField::Url => Some(regs[a].url),
            ConfigField::Rev => Some(regs[a].rev),
            ConfigField::UpstreamPath => Some(regs[a].upstream),
        }),
    ensures
        listed_field(entries, regs[a].rel, f) == Some(v),
{
    reveal(entries_all_registered);
    let m = regs[a].rel;
    assert forall|i: int|
        0 <= i < entries.len() && parse_key((#[trigger] entries[i]).key@) == Some((m, f)) implies
        opt_str_view(entries[i].value) == v by {
        let b = choose|b: int| 0 <= b < regs.len() && entry_records(entries[i], regs[b]);
        lemma_key_roundtrip(regs[b].rel, ConfigField::Url);
        lemma_key_roundtrip(regs[b].rel, ConfigField::Rev);
        lemma_key_roundtrip(regs[b].rel, ConfigField::UpstreamPath);
        // The entry's key parses to its own registration's destination, so
        // that registration is `a`, and the parsed field picks the value.
        assert(regs[b].rel == m);
        assert(b == a) by {
            if b != a {
                if b < a {
                    assert(regs[b].rel != regs[a].rel);
                } else {
                    assert(regs[a].rel != regs[b].rel);
                }
            }
        }
    }
    let iw = choose|i: int|
        0 <= i < entries.len() && (#[trigger] entries[i]).key@ == key_of(m, f);
    lemma_key_roundtrip(m, f);
    assert(parse_key(entries[iw].key@) == Some((m, f)));
    lemma_listed_field_constant(entries, m, f, v);
}

/// Copies an optional byte string.
fn clone_opt_bytes(o: &Option<Vec<u8>>) -> (r: Option<Vec<u8>>)
    ensures
        r is Some <==> o is Some,
        r matches Some(v) ==> o matches Some(w) && v@ == w@,
{
    match o {
        Some(v) => Some(crate::bytepath::clone_bytes(v)),
        None => None,
    }
}

/// Finds the record listed for destination `rel`, if one is.
fn find_record(out: &Vec<SubcopyConfigOption>, rel: &Vec<u8>) -> (r: Option<usize>)
    ensures
        match r {
            Some(k) => k < out@.len() && out@[k as int].local_path@ == rel@,
            None => forall|k: int| 0 <= k < out@.len() ==> out@[k].local_path@ != rel@,
        },
{
    let mut k: usize = 0;
    while k < out.len()
        invariant
            k <= out@.len(),
            forall|j: int| 0 <= j < k ==> out@[j].local_path@ != rel@,
        decreases out@.len() - k,
    {
        if bytes_eq(&out[k].local_path, rel) {
            return Some(k);
        }
        k = k + 1;
    }
    None
}

impl ProvenanceStore {
    /// Assembles one partial record per destination out of every store entry
    /// whose key is a record key: grouping tolerates missing fields, later
    /// entries override earlier ones for the same key, and keys of any other
    /// shape are ignored.
    pub fn list(&self, entries: &Vec<ConfigEntry>) -> (r: Vec<SubcopyConfigOption>)
        ensures
            forall|k1: int, k2: int|
                0 <= k1 < k2 < r@.len() ==> r@[k1].local_path@ != r@[k2].local_path@,
            forall|m: Seq<u8>|
                #![trigger record_present(r@, m)]
                #![trigger key_occurs(entries@, m)]
                record_present(r@, m) <==> key_occurs(entries@, m),
            forall|k: int| 0 <= k < r@.len() ==> record_matches(#[trigger] r@[k], entries@),
    {
        let mut out: Vec<SubcopyConfigOption> = Vec::new();
        let mut i: usize = 0;
        while i < entries.len()
            invariant
                i <= entries@.len(),
                forall|k1: int, k2: int|
                    0 <= k1 < k2 < out@.len() ==> out@[k1].local_path@ != out@[k2].local_path@,
                forall|m: Seq<u8>|
                    #![trigger record_present(out@, m)]
                    #![trigger key_occurs(entries@.take(i as int), m)]
                    record_present(out@, m) <==> key_occurs(entries@.take(i as int), m),
                forall|k: int|
                    0 <= k < out@.len() ==> record_matches(
                        #[trigger] out@[k],
                        entries@.take(i as int),
                    ),
            decreases entries@.len() - i,
        {
            let ghost prefix = entries@.take(i as int);
            let ghost next = entries@.take(i as int + 1);
            let ghost prev_out = out@;
            match parse_subcopy_key(&entries[i].key) {
                None => {
                    proof {
                        assert forall|k: int| 0 <= k < out@.len() implies record_matches(
                            #[trigger] out@[k],
                            next,
                        ) by {
                            let m = out@[k].local_path@;
                            lemma_step_listed(entries@, i as int, m, ConfigField::Url);
                            lemma_step_listed(entries@, i as int, m, ConfigField::Rev);
                            lemma_step_listed(entries@, i as int, m, ConfigField::UpstreamPath);
                        }
                        assert forall|m: Seq<u8>|
                            #![trigger record_present(out@, m)]
                            #![trigger key_occurs(next, m)]
                            record_present(out@, m) <==> key_occurs(next, m) by {
                            lemma_step_occurs(entries@, i as int, m);
                        }
                    }
                },
                Some((rel, f)) => {
                    let ghost relv = rel@;
                    let ghost was_new: bool;
                    let idx: usize;
                    match find_record(&out, &rel) {
                        Some(k) => {
                            idx = k;
                            proof {
                                was_new = false;
                            }
                        },
                        None => {
                            proof {
                                was_new = true;
                                assert(!record_present(out@, relv)) by {
                                    if record_present(out@, relv) {
                                        let k = choose|k: int|
                                            0 <= k < out@.len() && (#[trigger] out@[k].local_path)@
                                                == relv;
                                    }
                                }
                            }
                            out.push(
                                SubcopyConfigOption {
                                    url: None,
                                    rev: None,
                                    upstream_path: None,
                                    local_path: rel,
                                },
                            );
                            idx = out.len() - 1;
                        },
                    }
                    let ghost mid_out = out@;
                    let new_url: Option<String>;
                    let new_rev: Option<String>;
                    let new_up: Option<Vec<u8>>;
                    match f {
                        ConfigField::Url => {
                            new_url = clone_opt_string(&entries[i].value);
                            new_rev = clone_opt_string(&out[idx].rev);
                            new_up = clone_opt_bytes(&out[idx].upstream_path);
                        },
                        ConfigField::Rev => {
                            new_url = clone_opt_string(&out[idx].url);
                            new_rev = clone_opt_string(&entries[i].value);
                            new_up = clone_opt_bytes(&out[idx].upstream_path);
                        },
                        ConfigField::UpstreamPath => {
                            new_url = clone_opt_string(&out[idx].url);
                            new_rev = clone_opt_string(&out[idx].rev);
                            new_up = match &entries[i].value {
                                Some(s) => Some(
                                    vstd::string::StrSliceExecFns::as_bytes_vec(s.as_str()),
                                ),
                                None => None,
                            };
                        },
                    }
                    let new_lp = crate::bytepath::clone_bytes(&out[idx].local_path);
                    let updated = SubcopyConfigOption {
                        url: new_url,
                        rev: new_rev,
                        upstream_path: new_up,
                        local_path: new_lp,
                    };
                    vstd::pervasive::VecAdditionalExecFns::set(&mut out, idx, updated);
                    proof {
                        assert(out@[idx as int].local_path@ == relv);
                        assert forall|k: int| 0 <= k < out@.len() implies record_matches(
                            #[trigger] out@[k],
                            next,
                        ) by {
                            let m = out@[k].local_path@;
                            lemma_step_listed(entries@, i as int, m, ConfigField::Url);
                            lemma_step_listed(entries@, i as int, m, ConfigField::Rev);
                            lemma_step_listed(entries@, i as int, m, ConfigField::UpstreamPath);
                            if k != idx {
                                assert(out@[k] == prev_out[k]);
                                assert(record_matches(prev_out[k], prefix));
                                assert(m != relv) by {
                                    if m == relv {
                                        assert(out@[idx as int].local_path@ == relv);
                                    }
                                }
                            } else {
                                if was_new {
                                    assert(!key_occurs(prefix, relv)) by {
                                        if key_occurs(prefix, relv) {
                                            assert(record_present(prev_out, relv));
                                        }
                                    }
                                    lemma_no_occurrence_no_field(prefix, relv, ConfigField::Url);
                                    lemma_no_occurrence_no_field(prefix, relv, ConfigField::Rev);
                                    lemma_no_occurrence_no_field(
                                        prefix,
                                        relv,
                                        ConfigField::UpstreamPath,
                                    );
                                } else {
                                    assert(record_matches(prev_out[idx as int], prefix));
                                }
                            }
                        }
                        assert forall|m: Seq<u8>|
                            #![trigger record_present(out@, m)]
                            #![trigger key_occurs(next, m)]
                            record_present(out@, m) <==> key_occurs(next, m) by {
                            lemma_step_occurs(entries@, i as int, m);
                            if record_present(out@, m) {
                                let k = choose|k: int|
                                    0 <= k < out@.len() && (#[trigger] out@[k].local_path)@ == m;
                                if k == idx {
                                    assert(parsed_to(entries@[i as int], m));
                                } else {
                                    assert(out@[k] == prev_out[k]);
                                    assert(record_present(prev_out, m));
                                }
                            }
                            if key_occurs(prefix, m) {
                                assert(record_present(prev_out, m));
                                let k = choose|k: int|
                                    0 <= k < prev_out.len() && (#[trigger] prev_out[k].local_path)@
                                        == m;
                                assert(out@[k].local_path@ == m) by {
                                    if k != idx {
                                        assert(out@[k] == prev_out[k]);
                                    } else {
                                        assert(prev_out[idx as int].local_path@ == relv);
                                    }
                                }
                                assert(record_present(out@, m));
                            }
                            if parsed_to(entries@[i as int], m) {
                                assert(m == relv);
                                assert(record_present(out@, m));
                            }
                        }
                    }
                },
            }
            i = i + 1;
        }
        proof {
            assert(entries@.take(i as int) =~= entries@);
        }
        out
    }
}

} // verus!
